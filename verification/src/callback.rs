use vstd::prelude::*;

verus! {

/// An owned callback of one payload argument, stored behind a boxed function
/// trait object.  Verus does not support `dyn` function objects, so the box
/// is held in a struct whose body Verus does not read; the value is opaque
/// and nothing is claimed about what the stored closure computes.
#[verifier::external_body]
#[verifier::reject_recursive_types(P)]
pub(crate) struct Callback<P> {
    f: Box<dyn Fn(P)>,
}

impl<P> Callback<P> {
    /// Relies on `Box::new`: the box stores exactly the given closure, which
    /// `invoke` later calls.  The `requires` records that the caller hands
    /// over a closure that may be called on every payload value; `invoke`
    /// depends on it.
    #[verifier::external_body]
    pub(crate) fn new<F: Fn(P) + 'static>(f: F) -> Callback<P>
        requires
            forall|p: P| call_requires(f, (p,)),
    {
        Callback { f: Box::new(f) }
    }

    /// Relies on `Fn::call` through the box: calls the stored closure once
    /// with the given payload, for its side effects alone.  The closure was
    /// accepted by `new` only with a trivial precondition, so the call is
    /// permitted; nothing is known of what it does, and a panic raised by
    /// the caller's own closure propagates to whoever dispatched it.
    #[verifier::external_body]
    pub(crate) fn invoke(&self, payload: P) {
        (self.f)(payload)
    }
}

/// A registered callback together with the identifier it was registered
/// under.
#[verifier::reject_recursive_types(P)]
pub struct Listener<P> {
    id: u64,
    callback: Callback<P>,
}

impl<P> Listener<P> {
    /// The identifier this listener was registered under.
    pub closed spec fn spec_id(self) -> u64 {
        self.id
    }

    /// Pairs an identifier with a callback.
    pub fn new<F: Fn(P) + 'static>(id: u64, f: F) -> (r: Self)
        requires
            forall|p: P| call_requires(f, (p,)),
        ensures
            r.spec_id() == id,
    {
        Listener { id, callback: Callback::new(f) }
    }

    /// The identifier, as an executable value.
    pub fn id(&self) -> (r: u64)
        ensures
            r == self.spec_id(),
    {
        self.id
    }

    /// Calls the stored callback with the given payload.
    pub(crate) fn call(&self, payload: P) {
        self.callback.invoke(payload)
    }
}

} // verus!
