use vstd::prelude::*;

use core::borrow::Borrow;
use core::hash::Hash;

use crate::callback::Listener;
use crate::model::EmitterView;
use crate::model::eq_decides_view;

verus! {

/// The two ways an operation on the registry can fail.
#[derive(Debug, PartialEq, Eq)]
pub enum Error {
    /// `off` found no listener registered under the given identifier.
    ListenerNotFound,
    /// `emit` found no entry for the given event key: no listener was ever
    /// registered under it.
    UnknownEvent,
}

/// One event key together with the listeners registered under it, in
/// registration order.
#[verifier::reject_recursive_types(P)]
struct Entry<E, P> {
    key: E,
    listeners: Vec<Listener<P>>,
}

impl<E: View, P> Entry<E, P> {
    /// The identifiers of this entry's listeners, in registration order.
    spec fn ids(self) -> Seq<u64> {
        self.listeners@.map_values(|l: Listener<P>| l.spec_id())
    }
}

/// The registry: a counter allocating listener identifiers and a table of
/// event keys, each with its listeners in registration order.
///
/// The table is kept as a vector of entries whose keys have pairwise
/// distinct abstract values; its order is hidden by the view, a
/// [`EmitterView`] keyed by the keys' abstract values.
#[verifier::reject_recursive_types(P)]
pub struct EventEmitter<E, P> where E: View + Eq + Hash, P: Clone {
    next_id: u64,
    entries: Vec<Entry<E, P>>,
}

impl<E, P> View for EventEmitter<E, P> where E: View + Eq + Hash, P: Clone {
    type V = EmitterView<<E as View>::V>;

    closed spec fn view(&self) -> EmitterView<<E as View>::V> {
        EmitterView {
            next_id: self.next_id,
            table: Map::new(
                |k: <E as View>::V| Self::spec_has_key(self.entries@, k),
                |k: <E as View>::V| self.entries@[Self::spec_key_index(self.entries@, k)].ids(),
            ),
        }
    }
}

impl<E, P> EventEmitter<E, P> where E: View + Eq + Hash, P: Clone {
    /// Whether some entry's key has abstract value `k`.
    spec fn spec_has_key(entries: Seq<Entry<E, P>>, k: <E as View>::V) -> bool {
        exists|i: int| 0 <= i < entries.len() && #[trigger] entries[i].key@ == k
    }

    /// The index of the entry whose key has abstract value `k`; meaningful
    /// when `spec_has_key` holds, and unique when the keys are distinct.
    spec fn spec_key_index(entries: Seq<Entry<E, P>>, k: <E as View>::V) -> int {
        choose|i: int| 0 <= i < entries.len() && #[trigger] entries[i].key@ == k
    }

    /// Representation invariant: entry keys have pairwise distinct abstract
    /// values, so each key's entry is unique.
    pub closed spec fn keys_distinct(self) -> bool {
        forall|i: int, j: int|
            0 <= i < j < self.entries@.len()
                ==> #[trigger] self.entries@[i].key@ != #[trigger] self.entries@[j].key@
    }

    /// Well-formedness: the representation keeps one entry per key and the
    /// abstract state satisfies its identifier invariants.
    pub open spec fn wf(self) -> bool {
        &&& self.keys_distinct()
        &&& self@.wf()
    }

    /// Each entry is visible in the view: its key's abstract value is in the
    /// table and maps to exactly this entry's identifiers.
    proof fn lemma_view_entry(self, i: int)
        requires
            self.keys_distinct(),
            0 <= i < self.entries@.len(),
        ensures
            self@.table.contains_key(self.entries@[i].key@),
            self@.table[self.entries@[i].key@] == self.entries@[i].ids(),
    {
        let k = self.entries@[i].key@;
        assert(Self::spec_has_key(self.entries@, k));
        let j = Self::spec_key_index(self.entries@, k);
        assert(0 <= j < self.entries@.len() && self.entries@[j].key@ == k);
        if i != j {
            assert(false);
        }
    }

    /// An empty registry: no keys, and identifiers start at zero.
    pub fn new() -> (r: Self)
        ensures
            r.wf(),
            r@ == EmitterView::<<E as View>::V>::empty(),
    {
        let r = EventEmitter { next_id: 0, entries: Vec::new() };
        proof {
            assert(r@.table =~= Map::<<E as View>::V, Seq<u64>>::empty());
            assert(r@ =~= EmitterView::<<E as View>::V>::empty());
        }
        r
    }

    /// Registers `listener` under `event` and returns the identifier under
    /// which it can be removed again.  The identifier is the counter's
    /// current value, fresh for this registry; the listener is appended to
    /// the event's sequence, which is created at this key's first
    /// registration.
    #[verifier::loop_isolation(false)]
    pub fn on<F: Fn(P) + 'static>(&mut self, event: E, listener: F) -> (id: u64)
        requires
            old(self).wf(),
            old(self)@.next_id < u64::MAX,
            eq_decides_view::<E>(),
            forall|p: P| call_requires(listener, (p,)),
        ensures
            final(self).wf(),
            id == old(self)@.next_id,
            final(self)@ == old(self)@.register(event@),
    {
        let ghost orig = *self;
        let id = self.next_id;
        let record = Listener::new(id, listener);

        let mut i: usize = 0;
        while i < self.entries.len()
            invariant
                *self == orig,
                eq_decides_view::<E>(),
                i <= self.entries@.len(),
                forall|j: int| 0 <= j < i ==> self.entries@[j].key@ != event@,
            decreases self.entries@.len() - i,
        {
            let hit = self.entries[i].key == event;
            if hit {
                proof {
                    orig.lemma_view_entry(i as int);
                }
                let mut entry = self.entries.remove(i);
                entry.listeners.push(record);
                self.entries.insert(i, entry);
                self.next_id = self.next_id + 1;
                proof {
                    self.lemma_after_update(orig, i as int, event@, id);
                }
                return id;
            }
            i += 1;
        }

        let mut listeners = Vec::new();
        listeners.push(record);
        self.entries.push(Entry { key: event, listeners });
        self.next_id = self.next_id + 1;
        proof {
            self.lemma_after_append(orig, id);
        }
        id
    }

    /// After replacing entry `i`'s listener vector by the old one with one
    /// fresh listener appended, the view is the old view with the fresh
    /// identifier registered under that entry's key.
    proof fn lemma_after_update(
        self,
        orig: Self,
        i: int,
        k: <E as View>::V,
        id: u64,
    )
        requires
            orig.wf(),
            orig.next_id == id < u64::MAX,
            0 <= i < orig.entries@.len(),
            orig.entries@[i].key@ == k,
            self.next_id == id + 1,
            self.entries@ =~= orig.entries@.update(
                i,
                self.entries@[i],
            ),
            self.entries@[i].key@ == k,
            self.entries@[i].ids() =~= orig.entries@[i].ids().push(id),
        ensures
            self.wf(),
            self@ == orig@.register(k),
    {
        assert forall|j: int| 0 <= j < self.entries@.len() implies self.entries@[j].key@
            == orig.entries@[j].key@ by {}
        assert(self.keys_distinct());
        orig.lemma_view_entry(i);
        assert(orig@.table.contains_key(k));
        let prior = orig@.table[k];
        assert(prior == orig.entries@[i].ids());
        assert forall|q: <E as View>::V|
            Self::spec_has_key(self.entries@, q) == Self::spec_has_key(orig.entries@, q) by {
            if Self::spec_has_key(self.entries@, q) {
                let w = choose|w: int|
                    0 <= w < self.entries@.len() && #[trigger] self.entries@[w].key@ == q;
                assert(orig.entries@[w].key@ == q);
            }
            if Self::spec_has_key(orig.entries@, q) {
                let w = choose|w: int|
                    0 <= w < orig.entries@.len() && #[trigger] orig.entries@[w].key@ == q;
                assert(self.entries@[w].key@ == q);
            }
        }
        assert forall|q: <E as View>::V| #[trigger]
            Self::spec_has_key(self.entries@, q) implies self@.table[q]
            == orig@.table.insert(k, prior.push(id))[q] by {
            self.lemma_view_entry(Self::spec_key_index(self.entries@, q));
            let jn = Self::spec_key_index(self.entries@, q);
            orig.lemma_view_entry(jn);
            if q == k {
                assert(self.entries@[i].key@ == q);
                assert(jn == i);
            } else {
                assert(jn != i);
                assert(self.entries@[jn].ids() == orig.entries@[jn].ids());
            }
        }
        assert(self@.table =~= orig@.table.insert(k, prior.push(id)));
        assert(self@ =~= orig@.register(k));
        crate::laws::lemma_register_preserves_wf(orig@, k);
    }

    /// After appending a fresh entry for an unseen key with one listener,
    /// the view is the old view with the fresh identifier registered under
    /// that key.
    proof fn lemma_after_append(self, orig: Self, id: u64)
        requires
            orig.wf(),
            orig.next_id == id < u64::MAX,
            self.next_id == id + 1,
            self.entries@.len() == orig.entries@.len() + 1,
            self.entries@ =~= orig.entries@.push(self.entries@.last()),
            forall|j: int|
                0 <= j < orig.entries@.len() ==> orig.entries@[j].key@
                    != self.entries@.last().key@,
            self.entries@.last().ids() =~= Seq::<u64>::empty().push(id),
        ensures
            self.wf(),
            self@ == orig@.register(self.entries@.last().key@),
    {
        let k = self.entries@.last().key@;
        let n = orig.entries@.len() as int;
        assert forall|j: int| 0 <= j < n implies self.entries@[j].key@
            == orig.entries@[j].key@ by {}
        assert(self.keys_distinct());
        assert(!Self::spec_has_key(orig.entries@, k)) by {
            if Self::spec_has_key(orig.entries@, k) {
                let w = choose|w: int|
                    0 <= w < orig.entries@.len() && #[trigger] orig.entries@[w].key@ == k;
                assert(orig.entries@[w].key@ != k);
            }
        }
        assert(!orig@.table.contains_key(k));
        assert forall|q: <E as View>::V|
            Self::spec_has_key(self.entries@, q) == (Self::spec_has_key(orig.entries@, q) || q
                == k) by {
            if Self::spec_has_key(self.entries@, q) && q != k {
                let w = choose|w: int|
                    0 <= w < self.entries@.len() && #[trigger] self.entries@[w].key@ == q;
                assert(w != n);
                assert(orig.entries@[w].key@ == q);
            }
            if Self::spec_has_key(orig.entries@, q) {
                let w = choose|w: int|
                    0 <= w < orig.entries@.len() && #[trigger] orig.entries@[w].key@ == q;
                assert(self.entries@[w].key@ == q);
            }
            if q == k {
                assert(self.entries@[n].key@ == k);
            }
        }
        assert forall|q: <E as View>::V| #[trigger]
            Self::spec_has_key(self.entries@, q) implies self@.table[q]
            == orig@.table.insert(k, Seq::<u64>::empty().push(id))[q] by {
            let jn = Self::spec_key_index(self.entries@, q);
            self.lemma_view_entry(jn);
            if q == k {
                assert(self.entries@[n].key@ == q);
                assert(jn == n);
            } else {
                assert(jn != n);
                orig.lemma_view_entry(jn);
                assert(self.entries@[jn].ids() == orig.entries@[jn].ids());
            }
        }
        assert(self@.table =~= orig@.table.insert(k, Seq::<u64>::empty().push(id)));
        assert(self@ =~= orig@.register(k));
        crate::laws::lemma_register_preserves_wf(orig@, k);
    }

    /// Removes the listener registered under `id` from whichever event key
    /// holds it.  The key's entry is retained even when its sequence becomes
    /// empty.  Fails with [`Error::ListenerNotFound`] when no listener is
    /// currently registered under `id` — either because it was never issued
    /// or because it was already removed.
    #[verifier::loop_isolation(false)]
    pub fn off(&mut self, id: u64) -> (r: Result<(), Error>)
        requires
            old(self).wf(),
        ensures
            final(self).wf(),
            final(self)@ == old(self)@.deregister(id),
            r == if old(self)@.contains_id(id) {
                Ok::<(), Error>(())
            } else {
                Err::<(), Error>(Error::ListenerNotFound)
            },
    {
        let ghost orig = *self;
        let mut i: usize = 0;
        while i < self.entries.len()
            invariant
                *self == orig,
                i <= self.entries@.len(),
                forall|a: int| 0 <= a < i ==> !(#[trigger] orig.entries@[a].ids()).contains(id),
            decreases self.entries@.len() - i,
        {
            let mut k: usize = 0;
            while k < self.entries[i].listeners.len()
                invariant
                    *self == orig,
                    i < self.entries@.len(),
                    k <= self.entries@[i as int].listeners@.len(),
                    forall|b: int|
                        0 <= b < k ==> #[trigger] orig.entries@[i as int].ids()[b] != id,
                decreases self.entries@[i as int].listeners@.len() - k,
            {
                if self.entries[i].listeners[k].id() == id {
                    let mut entry = self.entries.remove(i);
                    let _ = entry.listeners.remove(k);
                    self.entries.insert(i, entry);
                    proof {
                        self.lemma_after_removal(orig, i as int, k as int, id);
                    }
                    return Ok(());
                }
                k += 1;
            }
            proof {
                assert(!orig.entries@[i as int].ids().contains(id)) by {
                    if orig.entries@[i as int].ids().contains(id) {
                        let b = choose|b: int|
                            0 <= b < orig.entries@[i as int].ids().len()
                                && orig.entries@[i as int].ids()[b] == id;
                        assert(orig.entries@[i as int].ids()[b] != id);
                    }
                }
            }
            i += 1;
        }
        proof {
            assert(!orig@.contains_id(id)) by {
                if orig@.contains_id(id) {
                    let q = choose|q: <E as View>::V| #[trigger]
                        orig@.table.contains_key(q) && orig@.table[q].contains(id);
                    let j = Self::spec_key_index(orig.entries@, q);
                    orig.lemma_view_entry(j);
                    assert(!orig.entries@[j].ids().contains(id));
                }
            }
        }
        Err(Error::ListenerNotFound)
    }

    /// After removing listener `k` from entry `i`, the view is the old view
    /// with identifier `id` deregistered.
    proof fn lemma_after_removal(self, orig: Self, i: int, k: int, id: u64)
        requires
            orig.wf(),
            0 <= i < orig.entries@.len(),
            0 <= k < orig.entries@[i].ids().len(),
            orig.entries@[i].ids()[k] == id,
            self.next_id == orig.next_id,
            self.entries@ =~= orig.entries@.update(i, self.entries@[i]),
            self.entries@[i].key@ == orig.entries@[i].key@,
            self.entries@[i].ids() =~= orig.entries@[i].ids().remove(k),
        ensures
            self.wf(),
            orig@.contains_id(id),
            self@ == orig@.deregister(id),
    {
        orig.lemma_view_entry(i);
        let key = orig.entries@[i].key@;
        let prior = orig@.table[key];
        assert(prior.contains(id)) by {
            assert(prior[k] == id);
        }
        assert(orig@.contains_id(id));
        assert(orig@.owner_of(id) == key) by {
            let q = orig@.owner_of(id);
            assert(orig@.table.contains_key(q) && orig@.table[q].contains(id));
            if q != key {
                let a = choose|a: int| 0 <= a < orig@.table[q].len() && orig@.table[q][a] == id;
                assert(orig@.table[q][a] != orig@.table[key][k]);
            }
        }
        assert(prior.index_of(id) == k) by {
            let j = prior.index_of(id);
            assert(0 <= j < prior.len() && prior[j] == id);
            if j < k {
                assert(prior[j] < prior[k]);
            }
            if k < j {
                assert(prior[k] < prior[j]);
            }
        }
        assert forall|j: int| 0 <= j < self.entries@.len() implies self.entries@[j].key@
            == orig.entries@[j].key@ by {}
        assert(self.keys_distinct());
        assert forall|q: <E as View>::V|
            Self::spec_has_key(self.entries@, q) == Self::spec_has_key(orig.entries@, q) by {
            if Self::spec_has_key(self.entries@, q) {
                let w = choose|w: int|
                    0 <= w < self.entries@.len() && #[trigger] self.entries@[w].key@ == q;
                assert(orig.entries@[w].key@ == q);
            }
            if Self::spec_has_key(orig.entries@, q) {
                let w = choose|w: int|
                    0 <= w < orig.entries@.len() && #[trigger] orig.entries@[w].key@ == q;
                assert(self.entries@[w].key@ == q);
            }
        }
        assert forall|q: <E as View>::V| #[trigger]
            Self::spec_has_key(self.entries@, q) implies self@.table[q]
            == orig@.table.insert(key, prior.remove(k))[q] by {
            let jn = Self::spec_key_index(self.entries@, q);
            self.lemma_view_entry(jn);
            if q == key {
                assert(self.entries@[i].key@ == q);
                assert(jn == i);
            } else {
                assert(jn != i);
                orig.lemma_view_entry(jn);
                assert(self.entries@[jn].ids() == orig.entries@[jn].ids());
            }
        }
        assert(self@.table =~= orig@.table.insert(key, prior.remove(k)));
        assert(self@ =~= orig@.deregister(id));
        crate::laws::lemma_deregister_preserves_wf(orig@, id);
    }

    /// The index of the entry for `event`, compared through the key's
    /// borrowed form, or `None` when no entry's key matches.
    #[verifier::loop_isolation(false)]
    fn find_entry<B>(&self, event: &B) -> (r: Option<usize>) where
        E: Borrow<B>,
        B: ?Sized + Eq + View<V = <E as View>::V>,

        requires
            self.wf(),
        ensures
            match r {
                Some(i) => i < self.entries@.len() && (eq_decides_view::<B>()
                    ==> self.entries@[i as int].key@ == event@),
                None => eq_decides_view::<B>() ==> !Self::spec_has_key(self.entries@, event@),
            },
    {
        let mut i: usize = 0;
        while i < self.entries.len()
            invariant
                i <= self.entries@.len(),
                eq_decides_view::<B>() ==> forall|j: int|
                    0 <= j < i ==> self.entries@[j].key@ != event@,
            decreases self.entries@.len() - i,
        {
            let borrowed: &B = borrow_key(&self.entries[i].key);
            if borrowed == event {
                return Some(i);
            }
            i += 1;
        }
        None
    }

    /// Dispatches `payload` to every listener registered under `event`, in
    /// registration order, each receiving its own duplicate of the payload.
    /// The lookup goes through the key's borrowed form `B`, so an event
    /// registered under an owned key can be dispatched by an equivalent
    /// borrowed value.  Succeeds exactly when the key has an entry — also
    /// when that entry's sequence is empty, in which case nothing is
    /// invoked — and fails with [`Error::UnknownEvent`] when the key was
    /// never registered.
    #[verifier::loop_isolation(false)]
    pub fn emit<B>(&self, event: &B, payload: P) -> (r: Result<(), Error>) where
        E: Borrow<B>,
        B: ?Sized + Eq + Hash + View<V = <E as View>::V>,

        requires
            self.wf(),
        ensures
            r == Ok::<(), Error>(()) || r == Err::<(), Error>(Error::UnknownEvent),
            eq_decides_view::<B>() ==> r == if self@.table.contains_key(event@) {
                Ok::<(), Error>(())
            } else {
                Err::<(), Error>(Error::UnknownEvent)
            },
    {
        match self.find_entry(event) {
            Some(i) => {
                proof {
                    self.lemma_view_entry(i as int);
                }
                let n = self.entries[i].listeners.len();
                let mut k: usize = 0;
                while k < n
                    invariant
                        k <= n,
                        i < self.entries@.len(),
                        n == self.entries@[i as int].listeners@.len(),
                    decreases n - k,
                {
                    self.entries[i].listeners[k].call(payload.clone());
                    k += 1;
                }
                Ok(())
            },
            None => Err(Error::UnknownEvent),
        }
    }

    /// The number of listeners currently registered under `event`, looked up
    /// through the key's borrowed form, or `None` when the key has no entry.
    pub fn listener_count<B>(&self, event: &B) -> (r: Option<usize>) where
        E: Borrow<B>,
        B: ?Sized + Eq + Hash + View<V = <E as View>::V>,

        requires
            self.wf(),
        ensures
            eq_decides_view::<B>() ==> r == if self@.table.contains_key(event@) {
                Some(self@.table[event@].len() as usize)
            } else {
                None::<usize>
            },
    {
        match self.find_entry(event) {
            Some(i) => {
                proof {
                    self.lemma_view_entry(i as int);
                }
                Some(self.entries[i].listeners.len())
            },
            None => None,
        }
    }
}

/// Relies on `Borrow::borrow`: the borrowed form of a key stands for the
/// same abstract value (the same view) as the key itself.  std's `Borrow`
/// contract demands that equality and hashing agree between a value and its
/// borrowed form, and its implementations — the identity, `String` to
/// `str`, `Box<T>` to `T`, `Vec<T>` to `[T]` — all keep the view.
#[verifier::external_body]
fn borrow_key<'a, E, B>(key: &'a E) -> (r: &'a B) where
    E: Borrow<B> + View,
    B: ?Sized + View<V = <E as View>::V>,

    ensures
        r@ == key@,
{
    key.borrow()
}

} // verus!
