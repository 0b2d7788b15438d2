use vstd::prelude::*;
use vstd::std_specs::cmp::PartialEqSpec;

verus! {

/// Whether `==` on values of `T` decides equality of their abstract values
/// (their views).  The registry compares event keys with `==`; its exact
/// contracts hold for key types whose equality agrees with their view, such
/// as the integer types, `str`, `String` and references to these.
pub open spec fn eq_decides_view<T: PartialEq + View + ?Sized>() -> bool {
    &&& T::obeys_eq_spec()
    &&& forall|x: &T, y: &T| #[trigger] x.eq_spec(y) <==> x@ == y@
}

/// The abstract state of an emitter: the identifier the next registration
/// will return, and, for each event key's abstract value, the sequence of
/// identifiers registered under it, in registration order.  A key stays in
/// the table even when all of its listeners have been removed.
#[verifier::ext_equal]
#[verifier::reject_recursive_types(K)]
pub struct EmitterView<K> {
    pub next_id: u64,
    pub table: Map<K, Seq<u64>>,
}

impl<K> EmitterView<K> {
    /// The emitter that has seen no registrations.
    pub open spec fn empty() -> EmitterView<K> {
        EmitterView { next_id: 0, table: Map::empty() }
    }

    /// Well-formedness: identifiers are issued by one counter, so every
    /// registered identifier is below `next_id`, the identifiers under one
    /// key strictly increase in registration order, and no identifier
    /// appears under two distinct keys.
    pub open spec fn wf(self) -> bool {
        &&& forall|k: K, i: int, j: int|
            self.table.contains_key(k) && 0 <= i < j < self.table[k].len()
                ==> #[trigger] self.table[k][i] < #[trigger] self.table[k][j]
        &&& forall|k: K, i: int|
            self.table.contains_key(k) && 0 <= i < self.table[k].len()
                ==> #[trigger] self.table[k][i] < self.next_id
        &&& forall|k1: K, k2: K, i: int, j: int|
            k1 != k2 && self.table.contains_key(k1) && self.table.contains_key(k2)
                && 0 <= i < self.table[k1].len() && 0 <= j < self.table[k2].len()
                ==> #[trigger] self.table[k1][i] != #[trigger] self.table[k2][j]
    }

    /// Whether some listener is currently registered under identifier `id`.
    pub open spec fn contains_id(self, id: u64) -> bool {
        exists|k: K| #[trigger] self.table.contains_key(k) && self.table[k].contains(id)
    }

    /// The key under which identifier `id` is registered.  Meaningful when
    /// `contains_id(id)` holds; under `wf` that key is unique.
    pub open spec fn owner_of(self, id: u64) -> K {
        choose|k: K| #[trigger] self.table.contains_key(k) && self.table[k].contains(id)
    }

    /// The state after registering one listener under key `k`: the fresh
    /// identifier `next_id` is appended to the key's sequence (an absent key
    /// starts from the empty sequence) and the counter advances.
    pub open spec fn register(self, k: K) -> EmitterView<K> {
        let prior = if self.table.contains_key(k) {
            self.table[k]
        } else {
            Seq::empty()
        };
        EmitterView {
            next_id: (self.next_id + 1) as u64,
            table: self.table.insert(k, prior.push(self.next_id)),
        }
    }

    /// The state after removing the listener registered under identifier
    /// `id`: the identifier leaves its key's sequence, the key itself stays
    /// in the table, and the counter is unchanged.  When no listener has
    /// that identifier, the state is unchanged.
    pub open spec fn deregister(self, id: u64) -> EmitterView<K> {
        if self.contains_id(id) {
            let k = self.owner_of(id);
            let s = self.table[k];
            EmitterView { next_id: self.next_id, table: self.table.insert(k, s.remove(s.index_of(id))) }
        } else {
            self
        }
    }
}

} // verus!
