use vstd::prelude::*;

use crate::model::EmitterView;

verus! {

/// Registration preserves well-formedness.
pub proof fn lemma_register_preserves_wf<K>(v: EmitterView<K>, k: K)
    requires
        v.wf(),
        v.next_id < u64::MAX,
    ensures
        v.register(k).wf(),
{
}

/// Deregistration preserves well-formedness.
pub proof fn lemma_deregister_preserves_wf<K>(v: EmitterView<K>, id: u64)
    requires
        v.wf(),
    ensures
        v.deregister(id).wf(),
{
    if v.contains_id(id) {
        let k = v.owner_of(id);
        let s = v.table[k];
        let w = v.deregister(id);
        assert(w.table[k] == s.remove(s.index_of(id)));
        assert forall|q: K, a: int, b: int|
            w.table.contains_key(q) && 0 <= a < b < w.table[q].len() implies #[trigger] w.table[q][a]
            < #[trigger] w.table[q][b] by {
            if q == k {
                assert(s.remove(s.index_of(id))[a] == s[if a < s.index_of(id) {
                    a
                } else {
                    a + 1
                }]);
            }
        }
        assert forall|q: K, a: int|
            w.table.contains_key(q) && 0 <= a < w.table[q].len() implies #[trigger] w.table[q][a]
            < w.next_id by {}
        assert forall|q1: K, q2: K, a: int, b: int|
            q1 != q2 && w.table.contains_key(q1) && w.table.contains_key(q2) && 0 <= a
                < w.table[q1].len() && 0 <= b < w.table[q2].len() implies #[trigger] w.table[q1][a]
            != #[trigger] w.table[q2][b] by {}
    }
}

/// The identifier a registration returns is fresh — no current registration
/// holds it — and is registered once the call returns.  Together with
/// `lemma_register_ids_strictly_increasing`, the identifiers returned by any
/// sequence of registrations are pairwise distinct.
pub proof fn lemma_registered_id_fresh<K>(v: EmitterView<K>, k: K)
    requires
        v.wf(),
        v.next_id < u64::MAX,
    ensures
        !v.contains_id(v.next_id),
        v.register(k).contains_id(v.next_id),
{
    if v.contains_id(v.next_id) {
        let q = choose|q: K| #[trigger] v.table.contains_key(q) && v.table[q].contains(v.next_id);
        let a = choose|a: int| 0 <= a < v.table[q].len() && v.table[q][a] == v.next_id;
        assert(v.table[q][a] < v.next_id);
    }
    let w = v.register(k);
    assert(w.table.contains_key(k) && w.table[k].contains(v.next_id)) by {
        assert(w.table[k].last() == v.next_id);
    }
}

/// A registration returns the counter's current value and advances the
/// counter by exactly one, whatever its key: the identifiers returned by any
/// sequence of registrations strictly increase in call order.
pub proof fn lemma_register_ids_strictly_increasing<K>(v: EmitterView<K>, k: K)
    requires
        v.next_id < u64::MAX,
    ensures
        v.register(k).next_id == v.next_id + 1,
{
}

/// An event key enters the table only through a registration under that very
/// key: registering a different key or deregistering an identifier never
/// adds it.  A key that was never registered therefore has no entry, and
/// dispatching it fails.
pub proof fn lemma_key_appears_only_when_registered<K>(v: EmitterView<K>, k: K, other: K, id: u64)
    requires
        !v.table.contains_key(k),
    ensures
        other != k ==> !v.register(other).table.contains_key(k),
        !v.deregister(id).table.contains_key(k),
{
    lemma_deregister_keeps_keys(v, id);
}

/// Registering two listeners under one key appends their identifiers to that
/// key's sequence in call order: a later dispatch reaches both, in
/// registration order.
pub proof fn lemma_register_same_key_appends<K>(v: EmitterView<K>, k: K)
    requires
        v.next_id + 1 < u64::MAX,
    ensures
        ({
            let prior = if v.table.contains_key(k) {
                v.table[k]
            } else {
                Seq::<u64>::empty()
            };
            let v1 = v.register(k);
            let v2 = v1.register(k);
            &&& v2.table.contains_key(k)
            &&& v2.table[k] == prior.push(v.next_id).push(v1.next_id)
        }),
{
}

/// Deregistering an identifier right after the registration that returned it
/// succeeds exactly once: the identifier is registered before the first
/// deregistration and gone after it, so a second deregistration of the same
/// identifier fails and changes nothing.
pub proof fn lemma_deregister_succeeds_once<K>(v: EmitterView<K>, k: K)
    requires
        v.wf(),
        v.next_id < u64::MAX,
    ensures
        ({
            let id = v.next_id;
            let v1 = v.register(k);
            &&& v1.contains_id(id)
            &&& !v1.deregister(id).contains_id(id)
            &&& v1.deregister(id).deregister(id) == v1.deregister(id)
        }),
{
    let id = v.next_id;
    let v1 = v.register(k);
    lemma_registered_id_fresh(v, k);
    lemma_register_preserves_wf(v, k);
    lemma_deregister_removes_id(v1, id);
}

/// Deregistering a registered identifier removes it entirely: afterwards no
/// registration holds it.
pub proof fn lemma_deregister_removes_id<K>(v: EmitterView<K>, id: u64)
    requires
        v.wf(),
        v.contains_id(id),
    ensures
        !v.deregister(id).contains_id(id),
        v.deregister(id).deregister(id) == v.deregister(id),
{
    let k = v.owner_of(id);
    let s = v.table[k];
    let w = v.deregister(id);
    let idx = s.index_of(id);
    assert(0 <= idx < s.len() && s[idx] == id);
    assert(!s.remove(idx).contains(id)) by {
        if s.remove(idx).contains(id) {
            let a = choose|a: int| 0 <= a < s.remove(idx).len() && s.remove(idx)[a] == id;
            if a < idx {
                assert(s[a] == id && s[a] < s[idx]);
            } else {
                assert(s[a + 1] == id && s[idx] < s[a + 1]);
            }
        }
    }
    if w.contains_id(id) {
        let q = choose|q: K| #[trigger] w.table.contains_key(q) && w.table[q].contains(id);
        if q == k {
            assert(!w.table[k].contains(id));
        } else {
            assert(v.table[q].contains(id));
            let a = choose|a: int| 0 <= a < v.table[q].len() && v.table[q][a] == id;
            assert(v.table[q][a] != v.table[k][idx]);
        }
    }
}

/// Deregistering an identifier the registry never issued fails and changes
/// nothing: every issued identifier lies below the counter.
pub proof fn lemma_deregister_unknown_id_fails<K>(v: EmitterView<K>, id: u64)
    requires
        v.wf(),
        id >= v.next_id,
    ensures
        !v.contains_id(id),
        v.deregister(id) == v,
{
    if v.contains_id(id) {
        let q = choose|q: K| #[trigger] v.table.contains_key(q) && v.table[q].contains(id);
        let a = choose|a: int| 0 <= a < v.table[q].len() && v.table[q][a] == id;
        assert(v.table[q][a] < v.next_id);
    }
}

/// After registering two listeners under one key and removing the first of
/// the two, only the second of them remains appended to the key's sequence:
/// a later dispatch reaches the remaining listener alone.
pub proof fn lemma_remove_one_of_two<K>(v: EmitterView<K>, k: K)
    requires
        v.wf(),
        v.next_id + 1 < u64::MAX,
    ensures
        ({
            let prior = if v.table.contains_key(k) {
                v.table[k]
            } else {
                Seq::<u64>::empty()
            };
            let id1 = v.next_id;
            let v1 = v.register(k);
            let v2 = v1.register(k);
            let w = v2.deregister(id1);
            &&& w.table.contains_key(k)
            &&& w.table[k] == prior.push(v1.next_id)
        }),
{
    let prior = if v.table.contains_key(k) {
        v.table[k]
    } else {
        Seq::<u64>::empty()
    };
    let id1 = v.next_id;
    let id2 = (v.next_id + 1) as u64;
    let v1 = v.register(k);
    let v2 = v1.register(k);
    lemma_register_preserves_wf(v, k);
    lemma_register_preserves_wf(v1, k);
    lemma_register_same_key_appends(v, k);
    let s = v2.table[k];
    assert(s == prior.push(id1).push(id2));
    assert(s.contains(id1)) by {
        assert(s[prior.len() as int] == id1);
    }
    assert(v2.contains_id(id1));
    let q = v2.owner_of(id1);
    assert(v2.table.contains_key(q) && v2.table[q].contains(id1));
    if q != k {
        let a = choose|a: int| 0 <= a < v2.table[q].len() && v2.table[q][a] == id1;
        assert(v2.table[q][a] != s[prior.len() as int]);
    }
    assert(s.index_of(id1) == prior.len() as int) by {
        let j = s.index_of(id1);
        assert(0 <= j < s.len() && s[j] == id1);
        if j < prior.len() as int {
            assert(s[j] < s[prior.len() as int]);
        }
        if (prior.len() as int) < j {
            assert(s[prior.len() as int] < s[j]);
        }
    }
    assert(s.remove(prior.len() as int) =~= prior.push(id2));
    assert(v2.deregister(id1).table[k] == prior.push(id2));
}

/// Deregistration never removes an event key: a key whose last listener was
/// removed keeps its entry, with an empty sequence, so dispatching that key
/// still succeeds and invokes nothing.
pub proof fn lemma_deregister_keeps_keys<K>(v: EmitterView<K>, id: u64)
    ensures
        forall|q: K| v.deregister(id).table.contains_key(q) <==> #[trigger] v.table.contains_key(
            q,
        ),
{
    if v.contains_id(id) {
        assert(v.table.contains_key(v.owner_of(id)));
    }
}

} // verus!
