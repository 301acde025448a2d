//! Small facts about membership in sequences, used by the move generators.

use vstd::prelude::*;

verus! {

pub proof fn lemma_push_contains<A>(s: Seq<A>, v: A)
    ensures
        forall|m: A| #[trigger] s.push(v).contains(m) <==> (s.contains(m) || m == v),
{
    assert forall|m: A| #[trigger] s.push(v).contains(m) <==> (s.contains(m) || m == v) by {
        if s.push(v).contains(m) {
            let k = choose|k: int| 0 <= k < s.push(v).len() && s.push(v)[k] == m;
            if k < s.len() {
                assert(s[k] == m);
            }
        }
        if s.contains(m) {
            let k = choose|k: int| 0 <= k < s.len() && s[k] == m;
            assert(s.push(v)[k] == m);
        }
        if m == v {
            assert(s.push(v)[s.len() as int] == m);
        }
    }
}

pub proof fn lemma_add_contains<A>(s: Seq<A>, t: Seq<A>)
    ensures
        forall|m: A| #[trigger] (s + t).contains(m) <==> (s.contains(m) || t.contains(m)),
{
    assert forall|m: A| #[trigger] (s + t).contains(m) <==> (s.contains(m) || t.contains(m)) by {
        if (s + t).contains(m) {
            let k = choose|k: int| 0 <= k < (s + t).len() && (s + t)[k] == m;
            if k < s.len() {
                assert(s[k] == m);
            } else {
                assert(t[k - s.len()] == m);
            }
        }
        if s.contains(m) {
            let k = choose|k: int| 0 <= k < s.len() && s[k] == m;
            assert((s + t)[k] == m);
        }
        if t.contains(m) {
            let k = choose|k: int| 0 <= k < t.len() && t[k] == m;
            assert((s + t)[s.len() + k] == m);
        }
    }
}

pub proof fn lemma_empty_contains<A>()
    ensures
        forall|m: A| !#[trigger] Seq::<A>::empty().contains(m),
{
}

} // verus!
