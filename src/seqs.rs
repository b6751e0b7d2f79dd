//! Facts about sequences without repeated elements and the sets they list.
use vstd::prelude::*;

verus! {

/// A sequence without repeats has as many distinct elements as entries.
pub proof fn lemma_distinct_len<A>(s: Seq<A>)
    requires
        s.no_duplicates(),
    ensures
        s.to_set().len() == s.len(),
        s.to_set().finite(),
    decreases s.len(),
{
    broadcast use vstd::seq_lib::seq_to_set_is_finite;

    if s.len() > 0 {
        let t = s.drop_last();
        assert(t.no_duplicates());
        lemma_distinct_len(t);
        assert(s =~= t.push(s.last()));
        assert(!t.contains(s.last())) by {
            if t.contains(s.last()) {
                let i = choose|i: int| 0 <= i < t.len() && t[i] == s.last();
                assert(t[i] == s[i]);
            }
        }
        lemma_push_fresh(t, s.last());
    } else {
        assert(s.to_set() =~= Set::empty());
    }
}

/// Appending an element adds it to the set of a sequence.
pub proof fn lemma_push_set<A>(s: Seq<A>, a: A)
    ensures
        s.push(a).to_set() == s.to_set().insert(a),
{
    let t = s.push(a);
    assert(t.to_set() =~= s.to_set().insert(a)) by {
        assert forall|x: A| t.to_set().contains(x) implies s.to_set().insert(a).contains(x) by {
            let i = choose|i: int| 0 <= i < t.len() && t[i] == x;
            if i < s.len() {
                assert(s[i] == t[i]);
            }
        }
        assert forall|x: A| s.to_set().insert(a).contains(x) implies t.to_set().contains(x) by {
            if x == a {
                assert(t[s.len() as int] == a);
            } else {
                let i = choose|i: int| 0 <= i < s.len() && s[i] == x;
                assert(t[i] == s[i]);
            }
        }
    }
}

/// An appended sequence holds what it held before, and the new element.
pub proof fn lemma_push_contains<A>(s: Seq<A>, a: A, x: A)
    ensures
        s.push(a).contains(x) <==> (s.contains(x) || x == a),
{
    let t = s.push(a);
    if t.contains(x) {
        let i = choose|i: int| 0 <= i < t.len() && t[i] == x;
        if i < s.len() {
            assert(s[i] == t[i]);
        }
    }
    if s.contains(x) {
        let i = choose|i: int| 0 <= i < s.len() && s[i] == x;
        assert(t[i] == s[i]);
    }
    if x == a {
        assert(t[s.len() as int] == a);
    }
}

/// Appending an element that is not yet present keeps a sequence free of
/// repeats and adds that element to its set.
pub proof fn lemma_push_fresh<A>(s: Seq<A>, a: A)
    requires
        s.no_duplicates(),
        !s.contains(a),
    ensures
        s.push(a).no_duplicates(),
        s.push(a).to_set() == s.to_set().insert(a),
{
    let t = s.push(a);
    assert forall|i: int, j: int| 0 <= i < t.len() && 0 <= j < t.len() && i != j implies t[i]
        != t[j] by {
        if i < s.len() && j < s.len() {
            assert(t[i] == s[i] && t[j] == s[j]);
        } else if i < s.len() {
            assert(t[i] == s[i]);
        } else {
            assert(t[j] == s[j]);
        }
    }
    lemma_push_set(s, a);
}

} // verus!
