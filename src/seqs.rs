use vstd::prelude::*;

verus! {

/// Appending `x` to `s` adds `x` and nothing else to what `s` contains.
pub proof fn lemma_contains_push<A>(s: Seq<A>, x: A)
    ensures
        forall|t: A| #[trigger] s.push(x).contains(t) <==> (s.contains(t) || t == x),
{
    assert forall|t: A| #[trigger] s.push(x).contains(t) <==> (s.contains(t) || t == x) by {
        if s.contains(t) {
            let i = choose|i: int| 0 <= i < s.len() && s[i] == t;
            assert(s.push(x)[i] == t);
        }
        if t == x {
            assert(s.push(x)[s.len() as int] == x);
        }
        if s.push(x).contains(t) {
            let i = choose|i: int| 0 <= i < s.len() + 1 && s.push(x)[i] == t;
            if i < s.len() {
                assert(s[i] == t);
            }
        }
    }
}

/// Two sequences without repeats and without a common element concatenate to a
/// sequence without repeats that holds what either holds.
pub proof fn lemma_concat_disjoint<A>(a: Seq<A>, b: Seq<A>)
    requires
        a.no_duplicates(),
        b.no_duplicates(),
        forall|x: A| a.contains(x) ==> !b.contains(x),
    ensures
        forall|x: A| #[trigger] (a + b).contains(x) <==> (a.contains(x) || b.contains(x)),
        (a + b).no_duplicates(),
{
    let c = a + b;
    assert forall|x: A| #[trigger] c.contains(x) <==> (a.contains(x) || b.contains(x)) by {
        if a.contains(x) {
            let i = choose|i: int| 0 <= i < a.len() && a[i] == x;
            assert(c[i] == x);
        }
        if b.contains(x) {
            let i = choose|i: int| 0 <= i < b.len() && b[i] == x;
            assert(c[a.len() + i] == x);
        }
        if c.contains(x) {
            let i = choose|i: int| 0 <= i < c.len() && c[i] == x;
            if i < a.len() {
                assert(a[i] == x);
            } else {
                assert(b[i - a.len()] == x);
            }
        }
    }
    assert forall|i: int, j: int| 0 <= i < c.len() && 0 <= j < c.len() && i != j implies c[i]
        != c[j] by {
        if i < a.len() && j >= a.len() {
            assert(a.contains(c[i]));
            assert(b.contains(c[j]));
        }
        if j < a.len() && i >= a.len() {
            assert(a.contains(c[j]));
            assert(b.contains(c[i]));
        }
    }
}

/// What `old` holds is still held by a sequence that extends it.
pub proof fn lemma_prefix_contains<A>(old: Seq<A>, new: Seq<A>)
    requires
        old.len() <= new.len(),
        forall|i: int| 0 <= i < old.len() ==> new[i] == old[i],
    ensures
        forall|t: A| old.contains(t) ==> #[trigger] new.contains(t),
{
    assert forall|t: A| old.contains(t) implies #[trigger] new.contains(t) by {
        let i = choose|i: int| 0 <= i < old.len() && old[i] == t;
        assert(new[i] == t);
    }
}

} // verus!
