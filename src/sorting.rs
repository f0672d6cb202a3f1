//! Stable insertion sort, as a specification.
use vstd::prelude::*;

verus! {

/// Inserts `x` after every leading element that is `le` to it.
pub open spec fn insert_sorted<T>(s: Seq<T>, x: T, le: spec_fn(T, T) -> bool) -> Seq<T>
    decreases s.len(),
{
    if s.len() == 0 {
        seq![x]
    } else if le(s[0], x) {
        seq![s[0]] + insert_sorted(s.drop_first(), x, le)
    } else {
        seq![x] + s
    }
}

/// The stable sort of `s` by `le`: each element in turn is inserted after the
/// equal ones that came before it.
pub open spec fn insertion_sorted<T>(s: Seq<T>, le: spec_fn(T, T) -> bool) -> Seq<T>
    decreases s.len(),
{
    if s.len() == 0 {
        s
    } else {
        insert_sorted(insertion_sorted(s.drop_last(), le), s.last(), le)
    }
}

/// `le` is total and transitive.
pub open spec fn total_preorder<T>(le: spec_fn(T, T) -> bool) -> bool {
    &&& forall|a: T, b: T| #[trigger] le(a, b) || le(b, a)
    &&& forall|a: T, b: T, c: T| #[trigger] le(a, b) && #[trigger] le(b, c) ==> le(a, c)
}

/// Every element is `le` to every later one.
pub open spec fn is_sorted<T>(s: Seq<T>, le: spec_fn(T, T) -> bool) -> bool {
    forall|i: int, j: int| 0 <= i < j < s.len() ==> #[trigger] le(s[i], s[j])
}

/// Inserting at the first position whose element is not `le` to `x`.
pub proof fn lemma_insert_sorted_at<T>(s: Seq<T>, x: T, le: spec_fn(T, T) -> bool, j: int)
    requires
        0 <= j <= s.len(),
        forall|k: int| 0 <= k < j ==> #[trigger] le(s[k], x),
        j < s.len() ==> !le(s[j], x),
    ensures
        insert_sorted(s, x, le) == s.insert(j, x),
    decreases s.len(),
{
    if s.len() == 0 {
        assert(seq![x] =~= s.insert(j, x));
    } else if j == 0 {
        assert(seq![x] + s =~= s.insert(0, x));
    } else {
        let t = s.drop_first();
        assert forall|k: int| 0 <= k < j - 1 implies #[trigger] le(t[k], x) by {
            assert(t[k] == s[k + 1]);
        }
        lemma_insert_sorted_at(t, x, le, j - 1);
        assert(seq![s[0]] + t.insert(j - 1, x) =~= s.insert(j, x));
    }
}

/// Each element of an insertion is `x` or an element of `s`.
proof fn lemma_insert_sorted_elements<T>(s: Seq<T>, x: T, le: spec_fn(T, T) -> bool)
    ensures
        forall|i: int|
            0 <= i < insert_sorted(s, x, le).len() ==> #[trigger] insert_sorted(s, x, le)[i] == x
                || s.contains(insert_sorted(s, x, le)[i]),
    decreases s.len(),
{
    if s.len() > 0 && le(s[0], x) {
        let t = s.drop_first();
        lemma_insert_sorted_elements(t, x, le);
        let r = insert_sorted(s, x, le);
        assert forall|i: int| 0 <= i < r.len() implies #[trigger] r[i] == x || s.contains(r[i]) by {
            if i > 0 {
                let rest = insert_sorted(t, x, le);
                assert(r[i] == rest[i - 1]);
                if t.contains(rest[i - 1]) {
                    let k = choose|k: int| 0 <= k < t.len() && t[k] == rest[i - 1];
                    assert(s[k + 1] == t[k]);
                }
            } else {
                assert(s[0] == r[0]);
            }
        }
    } else if s.len() > 0 {
        let r = insert_sorted(s, x, le);
        assert forall|i: int| 0 <= i < r.len() implies #[trigger] r[i] == x || s.contains(r[i]) by {
            if i > 0 {
                assert(r[i] == s[i - 1]);
            }
        }
    }
}

/// Every element of the sort is an element of `s`.
pub proof fn lemma_insertion_sorted_contains<T>(s: Seq<T>, le: spec_fn(T, T) -> bool)
    ensures
        forall|i: int|
            0 <= i < insertion_sorted(s, le).len() ==> s.contains(
                #[trigger] insertion_sorted(s, le)[i],
            ),
    decreases s.len(),
{
    if s.len() > 0 {
        let t = s.drop_last();
        lemma_insertion_sorted_contains(t, le);
        let r = insertion_sorted(t, le);
        lemma_insert_sorted_elements(r, s.last(), le);
        let r2 = insertion_sorted(s, le);
        assert forall|i: int| 0 <= i < r2.len() implies s.contains(#[trigger] r2[i]) by {
            if r2[i] == s.last() {
                assert(s[s.len() - 1] == r2[i]);
            } else {
                let k = choose|k: int| 0 <= k < r.len() && r[k] == r2[i];
                assert(t.contains(r[k]));
                let j = choose|j: int| 0 <= j < t.len() && t[j] == r[k];
                assert(s[j] == t[j]);
            }
        }
    }
}

/// Inserting into a sorted sequence keeps it sorted.
pub proof fn lemma_insert_sorted_sorted<T>(s: Seq<T>, x: T, le: spec_fn(T, T) -> bool)
    requires
        total_preorder(le),
        is_sorted(s, le),
    ensures
        is_sorted(insert_sorted(s, x, le), le),
    decreases s.len(),
{
    let r = insert_sorted(s, x, le);
    if s.len() == 0 {
    } else if le(s[0], x) {
        let t = s.drop_first();
        assert(is_sorted(t, le)) by {
            assert forall|i: int, j: int| 0 <= i < j < t.len() implies #[trigger] le(t[i], t[j]) by {
                assert(le(s[i + 1], s[j + 1]));
            }
        }
        lemma_insert_sorted_sorted(t, x, le);
        lemma_insert_sorted_elements(t, x, le);
        let rest = insert_sorted(t, x, le);
        assert forall|i: int, j: int| 0 <= i < j < r.len() implies #[trigger] le(r[i], r[j]) by {
            if i == 0 {
                assert(r[j] == rest[j - 1]);
                if rest[j - 1] != x {
                    let k = choose|k: int| 0 <= k < t.len() && t[k] == rest[j - 1];
                    assert(le(s[0], s[k + 1]));
                }
            } else {
                assert(le(rest[i - 1], rest[j - 1]));
            }
        }
    } else {
        assert(le(x, s[0]));
        assert forall|i: int, j: int| 0 <= i < j < r.len() implies #[trigger] le(r[i], r[j]) by {
            if i == 0 {
                if j > 1 {
                    assert(le(s[0], s[j - 1]));
                }
            } else {
                assert(le(s[i - 1], s[j - 1]));
            }
        }
    }
}

/// The sort yields a sorted sequence.
pub proof fn lemma_insertion_sorted_sorted<T>(s: Seq<T>, le: spec_fn(T, T) -> bool)
    requires
        total_preorder(le),
    ensures
        is_sorted(insertion_sorted(s, le), le),
    decreases s.len(),
{
    if s.len() > 0 {
        lemma_insertion_sorted_sorted(s.drop_last(), le);
        lemma_insert_sorted_sorted(insertion_sorted(s.drop_last(), le), s.last(), le);
    }
}

} // verus!
