//! Byte strings under their lexicographic order: comparison, sorting,
//! deduplication and lookup, as the variable-length key path needs them.

use rayon::slice::ParallelSliceMut;
use vstd::prelude::*;

verus! {

/// Lexicographic order on byte strings; a proper prefix comes first.
pub open spec fn lex_lt(a: Seq<u8>, b: Seq<u8>) -> bool
    decreases a.len(),
{
    if a.len() == 0 {
        b.len() > 0
    } else if b.len() == 0 {
        false
    } else if a[0] != b[0] {
        a[0] < b[0]
    } else {
        lex_lt(a.skip(1), b.skip(1))
    }
}

/// The byte strings held by a sequence of buffers.
pub open spec fn views(v: Seq<Vec<u8>>) -> Seq<Seq<u8>> {
    v.map_values(|x: Vec<u8>| x@)
}

/// Each buffer is strictly below every later one.
pub open spec fn strictly_ascending(v: Seq<Vec<u8>>) -> bool {
    forall|i: int, j: int| 0 <= i < j < v.len() ==> lex_lt(#[trigger] v[i]@, #[trigger] v[j]@)
}

/// No buffer is strictly below an earlier one.
pub open spec fn ascending(v: Seq<Vec<u8>>) -> bool {
    forall|i: int, j: int| 0 <= i < j < v.len() ==> !lex_lt(#[trigger] v[j]@, #[trigger] v[i]@)
}

pub proof fn lemma_lex_irreflexive(a: Seq<u8>)
    ensures
        !lex_lt(a, a),
    decreases a.len(),
{
    if a.len() > 0 {
        lemma_lex_irreflexive(a.skip(1));
    }
}

pub proof fn lemma_lex_transitive(a: Seq<u8>, b: Seq<u8>, c: Seq<u8>)
    requires
        lex_lt(a, b),
        lex_lt(b, c),
    ensures
        lex_lt(a, c),
    decreases a.len(),
{
    if a.len() > 0 && b.len() > 0 && c.len() > 0 && a[0] == b[0] && b[0] == c[0] {
        lemma_lex_transitive(a.skip(1), b.skip(1), c.skip(1));
    }
}

pub proof fn lemma_lex_total(a: Seq<u8>, b: Seq<u8>)
    requires
        a != b,
    ensures
        lex_lt(a, b) || lex_lt(b, a),
    decreases a.len(),
{
    if a.len() > 0 && b.len() > 0 && a[0] == b[0] {
        if a.skip(1) == b.skip(1) {
            assert(a.skip(1).len() == b.skip(1).len());
            assert(a.len() == b.len());
            assert(a =~= b) by {
                assert forall|i: int| 0 <= i < a.len() implies a[i] == b[i] by {
                    if i > 0 {
                        assert(a[i] == a.skip(1)[i - 1]);
                        assert(b[i] == b.skip(1)[i - 1]);
                    }
                }
            }
        }
        lemma_lex_total(a.skip(1), b.skip(1));
    } else if a.len() == 0 && b.len() == 0 {
        assert(a =~= b);
    }
}

/// A rearrangement of a sequence without repeats has none either.
pub proof fn lemma_rearranged_distinct<A>(a: Seq<A>, b: Seq<A>)
    requires
        a.no_duplicates(),
        a.to_multiset() == b.to_multiset(),
    ensures
        b.no_duplicates(),
{
    a.lemma_multiset_has_no_duplicates();
    b.lemma_multiset_has_no_duplicates_conv();
}

/// A sequence without repeats followed by new values that are distinct and
/// absent from it has no value twice.
pub proof fn lemma_append_distinct<A>(a: Seq<A>, p: Seq<A>)
    requires
        a.no_duplicates(),
        p.no_duplicates(),
        forall|x: A| p.contains(x) ==> !a.contains(x),
    ensures
        (a + p).no_duplicates(),
{
    let s = a + p;
    assert forall|i: int, j: int| 0 <= i < s.len() && 0 <= j < s.len() && i != j implies s[i] != s[j] by {
        if i < a.len() && j < a.len() {
            assert(a[i] != a[j]);
        } else if i >= a.len() && j >= a.len() {
            assert(p[i - a.len()] != p[j - a.len()]);
        } else if i < a.len() {
            assert(p.contains(s[j]) && p[j - a.len()] == s[j]);
            assert(a.contains(s[i]));
        } else {
            assert(p.contains(s[i]) && p[i - a.len()] == s[i]);
            assert(a.contains(s[j]));
        }
    }
}

/// Whether `a` comes strictly before `b`.
pub fn bytes_lt(a: &Vec<u8>, b: &Vec<u8>) -> (r: bool)
    ensures
        r == lex_lt(a@, b@),
{
    let mut i: usize = 0;
    assert(a@.skip(0) =~= a@);
    assert(b@.skip(0) =~= b@);
    while i < a.len() && i < b.len()
        invariant
            i <= a@.len(),
            i <= b@.len(),
            lex_lt(a@, b@) == lex_lt(a@.skip(i as int), b@.skip(i as int)),
        decreases a@.len() - i,
    {
        if a[i] != b[i] {
            assert(a@.skip(i as int)[0] == a@[i as int]);
            assert(b@.skip(i as int)[0] == b@[i as int]);
            return a[i] < b[i];
        }
        assert(a@.skip(i as int)[0] == a@[i as int]);
        assert(b@.skip(i as int)[0] == b@[i as int]);
        assert(a@.skip(i as int).skip(1) =~= a@.skip(i + 1));
        assert(b@.skip(i as int).skip(1) =~= b@.skip(i + 1));
        i = i + 1;
    }
    i < b.len()
}

/// Whether `a` and `b` hold the same bytes.
pub fn bytes_eq(a: &Vec<u8>, b: &Vec<u8>) -> (r: bool)
    ensures
        r == (a@ == b@),
{
    if a.len() != b.len() {
        return false;
    }
    let mut i: usize = 0;
    while i < a.len()
        invariant
            i <= a@.len() == b@.len(),
            forall|k: int| 0 <= k < i ==> a@[k] == b@[k],
        decreases a@.len() - i,
    {
        if a[i] != b[i] {
            return false;
        }
        i = i + 1;
    }
    assert(a@ =~= b@);
    true
}

/// A fresh buffer with the same bytes.
pub fn copy_bytes(v: &Vec<u8>) -> (r: Vec<u8>)
    ensures
        r@ == v@,
{
    let mut data: Vec<u8> = Vec::new();
    let mut i: usize = 0;
    while i < v.len()
        invariant
            i <= v@.len(),
            data@ == v@.subrange(0, i as int),
        decreases v@.len() - i,
    {
        data.push(v[i]);
        i = i + 1;
        assert(data@ =~= v@.subrange(0, i as int));
    }
    assert(data@ =~= v@);
    data
}

/// Relies on rayon's `par_sort` over `Vec<u8>`, whose order is the
/// lexicographic one: the result is ordered and holds the same strings.
#[verifier::external_body]
pub(crate) fn sort_byte_strings(v: &mut Vec<Vec<u8>>)
    ensures
        final(v)@.len() == old(v)@.len(),
        ascending(final(v)@),
        views(final(v)@).to_multiset() == views(old(v)@).to_multiset(),
{
    v.par_sort()
}

/// Keeps the first of each run of equal strings of an ordered sequence.
pub fn dedup_sorted_bytes(v: &Vec<Vec<u8>>) -> (r: Vec<Vec<u8>>)
    requires
        ascending(v@),
    ensures
        strictly_ascending(r@),
        r@.len() <= v@.len(),
        forall|x: Seq<u8>| views(r@).contains(x) <==> views(v@).contains(x),
{
    let mut r: Vec<Vec<u8>> = Vec::new();
    let mut i: usize = 0;
    while i < v.len()
        invariant
            i <= v@.len(),
            ascending(v@),
            strictly_ascending(r@),
            r@.len() <= i,
            r@.len() > 0 ==> r@.last()@ == v@[i - 1]@,
            i > 0 ==> r@.len() > 0,
            forall|k: int| 0 <= k < r@.len() ==> exists|j: int| 0 <= j < i && v@[j]@ == (#[trigger] r@[k])@,
            forall|j: int| 0 <= j < i ==> views(r@).contains(#[trigger] v@[j]@),
        decreases v@.len() - i,
    {
        let n = r.len();
        if n == 0 || !bytes_eq(&r[n - 1], &v[i]) {
            let x = copy_bytes(&v[i]);
            proof {
                if n > 0 {
                    assert(!lex_lt(v@[i as int]@, v@[i - 1]@));
                    lemma_lex_total(r@[n - 1]@, x@);
                    assert forall|k: int| 0 <= k < n implies lex_lt(#[trigger] r@[k]@, x@) by {
                        if k < n - 1 {
                            lemma_lex_transitive(r@[k]@, r@[n - 1]@, x@);
                        }
                    }
                }
            }
            let ghost prev = r@;
            r.push(x);
            proof {
                assert forall|a: int, b: int| 0 <= a < b < r@.len() implies lex_lt(#[trigger] r@[a]@, #[trigger] r@[b]@) by {
                    if b < n {
                        assert(prev[a] == r@[a] && prev[b] == r@[b]);
                    }
                }
                assert forall|k: int| 0 <= k < r@.len() implies exists|j: int| 0 <= j < i + 1 && v@[j]@ == (#[trigger] r@[k])@ by {
                    if k < n {
                        assert(prev[k] == r@[k]);
                    } else {
                        assert(v@[i as int]@ == r@[k]@);
                    }
                }
                assert forall|j: int| 0 <= j < i + 1 implies views(r@).contains(#[trigger] v@[j]@) by {
                    if j < i {
                        assert(views(prev).contains(v@[j]@));
                        let k = choose|k: int| 0 <= k < views(prev).len() && views(prev)[k] == v@[j]@;
                        assert(views(r@)[k] == prev[k]@);
                    } else {
                        assert(views(r@)[n as int] == v@[j]@);
                    }
                }
            }
        } else {
            proof {
                assert forall|j: int| 0 <= j < i + 1 implies views(r@).contains(#[trigger] v@[j]@) by {
                    if j == i {
                        assert(views(r@)[n - 1] == v@[j]@);
                    }
                }
            }
        }
        i = i + 1;
    }
    proof {
        assert forall|x: Seq<u8>| views(r@).contains(x) implies views(v@).contains(x) by {
            let k = choose|k: int| 0 <= k < views(r@).len() && views(r@)[k] == x;
            assert(r@[k]@ == x);
            let j = choose|j: int| 0 <= j < i && v@[j]@ == (#[trigger] r@[k])@;
            assert(views(v@)[j] == x);
        }
        assert forall|x: Seq<u8>| views(v@).contains(x) implies views(r@).contains(x) by {
            let j = choose|j: int| 0 <= j < views(v@).len() && views(v@)[j] == x;
            assert(v@[j]@ == x);
        }
    }
    r
}

/// Whether a strictly ascending sequence holds `x`, by binary search.
pub fn contains_sorted_bytes(v: &Vec<Vec<u8>>, x: &Vec<u8>) -> (r: bool)
    requires
        strictly_ascending(v@),
    ensures
        r == views(v@).contains(x@),
{
    let mut lo: usize = 0;
    let mut hi: usize = v.len();
    while lo < hi
        invariant
            lo <= hi <= v@.len(),
            strictly_ascending(v@),
            forall|j: int| 0 <= j < lo ==> lex_lt(#[trigger] v@[j]@, x@),
            forall|j: int| hi <= j < v@.len() ==> lex_lt(x@, #[trigger] v@[j]@),
        decreases hi - lo,
    {
        let mid = lo + (hi - lo) / 2;
        if bytes_eq(&v[mid], x) {
            assert(views(v@)[mid as int] == x@);
            return true;
        } else if bytes_lt(&v[mid], x) {
            proof {
                assert forall|j: int| 0 <= j <= mid implies lex_lt(#[trigger] v@[j]@, x@) by {
                    if j < mid {
                        lemma_lex_transitive(v@[j]@, v@[mid as int]@, x@);
                    }
                }
            }
            lo = mid + 1;
        } else {
            proof {
                lemma_lex_total(v@[mid as int]@, x@);
                assert forall|j: int| mid <= j < v@.len() implies lex_lt(x@, #[trigger] v@[j]@) by {
                    if j > mid {
                        lemma_lex_transitive(x@, v@[mid as int]@, v@[j]@);
                    }
                }
            }
            hi = mid;
        }
    }
    proof {
        assert forall|j: int| 0 <= j < views(v@).len() implies views(v@)[j] != x@ by {
            lemma_lex_irreflexive(x@);
        }
    }
    false
}

/// Whether any buffer of `v` holds the bytes of `x`, by a linear scan.
pub fn contains_bytes(v: &Vec<Vec<u8>>, x: &Vec<u8>) -> (r: bool)
    ensures
        r == views(v@).contains(x@),
{
    let mut i: usize = 0;
    while i < v.len()
        invariant
            i <= v@.len(),
            forall|j: int| 0 <= j < i ==> v@[j]@ != x@,
        decreases v@.len() - i,
    {
        if bytes_eq(&v[i], x) {
            assert(views(v@)[i as int] == x@);
            return true;
        }
        i = i + 1;
    }
    false
}

/// A strictly ascending sequence holds no string twice.
pub proof fn lemma_strictly_ascending_distinct(v: Seq<Vec<u8>>)
    requires
        strictly_ascending(v),
    ensures
        views(v).no_duplicates(),
{
    assert forall|i: int, j: int| 0 <= i < views(v).len() && 0 <= j < views(v).len() && i != j
        implies views(v)[i] != views(v)[j] by {
        lemma_lex_irreflexive(v[i]@);
        if i < j {
            assert(lex_lt(v[i]@, v[j]@));
        } else {
            assert(lex_lt(v[j]@, v[i]@));
        }
    }
}

} // verus!
