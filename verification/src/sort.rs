//! A stable sort by key, and the order that keys have.

use vstd::prelude::*;
use crate::text::chars_of;

verus! {

/// The lexicographic order on number sequences.
pub open spec fn lex_lt(a: Seq<int>, b: Seq<int>) -> bool
    decreases a.len(),
{
    if b.len() == 0 {
        false
    } else if a.len() == 0 {
        true
    } else if a[0] != b[0] {
        a[0] < b[0]
    } else {
        lex_lt(a.skip(1), b.skip(1))
    }
}

/// The code points of a text, which is how texts are ordered.
pub open spec fn code_points(s: Seq<char>) -> Seq<int> {
    Seq::new(s.len(), |i: int| s[i] as int)
}

/// Values that have a key.
pub trait Ranked: Sized {
    /// The key, compared lexicographically.
    spec fn rank(&self) -> Seq<int>;
}

/// What can be sorted: values whose keys can be compared.
pub trait Keyed: Ranked {
    /// Whether the key of `self` is strictly below that of `other`.
    fn before(&self, other: &Self) -> (r: bool)
        ensures
            r == lex_lt(self.rank(), other.rank()),
    ;
}

/// The test for the key `r`.
pub open spec fn has_rank<T: Ranked>(r: Seq<int>) -> spec_fn(T) -> bool {
    |x: T| x.rank() == r
}

/// The items of `s` whose key is `r`, in the order of `s`.
pub open spec fn of_rank<T: Ranked>(s: Seq<T>, r: Seq<int>) -> Seq<T> {
    s.filter(has_rank(r))
}

/// No item comes after one with a greater key.
pub open spec fn is_sorted<T: Ranked>(s: Seq<T>) -> bool {
    forall|i: int, j: int|
        0 <= i < j < s.len() ==> !lex_lt(#[trigger] s[j].rank(), #[trigger] s[i].rank())
}

/// `b` holds the items of `a` in ascending key order, items with the same key in the
/// order that they have in `a`.
pub open spec fn is_stable_sort<T: Ranked>(a: Seq<T>, b: Seq<T>) -> bool {
    &&& is_sorted(b)
    &&& forall|r: Seq<int>| #[trigger] of_rank(b, r) == of_rank(a, r)
}

/// The one sequence that is the stable sort of `a`.
pub open spec fn stable_sorted<T: Ranked>(a: Seq<T>) -> Seq<T> {
    choose|b: Seq<T>| is_stable_sort(a, b)
}

/// No key comes before itself.
pub proof fn lemma_lex_irreflexive(a: Seq<int>)
    ensures
        !lex_lt(a, a),
    decreases a.len(),
{
    if a.len() > 0 {
        lemma_lex_irreflexive(a.skip(1));
    }
}

/// Two number sequences are in order, one way or the other, or equal.
pub proof fn lemma_lex_total(a: Seq<int>, b: Seq<int>)
    ensures
        lex_lt(a, b) || lex_lt(b, a) || a == b,
    decreases a.len(),
{
    if a.len() > 0 && b.len() > 0 && a[0] == b[0] {
        lemma_lex_total(a.skip(1), b.skip(1));
        if a.skip(1) == b.skip(1) {
            assert(a =~= seq![a[0]] + a.skip(1));
            assert(b =~= seq![b[0]] + b.skip(1));
        }
    } else if a.len() == 0 && b.len() == 0 {
        assert(a =~= b);
    }
}

/// The lexicographic order is transitive.
pub proof fn lemma_lex_transitive(a: Seq<int>, b: Seq<int>, c: Seq<int>)
    requires
        lex_lt(a, b),
        lex_lt(b, c),
    ensures
        lex_lt(a, c),
    decreases a.len(),
{
    if a.len() > 0 && a[0] == b[0] && b[0] == c[0] {
        lemma_lex_transitive(a.skip(1), b.skip(1), c.skip(1));
    }
}

/// `a < b <= c` gives `a < c`.
proof fn lemma_lex_lt_le(a: Seq<int>, b: Seq<int>, c: Seq<int>)
    requires
        lex_lt(a, b),
        !lex_lt(c, b),
    ensures
        lex_lt(a, c),
{
    lemma_lex_total(b, c);
    if b != c {
        lemma_lex_transitive(a, b, c);
    }
}

/// Whether the first text comes strictly before the second in code point order.
pub fn lex_before(a: &[char], b: &[char]) -> (r: bool)
    ensures
        r == lex_lt(code_points(a@), code_points(b@)),
{
    let ghost x = code_points(a@);
    let ghost y = code_points(b@);
    let mut i: usize = 0;
    assert(x.skip(0) =~= x && y.skip(0) =~= y);
    while i < a.len() && i < b.len() && a[i] == b[i]
        invariant
            i <= a.len(),
            i <= b.len(),
            x == code_points(a@),
            y == code_points(b@),
            lex_lt(x, y) == lex_lt(x.skip(i as int), y.skip(i as int)),
        decreases a.len() - i,
    {
        assert(x.skip(i as int).skip(1) =~= x.skip(i + 1));
        assert(y.skip(i as int).skip(1) =~= y.skip(i + 1));
        i += 1;
    }
    if i == b.len() {
        false
    } else if i == a.len() {
        true
    } else {
        a[i] < b[i]
    }
}

impl Ranked for String {
    open spec fn rank(&self) -> Seq<int> {
        code_points(self@)
    }
}

impl Keyed for String {
    fn before(&self, other: &Self) -> (r: bool) {
        let a: Vec<char> = chars_of(self.as_str());
        let b: Vec<char> = chars_of(other.as_str());
        lex_before(a.as_slice(), b.as_slice())
    }
}

proof fn lemma_of_rank_push<T: Ranked>(s: Seq<T>, x: T, r: Seq<int>)
    ensures
        of_rank(s.push(x), r) == (if x.rank() == r {
            of_rank(s, r).push(x)
        } else {
            of_rank(s, r)
        }),
{
    reveal(Seq::filter);
    assert(s.push(x).drop_last() =~= s);
}

/// Inserting `x` behind everything that is not greater keeps the sequence a stable
/// sort when `x` joins the input at its end.
proof fn lemma_insert_stable<T: Ranked>(a: Seq<T>, b: Seq<T>, x: T, p: int)
    requires
        is_stable_sort(a, b),
        0 <= p <= b.len(),
        forall|k: int| 0 <= k < p ==> !lex_lt(x.rank(), #[trigger] b[k].rank()),
        forall|k: int| p <= k < b.len() ==> lex_lt(x.rank(), #[trigger] b[k].rank()),
    ensures
        is_stable_sort(a.push(x), b.insert(p, x)),
{
    let c = b.insert(p, x);
    assert forall|i: int, j: int| 0 <= i < j < c.len() implies !lex_lt(
        #[trigger] c[j].rank(),
        #[trigger] c[i].rank(),
    ) by {
        if j == p {
            assert(c[i] == b[i]);
        } else if i == p {
            assert(c[j] == b[j - 1]);
            if lex_lt(b[j - 1].rank(), x.rank()) {
                lemma_lex_transitive(x.rank(), b[j - 1].rank(), x.rank());
                lemma_lex_irreflexive(x.rank());
            }
        } else {
            let i0 = if i < p { i } else { i - 1 };
            let j0 = if j < p { j } else { j - 1 };
            assert(c[i] == b[i0] && c[j] == b[j0]);
        }
    }
    assert forall|r: Seq<int>| #[trigger] of_rank(c, r) == of_rank(a.push(x), r) by {
        let pred = has_rank::<T>(r);
        let front = b.take(p);
        let back = b.skip(p);
        assert(c =~= front.push(x) + back);
        assert(b =~= front + back);
        Seq::filter_distributes_over_add(front.push(x), back, pred);
        Seq::filter_distributes_over_add(front, back, pred);
        lemma_of_rank_push(front, x, r);
        lemma_of_rank_push(a, x, r);
        assert(of_rank(b, r) == of_rank(a, r));
        if x.rank() == r {
            assert forall|k: int| 0 <= k < back.len() implies !pred(#[trigger] back[k]) by {
                assert(back[k] == b[p + k]);
                lemma_lex_irreflexive(r);
            }
            back.lemma_all_neg_filter_empty(pred);
            assert(back.filter(pred) =~= Seq::empty());
            assert(of_rank(c, r) =~= of_rank(b, r).push(x));
        }
    }
}

/// The last item of a sorted sequence is the last of those with its key.
proof fn lemma_last_of_rank<T: Ranked>(s: Seq<T>)
    requires
        s.len() > 0,
    ensures
        of_rank(s, s.last().rank()).len() > 0,
        of_rank(s, s.last().rank()).last() == s.last(),
        of_rank(s, s.last().rank()).drop_last() == of_rank(s.drop_last(), s.last().rank()),
        forall|r: Seq<int>|
            r != s.last().rank() ==> #[trigger] of_rank(s, r) == of_rank(s.drop_last(), r),
{
    assert(s =~= s.drop_last().push(s.last()));
    assert forall|r: Seq<int>| r != s.last().rank() implies #[trigger] of_rank(s, r) == of_rank(
        s.drop_last(),
        r,
    ) by {
        lemma_of_rank_push(s.drop_last(), s.last(), r);
    }
    lemma_of_rank_push(s.drop_last(), s.last(), s.last().rank());
    assert(of_rank(s, s.last().rank()).drop_last() =~= of_rank(s.drop_last(), s.last().rank()));
}

proof fn lemma_rank_not_above_last<T: Ranked>(s: Seq<T>, r: Seq<int>)
    requires
        is_sorted(s),
        of_rank(s, r).len() > 0,
    ensures
        s.len() > 0,
        !lex_lt(s.last().rank(), r),
{
    let pred = has_rank::<T>(r);
    let e = of_rank(s, r)[0];
    assert(s.filter(pred)[0] == e);
    s.lemma_filter_contains_rev(pred, e);
    s.lemma_filter_pred(pred, 0);
    let i = choose|i: int| 0 <= i < s.len() && s[i] == e;
    if i == s.len() - 1 {
        lemma_lex_irreflexive(r);
    } else {
        assert(!lex_lt(s[s.len() - 1].rank(), s[i].rank()));
    }
}

/// Two sorted sequences with the same items of each key, in the same order, are equal.
pub proof fn lemma_sorted_unique<T: Ranked>(b: Seq<T>, c: Seq<T>)
    requires
        is_sorted(b),
        is_sorted(c),
        forall|r: Seq<int>| #[trigger] of_rank(b, r) == of_rank(c, r),
    ensures
        b == c,
    decreases b.len(),
{
    if b.len() == 0 && c.len() == 0 {
        assert(b =~= c);
    } else if b.len() == 0 {
        lemma_last_of_rank(c);
        assert(of_rank(b, c.last().rank()) == of_rank(c, c.last().rank()));
        b.lemma_filter_len(has_rank(c.last().rank()));
    } else {
        let rb = b.last().rank();
        lemma_last_of_rank(b);
        assert(of_rank(b, rb) == of_rank(c, rb));
        lemma_rank_not_above_last(c, rb);
        let rc = c.last().rank();
        lemma_last_of_rank(c);
        assert(of_rank(b, rc) == of_rank(c, rc));
        lemma_rank_not_above_last(b, rc);
        lemma_lex_total(rb, rc);
        assert(rb == rc);
        let b0 = b.drop_last();
        let c0 = c.drop_last();
        assert forall|r: Seq<int>| #[trigger] of_rank(b0, r) == of_rank(c0, r) by {
            assert(of_rank(b, r) == of_rank(c, r));
        }
        assert forall|i: int, j: int| 0 <= i < j < b0.len() implies !lex_lt(
            #[trigger] b0[j].rank(),
            #[trigger] b0[i].rank(),
        ) by {
            assert(b0[i] == b[i] && b0[j] == b[j]);
        }
        assert forall|i: int, j: int| 0 <= i < j < c0.len() implies !lex_lt(
            #[trigger] c0[j].rank(),
            #[trigger] c0[i].rank(),
        ) by {
            assert(c0[i] == c[i] && c0[j] == c[j]);
        }
        lemma_sorted_unique(b0, c0);
        assert(b =~= b0.push(b.last()));
        assert(c =~= c0.push(c.last()));
    }
}

/// A stable sort of `a` is the stable sort of `a`.
pub proof fn lemma_stable_sorted_is<T: Ranked>(a: Seq<T>, b: Seq<T>)
    requires
        is_stable_sort(a, b),
    ensures
        stable_sorted(a) == b,
{
    let c = stable_sorted(a);
    assert(is_stable_sort(a, c));
    assert forall|r: Seq<int>| #[trigger] of_rank(b, r) == of_rank(c, r) by {
        assert(of_rank(b, r) == of_rank(a, r));
        assert(of_rank(c, r) == of_rank(a, r));
    }
    lemma_sorted_unique(b, c);
}

/// Where `x` goes in a sorted sequence: behind everything that is not greater.
proof fn lemma_insert_position<T: Ranked>(b: Seq<T>, x: T) -> (p: int)
    requires
        is_sorted(b),
    ensures
        0 <= p <= b.len(),
        forall|k: int| 0 <= k < p ==> !lex_lt(x.rank(), #[trigger] b[k].rank()),
        forall|k: int| p <= k < b.len() ==> lex_lt(x.rank(), #[trigger] b[k].rank()),
    decreases b.len(),
{
    if b.len() == 0 {
        0
    } else {
        let c = b.drop_last();
        assert forall|i: int, j: int| 0 <= i < j < c.len() implies !lex_lt(
            #[trigger] c[j].rank(),
            #[trigger] c[i].rank(),
        ) by {
            assert(c[i] == b[i] && c[j] == b[j]);
        }
        let p = lemma_insert_position(c, x);
        let n = b.len() - 1;
        if lex_lt(x.rank(), b[n].rank()) {
            assert forall|k: int| 0 <= k < p implies !lex_lt(x.rank(), #[trigger] b[k].rank()) by {
                assert(c[k] == b[k]);
            }
            assert forall|k: int| p <= k < b.len() implies lex_lt(
                x.rank(),
                #[trigger] b[k].rank(),
            ) by {
                if k < n {
                    assert(c[k] == b[k]);
                }
            }
            p
        } else {
            assert forall|k: int| 0 <= k < b.len() implies !lex_lt(
                x.rank(),
                #[trigger] b[k].rank(),
            ) by {
                if k < n && lex_lt(x.rank(), b[k].rank()) {
                    lemma_lex_lt_le(x.rank(), b[k].rank(), b[n].rank());
                }
            }
            b.len() as int
        }
    }
}

/// Every sequence has a stable sort, which holds the same items.
pub proof fn lemma_stable_sort_exists<T: Ranked>(a: Seq<T>)
    ensures
        is_stable_sort(a, stable_sorted(a)),
        stable_sorted(a).len() == a.len(),
        stable_sorted(a).to_multiset() == a.to_multiset(),
    decreases a.len(),
{
    broadcast use vstd::seq_lib::group_to_multiset_ensures;

    if a.len() == 0 {
        assert(is_stable_sort(a, a));
        lemma_stable_sorted_is(a, a);
    } else {
        let a0 = a.drop_last();
        let x = a.last();
        lemma_stable_sort_exists(a0);
        let b0 = stable_sorted(a0);
        let p = lemma_insert_position(b0, x);
        lemma_insert_stable(a0, b0, x, p);
        assert(a0.push(x) =~= a);
        lemma_stable_sorted_is(a, b0.insert(p, x));
        assert(b0.insert(p, x).remove(p) =~= b0);
        assert(a.remove(a.len() - 1) =~= a0);
        assert(b0.insert(p, x).to_multiset() =~= b0.to_multiset().insert(x));
        assert(a.to_multiset() =~= a0.to_multiset().insert(x));
    }
}

/// What a stable sort holds was there before.
pub proof fn lemma_sort_members<T: Ranked>(a: Seq<T>, b: Seq<T>)
    requires
        is_stable_sort(a, b),
    ensures
        forall|j: int| 0 <= j < b.len() ==> a.contains(#[trigger] b[j]),
{
    assert forall|j: int| 0 <= j < b.len() implies a.contains(#[trigger] b[j]) by {
        let r = b[j].rank();
        let pred = has_rank::<T>(r);
        b.lemma_filter_contains(pred, j);
        assert(of_rank(b, r) == of_rank(a, r));
        assert(a.filter(pred).contains(b[j]));
        a.lemma_filter_contains_rev(pred, b[j]);
    }
}

/// Replacing each item by one with the same key commutes with sorting.
pub proof fn lemma_sort_map<T: Ranked, U: Ranked>(a: Seq<T>, b: Seq<T>, f: spec_fn(T) -> U)
    requires
        is_stable_sort(a, b),
        forall|i: int| 0 <= i < a.len() ==> f(#[trigger] a[i]).rank() == a[i].rank(),
    ensures
        is_stable_sort(a.map_values(f), b.map_values(f)),
        b.map_values(f) == stable_sorted(a.map_values(f)),
{
    let fa = a.map_values(f);
    let fb = b.map_values(f);
    lemma_sort_members(a, b);
    assert forall|j: int| 0 <= j < b.len() implies f(#[trigger] b[j]).rank() == b[j].rank() by {
        assert(a.contains(b[j]));
        let i = choose|i: int| 0 <= i < a.len() && a[i] == b[j];
        assert(f(a[i]).rank() == a[i].rank());
    }
    assert forall|i: int, j: int| 0 <= i < j < fb.len() implies !lex_lt(
        #[trigger] fb[j].rank(),
        #[trigger] fb[i].rank(),
    ) by {
        assert(fb[i] == f(b[i]) && fb[j] == f(b[j]));
        assert(!lex_lt(b[j].rank(), b[i].rank()));
    }
    assert forall|r: Seq<int>| #[trigger] of_rank(fb, r) == of_rank(fa, r) by {
        lemma_of_rank_map(a, f, r);
        lemma_of_rank_map(b, f, r);
        assert(of_rank(b, r) == of_rank(a, r));
    }
    lemma_stable_sorted_is(fa, fb);
}

proof fn lemma_of_rank_map<T: Ranked, U: Ranked>(s: Seq<T>, f: spec_fn(T) -> U, r: Seq<int>)
    requires
        forall|i: int| 0 <= i < s.len() ==> f(#[trigger] s[i]).rank() == s[i].rank(),
    ensures
        of_rank(s.map_values(f), r) == of_rank(s, r).map_values(f),
    decreases s.len(),
{
    if s.len() == 0 {
        reveal(Seq::filter);
        assert(of_rank(s.map_values(f), r) =~= of_rank(s, r).map_values(f));
    } else {
        let t = s.drop_last();
        let x = s.last();
        assert forall|i: int| 0 <= i < t.len() implies f(#[trigger] t[i]).rank() == t[i].rank() by {
            assert(t[i] == s[i]);
        }
        lemma_of_rank_map(t, f, r);
        assert(s =~= t.push(x));
        assert(s.map_values(f) =~= t.map_values(f).push(f(x)));
        lemma_of_rank_push(t, x, r);
        lemma_of_rank_push(t.map_values(f), f(x), r);
        assert(f(s[s.len() - 1]).rank() == x.rank());
        assert(of_rank(s.map_values(f), r) =~= of_rank(s, r).map_values(f));
    }
}

/// Sort by key, keeping the order of items with equal keys.
pub fn stable_sort<T: Keyed>(items: Vec<T>) -> (out: Vec<T>)
    ensures
        is_stable_sort(items@, out@),
        out@ == stable_sorted(items@),
        out@.len() == items@.len(),
{
    let mut out: Vec<T> = Vec::new();
    let ghost all = items@;
    assert(all.take(0) =~= out@);
    for x in it: items
        invariant
            it.seq() == all,
            out@.len() == it.index(),
            is_stable_sort(all.take(it.index()), out@),
    {
        let mut lo: usize = 0;
        let mut hi: usize = out.len();
        while lo < hi
            invariant
                lo <= hi <= out.len(),
                is_sorted(out@),
                forall|k: int| 0 <= k < lo ==> !lex_lt(x.rank(), #[trigger] out@[k].rank()),
                forall|k: int| hi <= k < out.len() ==> lex_lt(x.rank(), #[trigger] out@[k].rank()),
            decreases hi - lo,
        {
            let mid: usize = lo + (hi - lo) / 2;
            if x.before(&out[mid]) {
                proof {
                    assert forall|k: int| mid <= k < out.len() implies lex_lt(
                        x.rank(),
                        #[trigger] out@[k].rank(),
                    ) by {
                        if k > mid {
                            lemma_lex_lt_le(x.rank(), out@[mid as int].rank(), out@[k].rank());
                        }
                    }
                }
                hi = mid;
            } else {
                proof {
                    assert forall|k: int| 0 <= k <= mid implies !lex_lt(
                        x.rank(),
                        #[trigger] out@[k].rank(),
                    ) by {
                        if k < mid && lex_lt(x.rank(), out@[k].rank()) {
                            lemma_lex_lt_le(x.rank(), out@[k].rank(), out@[mid as int].rank());
                        }
                    }
                }
                lo = mid + 1;
            }
        }
        proof {
            lemma_insert_stable(all.take(it.index()), out@, x, lo as int);
            assert(all.take(it.index() + 1) =~= all.take(it.index()).push(x));
        }
        out.insert(lo, x);
    }
    proof {
        assert(all.take(all.len() as int) =~= all);
        lemma_stable_sorted_is(all, out@);
    }
    out
}

/// The lexicographic order: behind the longest common beginning, the one that ends or has
/// the smaller number comes first.
pub proof fn law_lexicographic_order(a: Seq<int>, b: Seq<int>, n: int)
    requires
        0 <= n <= a.len(),
        n <= b.len(),
        a.take(n) == b.take(n),
        n < a.len() && n < b.len() ==> a[n] != b[n],
    ensures
        lex_lt(a, b) <==> n < b.len() && (n == a.len() || a[n] < b[n]),
    decreases n,
{
    if n > 0 {
        assert(a.take(n)[0] == a[0] && b.take(n)[0] == b[0]);
        let x = a.skip(1);
        let y = b.skip(1);
        assert(x.take(n - 1) =~= a.take(n).skip(1));
        assert(y.take(n - 1) =~= b.take(n).skip(1));
        law_lexicographic_order(x, y, n - 1);
    }
}

/// Text is ordered by the numbers of its characters.
pub proof fn law_text_order(s: String, i: int)
    requires
        0 <= i < s@.len(),
    ensures
        s.rank().len() == s@.len(),
        s.rank()[i] == s@[i] as int,
{
}

/// A stable sort holds the same items, never one behind another with a greater key, and
/// items with the same key in the order that they had.
pub proof fn law_stable_sort<T: Ranked>(a: Seq<T>, i: int, j: int, key: Seq<int>)
    ensures
        stable_sorted(a).len() == a.len(),
        stable_sorted(a).to_multiset() == a.to_multiset(),
        0 <= i < j < a.len() ==> !lex_lt(
            stable_sorted(a)[j].rank(),
            stable_sorted(a)[i].rank(),
        ),
        stable_sorted(a).filter(|x: T| x.rank() == key) == a.filter(|x: T| x.rank() == key),
{
    lemma_stable_sort_exists(a);
    assert(of_rank(stable_sorted(a), key) == of_rank(a, key));
    assert(has_rank::<T>(key) =~= (|x: T| x.rank() == key));
}

/// Different texts have different code points.
pub proof fn lemma_code_points_differ(a: Seq<char>, b: Seq<char>)
    requires
        code_points(a) == code_points(b),
    ensures
        a == b,
{
    assert(a.len() == code_points(a).len());
    assert(b.len() == code_points(b).len());
    assert forall|i: int| 0 <= i < a.len() implies a[i] == b[i] by {
        let x: char = a[i];
        let y: char = b[i];
        assert(code_points(a)[i] == x as int && code_points(b)[i] == y as int);
        assert(x == y);
    }
    assert(a =~= b);
}

} // verus!
