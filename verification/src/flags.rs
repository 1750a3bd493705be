//! The list of the program's long flags.

use vstd::prelude::*;
use crate::sort::{
    code_points, is_sorted, lemma_code_points_differ, lemma_lex_irreflexive, lemma_lex_total,
    lemma_lex_transitive, lemma_stable_sort_exists, lex_lt, stable_sort, Ranked,
};

verus! {

/// Some of the texts is `t`.
pub open spec fn lists(s: Seq<String>, t: Seq<char>) -> bool {
    exists|i: int| 0 <= i < s.len() && (#[trigger] s[i])@ == t
}

/// Each text comes before all that follow it.
pub open spec fn is_strictly_sorted(s: Seq<String>) -> bool {
    forall|i: int, j: int|
        0 <= i < j < s.len() ==> lex_lt(#[trigger] s[i].rank(), #[trigger] s[j].rank())
}

fn dashed(name: &str) -> (r: String)
    ensures
        r@ == "--"@ + name@,
{
    let mut r: String = String::new();
    r.append("--");
    r.append(name);
    assert(r@ =~= "--"@ + name@);
    r
}

proof fn lemma_same_code_points(a: Seq<char>, b: Seq<char>)
    requires
        code_points(a) == code_points(b),
    ensures
        a == b,
{
    lemma_code_points_differ(a, b);
}

fn dedup(sorted: Vec<String>) -> (r: Vec<String>)
    requires
        is_sorted(sorted@),
    ensures
        is_strictly_sorted(r@),
        forall|t: Seq<char>| lists(r@, t) <==> #[trigger] lists(sorted@, t),
{
    let ghost all = sorted@;
    let mut r: Vec<String> = Vec::new();
    for x in it: sorted
        invariant
            it.seq() == all,
            is_sorted(all),
            is_strictly_sorted(r@),
            it.index() == 0 <==> r@.len() == 0,
            r@.len() > 0 ==> r@.last()@ == all[it.index() - 1]@,
            forall|t: Seq<char>| lists(r@, t) <==> #[trigger] lists(all.take(it.index()), t),
    {
        let ghost before = r@;
        let ghost n = it.index();
        let repeats: bool = if r.len() == 0 {
            false
        } else {
            r[r.len() - 1] == x
        };
        assert(x == all[n]);
        proof {
            if before.len() > 0 {
                let last = before.last();
                assert(last.rank() == all[n - 1].rank());
                assert(!lex_lt(all[n].rank(), all[n - 1].rank()));
                lemma_lex_total(last.rank(), x.rank());
                if !repeats && last.rank() == x.rank() {
                    lemma_same_code_points(last@, x@);
                }
                assert forall|i: int| 0 <= i < before.len() && !repeats implies lex_lt(
                    (#[trigger] before[i]).rank(),
                    x.rank(),
                ) by {
                    if i < before.len() - 1 {
                        assert(lex_lt(before[i].rank(), before[before.len() - 1].rank()));
                        lemma_lex_transitive(before[i].rank(), last.rank(), x.rank());
                    }
                }
            }
        }
        let ghost text = x@;
        if !repeats {
            r.push(x);
        }
        proof {
            assert forall|t: Seq<char>| lists(r@, t) <==> #[trigger] lists(all.take(n + 1), t) by {
                assert(lists(before, t) <==> lists(all.take(n), t));
                if lists(all.take(n + 1), t) {
                    let i = choose|i: int|
                        0 <= i < n + 1 && (#[trigger] all.take(n + 1)[i])@ == t;
                    if i < n {
                        assert(all.take(n)[i]@ == t);
                        let k = choose|k: int|
                            0 <= k < before.len() && (#[trigger] before[k])@ == t;
                        assert(r@[k]@ == t);
                    } else {
                        assert(r@[r@.len() - 1]@ == t);
                    }
                }
                if lists(r@, t) {
                    let k = choose|k: int| 0 <= k < r@.len() && (#[trigger] r@[k])@ == t;
                    if k < before.len() {
                        assert(before[k]@ == t);
                        let i = choose|i: int| 0 <= i < n && (#[trigger] all.take(n)[i])@ == t;
                        assert(all.take(n + 1)[i]@ == t);
                    } else {
                        assert(all.take(n + 1)[n]@ == t);
                    }
                }
            }
        }
    }
    assert(all.take(all.len() as int) =~= all);
    r
}

proof fn lemma_lines(r: Seq<String>, names: Seq<String>)
    requires
        is_strictly_sorted(r),
        forall|t: Seq<char>| #[trigger]
            lists(r, t) <==> exists|k: int|
                0 <= k < names.len() && t == "--"@ + (#[trigger] names[k])@,
    ensures
        forall|i: int|
            0 <= i < r.len() ==> names.map_values(|n: String| "--"@ + n@).contains(
                (#[trigger] r[i])@,
            ),
        forall|k: int|
            0 <= k < names.len() ==> r.map_values(|l: String| l@).contains(
                "--"@ + (#[trigger] names[k])@,
            ),
        forall|i: int, j: int| 0 <= i < j < r.len() ==> (#[trigger] r[i])@ != (#[trigger] r[j])@,
        forall|i: int, j: int|
            0 <= i < j < r.len() ==> lex_lt(
                (#[trigger] r[i])@.map_values(|c: char| c as int),
                (#[trigger] r[j])@.map_values(|c: char| c as int),
            ),
{
    let flags = names.map_values(|n: String| "--"@ + n@);
    let lines = r.map_values(|l: String| l@);
    assert forall|i: int| 0 <= i < r.len() implies flags.contains((#[trigger] r[i])@) by {
        assert(lists(r, r[i]@));
        let k = choose|k: int| 0 <= k < names.len() && r[i]@ == "--"@ + (#[trigger] names[k])@;
        assert(flags[k] == r[i]@);
    }
    assert forall|k: int| 0 <= k < names.len() implies lines.contains(
        "--"@ + (#[trigger] names[k])@,
    ) by {
        let t = "--"@ + names[k]@;
        assert(lists(r, t));
        let i = choose|i: int| 0 <= i < r.len() && (#[trigger] r[i])@ == t;
        assert(lines[i] == t);
    }
    assert forall|i: int, j: int| 0 <= i < j < r.len() implies (#[trigger] r[i])@ != (
    #[trigger] r[j])@ && lex_lt(
        r[i]@.map_values(|c: char| c as int),
        r[j]@.map_values(|c: char| c as int),
    ) by {
        assert(lex_lt(r[i].rank(), r[j].rank()));
        lemma_lex_irreflexive(r[i].rank());
        assert(r[i]@.map_values(|c: char| c as int) =~= r[i].rank());
        assert(r[j]@.map_values(|c: char| c as int) =~= r[j].rank());
    }
}

/// The flags as they are written, in order, none twice.
pub fn flag_lines(names: &[String]) -> (r: Vec<String>)
    ensures
        is_strictly_sorted(r@),
        forall|t: Seq<char>| #[trigger]
            lists(r@, t) <==> exists|k: int|
                0 <= k < names@.len() && t == "--"@ + (#[trigger] names@[k])@,
        forall|i: int|
            0 <= i < r@.len() ==> names@.map_values(|n: String| "--"@ + n@).contains(
                (#[trigger] r@[i])@,
            ),
        forall|k: int|
            0 <= k < names@.len() ==> r@.map_values(|l: String| l@).contains(
                "--"@ + (#[trigger] names@[k])@,
            ),
        forall|i: int, j: int|
            0 <= i < j < r@.len() ==> (#[trigger] r@[i])@ != (#[trigger] r@[j])@,
        forall|i: int, j: int|
            0 <= i < j < r@.len() ==> lex_lt(
                (#[trigger] r@[i])@.map_values(|c: char| c as int),
                (#[trigger] r@[j])@.map_values(|c: char| c as int),
            ),
{
    let mut flags: Vec<String> = Vec::new();
    let mut i: usize = 0;
    while i < names.len()
        invariant
            i <= names@.len(),
            flags@.len() == i,
            forall|k: int| 0 <= k < i ==> (#[trigger] flags@[k])@ == "--"@ + names@[k]@,
        decreases names@.len() - i,
    {
        flags.push(dashed(names[i].as_str()));
        i = i + 1;
    }
    let ghost given = flags@;
    let sorted: Vec<String> = stable_sort(flags);
    proof {
        broadcast use vstd::seq_lib::group_to_multiset_ensures;

        lemma_stable_sort_exists(given);
        assert forall|t: Seq<char>| #[trigger] lists(sorted@, t) <==> exists|k: int|
            0 <= k < names@.len() && t == "--"@ + (#[trigger] names@[k])@ by {
            if lists(sorted@, t) {
                let j = choose|j: int| 0 <= j < sorted@.len() && (#[trigger] sorted@[j])@ == t;
                assert(sorted@.contains(sorted@[j]));
                assert(given.to_multiset().count(sorted@[j]) > 0);
                assert(given.contains(sorted@[j]));
                let k = choose|k: int| 0 <= k < given.len() && given[k] == sorted@[j];
                assert(t == "--"@ + names@[k]@);
            }
            if exists|k: int| 0 <= k < names@.len() && t == "--"@ + (#[trigger] names@[k])@ {
                let k = choose|k: int|
                    0 <= k < names@.len() && t == "--"@ + (#[trigger] names@[k])@;
                assert(given.contains(given[k]));
                assert(sorted@.to_multiset().count(given[k]) > 0);
                assert(sorted@.contains(given[k]));
                let j = choose|j: int| 0 <= j < sorted@.len() && sorted@[j] == given[k];
                assert(sorted@[j]@ == t);
            }
        }
    }
    let r: Vec<String> = dedup(sorted);
    proof {
        assert forall|t: Seq<char>| #[trigger] lists(r@, t) <==> exists|k: int|
            0 <= k < names@.len() && t == "--"@ + (#[trigger] names@[k])@ by {
            assert(lists(sorted@, t) <==> lists(r@, t));
        }
        lemma_lines(r@, names@);
    }
    r
}

} // verus!
