//! Renaming files and directories whose names the mapping set changes.
//!
//! The caller walks the tree and performs the renames. This module says in
//! which order the entries are taken, what an entry is renamed to, and what
//! is reported of it.

use vstd::prelude::*;
use vstd::string::StringExecFns;

use crate::names::{first_free, first_free_name, lemma_first_free};
use crate::rewrite::{apply_mappings, rewritten};
use crate::text::{chars_of, same_text};
use crate::variants::Pair;

verus! {

// ---------------------------------------------------------------------------
// The order of the entries
// ---------------------------------------------------------------------------

/// Entry `a` is taken before entry `b`: it lies deeper, or as deep and was
/// found earlier.
pub open spec fn taken_before(depths: Seq<usize>, a: int, b: int) -> bool {
    depths[a] > depths[b] || (depths[a] == depths[b] && a < b)
}

/// Every entry of `order` is taken before all the entries after it.
pub open spec fn in_rank(order: Seq<usize>, depths: Seq<usize>) -> bool {
    forall|i: int, j: int|
        0 <= i < j < order.len() ==> taken_before(
            depths,
            (#[trigger] order[i]) as int,
            (#[trigger] order[j]) as int,
        )
}

/// `order` lists the entries `0..depths.len()`, each once, the deepest
/// first, and entries of one depth in the order in which they were found.
pub open spec fn is_deepest_first(order: Seq<usize>, depths: Seq<usize>) -> bool {
    &&& order.len() == depths.len()
    &&& forall|k: usize| #[trigger] order.contains(k) <==> k < depths.len()
    &&& in_rank(order, depths)
}

/// The order in which to rename the entries whose depths are `depths`:
/// children before their parents, so that no rename moves an entry that is
/// still to come.
pub fn deepest_first(depths: &[usize]) -> (order: Vec<usize>)
    ensures
        is_deepest_first(order@, depths@),
{
    let mut order: Vec<usize> = Vec::new();
    let mut n: usize = 0;
    while n < depths.len()
        invariant
            n <= depths.len(),
            order.len() == n,
            forall|i: int| 0 <= i < order.len() ==> (#[trigger] order@[i]) < n,
            forall|k: usize| k < n ==> #[trigger] order@.contains(k),
            in_rank(order@, depths@),
        decreases depths.len() - n,
    {
        let depth = depths[n];
        let mut at: usize = 0;
        while at < order.len() && depths[order[at]] >= depth
            invariant
                at <= order.len(),
                n < depths.len(),
                depth == depths@[n as int],
                forall|i: int| 0 <= i < order.len() ==> (#[trigger] order@[i]) < n,
                forall|i: int| 0 <= i < at ==> depths@[(#[trigger] order@[i]) as int] >= depth,
            decreases order.len() - at,
        {
            at += 1;
        }
        let ghost before = order@;
        order.insert(at, n);
        proof {
            let after = order@;
            assert forall|i: int, j: int| 0 <= i < j < after.len() implies taken_before(
                depths@,
                (#[trigger] after[i]) as int,
                (#[trigger] after[j]) as int,
            ) by {
                if j < at {
                    assert(after[i] == before[i] && after[j] == before[j]);
                } else if j == at {
                    assert(after[i] == before[i]);
                } else if i == at {
                    assert(after[j] == before[j - 1]);
                    if j - 1 > at {
                        assert(taken_before(depths@, before[at as int] as int, before[j - 1] as int));
                    }
                } else if i < at {
                    assert(after[i] == before[i] && after[j] == before[j - 1]);
                } else {
                    assert(after[i] == before[i - 1] && after[j] == before[j - 1]);
                }
            }
            assert forall|i: int| 0 <= i < after.len() implies (#[trigger] after[i]) < n + 1 by {
                if i < at {
                    assert(after[i] == before[i]);
                } else if i > at {
                    assert(after[i] == before[i - 1]);
                }
            }
            assert forall|k: usize| k < n + 1 implies #[trigger] after.contains(k) by {
                if k < n {
                    assert(before.contains(k));
                    let i = choose|i: int| 0 <= i < before.len() && before[i] == k;
                    if i < at {
                        assert(after[i] == k);
                    } else {
                        assert(after[i + 1] == k);
                    }
                } else {
                    assert(after[at as int] == k);
                }
            }
        }
        n += 1;
    }
    assert forall|k: usize| #[trigger] order@.contains(k) implies k < depths.len() by {
        let i = choose|i: int| 0 <= i < order@.len() && order@[i] == k;
        assert(order@[i] < n);
    }
    order
}

/// An order in rank names no entry twice.
pub proof fn lemma_order_names_each_once(order: Seq<usize>, depths: Seq<usize>)
    requires
        in_rank(order, depths),
    ensures
        order.no_duplicates(),
{
    assert forall|i: int, j: int| 0 <= i < order.len() && 0 <= j < order.len() && i != j implies order[i]
        != order[j] by {
        if i < j {
            assert(taken_before(depths, order[i] as int, order[j] as int));
        } else {
            assert(taken_before(depths, order[j] as int, order[i] as int));
        }
    }
}

/// Two orders in rank that name the same entries are the same order.
proof fn lemma_rank_is_unique(a: Seq<usize>, b: Seq<usize>, depths: Seq<usize>)
    requires
        in_rank(a, depths),
        in_rank(b, depths),
        forall|k: usize|
            #![trigger a.contains(k)]
            #![trigger b.contains(k)]
            a.contains(k) <==> b.contains(k),
    ensures
        a == b,
    decreases a.len(),
{
    if a.len() == 0 {
        if b.len() > 0 {
            assert(b.contains(b[0]));
        }
        assert(a =~= b);
    } else {
        assert(a.contains(a[0]));
        let j = choose|j: int| 0 <= j < b.len() && b[j] == a[0];
        assert(b.contains(b[0]));
        let i = choose|i: int| 0 <= i < a.len() && a[i] == b[0];
        if j > 0 {
            assert(taken_before(depths, b[0] as int, b[j] as int));
            if i > 0 {
                assert(taken_before(depths, a[0] as int, a[i] as int));
            }
        }
        assert(a[0] == b[0]);
        let ta = a.skip(1);
        let tb = b.skip(1);
        assert forall|k: usize|
            #![trigger ta.contains(k)]
            #![trigger tb.contains(k)]
            ta.contains(k) <==> tb.contains(k) by {
            if ta.contains(k) {
                let x = choose|x: int| 0 <= x < ta.len() && ta[x] == k;
                assert(a[x + 1] == k);
                assert(taken_before(depths, a[0] as int, a[x + 1] as int));
                assert(a.contains(k));
                let y = choose|y: int| 0 <= y < b.len() && b[y] == k;
                assert(tb[y - 1] == k);
            }
            if tb.contains(k) {
                let x = choose|x: int| 0 <= x < tb.len() && tb[x] == k;
                assert(b[x + 1] == k);
                assert(taken_before(depths, b[0] as int, b[x + 1] as int));
                assert(b.contains(k));
                let y = choose|y: int| 0 <= y < a.len() && a[y] == k;
                assert(ta[y - 1] == k);
            }
        }
        assert forall|x: int, y: int| 0 <= x < y < ta.len() implies taken_before(
            depths,
            (#[trigger] ta[x]) as int,
            (#[trigger] ta[y]) as int,
        ) by {
            assert(taken_before(depths, a[x + 1] as int, a[y + 1] as int));
        }
        assert forall|x: int, y: int| 0 <= x < y < tb.len() implies taken_before(
            depths,
            (#[trigger] tb[x]) as int,
            (#[trigger] tb[y]) as int,
        ) by {
            assert(taken_before(depths, b[x + 1] as int, b[y + 1] as int));
        }
        lemma_rank_is_unique(ta, tb, depths);
        assert(a =~= seq![a[0]] + ta);
        assert(b =~= seq![b[0]] + tb);
    }
}

/// The entries have one order of renaming.
pub proof fn lemma_deepest_first_is_unique(a: Seq<usize>, b: Seq<usize>, depths: Seq<usize>)
    requires
        is_deepest_first(a, depths),
        is_deepest_first(b, depths),
    ensures
        a == b,
{
    lemma_rank_is_unique(a, b, depths);
}

// ---------------------------------------------------------------------------
// The new name of an entry
// ---------------------------------------------------------------------------

/// What an entry called `name` is renamed to in a directory that holds
/// `siblings`: nothing if the mappings leave the name as it is; else the
/// rewritten name, or if that is taken, the rewritten name with `_` and the
/// lowest number from 1 on that makes it free.
pub open spec fn rename_target_of(
    name: Seq<char>,
    mappings: Seq<Pair>,
    siblings: Seq<Seq<char>>,
) -> Option<Seq<char>> {
    let wanted = rewritten(name, mappings);
    if wanted == name {
        None
    } else {
        Some(first_free(wanted, seq!['_'], siblings))
    }
}

/// What to rename the entry `file_name` to, if at all. The mappings are
/// applied to the file name alone, not to the path that leads to it.
/// `siblings` are the names that the entry's directory holds now.
pub fn rename_target(file_name: &str, mappings: &[(String, String)], siblings: &[String]) -> (target:
    Option<String>)
    ensures
        target.deep_view() == rename_target_of(
            file_name@,
            mappings.deep_view(),
            siblings.deep_view(),
        ),
{
    let wanted = apply_mappings(file_name, mappings);
    let a = chars_of(wanted.as_str());
    let b = chars_of(file_name);
    if same_text(&a, &b) {
        None
    } else {
        proof {
            reveal_strlit("_");
            assert("_"@ =~= seq!['_']);
        }
        Some(first_free_name(wanted.as_str(), "_", siblings))
    }
}

/// The names of a directory after entry `i` was renamed, if the mappings
/// rename it.
pub open spec fn after_rename(names: Seq<Seq<char>>, mappings: Seq<Pair>, i: int) -> Seq<
    Seq<char>,
> {
    match rename_target_of(names[i], mappings, names) {
        Some(target) => names.update(i, target),
        None => names,
    }
}

/// The names of a directory after its first `n` entries were renamed, one
/// after the other, each with the names before it as they had become.
pub open spec fn after_renames(names: Seq<Seq<char>>, mappings: Seq<Pair>, n: nat) -> Seq<
    Seq<char>,
>
    decreases n,
{
    if n == 0 {
        names
    } else {
        after_rename(after_renames(names, mappings, (n - 1) as nat), mappings, n - 1)
    }
}

/// Renaming one entry of a directory keeps the names in it distinct, and
/// gives the entry a name that no entry had.
pub proof fn lemma_rename_keeps_names_distinct(names: Seq<Seq<char>>, mappings: Seq<Pair>, i: int)
    requires
        names.no_duplicates(),
        0 <= i < names.len(),
    ensures
        after_rename(names, mappings, i).no_duplicates(),
        after_rename(names, mappings, i).len() == names.len(),
        rename_target_of(names[i], mappings, names) matches Some(target) ==> !names.contains(target),
{
    let after = after_rename(names, mappings, i);
    if let Some(target) = rename_target_of(names[i], mappings, names) {
        lemma_first_free(rewritten(names[i], mappings), seq!['_'], names);
        assert forall|a: int, b: int| 0 <= a < after.len() && 0 <= b < after.len() && a != b implies after[a]
            != after[b] by {
            if a == i {
                assert(names.contains(names[b]));
            } else if b == i {
                assert(names.contains(names[a]));
            }
        }
    }
}

/// Renaming the entries of a directory never gives two of them the same
/// name: if the names were distinct before, they are distinct after any
/// number of renames.
pub proof fn lemma_renames_keep_names_distinct(names: Seq<Seq<char>>, mappings: Seq<Pair>, n: nat)
    requires
        names.no_duplicates(),
        n <= names.len(),
    ensures
        after_renames(names, mappings, n).no_duplicates(),
        after_renames(names, mappings, n).len() == names.len(),
    decreases n,
{
    if n > 0 {
        lemma_renames_keep_names_distinct(names, mappings, (n - 1) as nat);
        lemma_rename_keeps_names_distinct(
            after_renames(names, mappings, (n - 1) as nat),
            mappings,
            n - 1,
        );
    }
}

// ---------------------------------------------------------------------------
// Reports
// ---------------------------------------------------------------------------

/// The line that reports a rename from `from` to `to`: done, or in a dry
/// run only planned.
pub fn report_rename(from: &str, to: &str, dry_run: bool) -> (line: String)
    ensures
        line@ == (if dry_run {
            "DRY RENAME: "@
        } else {
            "RENAME: "@
        }) + from@ + " -> "@ + to@,
{
    let mut line = String::new();
    if dry_run {
        line.append("DRY RENAME: ");
    } else {
        line.append("RENAME: ");
    }
    line.append(from);
    line.append(" -> ");
    line.append(to);
    assert(line@ =~= (if dry_run {
        "DRY RENAME: "@
    } else {
        "RENAME: "@
    }) + from@ + " -> "@ + to@);
    line
}

/// The line that warns of a rename that failed with `error`.
pub fn report_rename_failure(from: &str, to: &str, error: &str) -> (line: String)
    ensures
        line@ == "WARN: Failed to rename "@ + from@ + " -> "@ + to@ + ": "@ + error@,
{
    let mut line = String::new();
    line.append("WARN: Failed to rename ");
    line.append(from);
    line.append(" -> ");
    line.append(to);
    line.append(": ");
    line.append(error);
    assert(line@ =~= "WARN: Failed to rename "@ + from@ + " -> "@ + to@ + ": "@ + error@);
    line
}

} // verus!
