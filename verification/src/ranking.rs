//! Ranked rows of a unit.

use vstd::prelude::*;

use crate::model::BelId;
use crate::ordered::{lemma_lex_total, lemma_lex_transitive, lex_before, lex_precedes};
use crate::units::PlacementUnit;

verus! {

/// A row with what it is ranked by.
#[derive(Clone, Copy, Debug, PartialEq, Eq, Structural)]
pub struct RankedRow {
    /// Score: the lower, the better.
    pub score: u64,
    /// Span: the lower, the better at one score.
    pub span: u64,
    /// Choice of the unit.
    pub choice: usize,
}

/// The one row is ranked before the other: by score, then by span, then by BELs.
pub open spec fn ranked_before(unit: PlacementUnit, a: RankedRow, b: RankedRow) -> bool {
    ||| a.score < b.score
    ||| a.score == b.score && a.span < b.span
    ||| a.score == b.score && a.span == b.span && lex_before(
        unit.choices.row(a.choice as int),
        unit.choices.row(b.choice as int),
    )
}

/// Each row is ranked before all that follow it.
pub open spec fn is_ranked(unit: PlacementUnit, list: Seq<RankedRow>) -> bool {
    forall|i: int, j: int|
        0 <= i < j < list.len() ==> ranked_before(unit, #[trigger] list[i], #[trigger] list[j])
}

/// Some entry stands for the row.
pub open spec fn has_row(unit: PlacementUnit, list: Seq<RankedRow>, row: Seq<BelId>) -> bool {
    exists|i: int| 0 <= i < list.len() && unit.choices.row((#[trigger] list[i]).choice as int) == row
}

/// The order of ranks is transitive.
pub proof fn lemma_ranked_transitive(unit: PlacementUnit, a: RankedRow, b: RankedRow, c: RankedRow)
    requires
        ranked_before(unit, a, b),
        ranked_before(unit, b, c),
    ensures
        ranked_before(unit, a, c),
{
    if a.score == b.score && b.score == c.score && a.span == b.span && b.span == c.span {
        lemma_lex_transitive(
            unit.choices.row(a.choice as int),
            unit.choices.row(b.choice as int),
            unit.choices.row(c.choice as int),
        );
    }
}

/// Whether the one row is ranked before the other.
fn ranks_before(unit: &PlacementUnit, a: RankedRow, b: RankedRow) -> (result: bool)
    requires
        a.choice < unit.choices.count(),
        b.choice < unit.choices.count(),
    ensures
        result == ranked_before(*unit, a, b),
{
    if a.score != b.score {
        return a.score < b.score;
    }
    if a.span != b.span {
        return a.span < b.span;
    }
    lex_precedes(&unit.choices.assignment(a.choice), &unit.choices.assignment(b.choice))
}

/// Every entry names a choice of the unit.
pub open spec fn names_choices(unit: PlacementUnit, list: Seq<RankedRow>) -> bool {
    forall|i: int| 0 <= i < list.len() ==> (#[trigger] list[i]).choice < unit.choices.count()
}

/// Enters a row, unless the same row is ranked already.
pub(crate) fn insert_ranked(unit: &PlacementUnit, list: &mut Vec<RankedRow>, entry: RankedRow)
    requires
        names_choices(*unit, old(list)@),
        is_ranked(*unit, old(list)@),
        entry.choice < unit.choices.count(),
    ensures
        names_choices(*unit, final(list)@),
        is_ranked(*unit, final(list)@),
        has_row(*unit, final(list)@, unit.choices.row(entry.choice as int)),
        forall|x: RankedRow| #[trigger]
            final(list)@.contains(x) ==> old(list)@.contains(x) || x == entry,
        forall|x: RankedRow| #[trigger] old(list)@.contains(x) ==> final(list)@.contains(x),
{
    let ghost before = list@;
    let mut at: usize = 0;
    while at < list.len() && ranks_before(unit, list[at], entry)
        invariant
            at <= list@.len(),
            list@ == before,
            names_choices(*unit, list@),
            entry.choice < unit.choices.count(),
            forall|i: int| 0 <= i < at ==> ranked_before(*unit, #[trigger] list@[i], entry),
        decreases list@.len() - at,
    {
        at = at + 1;
    }
    if at < list.len() && !ranks_before(unit, entry, list[at]) {
        proof {
            let other = list@[at as int];
            lemma_lex_total(
                unit.choices.row(entry.choice as int),
                unit.choices.row(other.choice as int),
            );
            assert(unit.choices.row(list@[at as int].choice as int) == unit.choices.row(
                entry.choice as int,
            ));
        }
        return ;
    }
    list.insert(at, entry);
    proof {
        let after = list@;
        assert(after =~= before.insert(at as int, entry));
        assert forall|i: int| 0 <= i < after.len() implies (#[trigger] after[i]).choice
            < unit.choices.count() by {
            if i < at {
                assert(after[i] == before[i]);
            } else if i > at {
                assert(after[i] == before[i - 1]);
            }
        }
        assert forall|i: int, j: int| 0 <= i < j < after.len() implies ranked_before(
            *unit,
            #[trigger] after[i],
            #[trigger] after[j],
        ) by {
            if j < at {
                assert(ranked_before(*unit, before[i], before[j]));
            } else if j == at {
                assert(ranked_before(*unit, before[i], entry));
            } else if i > at {
                assert(ranked_before(*unit, before[i - 1], before[j - 1]));
            } else if i == at {
                assert(ranked_before(*unit, entry, before[at as int]));
                if j - 1 > at {
                    assert(ranked_before(*unit, before[at as int], before[j - 1]));
                    lemma_ranked_transitive(*unit, entry, before[at as int], before[j - 1]);
                }
            } else {
                assert(ranked_before(*unit, before[i], before[j - 1]));
            }
        }
        assert(after[at as int] == entry);
        assert forall|x: RankedRow| #[trigger] after.contains(x) implies before.contains(x) || x
            == entry by {
            let k = after.index_of(x);
            if k < at {
                assert(before[k] == x);
            } else if k > at {
                assert(before[k - 1] == x);
            }
        }
        assert forall|x: RankedRow| #[trigger] before.contains(x) implies after.contains(x) by {
            let k = before.index_of(x);
            if k < at {
                assert(after[k] == x);
            } else {
                assert(after[k + 1] == x);
            }
        }
    }
}

/// Removes everything behind the first entries.
pub(crate) fn keep_first(list: &mut Vec<RankedRow>, count: usize)
    ensures
        final(list)@ == if count < old(list)@.len() {
            old(list)@.take(count as int)
        } else {
            old(list)@
        },
{
    if count < list.len() {
        list.truncate(count);
        assert(list@ =~= old(list)@.take(count as int));
    }
}

} // verus!
