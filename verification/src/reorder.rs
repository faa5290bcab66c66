//! Moving a migration by one place.
//!
//! A move exchanges what two neighbouring entries hold: the name of the
//! migration and the names of its files. The identifiers stay where they
//! are, so the entries remain in ascending order and the migration that
//! moved up now runs earlier.

use crate::entries::{ascending, ids, EntryView};
use vstd::prelude::*;

verus! {

/// The entries after those at `lo` and `lo + 1` have exchanged what they
/// hold: each of the two positions keeps its identifier and takes the name
/// and the file names of the other.
pub open spec fn exchange(entries: Seq<EntryView>, lo: int) -> Seq<EntryView>
    recommends
        0 <= lo,
        lo + 1 < entries.len(),
{
    entries.update(lo, entries[lo + 1].with_id(entries[lo].migration.id)).update(
        lo + 1,
        entries[lo].with_id(entries[lo + 1].migration.id),
    )
}

/// The entries after the one at `i` has moved up by one place; unchanged
/// where it is the first or `i` is no position.
pub open spec fn moved_up(entries: Seq<EntryView>, i: int) -> Seq<EntryView> {
    if 0 < i < entries.len() {
        exchange(entries, i - 1)
    } else {
        entries
    }
}

/// The entries after the one at `i` has moved down by one place; unchanged
/// where it is the last or `i` is no position.
pub open spec fn moved_down(entries: Seq<EntryView>, i: int) -> Seq<EntryView> {
    if 0 <= i && i + 1 < entries.len() {
        exchange(entries, i)
    } else {
        entries
    }
}

/// One step of a reordering.
pub enum Move {
    /// Move the entry at this position up.
    Up(int),
    /// Move the entry at this position down.
    Down(int),
}

/// The entries after the steps of `moves`, taken from the left.
pub open spec fn moved(entries: Seq<EntryView>, moves: Seq<Move>) -> Seq<EntryView>
    decreases moves.len(),
{
    if moves.len() == 0 {
        entries
    } else {
        let before = moved(entries, moves.drop_last());
        match moves.last() {
            Move::Up(i) => moved_up(before, i),
            Move::Down(i) => moved_down(before, i),
        }
    }
}

/// The entries after the one at `i` has moved up `by` times, one place at a
/// time. The steps end early, with the entries as they then are, at the
/// first step that is out of range.
pub open spec fn moved_up_by(entries: Seq<EntryView>, i: int, by: nat) -> Seq<EntryView>
    decreases by,
{
    if by == 0 || !(0 < i < entries.len()) {
        entries
    } else {
        moved_up_by(moved_up(entries, i), i - 1, (by - 1) as nat)
    }
}

/// The entries after the one at `i` has moved down `by` times, one place at
/// a time. The steps end early, with the entries as they then are, at the
/// first step that is out of range.
pub open spec fn moved_down_by(entries: Seq<EntryView>, i: int, by: nat) -> Seq<EntryView>
    decreases by,
{
    if by == 0 || !(0 <= i && i + 1 < entries.len()) {
        entries
    } else {
        moved_down_by(moved_down(entries, i), i + 1, (by - 1) as nat)
    }
}

/// Moving an entry by several places keeps the identifiers where they are.
pub proof fn lemma_moved_by_keeps_ids(entries: Seq<EntryView>, i: int, by: nat)
    ensures
        ids(moved_up_by(entries, i, by)) == ids(entries),
        ids(moved_down_by(entries, i, by)) == ids(entries),
        ascending(entries) ==> ascending(moved_up_by(entries, i, by)),
        ascending(entries) ==> ascending(moved_down_by(entries, i, by)),
    decreases by,
{
    if by > 0 {
        if 0 < i < entries.len() {
            lemma_exchange_keeps_ids(entries, i - 1);
            lemma_moved_by_keeps_ids(moved_up(entries, i), i - 1, (by - 1) as nat);
        }
        if 0 <= i && i + 1 < entries.len() {
            lemma_exchange_keeps_ids(entries, i);
            lemma_moved_by_keeps_ids(moved_down(entries, i), i + 1, (by - 1) as nat);
        }
    }
}

/// An exchange leaves every identifier at its position.
pub proof fn lemma_exchange_keeps_ids(entries: Seq<EntryView>, lo: int)
    requires
        0 <= lo,
        lo + 1 < entries.len(),
    ensures
        ids(exchange(entries, lo)) == ids(entries),
        ascending(entries) ==> ascending(exchange(entries, lo)),
{
    let after = exchange(entries, lo);
    assert(ids(after) =~= ids(entries));
    if ascending(entries) {
        assert forall|i: int, j: int| 0 <= i < j < after.len() implies after[i].migration.id
            < after[j].migration.id by {
            assert(after[i].migration.id == entries[i].migration.id);
            assert(after[j].migration.id == entries[j].migration.id);
        }
    }
}

/// Reordering keeps the identifiers: whatever steps are taken, in range or
/// not, each position holds the identifier it held before, and entries in
/// ascending order stay in ascending order.
pub proof fn lemma_moves_keep_ids(entries: Seq<EntryView>, moves: Seq<Move>)
    ensures
        ids(moved(entries, moves)) == ids(entries),
        ids(moved(entries, moves)).to_multiset() == ids(entries).to_multiset(),
        ascending(entries) ==> ascending(moved(entries, moves)),
    decreases moves.len(),
{
    if moves.len() > 0 {
        let before = moved(entries, moves.drop_last());
        lemma_moves_keep_ids(entries, moves.drop_last());
        match moves.last() {
            Move::Up(i) => {
                if 0 < i < before.len() {
                    lemma_exchange_keeps_ids(before, i - 1);
                }
            },
            Move::Down(i) => {
                if 0 <= i && i + 1 < before.len() {
                    lemma_exchange_keeps_ids(before, i);
                }
            },
        }
    }
}

/// Moving an entry up and then moving the entry above its old place down
/// restores the entries.
pub proof fn lemma_down_undoes_up(entries: Seq<EntryView>, i: int)
    requires
        0 < i < entries.len(),
    ensures
        moved_down(moved_up(entries, i), i - 1) == entries,
{
    assert(exchange(exchange(entries, i - 1), i - 1) =~= entries);
}

/// Moving an entry down and then moving the entry below its old place up
/// restores the entries.
pub proof fn lemma_up_undoes_down(entries: Seq<EntryView>, i: int)
    requires
        0 <= i,
        i + 1 < entries.len(),
    ensures
        moved_up(moved_down(entries, i), i + 1) == entries,
{
    assert(exchange(exchange(entries, i), i) =~= entries);
}

} // verus!
