//! Which migrations the file names of a directory encode.
//!
//! Each name is tried against the template of the "up" files and then
//! against that of the "down" files. Names that match neither are left
//! aside. For each identifier and each side the last matching name counts.
//! A directory is in order when no identifier is too large and every
//! identifier has both of its files.

use crate::entries::{ascending, EntryView};
use crate::migration::{lemma_match_fits, match_filename, MigrationView, ParseError};
use crate::pattern::Template;
use vstd::prelude::*;

verus! {

/// The side (`true` for "up") and the migration that the name `s` encodes.
///
/// The "up" template is tried first, and an identifier that is too large
/// for it ends the attempt. A name that fits neither template does not
/// match.
pub open spec fn classify(up: Template, down: Template, s: Seq<char>) -> Result<
    (bool, MigrationView),
    ParseError,
> {
    match match_filename(up, s) {
        Ok(m) => Ok((true, m)),
        Err(ParseError::IdOverflowing) => Err(ParseError::IdOverflowing),
        Err(ParseError::NotMatching) => match match_filename(down, s) {
            Ok(m) => Ok((false, m)),
            Err(e) => Err(e),
        },
    }
}

/// The name `s` encodes the given side of the migration `id`.
pub open spec fn hits(up: Template, down: Template, s: Seq<char>, side: bool, id: nat) -> bool {
    classify(up, down, s) matches Ok(found) && found.0 == side && found.1.id == id
}

/// The name at position `i` has an identifier that is too large.
pub open spec fn overflows_at(up: Template, down: Template, names: Seq<Seq<char>>, i: int) -> bool {
    0 <= i < names.len() && classify(up, down, names[i]) == Err::<
        (bool, MigrationView),
        ParseError,
    >(ParseError::IdOverflowing)
}

/// Some name has an identifier that is too large.
pub open spec fn overflows(up: Template, down: Template, names: Seq<Seq<char>>) -> bool {
    exists|i: int| overflows_at(up, down, names, i)
}

/// The position of the last name that encodes the given side of the
/// migration `id`, if there is one.
pub open spec fn latest(
    up: Template,
    down: Template,
    names: Seq<Seq<char>>,
    side: bool,
    id: nat,
) -> Option<int>
    decreases names.len(),
{
    if names.len() == 0 {
        None
    } else if hits(up, down, names.last(), side, id) {
        Some(names.len() - 1)
    } else {
        latest(up, down, names.drop_last(), side, id)
    }
}

/// Some name encodes a side of the migration `id`.
pub open spec fn listed(up: Template, down: Template, names: Seq<Seq<char>>, id: nat) -> bool {
    latest(up, down, names, true, id) is Some || latest(up, down, names, false, id) is Some
}

/// The migration `id` has one of its two files, and not the other.
pub open spec fn unpaired(up: Template, down: Template, names: Seq<Seq<char>>, id: nat) -> bool {
    latest(up, down, names, true, id) is Some != latest(up, down, names, false, id) is Some
}

/// `id` is the least identifier of a migration with one file.
pub open spec fn is_first_unpaired(
    up: Template,
    down: Template,
    names: Seq<Seq<char>>,
    id: nat,
) -> bool {
    &&& unpaired(up, down, names, id)
    &&& forall|k: nat| k < id ==> !unpaired(up, down, names, k)
}

/// The name of the one file of an unpaired migration.
pub open spec fn present_file(
    up: Template,
    down: Template,
    names: Seq<Seq<char>>,
    id: nat,
) -> Seq<char>
    recommends
        unpaired(up, down, names, id),
{
    match latest(up, down, names, true, id) {
        Some(i) => names[i],
        None => names[latest(up, down, names, false, id)->0],
    }
}

/// The entry of a migration that has both files: the migration as its "up"
/// file encodes it, and the names of the two files.
pub open spec fn entry_for(
    up: Template,
    down: Template,
    names: Seq<Seq<char>>,
    id: nat,
) -> EntryView
    recommends
        latest(up, down, names, true, id) is Some,
        latest(up, down, names, false, id) is Some,
{
    let i = latest(up, down, names, true, id)->0;
    let j = latest(up, down, names, false, id)->0;
    EntryView {
        migration: classify(up, down, names[i])->Ok_0.1,
        name_up: names[i],
        name_down: names[j],
    }
}

/// `entries` lists the migrations that `names` encode: in ascending order
/// of their identifiers, one entry for each migration that is listed, each
/// with both of its files.
pub open spec fn is_listing(
    up: Template,
    down: Template,
    names: Seq<Seq<char>>,
    entries: Seq<EntryView>,
) -> bool {
    &&& ascending(entries)
    &&& forall|i: int|
        0 <= i < entries.len() ==> {
            let id = (#[trigger] entries[i]).migration.id;
            &&& latest(up, down, names, true, id) is Some
            &&& latest(up, down, names, false, id) is Some
            &&& entries[i] == entry_for(up, down, names, id)
        }
    &&& forall|id: nat| #[trigger]
        listed(up, down, names, id) ==> exists|i: int|
            0 <= i < entries.len() && (#[trigger] entries[i]).migration.id == id
}

/// A name encodes only identifiers that fit in `usize`.
pub proof fn lemma_hits_fits(up: Template, down: Template, s: Seq<char>, side: bool, id: nat)
    requires
        hits(up, down, s, side, id),
    ensures
        id <= usize::MAX,
{
    lemma_match_fits(up, s);
    lemma_match_fits(down, s);
}

/// What `latest` returns: the position of a name that encodes the side of
/// the migration, after which no name does; or `None` where no name does.
pub proof fn lemma_latest(up: Template, down: Template, names: Seq<Seq<char>>, side: bool, id: nat)
    ensures
        match latest(up, down, names, side, id) {
            Some(i) => {
                &&& 0 <= i < names.len()
                &&& hits(up, down, names[i], side, id)
                &&& forall|k: int|
                    i < k < names.len() ==> !hits(up, down, #[trigger] names[k], side, id)
            },
            None => forall|k: int|
                0 <= k < names.len() ==> !hits(up, down, #[trigger] names[k], side, id),
        },
    decreases names.len(),
{
    if names.len() > 0 && !hits(up, down, names.last(), side, id) {
        lemma_latest(up, down, names.drop_last(), side, id);
        assert forall|k: int| 0 <= k < names.len() - 1 implies names.drop_last()[k]
            == names[k] by {}
    }
}

/// One more name: it is the latest for the side and the migration that it
/// encodes, and changes nothing for the others.
pub proof fn lemma_latest_push(
    up: Template,
    down: Template,
    names: Seq<Seq<char>>,
    s: Seq<char>,
    side: bool,
    id: nat,
)
    ensures
        latest(up, down, names.push(s), side, id) == if hits(up, down, s, side, id) {
            Some(names.len() as int)
        } else {
            latest(up, down, names, side, id)
        },
{
    assert(names.push(s).drop_last() == names);
}

/// Two listings of the same names agree on their first `n` identifiers.
proof fn lemma_listing_prefix(
    up: Template,
    down: Template,
    names: Seq<Seq<char>>,
    a: Seq<EntryView>,
    b: Seq<EntryView>,
    n: int,
)
    requires
        is_listing(up, down, names, a),
        is_listing(up, down, names, b),
        0 <= n <= a.len(),
    ensures
        n <= b.len(),
        forall|k: int| 0 <= k < n ==> a[k].migration.id == b[k].migration.id,
    decreases n,
{
    if n > 0 {
        let i = n - 1;
        lemma_listing_prefix(up, down, names, a, b, i);
        let id = a[i].migration.id;
        assert(listed(up, down, names, id));
        let j = choose|j: int| 0 <= j < b.len() && (#[trigger] b[j]).migration.id == id;
        if j < i {
            assert(a[j].migration.id < a[i].migration.id);
        }
        let other = b[i].migration.id;
        assert(listed(up, down, names, other));
        let k = choose|k: int| 0 <= k < a.len() && (#[trigger] a[k]).migration.id == other;
        if k < i {
            assert(b[k].migration.id < b[i].migration.id);
        }
        if i < k {
            assert(a[i].migration.id < a[k].migration.id);
        }
        if i < j {
            assert(b[i].migration.id < b[j].migration.id);
        }
    }
}

/// The names of a directory have one listing.
pub proof fn lemma_listing_unique(
    up: Template,
    down: Template,
    names: Seq<Seq<char>>,
    a: Seq<EntryView>,
    b: Seq<EntryView>,
)
    requires
        is_listing(up, down, names, a),
        is_listing(up, down, names, b),
    ensures
        a == b,
{
    lemma_listing_prefix(up, down, names, a, b, a.len() as int);
    lemma_listing_prefix(up, down, names, b, a, b.len() as int);
    assert(a =~= b);
}

/// At most one identifier is the first unpaired one.
pub proof fn lemma_first_unpaired_unique(
    up: Template,
    down: Template,
    names: Seq<Seq<char>>,
    a: nat,
    b: nat,
)
    requires
        is_first_unpaired(up, down, names, a),
        is_first_unpaired(up, down, names, b),
    ensures
        a == b,
{
}

/// A directory with an unpaired migration has no listing.
pub proof fn lemma_unpaired_has_no_listing(
    up: Template,
    down: Template,
    names: Seq<Seq<char>>,
    id: nat,
    entries: Seq<EntryView>,
)
    requires
        unpaired(up, down, names, id),
    ensures
        !is_listing(up, down, names, entries),
{
    if is_listing(up, down, names, entries) {
        assert(listed(up, down, names, id));
        let i = choose|i: int|
            0 <= i < entries.len() && (#[trigger] entries[i]).migration.id == id;
        assert(latest(up, down, names, true, entries[i].migration.id) is Some);
    }
}

} // verus!
