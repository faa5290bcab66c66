//! Grouping the files of a directory by identifier.
//!
//! Each file that fits a template is put into the group of its identifier,
//! on the side of the template that it fits. A later file takes the place
//! of an earlier one on the same side. The groups are then walked in
//! ascending order of their identifiers.

use crate::entries::{ascending, select_pattern, texts_of, views_of, Entry};
use crate::listing::{classify, entry_for, hits, is_first_unpaired, is_listing, latest, listed};
use crate::listing::{lemma_hits_fits, lemma_latest, lemma_latest_push};
use crate::listing::{overflows, overflows_at, unpaired};
use crate::migration::{Migration, MigrationView, ParseError};
use crate::pattern::{Pattern, Template};
use std::collections::HashMap;
use vstd::prelude::*;
use vstd::std_specs::iter::IteratorSpec;

verus! {

/// One file of a migration: what its name encodes, and the name.
pub(crate) type Half = Option<(Migration, String)>;

/// `half` is the last of `names` that encodes the given side of the
/// migration `id`, or nothing where there is none.
pub open spec fn half_agrees(
    half: Half,
    up: Template,
    down: Template,
    names: Seq<Seq<char>>,
    side: bool,
    id: nat,
) -> bool {
    match latest(up, down, names, side, id) {
        None => half is None,
        Some(i) => {
            &&& half matches Some(file)
            &&& file.1@ == names[i]
            &&& classify(up, down, names[i]) == Ok::<(bool, MigrationView), ParseError>(
                (side, file.0@),
            )
        },
    }
}

/// The group of `id` holds what `names` encode of that migration.
pub open spec fn group_agrees(
    groups: Map<usize, (Half, Half)>,
    up: Template,
    down: Template,
    names: Seq<Seq<char>>,
    id: usize,
) -> bool {
    &&& groups.contains_key(id) <==> listed(up, down, names, id as nat)
    &&& groups.contains_key(id) ==> {
        &&& half_agrees(groups[id].0, up, down, names, true, id as nat)
        &&& half_agrees(groups[id].1, up, down, names, false, id as nat)
    }
}

/// The groups hold what `names` encode.
pub open spec fn groups_agree(
    groups: Map<usize, (Half, Half)>,
    up: Template,
    down: Template,
    names: Seq<Seq<char>>,
) -> bool {
    forall|id: usize| #[trigger] group_agrees(groups, up, down, names, id)
}

/// One more name that does not encode the side of the migration leaves
/// its file as it is.
proof fn lemma_half_kept(
    half: Half,
    up: Template,
    down: Template,
    names: Seq<Seq<char>>,
    s: Seq<char>,
    side: bool,
    id: nat,
)
    requires
        half_agrees(half, up, down, names, side, id),
        !hits(up, down, s, side, id),
    ensures
        half_agrees(half, up, down, names.push(s), side, id),
{
    lemma_latest_push(up, down, names, s, side, id);
    lemma_latest(up, down, names, side, id);
}

/// One more name is the file of the side of the migration that it encodes.
proof fn lemma_half_taken(
    migration: Migration,
    name: String,
    up: Template,
    down: Template,
    names: Seq<Seq<char>>,
    side: bool,
)
    requires
        classify(up, down, name@) == Ok::<(bool, MigrationView), ParseError>((side, migration@)),
    ensures
        half_agrees(
            Some((migration, name)),
            up,
            down,
            names.push(name@),
            side,
            migration.id as nat,
        ),
        !hits(up, down, name@, !side, migration.id as nat),
        listed(up, down, names.push(name@), migration.id as nat),
{
    lemma_latest_push(up, down, names, name@, side, migration.id as nat);
    lemma_latest_push(up, down, names, name@, true, migration.id as nat);
    lemma_latest_push(up, down, names, name@, false, migration.id as nat);
}

/// Where nothing is listed of a migration, it has no file on either side.
proof fn lemma_unlisted(up: Template, down: Template, names: Seq<Seq<char>>, side: bool, id: nat)
    requires
        !listed(up, down, names, id),
    ensures
        half_agrees(None, up, down, names, side, id),
{
}

/// A name that encodes nothing leaves the groups as they are.
proof fn lemma_groups_skip(
    groups: Map<usize, (Half, Half)>,
    up: Template,
    down: Template,
    names: Seq<Seq<char>>,
    s: Seq<char>,
)
    requires
        groups_agree(groups, up, down, names),
        classify(up, down, s) is Err,
    ensures
        groups_agree(groups, up, down, names.push(s)),
{
    assert forall|id: usize| #[trigger] group_agrees(groups, up, down, names.push(s), id) by {
        assert(group_agrees(groups, up, down, names, id));
        lemma_latest_push(up, down, names, s, true, id as nat);
        lemma_latest_push(up, down, names, s, false, id as nat);
        if groups.contains_key(id) {
            lemma_half_kept(groups[id].0, up, down, names, s, true, id as nat);
            lemma_half_kept(groups[id].1, up, down, names, s, false, id as nat);
        }
    }
}

/// The group of a migration after one more name that encodes a side of it.
spec fn recorded(
    groups: Map<usize, (Half, Half)>,
    side: bool,
    migration: Migration,
    name: String,
) -> (Half, Half) {
    let held: (Half, Half) = if groups.contains_key(migration.id) {
        groups[migration.id]
    } else {
        (None, None)
    };
    if side {
        (Some((migration, name)), held.1)
    } else {
        (held.0, Some((migration, name)))
    }
}

/// A name that encodes one side of a migration takes that side of its
/// group, and leaves the rest as it is.
proof fn lemma_groups_record(
    groups: Map<usize, (Half, Half)>,
    up: Template,
    down: Template,
    names: Seq<Seq<char>>,
    side: bool,
    migration: Migration,
    name: String,
)
    requires
        groups_agree(groups, up, down, names),
        classify(up, down, name@) == Ok::<(bool, MigrationView), ParseError>((side, migration@)),
    ensures
        groups_agree(
            groups.insert(migration.id, recorded(groups, side, migration, name)),
            up,
            down,
            names.push(name@),
        ),
{
    let s = name@;
    let key = migration.id;
    let group = recorded(groups, side, migration, name);
    let after = groups.insert(key, group);
    assert forall|id: usize| #[trigger] group_agrees(after, up, down, names.push(s), id) by {
        assert(group_agrees(groups, up, down, names, id));
        if id == key {
            lemma_half_taken(migration, name, up, down, names, side);
            let other = if side {
                group.1
            } else {
                group.0
            };
            assert(half_agrees(other, up, down, names, !side, key as nat)) by {
                if !groups.contains_key(key) {
                    lemma_unlisted(up, down, names, !side, key as nat);
                }
            }
            lemma_half_kept(other, up, down, names, s, !side, key as nat);
        } else {
            assert(!hits(up, down, s, true, id as nat));
            assert(!hits(up, down, s, false, id as nat));
            lemma_latest_push(up, down, names, s, true, id as nat);
            lemma_latest_push(up, down, names, s, false, id as nat);
            if groups.contains_key(id) {
                lemma_half_kept(groups[id].0, up, down, names, s, true, id as nat);
                lemma_half_kept(groups[id].1, up, down, names, s, false, id as nat);
            }
        }
    }
}

/// The identifiers grow strictly from each position to the next.
pub open spec fn strictly_ascending(v: Seq<usize>) -> bool {
    forall|i: int, j: int| 0 <= i < j < v.len() ==> v[i] < v[j]
}

/// Puts `k` at its place among the ascending `v`, unless it is there.
fn insert_ascending(v: &mut Vec<usize>, k: usize)
    requires
        strictly_ascending(old(v)@),
    ensures
        strictly_ascending(final(v)@),
        forall|x: usize| final(v)@.contains(x) <==> old(v)@.contains(x) || x == k,
{
    let mut at: usize = 0;
    while at < v.len() && v[at] < k
        invariant
            at <= v.len(),
            v@ == old(v)@,
            forall|j: int| 0 <= j < at ==> v[j] < k,
        decreases v.len() - at,
    {
        at += 1;
    }
    if at < v.len() && v[at] == k {
        assert(v@.contains(k));
        return ;
    }
    v.insert(at, k);
    proof {
        let before = old(v)@;
        let after = v@;
        assert(after[at as int] == k);
        assert forall|x: usize| after.contains(x) <==> before.contains(x) || x == k by {
            if after.contains(x) {
                let t = choose|t: int| 0 <= t < after.len() && after[t] == x;
                if t < at {
                    assert(before[t] == x);
                } else if t > at {
                    assert(before[t - 1] == x);
                }
            }
            if before.contains(x) {
                let t = choose|t: int| 0 <= t < before.len() && before[t] == x;
                if t < at {
                    assert(after[t] == x);
                } else {
                    assert(after[t + 1] == x);
                }
            }
        }
    }
}

/// The keys of `groups` in ascending order.
pub(crate) fn ascending_keys(groups: &HashMap<usize, (Half, Half)>) -> (keys: Vec<usize>)
    ensures
        strictly_ascending(keys@),
        forall|x: usize| keys@.contains(x) <==> groups@.contains_key(x),
{
    broadcast use vstd::std_specs::hash::group_hash_axioms;

    let mut keys: Vec<usize> = Vec::new();
    let walk = groups.keys();
    let ghost all = walk.remaining();
    assert(all.unref().to_set() == groups@.dom());
    for k in it: walk
        invariant
            it.seq() == all,
            strictly_ascending(keys@),
            forall|x: usize|
                keys@.contains(x) <==> exists|j: int| 0 <= j < it.index() && *all[j] == x,
    {
        let ghost before = keys@;
        insert_ascending(&mut keys, *k);
        proof {
            assert forall|x: usize|
                keys@.contains(x) <==> exists|j: int|
                    0 <= j < it.index() + 1 && *all[j] == x by {
                if keys@.contains(x) && !before.contains(x) {
                    assert(*all[it.index() as int] == x);
                }
                if exists|j: int| 0 <= j < it.index() + 1 && *all[j] == x {
                    let j = choose|j: int| 0 <= j < it.index() + 1 && *all[j] == x;
                    if j < it.index() {
                        assert(before.contains(x));
                    }
                }
            }
        }
    }
    proof {
        assert forall|x: usize| keys@.contains(x) <==> groups@.contains_key(x) by {
            if keys@.contains(x) {
                let j = choose|j: int| 0 <= j < all.len() && *all[j] == x;
                assert(all.unref()[j] == x);
                assert(all.unref().to_set().contains(x));
            }
            if groups@.contains_key(x) {
                assert(all.unref().to_set().contains(x));
                let j = choose|j: int| 0 <= j < all.unref().len() && all.unref()[j] == x;
                assert(*all[j] == x);
            }
        }
    }
    keys
}

/// Puts the file `name`, which encodes the given side of `migration`, into
/// the group of its identifier. What the group held on that side is
/// dropped.
fn record(groups: &mut HashMap<usize, (Half, Half)>, side: bool, migration: Migration, name: String)
    ensures
        final(groups)@ == old(groups)@.insert(
            migration.id,
            recorded(old(groups)@, side, migration, name),
        ),
{
    broadcast use vstd::std_specs::hash::group_hash_axioms;

    let id = migration.id;
    let (up, down) = match groups.remove(&id) {
        Some(group) => group,
        None => (None, None),
    };
    let group = if side {
        (Some((migration, name)), down)
    } else {
        (up, Some((migration, name)))
    };
    groups.insert(id, group);
    assert(groups@ =~= old(groups)@.insert(id, group));
}

/// Groups the files of `names` by the identifier that each encodes.
pub(crate) fn group_files(
    names: &[String],
    pattern_up: &Pattern<'_>,
    pattern_down: &Pattern<'_>,
) -> (r: Result<HashMap<usize, (Half, Half)>, ParseError>)
    requires
        pattern_up.wf(),
        pattern_down.wf(),
    ensures
        match r {
            Ok(groups) => {
                &&& !overflows(pattern_up@, pattern_down@, texts_of(names@))
                &&& groups_agree(groups@, pattern_up@, pattern_down@, texts_of(names@))
            },
            Err(e) => {
                &&& e == ParseError::IdOverflowing
                &&& overflows(pattern_up@, pattern_down@, texts_of(names@))
            },
        },
{
    let ghost up = pattern_up@;
    let ghost down = pattern_down@;
    let ghost texts = texts_of(names@);
    let mut groups: HashMap<usize, (Half, Half)> = HashMap::new();
    let mut i: usize = 0;
    assert(texts.take(0) =~= Seq::<Seq<char>>::empty());
    assert forall|id: usize| #[trigger]
        group_agrees(groups@, up, down, texts.take(0), id) by {}
    while i < names.len()
        invariant
            i <= names.len(),
            pattern_up.wf(),
            pattern_down.wf(),
            up == pattern_up@,
            down == pattern_down@,
            texts == texts_of(names@),
            forall|j: int| 0 <= j < i ==> !overflows_at(up, down, texts, j),
            groups_agree(groups@, up, down, texts.take(i as int)),
        decreases names.len() - i,
    {
        let name = &names[i];
        assert(texts[i as int] == name@);
        assert(texts.take(i + 1) =~= texts.take(i as int).push(name@));
        let ghost before = groups@;
        match select_pattern(pattern_up, pattern_down, name.as_str()) {
            Ok((side, migration)) => {
                let file = name.clone();
                proof {
                    lemma_groups_record(
                        before,
                        up,
                        down,
                        texts.take(i as int),
                        side,
                        migration,
                        file,
                    );
                }
                record(&mut groups, side, migration, file);
            },
            Err(ParseError::IdOverflowing) => {
                assert(overflows_at(up, down, texts, i as int));
                return Err(ParseError::IdOverflowing);
            },
            Err(ParseError::NotMatching) => {
                proof {
                    lemma_groups_skip(before, up, down, texts.take(i as int), name@);
                }
            },
        }
        i += 1;
    }
    assert(texts.take(i as int) =~= texts);
    Ok(groups)
}

/// Where the migrations before position `at` of the ascending keys have
/// both files and the one at `at` has not, that one is the first unpaired.
pub(crate) proof fn lemma_first_unpaired(
    groups: Map<usize, (Half, Half)>,
    up: Template,
    down: Template,
    names: Seq<Seq<char>>,
    keys: Seq<usize>,
    at: int,
)
    requires
        groups_agree(groups, up, down, names),
        strictly_ascending(keys),
        forall|x: usize| keys.contains(x) <==> groups.contains_key(x),
        0 <= at < keys.len(),
        forall|t: int| 0 <= t < at ==> !unpaired(up, down, names, #[trigger] keys[t] as nat),
        unpaired(up, down, names, keys[at] as nat),
    ensures
        is_first_unpaired(up, down, names, keys[at] as nat),
{
    assert forall|k: nat| k < keys[at] implies !unpaired(up, down, names, k) by {
        if unpaired(up, down, names, k) {
            let id = k as usize;
            assert(group_agrees(groups, up, down, names, id));
            assert(keys.contains(id));
            let t = choose|t: int| 0 <= t < keys.len() && keys[t] == id;
            if t >= at {
                assert(keys[at] <= keys[t]);
            }
            assert(!unpaired(up, down, names, keys[t] as nat));
        }
    }
}

/// Where every key has its entry, with both files, the entries list what
/// the names encode.
pub(crate) proof fn lemma_listing(
    groups: Map<usize, (Half, Half)>,
    up: Template,
    down: Template,
    names: Seq<Seq<char>>,
    keys: Seq<usize>,
    entries: Seq<Entry>,
)
    requires
        groups_agree(groups, up, down, names),
        strictly_ascending(keys),
        forall|x: usize| keys.contains(x) <==> groups.contains_key(x),
        entries.len() == keys.len(),
        forall|t: int|
            0 <= t < keys.len() ==> {
                &&& (#[trigger] entries[t])@ == entry_for(up, down, names, keys[t] as nat)
                &&& entries[t].migration.id == keys[t]
            },
        forall|t: int|
            0 <= t < keys.len() ==> !unpaired(up, down, names, #[trigger] keys[t] as nat),
    ensures
        is_listing(up, down, names, views_of(entries)),
        ascending(views_of(entries)),
{
    let views = views_of(entries);
    assert forall|i: int, j: int| 0 <= i < j < views.len() implies views[i].migration.id
        < views[j].migration.id by {
        assert(entries[i].migration.id == keys[i]);
        assert(entries[j].migration.id == keys[j]);
    }
    assert forall|i: int| 0 <= i < views.len() implies {
        let id = (#[trigger] views[i]).migration.id;
        &&& latest(up, down, names, true, id) is Some
        &&& latest(up, down, names, false, id) is Some
        &&& views[i] == entry_for(up, down, names, id)
    } by {
        assert(entries[i].migration.id == keys[i]);
        assert(keys.contains(keys[i]));
        assert(group_agrees(groups, up, down, names, keys[i]));
    }
    assert forall|id: nat| #[trigger] listed(up, down, names, id) implies exists|i: int|
        0 <= i < views.len() && (#[trigger] views[i]).migration.id == id by {
        let side = latest(up, down, names, true, id) is Some;
        lemma_latest(up, down, names, side, id);
        lemma_hits_fits(up, down, names[latest(up, down, names, side, id)->0], side, id);
        let key = id as usize;
        assert(group_agrees(groups, up, down, names, key));
        assert(keys.contains(key));
        let t = choose|t: int| 0 <= t < keys.len() && keys[t] == key;
        assert(entries[t].migration.id == keys[t]);
        assert(views[t].migration.id == id);
    }
}

} // verus!
