//! The migrations of a directory, in the order in which they run.
//!
//! Each entry pairs a migration with the names of its two files. The entries
//! are kept in ascending order of their identifiers. Moving a migration
//! exchanges what two neighbouring entries hold and leaves the identifiers
//! where they are, so the order of the identifiers never changes.

use crate::grouping::{ascending_keys, group_agrees, group_files, groups_agree};
use crate::grouping::{lemma_first_unpaired, lemma_listing, strictly_ascending};
use crate::listing::{classify, is_first_unpaired, is_listing, lemma_latest, overflows};
use crate::listing::{entry_for, present_file, unpaired};
use crate::migration::{render, Migration, MigrationView, ParseError};
use crate::pattern::{Pattern, Template};
use crate::reorder::{exchange, moved_down, moved_down_by, moved_up, moved_up_by};
use crate::reorder::{lemma_exchange_keeps_ids, lemma_moved_by_keeps_ids};
use vstd::prelude::*;
use vstd::std_specs::iter::IteratorSpec;
use vstd::string::StringExecFns;

verus! {

/// A migration and the names of the files that hold its two scripts.
#[derive(Debug)]
pub struct Entry {
    /// The migration that the file names encode.
    pub migration: Migration,
    /// The name of the file that applies the migration.
    pub name_up: String,
    /// The name of the file that reverts the migration.
    pub name_down: String,
}

/// An entry as a mathematical value.
pub struct EntryView {
    pub migration: MigrationView,
    pub name_up: Seq<char>,
    pub name_down: Seq<char>,
}

impl View for Entry {
    type V = EntryView;

    open spec fn view(&self) -> EntryView {
        EntryView {
            migration: self.migration@,
            name_up: self.name_up@,
            name_down: self.name_down@,
        }
    }
}

impl EntryView {
    /// This entry under the identifier `id`.
    pub open spec fn with_id(self, id: nat) -> EntryView {
        EntryView { migration: MigrationView { id, name: self.migration.name }, ..self }
    }
}

/// The view of each entry.
pub open spec fn views_of(entries: Seq<Entry>) -> Seq<EntryView> {
    entries.map_values(|e: Entry| e@)
}

/// The identifiers of the entries, in their order.
pub open spec fn ids(entries: Seq<EntryView>) -> Seq<nat> {
    entries.map_values(|e: EntryView| e.migration.id)
}

/// The identifiers grow strictly from each entry to the next.
pub open spec fn ascending(entries: Seq<EntryView>) -> bool {
    forall|i: int, j: int|
        0 <= i < j < entries.len() ==> entries[i].migration.id < entries[j].migration.id
}

/// An entry that holds nothing, to put in the place of one that is being
/// moved.
fn blank_entry() -> (entry: Entry)
    ensures
        entry.migration.id == 0,
        entry.migration.name@ == Seq::<char>::empty(),
        entry.name_up@ == Seq::<char>::empty(),
        entry.name_down@ == Seq::<char>::empty(),
{
    Entry {
        migration: Migration { name: String::new(), id: 0 },
        name_up: String::new(),
        name_down: String::new(),
    }
}

/// Exchanges the entries at `i` and `j`, passing them through `held`.
fn swap_entries(v: &mut Vec<Entry>, i: usize, j: usize, held: Entry)
    requires
        i < old(v).len(),
        j < old(v).len(),
        i != j,
    ensures
        final(v)@ == old(v)@.update(i as int, old(v)@[j as int]).update(
            j as int,
            old(v)@[i as int],
        ),
    no_unwind
{
    let mut held = held;
    std::mem::swap(&mut held, &mut v[i]);
    std::mem::swap(&mut held, &mut v[j]);
    std::mem::swap(&mut held, &mut v[i]);
    assert(v@ =~= old(v)@.update(i as int, old(v)@[j as int]).update(j as int, old(v)@[i as int]));
}

/// Lets the entries at `lo` and `lo + 1` exchange what they hold, each
/// position keeping its identifier. `held` is an entry to pass them through.
fn exchange_entries(v: &mut Vec<Entry>, lo: usize, held: Entry)
    requires
        lo + 1 < old(v).len(),
    ensures
        views_of(final(v)@) == exchange(views_of(old(v)@), lo as int),
    no_unwind
{
    let lower_id = v[lo].migration.id;
    let higher_id = v[lo + 1].migration.id;
    swap_entries(v, lo, lo + 1, held);
    v[lo].migration.id = lower_id;
    v[lo + 1].migration.id = higher_id;
    assert(views_of(v@) =~= exchange(views_of(old(v)@), lo as int));
}

/// A file to rename: the name it has, and the name it is to have.
#[derive(Debug)]
pub struct Rename {
    /// The name of the file as it is.
    pub from: String,
    /// The name that the file is to have.
    pub to: String,
}

/// A renaming as a mathematical value.
pub struct RenameView {
    pub from: Seq<char>,
    pub to: Seq<char>,
}

impl View for Rename {
    type V = RenameView;

    open spec fn view(&self) -> RenameView {
        RenameView { from: self.from@, to: self.to@ }
    }
}

/// The view of each renaming.
pub open spec fn renames_views(renames: Seq<Rename>) -> Seq<RenameView> {
    renames.map_values(|r: Rename| r@)
}

/// The renamings that bring the files in line with `entries`: for each
/// entry in turn, its "up" file takes the name that the entry's migration
/// has under the template `up`, then its "down" file the name under `down`.
pub open spec fn renames_of(up: Template, down: Template, entries: Seq<EntryView>) -> Seq<
    RenameView,
>
    decreases entries.len(),
{
    if entries.len() == 0 {
        Seq::empty()
    } else {
        let e = entries.last();
        renames_of(up, down, entries.drop_last()).push(
            RenameView { from: e.name_up, to: render(up, e.migration) },
        ).push(RenameView { from: e.name_down, to: render(down, e.migration) })
    }
}

/// The renamings come in pairs, one pair for each entry: first the "up"
/// file, then the "down" file.
pub proof fn lemma_renames_of(up: Template, down: Template, entries: Seq<EntryView>)
    ensures
        renames_of(up, down, entries).len() == 2 * entries.len(),
        forall|i: int|
            0 <= i < entries.len() ==> {
                &&& #[trigger] renames_of(up, down, entries)[2 * i] == RenameView {
                    from: entries[i].name_up,
                    to: render(up, entries[i].migration),
                }
                &&& renames_of(up, down, entries)[2 * i + 1] == RenameView {
                    from: entries[i].name_down,
                    to: render(down, entries[i].migration),
                }
            },
    decreases entries.len(),
{
    if entries.len() > 0 {
        lemma_renames_of(up, down, entries.drop_last());
        let shorter = renames_of(up, down, entries.drop_last());
        assert forall|i: int| 0 <= i < entries.len() - 1 implies #[trigger] renames_of(
            up,
            down,
            entries,
        )[2 * i] == shorter[2 * i] && renames_of(up, down, entries)[2 * i + 1] == shorter[2 * i
            + 1] by {}
    }
}

/// Why the file names of a directory do not pair up.
#[derive(Debug)]
pub enum ReadError {
    /// A file name has the shape of a template, but not an identifier
    /// within range.
    InvalidFormat(ParseError),
    /// The named file has no counterpart on the other side.
    FileMissing(String),
}

impl ReadError {
    /// The text of the message, as a sequence of characters.
    pub open spec fn message_text(&self) -> Seq<char> {
        match self {
            ReadError::InvalidFormat(e) => e.message_text(),
            ReadError::FileMissing(file) => "the file "@ + file@
                + " is missing its corresponding migration"@,
        }
    }

    /// A description of the error, with the name of the file where one is
    /// missing.
    pub fn message(&self) -> (text: String)
        ensures
            text@ == self.message_text(),
    {
        match self {
            ReadError::InvalidFormat(e) => e.message().to_owned(),
            ReadError::FileMissing(file) => {
                let mut text = "the file ".to_owned();
                text.append(file.as_str());
                text.append(" is missing its corresponding migration");
                text
            },
        }
    }
}

/// The characters of each name.
pub open spec fn texts_of(names: Seq<String>) -> Seq<Seq<char>> {
    names.map_values(|s: String| s@)
}

/// Tells which side the file `name` belongs to (`true` for "up"), and the
/// migration that it encodes.
pub fn select_pattern(pattern_up: &Pattern<'_>, pattern_down: &Pattern<'_>, name: &str) -> (r:
    Result<(bool, Migration), ParseError>)
    requires
        pattern_up.wf(),
        pattern_down.wf(),
    ensures
        match r {
            Ok(found) => classify(pattern_up@, pattern_down@, name@) == Ok::<
                (bool, MigrationView),
                ParseError,
            >((found.0, found.1@)),
            Err(e) => classify(pattern_up@, pattern_down@, name@) == Err::<
                (bool, MigrationView),
                ParseError,
            >(e),
        },
{
    match Migration::from_pattern(pattern_up, name) {
        Err(ParseError::IdOverflowing) => {
            return Err(ParseError::IdOverflowing);
        },
        Ok(m) => {
            return Ok((true, m));
        },
        Err(ParseError::NotMatching) => {},
    }
    match Migration::from_pattern(pattern_down, name) {
        Ok(m) => Ok((false, m)),
        Err(e) => Err(e),
    }
}

/// The migrations of a directory in ascending order of their identifiers,
/// with the templates that their file names follow.
#[derive(Debug)]
pub struct Entries<'a> {
    entries: Vec<Entry>,
    pattern_up: Pattern<'a>,
    pattern_down: Pattern<'a>,
}

impl<'a> View for Entries<'a> {
    type V = Seq<EntryView>;

    closed spec fn view(&self) -> Seq<EntryView> {
        views_of(self.entries@)
    }
}

impl<'a> Entries<'a> {
    /// The identifiers ascend, and both templates are well formed.
    #[verifier::type_invariant]
    spec fn well_formed(&self) -> bool {
        &&& ascending(views_of(self.entries@))
        &&& self.pattern_up.wf()
        &&& self.pattern_down.wf()
    }

    /// The template of the files that apply a migration.
    pub closed spec fn up(&self) -> Template {
        self.pattern_up@
    }

    /// The template of the files that revert a migration.
    pub closed spec fn down(&self) -> Template {
        self.pattern_down@
    }

    /// Pairs up the files of a directory.
    ///
    /// `names` holds the names of the files, in the order of the listing.
    /// Names that fit neither template are left aside. The result lists the
    /// migrations in ascending order of their identifiers. It is an error
    /// where an identifier is too large, and otherwise where a migration
    /// has only one of its files: the error then names the file of the
    /// least such identifier.
    pub fn from_dir(names: &[String], pattern_up: Pattern<'a>, pattern_down: Pattern<'a>) -> (r:
        Result<Entries<'a>, ReadError>)
        requires
            pattern_up.wf(),
            pattern_down.wf(),
        ensures
            match r {
                Ok(entries) => {
                    &&& !overflows(pattern_up@, pattern_down@, texts_of(names@))
                    &&& is_listing(pattern_up@, pattern_down@, texts_of(names@), entries@)
                    &&& entries.up() == pattern_up@
                    &&& entries.down() == pattern_down@
                },
                Err(ReadError::InvalidFormat(e)) => {
                    &&& e == ParseError::IdOverflowing
                    &&& overflows(pattern_up@, pattern_down@, texts_of(names@))
                },
                Err(ReadError::FileMissing(file)) => {
                    &&& !overflows(pattern_up@, pattern_down@, texts_of(names@))
                    &&& exists|id: nat|
                        {
                            &&& #[trigger] is_first_unpaired(
                                pattern_up@,
                                pattern_down@,
                                texts_of(names@),
                                id,
                            )
                            &&& file@ == present_file(
                                pattern_up@,
                                pattern_down@,
                                texts_of(names@),
                                id,
                            )
                        }
                },
            },
    {
        broadcast use vstd::std_specs::hash::group_hash_axioms;

        let ghost up = pattern_up@;
        let ghost down = pattern_down@;
        let ghost texts = texts_of(names@);
        let mut groups = match group_files(names, &pattern_up, &pattern_down) {
            Ok(groups) => groups,
            Err(e) => {
                return Err(ReadError::InvalidFormat(e));
            },
        };
        let ghost all = groups@;
        let keys = ascending_keys(&groups);
        let mut entries: Vec<Entry> = Vec::new();
        let mut j: usize = 0;
        assert forall|t: int| 0 <= t < keys.len() implies groups@.contains_key(
            #[trigger] keys[t],
        ) by {
            assert(keys@.contains(keys[t]));
        }
        while j < keys.len()
            invariant
                j <= keys.len(),
                up == pattern_up@,
                down == pattern_down@,
                texts == texts_of(names@),
                !overflows(up, down, texts),
                strictly_ascending(keys@),
                forall|x: usize| keys@.contains(x) <==> all.contains_key(x),
                groups_agree(all, up, down, texts),
                forall|t: int|
                    j <= t < keys.len() ==> {
                        &&& groups@.contains_key(#[trigger] keys[t])
                        &&& groups@[keys[t]] == all[keys[t]]
                    },
                entries.len() == j,
                forall|t: int|
                    0 <= t < j ==> {
                        &&& (#[trigger] entries[t])@ == entry_for(up, down, texts, keys[t] as nat)
                        &&& entries[t].migration.id == keys[t]
                    },
                forall|t: int| 0 <= t < j ==> !unpaired(up, down, texts, #[trigger] keys[t] as nat),
            decreases keys.len() - j,
        {
            let id = keys[j];
            assert(keys@.contains(id));
            assert(group_agrees(all, up, down, texts, id));
            proof {
                lemma_latest(up, down, texts, true, id as nat);
                lemma_latest(up, down, texts, false, id as nat);
            }
            let ghost before = groups@;
            // Every key has its group, and a group holds at least one file.
            let (file_up, file_down) = match groups.remove(&id) {
                Some(group) => group,
                None => (None, None),
            };
            assert forall|t: int| j + 1 <= t < keys.len() implies groups@.contains_key(
                #[trigger] keys[t],
            ) && groups@[keys[t]] == all[keys[t]] by {
                assert(before.contains_key(keys[t]));
                assert(keys[j as int] < keys[t]);
            }
            match (file_up, file_down) {
                (Some((migration, name_up)), Some((_, name_down))) => {
                    entries.push(Entry { migration, name_up, name_down });
                },
                (Some((_, file)), None) => {
                    proof {
                        lemma_first_unpaired(all, up, down, texts, keys@, j as int);
                    }
                    return Err(ReadError::FileMissing(file));
                },
                (None, Some((_, file))) => {
                    proof {
                        lemma_first_unpaired(all, up, down, texts, keys@, j as int);
                    }
                    return Err(ReadError::FileMissing(file));
                },
                (None, None) => {},
            }
            j += 1;
        }
        proof {
            lemma_listing(all, up, down, texts, keys@, entries@);
        }
        Ok(Entries { entries, pattern_up, pattern_down })
    }

    /// Turns the collection into the renamings that bring the files of the
    /// directory in line with it, in the order in which they are to be made.
    pub fn renames(self) -> (renames: Vec<Rename>)
        ensures
            renames_views(renames@) == renames_of(self.up(), self.down(), self@),
    {
        proof {
            use_type_invariant(&self);
        }
        let Entries { entries, pattern_up, pattern_down } = self;
        let ghost views = views_of(entries@);
        let mut renames: Vec<Rename> = Vec::new();
        assert(views.take(0) =~= Seq::<EntryView>::empty());
        for entry in it: entries
            invariant
                pattern_up.wf(),
                pattern_down.wf(),
                views == views_of(it.seq()),
                renames_views(renames@) == renames_of(
                    pattern_up@,
                    pattern_down@,
                    views.take(it.index() as int),
                ),
        {
            let ghost before = renames@;
            let Entry { migration, name_up, name_down } = entry;
            let up = Rename { from: name_up, to: migration.to_string(&pattern_up) };
            let down = Rename { from: name_down, to: migration.to_string(&pattern_down) };
            renames.push(up);
            renames.push(down);
            proof {
                let done = views.take(it.index() + 1);
                assert(done.drop_last() =~= views.take(it.index() as int));
                assert(done.last() == entry@);
                assert(renames_views(renames@) =~= renames_views(before).push(up@).push(down@));
            }
        }
        assert(views.take(views.len() as int) =~= views);
        renames
    }

    /// The number of entries.
    pub fn len(&self) -> (n: usize)
        ensures
            n == self@.len(),
    {
        self.entries.len()
    }

    /// Whether there is no entry.
    #[must_use]
    pub fn is_empty(&self) -> (empty: bool)
        ensures
            empty == (self@.len() == 0),
    {
        self.len() == 0
    }

    /// Moves the entry at `i` up by one place, so that it runs earlier.
    ///
    /// Returns `None`, and changes nothing, where the entry is the first or
    /// `i` is no position.
    pub fn move_up(&mut self, i: usize) -> (r: Option<()>)
        ensures
            r is Some <==> 0 < i < old(self)@.len(),
            final(self)@ == moved_up(old(self)@, i as int),
            ids(final(self)@) == ids(old(self)@),
            ascending(final(self)@),
            final(self).up() == old(self).up(),
            final(self).down() == old(self).down(),
    {
        proof {
            use_type_invariant(&*self);
        }
        if i == 0 || i >= self.entries.len() {
            return None;
        }
        proof {
            lemma_exchange_keeps_ids(self@, i - 1);
        }
        let held = blank_entry();
        exchange_entries(&mut self.entries, i - 1, held);
        Some(())
    }

    /// Moves the entry at `i` down by one place, so that it runs later.
    ///
    /// Returns `None`, and changes nothing, where the entry is the last or
    /// `i` is no position.
    pub fn move_down(&mut self, i: usize) -> (r: Option<()>)
        ensures
            r is Some <==> i + 1 < old(self)@.len(),
            final(self)@ == moved_down(old(self)@, i as int),
            ids(final(self)@) == ids(old(self)@),
            ascending(final(self)@),
            final(self).up() == old(self).up(),
            final(self).down() == old(self).down(),
    {
        proof {
            use_type_invariant(&*self);
        }
        if self.entries.len() == 0 || i >= self.entries.len() - 1 {
            return None;
        }
        proof {
            lemma_exchange_keeps_ids(self@, i as int);
        }
        let held = blank_entry();
        exchange_entries(&mut self.entries, i, held);
        Some(())
    }

    /// Moves the entry at `i` up by `by` places, one place at a time.
    ///
    /// Returns `None` where a step is out of range: where fewer than `by`
    /// entries stand above the entry, or `i` is no position. The steps
    /// before that one stay as they were made.
    pub fn move_up_by(&mut self, i: usize, by: usize) -> (r: Option<()>)
        ensures
            r is Some <==> by == 0 || (by <= i && i < old(self)@.len()),
            final(self)@ == moved_up_by(old(self)@, i as int, by as nat),
            ids(final(self)@) == ids(old(self)@),
            ascending(final(self)@),
            final(self).up() == old(self).up(),
            final(self).down() == old(self).down(),
    {
        proof {
            use_type_invariant(&*self);
            lemma_moved_by_keeps_ids(self@, i as int, by as nat);
        }
        let mut done: usize = 0;
        while done < by
            invariant
                done <= by,
                done <= i,
                self@.len() == old(self)@.len(),
                ids(self@) == ids(old(self)@),
                ascending(self@),
                done > 0 ==> i < self@.len(),
                moved_up_by(self@, i - done, (by - done) as nat) == moved_up_by(
                    old(self)@,
                    i as int,
                    by as nat,
                ),
                self.up() == old(self).up(),
                self.down() == old(self).down(),
            decreases by - done,
        {
            if self.move_up(i - done).is_none() {
                return None;
            }
            done += 1;
        }
        Some(())
    }

    /// Moves the entry at `i` down by `by` places, one place at a time.
    ///
    /// Returns `None` where a step is out of range: where fewer than `by`
    /// entries stand below the entry, or `i` is no position. The steps
    /// before that one stay as they were made.
    pub fn move_down_by(&mut self, i: usize, by: usize) -> (r: Option<()>)
        ensures
            r is Some <==> by == 0 || i + by < old(self)@.len(),
            final(self)@ == moved_down_by(old(self)@, i as int, by as nat),
            ids(final(self)@) == ids(old(self)@),
            ascending(final(self)@),
            final(self).up() == old(self).up(),
            final(self).down() == old(self).down(),
    {
        proof {
            use_type_invariant(&*self);
            lemma_moved_by_keeps_ids(self@, i as int, by as nat);
        }
        let n = self.len();
        let mut done: usize = 0;
        while done < by
            invariant
                done <= by,
                self@.len() == old(self)@.len(),
                self@.len() == n,
                ids(self@) == ids(old(self)@),
                ascending(self@),
                done > 0 ==> i + done < self@.len(),
                moved_down_by(self@, i + done, (by - done) as nat) == moved_down_by(
                    old(self)@,
                    i as int,
                    by as nat,
                ),
                self.up() == old(self).up(),
                self.down() == old(self).down(),
            decreases by - done,
        {
            if self.move_down(i + done).is_none() {
                return None;
            }
            done += 1;
        }
        Some(())
    }
}

impl<'a> std::ops::Index<usize> for Entries<'a> {
    type Output = Entry;

    /// The entry at position `index`.
    fn index(&self, index: usize) -> (entry: &Entry)
        ensures
            entry@ == self@[index as int],
    {
        &self.entries[index]
    }
}

impl<'a> vstd::std_specs::core::IndexSpecImpl<usize> for Entries<'a> {
    /// The position must be one of the collection.
    open spec fn index_req(&self, index: &usize) -> bool {
        *index < self@.len()
    }
}

impl<'a> IntoIterator for Entries<'a> {
    type Item = Entry;

    type IntoIter = std::vec::IntoIter<Entry>;

    /// Hands out the entries in their order.
    fn into_iter(self) -> (iter: std::vec::IntoIter<Entry>)
        ensures
            views_of(iter.remaining()) == self@,
    {
        self.entries.into_iter()
    }
}

} // verus!
