//! Migrations and the filenames that encode them.
//!
//! A filename matches a template when the template's fragments stand in it
//! in order, with the identifier and the name between them. Rendering puts
//! the fragments, the identifier and the name together again.

use crate::decimal::{decimal, number, parse_number, push_decimal, NumberError};
use crate::decimal::{is_digit, lemma_decimal_digits, lemma_number_fits};
use crate::decimal::lemma_number_of_decimal;
use crate::pattern::{Order, Pattern, Template};
use crate::text::{ends_with, first_occurrence, is_first_occurrence, occurs_at};
use crate::text::without_suffix;
use crate::text::{find, has_suffix, to_chars};
use crate::text::{lemma_ends_with_suffix, lemma_first_occurrence_at};
use crate::text::{lemma_first_occurrence, lemma_first_occurrence_prefix};
use vstd::prelude::*;
use vstd::string::{StrSliceExecFns, StringExecFns};

verus! {

/// A migration: its identifier, which fixes when it runs, and its name.
#[derive(Debug)]
pub struct Migration {
    /// The descriptive name; empty where the template has no `%s`.
    pub name: String,
    /// The identifier.
    pub id: usize,
}

/// A migration as a mathematical value.
pub struct MigrationView {
    pub id: nat,
    pub name: Seq<char>,
}

impl View for Migration {
    type V = MigrationView;

    open spec fn view(&self) -> MigrationView {
        MigrationView { id: self.id as nat, name: self.name@ }
    }
}

/// Why a filename does not yield a migration.
#[derive(Debug, PartialEq, Eq, Clone, Copy, Structural)]
pub enum ParseError {
    /// The filename does not have the shape of the template.
    NotMatching,
    /// The filename has the shape of the template, but its identifier is
    /// beyond `usize::MAX`.
    IdOverflowing,
}

impl ParseError {
    /// The text of the message, as a sequence of characters.
    pub open spec fn message_text(self) -> Seq<char> {
        match self {
            ParseError::NotMatching => "filename doesn't match"@,
            ParseError::IdOverflowing => "id is overflowing"@,
        }
    }

    /// A short description of the error.
    pub fn message(&self) -> (text: &'static str)
        ensures
            text@ == self.message_text(),
    {
        match self {
            ParseError::NotMatching => "filename doesn't match",
            ParseError::IdOverflowing => "id is overflowing",
        }
    }
}

/// The identifier that `s` denotes: a text that is no number does not
/// match, a number that is too large overflows.
pub open spec fn identifier(s: Seq<char>) -> Result<nat, ParseError> {
    match number(s) {
        Ok(n) => Ok(n),
        Err(NumberError::TooLarge) => Err(ParseError::IdOverflowing),
        Err(NumberError::Malformed) => Err(ParseError::NotMatching),
    }
}

/// The filename of `m` under the template `t`: the fragments, with the
/// identifier in decimal and the name between them. A template without a
/// name placeholder leaves the name out.
pub open spec fn render(t: Template, m: MigrationView) -> Seq<char>
    recommends
        t.wf(),
{
    match t.order {
        Order::IndexOnly => t.fragments[0] + decimal(m.id) + t.fragments[1],
        Order::IndexFirst => t.fragments[0] + decimal(m.id) + t.fragments[1] + m.name
            + t.fragments[2],
        Order::NameFirst => t.fragments[0] + m.name + t.fragments[1] + decimal(m.id)
            + t.fragments[2],
    }
}

/// The migration that `rest`, the text after the first fragment, encodes.
///
/// With only an identifier, `rest` must end with the second fragment, and
/// what stands before it is the identifier. Otherwise `rest` is cut at the
/// first occurrence of the second fragment, and what follows must end with
/// the third; the identifier is read before the third fragment is looked
/// for where it comes first, and after where the name comes first.
pub open spec fn match_rest(t: Template, rest: Seq<char>) -> Result<MigrationView, ParseError>
    recommends
        t.wf(),
{
    match t.order {
        Order::IndexOnly => if !ends_with(rest, t.fragments[1]) {
            Err(ParseError::NotMatching)
        } else {
            match identifier(without_suffix(rest, t.fragments[1])) {
                Err(e) => Err(e),
                Ok(id) => Ok(MigrationView { id, name: Seq::empty() }),
            }
        },
        Order::IndexFirst => match first_occurrence(rest, t.fragments[1]) {
            None => Err(ParseError::NotMatching),
            Some(cut) => {
                let right = rest.skip(cut + t.fragments[1].len());
                match identifier(rest.take(cut)) {
                    Err(e) => Err(e),
                    Ok(id) => if !ends_with(right, t.fragments[2]) {
                        Err(ParseError::NotMatching)
                    } else {
                        Ok(MigrationView { id, name: without_suffix(right, t.fragments[2]) })
                    },
                }
            },
        },
        Order::NameFirst => match first_occurrence(rest, t.fragments[1]) {
            None => Err(ParseError::NotMatching),
            Some(cut) => {
                let right = rest.skip(cut + t.fragments[1].len());
                if !ends_with(right, t.fragments[2]) {
                    Err(ParseError::NotMatching)
                } else {
                    match identifier(without_suffix(right, t.fragments[2])) {
                        Err(e) => Err(e),
                        Ok(id) => Ok(MigrationView { id, name: rest.take(cut) }),
                    }
                }
            },
        },
    }
}

/// The migration that the filename `s` encodes under the template `t`.
///
/// The first fragment may stand anywhere in `s`; its first occurrence
/// counts, and what stands before it is ignored. The text after it is
/// matched against the rest of the template.
pub open spec fn match_filename(t: Template, s: Seq<char>) -> Result<MigrationView, ParseError>
    recommends
        t.wf(),
{
    match first_occurrence(s, t.fragments[0]) {
        None => Err(ParseError::NotMatching),
        Some(at) => match_rest(t, s.skip(at + t.fragments[0].len())),
    }
}

/// A filename encodes only identifiers that fit in `usize`.
pub proof fn lemma_match_fits(t: Template, s: Seq<char>)
    ensures
        match_filename(t, s) matches Ok(m) ==> m.id <= usize::MAX,
{
    if let Some(at) = first_occurrence(s, t.fragments[0]) {
        let rest = s.skip(at + t.fragments[0].len());
        match t.order {
            Order::IndexOnly => {
                lemma_number_fits(without_suffix(rest, t.fragments[1]));
            },
            Order::IndexFirst => {
                if let Some(cut) = first_occurrence(rest, t.fragments[1]) {
                    lemma_number_fits(rest.take(cut));
                }
            },
            Order::NameFirst => {
                if let Some(cut) = first_occurrence(rest, t.fragments[1]) {
                    let right = rest.skip(cut + t.fragments[1].len());
                    lemma_number_fits(without_suffix(right, t.fragments[2]));
                }
            },
        }
    }
}

/// Reading `m` back from its filename meets the separator where rendering
/// put it.
///
/// Under a template without a name placeholder, the name is empty. Under
/// the others, the second fragment does not stand in the text after the
/// first fragment before the place where it was written: neither inside
/// the digits or the name, nor across their end.
pub open spec fn reads_back(t: Template, m: MigrationView) -> bool
    recommends
        t.wf(),
{
    match t.order {
        Order::IndexOnly => m.name.len() == 0,
        Order::IndexFirst => is_first_occurrence(
            decimal(m.id) + t.fragments[1] + m.name + t.fragments[2],
            t.fragments[1],
            decimal(m.id).len() as int,
        ),
        Order::NameFirst => is_first_occurrence(
            m.name + t.fragments[1] + decimal(m.id) + t.fragments[2],
            t.fragments[1],
            m.name.len() as int,
        ),
    }
}

/// Under a template with the identifier first, a migration reads back
/// where the separator does not begin with a digit.
pub proof fn lemma_reads_back_index_first(t: Template, m: MigrationView)
    requires
        t.wf(),
        t.order == Order::IndexFirst,
        t.fragments[1].len() > 0,
        !is_digit(t.fragments[1][0]),
    ensures
        reads_back(t, m),
{
    let f1 = t.fragments[1];
    let id = decimal(m.id);
    let rest = id + f1 + m.name + t.fragments[2];
    lemma_decimal_digits(m.id);
    assert(rest.subrange(id.len() as int, (id.len() + f1.len()) as int) =~= f1);
    assert forall|j: int| j < id.len() implies !occurs_at(rest, f1, j) by {
        if occurs_at(rest, f1, j) {
            assert(rest.subrange(j, j + f1.len())[0] == f1[0]);
            assert(rest[j] == id[j]);
            assert(is_digit(id[j]));
        }
    }
}

/// Under a template with the name first, a migration reads back where the
/// first character of the separator does not occur in the name.
pub proof fn lemma_reads_back_name_first(t: Template, m: MigrationView)
    requires
        t.wf(),
        t.order == Order::NameFirst,
        t.fragments[1].len() > 0,
        !m.name.contains(t.fragments[1][0]),
    ensures
        reads_back(t, m),
{
    let f1 = t.fragments[1];
    let rest = m.name + f1 + decimal(m.id) + t.fragments[2];
    assert(rest.subrange(m.name.len() as int, (m.name.len() + f1.len()) as int) =~= f1);
    assert forall|j: int| j < m.name.len() implies !occurs_at(rest, f1, j) by {
        if occurs_at(rest, f1, j) {
            assert(rest.subrange(j, j + f1.len())[0] == f1[0]);
            assert(rest[j] == m.name[j]);
            assert(m.name.contains(f1[0]));
        }
    }
}

/// The text that rendering puts after the first fragment.
pub open spec fn render_rest(t: Template, m: MigrationView) -> Seq<char>
    recommends
        t.wf(),
{
    match t.order {
        Order::IndexOnly => decimal(m.id) + t.fragments[1],
        Order::IndexFirst => decimal(m.id) + t.fragments[1] + m.name + t.fragments[2],
        Order::NameFirst => m.name + t.fragments[1] + decimal(m.id) + t.fragments[2],
    }
}

/// The text after the first fragment of a rendered filename encodes the
/// migration that was rendered.
proof fn lemma_match_rest_of_render(t: Template, m: MigrationView)
    requires
        t.wf(),
        m.id <= usize::MAX,
        reads_back(t, m),
    ensures
        match_rest(t, render_rest(t, m)) == Ok::<MigrationView, ParseError>(m),
{
    let f1 = t.fragments[1];
    let id = decimal(m.id);
    let rest = render_rest(t, m);
    lemma_number_of_decimal(m.id);
    match t.order {
        Order::IndexOnly => {
            lemma_ends_with_suffix(id, f1);
            assert(m.name =~= Seq::<char>::empty());
        },
        Order::IndexFirst => {
            let f2 = t.fragments[2];
            lemma_first_occurrence_at(rest, f1, id.len() as int);
            assert(rest.take(id.len() as int) =~= id);
            assert(rest.skip((id.len() + f1.len()) as int) =~= m.name + f2);
            lemma_ends_with_suffix(m.name, f2);
        },
        Order::NameFirst => {
            let f2 = t.fragments[2];
            lemma_first_occurrence_at(rest, f1, m.name.len() as int);
            assert(rest.take(m.name.len() as int) =~= m.name);
            assert(rest.skip((m.name.len() + f1.len()) as int) =~= id + f2);
            lemma_ends_with_suffix(id, f2);
        },
    }
}

/// A rendered filename is the first fragment and the text after it.
proof fn lemma_render_split(t: Template, m: MigrationView)
    ensures
        render(t, m) == t.fragments[0] + render_rest(t, m),
{
    assert(render(t, m) =~= t.fragments[0] + render_rest(t, m));
}

/// A filename that begins with the first fragment is matched by what
/// follows that fragment.
proof fn lemma_match_after_first(t: Template, rest: Seq<char>)
    ensures
        match_filename(t, t.fragments[0] + rest) == match_rest(t, rest),
{
    let f0 = t.fragments[0];
    lemma_first_occurrence_prefix(f0, rest);
    assert((f0 + rest).skip(f0.len() as int) =~= rest);
}

/// Round trip: a migration whose filename reads back unambiguously is the
/// migration that its filename matches.
pub proof fn lemma_match_of_render(t: Template, m: MigrationView)
    requires
        t.wf(),
        m.id <= usize::MAX,
        reads_back(t, m),
    ensures
        match_filename(t, render(t, m)) == Ok::<MigrationView, ParseError>(m),
{
    lemma_render_split(t, m);
    lemma_match_after_first(t, render_rest(t, m));
    lemma_match_rest_of_render(t, m);
}

/// Where the text after the first fragment of a rendered filename encodes
/// the migration that was rendered, the separator was met where rendering
/// put it.
proof fn lemma_rest_reads_back(t: Template, m: MigrationView)
    requires
        t.wf(),
        t.order != Order::IndexOnly,
        match_rest(t, render_rest(t, m)) == Ok::<MigrationView, ParseError>(m),
    ensures
        reads_back(t, m),
{
    let f1 = t.fragments[1];
    let f2 = t.fragments[2];
    let rest = render_rest(t, m);
    let head = if t.order == Order::IndexFirst {
        decimal(m.id)
    } else {
        m.name
    };
    let at = head.len() as int;
    assert(occurs_at(rest, f1, at)) by {
        assert(rest.subrange(at, at + f1.len()) =~= f1);
    }
    lemma_first_occurrence(rest, f1);
    let cut = first_occurrence(rest, f1)->0;
    assert(cut <= at) by {
        if at < cut {
            assert(!occurs_at(rest, f1, at));
        }
    }
    assert(cut == at) by {
        let right = rest.skip(cut + f1.len());
        if t.order == Order::IndexFirst {
            assert(m.name == without_suffix(right, f2));
            assert(without_suffix(right, f2).len() == right.len() - f2.len());
        } else {
            assert(m.name == rest.take(cut));
            assert(rest.take(cut).len() == cut);
        }
    }
}

/// Round trip, the other way: a migration that is the one its filename
/// matches reads back unambiguously.
pub proof fn lemma_render_reads_back(t: Template, m: MigrationView)
    requires
        t.wf(),
        match_filename(t, render(t, m)) == Ok::<MigrationView, ParseError>(m),
    ensures
        reads_back(t, m),
{
    lemma_render_split(t, m);
    lemma_match_after_first(t, render_rest(t, m));
    if t.order != Order::IndexOnly {
        lemma_rest_reads_back(t, m);
    }
}

/// Reads the identifier that `text` denotes.
fn parse_identifier(text: &[char]) -> (r: Result<usize, ParseError>)
    ensures
        match r {
            Ok(id) => identifier(text@) == Ok::<nat, ParseError>(id as nat),
            Err(e) => identifier(text@) == Err::<nat, ParseError>(e),
        },
{
    match parse_number(text) {
        Ok(id) => Ok(id),
        Err(NumberError::TooLarge) => Err(ParseError::IdOverflowing),
        Err(NumberError::Malformed) => Err(ParseError::NotMatching),
    }
}

/// Reads a migration from `rest`, the text after the first fragment, under
/// a template that holds only an identifier.
fn read_index_only(pattern: &Pattern<'_>, rest: &[char]) -> (r: Result<Migration, ParseError>)
    requires
        pattern.wf(),
        pattern.order == Order::IndexOnly,
    ensures
        match r {
            Ok(m) => match_rest(pattern@, rest@) == Ok::<MigrationView, ParseError>(m@),
            Err(e) => match_rest(pattern@, rest@) == Err::<MigrationView, ParseError>(e),
        },
{
    let second = to_chars(pattern.parts[1]);
    if !has_suffix(rest, second.as_slice()) {
        return Err(ParseError::NotMatching);
    }
    let id = parse_identifier(&rest[0..rest.len() - second.len()])?;
    Ok(Migration { name: String::new(), id })
}

/// Reads a migration from the part of `s` from `begin` on, the text after
/// the first fragment, under a template that holds an identifier and a
/// name. `text` holds the characters of `s`.
fn read_both(pattern: &Pattern<'_>, s: &str, text: &[char], begin: usize) -> (r: Result<
    Migration,
    ParseError,
>)
    requires
        pattern.wf(),
        pattern.order != Order::IndexOnly,
        text@ == s@,
        begin <= text.len(),
    ensures
        match r {
            Ok(m) => match_rest(pattern@, s@.skip(begin as int)) == Ok::<MigrationView, ParseError>(
                m@,
            ),
            Err(e) => match_rest(pattern@, s@.skip(begin as int)) == Err::<
                MigrationView,
                ParseError,
            >(e),
        },
{
    let second = to_chars(pattern.parts[1]);
    let third = to_chars(pattern.parts[2]);
    let rest = &text[begin..text.len()];
    assert(rest@ =~= s@.skip(begin as int));
    let cut = match find(rest, second.as_slice()) {
        Some(cut) => cut,
        None => {
            return Err(ParseError::NotMatching);
        },
    };
    let left = &rest[0..cut];
    let right = &rest[cut + second.len()..rest.len()];
    assert(left@ =~= rest@.take(cut as int));
    assert(right@ =~= rest@.skip(cut + second@.len()));
    match pattern.order {
        Order::IndexFirst => {
            let id = parse_identifier(left)?;
            if !has_suffix(right, third.as_slice()) {
                return Err(ParseError::NotMatching);
            }
            let after = begin + cut + second.len();
            let end = text.len() - third.len();
            assert(without_suffix(right@, third@) =~= s@.subrange(after as int, end as int));
            let name = s.substring_char(after, end).to_owned();
            Ok(Migration { name, id })
        },
        _ => {
            if !has_suffix(right, third.as_slice()) {
                return Err(ParseError::NotMatching);
            }
            let id = parse_identifier(&right[0..right.len() - third.len()])?;
            assert(left@ =~= s@.subrange(begin as int, begin + cut));
            let name = s.substring_char(begin, begin + cut).to_owned();
            Ok(Migration { name, id })
        },
    }
}

impl Migration {
    /// Reads a migration from the filename `s` under the template `pattern`.
    pub fn from_pattern(pattern: &Pattern<'_>, s: &str) -> (r: Result<Migration, ParseError>)
        requires
            pattern.wf(),
        ensures
            match r {
                Ok(m) => match_filename(pattern@, s@) == Ok::<MigrationView, ParseError>(m@),
                Err(e) => match_filename(pattern@, s@) == Err::<MigrationView, ParseError>(e),
            },
    {
        let text = to_chars(s);
        let first = to_chars(pattern.parts[0]);
        let at = match find(text.as_slice(), first.as_slice()) {
            Some(at) => at,
            None => {
                return Err(ParseError::NotMatching);
            },
        };
        let begin = at + first.len();
        match pattern.order {
            Order::IndexOnly => {
                let rest = &text.as_slice()[begin..text.len()];
                assert(rest@ =~= s@.skip(begin as int));
                read_index_only(pattern, rest)
            },
            _ => read_both(pattern, s, text.as_slice(), begin),
        }
    }

    /// Renders the filename of this migration under the template `pattern`.
    pub fn to_string(&self, pattern: &Pattern<'_>) -> (out: String)
        requires
            pattern.wf(),
        ensures
            out@ == render(pattern@, self@),
    {
        let mut out = String::new();
        out.append(pattern.parts[0]);
        match pattern.order {
            Order::IndexOnly => {
                push_decimal(&mut out, self.id);
                out.append(pattern.parts[1]);
            },
            Order::IndexFirst => {
                push_decimal(&mut out, self.id);
                out.append(pattern.parts[1]);
                out.append(self.name.as_str());
                out.append(pattern.parts[2]);
            },
            Order::NameFirst => {
                out.append(self.name.as_str());
                out.append(pattern.parts[1]);
                push_decimal(&mut out, self.id);
                out.append(pattern.parts[2]);
            },
        }
        assert(out@ =~= render(pattern@, self@));
        out
    }
}

} // verus!
