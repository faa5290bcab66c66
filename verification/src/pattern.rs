//! Filename templates.
//!
//! A template is a string in which `%d` stands for the identifier of a
//! migration and `%s` for its name. `%d` occurs once, `%s` at most once, and
//! `%` is followed by nothing else. Compiling a template cuts it into the
//! literal fragments around the placeholders and records which placeholder
//! comes first.

use crate::text::to_chars;
use vstd::prelude::*;
use vstd::string::StrSliceExecFns;

verus! {

/// The template of "up" files where none is given.
pub const DEFAULT_UP: &'static str = "%d_%s.up.sql";

/// The template of "down" files where none is given.
pub const DEFAULT_DOWN: &'static str = "%d_%s.down.sql";

/// Which placeholders a template holds, and in which order.
#[derive(Debug, PartialEq, Eq, Clone, Copy, Structural)]
pub enum Order {
    /// Only the identifier.
    IndexOnly,
    /// The identifier, then the name.
    IndexFirst,
    /// The name, then the identifier.
    NameFirst,
}

impl Order {
    /// The number of literal fragments of a template of this order: one more
    /// than it has placeholders.
    pub open spec fn fragment_count(self) -> nat {
        match self {
            Order::IndexOnly => 2,
            _ => 3,
        }
    }
}

/// Why a string is not a template.
#[derive(Debug, PartialEq, Eq, Clone, Copy, Structural)]
pub enum ParseError {
    /// `%` is followed by something other than `d` or `s`, or the template
    /// has no `%d`.
    InvalidPattern,
    /// The template ends in `%`.
    UnfinishedSubstitute,
    /// `%d` or `%s` occurs a second time.
    TooManyPlaceholders,
}

impl ParseError {
    /// The text of the message, as a sequence of characters.
    pub open spec fn message_text(self) -> Seq<char> {
        match self {
            ParseError::InvalidPattern => "invalid pattern"@,
            ParseError::UnfinishedSubstitute => "unfinished substitute"@,
            ParseError::TooManyPlaceholders => "too many placeholders"@,
        }
    }

    /// A short description of the error.
    pub fn message(&self) -> (text: &'static str)
        ensures
            text@ == self.message_text(),
    {
        match self {
            ParseError::InvalidPattern => "invalid pattern",
            ParseError::UnfinishedSubstitute => "unfinished substitute",
            ParseError::TooManyPlaceholders => "too many placeholders",
        }
    }
}

/// A compiled template as a mathematical value: the literal fragments from
/// left to right, and the order of the placeholders between them.
pub struct Template {
    pub fragments: Seq<Seq<char>>,
    pub order: Order,
}

impl Template {
    /// There is one fragment more than there are placeholders.
    pub open spec fn wf(self) -> bool {
        self.fragments.len() == self.order.fragment_count()
    }
}

/// A compiled template. The fragments borrow from the string it was
/// compiled from.
#[derive(Debug, PartialEq, Eq, Clone)]
pub struct Pattern<'a> {
    /// The literal fragments, from left to right.
    pub parts: Vec<&'a str>,
    /// The order of the placeholders between the fragments.
    pub order: Order,
}

/// The characters of each fragment.
pub open spec fn fragments_of(parts: Seq<&str>) -> Seq<Seq<char>> {
    parts.map_values(|p: &str| p@)
}

impl<'a> View for Pattern<'a> {
    type V = Template;

    open spec fn view(&self) -> Template {
        Template { fragments: fragments_of(self.parts@), order: self.order }
    }
}

/// What the compiler knows after reading a prefix of the template.
pub struct Scan {
    /// The fragments that a placeholder has closed.
    pub fragments: Seq<Seq<char>>,
    /// Where the fragment that is still open begins.
    pub start: int,
    /// How many fragments were closed when `%d` was read, if it was.
    pub id_at: Option<nat>,
    /// How many fragments were closed when `%s` was read, if it was.
    pub name_at: Option<nat>,
}

impl Scan {
    /// The state before the first character.
    pub open spec fn initial() -> Scan {
        Scan { fragments: Seq::empty(), start: 0, id_at: None, name_at: None }
    }

    /// The state after a placeholder that begins at `at` in `s`.
    pub open spec fn close(self, s: Seq<char>, at: int) -> Scan {
        Scan { fragments: self.fragments.push(s.subrange(self.start, at)), start: at + 2, ..self }
    }

    /// Each placeholder read so far closed one fragment, and no two closed
    /// the same one.
    pub open spec fn wf(self) -> bool {
        &&& self.fragments.len() == (if self.id_at is Some {
            1nat
        } else {
            0nat
        }) + (if self.name_at is Some {
            1nat
        } else {
            0nat
        })
        &&& self.id_at matches Some(a) ==> a < self.fragments.len()
        &&& self.name_at matches Some(b) ==> b < self.fragments.len()
        &&& self.id_at matches Some(a) ==> self.name_at matches Some(b) ==> a != b
    }
}

/// The order of a template whose `%d` closed fragment `id_at` and whose `%s`,
/// if it has one, closed fragment `name_at`.
pub open spec fn order_of(id_at: nat, name_at: Option<nat>) -> Order {
    match name_at {
        None => Order::IndexOnly,
        Some(b) => if id_at < b {
            Order::IndexFirst
        } else {
            Order::NameFirst
        },
    }
}

/// The outcome of compiling `s`, given that its first `i` characters led to
/// the state `st`.
///
/// The template is read from the left, and the first fault decides: `%` at
/// the end, `%` before a character other than `d` and `s`, or a placeholder
/// for the second time. A template read to its end without a `%d` is
/// invalid. What follows the last placeholder is the last fragment, empty
/// or not.
pub open spec fn scan_from(s: Seq<char>, i: int, st: Scan) -> Result<Template, ParseError>
    decreases s.len() - i,
{
    if i < 0 || i >= s.len() {
        match st.id_at {
            None => Err(ParseError::InvalidPattern),
            Some(a) => Ok(
                Template {
                    fragments: st.fragments.push(s.subrange(st.start, s.len() as int)),
                    order: order_of(a, st.name_at),
                },
            ),
        }
    } else if s[i] != '%' {
        scan_from(s, i + 1, st)
    } else if i + 1 >= s.len() {
        Err(ParseError::UnfinishedSubstitute)
    } else if s[i + 1] == 'd' {
        if st.id_at is Some {
            Err(ParseError::TooManyPlaceholders)
        } else {
            scan_from(s, i + 2, Scan { id_at: Some(st.fragments.len()), ..st.close(s, i) })
        }
    } else if s[i + 1] == 's' {
        if st.name_at is Some {
            Err(ParseError::TooManyPlaceholders)
        } else {
            scan_from(s, i + 2, Scan { name_at: Some(st.fragments.len()), ..st.close(s, i) })
        }
    } else {
        Err(ParseError::InvalidPattern)
    }
}

/// The template that `s` compiles to, or why it is none.
pub open spec fn compile(s: Seq<char>) -> Result<Template, ParseError> {
    scan_from(s, 0, Scan::initial())
}

/// A template that compiles has one fragment more than placeholders.
pub proof fn lemma_scan_wf(s: Seq<char>, i: int, st: Scan)
    requires
        st.wf(),
    ensures
        scan_from(s, i, st) matches Ok(t) ==> t.wf(),
    decreases s.len() - i,
{
    if i < 0 || i >= s.len() {
    } else if s[i] != '%' {
        lemma_scan_wf(s, i + 1, st);
    } else if i + 1 >= s.len() {
    } else if s[i + 1] == 'd' {
        if st.id_at is None {
            lemma_scan_wf(s, i + 2, Scan { id_at: Some(st.fragments.len()), ..st.close(s, i) });
        }
    } else if s[i + 1] == 's' {
        if st.name_at is None {
            lemma_scan_wf(s, i + 2, Scan { name_at: Some(st.fragments.len()), ..st.close(s, i) });
        }
    }
}

/// The text holds no `%`.
pub open spec fn plain(f: Seq<char>) -> bool {
    forall|i: int| 0 <= i < f.len() ==> f[i] != '%'
}

/// The placeholder of the identifier.
pub open spec fn id_mark() -> Seq<char> {
    seq!['%', 'd']
}

/// The placeholder of the name.
pub open spec fn name_mark() -> Seq<char> {
    seq!['%', 's']
}

/// The template written out: its fragments with the placeholders between
/// them.
pub open spec fn text_of(t: Template) -> Seq<char>
    recommends
        t.wf(),
{
    match t.order {
        Order::IndexOnly => t.fragments[0] + id_mark() + t.fragments[1],
        Order::IndexFirst => t.fragments[0] + id_mark() + t.fragments[1] + name_mark()
            + t.fragments[2],
        Order::NameFirst => t.fragments[0] + name_mark() + t.fragments[1] + id_mark()
            + t.fragments[2],
    }
}

/// Every fragment of the template is plain.
pub open spec fn all_plain(fragments: Seq<Seq<char>>) -> bool {
    forall|k: int| 0 <= k < fragments.len() ==> plain(#[trigger] fragments[k])
}

/// Characters other than `%` change nothing in what is known.
proof fn lemma_scan_plain(s: Seq<char>, i: int, j: int, st: Scan)
    requires
        0 <= i <= j <= s.len(),
        forall|k: int| i <= k < j ==> s[k] != '%',
    ensures
        scan_from(s, i, st) == scan_from(s, j, st),
    decreases j - i,
{
    if i < j {
        lemma_scan_plain(s, i + 1, j, st);
    }
}

/// A template that is written out from plain fragments compiles to those
/// fragments, in the same order.
pub proof fn lemma_compile_of_text(t: Template)
    requires
        t.wf(),
        all_plain(t.fragments),
    ensures
        compile(text_of(t)) == Ok::<Template, ParseError>(t),
{
    let s = text_of(t);
    let f0 = t.fragments[0];
    let f1 = t.fragments[1];
    let n0 = f0.len() as int;
    let n1 = f1.len() as int;
    let st0 = Scan::initial();
    assert(plain(f0) && plain(f1));
    assert(s.subrange(0, n0) =~= f0);
    lemma_scan_plain(s, 0, n0, st0);
    match t.order {
        Order::IndexOnly => {
            let st1 = Scan { id_at: Some(0nat), ..st0.close(s, n0) };
            assert(scan_from(s, n0, st0) == scan_from(s, n0 + 2, st1));
            assert(s.subrange(n0 + 2, s.len() as int) =~= f1);
            lemma_scan_plain(s, n0 + 2, s.len() as int, st1);
            assert(t.fragments =~= seq![f0, f1]);
            assert(st1.fragments.push(f1) =~= seq![f0, f1]);
        },
        Order::IndexFirst => {
            let f2 = t.fragments[2];
            assert(plain(f2));
            let st1 = Scan { id_at: Some(0nat), ..st0.close(s, n0) };
            assert(scan_from(s, n0, st0) == scan_from(s, n0 + 2, st1));
            assert(s.subrange(n0 + 2, n0 + 2 + n1) =~= f1);
            lemma_scan_plain(s, n0 + 2, n0 + 2 + n1, st1);
            let st2 = Scan { name_at: Some(1nat), ..st1.close(s, n0 + 2 + n1) };
            assert(scan_from(s, n0 + 2 + n1, st1) == scan_from(s, n0 + n1 + 4, st2));
            assert(s.subrange(n0 + n1 + 4, s.len() as int) =~= f2);
            lemma_scan_plain(s, n0 + n1 + 4, s.len() as int, st2);
            assert(t.fragments =~= seq![f0, f1, f2]);
            assert(st2.fragments.push(f2) =~= seq![f0, f1, f2]);
        },
        Order::NameFirst => {
            let f2 = t.fragments[2];
            assert(plain(f2));
            let st1 = Scan { name_at: Some(0nat), ..st0.close(s, n0) };
            assert(scan_from(s, n0, st0) == scan_from(s, n0 + 2, st1));
            assert(s.subrange(n0 + 2, n0 + 2 + n1) =~= f1);
            lemma_scan_plain(s, n0 + 2, n0 + 2 + n1, st1);
            let st2 = Scan { id_at: Some(1nat), ..st1.close(s, n0 + 2 + n1) };
            assert(scan_from(s, n0 + 2 + n1, st1) == scan_from(s, n0 + n1 + 4, st2));
            assert(s.subrange(n0 + n1 + 4, s.len() as int) =~= f2);
            lemma_scan_plain(s, n0 + n1 + 4, s.len() as int, st2);
            assert(t.fragments =~= seq![f0, f1, f2]);
            assert(st2.fragments.push(f2) =~= seq![f0, f1, f2]);
        },
    }
}

/// The part of the template that the closed fragments and the placeholders
/// read so far make up.
spec fn text_so_far(st: Scan) -> Seq<char> {
    match (st.id_at, st.name_at) {
        (None, None) => Seq::empty(),
        (Some(_), None) => st.fragments[0] + id_mark(),
        (None, Some(_)) => st.fragments[0] + name_mark(),
        (Some(a), Some(b)) => if a < b {
            st.fragments[0] + id_mark() + st.fragments[1] + name_mark()
        } else {
            st.fragments[0] + name_mark() + st.fragments[1] + id_mark()
        },
    }
}

/// The state `st` is what reading the first `i` characters of `s` leads to.
spec fn reached(s: Seq<char>, i: int, st: Scan) -> bool {
    &&& st.wf()
    &&& 0 <= st.start <= i <= s.len()
    &&& all_plain(st.fragments)
    &&& s.subrange(0, st.start) == text_so_far(st)
    &&& forall|k: int| st.start <= k < i ==> s[k] != '%'
}

/// Closing a fragment at a placeholder leads to a state that is reached.
proof fn lemma_reached_close(s: Seq<char>, i: int, st: Scan, id: bool)
    requires
        reached(s, i, st),
        i + 1 < s.len(),
        s[i] == '%',
        id ==> s[i + 1] == 'd' && st.id_at is None,
        !id ==> s[i + 1] == 's' && st.name_at is None,
    ensures
        reached(
            s,
            i + 2,
            if id {
                Scan { id_at: Some(st.fragments.len()), ..st.close(s, i) }
            } else {
                Scan { name_at: Some(st.fragments.len()), ..st.close(s, i) }
            },
        ),
{
    let next = if id {
        Scan { id_at: Some(st.fragments.len()), ..st.close(s, i) }
    } else {
        Scan { name_at: Some(st.fragments.len()), ..st.close(s, i) }
    };
    let piece = s.subrange(st.start, i);
    let mark = if id {
        id_mark()
    } else {
        name_mark()
    };
    assert(s.subrange(i, i + 2) =~= mark);
    assert(s.subrange(0, i + 2) =~= s.subrange(0, st.start) + piece + mark);
    assert(plain(piece));
    assert forall|k: int| 0 <= k < next.fragments.len() implies plain(
        #[trigger] next.fragments[k],
    ) by {
        if k < st.fragments.len() {
            assert(next.fragments[k] == st.fragments[k]);
        }
    }
    if st.fragments.len() == 0 {
        assert(s.subrange(0, st.start) =~= Seq::<char>::empty());
        assert(text_so_far(next) =~= piece + mark);
    } else {
        assert(next.fragments[0] == st.fragments[0]);
        assert(text_so_far(next) =~= text_so_far(st) + piece + mark);
    }
}

/// What a reached state compiles to is well formed, has plain fragments,
/// and writes out as the template.
proof fn lemma_scan_sound(s: Seq<char>, i: int, st: Scan)
    requires
        reached(s, i, st),
    ensures
        scan_from(s, i, st) matches Ok(t) ==> t.wf() && all_plain(t.fragments) && text_of(t) == s,
    decreases s.len() - i,
{
    if i >= s.len() {
        if let Some(a) = st.id_at {
            let piece = s.subrange(st.start, s.len() as int);
            let t = Template {
                fragments: st.fragments.push(piece),
                order: order_of(a, st.name_at),
            };
            assert(plain(piece));
            assert forall|k: int| 0 <= k < t.fragments.len() implies plain(
                #[trigger] t.fragments[k],
            ) by {
                if k < st.fragments.len() {
                    assert(t.fragments[k] == st.fragments[k]);
                }
            }
            assert(s =~= s.subrange(0, st.start) + piece);
            assert(t.fragments[0] == st.fragments[0]);
            assert(text_of(t) =~= text_so_far(st) + piece);
        }
    } else if s[i] != '%' {
        lemma_scan_sound(s, i + 1, st);
    } else if i + 1 >= s.len() {
    } else if s[i + 1] == 'd' {
        if st.id_at is None {
            lemma_reached_close(s, i, st, true);
            lemma_scan_sound(s, i + 2, Scan { id_at: Some(st.fragments.len()), ..st.close(s, i) });
        }
    } else if s[i + 1] == 's' {
        if st.name_at is None {
            lemma_reached_close(s, i, st, false);
            lemma_scan_sound(
                s,
                i + 2,
                Scan { name_at: Some(st.fragments.len()), ..st.close(s, i) },
            );
        }
    }
}

/// A string that compiles is the template written out: its fragments,
/// which hold no `%`, with the placeholders between them.
pub proof fn lemma_text_of_compile(s: Seq<char>)
    ensures
        compile(s) matches Ok(t) ==> t.wf() && all_plain(t.fragments) && text_of(t) == s,
{
    assert(s.subrange(0, 0) =~= Seq::<char>::empty());
    lemma_scan_sound(s, 0, Scan::initial());
}

impl<'a> Pattern<'a> {
    /// There is one fragment more than there are placeholders.
    pub open spec fn wf(&self) -> bool {
        self@.wf()
    }

    /// Tells whether there is one fragment more than there are
    /// placeholders.
    pub fn is_well_formed(&self) -> (ok: bool)
        ensures
            ok == self.wf(),
    {
        let expected: usize = match self.order {
            Order::IndexOnly => 2,
            _ => 3,
        };
        self.parts.len() == expected
    }

    /// Compiles the template `s`.
    pub fn parse(s: &'a str) -> (r: Result<Pattern<'a>, ParseError>)
        ensures
            match r {
                Ok(p) => compile(s@) == Ok::<Template, ParseError>(p@) && p.wf(),
                Err(e) => compile(s@) == Err::<Template, ParseError>(e),
            },
    {
        let chars = to_chars(s);
        let n = chars.len();
        let mut parts: Vec<&'a str> = Vec::new();
        let mut id_index: Option<usize> = None;
        let mut name_index: Option<usize> = None;
        let mut start: usize = 0;
        let mut i: usize = 0;
        let ghost mut st = Scan::initial();
        assert(fragments_of(parts@) =~= st.fragments);
        while i < n
            invariant
                chars@ == s@,
                n == chars.len(),
                start <= i <= n,
                st.wf(),
                st.fragments == fragments_of(parts@),
                st.start == start,
                st.id_at == match id_index {
                    Some(a) => Some(a as nat),
                    None => None,
                },
                st.name_at == match name_index {
                    Some(b) => Some(b as nat),
                    None => None,
                },
                compile(s@) == scan_from(s@, i as int, st),
            decreases n - i,
        {
            if chars[i] != '%' {
                i += 1;
            } else {
                if i + 1 >= n {
                    return Err(ParseError::UnfinishedSubstitute);
                }
                let after = chars[i + 1];
                if after == 'd' {
                    if id_index.is_some() {
                        return Err(ParseError::TooManyPlaceholders);
                    }
                    id_index = Some(parts.len());
                    proof {
                        st = Scan { id_at: Some(st.fragments.len()), ..st.close(s@, i as int) };
                    }
                } else if after == 's' {
                    if name_index.is_some() {
                        return Err(ParseError::TooManyPlaceholders);
                    }
                    name_index = Some(parts.len());
                    proof {
                        st = Scan { name_at: Some(st.fragments.len()), ..st.close(s@, i as int) };
                    }
                } else {
                    return Err(ParseError::InvalidPattern);
                }
                let ghost before = parts@;
                parts.push(s.substring_char(start, i));
                assert(fragments_of(parts@) =~= fragments_of(before).push(
                    s@.subrange(start as int, i as int),
                ));
                start = i + 2;
                i = i + 2;
            }
        }
        let id_index = match id_index {
            Some(a) => a,
            None => {
                return Err(ParseError::InvalidPattern);
            },
        };
        let ghost before = parts@;
        parts.push(s.substring_char(start, n));
        assert(fragments_of(parts@) =~= fragments_of(before).push(
            s@.subrange(start as int, n as int),
        ));
        let order = match name_index {
            None => Order::IndexOnly,
            Some(j) => if id_index < j {
                Order::IndexFirst
            } else {
                Order::NameFirst
            },
        };
        proof {
            lemma_scan_wf(s@, i as int, st);
        }
        Ok(Pattern { parts, order })
    }
}

} // verus!
