//! Vocabulary of the rule language: keywords, prefixes, variables, and the
//! scope variables are numbered in.
use vstd::prelude::*;

use crate::rdfs::parsing::{is_iri, is_iri_reference, new_iri, new_iri_ref};
use crate::semantics::Trust;
use crate::Meta;

pub mod building;
pub mod rule_building;
pub mod command_line;
pub mod model;
pub mod parsing;
pub mod html;
pub mod numeral;
pub mod render;

verus! {

/// Keyword of the rule language.
#[derive(Debug, Clone, Copy, PartialEq, Eq, Structural)]
pub enum Keyword {
    Base,
    Prefix,
    Group,
    Rule,
    ForAll,
    Exists,
}

/// The text of a keyword.
pub open spec fn keyword_text(k: Keyword) -> Seq<char> {
    match k {
        Keyword::Base => seq!['b', 'a', 's', 'e'],
        Keyword::Prefix => seq!['p', 'r', 'e', 'f', 'i', 'x'],
        Keyword::Group => seq!['g', 'r', 'o', 'u', 'p'],
        Keyword::Rule => seq!['r', 'u', 'l', 'e'],
        Keyword::ForAll => seq!['f', 'o', 'r', 'a', 'l', 'l'],
        Keyword::Exists => seq!['e', 'x', 'i', 's', 't', 's'],
    }
}

impl Keyword {
    pub fn as_str(&self) -> (r: &'static str)
        ensures
            r@ == keyword_text(*self),
    {
        match self {
            Keyword::Base => {
                let s = "base";
                proof {
                    reveal_strlit("base");
                }
                s
            },
            Keyword::Prefix => {
                let s = "prefix";
                proof {
                    reveal_strlit("prefix");
                }
                s
            },
            Keyword::Group => {
                let s = "group";
                proof {
                    reveal_strlit("group");
                }
                s
            },
            Keyword::Rule => {
                let s = "rule";
                proof {
                    reveal_strlit("rule");
                }
                s
            },
            Keyword::ForAll => {
                let s = "forall";
                proof {
                    reveal_strlit("forall");
                }
                s
            },
            Keyword::Exists => {
                let s = "exists";
                proof {
                    reveal_strlit("exists");
                }
                s
            },
        }
    }
}

/// Compact IRI prefix.
pub struct Prefix(pub String);

impl Prefix {
    pub fn as_str(&self) -> (r: &str)
        ensures
            r@ == self.0@,
    {
        self.0.as_str()
    }
}

/// The `:` separating a prefix from its IRI.
#[derive(Debug, Clone, Copy, PartialEq, Eq, Structural)]
pub struct Colon;

/// The `.` ending a statement.
#[derive(Debug, Clone, Copy, PartialEq, Eq, Structural)]
pub struct Dot;

/// Documentation lines.
#[derive(Debug)]
pub struct Documentation {
    pub lines: Vec<String>,
}

/// Variable name.
pub struct VarIdent(pub String);

/// Unexpected character (or end of input).
#[derive(Debug, Clone, Copy, PartialEq, Eq, Structural)]
pub struct Unexpected(pub Option<char>);

impl Unexpected {
    pub fn from_char(value: Option<char>) -> (r: Unexpected)
        ensures
            r.0 == value,
    {
        Unexpected(value)
    }
}

/// Whether a character is white space: it has the Unicode `White_Space`
/// property, held by U+0009 to U+000D, U+0020, U+0085, U+00A0, U+1680,
/// U+2000 to U+200A, U+2028, U+2029, U+202F, U+205F and U+3000.
pub open spec fn is_white_space(c: char) -> bool {
    let n = c as u32;
    ||| 0x9 <= n <= 0xd
    ||| n == 0x20
    ||| n == 0x85
    ||| n == 0xa0
    ||| n == 0x1680
    ||| 0x2000 <= n <= 0x200a
    ||| n == 0x2028
    ||| n == 0x2029
    ||| n == 0x202f
    ||| n == 0x205f
    ||| n == 0x3000
}

/// Whether the character has the Unicode `White_Space` property, as
/// `char::is_whitespace` tells.
pub(crate) fn char_is_whitespace(c: char) -> (r: bool)
    ensures
        r == is_white_space(c),
{
    let n = c as u32;
    (0x9 <= n && n <= 0xd) || n == 0x20 || n == 0x85 || n == 0xa0 || n == 0x1680 || (0x2000 <= n && n <= 0x200a) || n
        == 0x2028 || n == 0x2029 || n == 0x202f || n == 0x205f || n == 0x3000
}

/// Whether what follows a `>` ends an IRI reference: white space or the end
/// of the input.
pub fn is_iri_ref_successor(c: Option<char>) -> (r: bool)
    ensures
        r == (match c {
            Some(c) => is_white_space(c),
            None => true,
        }),
{
    match c {
        Some(c) => char_is_whitespace(c),
        None => true,
    }
}

/// Byte range in the source text.
#[derive(Debug, Clone, Copy, PartialEq, Eq, Structural)]
pub struct Span {
    pub start: usize,
    pub end: usize,
}

impl Span {
    pub fn new(start: usize, end: usize) -> (r: Span)
        ensures
            r == (Span { start, end }),
    {
        Span { start, end }
    }
}

/// An IRI (RFC 3987 `IRI`), as checked by the `iref` crate.
pub struct IriBuf {
    text: String,
}

impl View for IriBuf {
    type V = Seq<char>;

    closed spec fn view(&self) -> Seq<char> {
        self.text@
    }
}

impl IriBuf {
    #[verifier::type_invariant]
    closed spec fn valid(self) -> bool {
        is_iri(self.text@)
    }

    /// Checks `s` against the `IRI` grammar.
    pub fn new(s: String) -> (r: Result<IriBuf, String>)
        ensures
            match r {
                Ok(i) => i@ == s@ && is_iri(s@),
                Err(t) => t@ == s@ && !is_iri(s@),
            },
    {
        match new_iri(s) {
            Ok(t) => Ok(IriBuf { text: t }),
            Err(t) => Err(t),
        }
    }

    /// An IRI already checked.
    pub(crate) fn from_checked(s: String) -> (r: IriBuf)
        requires
            is_iri(s@),
        ensures
            r@ == s@,
    {
        IriBuf { text: s }
    }

    pub fn as_str(&self) -> (r: &str)
        ensures
            r@ == self@,
    {
        self.text.as_str()
    }
}

/// An IRI reference (RFC 3987 `IRI-reference`), as checked by the `iref`
/// crate.
pub struct IriRefBuf {
    text: String,
}

impl View for IriRefBuf {
    type V = Seq<char>;

    closed spec fn view(&self) -> Seq<char> {
        self.text@
    }
}

impl IriRefBuf {
    #[verifier::type_invariant]
    closed spec fn valid(self) -> bool {
        is_iri_reference(self.text@)
    }

    /// Checks `s` against the `IRI-reference` grammar.
    pub fn new(s: String) -> (r: Result<IriRefBuf, String>)
        ensures
            match r {
                Ok(i) => i@ == s@ && is_iri_reference(s@),
                Err(t) => t@ == s@ && !is_iri_reference(s@),
            },
    {
        match new_iri_ref(s) {
            Ok(t) => Ok(IriRefBuf { text: t }),
            Err(t) => Err(t),
        }
    }

    /// An IRI reference already checked.
    pub(crate) fn from_checked(s: String) -> (r: IriRefBuf)
        requires
            is_iri_reference(s@),
        ensures
            r@ == s@,
    {
        IriRefBuf { text: s }
    }

    pub fn as_str(&self) -> (r: &str)
        ensures
            r@ == self@,
    {
        self.text.as_str()
    }
}

/// A rule document: its documentation and its items.
pub struct Document {
    pub doc: Documentation,
    pub items: Vec<Meta<Item, Span>>,
}

/// Top-level or group item.
pub enum Item {
    Base(IriBuf),
    Prefix(PrefixBinding),
    Group(Group),
    Rule(Rule),
}

/// `prefix name: <iri>`.
pub struct PrefixBinding {
    pub prefix: Meta<Prefix, Span>,
    pub colon: Meta<Colon, Span>,
    pub iri: Meta<IriRefBuf, Span>,
}

/// A named group of items.
pub struct Group {
    pub id: Meta<IriReference, Span>,
    pub doc: Documentation,
    pub items: Meta<Vec<Meta<Item, Span>>, Span>,
}

/// A named rule.
pub struct Rule {
    pub id: Meta<IriReference, Span>,
    pub doc: Documentation,
    pub formula: Meta<Formula, Span>,
}

/// IRI reference, compact (`prefix:suffix`) or expanded (`<...>`).
pub enum IriReference {
    Compact(IriRefBuf),
    Expanded(IriRefBuf),
}

/// Variable or IRI reference.
pub enum Expr {
    Var(VarIdent),
    IriRef(IriReference),
}

/// Triple pattern.
pub struct Pattern {
    pub subject: Meta<Expr, Span>,
    pub predicate: Meta<Expr, Span>,
    pub object: Meta<Expr, Span>,
}

/// Triple pattern or equality.
pub enum Statement {
    Pattern(Pattern),
    Eq(Meta<Expr, Span>, Meta<Expr, Span>),
}

/// Statement, possibly negated (`!`).
pub struct SignedStatement {
    pub negative: Option<Span>,
    pub statement: Meta<Statement, Span>,
}

/// Conclusion statement with its trust mark (`.` trusted, `!` untrusted).
pub struct MaybeTrustedStatement {
    pub statement: Meta<SignedStatement, Span>,
    pub trust: Meta<Trust, Span>,
}

/// Hypothesis pattern, possibly negated (`!`).
pub struct SignedPattern {
    pub negative: Option<Span>,
    pub pattern: Meta<Pattern, Span>,
}

/// Rule formula.
pub enum Formula {
    ForAll(ForAll),
    Exists(Exists),
    Conclusion(Conclusion),
}

/// `forall ?x ... { constraints } inner`.
pub struct ForAll {
    pub variables: Vec<Meta<VarIdent, Span>>,
    pub constraints: Meta<Hypothesis, Span>,
    pub inner: Box<Meta<Formula, Span>>,
}

/// `exists ?x ... { hypothesis } inner`.
pub struct Exists {
    pub variables: Vec<Meta<VarIdent, Span>>,
    pub hypothesis: Meta<Hypothesis, Span>,
    pub inner: Box<Meta<Formula, Span>>,
}

/// `{ pattern. ... }`
pub struct Hypothesis {
    pub patterns: Vec<Meta<SignedPattern, Span>>,
}

/// `=> { statement. ... }`
pub struct Conclusion {
    pub statements: Vec<Meta<MaybeTrustedStatement, Span>>,
}

} // verus!
