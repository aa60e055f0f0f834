//! Parser of the rule language.
//!
//! The parser reads a slice of characters and reports every node and every
//! error with its span, a range of byte offsets in the UTF-8 encoding of
//! the text. White space and `#` comments separate tokens; `##` lines
//! document the next item and `#!` lines the whole document.
use vstd::prelude::*;
use vstd::string::StringExecFns;

use crate::rdfs::model::{
    document_model, item_model, items_model, DocumentModel, ItemModel,
    formula_model, variables_model, FormulaModel, patterns_model, statements_model,
    expr_model, iri_reference_model, maybe_trusted_statement_model, pattern_model, signed_pattern_model,
    signed_statement_model, statement_model, ExprModel, IriReferenceModel, MaybeTrustedStatementModel,
    PatternModel, SignedPatternModel, SignedStatementModel, StatementModel,
};
use crate::rdfs::{
    char_is_whitespace, is_iri_ref_successor, is_white_space, keyword_text, Colon, Documentation, Dot,
    Document, Group, IriBuf, IriRefBuf, Item, PrefixBinding, Rule,
    Conclusion, Exists, Expr, ForAll, Formula, Hypothesis, IriReference, Keyword, MaybeTrustedStatement, Pattern, Prefix, SignedPattern,
    SignedStatement, Span, Statement, Unexpected, VarIdent,
};
use crate::semantics::Trust;
use crate::Meta;

verus! {

/// Number of bytes of the UTF-8 encoding of `c`.
pub open spec fn char_width(c: char) -> nat {
    let n = c as u32;
    if n < 0x80 {
        1
    } else if n < 0x800 {
        2
    } else if n < 0x10000 {
        3
    } else {
        4
    }
}

/// Byte offset of the `i`-th character of `s`.
pub open spec fn offset(s: Seq<char>, i: int) -> nat
    decreases i,
{
    if i <= 0 {
        0
    } else {
        offset(s, i - 1) + char_width(s[i - 1])
    }
}

/// Span of the characters `i..j` of `s`.
pub open spec fn span_of(s: Seq<char>, i: int, j: int) -> Span {
    Span { start: offset(s, i) as usize, end: offset(s, j) as usize }
}

/// Span of the last character read when `i` characters have been read
/// (empty at the start).
pub open spec fn last_char_span(s: Seq<char>, i: int) -> Span {
    if i <= 0 {
        Span { start: 0, end: 0 }
    } else {
        span_of(s, i - 1, i)
    }
}

/// Offsets grow with the index.
pub proof fn lemma_offset_monotonic(s: Seq<char>, i: int, j: int)
    requires
        i <= j,
    ensures
        offset(s, i) <= offset(s, j),
    decreases j - i,
{
    if i < j {
        lemma_offset_monotonic(s, i, j - 1);
    }
}

/// Whether a character is an ASCII letter.
pub open spec fn is_ascii_letter(c: char) -> bool {
    let n = c as u32;
    (0x41 <= n <= 0x5a) || (0x61 <= n <= 0x7a)
}

/// Whether a character is an ASCII digit.
pub open spec fn is_ascii_digit(c: char) -> bool {
    let n = c as u32;
    0x30 <= n <= 0x39
}

/// Whether a character beyond ASCII has the Unicode `Alphabetic` property.
pub uninterp spec fn is_alphabetic_beyond_ascii(c: char) -> bool;

/// Whether a character beyond ASCII has the Unicode `Alphabetic` or
/// `Numeric` property.
pub uninterp spec fn is_alphanumeric_beyond_ascii(c: char) -> bool;

/// Whether a character is alphabetic: the Unicode `Alphabetic` property,
/// which among ASCII characters the letters alone have.
pub open spec fn is_alphabetic(c: char) -> bool {
    if (c as u32) < 0x80 {
        is_ascii_letter(c)
    } else {
        is_alphabetic_beyond_ascii(c)
    }
}

/// Whether a character is alphanumeric: Unicode `Alphabetic` or `Numeric`,
/// which among ASCII characters the letters and digits alone are.
pub open spec fn is_alphanumeric(c: char) -> bool {
    if (c as u32) < 0x80 {
        is_ascii_letter(c) || is_ascii_digit(c)
    } else {
        is_alphanumeric_beyond_ascii(c)
    }
}

/// `char::is_alphabetic`: whether the character has the Unicode
/// `Alphabetic` property; among ASCII characters, the letters.
#[verifier::external_body]
fn char_is_alphabetic(c: char) -> (r: bool)
    ensures
        r == is_alphabetic(c),
        (c as u32) >= 0x80 ==> r == is_alphabetic_beyond_ascii(c),
{
    c.is_alphabetic()
}

/// `char::is_alphanumeric`: whether the character is alphabetic or
/// numeric in the Unicode sense; among ASCII characters, the letters and
/// digits.
#[verifier::external_body]
fn char_is_alphanumeric(c: char) -> (r: bool)
    ensures
        r == is_alphanumeric(c),
        (c as u32) >= 0x80 ==> r == is_alphanumeric_beyond_ascii(c),
{
    c.is_alphanumeric()
}

/// Number of bytes of the UTF-8 encoding of `c`.
fn width(c: char) -> (r: usize)
    ensures
        r == char_width(c),
{
    let n = c as u32;
    if n < 0x80 {
        1
    } else if n < 0x800 {
        2
    } else if n < 0x10000 {
        3
    } else {
        4
    }
}

/// Index of the first character at or after `i` that is neither white
/// space nor in a comment. A comment starts with `#` not followed by `#`
/// or `!`, and runs to the end of the line.
pub open spec fn skip_ws(s: Seq<char>, i: int) -> int
    decreases s.len() - i,
{
    if 0 <= i < s.len() {
        if is_white_space(s[i]) {
            skip_ws(s, i + 1)
        } else if s[i] == '#' && !(i + 1 < s.len() && (s[i + 1] == '#' || s[i + 1] == '!')) {
            skip_comment(s, i + 1)
        } else {
            i
        }
    } else {
        i
    }
}

/// `skip_ws` from inside a comment: past the end of the line first.
pub open spec fn skip_comment(s: Seq<char>, i: int) -> int
    decreases s.len() - i,
{
    if 0 <= i < s.len() {
        if s[i] == '\n' {
            skip_ws(s, i + 1)
        } else {
            skip_comment(s, i + 1)
        }
    } else {
        i
    }
}

pub proof fn lemma_skip_ws_bounds(s: Seq<char>, i: int)
    requires
        0 <= i <= s.len(),
    ensures
        i <= skip_ws(s, i) <= s.len(),
        skip_ws(s, i) < s.len() ==> !is_white_space(s[skip_ws(s, i)]),
        skip_ws(s, skip_ws(s, i)) == skip_ws(s, i),
    decreases s.len() - i,
{
    if i < s.len() {
        if is_white_space(s[i]) {
            lemma_skip_ws_bounds(s, i + 1);
        } else if s[i] == '#' && !(i + 1 < s.len() && (s[i + 1] == '#' || s[i + 1] == '!')) {
            lemma_skip_comment_bounds(s, i + 1);
        }
    }
}

pub proof fn lemma_skip_comment_bounds(s: Seq<char>, i: int)
    requires
        0 <= i <= s.len(),
    ensures
        i <= skip_comment(s, i) <= s.len(),
        skip_comment(s, i) < s.len() ==> !is_white_space(s[skip_comment(s, i)]),
        skip_ws(s, skip_comment(s, i)) == skip_comment(s, i),
    decreases s.len() - i,
{
    if i < s.len() {
        if s[i] == '\n' {
            lemma_skip_ws_bounds(s, i + 1);
        } else {
            lemma_skip_comment_bounds(s, i + 1);
        }
    }
}

/// Parse error.
#[derive(Debug)]
pub enum Error {
    InvalidIriRef(String),
    InvalidIri(String),
    Unexpected(Unexpected),
    UnexpectedKeyword(Keyword),
    UnknownKeyword(String),
}

/// Parse error, with text as character sequences.
pub enum ErrorModel {
    InvalidIriRef(Seq<char>),
    InvalidIri(Seq<char>),
    Unexpected(Option<char>),
    UnexpectedKeyword(Keyword),
    UnknownKeyword(Seq<char>),
}

pub open spec fn error_model(e: Error) -> ErrorModel {
    match e {
        Error::InvalidIriRef(s) => ErrorModel::InvalidIriRef(s@),
        Error::InvalidIri(s) => ErrorModel::InvalidIri(s@),
        Error::Unexpected(u) => ErrorModel::Unexpected(u.0),
        Error::UnexpectedKeyword(k) => ErrorModel::UnexpectedKeyword(k),
        Error::UnknownKeyword(s) => ErrorModel::UnknownKeyword(s@),
    }
}

/// Parse error with its span.
pub type MetaError = Meta<Error, Span>;

/// What a parse gives on the characters of a text from a given index: the
/// value, its span and the index after it, or an error and its span.
pub type Outcome<V> = Result<(V, Span, int), (ErrorModel, Span)>;

/// Whether an executable parse result is the outcome `p`, its value taken
/// through `model`.
pub open spec fn agrees<T, V>(r: Result<Meta<T, Span>, MetaError>, p: Outcome<V>, model: spec_fn(T) -> V) -> bool {
    match (r, p) {
        (Ok(m), Ok((v, sp, _))) => model(m.0) == v && m.1 == sp,
        (Err(e), Err((ev, sp))) => error_model(e.0) == ev && e.1 == sp,
        _ => false,
    }
}

/// Where a successful parse ends.
pub open spec fn end_of<V>(p: Outcome<V>) -> int {
    match p {
        Ok((_, _, end)) => end,
        Err(_) => 0,
    }
}

/// Cursor over the characters of a text.
pub struct Parser<'a> {
    input: &'a [char],
    index: usize,
    position: usize,
    last_position: usize,
}

impl<'a> Parser<'a> {
    /// The characters being parsed.
    pub closed spec fn text(&self) -> Seq<char> {
        self.input@
    }

    /// Number of characters read so far.
    pub closed spec fn cursor(&self) -> int {
        self.index as int
    }

    pub closed spec fn wf(&self) -> bool {
        &&& self.index <= self.input@.len()
        &&& offset(self.input@, self.input@.len() as int) <= usize::MAX
        &&& self.position == offset(self.input@, self.index as int)
        &&& self.index == 0 ==> self.last_position == 0
        &&& self.index > 0 ==> self.last_position == offset(self.input@, self.index - 1)
    }

    pub proof fn lemma_wf(&self)
        requires
            self.wf(),
        ensures
            0 <= self.cursor() <= self.text().len(),
            offset(self.text(), self.text().len() as int) <= usize::MAX,
    {
    }

    /// A parser at the start of `input`.
    pub fn new(input: &'a [char]) -> (r: Parser<'a>)
        requires
            offset(input@, input@.len() as int) <= usize::MAX,
        ensures
            r.wf(),
            r.text() == input@,
            r.cursor() == 0,
    {
        Parser { input, index: 0, position: 0, last_position: 0 }
    }

    /// Byte offset of the cursor.
    pub fn position(&self) -> (r: usize)
        requires
            self.wf(),
        ensures
            r == offset(self.text(), self.cursor()),
    {
        self.position
    }

    /// Span of the last character read.
    pub fn last_char_span(&self) -> (r: Span)
        requires
            self.wf(),
        ensures
            r == last_char_span(self.text(), self.cursor()),
    {
        proof {
            if self.index > 0 {
                lemma_offset_monotonic(self.input@, self.index - 1, self.input@.len() as int);
            }
        }
        Span { start: self.last_position, end: self.position }
    }

    /// The next character, not read.
    pub fn peek(&self) -> (r: Option<char>)
        requires
            self.wf(),
        ensures
            r == (if self.cursor() < self.text().len() {
                Some(self.text()[self.cursor()])
            } else {
                None::<char>
            }),
    {
        if self.index < self.input.len() {
            Some(self.input[self.index])
        } else {
            None
        }
    }

    /// The character after the next, not read.
    pub fn peek2(&self) -> (r: Option<char>)
        requires
            self.wf(),
        ensures
            r == (if self.cursor() + 1 < self.text().len() {
                Some(self.text()[self.cursor() + 1])
            } else {
                None::<char>
            }),
    {
        if self.index < self.input.len() && self.index + 1 < self.input.len() {
            Some(self.input[self.index + 1])
        } else {
            None
        }
    }

    /// Reads the next character.
    pub fn next_char(&mut self) -> (r: Option<char>)
        requires
            old(self).wf(),
        ensures
            final(self).wf(),
            final(self).text() == old(self).text(),
            old(self).cursor() < old(self).text().len() ==> r == Some(old(self).text()[old(self).cursor()])
                && final(self).cursor() == old(self).cursor() + 1,
            old(self).cursor() >= old(self).text().len() ==> r is None && final(self).cursor() == old(self).cursor(),
    {
        if self.index < self.input.len() {
            let c = self.input[self.index];
            proof {
                lemma_offset_monotonic(self.input@, self.index + 1, self.input@.len() as int);
            }
            self.last_position = self.position;
            self.position = self.position + width(c);
            self.index = self.index + 1;
            Some(c)
        } else {
            None
        }
    }

    /// Reads the next character; the end of the input is an error.
    pub fn expect(&mut self) -> (r: Result<char, MetaError>)
        requires
            old(self).wf(),
        ensures
            final(self).wf(),
            final(self).text() == old(self).text(),
            old(self).cursor() < old(self).text().len() ==> r == Ok::<char, MetaError>(old(self).text()[old(self).cursor()])
                && final(self).cursor() == old(self).cursor() + 1,
            old(self).cursor() >= old(self).text().len() ==> final(self).cursor() == old(self).cursor() && match r {
                Ok(_) => false,
                Err(e) => error_model(e.0) == ErrorModel::Unexpected(None) && e.1 == span_of(
                    old(self).text(),
                    old(self).cursor(),
                    old(self).cursor(),
                ),
            },
    {
        match self.next_char() {
            Some(c) => Ok(c),
            None => Err(Meta(Error::Unexpected(Unexpected(None)), Span { start: self.position, end: self.position })),
        }
    }

    /// Skips white space and comments; gives the byte offset reached.
    pub fn skip_whitespaces(&mut self) -> (r: usize)
        requires
            old(self).wf(),
        ensures
            final(self).wf(),
            final(self).text() == old(self).text(),
            final(self).cursor() == skip_ws(old(self).text(), old(self).cursor()),
            r == offset(final(self).text(), final(self).cursor()),
    {
        let ghost s = self.input@;
        let ghost target = skip_ws(s, self.index as int);
        loop
            invariant
                self.wf(),
                self.input@ == s,
                skip_ws(s, self.index as int) == target,
            ensures
                skip_ws(s, self.index as int) == self.index,
            decreases s.len() - self.index,
        {
            match self.peek() {
                Some(c) => {
                    let next = self.peek2();
                    let comment = c == '#' && !(next == Some('#') || next == Some('!'));
                    if char_is_whitespace(c) {
                        self.next_char();
                    } else if comment {
                        self.next_char();
                        let ghost start = self.index;
                        loop
                            invariant_except_break
                                skip_comment(s, self.index as int) == target,
                            invariant
                                self.wf(),
                                self.input@ == s,
                                self.index >= start,
                            ensures
                                skip_ws(s, self.index as int) == target,
                            decreases s.len() - self.index,
                        {
                            match self.next_char() {
                                Some(c) => {
                                    if c == '\n' {
                                        break;
                                    }
                                },
                                None => {
                                    break;
                                },
                            }
                        }
                    } else {
                        break;
                    }
                },
                None => {
                    break;
                },
            }
        }
        self.position
    }
}


/// Whether the parse from `before` to `after` gave `r`, the outcome `p`
/// (its value taken through `model`), and stopped where `p` ends.
pub open spec fn parsed<'a, T, V>(
    before: Parser<'a>,
    after: Parser<'a>,
    r: Result<Meta<T, Span>, MetaError>,
    p: Outcome<V>,
    model: spec_fn(T) -> V,
) -> bool {
    &&& after.wf()
    &&& after.text() == before.text()
    &&& agrees(r, p, model)
    &&& r is Ok ==> before.cursor() <= after.cursor() && after.cursor() == end_of(p)
}

/// `String::push`: appends `c` to `s`.
#[verifier::external_body]
pub(crate) fn push_char(s: &mut String, c: char)
    ensures
        final(s)@ == old(s)@.push(c),
{
    s.push(c)
}

/// The error of reading the character at `i` where it does not fit: that
/// character (or the end of the input) with the span of the last
/// character read.
pub open spec fn unexpected_at<V>(s: Seq<char>, i: int) -> Outcome<V> {
    if 0 <= i < s.len() {
        Err((ErrorModel::Unexpected(Some(s[i])), last_char_span(s, i + 1)))
    } else {
        Err((ErrorModel::Unexpected(None), last_char_span(s, i)))
    }
}

/// Index of the first white space character at or after `i` (or the end).
pub open spec fn word_end(s: Seq<char>, i: int) -> int
    decreases s.len() - i,
{
    if 0 <= i < s.len() && !is_white_space(s[i]) {
        word_end(s, i + 1)
    } else {
        i
    }
}

pub proof fn lemma_word_end_bounds(s: Seq<char>, i: int)
    requires
        0 <= i <= s.len(),
    ensures
        i <= word_end(s, i) <= s.len(),
    decreases s.len() - i,
{
    if i < s.len() && !is_white_space(s[i]) {
        lemma_word_end_bounds(s, i + 1);
    }
}

/// The keyword spelled `w`.
pub open spec fn keyword_named(w: Seq<char>) -> Option<Keyword> {
    if w == keyword_text(Keyword::Base) {
        Some(Keyword::Base)
    } else if w == keyword_text(Keyword::Prefix) {
        Some(Keyword::Prefix)
    } else if w == keyword_text(Keyword::Group) {
        Some(Keyword::Group)
    } else if w == keyword_text(Keyword::Rule) {
        Some(Keyword::Rule)
    } else if w == keyword_text(Keyword::ForAll) {
        Some(Keyword::ForAll)
    } else if w == keyword_text(Keyword::Exists) {
        Some(Keyword::Exists)
    } else {
        None
    }
}

/// A keyword: a word (up to white space) starting with a letter.
pub open spec fn parse_keyword(s: Seq<char>, i: int) -> Outcome<Keyword> {
    let start = skip_ws(s, i);
    if 0 <= start < s.len() && is_alphabetic(s[start]) {
        let end = word_end(s, start + 1);
        let w = s.subrange(start, end);
        match keyword_named(w) {
            Some(k) => Ok((k, span_of(s, start, end), end)),
            None => Err((ErrorModel::UnknownKeyword(w), span_of(s, start, end))),
        }
    } else {
        unexpected_at(s, start)
    }
}

/// Reads characters up to white space or the end, appending them to `buffer`.
fn read_word(parser: &mut Parser, buffer: &mut String)
    requires
        old(parser).wf(),
    ensures
        final(parser).wf(),
        final(parser).text() == old(parser).text(),
        final(parser).cursor() == word_end(old(parser).text(), old(parser).cursor()),
        final(buffer)@ == old(buffer)@ + old(parser).text().subrange(old(parser).cursor(), final(parser).cursor()),
{
    let ghost s = parser.text();
    let ghost start = parser.cursor();
    let ghost b0 = buffer@;
    proof {
        parser.lemma_wf();
        lemma_word_end_bounds(s, start);
    }
    loop
        invariant
            parser.wf(),
            parser.text() == s,
            start <= parser.cursor() <= word_end(s, start),
            word_end(s, parser.cursor()) == word_end(s, start),
            buffer@ == b0 + s.subrange(start, parser.cursor()),
        ensures
            parser.cursor() == word_end(s, start),
        decreases s.len() - parser.cursor(),
    {
        proof {
            parser.lemma_wf();
        }
        match parser.peek() {
            Some(c) => {
                if char_is_whitespace(c) {
                    break;
                }
                proof {
                    lemma_word_end_bounds(s, parser.cursor() + 1);
                }
                parser.next_char();
                push_char(buffer, c);
                assert(buffer@ =~= b0 + s.subrange(start, parser.cursor()));
            },
            None => {
                break;
            },
        }
    }
}

/// The keyword spelled by `w`.
fn keyword_of(w: &String) -> (r: Option<Keyword>)
    ensures
        r == keyword_named(w@),
{
    let all = [Keyword::Base, Keyword::Prefix, Keyword::Group, Keyword::Rule, Keyword::ForAll, Keyword::Exists];
    let mut i: usize = 0;
    while i < 6
        invariant
            0 <= i <= 6,
            all@ == seq![Keyword::Base, Keyword::Prefix, Keyword::Group, Keyword::Rule, Keyword::ForAll, Keyword::Exists],
            forall|j: int| 0 <= j < i ==> w@ != keyword_text(#[trigger] all@[j]),
        decreases 6 - i,
    {
        let k = all[i];
        let text = String::from_str(k.as_str());
        if *w == text {
            return Some(k);
        }
        i = i + 1;
    }
    assert(w@ != keyword_text(all@[0]));
    assert(w@ != keyword_text(all@[1]));
    assert(w@ != keyword_text(all@[2]));
    assert(w@ != keyword_text(all@[3]));
    assert(w@ != keyword_text(all@[4]));
    assert(w@ != keyword_text(all@[5]));
    None
}

impl Keyword {
    /// Parses a keyword.
    pub fn parse_with(parser: &mut Parser) -> (r: Result<Meta<Keyword, Span>, MetaError>)
        requires
            old(parser).wf(),
        ensures
            parsed(*old(parser), *final(parser), r, parse_keyword(old(parser).text(), old(parser).cursor()), |k: Keyword| k),
    {
        let ghost s = parser.text();
        let start_index = parser.skip_whitespaces();
        let ghost start = parser.cursor();
        proof {
            parser.lemma_wf();
        }
        let mut buffer = String::new();
        match parser.next_char() {
            Some(c) => {
                if char_is_alphabetic(c) {
                    push_char(&mut buffer, c);
                    read_word(parser, &mut buffer);
                    proof {
                        parser.lemma_wf();
                        lemma_word_end_bounds(s, start + 1);
                    }
                    assert(buffer@ =~= s.subrange(start, parser.cursor()));
                } else {
                    return Err(Meta(Error::Unexpected(Unexpected(Some(c))), parser.last_char_span()));
                }
            },
            None => {
                return Err(Meta(Error::Unexpected(Unexpected(None)), parser.last_char_span()));
            },
        }
        let span = Span::new(start_index, parser.position());
        proof {
            lemma_skip_ws_bounds(s, old(parser).cursor());
            assert(span == span_of(s, start, parser.cursor()));
            assert(parser.cursor() == word_end(s, start + 1));
        }
        match keyword_of(&buffer) {
            Some(k) => Ok(Meta(k, span)),
            None => Err(Meta(Error::UnknownKeyword(buffer), span)),
        }
    }
}


/// Whether `c` may continue a prefix.
pub open spec fn prefix_char(c: char) -> bool {
    is_alphanumeric(c) || c == '+' || c == '-' || c == '.'
}

/// End of the run of prefix characters from `i`.
pub open spec fn prefix_end(s: Seq<char>, i: int) -> int
    decreases s.len() - i,
{
    if 0 <= i < s.len() && prefix_char(s[i]) {
        prefix_end(s, i + 1)
    } else {
        i
    }
}

/// End of the run of alphanumeric characters from `i`.
pub open spec fn name_end(s: Seq<char>, i: int) -> int
    decreases s.len() - i,
{
    if 0 <= i < s.len() && is_alphanumeric(s[i]) {
        name_end(s, i + 1)
    } else {
        i
    }
}

pub proof fn lemma_prefix_end_bounds(s: Seq<char>, i: int)
    requires
        0 <= i <= s.len(),
    ensures
        i <= prefix_end(s, i) <= s.len(),
    decreases s.len() - i,
{
    if i < s.len() && prefix_char(s[i]) {
        lemma_prefix_end_bounds(s, i + 1);
    }
}

pub proof fn lemma_name_end_bounds(s: Seq<char>, i: int)
    requires
        0 <= i <= s.len(),
    ensures
        i <= name_end(s, i) <= s.len(),
    decreases s.len() - i,
{
    if i < s.len() && is_alphanumeric(s[i]) {
        lemma_name_end_bounds(s, i + 1);
    }
}

/// A prefix: a letter, then letters, digits, `+`, `-` or `.`.
pub open spec fn parse_prefix(s: Seq<char>, i: int) -> Outcome<Seq<char>> {
    let start = skip_ws(s, i);
    if 0 <= start < s.len() && is_alphabetic(s[start]) {
        let end = prefix_end(s, start + 1);
        Ok((s.subrange(start, end), span_of(s, start, end), end))
    } else {
        unexpected_at(s, start)
    }
}

/// A variable: `?`, a letter, then letters or digits; its name leaves
/// out the `?`.
pub open spec fn parse_var(s: Seq<char>, i: int) -> Outcome<Seq<char>> {
    let start = skip_ws(s, i);
    if 0 <= start < s.len() && s[start] == '?' {
        if start + 1 < s.len() && is_alphabetic(s[start + 1]) {
            let end = name_end(s, start + 2);
            Ok((s.subrange(start + 1, end), span_of(s, start, end), end))
        } else {
            unexpected_at(s, start + 1)
        }
    } else {
        unexpected_at(s, start)
    }
}

/// A single character token `t` after white space.
pub open spec fn parse_token(s: Seq<char>, i: int, t: char) -> Outcome<()> {
    let start = skip_ws(s, i);
    if 0 <= start < s.len() && s[start] == t {
        Ok(((), span_of(s, start, start + 1), start + 1))
    } else {
        unexpected_at(s, start)
    }
}

/// A trust mark: `.` trusted, `!` untrusted.
pub open spec fn parse_trust(s: Seq<char>, i: int) -> Outcome<Trust> {
    let start = skip_ws(s, i);
    if 0 <= start < s.len() && (s[start] == '.' || s[start] == '!') {
        Ok((if s[start] == '.' { Trust::Trusted } else { Trust::Untrusted }, span_of(s, start, start + 1), start + 1))
    } else {
        unexpected_at(s, start)
    }
}

/// Reads characters while they may continue a prefix, appending them.
fn read_prefix_tail(parser: &mut Parser, buffer: &mut String)
    requires
        old(parser).wf(),
    ensures
        final(parser).wf(),
        final(parser).text() == old(parser).text(),
        final(parser).cursor() == prefix_end(old(parser).text(), old(parser).cursor()),
        final(buffer)@ == old(buffer)@ + old(parser).text().subrange(old(parser).cursor(), final(parser).cursor()),
{
    let ghost s = parser.text();
    let ghost start = parser.cursor();
    let ghost b0 = buffer@;
    proof {
        parser.lemma_wf();
        lemma_prefix_end_bounds(s, start);
    }
    loop
        invariant
            parser.wf(),
            parser.text() == s,
            start <= parser.cursor() <= prefix_end(s, start),
            prefix_end(s, parser.cursor()) == prefix_end(s, start),
            buffer@ == b0 + s.subrange(start, parser.cursor()),
        ensures
            parser.cursor() == prefix_end(s, start),
        decreases s.len() - parser.cursor(),
    {
        proof {
            parser.lemma_wf();
        }
        match parser.peek() {
            Some(c) => {
                if !(char_is_alphanumeric(c) || c == '+' || c == '-' || c == '.') {
                    break;
                }
                proof {
                    lemma_prefix_end_bounds(s, parser.cursor() + 1);
                }
                parser.next_char();
                push_char(buffer, c);
                assert(buffer@ =~= b0 + s.subrange(start, parser.cursor()));
            },
            None => {
                break;
            },
        }
    }
}

/// Reads alphanumeric characters, appending them.
fn read_name_tail(parser: &mut Parser, buffer: &mut String)
    requires
        old(parser).wf(),
    ensures
        final(parser).wf(),
        final(parser).text() == old(parser).text(),
        final(parser).cursor() == name_end(old(parser).text(), old(parser).cursor()),
        final(buffer)@ == old(buffer)@ + old(parser).text().subrange(old(parser).cursor(), final(parser).cursor()),
{
    let ghost s = parser.text();
    let ghost start = parser.cursor();
    let ghost b0 = buffer@;
    proof {
        parser.lemma_wf();
        lemma_name_end_bounds(s, start);
    }
    loop
        invariant
            parser.wf(),
            parser.text() == s,
            start <= parser.cursor() <= name_end(s, start),
            name_end(s, parser.cursor()) == name_end(s, start),
            buffer@ == b0 + s.subrange(start, parser.cursor()),
        ensures
            parser.cursor() == name_end(s, start),
        decreases s.len() - parser.cursor(),
    {
        proof {
            parser.lemma_wf();
        }
        match parser.peek() {
            Some(c) => {
                if !char_is_alphanumeric(c) {
                    break;
                }
                proof {
                    lemma_name_end_bounds(s, parser.cursor() + 1);
                }
                parser.next_char();
                push_char(buffer, c);
                assert(buffer@ =~= b0 + s.subrange(start, parser.cursor()));
            },
            None => {
                break;
            },
        }
    }
}

/// Reads one character, which must be `t`.
fn parse_token_with(parser: &mut Parser, t: char) -> (r: Result<Span, MetaError>)
    requires
        old(parser).wf(),
    ensures
        parsed(
            *old(parser),
            *final(parser),
            match r {
                Ok(sp) => Ok::<Meta<(), Span>, MetaError>(Meta((), sp)),
                Err(e) => Err(e),
            },
            parse_token(old(parser).text(), old(parser).cursor(), t),
            |u: ()| u,
        ),
{
    let ghost s = parser.text();
    let start_index = parser.skip_whitespaces();
    proof {
        lemma_skip_ws_bounds(s, old(parser).cursor());
    }
    match parser.next_char() {
        Some(c) => {
            if c == t {
                Ok(Span::new(start_index, parser.position()))
            } else {
                Err(Meta(Error::Unexpected(Unexpected(Some(c))), parser.last_char_span()))
            }
        },
        None => Err(Meta(Error::Unexpected(Unexpected(None)), parser.last_char_span())),
    }
}

impl Prefix {
    /// Parses a prefix.
    pub fn parse_with(parser: &mut Parser) -> (r: Result<Meta<Prefix, Span>, MetaError>)
        requires
            old(parser).wf(),
        ensures
            parsed(*old(parser), *final(parser), r, parse_prefix(old(parser).text(), old(parser).cursor()), |p: Prefix| p.0@),
    {
        let ghost s = parser.text();
        let start_index = parser.skip_whitespaces();
        let ghost start = parser.cursor();
        proof {
            lemma_skip_ws_bounds(s, old(parser).cursor());
        }
        let mut buffer = String::new();
        match parser.next_char() {
            Some(c) => {
                if char_is_alphabetic(c) {
                    push_char(&mut buffer, c);
                    read_prefix_tail(parser, &mut buffer);
                    proof {
                        parser.lemma_wf();
                        lemma_prefix_end_bounds(s, start + 1);
                    }
                    assert(buffer@ =~= s.subrange(start, parser.cursor()));
                } else {
                    return Err(Meta(Error::Unexpected(Unexpected(Some(c))), parser.last_char_span()));
                }
            },
            None => {
                return Err(Meta(Error::Unexpected(Unexpected(None)), parser.last_char_span()));
            },
        }
        Ok(Meta(Prefix(buffer), Span::new(start_index, parser.position())))
    }
}

impl VarIdent {
    /// Parses a variable.
    pub fn parse_with(parser: &mut Parser) -> (r: Result<Meta<VarIdent, Span>, MetaError>)
        requires
            old(parser).wf(),
        ensures
            parsed(*old(parser), *final(parser), r, parse_var(old(parser).text(), old(parser).cursor()), |x: VarIdent| x.0@),
    {
        let ghost s = parser.text();
        let start_index = parser.skip_whitespaces();
        let ghost start = parser.cursor();
        proof {
            lemma_skip_ws_bounds(s, old(parser).cursor());
        }
        match parser.next_char() {
            Some(c) => {
                if c != '?' {
                    return Err(Meta(Error::Unexpected(Unexpected(Some(c))), parser.last_char_span()));
                }
            },
            None => {
                return Err(Meta(Error::Unexpected(Unexpected(None)), parser.last_char_span()));
            },
        }
        let mut buffer = String::new();
        match parser.next_char() {
            Some(c) => {
                if char_is_alphabetic(c) {
                    push_char(&mut buffer, c);
                    read_name_tail(parser, &mut buffer);
                    proof {
                        parser.lemma_wf();
                        lemma_name_end_bounds(s, start + 2);
                    }
                    assert(buffer@ =~= s.subrange(start + 1, parser.cursor()));
                } else {
                    return Err(Meta(Error::Unexpected(Unexpected(Some(c))), parser.last_char_span()));
                }
            },
            None => {
                return Err(Meta(Error::Unexpected(Unexpected(None)), parser.last_char_span()));
            },
        }
        Ok(Meta(VarIdent(buffer), Span::new(start_index, parser.position())))
    }
}

impl Dot {
    /// Parses a `.`.
    pub fn parse_with(parser: &mut Parser) -> (r: Result<Meta<Dot, Span>, MetaError>)
        requires
            old(parser).wf(),
        ensures
            parsed(*old(parser), *final(parser), r, parse_token(old(parser).text(), old(parser).cursor(), '.'), |d: Dot| ()),
    {
        match parse_token_with(parser, '.') {
            Ok(sp) => Ok(Meta(Dot, sp)),
            Err(e) => Err(e),
        }
    }
}

impl Colon {
    /// Parses a `:`.
    pub fn parse_with(parser: &mut Parser) -> (r: Result<Meta<Colon, Span>, MetaError>)
        requires
            old(parser).wf(),
        ensures
            parsed(*old(parser), *final(parser), r, parse_token(old(parser).text(), old(parser).cursor(), ':'), |c: Colon| ()),
    {
        match parse_token_with(parser, ':') {
            Ok(sp) => Ok(Meta(Colon, sp)),
            Err(e) => Err(e),
        }
    }
}

/// Parses a trust mark.
pub fn parse_trust_with(parser: &mut Parser) -> (r: Result<Meta<Trust, Span>, MetaError>)
    requires
        old(parser).wf(),
    ensures
        parsed(*old(parser), *final(parser), r, parse_trust(old(parser).text(), old(parser).cursor()), |t: Trust| t),
{
    let ghost s = parser.text();
    let start_index = parser.skip_whitespaces();
    proof {
        lemma_skip_ws_bounds(s, old(parser).cursor());
    }
    let t = match parser.next_char() {
        Some('.') => Trust::Trusted,
        Some('!') => Trust::Untrusted,
        u => {
            return Err(Meta(Error::Unexpected(Unexpected(u)), parser.last_char_span()));
        },
    };
    Ok(Meta(t, Span::new(start_index, parser.position())))
}


/// Index of the first line feed at or after `i` (or the end).
pub open spec fn line_end(s: Seq<char>, i: int) -> int
    decreases s.len() - i,
{
    if 0 <= i < s.len() && s[i] != '\n' {
        line_end(s, i + 1)
    } else {
        i
    }
}

pub proof fn lemma_line_end_bounds(s: Seq<char>, i: int)
    requires
        0 <= i <= s.len(),
    ensures
        i <= line_end(s, i) <= s.len(),
        line_end(s, i) < s.len() ==> s[line_end(s, i)] == '\n',
    decreases s.len() - i,
{
    if i < s.len() && s[i] != '\n' {
        lemma_line_end_bounds(s, i + 1);
    }
}

/// The documentation lines (`#` then `mark`, up to the end of the line)
/// from `j` on, each followed by white space: their texts, without the
/// two marks, and the index after them.
pub open spec fn doc_lines(s: Seq<char>, j: int, mark: char) -> (Seq<Seq<char>>, int)
    decreases s.len() - j,
{
    if 0 <= j && j + 1 < s.len() && s[j] == '#' && s[j + 1] == mark {
        let e = line_end(s, j + 2);
        let next = if e < s.len() { e + 1 } else { e };
        proof {
            lemma_line_end_bounds(s, j + 2);
            lemma_skip_ws_bounds(s, next);
        }
        let rest = doc_lines(s, skip_ws(s, next), mark);
        (seq![s.subrange(j + 2, e)] + rest.0, rest.1)
    } else {
        (Seq::empty(), j)
    }
}

pub proof fn lemma_doc_lines_bounds(s: Seq<char>, j: int, mark: char)
    requires
        0 <= j <= s.len(),
    ensures
        j <= doc_lines(s, j, mark).1 <= s.len(),
    decreases s.len() - j,
{
    if j + 1 < s.len() && s[j] == '#' && s[j + 1] == mark {
        let e = line_end(s, j + 2);
        let next = if e < s.len() { e + 1 } else { e };
        lemma_line_end_bounds(s, j + 2);
        lemma_skip_ws_bounds(s, next);
        lemma_doc_lines_bounds(s, skip_ws(s, next), mark);
    }
}

/// Documentation: the lines starting with `#` and `mark`.
pub open spec fn parse_documentation(s: Seq<char>, i: int, mark: char) -> (Seq<Seq<char>>, Span, int) {
    let start = skip_ws(s, i);
    let lines = doc_lines(s, start, mark);
    (lines.0, span_of(s, start, lines.1), lines.1)
}

/// Reads the documentation lines that start with `#` and `mark`.
pub fn parse_documentation_with(parser: &mut Parser, mark: char) -> (r: Meta<Documentation, Span>)
    requires
        old(parser).wf(),
    ensures
        final(parser).wf(),
        final(parser).text() == old(parser).text(),
        ({
            let p = parse_documentation(old(parser).text(), old(parser).cursor(), mark);
            &&& r.0.lines@.map_values(|x: String| x@) == p.0
            &&& r.1 == p.1
            &&& final(parser).cursor() == p.2
        }),
{
    let ghost s = parser.text();
    let start_index = parser.skip_whitespaces();
    let ghost start = parser.cursor();
    proof {
        lemma_skip_ws_bounds(s, old(parser).cursor());
        lemma_doc_lines_bounds(s, start, mark);
    }
    let mut lines: Vec<String> = Vec::new();
    loop
        invariant
            parser.wf(),
            parser.text() == s,
            start <= parser.cursor() <= s.len(),
            doc_lines(s, start, mark).0 == lines@.map_values(|x: String| x@) + doc_lines(s, parser.cursor(), mark).0,
            doc_lines(s, parser.cursor(), mark).1 == doc_lines(s, start, mark).1,
        ensures
            doc_lines(s, parser.cursor(), mark).0 == Seq::<Seq<char>>::empty(),
            doc_lines(s, parser.cursor(), mark).1 == parser.cursor(),
        decreases s.len() - parser.cursor(),
    {
        let ghost j = parser.cursor();
        let c = parser.peek();
        let c2 = parser.peek2();
        if c == Some('#') && c2 == Some(mark) {
            parser.next_char();
            parser.next_char();
            proof {
                lemma_line_end_bounds(s, j + 2);
            }
            let mut buffer = String::new();
            loop
                invariant_except_break
                    parser.cursor() <= line_end(s, j + 2),
                    line_end(s, parser.cursor()) == line_end(s, j + 2),
                    buffer@ == s.subrange(j + 2, parser.cursor()),
                invariant
                    parser.wf(),
                    parser.text() == s,
                    j + 2 <= parser.cursor() <= s.len(),
                    line_end(s, j + 2) <= s.len(),
                ensures
                    buffer@ == s.subrange(j + 2, line_end(s, j + 2)),
                    parser.cursor() == (if line_end(s, j + 2) < s.len() {
                        line_end(s, j + 2) + 1
                    } else {
                        line_end(s, j + 2)
                    }),
                decreases s.len() - parser.cursor(),
            {
                proof {
                    parser.lemma_wf();
                    lemma_line_end_bounds(s, parser.cursor());
                    if parser.cursor() < s.len() {
                        lemma_line_end_bounds(s, parser.cursor() + 1);
                    }
                }
                match parser.next_char() {
                    Some(c) => {
                        if c == '\n' {
                            break;
                        }
                        push_char(&mut buffer, c);
                        assert(buffer@ =~= s.subrange(j + 2, parser.cursor()));
                    },
                    None => {
                        break;
                    },
                }
            }
            let ghost before_lines = lines@.map_values(|x: String| x@);
            lines.push(buffer);
            assert(lines@.map_values(|x: String| x@) =~= before_lines.push(s.subrange(j + 2, line_end(s, j + 2))));
            let ghost next = parser.cursor();
            parser.skip_whitespaces();
            proof {
                lemma_skip_ws_bounds(s, next);
                assert(doc_lines(s, j, mark).0 == seq![s.subrange(j + 2, line_end(s, j + 2))] + doc_lines(
                    s,
                    parser.cursor(),
                    mark,
                ).0);
                assert(before_lines + doc_lines(s, j, mark).0 =~= lines@.map_values(|x: String| x@) + doc_lines(
                    s,
                    parser.cursor(),
                    mark,
                ).0);
            }
        } else {
            break;
        }
    }
    Meta(Documentation { lines }, Span::new(start_index, parser.position()))
}

/// Whether `s` is an IRI reference (RFC 3987 `IRI-reference`).
pub uninterp spec fn is_iri_reference(s: Seq<char>) -> bool;

/// Whether `s` is an IRI (RFC 3987 `IRI`).
pub uninterp spec fn is_iri(s: Seq<char>) -> bool;

/// `iref::IriRefBuf::new`: checks `s` against the `IRI-reference` grammar;
/// the reference it builds holds `s` unchanged, and so does its error.
#[verifier::external_body]
pub(crate) fn new_iri_ref(s: String) -> (r: Result<String, String>)
    ensures
        r is Ok <==> is_iri_reference(s@),
        match r {
            Ok(t) => t@ == s@,
            Err(t) => t@ == s@,
        },
{
    match iref::IriRefBuf::new(s) {
        Ok(i) => Ok(String::from(i)),
        Err(iref::iri::InvalidIriRef(t)) => Err(t),
    }
}

/// `iref::IriBuf::new`: checks `s` against the `IRI` grammar; the IRI it
/// builds holds `s` unchanged, and so does its error.
#[verifier::external_body]
pub(crate) fn new_iri(s: String) -> (r: Result<String, String>)
    ensures
        r is Ok <==> is_iri(s@),
        match r {
            Ok(t) => t@ == s@,
            Err(t) => t@ == s@,
        },
{
    match iref::IriBuf::new(s) {
        Ok(i) => Ok(String::from(i)),
        Err(iref::InvalidIri(t)) => Err(t),
    }
}

/// Index of the `>` that closes an IRI started before `k`: the first `>`
/// followed by white space or the end (the end if there is none).
pub open spec fn iri_close(s: Seq<char>, k: int) -> int
    decreases s.len() - k,
{
    if 0 <= k < s.len() {
        if s[k] == '>' && (k + 1 >= s.len() || is_white_space(s[k + 1])) {
            k
        } else {
            iri_close(s, k + 1)
        }
    } else {
        k
    }
}

pub proof fn lemma_iri_close_bounds(s: Seq<char>, k: int)
    requires
        0 <= k <= s.len(),
    ensures
        k <= iri_close(s, k) <= s.len(),
    decreases s.len() - k,
{
    if k < s.len() && !(s[k] == '>' && (k + 1 >= s.len() || is_white_space(s[k + 1]))) {
        lemma_iri_close_bounds(s, k + 1);
    }
}

/// An IRI (`iri`) or IRI reference between `<` and `>`.
pub open spec fn parse_bracketed(s: Seq<char>, i: int, iri: bool) -> Outcome<Seq<char>> {
    let start = skip_ws(s, i);
    if 0 <= start < s.len() && s[start] == '<' {
        let close = iri_close(s, start + 1);
        if close < s.len() {
            let content = s.subrange(start + 1, close);
            let span = span_of(s, start, close + 1);
            if iri {
                if is_iri(content) {
                    Ok((content, span, close + 1))
                } else {
                    Err((ErrorModel::InvalidIri(content), span))
                }
            } else {
                if is_iri_reference(content) {
                    Ok((content, span, close + 1))
                } else {
                    Err((ErrorModel::InvalidIriRef(content), span))
                }
            }
        } else {
            Err((ErrorModel::Unexpected(None), span_of(s, s.len() as int, s.len() as int)))
        }
    } else {
        unexpected_at(s, start)
    }
}

/// Reads `<`, then characters up to the closing `>`.
fn read_bracketed(parser: &mut Parser) -> (r: Result<(usize, String), MetaError>)
    requires
        old(parser).wf(),
    ensures
        final(parser).wf(),
        final(parser).text() == old(parser).text(),
        ({
            let s = old(parser).text();
            let start = skip_ws(s, old(parser).cursor());
            match r {
                Ok((pos, content)) => 0 <= start < s.len() && s[start] == '<' && iri_close(s, start + 1) < s.len()
                    && pos == offset(s, start) && content@ == s.subrange(start + 1, iri_close(s, start + 1))
                    && final(parser).cursor() == iri_close(s, start + 1) + 1,
                Err(e) => Err::<(Seq<char>, Span, int), (ErrorModel, Span)>((error_model(e.0), e.1)) == parse_bracketed(s, old(parser).cursor(), true)
                    && Err::<(Seq<char>, Span, int), (ErrorModel, Span)>((error_model(e.0), e.1)) == parse_bracketed(s, old(parser).cursor(), false),
            }
        }),
        (0 <= skip_ws(old(parser).text(), old(parser).cursor()) < old(parser).text().len() && old(parser).text()[skip_ws(old(parser).text(), old(parser).cursor())] == '<'
            && iri_close(old(parser).text(), skip_ws(old(parser).text(), old(parser).cursor()) + 1) < old(parser).text().len()) ==> r is Ok,
{
    let ghost s = parser.text();
    let start_index = parser.skip_whitespaces();
    let ghost start = parser.cursor();
    proof {
        lemma_skip_ws_bounds(s, old(parser).cursor());
    }
    match parser.next_char() {
        Some('<') => {},
        u => {
            return Err(Meta(Error::Unexpected(Unexpected(u)), parser.last_char_span()));
        },
    }
    proof {
        lemma_iri_close_bounds(s, start + 1);
    }
    let mut buffer = String::new();
    loop
        invariant
            parser.wf(),
            parser.text() == s,
            s == old(parser).text(),
            start == skip_ws(s, old(parser).cursor()),
            0 <= start < s.len() && s[start] == '<',
            start_index == offset(s, start),
            iri_close(s, start + 1) <= s.len(),
            start + 1 <= parser.cursor() <= iri_close(s, start + 1),
            iri_close(s, parser.cursor()) == iri_close(s, start + 1),
            buffer@ == s.subrange(start + 1, parser.cursor()),
        decreases s.len() - parser.cursor(),
    {
        proof {
            parser.lemma_wf();
        }
        let c = parser.expect()?;
        if c == '>' && is_iri_ref_successor(parser.peek()) {
            return Ok((start_index, buffer));
        }
        proof {
            lemma_iri_close_bounds(s, parser.cursor());
        }
        push_char(&mut buffer, c);
        assert(buffer@ =~= s.subrange(start + 1, parser.cursor()));
    }
}


/// Parses an IRI reference between `<` and `>`.
pub fn parse_iri_ref_with(parser: &mut Parser) -> (r: Result<Meta<IriRefBuf, Span>, MetaError>)
    requires
        old(parser).wf(),
    ensures
        parsed(*old(parser), *final(parser), r, parse_bracketed(old(parser).text(), old(parser).cursor(), false), |x: IriRefBuf| x@),
{
    let ghost s = parser.text();
    proof {
        lemma_skip_ws_bounds(s, parser.cursor());
    }
    let (start_index, buffer) = match read_bracketed(parser) {
        Ok(x) => x,
        Err(e) => {
            return Err(e);
        },
    };
    proof {
        parser.lemma_wf();
        lemma_iri_close_bounds(s, skip_ws(s, old(parser).cursor()) + 1);
        lemma_offset_monotonic(s, skip_ws(s, old(parser).cursor()), parser.cursor());
    }
    let span = Span::new(start_index, parser.position());
    match IriRefBuf::new(buffer) {
        Ok(t) => Ok(Meta(t, span)),
        Err(t) => Err(Meta(Error::InvalidIriRef(t), span)),
    }
}

/// Parses an IRI between `<` and `>`.
pub fn parse_iri_with(parser: &mut Parser) -> (r: Result<Meta<IriBuf, Span>, MetaError>)
    requires
        old(parser).wf(),
    ensures
        parsed(*old(parser), *final(parser), r, parse_bracketed(old(parser).text(), old(parser).cursor(), true), |x: IriBuf| x@),
{
    let ghost s = parser.text();
    proof {
        lemma_skip_ws_bounds(s, parser.cursor());
    }
    let (start_index, buffer) = match read_bracketed(parser) {
        Ok(x) => x,
        Err(e) => {
            return Err(e);
        },
    };
    proof {
        parser.lemma_wf();
        lemma_iri_close_bounds(s, skip_ws(s, old(parser).cursor()) + 1);
        lemma_offset_monotonic(s, skip_ws(s, old(parser).cursor()), parser.cursor());
    }
    let span = Span::new(start_index, parser.position());
    match IriBuf::new(buffer) {
        Ok(t) => Ok(Meta(t, span)),
        Err(t) => Err(Meta(Error::InvalidIri(t), span)),
    }
}

/// An IRI reference: between `<` and `>` (expanded), or else a word
/// (compact).
pub open spec fn parse_iri_reference(s: Seq<char>, i: int) -> Outcome<IriReferenceModel> {
    let start = skip_ws(s, i);
    if 0 <= start < s.len() && s[start] == '<' {
        match parse_bracketed(s, start, false) {
            Ok((c, sp, end)) => Ok((IriReferenceModel::Expanded(c), sp, end)),
            Err(e) => Err(e),
        }
    } else {
        let end = word_end(s, start);
        let c = s.subrange(start, end);
        if is_iri_reference(c) {
            Ok((IriReferenceModel::Compact(c), span_of(s, start, end), end))
        } else {
            Err((ErrorModel::InvalidIriRef(c), span_of(s, start, end)))
        }
    }
}

pub proof fn lemma_skip_ws_idempotent(s: Seq<char>, i: int)
    requires
        0 <= i <= s.len(),
    ensures
        skip_ws(s, skip_ws(s, i)) == skip_ws(s, i),
{
    lemma_skip_ws_bounds(s, i);
}

impl IriReference {
    /// Parses an IRI reference, expanded or compact.
    pub fn parse_with(parser: &mut Parser) -> (r: Result<Meta<IriReference, Span>, MetaError>)
        requires
            old(parser).wf(),
        ensures
            parsed(*old(parser), *final(parser), r, parse_iri_reference(old(parser).text(), old(parser).cursor()), |x: IriReference| iri_reference_model(x)),
    {
        let ghost s = parser.text();
        let start_index = parser.skip_whitespaces();
        let ghost start = parser.cursor();
        proof {
            lemma_skip_ws_bounds(s, old(parser).cursor());
            lemma_skip_ws_idempotent(s, old(parser).cursor());
        }
        match parser.peek() {
            Some('<') => {
                let Meta(i, m) = parse_iri_ref_with(parser)?;
                Ok(Meta(IriReference::Expanded(i), m))
            },
            _ => {
                let mut buffer = String::new();
                read_word(parser, &mut buffer);
                proof {
                    parser.lemma_wf();
                    lemma_word_end_bounds(s, start);
                }
                assert(buffer@ =~= s.subrange(start, parser.cursor()));
                let span = Span::new(start_index, parser.position());
                match IriRefBuf::new(buffer) {
                    Ok(t) => Ok(Meta(IriReference::Compact(t), span)),
                    Err(t) => Err(Meta(Error::InvalidIriRef(t), span)),
                }
            },
        }
    }
}


/// A variable (`?` first) or an IRI reference.
pub open spec fn parse_expr(s: Seq<char>, i: int) -> Outcome<ExprModel> {
    let start = skip_ws(s, i);
    if 0 <= start < s.len() && s[start] == '?' {
        match parse_var(s, start) {
            Ok((x, sp, end)) => Ok((ExprModel::Var(x), sp, end)),
            Err(e) => Err(e),
        }
    } else {
        match parse_iri_reference(s, start) {
            Ok((x, sp, end)) => Ok((ExprModel::IriRef(x), sp, end)),
            Err(e) => Err(e),
        }
    }
}

/// Three expressions: subject, predicate, object.
#[verifier::opaque]
pub open spec fn parse_pattern(s: Seq<char>, i: int) -> Outcome<PatternModel> {
    let start = skip_ws(s, i);
    match parse_expr(s, start) {
        Err(e) => Err(e),
        Ok((a, sa, e1)) => match parse_expr(s, e1) {
            Err(e) => Err(e),
            Ok((b, sb, e2)) => match parse_expr(s, e2) {
                Err(e) => Err(e),
                Ok((c, sc, e3)) => Ok(
                    (PatternModel { subject: (a, sa), predicate: (b, sb), object: (c, sc) }, span_of(s, start, e3), e3),
                ),
            },
        },
    }
}

/// An expression, then either `=` and an expression (an equality) or two
/// expressions (a pattern).
#[verifier::opaque]
pub open spec fn parse_statement(s: Seq<char>, i: int) -> Outcome<StatementModel> {
    let start = skip_ws(s, i);
    match parse_expr(s, start) {
        Err(e) => Err(e),
        Ok((a, sa, e1)) => {
            let j = skip_ws(s, e1);
            if 0 <= j < s.len() && s[j] == '=' {
                match parse_expr(s, j + 1) {
                    Err(e) => Err(e),
                    Ok((b, sb, e2)) => Ok((StatementModel::Eq((a, sa), (b, sb)), span_of(s, start, e2), e2)),
                }
            } else {
                match parse_expr(s, j) {
                    Err(e) => Err(e),
                    Ok((b, sb, e2)) => match parse_expr(s, e2) {
                        Err(e) => Err(e),
                        Ok((c, sc, e3)) => Ok(
                            (
                                StatementModel::Pattern(PatternModel { subject: (a, sa), predicate: (b, sb), object: (c, sc) }),
                                span_of(s, start, e3),
                                e3,
                            ),
                        ),
                    },
                }
            }
        },
    }
}

/// The span of a `!` at the start, if there is one there.
pub open spec fn negation_at(s: Seq<char>, start: int) -> Option<Span> {
    if 0 <= start < s.len() && s[start] == '!' {
        Some(span_of(s, start, start + 1))
    } else {
        None
    }
}

/// Where what follows a possible `!` starts.
pub open spec fn after_negation(s: Seq<char>, start: int) -> int {
    if 0 <= start < s.len() && s[start] == '!' {
        start + 1
    } else {
        start
    }
}

/// A statement, possibly after `!`.
#[verifier::opaque]
pub open spec fn parse_signed_statement(s: Seq<char>, i: int) -> Outcome<SignedStatementModel> {
    let start = skip_ws(s, i);
    match parse_statement(s, after_negation(s, start)) {
        Err(e) => Err(e),
        Ok((st, sp, end)) => Ok(
            (SignedStatementModel { negative: negation_at(s, start), statement: (st, sp) }, span_of(s, start, end), end),
        ),
    }
}

/// A signed statement, then its trust mark.
#[verifier::opaque]
pub open spec fn parse_maybe_trusted_statement(s: Seq<char>, i: int) -> Outcome<MaybeTrustedStatementModel> {
    let start = skip_ws(s, i);
    match parse_signed_statement(s, start) {
        Err(e) => Err(e),
        Ok((st, sp, e1)) => match parse_trust(s, e1) {
            Err(e) => Err(e),
            Ok((tr, tsp, e2)) => Ok(
                (MaybeTrustedStatementModel { statement: (st, sp), trust: (tr, tsp) }, span_of(s, start, e2), e2),
            ),
        },
    }
}

/// A pattern, possibly after `!`, then `.`.
#[verifier::opaque]
pub open spec fn parse_signed_pattern(s: Seq<char>, i: int) -> Outcome<SignedPatternModel> {
    let start = skip_ws(s, i);
    match parse_pattern(s, after_negation(s, start)) {
        Err(e) => Err(e),
        Ok((p, sp, e1)) => match parse_token(s, e1, '.') {
            Err(e) => Err(e),
            Ok((_, _, e2)) => Ok(
                (SignedPatternModel { negative: negation_at(s, start), pattern: (p, sp) }, span_of(s, start, e2), e2),
            ),
        },
    }
}

impl Expr {
    /// Parses a variable or an IRI reference.
    pub fn parse_with(parser: &mut Parser) -> (r: Result<Meta<Expr, Span>, MetaError>)
        requires
            old(parser).wf(),
        ensures
            parsed(*old(parser), *final(parser), r, parse_expr(old(parser).text(), old(parser).cursor()), |x: Expr| expr_model(x)),
    {
        let ghost s = parser.text();
        parser.skip_whitespaces();
        proof {
            lemma_skip_ws_bounds(s, old(parser).cursor());
        }
        match parser.peek() {
            Some('?') => {
                let Meta(x, m) = VarIdent::parse_with(parser)?;
                Ok(Meta(Expr::Var(x), m))
            },
            _ => {
                let Meta(x, m) = IriReference::parse_with(parser)?;
                Ok(Meta(Expr::IriRef(x), m))
            },
        }
    }
}

impl Pattern {
    /// Parses a triple pattern.
    pub fn parse_with(parser: &mut Parser) -> (r: Result<Meta<Pattern, Span>, MetaError>)
        requires
            old(parser).wf(),
        ensures
            parsed(*old(parser), *final(parser), r, parse_pattern(old(parser).text(), old(parser).cursor()), |x: Pattern| pattern_model(x)),
    {
        let ghost s = parser.text();
        reveal(parse_pattern);
        let start_index = parser.skip_whitespaces();
        let ghost start = parser.cursor();
        proof {
            lemma_skip_ws_bounds(s, old(parser).cursor());
        }
        let subject = Expr::parse_with(parser)?;
        let predicate = Expr::parse_with(parser)?;
        let object = Expr::parse_with(parser)?;
        proof {
            parser.lemma_wf();
        }
        Ok(Meta(Pattern { subject, predicate, object }, Span::new(start_index, parser.position())))
    }
}

impl Statement {
    /// Parses a pattern or an equality.
    pub fn parse_with(parser: &mut Parser) -> (r: Result<Meta<Statement, Span>, MetaError>)
        requires
            old(parser).wf(),
        ensures
            parsed(*old(parser), *final(parser), r, parse_statement(old(parser).text(), old(parser).cursor()), |x: Statement| statement_model(x)),
    {
        let ghost s = parser.text();
        reveal(parse_statement);
        let start_index = parser.skip_whitespaces();
        proof {
            lemma_skip_ws_bounds(s, old(parser).cursor());
        }
        let subject = Expr::parse_with(parser)?;
        let ghost e1 = parser.cursor();
        proof {
            parser.lemma_wf();
            lemma_skip_ws_bounds(s, e1);
        }
        parser.skip_whitespaces();
        let statement = match parser.peek() {
            Some('=') => {
                parser.next_char();
                let object = Expr::parse_with(parser)?;
                Statement::Eq(subject, object)
            },
            _ => {
                let predicate = Expr::parse_with(parser)?;
                let object = Expr::parse_with(parser)?;
                Statement::Pattern(Pattern { subject, predicate, object })
            },
        };
        proof {
            parser.lemma_wf();
        }
        Ok(Meta(statement, Span::new(start_index, parser.position())))
    }
}

/// Reads a `!` if it comes next (after white space), giving its span.
fn parse_negation(parser: &mut Parser) -> (r: (usize, Option<Span>))
    requires
        old(parser).wf(),
    ensures
        final(parser).wf(),
        final(parser).text() == old(parser).text(),
        ({
            let s = old(parser).text();
            let start = skip_ws(s, old(parser).cursor());
            &&& r.0 == offset(s, start)
            &&& r.1 == negation_at(s, start)
            &&& final(parser).cursor() == after_negation(s, start)
            &&& old(parser).cursor() <= start <= s.len()
        }),
{
    let ghost s = parser.text();
    let start_index = parser.skip_whitespaces();
    proof {
        lemma_skip_ws_bounds(s, old(parser).cursor());
    }
    let negative = match parser.peek() {
        Some('!') => {
            parser.next_char();
            Some(parser.last_char_span())
        },
        _ => None,
    };
    (start_index, negative)
}

impl SignedStatement {
    /// Parses a statement, possibly negated.
    pub fn parse_with(parser: &mut Parser) -> (r: Result<Meta<SignedStatement, Span>, MetaError>)
        requires
            old(parser).wf(),
        ensures
            parsed(*old(parser), *final(parser), r, parse_signed_statement(old(parser).text(), old(parser).cursor()), |x: SignedStatement| signed_statement_model(x)),
    {
        let ghost s = parser.text();
        reveal(parse_signed_statement);
        let (start_index, negative) = parse_negation(parser);
        let statement = Statement::parse_with(parser)?;
        proof {
            parser.lemma_wf();
        }
        Ok(Meta(SignedStatement { negative, statement }, Span::new(start_index, parser.position())))
    }
}

impl MaybeTrustedStatement {
    /// Parses a signed statement and its trust mark.
    pub fn parse_with(parser: &mut Parser) -> (r: Result<Meta<MaybeTrustedStatement, Span>, MetaError>)
        requires
            old(parser).wf(),
        ensures
            parsed(*old(parser), *final(parser), r, parse_maybe_trusted_statement(old(parser).text(), old(parser).cursor()), |x: MaybeTrustedStatement| maybe_trusted_statement_model(x)),
            r is Ok ==> old(parser).cursor() < final(parser).cursor(),
    {
        let ghost s = parser.text();
        reveal(parse_maybe_trusted_statement);
        let start_index = parser.skip_whitespaces();
        proof {
            lemma_skip_ws_bounds(s, old(parser).cursor());
        }
        let statement = SignedStatement::parse_with(parser)?;
        let trust = parse_trust_with(parser)?;
        proof {
            parser.lemma_wf();
        }
        Ok(Meta(MaybeTrustedStatement { statement, trust }, Span::new(start_index, parser.position())))
    }
}

impl SignedPattern {
    /// Parses a pattern, possibly negated, ended by `.`.
    pub fn parse_with(parser: &mut Parser) -> (r: Result<Meta<SignedPattern, Span>, MetaError>)
        requires
            old(parser).wf(),
        ensures
            parsed(*old(parser), *final(parser), r, parse_signed_pattern(old(parser).text(), old(parser).cursor()), |x: SignedPattern| signed_pattern_model(x)),
            r is Ok ==> old(parser).cursor() < final(parser).cursor(),
    {
        let ghost s = parser.text();
        reveal(parse_signed_pattern);
        let (start_index, negative) = parse_negation(parser);
        let pattern = Pattern::parse_with(parser)?;
        Dot::parse_with(parser)?;
        proof {
            parser.lemma_wf();
        }
        Ok(Meta(SignedPattern { negative, pattern }, Span::new(start_index, parser.position())))
    }
}


/// Whether a successful outcome of a parse from `i` ends after `i`
/// (or at `i`, unless `strict`) and within the `n` characters.
pub open spec fn moves<V>(p: Outcome<V>, i: int, n: int, strict: bool) -> bool {
    match p {
        Ok((_, _, e)) => (if strict { i < e } else { i <= e }) && e <= n,
        Err(_) => true,
    }
}

pub proof fn lemma_keyword_moves(s: Seq<char>, i: int)
    requires
        0 <= i <= s.len(),
    ensures
        moves(parse_keyword(s, i), i, s.len() as int, true),
{
    lemma_skip_ws_bounds(s, i);
    let start = skip_ws(s, i);
    if start < s.len() {
        lemma_word_end_bounds(s, start + 1);
    }
}

pub proof fn lemma_prefix_moves(s: Seq<char>, i: int)
    requires
        0 <= i <= s.len(),
    ensures
        moves(parse_prefix(s, i), i, s.len() as int, true),
{
    lemma_skip_ws_bounds(s, i);
    let start = skip_ws(s, i);
    if start < s.len() {
        lemma_prefix_end_bounds(s, start + 1);
    }
}

pub proof fn lemma_var_moves(s: Seq<char>, i: int)
    requires
        0 <= i <= s.len(),
    ensures
        moves(parse_var(s, i), i, s.len() as int, true),
{
    lemma_skip_ws_bounds(s, i);
    let start = skip_ws(s, i);
    if start + 1 < s.len() {
        lemma_name_end_bounds(s, start + 2);
    }
}

pub proof fn lemma_token_moves(s: Seq<char>, i: int, t: char)
    requires
        0 <= i <= s.len(),
    ensures
        moves(parse_token(s, i, t), i, s.len() as int, true),
        moves(parse_trust(s, i), i, s.len() as int, true),
{
    lemma_skip_ws_bounds(s, i);
}

pub proof fn lemma_bracketed_moves(s: Seq<char>, i: int, iri: bool)
    requires
        0 <= i <= s.len(),
    ensures
        moves(parse_bracketed(s, i, iri), i, s.len() as int, true),
{
    lemma_skip_ws_bounds(s, i);
    let start = skip_ws(s, i);
    if start < s.len() {
        lemma_iri_close_bounds(s, start + 1);
    }
}

pub proof fn lemma_iri_reference_moves(s: Seq<char>, i: int)
    requires
        0 <= i <= s.len(),
    ensures
        moves(parse_iri_reference(s, i), i, s.len() as int, false),
{
    lemma_skip_ws_bounds(s, i);
    let start = skip_ws(s, i);
    lemma_word_end_bounds(s, start);
    lemma_bracketed_moves(s, start, false);
}

pub proof fn lemma_expr_moves(s: Seq<char>, i: int)
    requires
        0 <= i <= s.len(),
    ensures
        moves(parse_expr(s, i), i, s.len() as int, false),
{
    lemma_skip_ws_bounds(s, i);
    let start = skip_ws(s, i);
    lemma_var_moves(s, start);
    lemma_iri_reference_moves(s, start);
}

pub proof fn lemma_pattern_moves(s: Seq<char>, i: int)
    requires
        0 <= i <= s.len(),
    ensures
        moves(parse_pattern(s, i), i, s.len() as int, false),
{
    reveal(parse_pattern);
    lemma_skip_ws_bounds(s, i);
    let start = skip_ws(s, i);
    lemma_expr_moves(s, start);
    if let Ok((_, _, e1)) = parse_expr(s, start) {
        lemma_expr_moves(s, e1);
        if let Ok((_, _, e2)) = parse_expr(s, e1) {
            lemma_expr_moves(s, e2);
        }
    }
}

pub proof fn lemma_statement_moves(s: Seq<char>, i: int)
    requires
        0 <= i <= s.len(),
    ensures
        moves(parse_statement(s, i), i, s.len() as int, false),
{
    reveal(parse_statement);
    lemma_skip_ws_bounds(s, i);
    let start = skip_ws(s, i);
    lemma_expr_moves(s, start);
    if let Ok((_, _, e1)) = parse_expr(s, start) {
        lemma_skip_ws_bounds(s, e1);
        let j = skip_ws(s, e1);
        if j < s.len() && s[j] == '=' {
            lemma_expr_moves(s, j + 1);
        } else {
            lemma_expr_moves(s, j);
            if let Ok((_, _, e2)) = parse_expr(s, j) {
                lemma_expr_moves(s, e2);
            }
        }
    }
}

pub proof fn lemma_signed_moves(s: Seq<char>, i: int)
    requires
        0 <= i <= s.len(),
    ensures
        moves(parse_signed_statement(s, i), i, s.len() as int, false),
        moves(parse_maybe_trusted_statement(s, i), i, s.len() as int, true),
        moves(parse_signed_pattern(s, i), i, s.len() as int, true),
{
    reveal(parse_signed_statement);
    reveal(parse_maybe_trusted_statement);
    reveal(parse_signed_pattern);
    lemma_skip_ws_bounds(s, i);
    let start = skip_ws(s, i);
    lemma_skip_ws_idempotent(s, i);
    lemma_statement_moves(s, after_negation(s, start));
    lemma_pattern_moves(s, after_negation(s, start));
    if let Ok((_, _, e1)) = parse_pattern(s, after_negation(s, start)) {
        lemma_token_moves(s, e1, '.');
    }
    if let Ok((_, _, e1)) = parse_signed_statement(s, start) {
        lemma_token_moves(s, e1, '.');
    }
}


/// What a list parse gives: the elements and the index after the list.
pub type ListOutcome<V> = Result<(Seq<V>, int), (ErrorModel, Span)>;

/// Signed patterns up to the closing `}`, from `j`.
pub open spec fn patterns_from(s: Seq<char>, j: int) -> ListOutcome<(SignedPatternModel, Span)>
    decreases s.len() - j,
    when 0 <= j <= s.len()
{
    let k = skip_ws(s, j);
    proof {
        lemma_skip_ws_bounds(s, j);
        lemma_signed_moves(s, k);
    }
    if k < s.len() && s[k] == '}' {
        Ok((Seq::empty(), k + 1))
    } else {
        match parse_signed_pattern(s, k) {
            Err(e) => Err(e),
            Ok((p, sp, e)) => match patterns_from(s, e) {
                Err(x) => Err(x),
                Ok((rest, end)) => Ok((seq![(p, sp)] + rest, end)),
            },
        }
    }
}

/// Conclusion statements up to the closing `}`, from `j`.
pub open spec fn statements_from(s: Seq<char>, j: int) -> ListOutcome<(MaybeTrustedStatementModel, Span)>
    decreases s.len() - j,
    when 0 <= j <= s.len()
{
    let k = skip_ws(s, j);
    proof {
        lemma_skip_ws_bounds(s, j);
        lemma_signed_moves(s, k);
    }
    if k < s.len() && s[k] == '}' {
        Ok((Seq::empty(), k + 1))
    } else {
        match parse_maybe_trusted_statement(s, k) {
            Err(e) => Err(e),
            Ok((p, sp, e)) => match statements_from(s, e) {
                Err(x) => Err(x),
                Ok((rest, end)) => Ok((seq![(p, sp)] + rest, end)),
            },
        }
    }
}

/// A hypothesis: signed patterns between `{` and `}`.
#[verifier::opaque]
pub open spec fn parse_hypothesis(s: Seq<char>, i: int) -> Outcome<Seq<(SignedPatternModel, Span)>> {
    let start = skip_ws(s, i);
    if 0 <= start < s.len() && s[start] == '{' {
        match patterns_from(s, start + 1) {
            Err(e) => Err(e),
            Ok((v, end)) => Ok((v, span_of(s, start, end), end)),
        }
    } else {
        unexpected_at(s, start)
    }
}

/// A conclusion: statements between `{` and `}`.
#[verifier::opaque]
pub open spec fn parse_conclusion(s: Seq<char>, i: int) -> Outcome<Seq<(MaybeTrustedStatementModel, Span)>> {
    let start = skip_ws(s, i);
    if 0 <= start < s.len() && s[start] == '{' {
        match statements_from(s, start + 1) {
            Err(e) => Err(e),
            Ok((v, end)) => Ok((v, span_of(s, start, end), end)),
        }
    } else {
        unexpected_at(s, start)
    }
}

/// One step of `patterns_from`: the list is closed at the next token, or
/// the next signed pattern comes first.
pub proof fn lemma_patterns_from_step(s: Seq<char>, j: int)
    requires
        0 <= j <= s.len(),
    ensures
        ({
            let k = skip_ws(s, j);
            if k < s.len() && s[k] == '}' {
                patterns_from(s, j) == Ok::<(Seq<(SignedPatternModel, Span)>, int), (ErrorModel, Span)>((Seq::empty(), k + 1))
            } else {
                match parse_signed_pattern(s, k) {
                    Err(e) => patterns_from(s, j) == Err::<(Seq<(SignedPatternModel, Span)>, int), (ErrorModel, Span)>(e),
                    Ok((p, sp, e)) => k < e <= s.len() && patterns_from(s, j) == match patterns_from(s, e) {
                        Err(x) => Err(x),
                        Ok((rest, end)) => Ok((seq![(p, sp)] + rest, end)),
                    },
                }
            }
        }),
{
    lemma_skip_ws_bounds(s, j);
    lemma_signed_moves(s, skip_ws(s, j));
}

/// One step of `statements_from`.
pub proof fn lemma_statements_from_step(s: Seq<char>, j: int)
    requires
        0 <= j <= s.len(),
    ensures
        ({
            let k = skip_ws(s, j);
            if k < s.len() && s[k] == '}' {
                statements_from(s, j) == Ok::<(Seq<(MaybeTrustedStatementModel, Span)>, int), (ErrorModel, Span)>((Seq::empty(), k + 1))
            } else {
                match parse_maybe_trusted_statement(s, k) {
                    Err(e) => statements_from(s, j) == Err::<(Seq<(MaybeTrustedStatementModel, Span)>, int), (ErrorModel, Span)>(e),
                    Ok((p, sp, e)) => k < e <= s.len() && statements_from(s, j) == match statements_from(s, e) {
                        Err(x) => Err(x),
                        Ok((rest, end)) => Ok((seq![(p, sp)] + rest, end)),
                    },
                }
            }
        }),
{
    lemma_skip_ws_bounds(s, j);
    lemma_signed_moves(s, skip_ws(s, j));
}

pub proof fn lemma_patterns_from_moves(s: Seq<char>, j: int)
    requires
        0 <= j <= s.len(),
    ensures
        parse_ok_within(patterns_from(s, j), j, s.len() as int),
    decreases s.len() - j,
{
    let k = skip_ws(s, j);
    lemma_skip_ws_bounds(s, j);
    lemma_signed_moves(s, k);
    if !(k < s.len() && s[k] == '}') {
        if let Ok((_, _, e)) = parse_signed_pattern(s, k) {
            lemma_patterns_from_moves(s, e);
        }
    }
}

pub proof fn lemma_statements_from_moves(s: Seq<char>, j: int)
    requires
        0 <= j <= s.len(),
    ensures
        parse_ok_within(statements_from(s, j), j, s.len() as int),
    decreases s.len() - j,
{
    let k = skip_ws(s, j);
    lemma_skip_ws_bounds(s, j);
    lemma_signed_moves(s, k);
    if !(k < s.len() && s[k] == '}') {
        if let Ok((_, _, e)) = parse_maybe_trusted_statement(s, k) {
            lemma_statements_from_moves(s, e);
        }
    }
}

/// Whether a successful list parse from `j` ends after `j` and within `n`.
pub open spec fn parse_ok_within<V>(p: ListOutcome<V>, j: int, n: int) -> bool {
    match p {
        Ok((_, e)) => j < e <= n,
        Err(_) => true,
    }
}

pub proof fn lemma_lists_move(s: Seq<char>, i: int)
    requires
        0 <= i <= s.len(),
    ensures
        moves(parse_hypothesis(s, i), i, s.len() as int, true),
        moves(parse_conclusion(s, i), i, s.len() as int, true),
{
    reveal(parse_hypothesis);
    reveal(parse_conclusion);
    lemma_skip_ws_bounds(s, i);
    let start = skip_ws(s, i);
    if start < s.len() {
        lemma_patterns_from_moves(s, start + 1);
        lemma_statements_from_moves(s, start + 1);
    }
}

impl Hypothesis {
    /// Parses signed patterns between `{` and `}`.
    pub fn parse_with(parser: &mut Parser) -> (r: Result<Meta<Hypothesis, Span>, MetaError>)
        requires
            old(parser).wf(),
        ensures
            parsed(*old(parser), *final(parser), r, parse_hypothesis(old(parser).text(), old(parser).cursor()), |h: Hypothesis| patterns_model(h.patterns@)),
            r is Ok ==> old(parser).cursor() < final(parser).cursor(),
    {
        let ghost s = parser.text();
        reveal(parse_hypothesis);
        let start_index = parser.skip_whitespaces();
        let ghost start = parser.cursor();
        proof {
            lemma_skip_ws_bounds(s, old(parser).cursor());
        }
        match parser.next_char() {
            Some('{') => {},
            u => {
                return Err(Meta(Error::Unexpected(Unexpected(u)), parser.last_char_span()));
            },
        }
        let mut patterns: Vec<Meta<SignedPattern, Span>> = Vec::new();
        loop
            invariant
                parser.wf(),
                parser.text() == s,
                s == old(parser).text(),
                start == skip_ws(s, old(parser).cursor()),
                old(parser).cursor() <= start,
                0 <= start < s.len() && s[start] == '{',
                start_index == offset(s, start),
                start < parser.cursor() <= s.len(),
                patterns_from(s, start + 1) == match patterns_from(s, parser.cursor()) {
                    Ok((rest, end)) => Ok((patterns_model(patterns@) + rest, end)),
                    Err(e) => Err(e),
                },
            decreases s.len() - parser.cursor(),
        {
            proof {
                reveal(parse_hypothesis);
            }
            let ghost j = parser.cursor();
            parser.skip_whitespaces();
            proof {
                lemma_skip_ws_bounds(s, j);
                lemma_patterns_from_step(s, j);
            }
            match parser.peek() {
                Some('}') => {
                    parser.next_char();
                    proof {
                        assert(patterns_model(patterns@) + Seq::empty() =~= patterns_model(patterns@));
                    }
                    return Ok(Meta(Hypothesis { patterns }, Span::new(start_index, parser.position())));
                },
                _ => {
                    let p = SignedPattern::parse_with(parser)?;
                    let ghost before = patterns@;
                    patterns.push(p);
                    proof {
                        assert(patterns@ == before.push(p));
                        assert(patterns_model(patterns@) =~= patterns_model(before).push((signed_pattern_model(p.0), p.1)));
                        if let Ok((rest, end)) = patterns_from(s, parser.cursor()) {
                            assert(patterns_model(before) + (seq![(signed_pattern_model(p.0), p.1)] + rest) =~= patterns_model(patterns@) + rest);
                        }
                    }
                },
            }
        }
    }
}

impl Conclusion {
    /// Parses statements between `{` and `}`.
    pub fn parse_with(parser: &mut Parser) -> (r: Result<Meta<Conclusion, Span>, MetaError>)
        requires
            old(parser).wf(),
        ensures
            parsed(*old(parser), *final(parser), r, parse_conclusion(old(parser).text(), old(parser).cursor()), |c: Conclusion| statements_model(c.statements@)),
            r is Ok ==> old(parser).cursor() < final(parser).cursor(),
    {
        let ghost s = parser.text();
        reveal(parse_conclusion);
        let start_index = parser.skip_whitespaces();
        let ghost start = parser.cursor();
        proof {
            lemma_skip_ws_bounds(s, old(parser).cursor());
        }
        match parser.next_char() {
            Some('{') => {},
            u => {
                return Err(Meta(Error::Unexpected(Unexpected(u)), parser.last_char_span()));
            },
        }
        let mut statements: Vec<Meta<MaybeTrustedStatement, Span>> = Vec::new();
        loop
            invariant
                parser.wf(),
                parser.text() == s,
                s == old(parser).text(),
                start == skip_ws(s, old(parser).cursor()),
                old(parser).cursor() <= start,
                0 <= start < s.len() && s[start] == '{',
                start_index == offset(s, start),
                start < parser.cursor() <= s.len(),
                statements_from(s, start + 1) == match statements_from(s, parser.cursor()) {
                    Ok((rest, end)) => Ok((statements_model(statements@) + rest, end)),
                    Err(e) => Err(e),
                },
            decreases s.len() - parser.cursor(),
        {
            proof {
                reveal(parse_conclusion);
            }
            let ghost j = parser.cursor();
            parser.skip_whitespaces();
            proof {
                lemma_skip_ws_bounds(s, j);
                lemma_statements_from_step(s, j);
            }
            match parser.peek() {
                Some('}') => {
                    parser.next_char();
                    proof {
                        assert(statements_model(statements@) + Seq::empty() =~= statements_model(statements@));
                    }
                    return Ok(Meta(Conclusion { statements }, Span::new(start_index, parser.position())));
                },
                _ => {
                    let p = MaybeTrustedStatement::parse_with(parser)?;
                    let ghost before = statements@;
                    statements.push(p);
                    proof {
                        assert(statements@ == before.push(p));
                        assert(statements_model(statements@) =~= statements_model(before).push((maybe_trusted_statement_model(p.0), p.1)));
                        if let Ok((rest, end)) = statements_from(s, parser.cursor()) {
                            assert(statements_model(before) + (seq![(maybe_trusted_statement_model(p.0), p.1)] + rest) =~= statements_model(statements@) + rest);
                        }
                    }
                },
            }
        }
    }
}


/// Variables (`?` names) from `j` on, each followed by white space: the
/// variables and the index after them.
pub open spec fn vars_from(s: Seq<char>, j: int) -> ListOutcome<(Seq<char>, Span)>
    decreases s.len() - j,
    when 0 <= j <= s.len()
{
    proof {
        lemma_var_moves(s, j);
        if let Ok((_, _, e)) = parse_var(s, j) {
            lemma_skip_ws_bounds(s, e);
        }
    }
    if j < s.len() && s[j] == '?' {
        match parse_var(s, j) {
            Err(e) => Err(e),
            Ok((x, sp, e)) => match vars_from(s, skip_ws(s, e)) {
                Err(x) => Err(x),
                Ok((rest, end)) => Ok((seq![(x, sp)] + rest, end)),
            },
        }
    } else {
        Ok((Seq::empty(), j))
    }
}

pub proof fn lemma_vars_from_moves(s: Seq<char>, j: int)
    requires
        0 <= j <= s.len(),
    ensures
        match vars_from(s, j) {
            Ok((_, e)) => j <= e <= s.len(),
            Err(_) => true,
        },
    decreases s.len() - j,
{
    lemma_var_moves(s, j);
    if j < s.len() && s[j] == '?' {
        if let Ok((_, _, e)) = parse_var(s, j) {
            lemma_skip_ws_bounds(s, e);
            lemma_vars_from_moves(s, skip_ws(s, e));
        }
    }
}

/// Where the hypothesis of a quantified formula at `i` ends: after the
/// keyword, the variables and the hypothesis (when each of them parses).
pub open spec fn quantified_hypothesis_end(s: Seq<char>, i: int) -> Option<int> {
    let start = skip_ws(s, i);
    match parse_keyword(s, start) {
        Ok((_, _, e0)) => match vars_from(s, skip_ws(s, e0)) {
            Ok((_, e1)) => match parse_hypothesis(s, e1) {
                Ok((_, _, e2)) => Some(e2),
                Err(_) => None,
            },
            Err(_) => None,
        },
        Err(_) => None,
    }
}

pub proof fn lemma_quantified_hypothesis_end(s: Seq<char>, i: int)
    requires
        0 <= i <= s.len(),
    ensures
        match quantified_hypothesis_end(s, i) {
            Some(e) => i < e <= s.len(),
            None => true,
        },
{
    lemma_skip_ws_bounds(s, i);
    let start = skip_ws(s, i);
    lemma_keyword_moves(s, start);
    if let Ok((_, _, e0)) = parse_keyword(s, start) {
        lemma_skip_ws_bounds(s, e0);
        lemma_vars_from_moves(s, skip_ws(s, e0));
        if let Ok((_, e1)) = vars_from(s, skip_ws(s, e0)) {
            lemma_lists_move(s, e1);
        }
    }
}

/// `{ hypothesis } => { conclusion }`, from `start`: an `exists` without
/// variables.
#[verifier::opaque]
pub open spec fn braced_formula(s: Seq<char>, start: int) -> Outcome<FormulaModel> {
    match parse_hypothesis(s, start) {
        Err(e) => Err(e),
        Ok((h, hs, e1)) => {
            let k = skip_ws(s, e1);
            if 0 <= k < s.len() && s[k] == '=' {
                if k + 1 < s.len() && s[k + 1] == '>' {
                    match parse_conclusion(s, k + 2) {
                        Err(e) => Err(e),
                        Ok((c, cs, e2)) => Ok(
                            (
                                FormulaModel::Exists {
                                    variables: Seq::empty(),
                                    hypothesis: (h, hs),
                                    inner: Box::new((FormulaModel::Conclusion(c), cs)),
                                },
                                span_of(s, start, e2),
                                e2,
                            ),
                        ),
                    }
                } else {
                    unexpected_at(s, k + 1)
                }
            } else {
                unexpected_at(s, k)
            }
        },
    }
}

/// `=> { conclusion }`, from `start`.
#[verifier::opaque]
pub open spec fn conclusion_formula(s: Seq<char>, start: int) -> Outcome<FormulaModel> {
    if start + 1 < s.len() && s[start + 1] == '>' {
        match parse_conclusion(s, start + 2) {
            Err(e) => Err(e),
            Ok((c, cs, e)) => Ok((FormulaModel::Conclusion(c), cs, e)),
        }
    } else {
        unexpected_at(s, start + 1)
    }
}

/// A formula: `{ hypothesis } => { conclusion }` (an `exists` without
/// variables), `=> { conclusion }`, or `forall` / `exists`, variables,
/// a hypothesis and an inner formula.
pub open spec fn parse_formula(s: Seq<char>, i: int) -> Outcome<FormulaModel>
    decreases s.len() - i,
    when 0 <= i <= s.len()
{
    proof {
        lemma_quantified_hypothesis_end(s, i);
    }
    let start = skip_ws(s, i);
    if 0 <= start < s.len() && s[start] == '{' {
        braced_formula(s, start)
    } else if 0 <= start < s.len() && s[start] == '=' {
        conclusion_formula(s, start)
    } else {
        match parse_keyword(s, start) {
            Err(e) => Err(e),
            Ok((k, _, e0)) => if k == Keyword::ForAll || k == Keyword::Exists {
                match vars_from(s, skip_ws(s, e0)) {
                    Err(e) => Err(e),
                    Ok((vars, e1)) => match parse_hypothesis(s, e1) {
                        Err(e) => Err(e),
                        Ok((h, hs, e2)) => match parse_formula(s, e2) {
                            Err(e) => Err(e),
                            Ok((f, fs, e3)) => Ok(
                                (
                                    if k == Keyword::ForAll {
                                        FormulaModel::ForAll { variables: vars, constraints: (h, hs), inner: Box::new((f, fs)) }
                                    } else {
                                        FormulaModel::Exists { variables: vars, hypothesis: (h, hs), inner: Box::new((f, fs)) }
                                    },
                                    span_of(s, start, e3),
                                    e3,
                                ),
                            ),
                        },
                    },
                }
            } else {
                Err((ErrorModel::Unexpected(Some(s[start])), last_char_span(s, start)))
            },
        }
    }
}

/// Reads `=>`.
fn parse_arrow(parser: &mut Parser) -> (r: Result<(), MetaError>)
    requires
        old(parser).wf(),
    ensures
        final(parser).wf(),
        final(parser).text() == old(parser).text(),
        ({
            let s = old(parser).text();
            let k = old(parser).cursor();
            if 0 <= k < s.len() && s[k] == '=' {
                if k + 1 < s.len() && s[k + 1] == '>' {
                    r is Ok && final(parser).cursor() == k + 2
                } else {
                    match (r, unexpected_at::<()>(s, k + 1)) {
                        (Err(e), Err((ev, sp))) => error_model(e.0) == ev && e.1 == sp,
                        _ => false,
                    }
                }
            } else {
                match (r, unexpected_at::<()>(s, k)) {
                    (Err(e), Err((ev, sp))) => error_model(e.0) == ev && e.1 == sp,
                    _ => false,
                }
            }
        }),
{
    match parser.next_char() {
        Some('=') => match parser.next_char() {
            Some('>') => Ok(()),
            other => Err(Meta(Error::Unexpected(Unexpected(other)), parser.last_char_span())),
        },
        other => Err(Meta(Error::Unexpected(Unexpected(other)), parser.last_char_span())),
    }
}

/// Reads variables while a `?` comes next, skipping white space after each.
fn parse_variables(parser: &mut Parser) -> (r: Result<Vec<Meta<VarIdent, Span>>, MetaError>)
    requires
        old(parser).wf(),
    ensures
        final(parser).wf(),
        final(parser).text() == old(parser).text(),
        r is Ok ==> old(parser).cursor() <= final(parser).cursor(),
        match (r, vars_from(old(parser).text(), old(parser).cursor())) {
            (Ok(v), Ok((vs, end))) => variables_model(v@) == vs && final(parser).cursor() == end,
            (Err(e), Err((ev, sp))) => error_model(e.0) == ev && e.1 == sp,
            _ => false,
        },
{
    let ghost s = parser.text();
    let ghost j0 = parser.cursor();
    proof {
        parser.lemma_wf();
    }
    let mut variables: Vec<Meta<VarIdent, Span>> = Vec::new();
    loop
        invariant
            parser.wf(),
            parser.text() == s,
            s == old(parser).text(),
            j0 == old(parser).cursor(),
            j0 <= parser.cursor() <= s.len(),
            vars_from(s, j0) == match vars_from(s, parser.cursor()) {
                Ok((rest, end)) => Ok((variables_model(variables@) + rest, end)),
                Err(e) => Err(e),
            },
        decreases s.len() - parser.cursor(),
    {
        let ghost j = parser.cursor();
        proof {
            lemma_var_moves(s, j);
        }
        match parser.peek() {
            Some('?') => {
                let x = VarIdent::parse_with(parser)?;
                let ghost e = parser.cursor();
                proof {
                    parser.lemma_wf();
                    lemma_skip_ws_bounds(s, e);
                }
                parser.skip_whitespaces();
                let ghost before = variables@;
                variables.push(x);
                proof {
                    assert(variables_model(variables@) =~= variables_model(before).push((x.0.0@, x.1)));
                    if let Ok((rest, end)) = vars_from(s, parser.cursor()) {
                        assert(variables_model(before) + (seq![(x.0.0@, x.1)] + rest) =~= variables_model(variables@) + rest);
                    }
                }
            },
            _ => {
                proof {
                    assert(variables_model(variables@) + Seq::empty() =~= variables_model(variables@));
                }
                return Ok(variables);
            },
        }
    }
}


/// Parses `{ hypothesis } => { conclusion }` at the cursor.
fn parse_braced_formula(parser: &mut Parser) -> (r: Result<Meta<Formula, Span>, MetaError>)
    requires
        old(parser).wf(),
        skip_ws(old(parser).text(), old(parser).cursor()) == old(parser).cursor(),
    ensures
        parsed(*old(parser), *final(parser), r, braced_formula(old(parser).text(), old(parser).cursor()), |f: Formula| formula_model(f)),
{
    let ghost s = parser.text();
    reveal(braced_formula);
    let start_index = parser.position();
    let hypothesis = Hypothesis::parse_with(parser)?;
    let ghost e1 = parser.cursor();
    proof {
        parser.lemma_wf();
        lemma_skip_ws_bounds(s, e1);
    }
    parser.skip_whitespaces();
    parse_arrow(parser)?;
    let ghost e2 = parser.cursor();
    let Meta(conclusion, meta) = Conclusion::parse_with(parser)?;
    let ghost cm = statements_model(conclusion.statements@);
    let conclusion = Meta(Formula::Conclusion(conclusion), meta);
    let variables: Vec<Meta<VarIdent, Span>> = Vec::new();
    proof {
        parser.lemma_wf();
        assert(variables_model(variables@) =~= Seq::<(Seq<char>, Span)>::empty());
        assert(formula_model(conclusion.0) == FormulaModel::Conclusion(cm));
        assert(parse_conclusion(s, e2) matches Ok((c, cs, _)) && c == cm && cs == meta);
    }
    Ok(
        Meta(
            Formula::Exists(Exists { variables, hypothesis, inner: Box::new(conclusion) }),
            Span::new(start_index, parser.position()),
        ),
    )
}

/// Parses `=> { conclusion }` at the cursor.
fn parse_conclusion_formula(parser: &mut Parser) -> (r: Result<Meta<Formula, Span>, MetaError>)
    requires
        old(parser).wf(),
        old(parser).cursor() < old(parser).text().len(),
        old(parser).text()[old(parser).cursor()] == '=',
    ensures
        parsed(*old(parser), *final(parser), r, conclusion_formula(old(parser).text(), old(parser).cursor()), |f: Formula| formula_model(f)),
{
    reveal(conclusion_formula);
    parse_arrow(parser)?;
    let Meta(conclusion, meta) = Conclusion::parse_with(parser)?;
    Ok(Meta(Formula::Conclusion(conclusion), meta))
}

impl Formula {
    /// Parses a formula.
    #[verifier::rlimit(40)]
    pub fn parse_with(parser: &mut Parser) -> (r: Result<Meta<Formula, Span>, MetaError>)
        requires
            old(parser).wf(),
        ensures
            parsed(*old(parser), *final(parser), r, parse_formula(old(parser).text(), old(parser).cursor()), |f: Formula| formula_model(f)),
        decreases old(parser).text().len() - old(parser).cursor(),
    {
        let ghost s = parser.text();
        let ghost i = parser.cursor();
        proof {
            parser.lemma_wf();
            lemma_skip_ws_bounds(s, i);
            lemma_quantified_hypothesis_end(s, i);
        }
        let start_index = parser.skip_whitespaces();
        let ghost start = parser.cursor();
        match parser.peek() {
            Some('{') => parse_braced_formula(parser),
            Some('=') => parse_conclusion_formula(parser),
            other => {
                let span = parser.last_char_span();
                let Meta(keyword, _) = Keyword::parse_with(parser)?;
                let ghost e0 = parser.cursor();
                proof {
                    parser.lemma_wf();
                    lemma_skip_ws_bounds(s, e0);
                }
                match keyword {
                    Keyword::ForAll => {
                        parser.skip_whitespaces();
                        let variables = parse_variables(parser)?;
                        let constraints = Hypothesis::parse_with(parser)?;
                        let inner = Formula::parse_with(parser)?;
                        proof {
                            parser.lemma_wf();
                        }
                        Ok(
                            Meta(
                                Formula::ForAll(ForAll { variables, constraints, inner: Box::new(inner) }),
                                Span::new(start_index, parser.position()),
                            ),
                        )
                    },
                    Keyword::Exists => {
                        parser.skip_whitespaces();
                        let variables = parse_variables(parser)?;
                        let hypothesis = Hypothesis::parse_with(parser)?;
                        let inner = Formula::parse_with(parser)?;
                        proof {
                            parser.lemma_wf();
                        }
                        Ok(
                            Meta(
                                Formula::Exists(Exists { variables, hypothesis, inner: Box::new(inner) }),
                                Span::new(start_index, parser.position()),
                            ),
                        )
                    },
                    _ => Err(Meta(Error::Unexpected(Unexpected(other)), span)),
                }
            },
        }
    }
}


/// `prefix name: <iri>`, after the keyword: from `start`, the keyword
/// ending at `e0`.
#[verifier::opaque]
pub open spec fn prefix_binding(s: Seq<char>, start: int, e0: int) -> Outcome<ItemModel> {
    match parse_prefix(s, e0) {
        Err(e) => Err(e),
        Ok((p, ps, e1)) => match parse_token(s, e1, ':') {
            Err(e) => Err(e),
            Ok((_, cs, e2)) => match parse_bracketed(s, e2, false) {
                Err(e) => Err(e),
                Ok((iri, is, e3)) => Ok(
                    (ItemModel::Prefix { prefix: (p, ps), colon: cs, iri: (iri, is) }, span_of(s, start, e3), e3),
                ),
            },
        },
    }
}

/// Where the keyword of an item at `i` ends, and where the IRI reference
/// after it ends (when they parse).
pub open spec fn item_head_end(s: Seq<char>, i: int) -> Option<int> {
    let d = parse_documentation(s, i, '#');
    match parse_keyword(s, skip_ws(s, d.2)) {
        Ok((_, _, e0)) => match parse_iri_reference(s, e0) {
            Ok((_, _, e1)) => Some(e1),
            Err(_) => None,
        },
        Err(_) => None,
    }
}

pub proof fn lemma_item_head_end(s: Seq<char>, i: int)
    requires
        0 <= i <= s.len(),
    ensures
        match item_head_end(s, i) {
            Some(e) => i < e <= s.len(),
            None => true,
        },
{
    lemma_skip_ws_bounds(s, i);
    lemma_doc_lines_bounds(s, skip_ws(s, i), '#');
    let d = parse_documentation(s, i, '#');
    lemma_skip_ws_bounds(s, d.2);
    lemma_keyword_moves(s, skip_ws(s, d.2));
    if let Ok((_, _, e0)) = parse_keyword(s, skip_ws(s, d.2)) {
        lemma_iri_reference_moves(s, e0);
    }
}

/// An item: documentation (`##` lines), then `base <iri>`,
/// `prefix name: <iri>`, `group id { items }` or `rule id formula`.
pub open spec fn parse_item(s: Seq<char>, i: int) -> Outcome<ItemModel>
    decreases s.len() - i, 0int,
    when 0 <= i <= s.len()
{
    proof {
        lemma_item_head_end(s, i);
    }
    let d = parse_documentation(s, i, '#');
    let start = skip_ws(s, d.2);
    match parse_keyword(s, start) {
        Err(e) => Err(e),
        Ok((k, ksp, e0)) => match k {
            Keyword::Base => match parse_bracketed(s, e0, true) {
                Err(e) => Err(e),
                Ok((iri, sp, e)) => Ok((ItemModel::Base(iri), sp, e)),
            },
            Keyword::Prefix => prefix_binding(s, start, e0),
            Keyword::Group => match parse_iri_reference(s, e0) {
                Err(e) => Err(e),
                Ok((id, ids, e1)) => match parse_item_list(s, e1) {
                    Err(e) => Err(e),
                    Ok((items, isp, e2)) => Ok(
                        (ItemModel::Group { id: (id, ids), doc: d.0, items: (items, isp) }, span_of(s, start, e2), e2),
                    ),
                },
            },
            Keyword::Rule => match parse_iri_reference(s, e0) {
                Err(e) => Err(e),
                Ok((id, ids, e1)) => match parse_formula(s, e1) {
                    Err(e) => Err(e),
                    Ok((f, fs, e2)) => Ok(
                        (ItemModel::Rule { id: (id, ids), doc: d.0, formula: (f, fs) }, span_of(s, start, e2), e2),
                    ),
                },
            },
            _ => Err((ErrorModel::UnexpectedKeyword(k), ksp)),
        },
    }
}

/// Items between `{` and `}`.
pub open spec fn parse_item_list(s: Seq<char>, p: int) -> Outcome<Seq<(ItemModel, Span)>>
    decreases s.len() - p, 2int,
    when 0 <= p <= s.len()
{
    proof {
        lemma_skip_ws_bounds(s, p);
    }
    let start = skip_ws(s, p);
    if start < s.len() && s[start] == '{' {
        match items_from(s, start + 1) {
            Err(e) => Err(e),
            Ok((v, end)) => Ok((v, span_of(s, start, end), end)),
        }
    } else {
        unexpected_at(s, start)
    }
}

/// Items up to the closing `}`, from `j`. An item always ends after it
/// starts (`lemma_item_moves`): the last branch is never taken.
pub open spec fn items_from(s: Seq<char>, j: int) -> ListOutcome<(ItemModel, Span)>
    decreases s.len() - j, 1int,
    when 0 <= j <= s.len()
{
    proof {
        lemma_skip_ws_bounds(s, j);
    }
    let k = skip_ws(s, j);
    if k < s.len() && s[k] == '}' {
        Ok((Seq::empty(), k + 1))
    } else {
        match parse_item(s, k) {
            Err(e) => Err(e),
            Ok((it, sp, e)) => if k < e <= s.len() {
                match items_from(s, e) {
                    Err(x) => Err(x),
                    Ok((rest, end)) => Ok((seq![(it, sp)] + rest, end)),
                }
            } else {
                Err((ErrorModel::Unexpected(None), span_of(s, e, e)))
            },
        }
    }
}

pub proof fn lemma_item_moves(s: Seq<char>, i: int)
    requires
        0 <= i <= s.len(),
    ensures
        moves(parse_item(s, i), i, s.len() as int, true),
    decreases s.len() - i, 0int,
{
    reveal(prefix_binding);
    lemma_item_head_end(s, i);
    lemma_skip_ws_bounds(s, i);
    lemma_doc_lines_bounds(s, skip_ws(s, i), '#');
    let d = parse_documentation(s, i, '#');
    lemma_skip_ws_bounds(s, d.2);
    let start = skip_ws(s, d.2);
    lemma_keyword_moves(s, start);
    if let Ok((k, _, e0)) = parse_keyword(s, start) {
        lemma_bracketed_moves(s, e0, true);
        lemma_prefix_moves(s, e0);
        if let Ok((_, _, e1)) = parse_prefix(s, e0) {
            lemma_token_moves(s, e1, ':');
            if let Ok((_, _, e2)) = parse_token(s, e1, ':') {
                lemma_bracketed_moves(s, e2, false);
            }
        }
        lemma_iri_reference_moves(s, e0);
        if let Ok((_, _, e1)) = parse_iri_reference(s, e0) {
            lemma_item_list_moves(s, e1);
            lemma_formula_moves(s, e1);
        }
    }
}

pub proof fn lemma_item_list_moves(s: Seq<char>, p: int)
    requires
        0 <= p <= s.len(),
    ensures
        moves(parse_item_list(s, p), p, s.len() as int, true),
    decreases s.len() - p, 2int,
{
    lemma_skip_ws_bounds(s, p);
    let start = skip_ws(s, p);
    if start < s.len() {
        lemma_items_from_moves(s, start + 1);
    }
}

pub proof fn lemma_items_from_moves(s: Seq<char>, j: int)
    requires
        0 <= j <= s.len(),
    ensures
        parse_ok_within(items_from(s, j), j, s.len() as int),
    decreases s.len() - j, 1int,
{
    lemma_skip_ws_bounds(s, j);
    let k = skip_ws(s, j);
    if !(k < s.len() && s[k] == '}') {
        lemma_item_moves(s, k);
        if let Ok((_, _, e)) = parse_item(s, k) {
            lemma_items_from_moves(s, e);
        }
    }
}

pub proof fn lemma_formula_moves(s: Seq<char>, i: int)
    requires
        0 <= i <= s.len(),
    ensures
        moves(parse_formula(s, i), i, s.len() as int, true),
    decreases s.len() - i,
{
    reveal(braced_formula);
    reveal(conclusion_formula);
    lemma_skip_ws_bounds(s, i);
    lemma_quantified_hypothesis_end(s, i);
    let start = skip_ws(s, i);
    lemma_lists_move(s, start);
    if let Ok((_, _, e1)) = parse_hypothesis(s, start) {
        lemma_skip_ws_bounds(s, e1);
        let k = skip_ws(s, e1);
        if k + 2 <= s.len() {
            lemma_lists_move(s, k + 2);
        }
    }
    if start + 2 <= s.len() {
        lemma_lists_move(s, start + 2);
    }
    if let Some(e2) = quantified_hypothesis_end(s, i) {
        lemma_formula_moves(s, e2);
    }
}


pub proof fn lemma_items_model_push(v: Seq<Meta<Item, Span>>, x: Meta<Item, Span>)
    ensures
        items_model(v.push(x)) == items_model(v).push((item_model(x.0), x.1)),
{
    assert(v.push(x).subrange(0, v.len() as int) =~= v);
}

/// Parses `prefix name: <iri>` after its keyword.
fn parse_prefix_binding(parser: &mut Parser, start_index: usize, Ghost(start): Ghost<int>) -> (r: Result<Meta<Item, Span>, MetaError>)
    requires
        old(parser).wf(),
        0 <= start <= old(parser).cursor(),
        start_index == offset(old(parser).text(), start),
    ensures
        parsed(*old(parser), *final(parser), r, prefix_binding(old(parser).text(), start, old(parser).cursor()), |x: Item| item_model(x)),
{
    reveal(prefix_binding);
    let ghost s = parser.text();
    let prefix = Prefix::parse_with(parser)?;
    let colon = Colon::parse_with(parser)?;
    let iri = parse_iri_ref_with(parser)?;
    proof {
        parser.lemma_wf();
    }
    Ok(Meta(Item::Prefix(PrefixBinding { prefix, colon, iri }), Span::new(start_index, parser.position())))
}

impl Item {
    /// Parses an item with its documentation.
    pub fn parse_with(parser: &mut Parser) -> (r: Result<Meta<Item, Span>, MetaError>)
        requires
            old(parser).wf(),
        ensures
            parsed(*old(parser), *final(parser), r, parse_item(old(parser).text(), old(parser).cursor()), |x: Item| item_model(x)),
        decreases old(parser).text().len() - old(parser).cursor(), 0int,
    {
        let ghost s = parser.text();
        let ghost i = parser.cursor();
        proof {
            parser.lemma_wf();
            lemma_item_head_end(s, i);
            lemma_skip_ws_bounds(s, i);
            lemma_doc_lines_bounds(s, skip_ws(s, i), '#');
        }
        let doc = parse_documentation_with(parser, '#').0;
        let ghost d = parser.cursor();
        proof {
            lemma_skip_ws_bounds(s, d);
        }
        let start_index = parser.skip_whitespaces();
        let ghost start = parser.cursor();
        let Meta(keyword, kspan) = Keyword::parse_with(parser)?;
        match keyword {
            Keyword::Base => {
                let Meta(iri, meta) = parse_iri_with(parser)?;
                Ok(Meta(Item::Base(iri), meta))
            },
            Keyword::Prefix => parse_prefix_binding(parser, start_index, Ghost(start)),
            Keyword::Group => {
                let id = IriReference::parse_with(parser)?;
                let items = parse_item_list_with(parser)?;
                proof {
                    parser.lemma_wf();
                }
                Ok(Meta(Item::Group(Group { id, doc, items }), Span::new(start_index, parser.position())))
            },
            Keyword::Rule => {
                let id = IriReference::parse_with(parser)?;
                let formula = Formula::parse_with(parser)?;
                proof {
                    parser.lemma_wf();
                }
                Ok(Meta(Item::Rule(Rule { id, doc, formula }), Span::new(start_index, parser.position())))
            },
            other => Err(Meta(Error::UnexpectedKeyword(other), kspan)),
        }
    }
}

/// Parses items between `{` and `}`.
fn parse_item_list_with(parser: &mut Parser) -> (r: Result<Meta<Vec<Meta<Item, Span>>, Span>, MetaError>)
    requires
        old(parser).wf(),
    ensures
        parsed(*old(parser), *final(parser), r, parse_item_list(old(parser).text(), old(parser).cursor()), |v: Vec<Meta<Item, Span>>| items_model(v@)),
    decreases old(parser).text().len() - old(parser).cursor(), 2int,
{
    let ghost s = parser.text();
    proof {
        parser.lemma_wf();
    }
    let start_index = parser.skip_whitespaces();
    let ghost start = parser.cursor();
    proof {
        lemma_skip_ws_bounds(s, old(parser).cursor());
    }
    match parser.next_char() {
        Some('{') => {},
        u => {
            return Err(Meta(Error::Unexpected(Unexpected(u)), parser.last_char_span()));
        },
    }
    let mut items: Vec<Meta<Item, Span>> = Vec::new();
    loop
        invariant
            parser.wf(),
            parser.text() == s,
            s == old(parser).text(),
            start == skip_ws(s, old(parser).cursor()),
            old(parser).cursor() <= start,
            0 <= start < s.len() && s[start] == '{',
            start_index == offset(s, start),
            start < parser.cursor() <= s.len(),
            items_from(s, start + 1) == match items_from(s, parser.cursor()) {
                Ok((rest, end)) => Ok((items_model(items@) + rest, end)),
                Err(e) => Err(e),
            },
        decreases s.len() - parser.cursor(),
    {
        let ghost j = parser.cursor();
        parser.skip_whitespaces();
        let ghost k = parser.cursor();
        proof {
            lemma_skip_ws_bounds(s, j);
            lemma_item_moves(s, k);
        }
        match parser.peek() {
            Some('}') => {
                parser.next_char();
                proof {
                    assert(items_model(items@) + Seq::empty() =~= items_model(items@));
                }
                return Ok(Meta(items, Span::new(start_index, parser.position())));
            },
            _ => {
                let x = Item::parse_with(parser)?;
                let ghost before = items@;
                items.push(x);
                proof {
                    lemma_items_model_push(before, x);
                    if let Ok((rest, end)) = items_from(s, parser.cursor()) {
                        assert(items_model(before) + (seq![(item_model(x.0), x.1)] + rest) =~= items_model(items@) + rest);
                    }
                }
            },
        }
    }
}


/// Items from `j` on, each followed by white space, up to the end.
pub open spec fn doc_items_from(s: Seq<char>, j: int) -> ListOutcome<(ItemModel, Span)>
    decreases s.len() - j,
    when 0 <= j <= s.len()
{
    proof {
        lemma_item_moves(s, j);
        if let Ok((_, _, e)) = parse_item(s, j) {
            lemma_skip_ws_bounds(s, e);
        }
    }
    if j < s.len() {
        match parse_item(s, j) {
            Err(e) => Err(e),
            Ok((it, sp, e)) => match doc_items_from(s, skip_ws(s, e)) {
                Err(x) => Err(x),
                Ok((rest, end)) => Ok((seq![(it, sp)] + rest, end)),
            },
        }
    } else {
        Ok((Seq::empty(), j))
    }
}

/// A document: its documentation (`#!` lines), then its items.
pub open spec fn parse_document(s: Seq<char>) -> Result<(DocumentModel, Span), (ErrorModel, Span)> {
    let start = skip_ws(s, 0);
    let d = parse_documentation(s, start, '!');
    match doc_items_from(s, skip_ws(s, d.2)) {
        Err(e) => Err(e),
        Ok((items, end)) => Ok((DocumentModel { doc: d.0, items }, span_of(s, start, end))),
    }
}

impl Document {
    /// Parses a whole document from the parser's cursor, which is at the
    /// start of the text.
    pub fn parse_with(parser: &mut Parser) -> (r: Result<Meta<Document, Span>, MetaError>)
        requires
            old(parser).wf(),
            old(parser).cursor() == 0,
        ensures
            final(parser).wf(),
            final(parser).text() == old(parser).text(),
            match (r, parse_document(old(parser).text())) {
                (Ok(d), Ok((v, sp))) => document_model(d.0) == v && d.1 == sp,
                (Err(e), Err((ev, sp))) => error_model(e.0) == ev && e.1 == sp,
                _ => false,
            },
    {
        let ghost s = parser.text();
        proof {
            parser.lemma_wf();
            lemma_skip_ws_bounds(s, 0);
        }
        let start_index = parser.skip_whitespaces();
        let ghost start = parser.cursor();
        proof {
            lemma_skip_ws_bounds(s, start);
            lemma_doc_lines_bounds(s, start, '!');
        }
        let doc = parse_documentation_with(parser, '!').0;
        let ghost d = parser.cursor();
        proof {
            lemma_skip_ws_bounds(s, d);
        }
        parser.skip_whitespaces();
        let ghost j0 = parser.cursor();
        let mut items: Vec<Meta<Item, Span>> = Vec::new();
        loop
            invariant
                parser.wf(),
                parser.text() == s,
                s == old(parser).text(),
                start == skip_ws(s, 0),
                start_index == offset(s, start),
                j0 == skip_ws(s, parse_documentation(s, start, '!').2),
                doc.lines@.map_values(|x: String| x@) == parse_documentation(s, start, '!').0,
                0 <= j0 <= parser.cursor() <= s.len(),
                doc_items_from(s, j0) == match doc_items_from(s, parser.cursor()) {
                    Ok((rest, end)) => Ok((items_model(items@) + rest, end)),
                    Err(e) => Err(e),
                },
            decreases s.len() - parser.cursor(),
        {
            let ghost j = parser.cursor();
            proof {
                lemma_item_moves(s, j);
            }
            match parser.peek() {
                Some(_) => {
                    let x = Item::parse_with(parser)?;
                    let ghost e = parser.cursor();
                    proof {
                        lemma_skip_ws_bounds(s, e);
                    }
                    parser.skip_whitespaces();
                    let ghost before = items@;
                    items.push(x);
                    proof {
                        lemma_items_model_push(before, x);
                        if let Ok((rest, end)) = doc_items_from(s, parser.cursor()) {
                            assert(items_model(before) + (seq![(item_model(x.0), x.1)] + rest) =~= items_model(items@) + rest);
                        }
                    }
                },
                None => {
                    proof {
                        assert(items_model(items@) + Seq::empty() =~= items_model(items@));
                    }
                    return Ok(Meta(Document { doc, items }, Span::new(start_index, parser.position())));
                },
            }
        }
    }

    /// Parses a whole text.
    pub fn parse_chars(input: &[char]) -> (r: Result<Meta<Document, Span>, MetaError>)
        requires
            offset(input@, input@.len() as int) <= usize::MAX,
        ensures
            match (r, parse_document(input@)) {
                (Ok(d), Ok((v, sp))) => document_model(d.0) == v && d.1 == sp,
                (Err(e), Err((ev, sp))) => error_model(e.0) == ev && e.1 == sp,
                _ => false,
            },
    {
        let mut parser = Parser::new(input);
        Document::parse_with(&mut parser)
    }
}


/// Each keyword is named by its own text, and by no other keyword's.
/// Each keyword's text, read on its own, is that keyword, spanning the
/// whole text.
pub proof fn lemma_keyword_round_trip(k: Keyword)
    ensures
        parse_keyword(keyword_text(k), 0) == Ok::<(Keyword, Span, int), (ErrorModel, Span)>(
            (k, span_of(keyword_text(k), 0, keyword_text(k).len() as int), keyword_text(k).len() as int),
        ),
{
    let s = keyword_text(k);
    lemma_keyword_text_names_keyword(k);
    assert(skip_ws(s, 0) == 0);
    assert(is_alphabetic(s[0]));
    reveal_with_fuel(word_end, 7);
    assert(word_end(s, 1) == s.len());
    assert(s.subrange(0, s.len() as int) =~= s);
}

pub proof fn lemma_keyword_text_names_keyword(k: Keyword)
    ensures
        keyword_named(keyword_text(k)) == Some(k),
{
    let b = keyword_text(Keyword::Base);
    let p = keyword_text(Keyword::Prefix);
    let g = keyword_text(Keyword::Group);
    let r = keyword_text(Keyword::Rule);
    let f = keyword_text(Keyword::ForAll);
    let e = keyword_text(Keyword::Exists);
    assert(b[0] != p[0] && b[0] != g[0] && b[0] != r[0] && b[0] != f[0] && b[0] != e[0]);
    assert(p[0] != g[0] && p[0] != r[0] && p[0] != f[0] && p[0] != e[0]);
    assert(g[0] != r[0] && g[0] != f[0] && g[0] != e[0]);
    assert(r[0] != f[0] && r[0] != e[0]);
    assert(f[0] != e[0]);
}

pub proof fn lemma_doc_items_from_end(s: Seq<char>, j: int)
    requires
        0 <= j <= s.len(),
    ensures
        doc_items_from(s, j) matches Ok((_, end)) ==> end == s.len(),
    decreases s.len() - j,
{
    lemma_item_moves(s, j);
    if j < s.len() {
        if let Ok((_, _, e)) = parse_item(s, j) {
            lemma_skip_ws_bounds(s, e);
            lemma_doc_items_from_end(s, skip_ws(s, e));
        }
    }
}

/// A document that parses spans the text up to its last byte.
pub proof fn lemma_document_reaches_end(s: Seq<char>)
    requires
        offset(s, s.len() as int) <= usize::MAX,
    ensures
        parse_document(s) matches Ok((_, sp)) ==> sp.end == offset(s, s.len() as int),
{
    lemma_skip_ws_bounds(s, 0);
    let start = skip_ws(s, 0);
    lemma_doc_lines_bounds(s, start, '!');
    let d = parse_documentation(s, start, '!');
    lemma_skip_ws_bounds(s, d.2);
    lemma_doc_items_from_end(s, skip_ws(s, d.2));
}

} // verus!
