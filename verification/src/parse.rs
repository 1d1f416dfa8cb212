//! The schema-language parser: source text to one untyped expression tree.
//!
//! The grammar, mirrored exactly by the `spec_` functions below:
//! an expression is a parenthesized expression, a bracketed comma-separated
//! list, a function application (an identifier followed by whitespace-
//! separated argument expressions, continuing on the next line only behind
//! a two-space or tab indent), a natural below 256, a `"name"/"id"` keyword
//! pair, or a double-quoted string. Alternatives are tried in that order;
//! keyword before string, since keyword syntax leads with a string.
//! Parsing is all-or-nothing: leftover input is an error, and the top-level
//! expression must be a function application.

use vstd::prelude::*;

use crate::expr::{ExprU, ExprUView};

verus! {

/// Why a schema source was rejected: the whole text did not parse (carrying
/// the unconsumed remainder), or the top level is not a constructor
/// application.
#[derive(Clone, Debug, Eq, PartialEq)]
pub enum SchemaParseError {
    MustStartWithSchemaConstructor,
    UnexpectedInput(String),
}

/// Mathematical image of a [`SchemaParseError`].
#[verifier::ext_equal]
pub ghost enum SchemaParseErrorView {
    MustStartWithSchemaConstructor,
    UnexpectedInput(Seq<char>),
}

impl View for SchemaParseError {
    type V = SchemaParseErrorView;

    open spec fn view(&self) -> SchemaParseErrorView {
        match self {
            SchemaParseError::MustStartWithSchemaConstructor => {
                SchemaParseErrorView::MustStartWithSchemaConstructor
            },
            SchemaParseError::UnexpectedInput(rest) => {
                SchemaParseErrorView::UnexpectedInput(rest@)
            },
        }
    }
}

// ---------------------------------------------------------------------------
// Character classes and scanners.
// ---------------------------------------------------------------------------

/// Space or tab: the horizontal whitespace between tokens on one line.
pub open spec fn is_space_char(c: char) -> bool {
    c == ' ' || c == '\t'
}

/// Space, tab or newline: the whitespace separating function arguments and
/// list elements.
pub open spec fn is_line_space_char(c: char) -> bool {
    c == ' ' || c == '\t' || c == '\n'
}

/// An ASCII letter, as identifiers start with.
pub open spec fn is_alpha_char(c: char) -> bool {
    (97 <= c as u32 && c as u32 <= 122) || (65 <= c as u32 && c as u32 <= 90)
}

/// A character allowed after the first in an identifier.
pub open spec fn is_ident_char(c: char) -> bool {
    is_alpha_char(c) || c == '-'
}

/// An ASCII decimal digit.
pub open spec fn is_digit_char(c: char) -> bool {
    48 <= c as u32 && c as u32 <= 57
}

/// The first index at or after `pos` whose character fails `f`, or the end.
pub open spec fn scan_while(s: Seq<char>, pos: int, f: spec_fn(char) -> bool) -> int
    decreases s.len() - pos,
{
    if pos < 0 || pos >= s.len() || !f(s[pos]) {
        pos
    } else {
        scan_while(s, pos + 1, f)
    }
}

pub open spec fn skip_space(s: Seq<char>, pos: int) -> int {
    scan_while(s, pos, |c: char| is_space_char(c))
}

pub open spec fn skip_line_space(s: Seq<char>, pos: int) -> int {
    scan_while(s, pos, |c: char| is_line_space_char(c))
}

pub open spec fn skip_newlines(s: Seq<char>, pos: int) -> int {
    scan_while(s, pos, |c: char| c == '\n')
}

pub open spec fn scan_ident_end(s: Seq<char>, pos: int) -> int {
    scan_while(s, pos, |c: char| is_ident_char(c))
}

pub open spec fn scan_digits_end(s: Seq<char>, pos: int) -> int {
    scan_while(s, pos, |c: char| is_digit_char(c))
}

pub open spec fn scan_quote(s: Seq<char>, pos: int) -> int {
    scan_while(s, pos, |c: char| c != '"')
}

/// `x` forced into the range `[lo, s.len()]`. Scanners stay in that range
/// anyway; this keeps the grammar's termination measure obvious.
pub open spec fn bounded(s: Seq<char>, lo: int, x: int) -> int {
    if x < lo {
        lo
    } else if x > s.len() {
        s.len() as int
    } else {
        x
    }
}

/// A scan never moves backwards, never passes the end, accepts every
/// character it skips, and stops only at the end or at a rejected character.
pub proof fn lemma_scan_while(s: Seq<char>, pos: int, f: spec_fn(char) -> bool)
    requires
        0 <= pos <= s.len(),
    ensures
        pos <= scan_while(s, pos, f) <= s.len(),
        forall|k: int| pos <= k < scan_while(s, pos, f) ==> f(#[trigger] s[k]),
        scan_while(s, pos, f) < s.len() ==> !f(s[scan_while(s, pos, f)]),
    decreases s.len() - pos,
{
    if pos < s.len() && f(s[pos]) {
        lemma_scan_while(s, pos + 1, f);
    }
}

// ---------------------------------------------------------------------------
// Tokens: identifiers, strings, keywords, naturals, separators.
// ---------------------------------------------------------------------------

/// An identifier: a letter, then letters and hyphens, maximal.
pub open spec fn spec_ident(s: Seq<char>, pos: int) -> Option<(int, Seq<char>)> {
    if 0 <= pos < s.len() && is_alpha_char(s[pos]) {
        let e = bounded(s, pos + 1, scan_ident_end(s, pos + 1));
        Some((e, s.subrange(pos, e)))
    } else {
        None
    }
}

/// What may follow a function's identifier before its first argument:
/// either spaces, one or more newlines and a two-space or tab indent (the
/// line-continuation rule), or at least one space, or the end of input.
pub open spec fn spec_lexeme_end(s: Seq<char>, pos: int) -> Option<int> {
    let a = bounded(s, pos, skip_space(s, pos));
    let b = bounded(s, a, skip_newlines(s, a));
    if b > a && b + 2 <= s.len() && s[b] == ' ' && s[b + 1] == ' ' {
        Some(b + 2)
    } else if b > a && b < s.len() && s[b] == '\t' {
        Some(b + 1)
    } else {
        let c = bounded(s, pos, skip_space(s, pos));
        if c > pos {
            Some(c)
        } else if pos == s.len() {
            Some(pos)
        } else {
            None
        }
    }
}

/// A string literal: a double quote, anything up to the next double quote,
/// and that closing quote. The quotes are not part of the value.
pub open spec fn spec_string_lit(s: Seq<char>, pos: int) -> Option<(int, Seq<char>)> {
    if 0 <= pos < s.len() && s[pos] == '"' {
        let e = bounded(s, pos + 1, scan_quote(s, pos + 1));
        if e < s.len() {
            Some((e + 1, s.subrange(pos + 1, e)))
        } else {
            None
        }
    } else {
        None
    }
}

/// A keyword pair: a string, a slash, a string; display name and stable
/// identifier.
pub open spec fn spec_keyword(s: Seq<char>, pos: int) -> Option<(int, ExprUView)> {
    match spec_string_lit(s, pos) {
        None => None,
        Some((p1, name)) => if p1 < s.len() && s[p1] == '/' {
            match spec_string_lit(s, p1 + 1) {
                None => None,
                Some((p2, id)) => Some((p2, ExprUView::Keyword { name, id })),
            }
        } else {
            None
        },
    }
}

/// The value of the decimal digits of `s` in `[pos, e)`.
pub open spec fn digits_val(s: Seq<char>, pos: int, e: int) -> int
    decreases e - pos,
{
    if e <= pos {
        0
    } else {
        digits_val(s, pos, e - 1) * 10 + (s[e - 1] as u32 - 48)
    }
}

/// A natural: a maximal run of digits whose value fits in eight bits;
/// a larger value is a parse failure, not a truncation.
pub open spec fn spec_nat(s: Seq<char>, pos: int) -> Option<(int, u8)> {
    if 0 <= pos < s.len() && is_digit_char(s[pos]) {
        let e = bounded(s, pos + 1, scan_digits_end(s, pos + 1));
        let v = digits_val(s, pos, e);
        if v <= 255 {
            Some((e, v as u8))
        } else {
            None
        }
    } else {
        None
    }
}

// ---------------------------------------------------------------------------
// The grammar.
// ---------------------------------------------------------------------------

/// One expression, alternatives in grammar order.
pub open spec fn spec_expr(s: Seq<char>, pos: int) -> Option<(int, ExprUView)>
    decreases s.len() - pos, 3int,
{
    if pos < 0 || pos >= s.len() {
        None
    } else {
        let parens = if s[pos] == '(' {
            match spec_expr(s, pos + 1) {
                Some((p, e)) => if pos + 1 <= p < s.len() && s[p] == ')' {
                    Some((p + 1, e))
                } else {
                    None
                },
                None => None,
            }
        } else {
            None
        };
        match parens {
            Some(r) => Some(r),
            None => match spec_list(s, pos) {
                Some(r) => Some(r),
                None => match spec_func(s, pos) {
                    Some(r) => Some(r),
                    None => match spec_nat(s, pos) {
                        Some((p, n)) => Some((p, ExprUView::Nat(n))),
                        None => match spec_keyword(s, pos) {
                            Some(r) => Some(r),
                            None => match spec_string_lit(s, pos) {
                                Some((p, str)) => Some((p, ExprUView::Str(str))),
                                None => None,
                            },
                        },
                    },
                },
            },
        }
    }
}

/// A bracketed list: `[`, comma-separated expressions with free whitespace,
/// `]`; when no first element parses, whitespace and `]` make the empty
/// list.
pub open spec fn spec_list(s: Seq<char>, pos: int) -> Option<(int, ExprUView)>
    decreases s.len() - pos, 2int,
{
    if pos < 0 || pos >= s.len() || s[pos] != '[' {
        None
    } else {
        match spec_elements(s, pos + 1) {
            Some((p, es)) => if pos + 1 <= p < s.len() && s[p] == ']' {
                Some((p + 1, ExprUView::List(es)))
            } else {
                None
            },
            None => {
                let a = bounded(s, pos + 1, skip_line_space(s, pos + 1));
                if a < s.len() && s[a] == ']' {
                    Some((a + 1, ExprUView::List(Seq::empty())))
                } else {
                    None
                }
            },
        }
    }
}

/// One or more list elements, each padded by whitespace, separated by
/// commas. Stops before a separator that is not followed by an element.
pub open spec fn spec_elements(s: Seq<char>, pos: int) -> Option<(int, Seq<ExprUView>)>
    decreases s.len() - pos, 5int,
{
    if pos < 0 || pos > s.len() {
        None
    } else {
        let a = bounded(s, pos, skip_line_space(s, pos));
        match spec_expr(s, a) {
            None => None,
            Some((p1, e)) => if a <= p1 <= s.len() {
                let b = bounded(s, p1, skip_line_space(s, p1));
                let r = spec_elems_rest(s, b);
                Some((r.0, seq![e] + r.1))
            } else {
                None
            },
        }
    }
}

/// Further `, element` groups; the position returned is after the last
/// element's trailing whitespace.
pub open spec fn spec_elems_rest(s: Seq<char>, pos: int) -> (int, Seq<ExprUView>)
    decreases s.len() - pos, 4int,
{
    if pos < 0 || pos > s.len() {
        (pos, Seq::empty())
    } else {
        let a = bounded(s, pos, skip_line_space(s, pos));
        if a < s.len() && s[a] == ',' {
            let b = bounded(s, a + 1, skip_line_space(s, a + 1));
            match spec_expr(s, b) {
                None => (pos, Seq::empty()),
                Some((p, e)) => if b <= p <= s.len() {
                    let c = bounded(s, p, skip_line_space(s, p));
                    let r = spec_elems_rest(s, c);
                    (r.0, seq![e] + r.1)
                } else {
                    (pos, Seq::empty())
                },
            }
        } else {
            (pos, Seq::empty())
        }
    }
}

/// A function application: an identifier, the separator rule, then greedily
/// many argument expressions.
pub open spec fn spec_func(s: Seq<char>, pos: int) -> Option<(int, ExprUView)>
    decreases s.len() - pos, 1int,
{
    if pos < 0 || pos >= s.len() {
        None
    } else {
        match spec_ident(s, pos) {
            None => None,
            Some((pe, name)) => match spec_lexeme_end(s, pe) {
                None => None,
                Some(pa0) => {
                    let pa = bounded(s, pos + 1, pa0);
                    let r = spec_args(s, pa);
                    Some((r.0, ExprUView::Fn { name, args: r.1 }))
                },
            },
        }
    }
}

/// Zero or more argument expressions: the first right here, the rest each
/// behind at least one whitespace character.
pub open spec fn spec_args(s: Seq<char>, pos: int) -> (int, Seq<ExprUView>)
    decreases s.len() - pos, 5int,
{
    if pos < 0 || pos > s.len() {
        (pos, Seq::empty())
    } else {
        match spec_expr(s, pos) {
            None => (pos, Seq::empty()),
            Some((p, e)) => if pos <= p <= s.len() {
                let r = spec_args_rest(s, p);
                (r.0, seq![e] + r.1)
            } else {
                (pos, Seq::empty())
            },
        }
    }
}

/// Further whitespace-separated arguments. A separator not followed by an
/// argument is left unconsumed.
pub open spec fn spec_args_rest(s: Seq<char>, pos: int) -> (int, Seq<ExprUView>)
    decreases s.len() - pos, 4int,
{
    if pos < 0 || pos > s.len() {
        (pos, Seq::empty())
    } else {
        let a = bounded(s, pos, skip_line_space(s, pos));
        if a == pos {
            (pos, Seq::empty())
        } else {
            match spec_expr(s, a) {
                None => (pos, Seq::empty()),
                Some((p, e)) => if a <= p <= s.len() {
                    let r = spec_args_rest(s, p);
                    (r.0, seq![e] + r.1)
                } else {
                    (pos, Seq::empty())
                },
            }
        }
    }
}

/// Everything `parse` returns: the top expression must consume the whole
/// input and be a function application.
pub open spec fn spec_parse_source(s: Seq<char>) -> Result<ExprUView, SchemaParseErrorView> {
    match spec_expr(s, 0) {
        None => Err(SchemaParseErrorView::UnexpectedInput(s)),
        Some((p, e)) => if p < s.len() {
            Err(SchemaParseErrorView::UnexpectedInput(s.skip(p)))
        } else if e is Fn {
            Ok(e)
        } else {
            Err(SchemaParseErrorView::MustStartWithSchemaConstructor)
        },
    }
}


// ---------------------------------------------------------------------------
// Executable scanners.
// ---------------------------------------------------------------------------

fn space_at(s: &str, i: usize) -> (r: bool)
    requires
        i < s@.len(),
    ensures
        r == is_space_char(s@[i as int]),
{
    let c = s.get_char(i);
    c == ' ' || c == '\t'
}

fn line_space_at(s: &str, i: usize) -> (r: bool)
    requires
        i < s@.len(),
    ensures
        r == is_line_space_char(s@[i as int]),
{
    let c = s.get_char(i);
    c == ' ' || c == '\t' || c == '\n'
}

fn newline_at(s: &str, i: usize) -> (r: bool)
    requires
        i < s@.len(),
    ensures
        r == (s@[i as int] == '\n'),
{
    s.get_char(i) == '\n'
}

fn alpha_at(s: &str, i: usize) -> (r: bool)
    requires
        i < s@.len(),
    ensures
        r == is_alpha_char(s@[i as int]),
{
    let u = s.get_char(i) as u32;
    (97 <= u && u <= 122) || (65 <= u && u <= 90)
}

fn ident_at(s: &str, i: usize) -> (r: bool)
    requires
        i < s@.len(),
    ensures
        r == is_ident_char(s@[i as int]),
{
    let c = s.get_char(i);
    let u = c as u32;
    (97 <= u && u <= 122) || (65 <= u && u <= 90) || c == '-'
}

fn digit_at(s: &str, i: usize) -> (r: bool)
    requires
        i < s@.len(),
    ensures
        r == is_digit_char(s@[i as int]),
{
    let u = s.get_char(i) as u32;
    48 <= u && u <= 57
}

fn skip_space_exec(s: &str, pos: usize) -> (r: usize)
    requires
        pos <= s@.len(),
    ensures
        r as int == skip_space(s@, pos as int),
        pos <= r <= s@.len(),
{
    let len = s.unicode_len();
    let mut i = pos;
    while i < len && space_at(s, i)
        invariant
            len == s@.len(),
            pos <= i <= len,
            skip_space(s@, pos as int) == skip_space(s@, i as int),
        decreases len - i,
    {
        i = i + 1;
    }
    assert(skip_space(s@, i as int) == i as int);
    i
}

/// Skip spaces, tabs and newlines from `pos`; the position after them.
pub fn line_space0(s: &str, pos: usize) -> (r: usize)
    requires
        pos <= s@.len(),
    ensures
        r as int == skip_line_space(s@, pos as int),
        pos <= r <= s@.len(),
{
    let len = s.unicode_len();
    let mut i = pos;
    while i < len && line_space_at(s, i)
        invariant
            len == s@.len(),
            pos <= i <= len,
            skip_line_space(s@, pos as int) == skip_line_space(s@, i as int),
        decreases len - i,
    {
        i = i + 1;
    }
    assert(skip_line_space(s@, i as int) == i as int);
    i
}

fn skip_newlines_exec(s: &str, pos: usize) -> (r: usize)
    requires
        pos <= s@.len(),
    ensures
        r as int == skip_newlines(s@, pos as int),
        pos <= r <= s@.len(),
{
    let len = s.unicode_len();
    let mut i = pos;
    while i < len && newline_at(s, i)
        invariant
            len == s@.len(),
            pos <= i <= len,
            skip_newlines(s@, pos as int) == skip_newlines(s@, i as int),
        decreases len - i,
    {
        i = i + 1;
    }
    assert(skip_newlines(s@, i as int) == i as int);
    i
}

fn scan_ident_exec(s: &str, pos: usize) -> (r: usize)
    requires
        pos <= s@.len(),
    ensures
        r as int == scan_ident_end(s@, pos as int),
        pos <= r <= s@.len(),
{
    let len = s.unicode_len();
    let mut i = pos;
    while i < len && ident_at(s, i)
        invariant
            len == s@.len(),
            pos <= i <= len,
            scan_ident_end(s@, pos as int) == scan_ident_end(s@, i as int),
        decreases len - i,
    {
        i = i + 1;
    }
    assert(scan_ident_end(s@, i as int) == i as int);
    i
}

fn scan_digits_exec(s: &str, pos: usize) -> (r: usize)
    requires
        pos <= s@.len(),
    ensures
        r as int == scan_digits_end(s@, pos as int),
        pos <= r <= s@.len(),
{
    let len = s.unicode_len();
    let mut i = pos;
    while i < len && digit_at(s, i)
        invariant
            len == s@.len(),
            pos <= i <= len,
            scan_digits_end(s@, pos as int) == scan_digits_end(s@, i as int),
        decreases len - i,
    {
        i = i + 1;
    }
    assert(scan_digits_end(s@, i as int) == i as int);
    i
}

fn scan_quote_exec(s: &str, pos: usize) -> (r: usize)
    requires
        pos <= s@.len(),
    ensures
        r as int == scan_quote(s@, pos as int),
        pos <= r <= s@.len(),
{
    let len = s.unicode_len();
    let mut i = pos;
    while i < len && s.get_char(i) != '"'
        invariant
            len == s@.len(),
            pos <= i <= len,
            scan_quote(s@, pos as int) == scan_quote(s@, i as int),
        decreases len - i,
    {
        i = i + 1;
    }
    assert(scan_quote(s@, i as int) == i as int);
    i
}

// ---------------------------------------------------------------------------
// Executable token parsers.
// ---------------------------------------------------------------------------

/// An identifier at `pos`.
pub fn ident(s: &str, pos: usize) -> (r: Option<(usize, String)>)
    requires
        pos <= s@.len(),
    ensures
        match r {
            None => spec_ident(s@, pos as int) is None,
            Some((p, name)) => spec_ident(s@, pos as int) == Some((p as int, name@)) && pos < p
                <= s@.len(),
        },
{
    let len = s.unicode_len();
    if pos < len && alpha_at(s, pos) {
        let e = scan_ident_exec(s, pos + 1);
        assert(bounded(s@, pos as int + 1, scan_ident_end(s@, pos as int + 1)) == e as int);
        let name = s.substring_char(pos, e).to_owned();
        assert(name@ == s@.subrange(pos as int, e as int));
        Some((e, name))
    } else {
        None
    }
}

/// The separator rule after a function's identifier.
pub fn lexeme_end(s: &str, pos: usize) -> (r: Option<usize>)
    requires
        pos <= s@.len(),
    ensures
        match r {
            None => spec_lexeme_end(s@, pos as int) is None,
            Some(p) => spec_lexeme_end(s@, pos as int) == Some(p as int) && pos <= p <= s@.len(),
        },
{
    let len = s.unicode_len();
    let a = skip_space_exec(s, pos);
    let b = skip_newlines_exec(s, a);
    assert(bounded(s@, pos as int, skip_space(s@, pos as int)) == a as int);
    assert(bounded(s@, a as int, skip_newlines(s@, a as int)) == b as int);
    if b > a && len >= 2 && b <= len - 2 && s.get_char(b) == ' ' && s.get_char(b + 1) == ' ' {
        Some(b + 2)
    } else if b > a && b < len && s.get_char(b) == '\t' {
        Some(b + 1)
    } else {
        if a > pos {
            Some(a)
        } else if pos == len {
            Some(pos)
        } else {
            None
        }
    }
}

/// A string literal at `pos`; the value excludes the quotes.
pub fn string_lit(s: &str, pos: usize) -> (r: Option<(usize, String)>)
    requires
        pos <= s@.len(),
    ensures
        match r {
            None => spec_string_lit(s@, pos as int) is None,
            Some((p, v)) => spec_string_lit(s@, pos as int) == Some((p as int, v@)) && pos < p
                <= s@.len(),
        },
{
    let len = s.unicode_len();
    if pos < len && s.get_char(pos) == '"' {
        let e = scan_quote_exec(s, pos + 1);
        assert(bounded(s@, pos as int + 1, scan_quote(s@, pos as int + 1)) == e as int);
        if e < len {
            let v = s.substring_char(pos + 1, e).to_owned();
            assert(v@ == s@.subrange(pos as int + 1, e as int));
            Some((e + 1, v))
        } else {
            None
        }
    } else {
        None
    }
}

/// A keyword pair at `pos`.
pub fn keyword(s: &str, pos: usize) -> (r: Option<(usize, ExprU)>)
    requires
        pos <= s@.len(),
    ensures
        match r {
            None => spec_keyword(s@, pos as int) is None,
            Some((p, e)) => spec_keyword(s@, pos as int) == Some((p as int, e@)) && pos < p
                <= s@.len(),
        },
{
    let len = s.unicode_len();
    match string_lit(s, pos) {
        None => None,
        Some((p1, name)) => {
            if p1 < len && s.get_char(p1) == '/' {
                match string_lit(s, p1 + 1) {
                    None => None,
                    Some((p2, id)) => Some((p2, ExprU::KeywordU { name, id })),
                }
            } else {
                None
            }
        },
    }
}

proof fn lemma_digits_val_nonneg(s: Seq<char>, pos: int, e: int)
    requires
        forall|k: int| pos <= k < e ==> is_digit_char(#[trigger] s[k]),
    ensures
        digits_val(s, pos, e) >= 0,
    decreases e - pos,
{
    if e > pos {
        lemma_digits_val_nonneg(s, pos, e - 1);
    }
}

/// A natural at `pos`: digits with a value below 256.
pub fn nat_lit(s: &str, pos: usize) -> (r: Option<(usize, u8)>)
    requires
        pos <= s@.len(),
    ensures
        match r {
            None => spec_nat(s@, pos as int) is None,
            Some((p, n)) => spec_nat(s@, pos as int) == Some((p as int, n)) && pos < p <= s@.len(),
        },
{
    let len = s.unicode_len();
    if pos < len && digit_at(s, pos) {
        let e = scan_digits_exec(s, pos + 1);
        assert(bounded(s@, pos as int + 1, scan_digits_end(s@, pos as int + 1)) == e as int);
        proof {
            lemma_scan_while(s@, pos as int + 1, |c: char| is_digit_char(c));
        }
        assert(forall|k: int| pos <= k < e ==> is_digit_char(#[trigger] s@[k]));
        let mut v: u32 = 0;
        let mut over = false;
        let mut k = pos;
        while k < e
            invariant
                pos <= k <= e,
                e <= s@.len(),
                forall|x: int| pos <= x < e ==> is_digit_char(#[trigger] s@[x]),
                !over ==> v as int == digits_val(s@, pos as int, k as int) && v <= 255,
                over ==> digits_val(s@, pos as int, k as int) > 255,
            decreases e - k,
        {
            let c = s.get_char(k);
            assert(is_digit_char(c));
            let d = c as u32 - 48;
            proof {
                lemma_digits_val_nonneg(s@, pos as int, k as int);
            }
            if !over {
                let nv = v * 10 + d;
                assert(nv as int == digits_val(s@, pos as int, k as int + 1));
                if nv > 255 {
                    over = true;
                } else {
                    v = nv;
                }
            } else {
                assert(digits_val(s@, pos as int, k as int + 1) > 255) by {
                    assert(digits_val(s@, pos as int, k as int) * 10 + (s@[k as int] as u32 - 48)
                        >= digits_val(s@, pos as int, k as int));
                }
            }
            k = k + 1;
        }
        if over {
            assert(spec_nat(s@, pos as int) is None);
            None
        } else {
            assert(v <= 255);
            Some((e, v as u8))
        }
    } else {
        None
    }
}

// ---------------------------------------------------------------------------
// The executable grammar.
// ---------------------------------------------------------------------------

/// One expression at `pos`, alternatives in grammar order.
pub fn expr(s: &str, pos: usize) -> (r: Option<(usize, ExprU)>)
    requires
        pos <= s@.len(),
    ensures
        match r {
            None => spec_expr(s@, pos as int) is None,
            Some((p, e)) => spec_expr(s@, pos as int) == Some((p as int, e@)) && pos <= p
                <= s@.len(),
        },
    decreases s@.len() - pos, 3int,
{
    let len = s.unicode_len();
    if pos >= len {
        return None;
    }
    let ghost parens_spec = if s@[pos as int] == '(' {
        match spec_expr(s@, pos as int + 1) {
            Some((p, e)) => if pos + 1 <= p < s@.len() && s@[p] == ')' {
                Some((p + 1, e))
            } else {
                None
            },
            None => None,
        }
    } else {
        None::<(int, ExprUView)>
    };
    if s.get_char(pos) == '(' {
        match expr(s, pos + 1) {
            Some((p, e)) => {
                if p < len && s.get_char(p) == ')' {
                    assert(parens_spec == Some((p as int + 1, e@)));
                    return Some((p + 1, e));
                }
            },
            None => {},
        }
    }
    assert(parens_spec is None);
    match list(s, pos) {
        Some(r) => {
            return Some(r);
        },
        None => {},
    }
    match func(s, pos) {
        Some(r) => {
            return Some(r);
        },
        None => {},
    }
    match nat_lit(s, pos) {
        Some((p, n)) => {
            return Some((p, ExprU::NatU(n)));
        },
        None => {},
    }
    match keyword(s, pos) {
        Some(r) => {
            return Some(r);
        },
        None => {},
    }
    match string_lit(s, pos) {
        Some((p, v)) => {
            return Some((p, ExprU::StringU(v)));
        },
        None => {},
    }
    None
}

/// A bracketed list at `pos`.
pub fn list(s: &str, pos: usize) -> (r: Option<(usize, ExprU)>)
    requires
        pos <= s@.len(),
    ensures
        match r {
            None => spec_list(s@, pos as int) is None,
            Some((p, e)) => spec_list(s@, pos as int) == Some((p as int, e@)) && pos <= p
                <= s@.len(),
        },
    decreases s@.len() - pos, 2int,
{
    let len = s.unicode_len();
    if pos >= len {
        return None;
    }
    if s.get_char(pos) != '[' {
        return None;
    }
    match elements(s, pos + 1) {
        Some((p, es)) => {
            if p < len && s.get_char(p) == ']' {
                let node = ExprU::ListU(es);
                proof {
                    crate::expr::lemma_deep_is_view_exprs(node->ListU_0);
                }
                Some((p + 1, node))
            } else {
                None
            }
        },
        None => {
            let a = line_space0(s, pos + 1);
            assert(bounded(s@, pos as int + 1, skip_line_space(s@, pos as int + 1)) == a as int);
            if a < len && s.get_char(a) == ']' {
                let node = ExprU::ListU(Vec::new());
                proof {
                    crate::expr::lemma_deep_is_view_exprs(node->ListU_0);
                    assert(node@ =~= ExprUView::List(Seq::empty()));
                }
                Some((a + 1, node))
            } else {
                None
            }
        },
    }
}

/// One or more list elements at `pos`.
pub fn elements(s: &str, pos: usize) -> (r: Option<(usize, Vec<ExprU>)>)
    requires
        pos <= s@.len(),
    ensures
        match r {
            None => spec_elements(s@, pos as int) is None,
            Some((p, es)) => spec_elements(s@, pos as int) == Some((p as int, es.deep_view()))
                && pos <= p <= s@.len(),
        },
    decreases s@.len() - pos, 5int,
{
    let ghost slen = s@.len();
    let a = line_space0(s, pos);
    assert(bounded(s@, pos as int, skip_line_space(s@, pos as int)) == a as int);
    match expr(s, a) {
        None => None,
        Some((p1, e)) => {
            let b = line_space0(s, p1);
            assert(bounded(s@, p1 as int, skip_line_space(s@, p1 as int)) == b as int);
            let ghost first = e@;
            let mut acc: Vec<ExprU> = Vec::new();
            acc.push(e);
            proof {
                assert(acc.deep_view() =~= seq![first]);
            }
            let mut cur = b;
            let ghost rest0 = spec_elems_rest(s@, b as int);
            #[verifier::loop_isolation(true)]
            loop
                invariant_except_break
                    rest0.0 == spec_elems_rest(s@, cur as int).0,
                    rest0.1 =~= acc.deep_view().skip(1) + spec_elems_rest(s@, cur as int).1,
                invariant
                    slen == s@.len(),
                    pos <= cur <= slen,
                    b <= cur,
                    acc.deep_view().len() >= 1,
                    acc.deep_view()[0] == first,
                ensures
                    pos <= cur <= slen,
                    rest0.0 == cur as int,
                    rest0.1 =~= acc.deep_view().skip(1),
                    acc.deep_view().len() >= 1,
                    acc.deep_view()[0] == first,
                decreases slen - cur,
            {
                let a2 = line_space0(s, cur);
                assert(bounded(s@, cur as int, skip_line_space(s@, cur as int)) == a2 as int);
                if a2 >= s.unicode_len() || s.get_char(a2) != ',' {
                    assert(spec_elems_rest(s@, cur as int) == (
                        cur as int,
                        Seq::<ExprUView>::empty(),
                    ));
                    break;
                }
                let b2 = line_space0(s, a2 + 1);
                assert(bounded(s@, a2 as int + 1, skip_line_space(s@, a2 as int + 1))
                    == b2 as int);
                match expr(s, b2) {
                    None => {
                        assert(spec_elems_rest(s@, cur as int) == (
                            cur as int,
                            Seq::<ExprUView>::empty(),
                        ));
                        break;
                    },
                    Some((p2, e2)) => {
                        let c2 = line_space0(s, p2);
                        assert(bounded(s@, p2 as int, skip_line_space(s@, p2 as int))
                            == c2 as int);
                        let ghost oldacc = acc.deep_view();
                        let ghost e2v = e2@;
                        acc.push(e2);
                        proof {
                            assert(acc.deep_view() =~= oldacc.push(e2v));
                            assert(spec_elems_rest(s@, cur as int).1 =~= seq![e2v]
                                + spec_elems_rest(s@, c2 as int).1);
                            assert(acc.deep_view().skip(1) =~= oldacc.skip(1).push(e2v));
                            assert(oldacc.skip(1) + (seq![e2v] + spec_elems_rest(
                                s@,
                                c2 as int,
                            ).1) =~= acc.deep_view().skip(1) + spec_elems_rest(s@, c2 as int).1);
                        }
                        cur = c2;
                    },
                }
            }
            proof {
                assert(spec_elements(s@, pos as int) == Some(
                    (rest0.0, seq![first] + rest0.1),
                ));
                assert(seq![first] + acc.deep_view().skip(1) =~= acc.deep_view());
            }
            Some((cur, acc))
        },
    }
}

/// A function application at `pos`.
pub fn func(s: &str, pos: usize) -> (r: Option<(usize, ExprU)>)
    requires
        pos <= s@.len(),
    ensures
        match r {
            None => spec_func(s@, pos as int) is None,
            Some((p, e)) => spec_func(s@, pos as int) == Some((p as int, e@)) && pos <= p
                <= s@.len(),
        },
    decreases s@.len() - pos, 1int,
{
    let len = s.unicode_len();
    if pos >= len {
        return None;
    }
    match ident(s, pos) {
        None => None,
        Some((pe, name)) => {
            match lexeme_end(s, pe) {
                None => None,
                Some(pa) => {
                    assert(pa >= pos + 1);
                    assert(bounded(s@, pos as int + 1, pa as int) == pa as int);
                    let (pend, args) = args_exec(s, pa);
                    let node = ExprU::FnU { name, args };
                    proof {
                        crate::expr::lemma_deep_is_view_exprs(node->FnU_args);
                    }
                    Some((pend, node))
                },
            }
        },
    }
}

/// Zero or more argument expressions from `pos`.
fn args_exec(s: &str, pos: usize) -> (r: (usize, Vec<ExprU>))
    requires
        pos <= s@.len(),
    ensures
        spec_args(s@, pos as int) == (r.0 as int, r.1.deep_view()),
        pos <= r.0 <= s@.len(),
    decreases s@.len() - pos, 5int,
{
    let ghost slen = s@.len();
    match expr(s, pos) {
        None => {
            let empty: Vec<ExprU> = Vec::new();
            proof {
                assert(empty.deep_view() =~= Seq::<ExprUView>::empty());
            }
            (pos, empty)
        },
        Some((p1, e)) => {
            let ghost first = e@;
            let mut acc: Vec<ExprU> = Vec::new();
            acc.push(e);
            proof {
                assert(acc.deep_view() =~= seq![first]);
            }
            let mut cur = p1;
            let ghost rest0 = spec_args_rest(s@, p1 as int);
            #[verifier::loop_isolation(true)]
            loop
                invariant_except_break
                    rest0.0 == spec_args_rest(s@, cur as int).0,
                    rest0.1 =~= acc.deep_view().skip(1) + spec_args_rest(s@, cur as int).1,
                invariant
                    slen == s@.len(),
                    pos <= cur <= slen,
                    p1 <= cur,
                    acc.deep_view().len() >= 1,
                    acc.deep_view()[0] == first,
                ensures
                    pos <= cur <= slen,
                    rest0.0 == cur as int,
                    rest0.1 =~= acc.deep_view().skip(1),
                    acc.deep_view().len() >= 1,
                    acc.deep_view()[0] == first,
                decreases slen - cur,
            {
                let a2 = line_space0(s, cur);
                assert(bounded(s@, cur as int, skip_line_space(s@, cur as int)) == a2 as int);
                if a2 == cur {
                    assert(spec_args_rest(s@, cur as int) == (
                        cur as int,
                        Seq::<ExprUView>::empty(),
                    ));
                    break;
                }
                match expr(s, a2) {
                    None => {
                        assert(spec_args_rest(s@, cur as int) == (
                            cur as int,
                            Seq::<ExprUView>::empty(),
                        ));
                        break;
                    },
                    Some((p2, e2)) => {
                        let ghost oldacc = acc.deep_view();
                        let ghost e2v = e2@;
                        acc.push(e2);
                        proof {
                            assert(acc.deep_view() =~= oldacc.push(e2v));
                            assert(spec_args_rest(s@, cur as int).1 =~= seq![e2v]
                                + spec_args_rest(s@, p2 as int).1);
                            assert(acc.deep_view().skip(1) =~= oldacc.skip(1).push(e2v));
                            assert(oldacc.skip(1) + (seq![e2v] + spec_args_rest(
                                s@,
                                p2 as int,
                            ).1) =~= acc.deep_view().skip(1) + spec_args_rest(s@, p2 as int).1);
                        }
                        cur = p2;
                    },
                }
            }
            proof {
                assert(spec_args(s@, pos as int) == (rest0.0, seq![first] + rest0.1));
                assert(seq![first] + acc.deep_view().skip(1) =~= acc.deep_view());
            }
            (cur, acc)
        },
    }
}

/// Parse one schema source text to its untyped tree. Succeeds if and only if
/// the whole input is one function-application expression; leftover input is
/// `UnexpectedInput` carrying the remainder, and a complete expression of
/// another shape is `MustStartWithSchemaConstructor`.
pub fn parse(input: &str) -> (r: Result<ExprU, SchemaParseError>)
    ensures
        match r {
            Ok(e) => spec_parse_source(input@) == Ok::<_, SchemaParseErrorView>(e@),
            Err(err) => spec_parse_source(input@) == Err::<ExprUView, _>(err@),
        },
{
    let len = input.unicode_len();
    match expr(input, 0) {
        None => Err(SchemaParseError::UnexpectedInput(input.to_owned())),
        Some((p, e)) => {
            if p < len {
                let rest = input.substring_char(p, len).to_owned();
                proof {
                    assert(rest@ =~= input@.skip(p as int));
                }
                Err(SchemaParseError::UnexpectedInput(rest))
            } else {
                if matches!(e, ExprU::FnU { .. }) {
                    Ok(e)
                } else {
                    Err(SchemaParseError::MustStartWithSchemaConstructor)
                }
            }
        },
    }
}

} // verus!
