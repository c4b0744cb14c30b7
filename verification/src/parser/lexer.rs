use vstd::prelude::*;
use crate::angle::PI;
use crate::gate::Angle;
use crate::parser::error::{ParseError, SpecParseError};

verus! {

/// One token of OpenQASM 2.0 text.
#[derive(Debug)]
pub enum Token {
    OpenQasm,
    Include,
    Qreg,
    Creg,
    Barrier,
    Measure,
    Reset,
    If,
    Gate,
    Opaque,
    LParen,
    RParen,
    LBracket,
    RBracket,
    LBrace,
    RBrace,
    Semicolon,
    Comma,
    Arrow,
    Equals,
    Plus,
    Minus,
    Star,
    Slash,
    Caret,
    Ident(String),
    Integer(i64),
    Real(Angle),
    StringLit(String),
    Eof,
}

/// A token, with its texts as character sequences.
pub enum SpecToken {
    OpenQasm,
    Include,
    Qreg,
    Creg,
    Barrier,
    Measure,
    Reset,
    If,
    Gate,
    Opaque,
    LParen,
    RParen,
    LBracket,
    RBracket,
    LBrace,
    RBrace,
    Semicolon,
    Comma,
    Arrow,
    Equals,
    Plus,
    Minus,
    Star,
    Slash,
    Caret,
    Ident(Seq<char>),
    Integer(i64),
    Real(Angle),
    StringLit(Seq<char>),
    Eof,
}

impl View for Token {
    type V = SpecToken;

    open spec fn view(&self) -> SpecToken {
        match self {
            Token::OpenQasm => SpecToken::OpenQasm,
            Token::Include => SpecToken::Include,
            Token::Qreg => SpecToken::Qreg,
            Token::Creg => SpecToken::Creg,
            Token::Barrier => SpecToken::Barrier,
            Token::Measure => SpecToken::Measure,
            Token::Reset => SpecToken::Reset,
            Token::If => SpecToken::If,
            Token::Gate => SpecToken::Gate,
            Token::Opaque => SpecToken::Opaque,
            Token::LParen => SpecToken::LParen,
            Token::RParen => SpecToken::RParen,
            Token::LBracket => SpecToken::LBracket,
            Token::RBracket => SpecToken::RBracket,
            Token::LBrace => SpecToken::LBrace,
            Token::RBrace => SpecToken::RBrace,
            Token::Semicolon => SpecToken::Semicolon,
            Token::Comma => SpecToken::Comma,
            Token::Arrow => SpecToken::Arrow,
            Token::Equals => SpecToken::Equals,
            Token::Plus => SpecToken::Plus,
            Token::Minus => SpecToken::Minus,
            Token::Star => SpecToken::Star,
            Token::Slash => SpecToken::Slash,
            Token::Caret => SpecToken::Caret,
            Token::Ident(s) => SpecToken::Ident(s@),
            Token::Integer(n) => SpecToken::Integer(*n),
            Token::Real(x) => SpecToken::Real(*x),
            Token::StringLit(s) => SpecToken::StringLit(s@),
            Token::Eof => SpecToken::Eof,
        }
    }
}

/// The views of a list of tokens.
pub open spec fn tokens_view(ts: Seq<Token>) -> Seq<SpecToken> {
    ts.map_values(|t: Token| t@)
}

/// Whether `c` has the Unicode Alphabetic property, as `char::is_alphabetic` decides.
pub uninterp spec fn unicode_alphabetic(c: char) -> bool;

/// Whether `c` is alphabetic or numeric, as `char::is_alphanumeric` decides.
pub uninterp spec fn unicode_alphanumeric(c: char) -> bool;

/// `char::is_alphabetic`; the contract names its result and claims nothing more.
#[verifier::external_body]
fn is_alphabetic(c: char) -> (b: bool)
    ensures
        b == unicode_alphabetic(c),
{
    c.is_alphabetic()
}

/// `char::is_alphanumeric`: true of what `is_alphabetic` accepts, as its documentation
/// says; otherwise the contract only names its result.
#[verifier::external_body]
fn is_alphanumeric(c: char) -> (b: bool)
    ensures
        b == unicode_alphanumeric(c),
        unicode_alphabetic(c) ==> b,
{
    c.is_alphanumeric()
}

/// `String::push`: appends `c`.
#[verifier::external_body]
pub(crate) fn push_char(s: &mut String, c: char)
    ensures
        final(s)@ == old(s)@.push(c),
{
    s.push(c);
}

/// A reader of decimal numerals (digits, at most one '.', an exponent) into binary64
/// numbers can be called on any text, and gives one result for one text.
pub open spec fn reader_ok<R: Fn(&String) -> Angle>(read: R) -> bool {
    &&& forall|s: &String| #[trigger] read.requires((s,))
    &&& forall|s1: &String, s2: &String, r1: Angle, r2: Angle|
        s1@ == s2@ && #[trigger] read.ensures((s1,), r1) && #[trigger] read.ensures((s2,), r2) ==> r1 == r2
}

/// `read` can give `r` for the numeral `text`.
pub open spec fn reads_as<R: Fn(&String) -> Angle>(read: R, text: Seq<char>, r: Angle) -> bool {
    exists|s: &String| s@ == text && #[trigger] read.ensures((s,), r)
}

/// The number `read` gives for the numeral `text`.
pub open spec fn real_value<R: Fn(&String) -> Angle>(read: R, text: Seq<char>) -> Angle {
    choose|r: Angle| #[trigger] reads_as(read, text, r)
}

/// Reads the numeral `s` with `read`.
fn read_real<R: Fn(&String) -> Angle>(read: &R, s: &String) -> (r: Angle)
    requires
        reader_ok(*read),
    ensures
        r == real_value(*read, s@),
{
    let r = read(s);
    proof {
        assert(reads_as(*read, s@, r));
        let c = choose|c: Angle| #[trigger] reads_as(*read, s@, c);
        let t = choose|t: &String| t@ == s@ && #[trigger] read.ensures((t,), c);
        assert(read.ensures((t,), c));
    }
    r
}

pub open spec fn is_digit(c: char) -> bool {
    '0' <= c <= '9'
}

pub open spec fn is_space(c: char) -> bool {
    c == ' ' || c == '\t' || c == '\r' || c == '\n'
}

/// Where skipping blanks and `//` comments from position `p` on line `line` ends, and
/// on which line; `comment` when inside a comment.
pub open spec fn skip(input: Seq<char>, p: int, line: int, comment: bool) -> (int, int)
    decreases input.len() - p, if comment { 0int } else { 1int },
{
    if p < 0 || p >= input.len() {
        (p, line)
    } else if comment {
        if input[p] == '\n' {
            skip(input, p + 1, line + 1, false)
        } else {
            skip(input, p + 1, line, true)
        }
    } else if is_space(input[p]) {
        skip(input, p + 1, if input[p] == '\n' { line + 1 } else { line }, false)
    } else if p + 1 < input.len() && input[p] == '/' && input[p + 1] == '/' {
        skip(input, p, line, true)
    } else {
        (p, line)
    }
}

pub proof fn lemma_skip(input: Seq<char>, p: int, line: int, comment: bool)
    requires
        0 <= p <= input.len(),
    ensures
        p <= skip(input, p, line, comment).0 <= input.len(),
        line <= p + 1 ==> skip(input, p, line, comment).1 <= skip(input, p, line, comment).0 + 1,
        line <= skip(input, p, line, comment).1,
    decreases input.len() - p, if comment { 0int } else { 1int },
{
    if p < input.len() {
        if comment {
            if input[p] == '\n' {
                lemma_skip(input, p + 1, line + 1, false);
            } else {
                lemma_skip(input, p + 1, line, true);
            }
        } else if is_space(input[p]) {
            lemma_skip(input, p + 1, if input[p] == '\n' { line + 1 } else { line }, false);
        } else if p + 1 < input.len() && input[p] == '/' && input[p + 1] == '/' {
            lemma_skip(input, p, line, true);
        }
    }
}

/// The numeral from position `p` on: digits, at most one '.', and an 'e' or 'E' (with
/// an optional sign) while the text so far has no 'e'. Yields the text, whether it is
/// real, and where it ends.
pub open spec fn scan_number(input: Seq<char>, p: int, s: Seq<char>, is_real: bool) -> (Seq<char>, bool, int)
    decreases input.len() - p,
{
    if p < 0 || p >= input.len() {
        (s, is_real, p)
    } else if is_digit(input[p]) {
        scan_number(input, p + 1, s.push(input[p]), is_real)
    } else if input[p] == '.' && !is_real {
        scan_number(input, p + 1, s.push('.'), true)
    } else if (input[p] == 'e' || input[p] == 'E') && !s.contains('e') {
        if p + 1 < input.len() && (input[p + 1] == '-' || input[p + 1] == '+') {
            scan_number(input, p + 2, s.push(input[p]).push(input[p + 1]), true)
        } else {
            scan_number(input, p + 1, s.push(input[p]), true)
        }
    } else {
        (s, is_real, p)
    }
}

pub proof fn lemma_scan_number(input: Seq<char>, p: int, s: Seq<char>, is_real: bool)
    requires
        0 <= p <= input.len(),
    ensures
        p <= scan_number(input, p, s, is_real).2 <= input.len(),
        !scan_number(input, p, s, is_real).1 ==> scan_number(input, p, s, is_real).2 - p
            == scan_number(input, p, s, is_real).0.len() - s.len(),
        !scan_number(input, p, s, is_real).1 ==> !is_real,
        !scan_number(input, p, s, is_real).1 ==> forall|i: int| s.len() <= i < scan_number(input, p, s, is_real).0.len()
            ==> is_digit(#[trigger] scan_number(input, p, s, is_real).0[i]),
        s.is_prefix_of(scan_number(input, p, s, is_real).0),
        forall|i: int| p <= i < scan_number(input, p, s, is_real).2 ==> #[trigger] input[i] != '\n',
    decreases input.len() - p,
{
    if p < input.len() {
        if is_digit(input[p]) {
            let t = s.push(input[p]);
            lemma_scan_number(input, p + 1, t, is_real);
            let r = scan_number(input, p + 1, t, is_real);
            assert(r.0[s.len() as int] == t[s.len() as int]);
        } else if input[p] == '.' && !is_real {
            lemma_scan_number(input, p + 1, s.push('.'), true);
        } else if (input[p] == 'e' || input[p] == 'E') && !s.contains('e') {
            if p + 1 < input.len() && (input[p + 1] == '-' || input[p + 1] == '+') {
                lemma_scan_number(input, p + 2, s.push(input[p]).push(input[p + 1]), true);
            } else {
                lemma_scan_number(input, p + 1, s.push(input[p]), true);
            }
        }
    }
}

/// The value of a string of decimal digits.
pub open spec fn digits_value(s: Seq<char>) -> nat
    decreases s.len(),
{
    if s.len() == 0 {
        0
    } else {
        digits_value(s.drop_last()) * 10 + ((s.last() as int - '0' as int) as nat)
    }
}

/// `i64`'s parse of a string of digits: its value, or 0 when that overflows.
pub open spec fn integer_value(s: Seq<char>) -> i64 {
    if digits_value(s) <= i64::MAX {
        digits_value(s) as i64
    } else {
        0
    }
}

/// The identifier from position `p` on line `line`: letters, digits and underscores.
/// Yields its text, where it ends and on which line.
pub open spec fn scan_ident(input: Seq<char>, p: int, line: int, s: Seq<char>) -> (Seq<char>, int, int)
    decreases input.len() - p,
{
    if 0 <= p < input.len() && (unicode_alphanumeric(input[p]) || input[p] == '_') {
        scan_ident(input, p + 1, if input[p] == '\n' { line + 1 } else { line }, s.push(input[p]))
    } else {
        (s, p, line)
    }
}

pub proof fn lemma_scan_ident(input: Seq<char>, p: int, line: int, s: Seq<char>)
    requires
        0 <= p <= input.len(),
    ensures
        p <= scan_ident(input, p, line, s).1 <= input.len(),
        line <= scan_ident(input, p, line, s).2 <= line + scan_ident(input, p, line, s).1 - p,
    decreases input.len() - p,
{
    if 0 <= p < input.len() && (unicode_alphanumeric(input[p]) || input[p] == '_') {
        lemma_scan_ident(input, p + 1, if input[p] == '\n' { line + 1 } else { line }, s.push(input[p]));
    }
}

/// The rest of a string literal from position `p` (after its opening quote): its text,
/// and where and on which line it ends; a newline or the end of the text first is an error.
pub open spec fn scan_string(input: Seq<char>, p: int, line: int, s: Seq<char>) -> Result<(Seq<char>, int, int), SpecParseError>
    decreases input.len() - p,
{
    if p < 0 || p >= input.len() {
        Err(SpecParseError::UnexpectedToken { line: line as usize, message: "unterminated string"@ })
    } else if input[p] == '\n' {
        Err(SpecParseError::UnexpectedToken { line: (line + 1) as usize, message: "unterminated string"@ })
    } else if input[p] == '"' {
        Ok((s, p + 1, line))
    } else {
        scan_string(input, p + 1, line, s.push(input[p]))
    }
}

pub proof fn lemma_scan_string(input: Seq<char>, p: int, line: int, s: Seq<char>)
    requires
        0 <= p <= input.len(),
    ensures
        scan_string(input, p, line, s) matches Ok((t, q, l)) ==> p < q <= input.len() && l == line,
    decreases input.len() - p,
{
    if 0 <= p < input.len() && input[p] != '\n' && input[p] != '"' {
        lemma_scan_string(input, p + 1, line, s.push(input[p]));
    }
}

/// The token an identifier-like word stands for: a keyword, `pi`, or an identifier.
pub open spec fn word_token(s: Seq<char>) -> SpecToken {
    if s == "OPENQASM"@ {
        SpecToken::OpenQasm
    } else if s == "include"@ {
        SpecToken::Include
    } else if s == "qreg"@ {
        SpecToken::Qreg
    } else if s == "creg"@ {
        SpecToken::Creg
    } else if s == "barrier"@ {
        SpecToken::Barrier
    } else if s == "measure"@ {
        SpecToken::Measure
    } else if s == "reset"@ {
        SpecToken::Reset
    } else if s == "if"@ {
        SpecToken::If
    } else if s == "gate"@ {
        SpecToken::Gate
    } else if s == "opaque"@ {
        SpecToken::Opaque
    } else if s == "pi"@ {
        SpecToken::Real(PI)
    } else {
        SpecToken::Ident(s)
    }
}

/// The one-character token `c` stands for, if any.
pub open spec fn punct_token(c: char) -> Option<SpecToken> {
    if c == '(' {
        Some(SpecToken::LParen)
    } else if c == ')' {
        Some(SpecToken::RParen)
    } else if c == '[' {
        Some(SpecToken::LBracket)
    } else if c == ']' {
        Some(SpecToken::RBracket)
    } else if c == '{' {
        Some(SpecToken::LBrace)
    } else if c == '}' {
        Some(SpecToken::RBrace)
    } else if c == ';' {
        Some(SpecToken::Semicolon)
    } else if c == ',' {
        Some(SpecToken::Comma)
    } else if c == '+' {
        Some(SpecToken::Plus)
    } else if c == '*' {
        Some(SpecToken::Star)
    } else if c == '^' {
        Some(SpecToken::Caret)
    } else if c == '/' {
        Some(SpecToken::Slash)
    } else {
        None
    }
}

/// The token at position `p` (on line `line`), where it ends and on which line; or the
/// error there.
pub open spec fn scan_token<R: Fn(&String) -> Angle>(read: R, input: Seq<char>, p: int, line: int) -> Result<(SpecToken, int, int), SpecParseError> {
    let c = input[p];
    if punct_token(c) is Some {
        Ok((punct_token(c)->0, p + 1, line))
    } else if c == '-' {
        if p + 1 < input.len() && input[p + 1] == '>' {
            Ok((SpecToken::Arrow, p + 2, line))
        } else {
            Ok((SpecToken::Minus, p + 1, line))
        }
    } else if c == '=' {
        if p + 1 < input.len() && input[p + 1] == '=' {
            Ok((SpecToken::Equals, p + 2, line))
        } else {
            Err(SpecParseError::UnexpectedToken { line: line as usize, message: "expected '==' not '='"@ })
        }
    } else if c == '"' {
        match scan_string(input, p + 1, line, Seq::empty()) {
            Ok((s, q, l)) => Ok((SpecToken::StringLit(s), q, l)),
            Err(e) => Err(e),
        }
    } else if is_digit(c) {
        let (s, is_real, q) = scan_number(input, p, Seq::empty(), false);
        if is_real {
            Ok((SpecToken::Real(real_value(read, s)), q, line))
        } else {
            Ok((SpecToken::Integer(integer_value(s)), q, line))
        }
    } else if unicode_alphabetic(c) || c == '_' {
        let (s, q, l) = scan_ident(input, p + 1, if c == '\n' { line + 1 } else { line }, seq![c]);
        Ok((word_token(s), q, l))
    } else {
        Err(SpecParseError::UnexpectedToken {
            line: line as usize,
            message: "unexpected character '"@.push(c) + "'"@,
        })
    }
}

pub proof fn lemma_scan_token<R: Fn(&String) -> Angle>(read: R, input: Seq<char>, p: int, line: int)
    requires
        0 <= p < input.len(),
    ensures
        scan_token(read, input, p, line) matches Ok((t, q, l)) ==> p < q <= input.len() && line <= l <= line + q - p,
{
    let c = input[p];
    if c == '"' {
        lemma_scan_string(input, p + 1, line, Seq::empty());
    } else if is_digit(c) {
        lemma_scan_number(input, p + 1, Seq::<char>::empty().push(c), false);
    } else if unicode_alphabetic(c) || c == '_' {
        lemma_scan_ident(input, p + 1, if c == '\n' { line + 1 } else { line }, seq![c]);
    }
}

/// The tokens of `input` from position `p` on line `line`, ending with `Eof`; or the first
/// error.
pub open spec fn lex_from<R: Fn(&String) -> Angle>(read: R, input: Seq<char>, p: int, line: int) -> Result<Seq<SpecToken>, SpecParseError>
    decreases input.len() - p,
{
    if p < 0 || p > input.len() {
        Ok(seq![SpecToken::Eof])
    } else {
        let (q, l) = skip(input, p, line, false);
        if q >= input.len() {
            Ok(seq![SpecToken::Eof])
        } else {
            match scan_token(read, input, q, l) {
                Err(e) => Err(e),
                Ok((t, q2, l2)) => {
                    proof {
                        lemma_skip(input, p, line, false);
                        lemma_scan_token(read, input, q, l);
                    }
                    match lex_from(read, input, q2, l2) {
                        Ok(ts) => Ok(seq![t] + ts),
                        Err(e) => Err(e),
                    }
                },
            }
        }
    }
}

/// A lexer error reported one line further down.
pub open spec fn line_below(e: SpecParseError) -> SpecParseError {
    match e {
        SpecParseError::UnexpectedToken { line, message } => SpecParseError::UnexpectedToken { line: (line + 1) as usize, message },
        other => other,
    }
}

/// A lexing result with its error, if any, reported one line further down.
pub open spec fn lexed_line_below(r: Result<Seq<SpecToken>, SpecParseError>) -> Result<Seq<SpecToken>, SpecParseError> {
    match r {
        Ok(ts) => Ok(ts),
        Err(e) => Err(line_below(e)),
    }
}

proof fn lemma_skip_shift(pre: Seq<char>, s: Seq<char>, p: int, line: int, comment: bool)
    requires
        0 <= p <= s.len(),
    ensures
        skip(pre + s, pre.len() + p, line, comment) == (skip(s, p, line, comment).0 + pre.len(), skip(s, p, line, comment).1),
    decreases s.len() - p, if comment { 0int } else { 1int },
{
    let t = pre + s;
    let k = pre.len() as int;
    if p < s.len() {
        assert(t[k + p] == s[p]);
        if p + 1 < s.len() {
            assert(t[k + p + 1] == s[p + 1]);
        }
        if comment {
            if s[p] == '\n' {
                lemma_skip_shift(pre, s, p + 1, line + 1, false);
            } else {
                lemma_skip_shift(pre, s, p + 1, line, true);
            }
        } else if is_space(s[p]) {
            lemma_skip_shift(pre, s, p + 1, if s[p] == '\n' { line + 1 } else { line }, false);
        } else if p + 1 < s.len() && s[p] == '/' && s[p + 1] == '/' {
            lemma_skip_shift(pre, s, p, line, true);
        }
    }
}

proof fn lemma_number_shift(pre: Seq<char>, s: Seq<char>, p: int, acc: Seq<char>, is_real: bool)
    requires
        0 <= p <= s.len(),
    ensures
        scan_number(pre + s, pre.len() + p, acc, is_real) == ({
            let r = scan_number(s, p, acc, is_real);
            (r.0, r.1, r.2 + pre.len())
        }),
    decreases s.len() - p,
{
    let t = pre + s;
    let k = pre.len() as int;
    if p < s.len() {
        assert(t[k + p] == s[p]);
        if p + 1 < s.len() {
            assert(t[k + p + 1] == s[p + 1]);
        }
        if is_digit(s[p]) {
            lemma_number_shift(pre, s, p + 1, acc.push(s[p]), is_real);
        } else if s[p] == '.' && !is_real {
            lemma_number_shift(pre, s, p + 1, acc.push('.'), true);
        } else if (s[p] == 'e' || s[p] == 'E') && !acc.contains('e') {
            if p + 1 < s.len() && (s[p + 1] == '-' || s[p + 1] == '+') {
                lemma_number_shift(pre, s, p + 2, acc.push(s[p]).push(s[p + 1]), true);
            } else {
                lemma_number_shift(pre, s, p + 1, acc.push(s[p]), true);
            }
        }
    }
}

proof fn lemma_ident_shift(pre: Seq<char>, s: Seq<char>, p: int, line: int, acc: Seq<char>)
    requires
        0 <= p <= s.len(),
    ensures
        scan_ident(pre + s, pre.len() + p, line, acc) == ({
            let r = scan_ident(s, p, line, acc);
            (r.0, r.1 + pre.len(), r.2)
        }),
    decreases s.len() - p,
{
    let t = pre + s;
    let k = pre.len() as int;
    if p < s.len() {
        assert(t[k + p] == s[p]);
        if unicode_alphanumeric(s[p]) || s[p] == '_' {
            lemma_ident_shift(pre, s, p + 1, if s[p] == '\n' { line + 1 } else { line }, acc.push(s[p]));
        }
    }
}

proof fn lemma_string_shift(pre: Seq<char>, s: Seq<char>, p: int, line: int, acc: Seq<char>)
    requires
        0 <= p <= s.len(),
    ensures
        scan_string(pre + s, pre.len() + p, line, acc) == match scan_string(s, p, line, acc) {
            Ok((x, q, l)) => Ok((x, q + pre.len(), l)),
            Err(e) => Err(e),
        },
    decreases s.len() - p,
{
    let t = pre + s;
    let k = pre.len() as int;
    if p < s.len() {
        assert(t[k + p] == s[p]);
        if s[p] != '\n' && s[p] != '"' {
            lemma_string_shift(pre, s, p + 1, line, acc.push(s[p]));
        }
    }
}

proof fn lemma_token_shift<R: Fn(&String) -> Angle>(read: R, pre: Seq<char>, s: Seq<char>, p: int, line: int)
    requires
        0 <= p < s.len(),
    ensures
        scan_token(read, pre + s, pre.len() + p, line) == match scan_token(read, s, p, line) {
            Ok((x, q, l)) => Ok((x, q + pre.len(), l)),
            Err(e) => Err(e),
        },
{
    let t = pre + s;
    let k = pre.len() as int;
    let c = s[p];
    assert(t[k + p] == c);
    if p + 1 < s.len() {
        assert(t[k + p + 1] == s[p + 1]);
    }
    lemma_string_shift(pre, s, p + 1, line, Seq::empty());
    lemma_number_shift(pre, s, p, Seq::empty(), false);
    lemma_ident_shift(pre, s, p + 1, if c == '\n' { line + 1 } else { line }, seq![c]);
}

/// Lexing the text that follows `pre` gives what lexing that text alone gives.
proof fn lemma_lex_shift<R: Fn(&String) -> Angle>(read: R, pre: Seq<char>, s: Seq<char>, p: int, line: int)
    requires
        0 <= p <= s.len(),
    ensures
        lex_from(read, pre + s, pre.len() + p, line) == lex_from(read, s, p, line),
    decreases s.len() - p,
{
    let k = pre.len() as int;
    lemma_skip_shift(pre, s, p, line, false);
    lemma_skip(s, p, line, false);
    let (q, l) = skip(s, p, line, false);
    if q < s.len() {
        lemma_token_shift(read, pre, s, q, l);
        lemma_scan_token(read, s, q, l);
        if let Ok((x, q2, l2)) = scan_token(read, s, q, l) {
            lemma_lex_shift(read, pre, s, q2, l2);
        }
    }
}

proof fn lemma_skip_line(s: Seq<char>, p: int, line: int, comment: bool)
    requires
        0 <= p <= s.len(),
    ensures
        skip(s, p, line + 1, comment) == (skip(s, p, line, comment).0, skip(s, p, line, comment).1 + 1),
        line <= skip(s, p, line, comment).1 <= line + skip(s, p, line, comment).0 - p,
        p <= skip(s, p, line, comment).0 <= s.len(),
    decreases s.len() - p, if comment { 0int } else { 1int },
{
    if p < s.len() {
        if comment {
            if s[p] == '\n' {
                lemma_skip_line(s, p + 1, line + 1, false);
            } else {
                lemma_skip_line(s, p + 1, line, true);
            }
        } else if is_space(s[p]) {
            lemma_skip_line(s, p + 1, if s[p] == '\n' { line + 1 } else { line }, false);
        } else if p + 1 < s.len() && s[p] == '/' && s[p + 1] == '/' {
            lemma_skip_line(s, p, line, true);
        }
    }
}

proof fn lemma_ident_line(s: Seq<char>, p: int, line: int, acc: Seq<char>)
    requires
        0 <= p <= s.len(),
    ensures
        scan_ident(s, p, line + 1, acc) == ({
            let r = scan_ident(s, p, line, acc);
            (r.0, r.1, r.2 + 1)
        }),
    decreases s.len() - p,
{
    if p < s.len() && (unicode_alphanumeric(s[p]) || s[p] == '_') {
        lemma_ident_line(s, p + 1, if s[p] == '\n' { line + 1 } else { line }, acc.push(s[p]));
    }
}

proof fn lemma_string_line(s: Seq<char>, p: int, line: int, acc: Seq<char>)
    requires
        0 <= p <= s.len(),
        0 <= line,
        line + 2 <= usize::MAX,
    ensures
        scan_string(s, p, line + 1, acc) == match scan_string(s, p, line, acc) {
            Ok((x, q, l)) => Ok((x, q, l + 1)),
            Err(e) => Err(line_below(e)),
        },
    decreases s.len() - p,
{
    if p < s.len() && s[p] != '\n' && s[p] != '"' {
        lemma_string_line(s, p + 1, line, acc.push(s[p]));
    }
}

proof fn lemma_token_line<R: Fn(&String) -> Angle>(read: R, s: Seq<char>, p: int, line: int)
    requires
        0 <= p < s.len(),
        0 <= line,
        line + 2 <= usize::MAX,
    ensures
        scan_token(read, s, p, line + 1) == match scan_token(read, s, p, line) {
            Ok((x, q, l)) => Ok((x, q, l + 1)),
            Err(e) => Err(line_below(e)),
        },
{
    let c = s[p];
    lemma_string_line(s, p + 1, line, Seq::empty());
    lemma_ident_line(s, p + 1, if c == '\n' { line + 1 } else { line }, seq![c]);
}

/// Lexing from line `line + 1` gives what lexing from line `line` gives, with an error
/// reported one line further down.
proof fn lemma_lex_line<R: Fn(&String) -> Angle>(read: R, s: Seq<char>, p: int, line: int)
    requires
        0 <= p <= s.len(),
        0 <= line,
        line + (s.len() - p) + 2 <= usize::MAX,
    ensures
        lex_from(read, s, p, line + 1) == lexed_line_below(lex_from(read, s, p, line)),
    decreases s.len() - p,
{
    lemma_skip_line(s, p, line, false);
    let (q, l) = skip(s, p, line, false);
    if q < s.len() {
        lemma_token_line(read, s, q, l);
        lemma_scan_token(read, s, q, l);
        if let Ok((x, q2, l2)) = scan_token(read, s, q, l) {
            lemma_lex_line(read, s, q2, l2);
        }
    }
}

/// A leading blank, tab and `//` comment line changes nothing in how the rest of the text
/// lexes, but reports an error one line further down.
pub proof fn lemma_comment_line_prefix<R: Fn(&String) -> Angle>(read: R, s: Seq<char>)
    requires
        s.len() + 4 <= usize::MAX,
    ensures
        lex_from(read, " \t// c\n"@ + s, 0, 1) == lexed_line_below(lex_from(read, s, 0, 1)),
{
    reveal_strlit(" \t// c\n");
    let pre = " \t// c\n"@;
    let t = pre + s;
    assert(pre.len() == 7);
    assert(t[0] == ' ' && t[1] == '\t' && t[2] == '/' && t[3] == '/' && t[4] == ' ' && t[5] == 'c' && t[6] == '\n');
    assert(t.len() == s.len() + 7);
    assert(skip(t, 6, 1, true) == skip(t, 7, 2, false));
    assert(skip(t, 5, 1, true) == skip(t, 6, 1, true));
    assert(skip(t, 4, 1, true) == skip(t, 5, 1, true));
    assert(skip(t, 3, 1, true) == skip(t, 4, 1, true));
    assert(skip(t, 2, 1, true) == skip(t, 3, 1, true));
    assert(skip(t, 2, 1, false) == skip(t, 2, 1, true));
    assert(skip(t, 1, 1, false) == skip(t, 2, 1, false));
    assert(skip(t, 0, 1, false) == skip(t, 1, 1, false));
    lemma_lex_shift(read, pre, s, 0, 2);
    lemma_lex_line(read, s, 0, 1);
}

/// `r` with `before` put in front of its tokens.
pub open spec fn after_tokens(before: Seq<SpecToken>, r: Result<Seq<SpecToken>, SpecParseError>) -> Result<Seq<SpecToken>, SpecParseError> {
    match r {
        Ok(ts) => Ok(before + ts),
        Err(e) => Err(e),
    }
}

/// Reads OpenQASM text character by character.
pub struct Lexer {
    input: Vec<char>,
    pos: usize,
    pub line: usize,
}

impl Lexer {
    /// The characters being read.
    pub closed spec fn text(&self) -> Seq<char> {
        self.input@
    }

    /// How many characters have been read.
    pub closed spec fn cursor(&self) -> int {
        self.pos as int
    }

    /// The current line.
    pub closed spec fn line_no(&self) -> int {
        self.line as int
    }

    /// The position is within the text, the line count fits, and so does a step past the end.
    pub closed spec fn wf(&self) -> bool {
        &&& self.pos <= self.input@.len()
        &&& self.line <= self.pos + 1
        &&& self.input@.len() < usize::MAX
    }

    /// A lexer at the start of `input`, on line 1.
    pub fn new(input: &str) -> (l: Self)
        requires
            input@.len() < usize::MAX,
        ensures
            l.text() == input@,
            l.cursor() == 0,
            l.line_no() == 1,
            l.wf(),
    {
        let mut chars: Vec<char> = Vec::new();
        for c in it: input.chars()
            invariant
                it.seq() == input@,
                chars@ == it.seq().take(it.index() as int),
        {
            chars.push(c);
        }
        proof {
            assert(chars@ =~= input@);
        }
        Lexer { input: chars, pos: 0, line: 1 }
    }

    fn peek(&self) -> (c: Option<char>)
        ensures
            c == (if 0 <= self.cursor() < self.text().len() { Some(self.text()[self.cursor()]) } else { None::<char> }),
    {
        if self.pos < self.input.len() {
            Some(self.input[self.pos])
        } else {
            None
        }
    }

    fn peek2(&self) -> (c: Option<char>)
        requires
            self.wf(),
        ensures
            c == (if self.cursor() + 1 < self.text().len() { Some(self.text()[self.cursor() + 1]) } else { None::<char> }),
    {
        if self.pos + 1 < self.input.len() {
            Some(self.input[self.pos + 1])
        } else {
            None
        }
    }

    fn advance(&mut self) -> (c: Option<char>)
        requires
            old(self).wf(),
        ensures
            final(self).wf(),
            final(self).text() == old(self).text(),
            c == (if old(self).cursor() < old(self).text().len() { Some(old(self).text()[old(self).cursor()]) } else { None::<char> }),
            old(self).cursor() < old(self).text().len() ==> final(self).cursor() == old(self).cursor() + 1
                && final(self).line == (if c == Some('\n') { old(self).line + 1 } else { old(self).line as int }),
            old(self).cursor() >= old(self).text().len() ==> final(self).cursor() == old(self).cursor()
                && final(self).line == old(self).line,
    {
        let c = self.peek();
        if c == Some('\n') {
            self.line += 1;
        }
        if self.pos < self.input.len() {
            self.pos += 1;
        }
        c
    }

    fn skip_whitespace_and_comments(&mut self)
        requires
            old(self).wf(),
        ensures
            final(self).wf(),
            final(self).text() == old(self).text(),
            (final(self).cursor(), final(self).line as int) == skip(old(self).text(), old(self).cursor(), old(self).line as int, false),
    {
        let ghost input = self.text();
        let ghost start = (self.cursor(), self.line as int);
        loop
            invariant
                self.wf(),
                self.text() == input,
                skip(input, start.0, start.1, false) == skip(input, self.cursor(), self.line as int, false),
            ensures
                self.wf(),
                self.text() == input,
                skip(input, start.0, start.1, false) == (self.cursor(), self.line as int),
            decreases input.len() - self.cursor(),
        {
            match self.peek() {
                Some(c) => {
                    if c == ' ' || c == '\t' || c == '\r' || c == '\n' {
                        self.advance();
                    } else if c == '/' && self.peek2() == Some('/') {
                        let ghost p0 = self.cursor();
                        loop
                            invariant_except_break
                                skip(input, start.0, start.1, false) == skip(input, self.cursor(), self.line as int, true),
                            invariant
                                self.wf(),
                                self.text() == input,
                                p0 <= self.cursor(),
                            ensures
                                self.wf(),
                                self.text() == input,
                                p0 < self.cursor() || self.cursor() >= input.len(),
                                skip(input, start.0, start.1, false) == skip(input, self.cursor(), self.line as int, false),
                            decreases input.len() - self.cursor(),
                        {
                            match self.advance() {
                                Some(d) => {
                                    if d == '\n' {
                                        break;
                                    }
                                },
                                None => {
                                    break;
                                },
                            }
                        }
                    } else {
                        break;
                    }
                },
                None => {
                    break;
                },
            }
        }
    }

    /// Reads a string literal whose opening quote is the next character.
    fn read_string(&mut self) -> (r: Result<String, ParseError>)
        requires
            old(self).wf(),
            old(self).cursor() < old(self).text().len(),
            old(self).text()[old(self).cursor()] == '"',
        ensures
            final(self).wf(),
            final(self).text() == old(self).text(),
            match scan_string(old(self).text(), old(self).cursor() + 1, old(self).line as int, Seq::empty()) {
                Ok((t, q, l)) => r matches Ok(s) && s@ == t && final(self).cursor() == q && final(self).line == l,
                Err(e) => r matches Err(x) && x@ == e,
            },
    {
        let ghost input = self.text();
        self.advance();
        let mut s = String::new();
        loop
            invariant_except_break
                scan_string(input, old(self).cursor() + 1, old(self).line as int, Seq::empty())
                    == scan_string(input, self.cursor(), self.line as int, s@),
            invariant
                self.wf(),
                input == old(self).text(),
                self.text() == input,
                self.line == old(self).line,
            ensures
                scan_string(input, old(self).cursor() + 1, old(self).line as int, Seq::empty())
                    == Ok::<(Seq<char>, int, int), SpecParseError>((s@, self.cursor(), self.line as int)),
            decreases input.len() - self.cursor(),
        {
            match self.advance() {
                None => {
                    return Err(ParseError::UnexpectedToken { line: self.line, message: String::from_str("unterminated string") });
                },
                Some(c) => {
                    if c == '\n' {
                        return Err(ParseError::UnexpectedToken { line: self.line, message: String::from_str("unterminated string") });
                    }
                    if c == '"' {
                        break;
                    }
                    push_char(&mut s, c);
                },
            }
        }
        Ok(s)
    }

    /// Whether every character has been read.
    fn cursor_at_end(&self) -> (b: bool)
        ensures
            b == (self.cursor() >= self.text().len()),
    {
        self.pos >= self.input.len()
    }

    /// Reads a numeral whose first digit is the next character; `read` gives the value
    /// of a real one.
    fn read_number<R: Fn(&String) -> Angle>(&mut self, read: &R) -> (t: Token)
        requires
            old(self).wf(),
            reader_ok(*read),
        ensures
            final(self).wf(),
            final(self).text() == old(self).text(),
            final(self).line == old(self).line,
            ({
                let (s, is_real, q) = scan_number(old(self).text(), old(self).cursor(), Seq::empty(), false);
                &&& final(self).cursor() == q
                &&& t@ == (if is_real { SpecToken::Real(real_value(*read, s)) } else { SpecToken::Integer(integer_value(s)) })
            }),
    {
        let ghost input = self.text();
        let mut s = String::new();
        let mut is_real = false;
        let mut has_e = false;
        let mut value: Option<i64> = Some(0);
        proof {
            lemma_scan_number(input, self.cursor(), Seq::empty(), false);
        }
        loop
            invariant
                self.wf(),
                input == old(self).text(),
                self.text() == input,
                self.line == old(self).line,
                value matches Some(v) ==> v >= 0,
                has_e == s@.contains('e'),
                scan_number(input, old(self).cursor(), Seq::empty(), false) == scan_number(input, self.cursor(), s@, is_real),
                !is_real ==> forall|i: int| 0 <= i < s@.len() ==> is_digit(#[trigger] s@[i]),
                !is_real ==> value == (if digits_value(s@) <= i64::MAX { Some(digits_value(s@) as i64) } else { None::<i64> }),
            ensures
                self.wf(),
                self.text() == input,
                self.line == old(self).line,
                scan_number(input, old(self).cursor(), Seq::empty(), false) == (s@, is_real, self.cursor()),
                !is_real ==> value == (if digits_value(s@) <= i64::MAX { Some(digits_value(s@) as i64) } else { None::<i64> }),
            decreases input.len() - self.cursor(),
        {
            match self.peek() {
                Some(c) => {
                    if '0' <= c && c <= '9' {
                        let ghost s0 = s@;
                        proof { lemma_push_contains(s@, c); }
                        push_char(&mut s, c);
                        proof {
                            assert(s@.drop_last() =~= s0);
                        }
                        let d = (c as u32 - '0' as u32) as i64;
                        proof {
                            assert(digits_value(s@) == digits_value(s0) * 10 + d);
                        }
                        value = match value {
                            Some(v) => {
                                if v <= (i64::MAX - d) / 10 {
                                    proof { lemma_digit_step(v as int, d as int); }
                                    Some(v * 10 + d)
                                } else {
                                    proof { lemma_digit_overflow(v as int, d as int); }
                                    None
                                }
                            },
                            None => {
                                proof {
                                    if !is_real {
                                        assert(digits_value(s0) > i64::MAX);
                                        assert(digits_value(s0) * 10 + d > i64::MAX) by (nonlinear_arith)
                                            requires digits_value(s0) > i64::MAX, 0 <= d;
                                    }
                                }
                                None
                            },
                        };
                        self.advance();
                    } else if c == '.' && !is_real {
                        proof { lemma_push_contains(s@, c); }
                        push_char(&mut s, c);
                        is_real = true;
                        self.advance();
                    } else if (c == 'e' || c == 'E') && !has_e {
                        proof { lemma_push_contains(s@, c); }
                        push_char(&mut s, c);
                        has_e = has_e || c == 'e';
                        is_real = true;
                        self.advance();
                        match self.peek() {
                            Some(sign) => {
                                if sign == '-' || sign == '+' {
                                    proof { lemma_push_contains(s@, sign); }
                                    push_char(&mut s, sign);
                                    self.advance();
                                }
                            },
                            None => {},
                        }
                    } else {
                        break;
                    }
                },
                None => {
                    break;
                },
            }
        }
        if is_real {
            Token::Real(read_real(read, &s))
        } else {
            Token::Integer(match value {
                Some(v) => v,
                None => 0,
            })
        }
    }

    /// Reads an identifier (letters, digits, underscores) from the next character on.
    fn read_ident(&mut self) -> (s: String)
        requires
            old(self).wf(),
        ensures
            final(self).wf(),
            final(self).text() == old(self).text(),
            (s@, final(self).cursor(), final(self).line as int)
                == scan_ident(old(self).text(), old(self).cursor(), old(self).line as int, Seq::empty()),
            old(self).cursor() < old(self).text().len() ==> (unicode_alphabetic(old(self).text()[old(self).cursor()])
                ==> unicode_alphanumeric(old(self).text()[old(self).cursor()])),
    {
        let ghost input = self.text();
        let mut s = String::new();
        loop
            invariant
                self.wf(),
                input == old(self).text(),
                self.text() == input,
                scan_ident(input, old(self).cursor(), old(self).line as int, Seq::empty())
                    == scan_ident(input, self.cursor(), self.line as int, s@),
                old(self).cursor() <= self.cursor(),
                old(self).cursor() < self.cursor() ==> (unicode_alphabetic(input[old(self).cursor()])
                    ==> unicode_alphanumeric(input[old(self).cursor()])),
            ensures
                self.wf(),
                self.text() == input,
                scan_ident(input, old(self).cursor(), old(self).line as int, Seq::empty())
                    == (s@, self.cursor(), self.line as int),
                old(self).cursor() < input.len() ==> (unicode_alphabetic(input[old(self).cursor()])
                    ==> unicode_alphanumeric(input[old(self).cursor()])),
            decreases input.len() - self.cursor(),
        {
            match self.peek() {
                Some(c) => {
                    if is_alphanumeric(c) || c == '_' {
                        push_char(&mut s, c);
                        self.advance();
                    } else {
                        break;
                    }
                },
                None => {
                    break;
                },
            }
        }
        s
    }
}

proof fn lemma_push_contains(s: Seq<char>, c: char)
    ensures
        forall|x: char| #[trigger] s.push(c).contains(x) <==> (s.contains(x) || x == c),
{
    assert forall|x: char| #[trigger] s.push(c).contains(x) <==> (s.contains(x) || x == c) by {
        let t = s.push(c);
        if t.contains(x) {
            let i = choose|i: int| 0 <= i < t.len() && t[i] == x;
            if i < s.len() {
                assert(s[i] == x);
            }
        }
        if s.contains(x) {
            let i = choose|i: int| 0 <= i < s.len() && s[i] == x;
            assert(t[i] == x);
        }
        if x == c {
            assert(t[s.len() as int] == x);
        }
    }
}

proof fn lemma_digit_step(v: int, d: int)
    requires
        0 <= v,
        0 <= d <= 9,
        v <= (i64::MAX - d) / 10,
    ensures
        v * 10 + d <= i64::MAX,
{
    assert(v * 10 <= i64::MAX - d) by (nonlinear_arith)
        requires
            0 <= v,
            0 <= d <= 9,
            v <= (i64::MAX - d) / 10;
}

proof fn lemma_digit_overflow(v: int, d: int)
    requires
        0 <= v,
        0 <= d <= 9,
        v > (i64::MAX - d) / 10,
    ensures
        v * 10 + d > i64::MAX,
{
    assert(v * 10 + d > i64::MAX) by (nonlinear_arith)
        requires
            0 <= d <= 9,
            v > (i64::MAX - d) / 10;
}

/// The token the word `s` stands for.
fn keyword_or_ident(s: String) -> (t: Token)
    ensures
        t@ == word_token(s@),
{
    if s == String::from_str("OPENQASM") {
        Token::OpenQasm
    } else if s == String::from_str("include") {
        Token::Include
    } else if s == String::from_str("qreg") {
        Token::Qreg
    } else if s == String::from_str("creg") {
        Token::Creg
    } else if s == String::from_str("barrier") {
        Token::Barrier
    } else if s == String::from_str("measure") {
        Token::Measure
    } else if s == String::from_str("reset") {
        Token::Reset
    } else if s == String::from_str("if") {
        Token::If
    } else if s == String::from_str("gate") {
        Token::Gate
    } else if s == String::from_str("opaque") {
        Token::Opaque
    } else if s == String::from_str("pi") {
        Token::Real(PI)
    } else {
        Token::Ident(s)
    }
}

impl Lexer {
    /// Reads the token that starts at the next character, which exists.
    fn scan_one<R: Fn(&String) -> Angle>(&mut self, read: &R) -> (r: Result<Token, ParseError>)
        requires
            old(self).wf(),
            old(self).cursor() < old(self).text().len(),
            reader_ok(*read),
        ensures
            final(self).wf(),
            final(self).text() == old(self).text(),
            match scan_token(*read, old(self).text(), old(self).cursor(), old(self).line as int) {
                Ok((t, q, l)) => r matches Ok(x) && x@ == t && final(self).cursor() == q && final(self).line == l,
                Err(e) => r matches Err(x) && x@ == e,
            },
    {
        let ghost input = self.text();
        let line = self.line;
        let c = self.input[self.pos];
        if c == '(' || c == ')' || c == '[' || c == ']' || c == '{' || c == '}' || c == ';' || c == ','
            || c == '+' || c == '*' || c == '^' || c == '/' {
            self.advance();
            let t = if c == '(' {
                Token::LParen
            } else if c == ')' {
                Token::RParen
            } else if c == '[' {
                Token::LBracket
            } else if c == ']' {
                Token::RBracket
            } else if c == '{' {
                Token::LBrace
            } else if c == '}' {
                Token::RBrace
            } else if c == ';' {
                Token::Semicolon
            } else if c == ',' {
                Token::Comma
            } else if c == '+' {
                Token::Plus
            } else if c == '*' {
                Token::Star
            } else if c == '^' {
                Token::Caret
            } else {
                Token::Slash
            };
            return Ok(t);
        }
        if c == '-' {
            self.advance();
            if self.peek() == Some('>') {
                self.advance();
                return Ok(Token::Arrow);
            }
            return Ok(Token::Minus);
        }
        if c == '=' {
            self.advance();
            if self.peek() == Some('=') {
                self.advance();
                return Ok(Token::Equals);
            }
            return Err(ParseError::UnexpectedToken { line, message: String::from_str("expected '==' not '='") });
        }
        if c == '"' {
            return match self.read_string() {
                Ok(s) => Ok(Token::StringLit(s)),
                Err(e) => Err(e),
            };
        }
        if '0' <= c && c <= '9' {
            return Ok(self.read_number(read));
        }
        if is_alphabetic(c) || c == '_' {
            let ident = self.read_ident();
            return Ok(keyword_or_ident(ident));
        }
        self.advance();
        let mut message = String::from_str("unexpected character '");
        push_char(&mut message, c);
        message.append("'");
        Err(ParseError::UnexpectedToken { line, message })
    }

    /// The tokens of the rest of the text, ending with `Eof`, or the first error.
    /// `read` gives the values of real numerals.
    pub fn tokenise<R: Fn(&String) -> Angle>(&mut self, read: &R) -> (r: Result<Vec<Token>, ParseError>)
        requires
            old(self).wf(),
            reader_ok(*read),
        ensures
            match lex_from(*read, old(self).text(), old(self).cursor(), old(self).line_no()) {
                Ok(ts) => r matches Ok(v) && tokens_view(v@) == ts,
                Err(e) => r matches Err(x) && x@ == e,
            },
    {
        let ghost input = self.text();
        let ghost start = lex_from(*read, input, self.cursor(), self.line as int);
        let mut out: Vec<Token> = Vec::new();
        loop
            invariant_except_break
                after_tokens(tokens_view(out@), lex_from(*read, input, self.cursor(), self.line as int)) == start,
            invariant
                self.wf(),
                self.text() == input,
                input == old(self).text(),
                reader_ok(*read),
                start == lex_from(*read, input, old(self).cursor(), old(self).line as int),
            ensures
                start == Ok::<Seq<SpecToken>, SpecParseError>(tokens_view(out@)),
            decreases input.len() - self.cursor(),
        {
            let ghost (p, l) = (self.cursor(), self.line as int);
            proof {
                lemma_skip(input, p, l, false);
            }
            self.skip_whitespace_and_comments();
            if self.cursor_at_end() {
                let ghost before = out@;
                out.push(Token::Eof);
                proof {
                    assert(tokens_view(out@) =~= tokens_view(before) + seq![SpecToken::Eof]);
                }
                break;
            }
            let ghost (q, l1) = (self.cursor(), self.line as int);
            proof {
                lemma_scan_token(*read, input, q, l1);
            }
            match self.scan_one(read) {
                Err(e) => {
                    proof {
                        assert(lex_from(*read, input, p, l) == Err::<Seq<SpecToken>, SpecParseError>(e@));
                    }
                    return Err(e);
                },
                Ok(t) => {
                    let ghost before = out@;
                    out.push(t);
                    proof {
                        let rest = lex_from(*read, input, self.cursor(), self.line as int);
                        match rest {
                            Ok(ts) => {
                                assert(tokens_view(out@) + ts =~= tokens_view(before) + (seq![t@] + ts));
                            },
                            Err(_) => {},
                        }
                    }
                },
            }
        }
        Ok(out)
    }
}

impl Clone for Token {
    fn clone(&self) -> (r: Self)
        ensures
            r@ == self@,
    {
        match self {
            Token::OpenQasm => Token::OpenQasm,
            Token::Include => Token::Include,
            Token::Qreg => Token::Qreg,
            Token::Creg => Token::Creg,
            Token::Barrier => Token::Barrier,
            Token::Measure => Token::Measure,
            Token::Reset => Token::Reset,
            Token::If => Token::If,
            Token::Gate => Token::Gate,
            Token::Opaque => Token::Opaque,
            Token::LParen => Token::LParen,
            Token::RParen => Token::RParen,
            Token::LBracket => Token::LBracket,
            Token::RBracket => Token::RBracket,
            Token::LBrace => Token::LBrace,
            Token::RBrace => Token::RBrace,
            Token::Semicolon => Token::Semicolon,
            Token::Comma => Token::Comma,
            Token::Arrow => Token::Arrow,
            Token::Equals => Token::Equals,
            Token::Plus => Token::Plus,
            Token::Minus => Token::Minus,
            Token::Star => Token::Star,
            Token::Slash => Token::Slash,
            Token::Caret => Token::Caret,
            Token::Ident(s) => Token::Ident(s.clone()),
            Token::Integer(n) => Token::Integer(*n),
            Token::Real(x) => Token::Real(*x),
            Token::StringLit(s) => Token::StringLit(s.clone()),
            Token::Eof => Token::Eof,
        }
    }
}

/// The variant of a token, as a number.
pub open spec fn token_kind(t: SpecToken) -> u8 {
    match t {
        SpecToken::OpenQasm => 0,
        SpecToken::Include => 1,
        SpecToken::Qreg => 2,
        SpecToken::Creg => 3,
        SpecToken::Barrier => 4,
        SpecToken::Measure => 5,
        SpecToken::Reset => 6,
        SpecToken::If => 7,
        SpecToken::Gate => 8,
        SpecToken::Opaque => 9,
        SpecToken::LParen => 10,
        SpecToken::RParen => 11,
        SpecToken::LBracket => 12,
        SpecToken::RBracket => 13,
        SpecToken::LBrace => 14,
        SpecToken::RBrace => 15,
        SpecToken::Semicolon => 16,
        SpecToken::Comma => 17,
        SpecToken::Arrow => 18,
        SpecToken::Equals => 19,
        SpecToken::Plus => 20,
        SpecToken::Minus => 21,
        SpecToken::Star => 22,
        SpecToken::Slash => 23,
        SpecToken::Caret => 24,
        SpecToken::Ident(_) => 25,
        SpecToken::Integer(_) => 26,
        SpecToken::Real(_) => 27,
        SpecToken::StringLit(_) => 28,
        SpecToken::Eof => 29,
    }
}

impl Token {
    fn kind(&self) -> (k: u8)
        ensures
            k == token_kind(self@),
    {
        match self {
            Token::OpenQasm => 0,
            Token::Include => 1,
            Token::Qreg => 2,
            Token::Creg => 3,
            Token::Barrier => 4,
            Token::Measure => 5,
            Token::Reset => 6,
            Token::If => 7,
            Token::Gate => 8,
            Token::Opaque => 9,
            Token::LParen => 10,
            Token::RParen => 11,
            Token::LBracket => 12,
            Token::RBracket => 13,
            Token::LBrace => 14,
            Token::RBrace => 15,
            Token::Semicolon => 16,
            Token::Comma => 17,
            Token::Arrow => 18,
            Token::Equals => 19,
            Token::Plus => 20,
            Token::Minus => 21,
            Token::Star => 22,
            Token::Slash => 23,
            Token::Caret => 24,
            Token::Ident(_) => 25,
            Token::Integer(_) => 26,
            Token::Real(_) => 27,
            Token::StringLit(_) => 28,
            Token::Eof => 29,
        }
    }

    /// Whether both are the same token, contents included.
    pub fn same_as(&self, other: &Token) -> (b: bool)
        ensures
            b == (self@ == other@),
    {
        match self {
            Token::Ident(a) => match other {
                Token::Ident(b) => *a == *b,
                _ => false,
            },
            Token::Integer(a) => match other {
                Token::Integer(b) => *a == *b,
                _ => false,
            },
            Token::Real(a) => match other {
                Token::Real(b) => *a == *b,
                _ => false,
            },
            Token::StringLit(a) => match other {
                Token::StringLit(b) => *a == *b,
                _ => false,
            },
            _ => self.kind() == other.kind(),
        }
    }
}

} // verus!
