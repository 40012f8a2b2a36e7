//! Source text to tokens.
//!
//! The specification is a maximal-munch scanner over the source characters:
//! `spec_step` says what the token at a position is and where the next one
//! starts, `spec_lex` chains those steps, and `tokenize` is proved to agree
//! with it, token for token and line for line.

use vstd::prelude::*;

use crate::error::LangError;
use crate::text::{alphabetic, alphanumeric, chars_of, is_alphabetic, is_alphanumeric, string_from_chars};

verus! {

/// The kind of a lexical token.
#[derive(Debug, Clone, Copy, PartialEq, Eq, Structural)]
pub enum TokenKind {
    Number,
    Str,
    Ident,
    // Keywords
    Var,
    True,
    False,
    If,
    Else,
    While,
    Function,
    Return,
    // Operators and punctuation
    Equals,
    Arrow,
    Plus,
    Minus,
    Star,
    Slash,
    Percent,
    Bang,
    EqualEqual,
    BangEqual,
    Less,
    LessEqual,
    Greater,
    GreaterEqual,
    AndAnd,
    OrOr,
    LParen,
    RParen,
    LBrace,
    RBrace,
    LBracket,
    RBracket,
    Semicolon,
    Comma,
    Colon,
}

/// A single lexical token. `text` is the payload: the spelling of a number,
/// the decoded contents of a string literal, or the name of an identifier;
/// it is empty for keywords and punctuation.
#[derive(Debug, Clone)]
pub struct Token {
    pub kind: TokenKind,
    pub text: String,
}

/// A token as the specification sees it.
pub type SpecToken = (TokenKind, Seq<char>);

impl Token {
    pub open spec fn view_token(&self) -> SpecToken {
        (self.kind, self.text@)
    }
}

/// Why lexing failed, as the specification sees it.
pub enum LexFailure {
    UnexpectedChar(char),
    InvalidNumber(Seq<char>),
    UnterminatedString,
    InvalidEscape(char),
}

/// `e` is the error value that reports failure `f`.
pub open spec fn reports(e: LangError, f: LexFailure) -> bool {
    match (e, f) {
        (LangError::UnexpectedChar(a), LexFailure::UnexpectedChar(b)) => a == b,
        (LangError::InvalidNumber(s), LexFailure::InvalidNumber(t)) => s@ == t,
        (LangError::UnterminatedString, LexFailure::UnterminatedString) => true,
        (LangError::InvalidEscape(a), LexFailure::InvalidEscape(b)) => a == b,
        _ => false,
    }
}

/// One step of the scanner at a position.
pub enum Step {
    /// Whitespace or a comment: scanning resumes at the position given.
    Skip(int),
    /// A token, and the position just after it.
    Emit(TokenKind, Seq<char>, int),
    Fail(LexFailure),
}

pub open spec fn is_digit(c: char) -> bool {
    '0' <= c && c <= '9'
}

pub open spec fn is_space(c: char) -> bool {
    c == ' ' || c == '\t' || c == '\r' || c == '\n'
}

/// An ASCII letter.
pub open spec fn ascii_letter(c: char) -> bool {
    ('a' <= c && c <= 'z') || ('A' <= c && c <= 'Z')
}

/// Characters that may start an identifier: '_' and the alphabetic ones
/// (among ASCII characters, the letters).
pub open spec fn ident_start(c: char) -> bool {
    if (c as u32) < 128 {
        ascii_letter(c) || c == '_'
    } else {
        alphabetic(c)
    }
}

/// Characters that may continue an identifier: '_' and the alphanumeric
/// ones (among ASCII characters, the letters and the digits).
pub open spec fn ident_char(c: char) -> bool {
    if (c as u32) < 128 {
        ascii_letter(c) || is_digit(c) || c == '_'
    } else {
        alphanumeric(c)
    }
}

/// Characters that may continue a number.
pub open spec fn number_char(c: char) -> bool {
    is_digit(c) || c == '.'
}

/// The end of the maximal run of identifier characters starting at `i`.
pub open spec fn ident_end(cs: Seq<char>, i: int) -> int
    decreases cs.len() - i,
{
    if 0 <= i < cs.len() && ident_char(cs[i]) {
        ident_end(cs, i + 1)
    } else {
        i
    }
}

/// An identifier runs over every following letter, digit and '_' (beyond
/// ASCII, every alphanumeric character) and stops at the first character
/// that is none of these, or at the end of the text.
pub proof fn law_identifier_runs_are_maximal(cs: Seq<char>, i: int)
    requires
        0 <= i <= cs.len(),
    ensures
        i <= ident_end(cs, i) <= cs.len(),
        forall|m: int|
            i <= m < ident_end(cs, i) ==> {
                let c = #[trigger] cs[m];
                if (c as u32) < 128 {
                    ('a' <= c && c <= 'z') || ('A' <= c && c <= 'Z') || ('0' <= c && c <= '9')
                        || c == '_'
                } else {
                    alphanumeric(c)
                }
            },
        ident_end(cs, i) < cs.len() ==> {
            let c = cs[ident_end(cs, i)];
            if (c as u32) < 128 {
                !(('a' <= c && c <= 'z') || ('A' <= c && c <= 'Z') || ('0' <= c && c <= '9')
                    || c == '_')
            } else {
                !alphanumeric(c)
            }
        },
    decreases cs.len() - i,
{
    if i < cs.len() && ident_char(cs[i]) {
        law_identifier_runs_are_maximal(cs, i + 1);
    }
}

/// A letter or '_' starts a word token that ends where the identifier run
/// ends: a keyword when the word is one, else an identifier spelled by the
/// word.
pub proof fn law_words_are_whole_tokens(cs: Seq<char>, i: int)
    requires
        0 <= i < cs.len(),
        ('a' <= cs[i] && cs[i] <= 'z') || ('A' <= cs[i] && cs[i] <= 'Z') || cs[i] == '_',
    ensures
        spec_step(cs, i) matches Step::Emit(k, t, j) && j == ident_end(cs, i) && match keyword(
            cs.subrange(i, j),
        ) {
            Some(kw) => k == kw,
            None => k == TokenKind::Ident && t == cs.subrange(i, j),
        },
{
    assert(ident_char(cs[i]));
    assert(ident_end(cs, i) == ident_end(cs, i + 1));
}

/// The end of the maximal run of number characters starting at `i`.
pub open spec fn number_end(cs: Seq<char>, i: int) -> int
    decreases cs.len() - i,
{
    if 0 <= i < cs.len() && number_char(cs[i]) {
        number_end(cs, i + 1)
    } else {
        i
    }
}

/// The position of the first newline at or after `i` (or the end): where a
/// line comment stops.
pub open spec fn line_end(cs: Seq<char>, i: int) -> int
    decreases cs.len() - i,
{
    if 0 <= i < cs.len() && cs[i] != '\n' {
        line_end(cs, i + 1)
    } else {
        i
    }
}

/// A number spelling is valid when it holds at most one '.' and at least
/// one digit — the strings of digits and dots that std accepts as `f64`.
pub open spec fn valid_number(w: Seq<char>) -> bool {
    &&& exists|k: int| 0 <= k < w.len() && is_digit(#[trigger] w[k])
    &&& forall|a: int, b: int| 0 <= a < b < w.len() && #[trigger] w[a] == '.' ==> #[trigger] w[b] != '.'
}

/// The character an escape sequence `\c` stands for, if it is one.
pub open spec fn escaped(c: char) -> Option<char> {
    if c == 'n' {
        Some('\n')
    } else if c == 't' {
        Some('\t')
    } else if c == '"' {
        Some('"')
    } else if c == '\\' {
        Some('\\')
    } else {
        None
    }
}

/// The body of a string literal starting at `j` (after the opening quote),
/// decoded and appended to `acc`; with the position after the closing quote.
pub open spec fn scan_string(cs: Seq<char>, j: int, acc: Seq<char>) -> Result<(Seq<char>, int), LexFailure>
    decreases cs.len() - j,
{
    if j < 0 || j >= cs.len() {
        Err(LexFailure::UnterminatedString)
    } else if cs[j] == '"' {
        Ok((acc, j + 1))
    } else if cs[j] == '\\' {
        if j + 1 >= cs.len() {
            Err(LexFailure::UnterminatedString)
        } else {
            match escaped(cs[j + 1]) {
                Some(e) => scan_string(cs, j + 2, acc.push(e)),
                None => Err(LexFailure::InvalidEscape(cs[j + 1])),
            }
        }
    } else {
        scan_string(cs, j + 1, acc.push(cs[j]))
    }
}

/// The keyword spelled by `w`, if any.
pub open spec fn keyword(w: Seq<char>) -> Option<TokenKind> {
    if w == seq!['v', 'a', 'r'] {
        Some(TokenKind::Var)
    } else if w == seq!['t', 'r', 'u', 'e'] {
        Some(TokenKind::True)
    } else if w == seq!['f', 'a', 'l', 's', 'e'] {
        Some(TokenKind::False)
    } else if w == seq!['i', 'f'] {
        Some(TokenKind::If)
    } else if w == seq!['e', 'l', 's', 'e'] {
        Some(TokenKind::Else)
    } else if w == seq!['w', 'h', 'i', 'l', 'e'] {
        Some(TokenKind::While)
    } else if w == seq!['f', 'u', 'n', 'c', 't', 'i', 'o', 'n'] {
        Some(TokenKind::Function)
    } else if w == seq!['r', 'e', 't', 'u', 'r', 'n'] {
        Some(TokenKind::Return)
    } else {
        None
    }
}

/// Punctuation that is one character whatever follows it.
pub open spec fn single(c: char) -> Option<TokenKind> {
    if c == '+' {
        Some(TokenKind::Plus)
    } else if c == '-' {
        Some(TokenKind::Minus)
    } else if c == '*' {
        Some(TokenKind::Star)
    } else if c == '%' {
        Some(TokenKind::Percent)
    } else if c == '(' {
        Some(TokenKind::LParen)
    } else if c == ')' {
        Some(TokenKind::RParen)
    } else if c == '{' {
        Some(TokenKind::LBrace)
    } else if c == '}' {
        Some(TokenKind::RBrace)
    } else if c == '[' {
        Some(TokenKind::LBracket)
    } else if c == ']' {
        Some(TokenKind::RBracket)
    } else if c == ';' {
        Some(TokenKind::Semicolon)
    } else if c == ',' {
        Some(TokenKind::Comma)
    } else if c == ':' {
        Some(TokenKind::Colon)
    } else {
        None
    }
}

/// Whether the character at `k` exists and is `c`.
pub open spec fn at(cs: Seq<char>, k: int, c: char) -> bool {
    0 <= k < cs.len() && cs[k] == c
}

/// The scanner's step at position `i` (which must be inside `cs`).
pub open spec fn spec_step(cs: Seq<char>, i: int) -> Step {
    let c = cs[i];
    if is_space(c) {
        Step::Skip(i + 1)
    } else if c == '/' && at(cs, i + 1, '/') {
        Step::Skip(line_end(cs, i + 2))
    } else if c == '/' {
        Step::Emit(TokenKind::Slash, seq![], i + 1)
    } else if single(c) is Some {
        Step::Emit(single(c)->0, seq![], i + 1)
    } else if c == '=' {
        if at(cs, i + 1, '=') {
            Step::Emit(TokenKind::EqualEqual, seq![], i + 2)
        } else if at(cs, i + 1, '>') {
            Step::Emit(TokenKind::Arrow, seq![], i + 2)
        } else {
            Step::Emit(TokenKind::Equals, seq![], i + 1)
        }
    } else if c == '!' {
        if at(cs, i + 1, '=') {
            Step::Emit(TokenKind::BangEqual, seq![], i + 2)
        } else {
            Step::Emit(TokenKind::Bang, seq![], i + 1)
        }
    } else if c == '<' {
        if at(cs, i + 1, '=') {
            Step::Emit(TokenKind::LessEqual, seq![], i + 2)
        } else {
            Step::Emit(TokenKind::Less, seq![], i + 1)
        }
    } else if c == '>' {
        if at(cs, i + 1, '=') {
            Step::Emit(TokenKind::GreaterEqual, seq![], i + 2)
        } else {
            Step::Emit(TokenKind::Greater, seq![], i + 1)
        }
    } else if c == '&' && at(cs, i + 1, '&') {
        Step::Emit(TokenKind::AndAnd, seq![], i + 2)
    } else if c == '|' && at(cs, i + 1, '|') {
        Step::Emit(TokenKind::OrOr, seq![], i + 2)
    } else if c == '"' {
        match scan_string(cs, i + 1, seq![]) {
            Ok((s, j)) => Step::Emit(TokenKind::Str, s, j),
            Err(f) => Step::Fail(f),
        }
    } else if number_char(c) {
        let w = cs.subrange(i, number_end(cs, i));
        if valid_number(w) {
            Step::Emit(TokenKind::Number, w, number_end(cs, i))
        } else {
            Step::Fail(LexFailure::InvalidNumber(w))
        }
    } else if ident_start(c) {
        let j = ident_end(cs, i + 1);
        let w = cs.subrange(i, j);
        match keyword(w) {
            Some(k) => Step::Emit(k, seq![], j),
            None => Step::Emit(TokenKind::Ident, w, j),
        }
    } else {
        Step::Fail(LexFailure::UnexpectedChar(c))
    }
}

proof fn lemma_runs_advance(cs: Seq<char>, i: int)
    requires
        0 <= i,
    ensures
        ident_end(cs, i) >= i,
        ident_end(cs, i) <= cs.len() || ident_end(cs, i) == i,
        number_end(cs, i) >= i,
        number_end(cs, i) <= cs.len() || number_end(cs, i) == i,
        line_end(cs, i) >= i,
        line_end(cs, i) <= cs.len() || line_end(cs, i) == i,
    decreases cs.len() - i,
{
    if i < cs.len() {
        lemma_runs_advance(cs, i + 1);
    }
}

proof fn lemma_scan_string_advances(cs: Seq<char>, j: int, acc: Seq<char>)
    requires
        0 <= j,
    ensures
        scan_string(cs, j, acc) matches Ok((_, k)) ==> j < k <= cs.len(),
    decreases cs.len() - j,
{
    if j < cs.len() && cs[j] != '"' {
        if cs[j] == '\\' {
            if j + 1 < cs.len() {
                if let Some(e) = escaped(cs[j + 1]) {
                    lemma_scan_string_advances(cs, j + 2, acc.push(e));
                }
            }
        } else {
            lemma_scan_string_advances(cs, j + 1, acc.push(cs[j]));
        }
    }
}

/// Every step moves forward and stays inside the text.
pub proof fn lemma_step_advances(cs: Seq<char>, i: int)
    requires
        0 <= i < cs.len(),
    ensures
        spec_step(cs, i) matches Step::Skip(j) ==> i < j <= cs.len(),
        spec_step(cs, i) matches Step::Emit(_, _, j) ==> i < j <= cs.len(),
{
    lemma_runs_advance(cs, i);
    lemma_runs_advance(cs, i + 1);
    lemma_runs_advance(cs, i + 2);
    lemma_scan_string_advances(cs, i + 1, seq![]);
}

/// The tokens of `cs` from position `i` on, each with the position where it
/// starts; or the failure that stops the scan.
pub open spec fn spec_lex(cs: Seq<char>, i: int) -> Result<Seq<(SpecToken, int)>, LexFailure>
    decreases cs.len() - i,
{
    if i < 0 || i >= cs.len() {
        Ok(seq![])
    } else {
        proof {
            lemma_step_advances(cs, i);
        }
        match spec_step(cs, i) {
            Step::Skip(j) => spec_lex(cs, j),
            Step::Emit(k, t, j) => match spec_lex(cs, j) {
                Ok(rest) => Ok(seq![((k, t), i)] + rest),
                Err(f) => Err(f),
            },
            Step::Fail(f) => Err(f),
        }
    }
}

/// The 1-based line of position `i`: one more than the newlines before it.
pub open spec fn line_of(cs: Seq<char>, i: int) -> int
    decreases i,
{
    if i <= 0 || cs.len() == 0 {
        1
    } else if i > cs.len() {
        line_of(cs, cs.len() as int)
    } else {
        line_of(cs, i - 1) + if cs[i - 1] == '\n' { 1int } else { 0int }
    }
}


proof fn lemma_line_step(cs: Seq<char>, k: int)
    requires
        0 <= k < cs.len(),
    ensures
        line_of(cs, k + 1) == line_of(cs, k) + if cs[k] == '\n' { 1int } else { 0int },
{
}

proof fn lemma_line_bound(cs: Seq<char>, k: int)
    requires
        0 <= k <= cs.len(),
    ensures
        1 <= line_of(cs, k) <= k + 1,
    decreases k,
{
    if k > 0 {
        lemma_line_bound(cs, k - 1);
    }
}

/// Advance a line counter from position `i` to position `j`.
fn count_lines(cs: &Vec<char>, i: usize, j: usize, line: usize) -> (r: usize)
    requires
        i <= j <= cs@.len() < usize::MAX,
        line == line_of(cs@, i as int),
    ensures
        r == line_of(cs@, j as int),
{
    let mut k = i;
    let mut l = line;
    while k < j
        invariant
            i <= k <= j <= cs@.len() < usize::MAX,
            l == line_of(cs@, k as int),
        decreases j - k,
    {
        proof {
            lemma_line_step(cs@, k as int);
            lemma_line_bound(cs@, k as int + 1);
        }
        if cs[k] == '\n' {
            l = l + 1;
        }
        k = k + 1;
    }
    l
}

fn is_digit_char(c: char) -> (r: bool)
    ensures
        r == is_digit(c),
{
    '0' <= c && c <= '9'
}

fn ident_run_end(cs: &Vec<char>, i: usize) -> (j: usize)
    requires
        i <= cs@.len(),
    ensures
        j == ident_end(cs@, i as int),
{
    let mut j = i;
    while j < cs.len() && (is_alphanumeric(cs[j]) || cs[j] == '_')
        invariant
            i <= j <= cs@.len(),
            ident_end(cs@, i as int) == ident_end(cs@, j as int),
        decreases cs@.len() - j,
    {
        j = j + 1;
    }
    j
}

fn number_run_end(cs: &Vec<char>, i: usize) -> (j: usize)
    requires
        i <= cs@.len(),
    ensures
        j == number_end(cs@, i as int),
{
    let mut j = i;
    while j < cs.len() && (is_digit_char(cs[j]) || cs[j] == '.')
        invariant
            i <= j <= cs@.len(),
            number_end(cs@, i as int) == number_end(cs@, j as int),
        decreases cs@.len() - j,
    {
        j = j + 1;
    }
    j
}

fn comment_end(cs: &Vec<char>, i: usize) -> (j: usize)
    requires
        i <= cs@.len(),
    ensures
        j == line_end(cs@, i as int),
{
    let mut j = i;
    while j < cs.len() && cs[j] != '\n'
        invariant
            i <= j <= cs@.len(),
            line_end(cs@, i as int) == line_end(cs@, j as int),
        decreases cs@.len() - j,
    {
        j = j + 1;
    }
    j
}

/// The characters `cs[i..j]`.
fn slice_chars(cs: &Vec<char>, i: usize, j: usize) -> (w: Vec<char>)
    requires
        i <= j <= cs@.len(),
    ensures
        w@ == cs@.subrange(i as int, j as int),
{
    let mut w: Vec<char> = Vec::new();
    let mut k = i;
    while k < j
        invariant
            i <= k <= j <= cs@.len(),
            w@ == cs@.subrange(i as int, k as int),
        decreases j - k,
    {
        w.push(cs[k]);
        k = k + 1;
    }
    w
}

fn check_number(w: &Vec<char>) -> (ok: bool)
    ensures
        ok == valid_number(w@),
{
    let mut digit = false;
    let mut dot: Option<usize> = None;
    let mut k: usize = 0;
    while k < w.len()
        invariant
            k <= w@.len(),
            digit == (exists|m: int| 0 <= m < k && is_digit(#[trigger] w@[m])),
            dot is None ==> forall|m: int| 0 <= m < k ==> #[trigger] w@[m] != '.',
            dot matches Some(d) ==> d < k && w@[d as int] == '.' && forall|m: int|
                0 <= m < k && m != d ==> #[trigger] w@[m] != '.',
        decreases w@.len() - k,
    {
        let c = w[k];
        if c == '.' {
            match dot {
                Some(d) => {
                    assert(0 <= d < k < w@.len() && w@[d as int] == '.' && w@[k as int] == '.');
                    return false;
                },
                None => {
                    dot = Some(k);
                },
            }
        }
        if is_digit_char(c) {
            digit = true;
        }
        k = k + 1;
    }
    proof {
        if valid_number(w@) {
        } else {
            if digit {
                let (a, b) = choose|a: int, b: int|
                    0 <= a < b < w@.len() && #[trigger] w@[a] == '.' && !(#[trigger] w@[b] != '.');
                match dot {
                    Some(d) => {
                        assert(a == d as int || w@[a] != '.');
                        assert(b == d as int || w@[b] != '.');
                    },
                    None => {},
                }
            }
        }
    }
    digit && true
}

fn chars_eq(w: &Vec<char>, lit: &[char]) -> (r: bool)
    ensures
        r == (w@ == lit@),
{
    if w.len() != lit.len() {
        return false;
    }
    let mut k: usize = 0;
    while k < w.len()
        invariant
            w@.len() == lit@.len(),
            k <= w@.len(),
            forall|m: int| 0 <= m < k ==> w@[m] == lit@[m],
        decreases w@.len() - k,
    {
        if w[k] != lit[k] {
            return false;
        }
        k = k + 1;
    }
    assert(w@ =~= lit@);
    true
}

fn keyword_of(w: &Vec<char>) -> (r: Option<TokenKind>)
    ensures
        r == keyword(w@),
{
    let kw_var: [char; 3] = ['v', 'a', 'r'];
    assert(kw_var@ =~= seq!['v', 'a', 'r']);
    if chars_eq(w, kw_var.as_slice()) {
        return Some(TokenKind::Var);
    }
    let kw_true: [char; 4] = ['t', 'r', 'u', 'e'];
    assert(kw_true@ =~= seq!['t', 'r', 'u', 'e']);
    if chars_eq(w, kw_true.as_slice()) {
        return Some(TokenKind::True);
    }
    let kw_false: [char; 5] = ['f', 'a', 'l', 's', 'e'];
    assert(kw_false@ =~= seq!['f', 'a', 'l', 's', 'e']);
    if chars_eq(w, kw_false.as_slice()) {
        return Some(TokenKind::False);
    }
    let kw_if: [char; 2] = ['i', 'f'];
    assert(kw_if@ =~= seq!['i', 'f']);
    if chars_eq(w, kw_if.as_slice()) {
        return Some(TokenKind::If);
    }
    let kw_else: [char; 4] = ['e', 'l', 's', 'e'];
    assert(kw_else@ =~= seq!['e', 'l', 's', 'e']);
    if chars_eq(w, kw_else.as_slice()) {
        return Some(TokenKind::Else);
    }
    let kw_while: [char; 5] = ['w', 'h', 'i', 'l', 'e'];
    assert(kw_while@ =~= seq!['w', 'h', 'i', 'l', 'e']);
    if chars_eq(w, kw_while.as_slice()) {
        return Some(TokenKind::While);
    }
    let kw_function: [char; 8] = ['f', 'u', 'n', 'c', 't', 'i', 'o', 'n'];
    assert(kw_function@ =~= seq!['f', 'u', 'n', 'c', 't', 'i', 'o', 'n']);
    if chars_eq(w, kw_function.as_slice()) {
        return Some(TokenKind::Function);
    }
    let kw_return: [char; 6] = ['r', 'e', 't', 'u', 'r', 'n'];
    assert(kw_return@ =~= seq!['r', 'e', 't', 'u', 'r', 'n']);
    if chars_eq(w, kw_return.as_slice()) {
        return Some(TokenKind::Return);
    }
    None
}

fn read_string(cs: &Vec<char>, start: usize) -> (r: Result<(Vec<char>, usize), LangError>)
    requires
        start <= cs@.len(),
    ensures
        match scan_string(cs@, start as int, seq![]) {
            Ok((t, k)) => r matches Ok((v, k2)) && v@ == t && k2 == k,
            Err(f) => r matches Err(e) && reports(e, f),
        },
{
    let mut acc: Vec<char> = Vec::new();
    let mut j = start;
    loop
        invariant
            start <= j <= cs@.len(),
            scan_string(cs@, start as int, seq![]) == scan_string(cs@, j as int, acc@),
        decreases cs@.len() - j,
    {
        if j >= cs.len() {
            return Err(LangError::UnterminatedString);
        }
        let c = cs[j];
        if c == '"' {
            return Ok((acc, j + 1));
        } else if c == '\\' {
            if j + 1 >= cs.len() {
                return Err(LangError::UnterminatedString);
            }
            let e = cs[j + 1];
            if e == 'n' {
                acc.push('\n');
            } else if e == 't' {
                acc.push('\t');
            } else if e == '"' {
                acc.push('"');
            } else if e == '\\' {
                acc.push('\\');
            } else {
                return Err(LangError::InvalidEscape(e));
            }
            j = j + 2;
        } else {
            acc.push(c);
            j = j + 1;
        }
    }
}

fn single_of(c: char) -> (r: Option<TokenKind>)
    ensures
        r == single(c),
{
    match c {
        '+' => Some(TokenKind::Plus),
        '-' => Some(TokenKind::Minus),
        '*' => Some(TokenKind::Star),
        '%' => Some(TokenKind::Percent),
        '(' => Some(TokenKind::LParen),
        ')' => Some(TokenKind::RParen),
        '{' => Some(TokenKind::LBrace),
        '}' => Some(TokenKind::RBrace),
        '[' => Some(TokenKind::LBracket),
        ']' => Some(TokenKind::RBracket),
        ';' => Some(TokenKind::Semicolon),
        ',' => Some(TokenKind::Comma),
        ':' => Some(TokenKind::Colon),
        _ => None,
    }
}

fn next_is(cs: &Vec<char>, k: usize, c: char) -> (r: bool)
    ensures
        r == at(cs@, k as int, c),
{
    k < cs.len() && cs[k] == c
}

fn punct(kind: TokenKind) -> (t: Token)
    ensures
        t.kind == kind,
        t.text@ == Seq::<char>::empty(),
{
    Token { kind, text: String::new() }
}

/// The scanner's step at `i`: `Ok((None, j))` for whitespace or a comment,
/// `Ok((Some(token), j))` for a token; `j` is where scanning resumes.
fn scan_step(cs: &Vec<char>, i: usize) -> (r: Result<(Option<Token>, usize), LangError>)
    requires
        i < cs@.len() < usize::MAX,
    ensures
        match spec_step(cs@, i as int) {
            Step::Skip(j) => r matches Ok((None, j2)) && j2 == j,
            Step::Emit(k, t, j) => r matches Ok((Some(tok), j2)) && tok.kind == k && tok.text@ == t
                && j2 == j,
            Step::Fail(f) => r matches Err(e) && reports(e, f),
        },
{
    proof {
        lemma_step_advances(cs@, i as int);
    }
    let c = cs[i];
    if c == ' ' || c == '\t' || c == '\r' || c == '\n' {
        return Ok((None, i + 1));
    }
    if c == '/' {
        if next_is(cs, i + 1, '/') {
            proof {
                lemma_runs_advance(cs@, i + 2);
            }
            let j = comment_end(cs, i + 2);
            return Ok((None, j));
        }
        return Ok((Some(punct(TokenKind::Slash)), i + 1));
    }
    match single_of(c) {
        Some(k) => {
            return Ok((Some(punct(k)), i + 1));
        },
        None => {},
    }
    if c == '=' {
        if next_is(cs, i + 1, '=') {
            return Ok((Some(punct(TokenKind::EqualEqual)), i + 2));
        } else if next_is(cs, i + 1, '>') {
            return Ok((Some(punct(TokenKind::Arrow)), i + 2));
        }
        return Ok((Some(punct(TokenKind::Equals)), i + 1));
    }
    if c == '!' {
        if next_is(cs, i + 1, '=') {
            return Ok((Some(punct(TokenKind::BangEqual)), i + 2));
        }
        return Ok((Some(punct(TokenKind::Bang)), i + 1));
    }
    if c == '<' {
        if next_is(cs, i + 1, '=') {
            return Ok((Some(punct(TokenKind::LessEqual)), i + 2));
        }
        return Ok((Some(punct(TokenKind::Less)), i + 1));
    }
    if c == '>' {
        if next_is(cs, i + 1, '=') {
            return Ok((Some(punct(TokenKind::GreaterEqual)), i + 2));
        }
        return Ok((Some(punct(TokenKind::Greater)), i + 1));
    }
    if c == '&' && next_is(cs, i + 1, '&') {
        return Ok((Some(punct(TokenKind::AndAnd)), i + 2));
    }
    if c == '|' && next_is(cs, i + 1, '|') {
        return Ok((Some(punct(TokenKind::OrOr)), i + 2));
    }
    if c == '"' {
        return match read_string(cs, i + 1) {
            Ok((v, j)) => Ok((Some(Token { kind: TokenKind::Str, text: string_from_chars(&v) }), j)),
            Err(e) => Err(e),
        };
    }
    if is_digit_char(c) || c == '.' {
        let j = number_run_end(cs, i);
        proof {
            lemma_runs_advance(cs@, i as int);
        }
        let w = slice_chars(cs, i, j);
        let text = string_from_chars(&w);
        if check_number(&w) {
            return Ok((Some(Token { kind: TokenKind::Number, text }), j));
        }
        return Err(LangError::InvalidNumber(text));
    }
    if is_alphabetic(c) || c == '_' {
        proof {
            lemma_runs_advance(cs@, i + 1);
        }
        let j = ident_run_end(cs, i + 1);
        let w = slice_chars(cs, i, j);
        return match keyword_of(&w) {
            Some(k) => Ok((Some(punct(k)), j)),
            None => Ok((Some(Token { kind: TokenKind::Ident, text: string_from_chars(&w) }), j)),
        };
    }
    Err(LangError::UnexpectedChar(c))
}

/// Turn source text into a flat list of tokens, with the 1-based source line
/// of each token alongside.
pub fn tokenize(src: &str) -> (r: Result<(Vec<Token>, Vec<usize>), LangError>)
    requires
        src@.len() < usize::MAX,
    ensures
        match spec_lex(src@, 0) {
            Ok(toks) => r matches Ok((tokens, lines)) && tokens@.len() == toks.len() && lines@.len()
                == toks.len() && forall|n: int|
                0 <= n < toks.len() ==> {
                    &&& (#[trigger] tokens@[n]).view_token() == toks[n].0
                    &&& lines@[n] == line_of(src@, toks[n].1)
                },
            Err(f) => r matches Err(e) && reports(e, f),
        },
        r matches Ok((tokens, lines)) ==> tokens@.len() == lines@.len() && tokens@.len()
            <= src@.len(),
{
    let cs = chars_of(src);
    let mut tokens: Vec<Token> = Vec::new();
    let mut lines: Vec<usize> = Vec::new();
    let mut i: usize = 0;
    let mut line: usize = 1;
    let ghost mut done: Seq<(SpecToken, int)> = seq![];
    while i < cs.len()
        invariant
            cs@ == src@,
            cs@.len() < usize::MAX,
            i <= cs@.len(),
            line == line_of(cs@, i as int),
            tokens@.len() == done.len(),
            lines@.len() == done.len(),
            tokens@.len() <= i,
            forall|n: int|
                0 <= n < done.len() ==> {
                    &&& (#[trigger] tokens@[n]).view_token() == done[n].0
                    &&& lines@[n] == line_of(cs@, done[n].1)
                },
            spec_lex(cs@, 0) == match spec_lex(cs@, i as int) {
                Ok(rest) => Ok(done + rest),
                Err(f) => Err::<Seq<(SpecToken, int)>, LexFailure>(f),
            },
        decreases cs@.len() - i,
    {
        proof {
            lemma_step_advances(cs@, i as int);
        }
        let (tok, j) = match scan_step(&cs, i) {
            Ok(step) => step,
            Err(e) => {
                return Err(e);
            },
        };
        match tok {
            Some(t) => {
                proof {
                    let old_done = done;
                    let x = (t.view_token(), i as int);
                    done = done.push(x);
                    assert(spec_lex(cs@, i as int) == match spec_lex(cs@, j as int) {
                        Ok(rest) => Ok(seq![x] + rest),
                        Err(f) => Err::<Seq<(SpecToken, int)>, LexFailure>(f),
                    });
                    match spec_lex(cs@, j as int) {
                        Ok(rest) => {
                            assert(done + rest =~= old_done + (seq![x] + rest));
                        },
                        Err(f) => {},
                    }
                }
                tokens.push(t);
                lines.push(line);
            },
            None => {
                assert(spec_lex(cs@, i as int) == spec_lex(cs@, j as int));
            },
        }
        line = count_lines(&cs, i, j, line);
        i = j;
    }
    proof {
        assert(done + seq![] =~= done);
    }
    Ok((tokens, lines))
}

} // verus!

verus! {

/// The fixed text of a token kind (empty for kinds with a payload).
pub open spec fn spelling(kind: TokenKind) -> Seq<char> {
    match kind {
        TokenKind::Number => ""@,
        TokenKind::Str => ""@,
        TokenKind::Ident => ""@,
        TokenKind::Var => "var"@,
        TokenKind::True => "true"@,
        TokenKind::False => "false"@,
        TokenKind::If => "if"@,
        TokenKind::Else => "else"@,
        TokenKind::While => "while"@,
        TokenKind::Function => "function"@,
        TokenKind::Return => "return"@,
        TokenKind::Equals => "="@,
        TokenKind::Arrow => "=>"@,
        TokenKind::Plus => "+"@,
        TokenKind::Minus => "-"@,
        TokenKind::Star => "*"@,
        TokenKind::Slash => "/"@,
        TokenKind::Percent => "%"@,
        TokenKind::Bang => "!"@,
        TokenKind::EqualEqual => "=="@,
        TokenKind::BangEqual => "!="@,
        TokenKind::Less => "<"@,
        TokenKind::LessEqual => "<="@,
        TokenKind::Greater => ">"@,
        TokenKind::GreaterEqual => ">="@,
        TokenKind::AndAnd => "&&"@,
        TokenKind::OrOr => "||"@,
        TokenKind::LParen => "("@,
        TokenKind::RParen => ")"@,
        TokenKind::LBrace => "{"@,
        TokenKind::RBrace => "}"@,
        TokenKind::LBracket => "["@,
        TokenKind::RBracket => "]"@,
        TokenKind::Semicolon => ";"@,
        TokenKind::Comma => ","@,
        TokenKind::Colon => ":"@,
    }
}

/// How a token reads in an error message.
pub open spec fn described(t: SpecToken) -> Seq<char> {
    match t.0 {
        TokenKind::Number | TokenKind::Ident => t.1,
        TokenKind::Str => seq!['"'] + t.1 + seq!['"'],
        k => spelling(k),
    }
}

/// The spelling of a token kind's fixed text (empty for kinds with a payload).
fn kind_spelling(kind: TokenKind) -> (s: &'static str)
    ensures
        s@ == spelling(kind),
{
    match kind {
        TokenKind::Number => "",
        TokenKind::Str => "",
        TokenKind::Ident => "",
        TokenKind::Var => "var",
        TokenKind::True => "true",
        TokenKind::False => "false",
        TokenKind::If => "if",
        TokenKind::Else => "else",
        TokenKind::While => "while",
        TokenKind::Function => "function",
        TokenKind::Return => "return",
        TokenKind::Equals => "=",
        TokenKind::Arrow => "=>",
        TokenKind::Plus => "+",
        TokenKind::Minus => "-",
        TokenKind::Star => "*",
        TokenKind::Slash => "/",
        TokenKind::Percent => "%",
        TokenKind::Bang => "!",
        TokenKind::EqualEqual => "==",
        TokenKind::BangEqual => "!=",
        TokenKind::Less => "<",
        TokenKind::LessEqual => "<=",
        TokenKind::Greater => ">",
        TokenKind::GreaterEqual => ">=",
        TokenKind::AndAnd => "&&",
        TokenKind::OrOr => "||",
        TokenKind::LParen => "(",
        TokenKind::RParen => ")",
        TokenKind::LBrace => "{",
        TokenKind::RBrace => "}",
        TokenKind::LBracket => "[",
        TokenKind::RBracket => "]",
        TokenKind::Semicolon => ";",
        TokenKind::Comma => ",",
        TokenKind::Colon => ":",
    }
}

impl Token {
    /// How the token reads in an error message: a string literal in double
    /// quotes, a number or a name as written, anything else by its spelling.
    pub fn describe(&self) -> (s: String)
        ensures
            s@ == described(self.view_token()),
    {
        match self.kind {
            TokenKind::Number | TokenKind::Ident => self.text.clone(),
            TokenKind::Str => {
                let q = "\"";
                proof {
                    reveal_strlit("\"");
                }
                let mut s = q.to_owned();
                crate::text::push_str(&mut s, self.text.as_str());
                crate::text::push_str(&mut s, q);
                s
            },
            _ => kind_spelling(self.kind).to_owned(),
        }
    }
}

} // verus!
