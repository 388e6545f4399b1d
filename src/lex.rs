//! The lexer: recognizers for each kind of token, tried in a fixed order of
//! priority, and the driver that lexes a whole source. Each executable
//! function is proved against the spec functions that define what it finds.
use vstd::prelude::*;
use crate::report::Report;
use crate::source::{
    byte_pos, has_word, lemma_byte_pos_boundary, lemma_byte_pos_strict, lemma_byte_slice, Cursor,
};
use vstd::utf8::{decode_utf8, encode_utf8, encode_utf8_decode_utf8, is_char_boundary};
use crate::token::{token_of, Token, TokenType};
use crate::unicode::{
    alphabetic, alphanumeric, white_space, is_alphabetic, is_alphanumeric, is_white_space,
};

verus! {

/// A lexing failure.
#[derive(Clone, Debug, PartialEq, Eq)]
pub enum LexErr {
    /// A message, not yet tied to a place in a file.
    Raw(String),
    /// A message, the file name and the 0-based line number.
    Point(String, String, usize),
}

/// What a `LexErr` holds.
pub enum LexFault {
    Raw(Seq<char>),
    Point(Seq<char>, Seq<char>, int),
}

impl View for LexErr {
    type V = LexFault;

    open spec fn view(&self) -> LexFault {
        match self {
            LexErr::Raw(m) => LexFault::Raw(m@),
            LexErr::Point(m, f, l) => LexFault::Point(m@, f@, *l as int),
        }
    }
}

/// What a recognizer finds at a position of the source: nothing of its kind,
/// a token of kind `k` that ends before character index `e`, or a failure.
pub enum Scan {
    NoMatch,
    Match(TokenType, int),
    Fail(Seq<char>),
}

/// A token in terms of character indices: kind and range `[start, end)`.
pub struct Lexeme {
    pub kind: TokenType,
    pub start: int,
    pub end: int,
}

/// The token that stands for lexeme `x` of `s`, with byte offsets.
pub open spec fn lexeme_token(s: Seq<char>, x: Lexeme) -> Token {
    token_of(x.kind, byte_pos(s, x.start) as usize, byte_pos(s, x.end) as usize)
}

/// Whether `c` is whitespace: within ASCII, the space and the controls from
/// tab to carriage return; beyond it, the Unicode `White_Space` property.
pub open spec fn is_space(c: char) -> bool {
    if (c as u32) < 0x80 {
        c == ' ' || ('\t' <= c && c <= '\r')
    } else {
        white_space(c)
    }
}

fn space_char(c: char) -> (r: bool)
    ensures
        r == is_space(c),
{
    if (c as u32) < 0x80 {
        c == ' ' || ('\t' <= c && c <= '\r')
    } else {
        is_white_space(c)
    }
}

/// Whether `c` is a letter: within ASCII, `A` to `Z` and `a` to `z`; beyond
/// it, the Unicode `Alphabetic` property.
pub open spec fn is_letter(c: char) -> bool {
    if (c as u32) < 0x80 {
        ('a' <= c && c <= 'z') || ('A' <= c && c <= 'Z')
    } else {
        alphabetic(c)
    }
}

/// Whether `c` is a letter or a digit: within ASCII, letters and `0` to
/// `9`; beyond it, the Unicode `Alphabetic` or `Numeric` property.
pub open spec fn is_letter_or_digit(c: char) -> bool {
    if (c as u32) < 0x80 {
        ('a' <= c && c <= 'z') || ('A' <= c && c <= 'Z') || ('0' <= c && c <= '9')
    } else {
        alphanumeric(c)
    }
}

fn letter_char(c: char) -> (r: bool)
    ensures
        r == is_letter(c),
{
    if (c as u32) < 0x80 {
        ('a' <= c && c <= 'z') || ('A' <= c && c <= 'Z')
    } else {
        is_alphabetic(c)
    }
}

fn letter_or_digit_char(c: char) -> (r: bool)
    ensures
        r == is_letter_or_digit(c),
{
    if (c as u32) < 0x80 {
        ('a' <= c && c <= 'z') || ('A' <= c && c <= 'Z') || ('0' <= c && c <= '9')
    } else {
        is_alphanumeric(c)
    }
}

pub open spec fn is_punc(c: char) -> bool {
    c == ';' || c == '(' || c == ')' || c == '{' || c == '}' || c == ','
}

pub open spec fn is_digit(c: char) -> bool {
    '0' <= c && c <= '9'
}

pub open spec fn scan_punc(s: Seq<char>, i: int) -> Scan {
    if is_punc(s[i]) {
        Scan::Match(TokenType::Punc, i + 1)
    } else {
        Scan::NoMatch
    }
}

/// The rest of a numeric literal, from index `j` on; `dot` tells whether a
/// decimal point has been read.
pub open spec fn number_end(s: Seq<char>, j: int, dot: bool) -> Scan
    decreases s.len() - j,
{
    if j >= s.len() {
        Scan::Match(TokenType::ArithLit, j)
    } else if is_letter(s[j]) {
        Scan::Fail("Identifier cannot start with a number"@)
    } else if s[j] == '.' {
        if dot {
            Scan::Fail("Error: num literal contains more than 1 decimal place"@)
        } else {
            number_end(s, j + 1, true)
        }
    } else if is_digit(s[j]) {
        number_end(s, j + 1, dot)
    } else {
        Scan::Match(TokenType::ArithLit, j)
    }
}

/// A numeric literal starts with a digit, or with a `-` right before a digit.
pub open spec fn scan_number(s: Seq<char>, i: int) -> Scan {
    if is_digit(s[i]) || (s[i] == '-' && i + 1 < s.len() && is_digit(s[i + 1])) {
        number_end(s, i + 1, false)
    } else {
        Scan::NoMatch
    }
}

pub open spec fn op_eof_msg(c: char) -> Seq<char> {
    if c == '=' {
        "Unexpected EOF at operator `=`."@
    } else if c == '>' {
        "Unexpected EOF at operator `>`."@
    } else {
        "Unexpected EOF at operator `<`."@
    }
}

pub open spec fn scan_op(s: Seq<char>, i: int) -> Scan {
    let c = s[i];
    if c == '*' || c == '/' || c == '+' || c == '-' || c == '%' {
        Scan::Match(TokenType::Op, i + 1)
    } else if c == '=' || c == '>' || c == '<' {
        if i + 1 >= s.len() {
            Scan::Fail(op_eof_msg(c))
        } else if s[i + 1] == '=' {
            Scan::Match(TokenType::Op, i + 2)
        } else {
            Scan::Match(TokenType::Op, i + 1)
        }
    } else if c == '&' {
        if i + 1 < s.len() && s[i + 1] == '&' {
            Scan::Match(TokenType::Op, i + 2)
        } else {
            Scan::Fail("Bitwise & operator is not supported."@)
        }
    } else if c == '|' {
        if i + 1 < s.len() && s[i + 1] == '|' {
            Scan::Match(TokenType::Op, i + 2)
        } else {
            Scan::Fail("Bitwise | operator is not supported."@)
        }
    } else {
        Scan::NoMatch
    }
}

/// A token of kind `k` made of the word `w` at index `i`.
pub open spec fn word_match(i: int, w: Seq<char>, k: TokenType) -> Scan {
    Scan::Match(k, i + w.len())
}

pub open spec fn scan_bool(s: Seq<char>, i: int) -> Scan {
    if has_word(s, i, "true"@) {
        word_match(i, "true"@, TokenType::BoolLit)
    } else if has_word(s, i, "false"@) {
        word_match(i, "false"@, TokenType::BoolLit)
    } else {
        Scan::NoMatch
    }
}

pub open spec fn scan_core_type(s: Seq<char>, i: int) -> Scan {
    if has_word(s, i, "string"@) {
        word_match(i, "string"@, TokenType::CoreType)
    } else if has_word(s, i, "float"@) {
        word_match(i, "float"@, TokenType::CoreType)
    } else if has_word(s, i, "bool"@) {
        word_match(i, "bool"@, TokenType::CoreType)
    } else if has_word(s, i, "int"@) {
        word_match(i, "int"@, TokenType::CoreType)
    } else {
        Scan::NoMatch
    }
}

/// The keyword `w` at index `i` counts only where whitespace or `(` follows.
pub open spec fn keyword_at(s: Seq<char>, i: int, w: Seq<char>) -> Scan {
    let k = i + w.len();
    if k < s.len() && (is_space(s[k]) || s[k] == '(') {
        Scan::Match(TokenType::Key, k)
    } else {
        Scan::NoMatch
    }
}

pub open spec fn scan_keyword(s: Seq<char>, i: int) -> Scan {
    if has_word(s, i, "if"@) {
        keyword_at(s, i, "if"@)
    } else if has_word(s, i, "else"@) {
        keyword_at(s, i, "else"@)
    } else if has_word(s, i, "while"@) {
        keyword_at(s, i, "while"@)
    } else {
        Scan::NoMatch
    }
}

/// The rest of a string literal, from index `j` on; `escaped` tells whether
/// the character before was an escaping backslash.
pub open spec fn string_end(s: Seq<char>, j: int, escaped: bool) -> Scan
    decreases s.len() - j,
{
    if j >= s.len() {
        Scan::Fail("Unexpected EOF in string literal"@)
    } else if escaped {
        string_end(s, j + 1, false)
    } else if s[j] == '\\' {
        string_end(s, j + 1, true)
    } else if s[j] == '"' {
        Scan::Match(TokenType::StringLit, j + 1)
    } else {
        string_end(s, j + 1, false)
    }
}

pub open spec fn scan_string(s: Seq<char>, i: int) -> Scan {
    if s[i] == '"' {
        string_end(s, i + 1, false)
    } else {
        Scan::NoMatch
    }
}

/// The index after the run of alphanumeric characters that starts at `j`.
pub open spec fn ident_end(s: Seq<char>, j: int) -> int
    decreases s.len() - j,
{
    if 0 <= j < s.len() && is_letter_or_digit(s[j]) {
        ident_end(s, j + 1)
    } else {
        j
    }
}

pub open spec fn scan_ident(s: Seq<char>, i: int) -> Scan {
    if is_letter(s[i]) {
        Scan::Match(TokenType::Ident, ident_end(s, i + 1))
    } else {
        Scan::NoMatch
    }
}

/// The token at index `i`: the first recognizer, in order of priority, that
/// finds something decides.
pub open spec fn scan_token(s: Seq<char>, i: int) -> Scan {
    if !(scan_punc(s, i) is NoMatch) {
        scan_punc(s, i)
    } else if !(scan_number(s, i) is NoMatch) {
        scan_number(s, i)
    } else if !(scan_op(s, i) is NoMatch) {
        scan_op(s, i)
    } else if !(scan_bool(s, i) is NoMatch) {
        scan_bool(s, i)
    } else if !(scan_core_type(s, i) is NoMatch) {
        scan_core_type(s, i)
    } else if !(scan_keyword(s, i) is NoMatch) {
        scan_keyword(s, i)
    } else if !(scan_string(s, i) is NoMatch) {
        scan_string(s, i)
    } else if !(scan_ident(s, i) is NoMatch) {
        scan_ident(s, i)
    } else {
        Scan::Fail("Unknown token"@)
    }
}

/// What a recognizer that ran on cursor `before` and left it as `after`
/// must have returned, given what the specification finds there.
pub open spec fn scanned(
    before: Cursor,
    after: Cursor,
    r: Result<Option<Token>, LexErr>,
    sc: Scan,
) -> bool {
    &&& after.wf()
    &&& after.text() == before.text()
    &&& match sc {
        Scan::NoMatch => r == Ok::<Option<Token>, LexErr>(None) && after.index() == before.index(),
        Scan::Match(k, e) => {
            &&& r == Ok::<Option<Token>, LexErr>(
                Some(
                    lexeme_token(before.text(), Lexeme { kind: k, start: before.index(), end: e }),
                ),
            )
            &&& after.index() == e
        },
        Scan::Fail(m) => r is Err && r->Err_0@ == LexFault::Raw(m),
    }
}

/// A token from index `i` to index `e` of the cursor's text.
fn token_between(cur: &Cursor, k: TokenType, i: usize, e: usize) -> (r: Token)
    requires
        cur.wf(),
        i <= e <= cur.text().len(),
    ensures
        r == lexeme_token(cur.text(), Lexeme { kind: k, start: i as int, end: e as int }),
{
    Token::new(k, cur.offset(i), cur.offset(e))
}

/// Checks for a punctuation character: `; ( ) { } ,`, one character each.
pub fn try_punc(cur: &mut Cursor) -> (r: Result<Option<Token>, LexErr>)
    requires
        old(cur).wf(),
        old(cur).index() < old(cur).text().len(),
    ensures
        scanned(*old(cur), *final(cur), r, scan_punc(old(cur).text(), old(cur).index())),
{
    let i = cur.pos();
    let n = cur.len();
    let c = cur.char_at(i);
    if c == ';' || c == '(' || c == ')' || c == '{' || c == '}' || c == ',' {
        let tok = token_between(cur, TokenType::Punc, i, i + 1);
        cur.set_pos(i + 1);
        Ok(Some(tok))
    } else {
        Ok(None)
    }
}

fn is_digit_char(c: char) -> (r: bool)
    ensures
        r == is_digit(c),
{
    '0' <= c && c <= '9'
}

/// Checks for a numeric literal: digits with at most one decimal point,
/// possibly after a leading `-`.
pub fn try_num_lit(cur: &mut Cursor) -> (r: Result<Option<Token>, LexErr>)
    requires
        old(cur).wf(),
        old(cur).index() < old(cur).text().len(),
    ensures
        scanned(*old(cur), *final(cur), r, scan_number(old(cur).text(), old(cur).index())),
{
    let ghost s = cur.text();
    let i = cur.pos();
    let n = cur.len();
    let c = cur.char_at(i);
    if !(is_digit_char(c) || (c == '-' && i + 1 < n && is_digit_char(cur.char_at(i + 1)))) {
        return Ok(None);
    }
    let mut j: usize = i + 1;
    let mut dot = false;
    while j < n
        invariant
            cur.wf(),
            cur.text() == s,
            cur.index() == i,
            s == old(cur).text(),
            i == old(cur).index(),
            n == s.len(),
            i < j <= n,
            scan_number(s, i as int) == number_end(s, j as int, dot),
        ensures
            scan_number(s, i as int) == Scan::Match(TokenType::ArithLit, j as int),
        decreases n - j,
    {
        let d = cur.char_at(j);
        if letter_char(d) {
            return Err(LexErr::Raw("Identifier cannot start with a number".to_owned()));
        } else if d == '.' {
            if dot {
                return Err(LexErr::Raw("Error: num literal contains more than 1 decimal place".to_owned()));
            }
            dot = true;
        } else if !is_digit_char(d) {
            break;
        }
        j = j + 1;
    }
    let tok = token_between(cur, TokenType::ArithLit, i, j);
    cur.set_pos(j);
    Ok(Some(tok))
}

fn op_eof_message(c: char) -> (r: String)
    ensures
        r@ == op_eof_msg(c),
{
    if c == '=' {
        "Unexpected EOF at operator `=`.".to_owned()
    } else if c == '>' {
        "Unexpected EOF at operator `>`.".to_owned()
    } else {
        "Unexpected EOF at operator `<`.".to_owned()
    }
}

/// Checks for an operator: `* / + - %`, `=`, `>`, `<` alone or followed by
/// `=`, and `&&`, `||`. A single `&` or `|` is refused.
pub fn try_op(cur: &mut Cursor) -> (r: Result<Option<Token>, LexErr>)
    requires
        old(cur).wf(),
        old(cur).index() < old(cur).text().len(),
    ensures
        scanned(*old(cur), *final(cur), r, scan_op(old(cur).text(), old(cur).index())),
{
    let i = cur.pos();
    let n = cur.len();
    let c = cur.char_at(i);
    let len: usize = if c == '*' || c == '/' || c == '+' || c == '-' || c == '%' {
        1
    } else if c == '=' || c == '>' || c == '<' {
        if i + 1 >= n {
            return Err(LexErr::Raw(op_eof_message(c)));
        } else if cur.char_at(i + 1) == '=' {
            2
        } else {
            1
        }
    } else if c == '&' {
        if i + 1 < n && cur.char_at(i + 1) == '&' {
            2
        } else {
            return Err(LexErr::Raw("Bitwise & operator is not supported.".to_owned()));
        }
    } else if c == '|' {
        if i + 1 < n && cur.char_at(i + 1) == '|' {
            2
        } else {
            return Err(LexErr::Raw("Bitwise | operator is not supported.".to_owned()));
        }
    } else {
        return Ok(None);
    };
    let tok = token_between(cur, TokenType::Op, i, i + len);
    cur.set_pos(i + len);
    Ok(Some(tok))
}

/// Takes the word `w`, which stands at the cursor, as a token of kind `k`.
fn take_word(cur: &mut Cursor, w: &str, k: TokenType) -> (r: Result<Option<Token>, LexErr>)
    requires
        old(cur).wf(),
        has_word(old(cur).text(), old(cur).index(), w@),
    ensures
        scanned(*old(cur), *final(cur), r, word_match(old(cur).index(), w@, k)),
{
    let i = cur.pos();
    let n = cur.len();
    let m = w.unicode_len();
    assert(i + m <= n);
    let e = i + m;
    let tok = token_between(cur, k, i, e);
    cur.set_pos(e);
    Ok(Some(tok))
}

/// Checks for a boolean literal, `true` or `false`, as a prefix of the rest
/// of the source.
pub fn try_bool_lit(cur: &mut Cursor) -> (r: Result<Option<Token>, LexErr>)
    requires
        old(cur).wf(),
        old(cur).index() < old(cur).text().len(),
    ensures
        scanned(*old(cur), *final(cur), r, scan_bool(old(cur).text(), old(cur).index())),
{
    let i = cur.pos();
    if cur.has_word(i, "true") {
        take_word(cur, "true", TokenType::BoolLit)
    } else if cur.has_word(i, "false") {
        take_word(cur, "false", TokenType::BoolLit)
    } else {
        Ok(None)
    }
}

/// Checks for the name of a core type, `string`, `float`, `bool` or `int`,
/// as a prefix of the rest of the source.
pub fn try_core_type(cur: &mut Cursor) -> (r: Result<Option<Token>, LexErr>)
    requires
        old(cur).wf(),
        old(cur).index() < old(cur).text().len(),
    ensures
        scanned(*old(cur), *final(cur), r, scan_core_type(old(cur).text(), old(cur).index())),
{
    let i = cur.pos();
    if cur.has_word(i, "string") {
        take_word(cur, "string", TokenType::CoreType)
    } else if cur.has_word(i, "float") {
        take_word(cur, "float", TokenType::CoreType)
    } else if cur.has_word(i, "bool") {
        take_word(cur, "bool", TokenType::CoreType)
    } else if cur.has_word(i, "int") {
        take_word(cur, "int", TokenType::CoreType)
    } else {
        Ok(None)
    }
}

/// Takes the keyword `w`, which stands at the cursor, where whitespace or
/// `(` follows it.
fn take_keyword(cur: &mut Cursor, w: &str) -> (r: Result<Option<Token>, LexErr>)
    requires
        old(cur).wf(),
        has_word(old(cur).text(), old(cur).index(), w@),
    ensures
        scanned(*old(cur), *final(cur), r, keyword_at(old(cur).text(), old(cur).index(), w@)),
{
    let i = cur.pos();
    let n = cur.len();
    let k = i + w.unicode_len();
    if k < n {
        let c = cur.char_at(k);
        if space_char(c) || c == '(' {
            let tok = token_between(cur, TokenType::Key, i, k);
            cur.set_pos(k);
            return Ok(Some(tok));
        }
    }
    Ok(None)
}

/// Checks for a keyword, `if`, `else` or `while`, followed by whitespace
/// or `(`.
pub fn try_key(cur: &mut Cursor) -> (r: Result<Option<Token>, LexErr>)
    requires
        old(cur).wf(),
        old(cur).index() < old(cur).text().len(),
    ensures
        scanned(*old(cur), *final(cur), r, scan_keyword(old(cur).text(), old(cur).index())),
{
    let i = cur.pos();
    if cur.has_word(i, "if") {
        take_keyword(cur, "if")
    } else if cur.has_word(i, "else") {
        take_keyword(cur, "else")
    } else if cur.has_word(i, "while") {
        take_keyword(cur, "while")
    } else {
        Ok(None)
    }
}

/// Checks for a string literal: from `"` to the next `"` that no backslash
/// escapes.
pub fn try_string_lit(cur: &mut Cursor) -> (r: Result<Option<Token>, LexErr>)
    requires
        old(cur).wf(),
        old(cur).index() < old(cur).text().len(),
    ensures
        scanned(*old(cur), *final(cur), r, scan_string(old(cur).text(), old(cur).index())),
{
    let ghost s = cur.text();
    let i = cur.pos();
    let n = cur.len();
    if cur.char_at(i) != '"' {
        return Ok(None);
    }
    let mut j: usize = i + 1;
    let mut escaped = false;
    while j < n
        invariant
            cur.wf(),
            cur.text() == s,
            cur.index() == i,
            s == old(cur).text(),
            i == old(cur).index(),
            n == s.len(),
            i < j <= n,
            scan_string(s, i as int) == string_end(s, j as int, escaped),
        decreases n - j,
    {
        let c = cur.char_at(j);
        if escaped {
            escaped = false;
        } else if c == '\\' {
            escaped = true;
        } else if c == '"' {
            let tok = token_between(cur, TokenType::StringLit, i, j + 1);
            cur.set_pos(j + 1);
            return Ok(Some(tok));
        }
        j = j + 1;
    }
    Err(LexErr::Raw("Unexpected EOF in string literal".to_owned()))
}

/// Checks for an identifier: a letter, then letters and digits.
pub fn try_ident(cur: &mut Cursor) -> (r: Result<Option<Token>, LexErr>)
    requires
        old(cur).wf(),
        old(cur).index() < old(cur).text().len(),
    ensures
        scanned(*old(cur), *final(cur), r, scan_ident(old(cur).text(), old(cur).index())),
{
    let ghost s = cur.text();
    let i = cur.pos();
    let n = cur.len();
    if !letter_char(cur.char_at(i)) {
        return Ok(None);
    }
    let mut j: usize = i + 1;
    while j < n && letter_or_digit_char(cur.char_at(j))
        invariant
            cur.wf(),
            cur.text() == s,
            n == s.len(),
            i < j <= n,
            ident_end(s, i + 1) == ident_end(s, j as int),
        decreases n - j,
    {
        j = j + 1;
    }
    let tok = token_between(cur, TokenType::Ident, i, j);
    cur.set_pos(j);
    Ok(Some(tok))
}

/// Reads the token at the cursor, trying the recognizers in their order of
/// priority.
pub fn lex_token(cur: &mut Cursor) -> (r: Result<Token, LexErr>)
    requires
        old(cur).wf(),
        old(cur).index() < old(cur).text().len(),
    ensures
        final(cur).wf(),
        final(cur).text() == old(cur).text(),
        match scan_token(old(cur).text(), old(cur).index()) {
            Scan::Match(k, e) => {
                &&& r == Ok::<Token, LexErr>(
                    lexeme_token(
                        old(cur).text(),
                        Lexeme { kind: k, start: old(cur).index(), end: e },
                    ),
                )
                &&& final(cur).index() == e
            },
            Scan::Fail(m) => r is Err && r->Err_0@ == LexFault::Raw(m),
            Scan::NoMatch => false,
        },
{
    match try_punc(cur) {
        Err(e) => return Err(e),
        Ok(Some(tok)) => return Ok(tok),
        Ok(None) => {},
    }
    match try_num_lit(cur) {
        Err(e) => return Err(e),
        Ok(Some(tok)) => return Ok(tok),
        Ok(None) => {},
    }
    match try_op(cur) {
        Err(e) => return Err(e),
        Ok(Some(tok)) => return Ok(tok),
        Ok(None) => {},
    }
    match try_bool_lit(cur) {
        Err(e) => return Err(e),
        Ok(Some(tok)) => return Ok(tok),
        Ok(None) => {},
    }
    match try_core_type(cur) {
        Err(e) => return Err(e),
        Ok(Some(tok)) => return Ok(tok),
        Ok(None) => {},
    }
    match try_key(cur) {
        Err(e) => return Err(e),
        Ok(Some(tok)) => return Ok(tok),
        Ok(None) => {},
    }
    match try_string_lit(cur) {
        Err(e) => return Err(e),
        Ok(Some(tok)) => return Ok(tok),
        Ok(None) => {},
    }
    match try_ident(cur) {
        Err(e) => return Err(e),
        Ok(Some(tok)) => return Ok(tok),
        Ok(None) => {},
    }
    Err(LexErr::Raw("Unknown token".to_owned()))
}

proof fn lemma_number_end_bounds(s: Seq<char>, j: int, dot: bool)
    requires
        j <= s.len(),
    ensures
        number_end(s, j, dot) matches Scan::Match(_, e) ==> j <= e <= s.len(),
    decreases s.len() - j,
{
    if j < s.len() {
        lemma_number_end_bounds(s, j + 1, true);
        lemma_number_end_bounds(s, j + 1, dot);
    }
}

proof fn lemma_string_end_bounds(s: Seq<char>, j: int, escaped: bool)
    requires
        j <= s.len(),
    ensures
        string_end(s, j, escaped) matches Scan::Match(_, e) ==> j < e <= s.len(),
    decreases s.len() - j,
{
    if j < s.len() {
        lemma_string_end_bounds(s, j + 1, false);
        lemma_string_end_bounds(s, j + 1, true);
    }
}

proof fn lemma_ident_end_bounds(s: Seq<char>, j: int)
    requires
        0 <= j <= s.len(),
    ensures
        j <= ident_end(s, j) <= s.len(),
    decreases s.len() - j,
{
    if j < s.len() {
        lemma_ident_end_bounds(s, j + 1);
    }
}

/// A token found at index `i` ends after `i` and within the source.
pub proof fn lemma_scan_token_bounds(s: Seq<char>, i: int)
    requires
        0 <= i < s.len(),
    ensures
        scan_token(s, i) matches Scan::Match(_, e) ==> i < e <= s.len(),
        !(scan_token(s, i) is NoMatch),
{
    reveal_strlit("true");
    reveal_strlit("false");
    reveal_strlit("string");
    reveal_strlit("float");
    reveal_strlit("bool");
    reveal_strlit("int");
    reveal_strlit("if");
    reveal_strlit("else");
    reveal_strlit("while");
    lemma_number_end_bounds(s, i + 1, false);
    lemma_string_end_bounds(s, i + 1, false);
    lemma_ident_end_bounds(s, i + 1);
}

/// Where lexing from index `i`, at line `line`, ends up: the lexemes from
/// there to the end of `s`, or a message with the line where it failed.
/// Whitespace between tokens is skipped; each newline among it counts a line.
pub open spec fn lex_from(s: Seq<char>, i: int, line: nat) -> Result<
    Seq<Lexeme>,
    (Seq<char>, nat),
>
    decreases s.len() - i,
    via lex_from_decreases
{
    if i < 0 || i >= s.len() {
        Ok(seq![])
    } else if s[i] == '\n' {
        lex_from(s, i + 1, line + 1)
    } else if is_space(s[i]) {
        lex_from(s, i + 1, line)
    } else {
        match scan_token(s, i) {
            Scan::Match(k, e) => match lex_from(s, e, line) {
                Ok(rest) => Ok(seq![Lexeme { kind: k, start: i, end: e }] + rest),
                Err(f) => Err(f),
            },
            Scan::Fail(m) => Err((m, line)),
            // `scan_token` always finds a token or fails.
            Scan::NoMatch => Err(("Unknown token"@, line)),
        }
    }
}

#[via_fn]
proof fn lex_from_decreases(s: Seq<char>, i: int, line: nat) {
    if 0 <= i < s.len() {
        lemma_scan_token_bounds(s, i);
    }
}

/// The lexemes of `s`, in order, or what makes lexing fail.
pub open spec fn lexemes(s: Seq<char>) -> Result<Seq<Lexeme>, (Seq<char>, nat)> {
    lex_from(s, 0, 0)
}

/// What `lex` returns for the source `s` read from file `file`.
pub open spec fn lex_result(s: Seq<char>, file: Seq<char>) -> Result<Seq<Token>, LexFault> {
    if s.len() == 0 {
        Err(LexFault::Raw("File is empty."@))
    } else {
        match lexemes(s) {
            Ok(xs) => if xs.len() == 0 {
                Err(LexFault::Raw("File is empty."@))
            } else {
                Ok(xs.map_values(|x: Lexeme| lexeme_token(s, x)))
            },
            Err((m, line)) => Err(LexFault::Point(m, file, line as int)),
        }
    }
}

/// `pre` followed by the lexemes of `r`, when `r` succeeds.
pub open spec fn after_prefix(pre: Seq<Lexeme>, r: Result<Seq<Lexeme>, (Seq<char>, nat)>) -> Result<
    Seq<Lexeme>,
    (Seq<char>, nat),
> {
    match r {
        Ok(rest) => Ok(pre + rest),
        Err(f) => Err(f),
    }
}

impl LexErr {
    /// The report for this error: the message alone, or with the file and
    /// the 0-based line where lexing stopped.
    pub fn print_formatted(&self) -> (r: Report)
        ensures
            match self {
                LexErr::Raw(m) => r.file is None && r.line is None && r.message@ == m@,
                LexErr::Point(m, f, l) => {
                    &&& r.file matches Some(g) && g@ == f@
                    &&& r.line == Some(*l)
                    &&& r.message@ == m@
                },
            },
    {
        match self {
            LexErr::Raw(m) => Report { file: None, line: None, message: m.clone() },
            LexErr::Point(m, f, l) => Report { file: Some(f.clone()), line: Some(*l), message: m.clone() },
        }
    }

    /// Ties an unlocated error to a file and a line.
    fn into_point(self, file: String, line_num: usize) -> (r: LexErr)
        requires
            self is Raw,
        ensures
            r@ == LexFault::Point(self->Raw_0@, file@, line_num as int),
    {
        match self {
            LexErr::Raw(s) => LexErr::Point(s, file, line_num),
            LexErr::Point(s, _, _) => LexErr::Point(s, file, line_num),
        }
    }
}

/// Lexes the whole of `src`, read from the file named `file`.
pub fn lex(src: &str, file: &str) -> (r: Result<Vec<Token>, LexErr>)
    ensures
        match lex_result(src@, file@) {
            Ok(ts) => r is Ok && r->Ok_0@ == ts,
            Err(f) => r is Err && r->Err_0@ == f,
        },
        src@.len() == 0 ==> r is Err && r->Err_0@ == LexFault::Raw("File is empty."@),
        r is Ok ==> r->Ok_0@.len() > 0,
{
    if src.is_empty() {
        return Err(LexErr::Raw("File is empty.".to_owned()));
    }
    let ghost s = src@;
    let mut cur = Cursor::new(src);
    let n = cur.len();
    let mut tokens: Vec<Token> = Vec::new();
    let ghost mut xs: Seq<Lexeme> = seq![];
    let mut line: usize = 0;
    while cur.pos() < n
        invariant
            cur.wf(),
            cur.text() == s,
            s == src@,
            n == s.len(),
            n > 0,
            line <= cur.index() <= n,
            tokens@ == xs.map_values(|x: Lexeme| lexeme_token(s, x)),
            lexemes(s) == after_prefix(xs, lex_from(s, cur.index(), line as nat)),
        decreases n - cur.index(),
    {
        let i = cur.pos();
        let c = cur.char_at(i);
        if c == '\n' {
            cur.set_pos(i + 1);
            line = line + 1;
        } else if space_char(c) {
            cur.set_pos(i + 1);
        } else {
            proof {
                lemma_scan_token_bounds(s, i as int);
            }
            match lex_token(&mut cur) {
                Ok(tok) => {
                    let ghost x = Lexeme {
                        kind: tok.token_type,
                        start: i as int,
                        end: cur.index(),
                    };
                    proof {
                        let rest = lex_from(s, cur.index(), line as nat);
                        assert(lex_from(s, i as int, line as nat) == after_prefix(seq![x], rest));
                        match rest {
                            Ok(r) => {
                                assert(xs + (seq![x] + r) =~= (xs + seq![x]) + r);
                            },
                            Err(_) => {},
                        }
                        assert(xs.push(x).map_values(|x: Lexeme| lexeme_token(s, x)) =~= xs.map_values(
                            |x: Lexeme| lexeme_token(s, x),
                        ).push(lexeme_token(s, x)));
                        assert(xs.push(x) =~= xs + seq![x]);
                        xs = xs.push(x);
                    }
                    tokens.push(tok);
                },
                Err(e) => {
                    return Err(e.into_point(file.to_owned(), line));
                },
            }
        }
    }
    if tokens.len() == 0 {
        return Err(LexErr::Raw("File is empty.".to_owned()));
    }
    proof {
        assert(xs + seq![] =~= xs);
    }
    Ok(tokens)
}

/// Whether the lexer passes over `c` between tokens.
pub open spec fn blank(c: char) -> bool {
    c == '\n' || is_space(c)
}

/// `s` without its blank characters.
pub open spec fn squeeze(s: Seq<char>) -> Seq<char>
    decreases s.len(),
{
    if s.len() == 0 {
        s
    } else if blank(s[0]) {
        squeeze(s.drop_first())
    } else {
        seq![s[0]] + squeeze(s.drop_first())
    }
}

/// The characters of the lexemes `xs` of `s`, one after the other.
pub open spec fn joined(s: Seq<char>, xs: Seq<Lexeme>) -> Seq<char>
    decreases xs.len(),
{
    if xs.len() == 0 {
        seq![]
    } else {
        s.subrange(xs[0].start, xs[0].end) + joined(s, xs.drop_first())
    }
}

/// Whether no lexeme among `xs` holds a blank character.
pub open spec fn lexemes_unblank(s: Seq<char>, xs: Seq<Lexeme>) -> bool {
    forall|k: int, j: int|
        #![trigger xs[k], s[j]]
        0 <= k < xs.len() && xs[k].start <= j < xs[k].end ==> !blank(s[j])
}

proof fn lemma_squeeze_concat(a: Seq<char>, b: Seq<char>)
    ensures
        squeeze(a + b) == squeeze(a) + squeeze(b),
    decreases a.len(),
{
    if a.len() == 0 {
        assert(a + b =~= b);
        assert(squeeze(a) + squeeze(b) =~= squeeze(b));
    } else {
        assert((a + b).drop_first() =~= a.drop_first() + b);
        assert((a + b)[0] == a[0]);
        lemma_squeeze_concat(a.drop_first(), b);
        if !blank(a[0]) {
            assert(seq![a[0]] + (squeeze(a.drop_first()) + squeeze(b)) =~= (seq![a[0]]
                + squeeze(a.drop_first())) + squeeze(b));
        }
    }
}

proof fn lemma_squeeze_unblank(a: Seq<char>)
    requires
        forall|j: int| 0 <= j < a.len() ==> !blank(#[trigger] a[j]),
    ensures
        squeeze(a) == a,
    decreases a.len(),
{
    if a.len() > 0 {
        lemma_squeeze_unblank(a.drop_first());
        assert(seq![a[0]] + a.drop_first() =~= a);
    }
}

/// The lexemes from index `i` on lie in order within `[i, s.len())`, each
/// as the recognizers find it at its start.
pub proof fn lemma_lex_from_bounds(s: Seq<char>, i: int, line: nat)
    requires
        0 <= i,
        lex_from(s, i, line) is Ok,
    ensures
        forall|k: int|
            0 <= k < lex_from(s, i, line)->Ok_0.len() ==> i <= (#[trigger] lex_from(
                s,
                i,
                line,
            )->Ok_0[k]).start < lex_from(s, i, line)->Ok_0[k].end <= s.len() && scan_token(
                s,
                lex_from(s, i, line)->Ok_0[k].start,
            ) == Scan::Match(lex_from(s, i, line)->Ok_0[k].kind, lex_from(s, i, line)->Ok_0[k].end),
    decreases s.len() - i,
{
    if i < s.len() {
        if s[i] == '\n' {
            lemma_lex_from_bounds(s, i + 1, line + 1);
        } else if is_space(s[i]) {
            lemma_lex_from_bounds(s, i + 1, line);
        } else {
            lemma_scan_token_bounds(s, i);
            if let Scan::Match(k, e) = scan_token(s, i) {
                lemma_lex_from_bounds(s, e, line);
                let xs = lex_from(s, i, line)->Ok_0;
                let rest = lex_from(s, e, line)->Ok_0;
                assert forall|m: int| 0 <= m < xs.len() implies i <= (#[trigger] xs[m]).start
                    < xs[m].end <= s.len() && scan_token(s, xs[m].start) == Scan::Match(
                    xs[m].kind,
                    xs[m].end,
                ) by {
                    if m > 0 {
                        assert(xs[m] == rest[m - 1]);
                    }
                }
            }
        }
    }
}

proof fn lemma_lex_from_joined(s: Seq<char>, i: int, line: nat)
    requires
        0 <= i <= s.len(),
        lex_from(s, i, line) is Ok,
        lexemes_unblank(s, lex_from(s, i, line)->Ok_0),
    ensures
        joined(s, lex_from(s, i, line)->Ok_0) == squeeze(s.subrange(i, s.len() as int)),
    decreases s.len() - i,
{
    let tail = s.subrange(i, s.len() as int);
    if i == s.len() {
        assert(tail =~= Seq::<char>::empty());
    } else {
        assert(tail =~= seq![s[i]] + s.subrange(i + 1, s.len() as int));
        lemma_squeeze_concat(seq![s[i]], s.subrange(i + 1, s.len() as int));
        assert(seq![s[i]].drop_first() =~= Seq::<char>::empty());
        assert(squeeze(Seq::<char>::empty()) == Seq::<char>::empty());
        if blank(s[i]) {
            assert(squeeze(seq![s[i]]) == squeeze(Seq::<char>::empty()));
            assert(squeeze(seq![s[i]]) + squeeze(s.subrange(i + 1, s.len() as int)) =~= squeeze(
                s.subrange(i + 1, s.len() as int),
            ));
        }
        if s[i] == '\n' {
            lemma_lex_from_joined(s, i + 1, line + 1);
        } else if is_space(s[i]) {
            lemma_lex_from_joined(s, i + 1, line);
        } else {
            lemma_scan_token_bounds(s, i);
            if let Scan::Match(k, e) = scan_token(s, i) {
                let xs = lex_from(s, i, line)->Ok_0;
                let rest = lex_from(s, e, line)->Ok_0;
                assert(xs.drop_first() =~= rest);
                assert(xs[0] == Lexeme { kind: k, start: i, end: e });
                assert forall|m: int, j: int|
                    #![trigger rest[m], s[j]]
                    0 <= m < rest.len() && rest[m].start <= j < rest[m].end implies !blank(
                        s[j],
                    ) by {
                    assert(rest[m] == xs[m + 1]);
                }
                lemma_lex_from_joined(s, e, line);
                let word = s.subrange(i, e);
                assert forall|j: int| 0 <= j < word.len() implies !blank(#[trigger] word[j]) by {
                    assert(word[j] == s[i + j]);
                    assert(xs[0].start <= i + j < xs[0].end);
                }
                lemma_squeeze_unblank(word);
                assert(tail =~= word + s.subrange(e, s.len() as int));
                lemma_squeeze_concat(word, s.subrange(e, s.len() as int));
                assert(joined(s, xs) == word + joined(s, rest));
            }
        }
    }
}

/// Where no lexeme holds a blank character (only a string literal can), the
/// lexemes of a source that lexes, joined in order, are the source with its
/// blank characters taken out.
pub proof fn lemma_lexemes_rebuild_source(s: Seq<char>)
    requires
        lexemes(s) is Ok,
        lexemes_unblank(s, lexemes(s)->Ok_0),
    ensures
        joined(s, lexemes(s)->Ok_0) == squeeze(s),
{
    lemma_lex_from_joined(s, 0, 0);
    assert(s.subrange(0, s.len() as int) =~= s);
}

/// Each token that `lex` yields covers, in the UTF-8 bytes of the source,
/// exactly the encoding of the characters of the lexeme it was read from,
/// and those bytes decode back to that lexeme.
pub proof fn lemma_token_slices(s: Seq<char>, file: Seq<char>, k: int)
    requires
        encode_utf8(s).len() <= usize::MAX,
        lex_result(s, file) is Ok,
        0 <= k < lex_result(s, file)->Ok_0.len(),
    ensures
        ({
            let tok = lex_result(s, file)->Ok_0[k];
            let x = lexemes(s)->Ok_0[k];
            &&& 0 <= x.start < x.end <= s.len()
            &&& tok.token_type == x.kind
            &&& tok.start.0 == byte_pos(s, x.start)
            &&& tok.end.0 == byte_pos(s, x.end)
            &&& encode_utf8(s).subrange(tok.start.0 as int, tok.end.0 as int) == encode_utf8(
                s.subrange(x.start, x.end),
            )
            &&& decode_utf8(encode_utf8(s).subrange(tok.start.0 as int, tok.end.0 as int))
                == s.subrange(x.start, x.end)
        }),
{
    lemma_lex_from_bounds(s, 0, 0);
    let x = lexemes(s)->Ok_0[k];
    assert(0 <= x.start < x.end <= s.len());
    lemma_byte_slice(s, x.start, x.end);
    lemma_byte_slice(s, 0, s.len() as int);
    assert(s.take(s.len() as int) =~= s);
    encode_utf8_decode_utf8(s.subrange(x.start, x.end));
}

/// Lexing is a function of the source and the file name: two runs on equal
/// inputs give equal results.
pub proof fn lemma_lex_deterministic(s1: Seq<char>, f1: Seq<char>, s2: Seq<char>, f2: Seq<char>)
    requires
        s1 == s2,
        f1 == f2,
    ensures
        lex_result(s1, f1) == lex_result(s2, f2),
{
}

/// The number of backslashes that stand right before index `j` of `t`,
/// counting no further back than `lo`.
pub open spec fn backslashes_before(t: Seq<char>, lo: int, j: int) -> nat
    decreases j - lo,
{
    if lo < j && t[j - 1] == '\\' {
        1 + backslashes_before(t, lo, j - 1)
    } else {
        0
    }
}

/// Whether every `"` of `t` is escaped: an odd number of backslashes stands
/// right before it.
pub open spec fn quotes_escaped(t: Seq<char>) -> bool {
    forall|m: int| 0 <= m < t.len() && #[trigger] t[m] == '"' ==> backslashes_before(t, 0, m) % 2 == 1
}

proof fn lemma_backslashes_shift(pre: Seq<char>, t: Seq<char>, m: int)
    requires
        0 <= m <= t.len(),
    ensures
        backslashes_before(pre + t, pre.len() as int, pre.len() + m) == backslashes_before(t, 0, m),
    decreases m,
{
    if m > 0 {
        assert((pre + t)[pre.len() + m - 1] == t[m - 1]);
        lemma_backslashes_shift(pre, t, m - 1);
    }
}

proof fn lemma_string_end_unterminated(s: Seq<char>, lo: int, j: int, escaped: bool)
    requires
        0 <= lo <= j <= s.len(),
        escaped == (backslashes_before(s, lo, j) % 2 == 1),
        forall|m: int| j <= m < s.len() && #[trigger] s[m] == '"' ==> backslashes_before(s, lo, m) % 2 == 1,
    ensures
        string_end(s, j, escaped) == Scan::Fail("Unexpected EOF in string literal"@),
    decreases s.len() - j,
{
    if j < s.len() {
        assert(backslashes_before(s, lo, j + 1) == if s[j] == '\\' {
            1 + backslashes_before(s, lo, j)
        } else {
            0
        });
        if escaped {
            lemma_string_end_unterminated(s, lo, j + 1, false);
        } else if s[j] == '\\' {
            lemma_string_end_unterminated(s, lo, j + 1, true);
        } else {
            lemma_string_end_unterminated(s, lo, j + 1, false);
        }
    }
}

/// A string literal that no `"` closes makes lexing fail: for a source made
/// of blank characters, a `"`, and then a rest in which every `"` is escaped
/// by a backslash, `lex` fails.
pub proof fn lemma_unterminated_string(pre: Seq<char>, rest: Seq<char>, file: Seq<char>)
    requires
        forall|j: int| 0 <= j < pre.len() ==> blank(#[trigger] pre[j]),
        quotes_escaped(rest),
    ensures
        lex_result(pre + seq!['"'] + rest, file) is Err,
{
    let s = pre + seq!['"'] + rest;
    let q = pre.len() as int;
    assert(s =~= (pre + seq!['"']) + rest);
    assert forall|m: int| q + 1 <= m < s.len() && #[trigger] s[m] == '"' implies backslashes_before(
        s,
        q + 1,
        m,
    ) % 2 == 1 by {
        assert(s[m] == rest[m - q - 1]);
        lemma_backslashes_shift(pre + seq!['"'], rest, m - q - 1);
    }
    lemma_string_end_unterminated(s, q + 1, q + 1, false);
    assert(s[q] == '"');
    reveal_strlit("true");
    reveal_strlit("false");
    reveal_strlit("string");
    reveal_strlit("float");
    reveal_strlit("bool");
    reveal_strlit("int");
    reveal_strlit("if");
    reveal_strlit("else");
    reveal_strlit("while");
    lemma_not_word(s, q, "true"@);
    lemma_not_word(s, q, "false"@);
    lemma_not_word(s, q, "string"@);
    lemma_not_word(s, q, "float"@);
    lemma_not_word(s, q, "bool"@);
    lemma_not_word(s, q, "int"@);
    lemma_not_word(s, q, "if"@);
    lemma_not_word(s, q, "else"@);
    lemma_not_word(s, q, "while"@);
    assert(scan_token(s, q) is Fail);
    lemma_blank_prefix(s, q, 0, 0);
}

/// A word that does not start with the character at `q` does not stand
/// there.
proof fn lemma_not_word(s: Seq<char>, q: int, w: Seq<char>)
    requires
        0 <= q < s.len(),
        w.len() > 0,
        s[q] != w[0],
    ensures
        !has_word(s, q, w),
{
    if has_word(s, q, w) {
        assert(s.subrange(q, q + w.len())[0] == s[q]);
    }
}

/// Lexing over blank characters from `i` up to `q` ends where lexing from
/// `q` ends, at some line.
proof fn lemma_blank_prefix(s: Seq<char>, q: int, i: int, line: nat)
    requires
        0 <= i <= q < s.len(),
        forall|j: int| i <= j < q ==> blank(#[trigger] s[j]),
        scan_token(s, q) is Fail,
        !blank(s[q]),
    ensures
        lex_from(s, i, line) is Err,
    decreases q - i,
{
    if i < q {
        assert(blank(s[i]));
        if s[i] == '\n' {
            lemma_blank_prefix(s, q, i + 1, line + 1);
        } else {
            lemma_blank_prefix(s, q, i + 1, line);
        }
    }
}

/// Whether character index `j` lies inside one of the lexemes `xs`.
pub open spec fn covered(xs: Seq<Lexeme>, j: int) -> bool {
    exists|k: int| 0 <= k < xs.len() && #[trigger] xs[k].start <= j < xs[k].end
}

/// Whether each of the lexemes `xs` ends before the next starts.
pub open spec fn in_order(xs: Seq<Lexeme>) -> bool {
    forall|k: int|
        #![trigger xs[k].end]
        0 <= k < xs.len() - 1 ==> xs[k].end <= xs[k + 1].start
}

/// Whether every character of `s` from index `i` on that no lexeme of `xs`
/// covers is blank.
pub open spec fn gaps_blank(s: Seq<char>, i: int, xs: Seq<Lexeme>) -> bool {
    forall|j: int| i <= j < s.len() && !covered(xs, j) ==> blank(#[trigger] s[j])
}

proof fn lemma_layout_token_step(s: Seq<char>, x: Lexeme, rest: Seq<Lexeme>)
    requires
        0 <= x.start < x.end <= s.len(),
        forall|k: int| 0 <= k < rest.len() ==> x.end <= (#[trigger] rest[k]).start,
        in_order(rest),
        gaps_blank(s, x.end, rest),
    ensures
        in_order(seq![x] + rest),
        gaps_blank(s, x.start, seq![x] + rest),
{
    let xs = seq![x] + rest;
    assert forall|k: int|
        #![trigger xs[k].end]
        0 <= k < xs.len() - 1 implies xs[k].end <= xs[k + 1].start by {
        assert(xs[k + 1] == rest[k]);
        if k > 0 {
            assert(xs[k] == rest[k - 1]);
            assert(rest[k - 1].end <= rest[k].start);
        } else {
            assert(x.end <= rest[0].start);
        }
    }
    assert forall|j: int| x.start <= j < s.len() && !covered(xs, j) implies blank(#[trigger] s[j]) by {
        if j < x.end {
            assert(xs[0].start <= j < xs[0].end);
        } else if covered(rest, j) {
            let k = choose|k: int| 0 <= k < rest.len() && #[trigger] rest[k].start <= j < rest[k].end;
            assert(xs[k + 1] == rest[k]);
        }
    }
}

proof fn lemma_lex_from_layout(s: Seq<char>, i: int, line: nat)
    requires
        0 <= i <= s.len(),
        lex_from(s, i, line) is Ok,
    ensures
        in_order(lex_from(s, i, line)->Ok_0),
        gaps_blank(s, i, lex_from(s, i, line)->Ok_0),
    decreases s.len() - i,
{
    if i < s.len() {
        if blank(s[i]) {
            let l2 = if s[i] == '\n' {
                line + 1
            } else {
                line
            };
            assert(lex_from(s, i, line) == lex_from(s, i + 1, l2));
            lemma_lex_from_layout(s, i + 1, l2);
        } else {
            lemma_scan_token_bounds(s, i);
            if let Scan::Match(kd, e) = scan_token(s, i) {
                lemma_lex_from_layout(s, e, line);
                lemma_lex_from_bounds(s, e, line);
                let rest = lex_from(s, e, line)->Ok_0;
                let x = Lexeme { kind: kd, start: i, end: e };
                assert(lex_from(s, i, line)->Ok_0 == seq![x] + rest);
                lemma_layout_token_step(s, x, rest);
            }
        }
    }
}

/// The byte range of the token for lexeme `x` lies within the source,
/// is not empty, and starts and ends on character boundaries.
proof fn lemma_token_bytes(s: Seq<char>, x: Lexeme)
    requires
        encode_utf8(s).len() <= usize::MAX,
        0 <= x.start < x.end <= s.len(),
    ensures
        ({
            let tok = lexeme_token(s, x);
            let b = encode_utf8(s);
            &&& tok.start.0 < tok.end.0 <= b.len()
            &&& is_char_boundary(b, tok.start.0 as int)
            &&& is_char_boundary(b, tok.end.0 as int)
        }),
{
    lemma_byte_pos_strict(s, x.start, x.end);
    lemma_byte_slice(s, x.end, s.len() as int);
    assert(s.take(s.len() as int) =~= s);
    lemma_byte_pos_boundary(s, x.start);
    lemma_byte_pos_boundary(s, x.end);
}

/// The tokens that `lex` yields lie in order within the bytes of the
/// source, none empty and each on character boundaries; and every character
/// that no lexeme covers is blank.
pub proof fn lemma_token_layout(s: Seq<char>, file: Seq<char>)
    requires
        encode_utf8(s).len() <= usize::MAX,
        lex_result(s, file) is Ok,
    ensures
        forall|k: int|
            #![trigger lex_result(s, file)->Ok_0[k]]
            0 <= k < lex_result(s, file)->Ok_0.len() ==> {
                let tok = lex_result(s, file)->Ok_0[k];
                &&& tok.start.0 < tok.end.0 <= encode_utf8(s).len()
                &&& is_char_boundary(encode_utf8(s), tok.start.0 as int)
                &&& is_char_boundary(encode_utf8(s), tok.end.0 as int)
            },
        forall|k: int|
            #![trigger lex_result(s, file)->Ok_0[k].end]
            0 <= k < lex_result(s, file)->Ok_0.len() - 1 ==> lex_result(s, file)->Ok_0[k].end.0
                <= lex_result(s, file)->Ok_0[k + 1].start.0,
        gaps_blank(s, 0, lexemes(s)->Ok_0),
{
    let ts = lex_result(s, file)->Ok_0;
    let xs = lexemes(s)->Ok_0;
    assert(ts == xs.map_values(|x: Lexeme| lexeme_token(s, x)));
    lemma_lex_from_bounds(s, 0, 0);
    lemma_lex_from_layout(s, 0, 0);
    assert forall|k: int| #![trigger ts[k]] 0 <= k < ts.len() implies {
        let tok = ts[k];
        &&& tok.start.0 < tok.end.0 <= encode_utf8(s).len()
        &&& is_char_boundary(encode_utf8(s), tok.start.0 as int)
        &&& is_char_boundary(encode_utf8(s), tok.end.0 as int)
    } by {
        assert(ts[k] == lexeme_token(s, xs[k]));
        lemma_token_bytes(s, xs[k]);
    }
    assert forall|k: int| #![trigger ts[k].end] 0 <= k < ts.len() - 1 implies ts[k].end.0 <= ts[k
        + 1].start.0 by {
        assert(ts[k] == lexeme_token(s, xs[k]));
        assert(ts[k + 1] == lexeme_token(s, xs[k + 1]));
        assert(xs[k].end <= xs[k + 1].start);
        lemma_token_bytes(s, xs[k]);
        lemma_token_bytes(s, xs[k + 1]);
        lemma_byte_slice(s, xs[k].end, xs[k + 1].start);
    }
}

} // verus!
