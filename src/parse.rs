//! The recursive-descent parser: one spec function per grammar rule, which
//! defines the tree or the failure at a position of the tokens, and one
//! executable function per rule proved to agree with it.
use vstd::prelude::*;
use vstd::string::{StringExecFns, StringSliceAdditionalSpecFns};
use vstd::utf8::{
    decode_utf8, encode_utf8_decode_utf8, encode_utf8_valid_utf8, is_char_boundary,
    is_char_boundary_iff_not_is_continuation_byte, is_char_boundary_start_end_of_seq,
    valid_utf8_split,
};
use crate::report::Report;
use crate::source::{byte_pos, Cursor};
use crate::token::{kind_name, Point, Token, TokenType};

verus! {

/// The rules of the grammar that give a parse-tree node its kind.
#[derive(Clone, Copy, Debug, PartialEq, Eq, Structural)]
pub enum NTermType {
    Program,
    Stmt,
    Declaration,
    Assignment,
    ParameterList,
    If,
    While,
    Atom,
    FunctionCall,
    Term0,
    Term1,
    Term2,
    Expression,
}

#[derive(Clone, Copy, Debug, PartialEq, Eq, Structural)]
pub enum NodeType {
    /// Nonterminal
    NTerm(NTermType),
    /// Terminal
    Term(Token),
}

/// A parse tree node. A terminal has no children.
#[derive(Debug, PartialEq, Eq)]
pub struct Node {
    pub node_type: NodeType,
    pub children: Vec<Node>,
}

impl Node {
    /// Whether no terminal of the tree has children.
    pub open spec fn wf(&self) -> bool
        decreases self,
    {
        match self.node_type {
            NodeType::Term(_) => self.children@.len() == 0,
            NodeType::NTerm(_) => forall|i: int|
                0 <= i < self.children@.len() ==> (#[trigger] self.children@[i]).wf(),
        }
    }
}

/// Whether no terminal of the trees `ns` has children.
pub open spec fn all_wf(ns: Seq<Node>) -> bool {
    forall|i: int| 0 <= i < ns.len() ==> (#[trigger] ns[i]).wf()
}

/// A parse tree as a mathematical value.
pub enum Tree {
    Leaf(Token),
    Inner(NTermType, Seq<Tree>),
}

impl View for Node {
    type V = Tree;

    open spec fn view(&self) -> Tree
        decreases self,
    {
        match self.node_type {
            NodeType::Term(t) => Tree::Leaf(t),
            NodeType::NTerm(k) => Tree::Inner(k, views(self.children@)),
        }
    }
}

/// The trees of a sequence of nodes.
pub open spec fn views(ns: Seq<Node>) -> Seq<Tree>
    decreases ns,
{
    Seq::new(
        ns.len(),
        |i: int|
            if 0 <= i < ns.len() {
                ns[i]@
            } else {
                Tree::Leaf(Token { start: Point(0), end: Point(0), token_type: TokenType::Punc })
            },
    )
}

/// A parsing failure.
#[derive(Clone, Debug, PartialEq, Eq)]
pub enum ParseErr {
    /// A message, with no token to point at (the tokens ran out).
    Raw(String),
    /// A message and the offending token.
    Point(String, Token),
}

/// What a `ParseErr` holds.
pub enum ParseFault {
    Raw(Seq<char>),
    Point(Seq<char>, Token),
}

impl View for ParseErr {
    type V = ParseFault;

    open spec fn view(&self) -> ParseFault {
        match self {
            ParseErr::Raw(m) => ParseFault::Raw(m@),
            ParseErr::Point(m, t) => ParseFault::Point(m@, *t),
        }
    }
}

/// The number of newlines among the characters of `s` from index `i` on
/// that start before byte offset `off`.
pub open spec fn newlines_before(s: Seq<char>, i: int, off: int) -> nat
    decreases s.len() - i,
{
    if i < 0 || i >= s.len() || byte_pos(s, i) >= off {
        0
    } else {
        (if s[i] == '\n' {
            1nat
        } else {
            0nat
        }) + newlines_before(s, i + 1, off)
    }
}

/// The 1-based line of `src` on which byte offset `off` stands.
pub open spec fn line_at(src: Seq<char>, off: int) -> nat {
    newlines_before(src, 0, off) + 1
}

impl ParseErr {
    /// The report for this error: for a token, the 1-based line of `src` on
    /// which it starts.
    pub fn print_formatted(&self, filename: &str, src: &str) -> (r: Report)
        ensures
            r.file matches Some(g) && g@ == filename@,
            match self {
                ParseErr::Raw(m) => r.line is None && r.message@ == m@,
                ParseErr::Point(m, t) => {
                    &&& r.line == if line_at(src@, t.start.0 as int) <= usize::MAX {
                        Some(line_at(src@, t.start.0 as int) as usize)
                    } else {
                        None::<usize>
                    }
                    &&& r.message@ == m@
                },
            },
    {
        match self {
            ParseErr::Raw(m) => Report { file: Some(filename.to_owned()), line: None, message: m.clone() },
            ParseErr::Point(m, t) => {
                let line = line_of(src, t.start.0);
                Report { file: Some(filename.to_owned()), line, message: m.clone() }
            },
        }
    }
}

/// The 1-based line of `src` on which byte offset `off` stands, where that
/// number fits in a `usize`.
fn line_of(src: &str, off: usize) -> (r: Option<usize>)
    ensures
        r == if line_at(src@, off as int) <= usize::MAX {
            Some(line_at(src@, off as int) as usize)
        } else {
            None::<usize>
        },
{
    let cur = Cursor::new(src);
    let ghost s = src@;
    let n = cur.len();
    let mut i: usize = 0;
    let mut count: usize = 0;
    while i < n && cur.offset(i) < off
        invariant
            cur.wf(),
            cur.text() == s,
            n == s.len(),
            i <= n,
            count <= i,
            count + newlines_before(s, i as int, off as int) == newlines_before(s, 0, off as int),
        decreases n - i,
    {
        if cur.char_at(i) == '\n' {
            count = count + 1;
        }
        i = i + 1;
    }
    if count < usize::MAX {
        Some(count + 1)
    } else {
        None
    }
}

/// Whether the byte range of `t` lies within `src`.
pub open spec fn in_range(src: &str, t: Token) -> bool {
    t.start.0 <= t.end.0 <= src.spec_bytes().len()
}

/// Whether the lexeme of `t` in `src` is `w`.
#[verifier::opaque]
pub open spec fn text_is(src: &str, t: Token, w: &str) -> bool {
    &&& in_range(src, t)
    &&& src.spec_bytes().subrange(t.start.0 as int, t.end.0 as int) == w.spec_bytes()
}

/// The lexeme of `t` in `src`; empty where its range does not delimit
/// whole characters of `src`.
#[verifier::opaque]
pub open spec fn text_of(src: &str, t: Token) -> Seq<char> {
    let b = src.spec_bytes();
    if in_range(src, t) && is_char_boundary(b, t.start.0 as int) && is_char_boundary(
        b,
        t.end.0 as int,
    ) {
        decode_utf8(b.subrange(t.start.0 as int, t.end.0 as int))
    } else {
        seq![]
    }
}

/// Whether there is a token at `p` and its lexeme is `w`.
pub open spec fn at_text(t: Seq<Token>, src: &str, p: int, w: &str) -> bool {
    0 <= p < t.len() && text_is(src, t[p], w)
}

pub open spec fn is_op0_at(t: Seq<Token>, src: &str, p: int) -> bool {
    at_text(t, src, p, "*") || at_text(t, src, p, "/") || at_text(t, src, p, "%")
}

pub open spec fn is_op1_at(t: Seq<Token>, src: &str, p: int) -> bool {
    at_text(t, src, p, "+") || at_text(t, src, p, "-")
}

pub open spec fn is_op2_at(t: Seq<Token>, src: &str, p: int) -> bool {
    at_text(t, src, p, "==") || at_text(t, src, p, ">") || at_text(t, src, p, "<") || at_text(
        t,
        src,
        p,
        ">=",
    ) || at_text(t, src, p, "<=")
}

pub open spec fn is_op3_at(t: Seq<Token>, src: &str, p: int) -> bool {
    at_text(t, src, p, "&&") || at_text(t, src, p, "||")
}

/// The number of tokens from position `p` on; none past the end.
pub open spec fn remaining(t: Seq<Token>, p: int) -> int {
    if p <= t.len() {
        t.len() - p
    } else {
        0
    }
}

/// The outcome of a rule applied at a position: the tree and the number of
/// tokens it took, or a failure.
pub type Parsed = Result<(Tree, nat), ParseFault>;

/// The outcome of a repeated rule: the trees and the number of tokens taken.
pub type ParsedSeq = Result<(Seq<Tree>, nat), ParseFault>;

/// One token whose lexeme is `w`.
pub open spec fn expect_text(t: Seq<Token>, src: &str, p: int, w: &str) -> Parsed {
    if p < 0 || p >= t.len() {
        Err(ParseFault::Raw("Expected "@ + w@ + ", got EOF"@))
    } else if text_is(src, t[p], w) {
        Ok((Tree::Leaf(t[p]), 1))
    } else {
        Err(ParseFault::Point("Expected "@ + w@ + ", got "@ + text_of(src, t[p]), t[p]))
    }
}

/// One token of kind `k`.
pub open spec fn expect_kind(t: Seq<Token>, p: int, k: TokenType) -> Parsed {
    if p < 0 || p >= t.len() {
        Err(ParseFault::Raw("Expected "@ + kind_name(k) + ", got EOF"@))
    } else if t[p].token_type == k {
        Ok((Tree::Leaf(t[p]), 1))
    } else {
        Err(ParseFault::Point("Expected "@ + kind_name(k), t[p]))
    }
}

/// The outcome `r` under a node of kind `k` of which it is the only child.
pub open spec fn wrap(k: NTermType, r: Parsed) -> Parsed {
    match r {
        Ok((n, c)) => Ok((Tree::Inner(k, seq![n]), c)),
        Err(f) => Err(f),
    }
}

/// The outcome `r` of a repetition with the trees `pre`, taking `c` tokens,
/// in front.
pub open spec fn after_trees(pre: Seq<Tree>, c: nat, r: ParsedSeq) -> ParsedSeq {
    match r {
        Ok((xs, c2)) => Ok((pre + xs, c + c2)),
        Err(f) => Err(f),
    }
}

/// FunctionCall := Ident '(' ParameterList ')'
pub open spec fn spec_function_call(t: Seq<Token>, src: &str, p: int) -> Parsed
    decreases remaining(t, p), 1nat,
{
    match expect_kind(t, p, TokenType::Ident) {
        Err(f) => Err(f),
        Ok((id, _)) => match expect_text(t, src, p + 1, "(") {
            Err(f) => Err(f),
            Ok((lp, _)) => match spec_parameter_list(t, src, p + 2) {
                Err(f) => Err(f),
                Ok((pl, c)) => match expect_text(t, src, p + 2 + c, ")") {
                    Err(f) => Err(f),
                    Ok((rp, _)) => Ok(
                        (Tree::Inner(NTermType::FunctionCall, seq![id, lp, pl, rp]), c + 3),
                    ),
                },
            },
        },
    }
}

/// Atom := FunctionCall | Ident | NumberLiteral | StringLiteral | BooleanLiteral
pub open spec fn spec_atom(t: Seq<Token>, src: &str, p: int) -> Parsed
    decreases remaining(t, p), 2nat,
{
    if p < 0 || p >= t.len() {
        Err(ParseFault::Raw("Unexpected EOF"@))
    } else {
        let k = t[p].token_type;
        if k == TokenType::Ident && at_text(t, src, p + 1, "(") {
            wrap(NTermType::Atom, spec_function_call(t, src, p))
        } else if k == TokenType::Ident || k == TokenType::ArithLit || k == TokenType::StringLit
            || k == TokenType::BoolLit {
            Ok((Tree::Inner(NTermType::Atom, seq![Tree::Leaf(t[p])]), 1))
        } else {
            Err(ParseFault::Point("Expected identifier or literal"@, t[p]))
        }
    }
}

/// Term0 := Atom (Op0 Term0)?
pub open spec fn spec_term0(t: Seq<Token>, src: &str, p: int) -> Parsed
    decreases remaining(t, p), 3nat,
{
    match spec_atom(t, src, p) {
        Err(f) => Err(f),
        Ok((a, c)) => if is_op0_at(t, src, p + c) {
            match spec_term0(t, src, p + c + 1) {
                Err(f) => Err(f),
                Ok((r, c2)) => Ok(
                    (Tree::Inner(NTermType::Term0, seq![a, Tree::Leaf(t[p + c]), r]), c + 1 + c2),
                ),
            }
        } else {
            Ok((Tree::Inner(NTermType::Term0, seq![a]), c))
        },
    }
}

/// Term1 := Term0 (Op1 Term1)?
pub open spec fn spec_term1(t: Seq<Token>, src: &str, p: int) -> Parsed
    decreases remaining(t, p), 4nat,
{
    match spec_term0(t, src, p) {
        Err(f) => Err(f),
        Ok((a, c)) => if is_op1_at(t, src, p + c) {
            match spec_term1(t, src, p + c + 1) {
                Err(f) => Err(f),
                Ok((r, c2)) => Ok(
                    (Tree::Inner(NTermType::Term1, seq![a, Tree::Leaf(t[p + c]), r]), c + 1 + c2),
                ),
            }
        } else {
            Ok((Tree::Inner(NTermType::Term1, seq![a]), c))
        },
    }
}

/// Term2 := Term1 (Op2 Term2)?
pub open spec fn spec_term2(t: Seq<Token>, src: &str, p: int) -> Parsed
    decreases remaining(t, p), 5nat,
{
    match spec_term1(t, src, p) {
        Err(f) => Err(f),
        Ok((a, c)) => if is_op2_at(t, src, p + c) {
            match spec_term2(t, src, p + c + 1) {
                Err(f) => Err(f),
                Ok((r, c2)) => Ok(
                    (Tree::Inner(NTermType::Term2, seq![a, Tree::Leaf(t[p + c]), r]), c + 1 + c2),
                ),
            }
        } else {
            Ok((Tree::Inner(NTermType::Term2, seq![a]), c))
        },
    }
}

/// Expression := Term2 (Op3 Expression)?
pub open spec fn spec_expression(t: Seq<Token>, src: &str, p: int) -> Parsed
    decreases remaining(t, p), 6nat,
{
    match spec_term2(t, src, p) {
        Err(f) => Err(f),
        Ok((a, c)) => if is_op3_at(t, src, p + c) {
            match spec_expression(t, src, p + c + 1) {
                Err(f) => Err(f),
                Ok((r, c2)) => Ok(
                    (
                        Tree::Inner(NTermType::Expression, seq![a, Tree::Leaf(t[p + c]), r]),
                        c + 1 + c2,
                    ),
                ),
            }
        } else {
            Ok((Tree::Inner(NTermType::Expression, seq![a]), c))
        },
    }
}

/// The items of a parameter list, expressions and commas, up to the `)`,
/// which stays in place. An expression always takes at least one token; the
/// guard says so for the definition's sake.
pub open spec fn spec_parameter_items(t: Seq<Token>, src: &str, p: int) -> ParsedSeq
    decreases remaining(t, p), 7nat,
{
    if p < 0 || p >= t.len() {
        Err(ParseFault::Raw("Unexpected EOF in parameter list"@))
    } else if text_is(src, t[p], ")") {
        Ok((seq![], 0))
    } else if text_is(src, t[p], ",") {
        after_trees(seq![Tree::Leaf(t[p])], 1, spec_parameter_items(t, src, p + 1))
    } else {
        match spec_expression(t, src, p) {
            Err(f) => Err(f),
            Ok((e, c)) => if 0 < c {
                after_trees(seq![e], c, spec_parameter_items(t, src, p + c))
            } else {
                Ok((seq![e], c))
            },
        }
    }
}

/// ParameterList := (Expression | ',')*
pub open spec fn spec_parameter_list(t: Seq<Token>, src: &str, p: int) -> Parsed
    decreases remaining(t, p), 8nat,
{
    match spec_parameter_items(t, src, p) {
        Err(f) => Err(f),
        Ok((xs, c)) => Ok((Tree::Inner(NTermType::ParameterList, xs), c)),
    }
}

/// Declaration := CoreType Ident '=' Expression
pub open spec fn spec_declaration(t: Seq<Token>, src: &str, p: int) -> Parsed
    decreases remaining(t, p), 7nat,
{
    match expect_kind(t, p, TokenType::CoreType) {
        Err(f) => Err(f),
        Ok((ty, _)) => match expect_kind(t, p + 1, TokenType::Ident) {
            Err(f) => Err(f),
            Ok((id, _)) => match expect_text(t, src, p + 2, "=") {
                Err(f) => Err(f),
                Ok((eq, _)) => match spec_expression(t, src, p + 3) {
                    Err(f) => Err(f),
                    Ok((e, c)) => Ok(
                        (Tree::Inner(NTermType::Declaration, seq![ty, id, eq, e]), c + 3),
                    ),
                },
            },
        },
    }
}

/// Assignment := Ident '=' Expression
pub open spec fn spec_assignment(t: Seq<Token>, src: &str, p: int) -> Parsed
    decreases remaining(t, p), 7nat,
{
    match expect_kind(t, p, TokenType::Ident) {
        Err(f) => Err(f),
        Ok((id, _)) => match expect_text(t, src, p + 1, "=") {
            Err(f) => Err(f),
            Ok((eq, _)) => match spec_expression(t, src, p + 2) {
                Err(f) => Err(f),
                Ok((e, c)) => Ok((Tree::Inner(NTermType::Assignment, seq![id, eq, e]), c + 2)),
            },
        },
    }
}

/// Stmt := Declaration | Assignment | FunctionCall, told apart by the first
/// two tokens.
#[verifier::opaque]
pub open spec fn spec_stmt(t: Seq<Token>, src: &str, p: int) -> Parsed
    decreases remaining(t, p), 9nat,
{
    if p < 0 || p >= t.len() {
        Err(ParseFault::Raw("Unexpected EOF"@))
    } else if t[p].token_type == TokenType::Ident {
        if p + 1 >= t.len() {
            Err(ParseFault::Raw("Unexpected EOF"@))
        } else if text_is(src, t[p + 1], "(") {
            wrap(NTermType::Stmt, spec_function_call(t, src, p))
        } else if text_is(src, t[p + 1], "=") {
            wrap(NTermType::Stmt, spec_assignment(t, src, p))
        } else {
            Err(ParseFault::Point("Expected '(' or '='"@, t[p + 1]))
        }
    } else if t[p].token_type == TokenType::CoreType {
        wrap(NTermType::Stmt, spec_declaration(t, src, p))
    } else {
        Err(ParseFault::Point("Expected declaration, assignment, or function call."@, t[p]))
    }
}

/// Condition := '(' Expression ')'
#[verifier::opaque]
pub open spec fn spec_condition(t: Seq<Token>, src: &str, p: int) -> ParsedSeq {
    match expect_text(t, src, p, "(") {
        Err(f) => Err(f),
        Ok((lp, _)) => match spec_expression(t, src, p + 1) {
            Err(f) => Err(f),
            Ok((e, c)) => match expect_text(t, src, p + 1 + c, ")") {
                Err(f) => Err(f),
                Ok((rp, _)) => Ok((seq![lp, e, rp], c + 2)),
            },
        },
    }
}

/// Block := '{' Program '}'
#[verifier::opaque]
pub open spec fn spec_block(t: Seq<Token>, src: &str, p: int) -> ParsedSeq
    decreases remaining(t, p), 10nat,
{
    match expect_text(t, src, p, "{") {
        Err(f) => Err(f),
        Ok((lb, _)) => match spec_program(t, src, p + 1) {
            Err(f) => Err(f),
            Ok((body, c)) => match expect_text(t, src, p + 1 + c, "}") {
                Err(f) => Err(f),
                Ok((rb, _)) => Ok((seq![lb, body, rb], c + 2)),
            },
        },
    }
}

/// If := 'if' Condition Block ['else' Block], where the first token is
/// taken as the `if`. The node holds the tokens and trees of the parts in a
/// row: 7 children, or 11 with an `else`.
#[verifier::opaque]
pub open spec fn spec_if(t: Seq<Token>, src: &str, p: int) -> Parsed
    decreases remaining(t, p), 11nat,
{
    if p < 0 || p >= t.len() {
        Err(ParseFault::Raw("Unexpected EOF"@))
    } else {
        match spec_condition(t, src, p + 1) {
            Err(f) => Err(f),
            Ok((cond, c1)) => match spec_block(t, src, p + 1 + c1) {
                Err(f) => Err(f),
                Ok((body, c2)) => {
                    let head = seq![Tree::Leaf(t[p])] + cond + body;
                    let q = p + 1 + c1 + c2;
                    if at_text(t, src, q, "else") {
                        match spec_block(t, src, q + 1) {
                            Err(f) => Err(f),
                            Ok((body2, c3)) => Ok(
                                (
                                    Tree::Inner(NTermType::If, head + seq![Tree::Leaf(t[q])] + body2),
                                    c1 + c2 + c3 + 2,
                                ),
                            ),
                        }
                    } else {
                        Ok((Tree::Inner(NTermType::If, head), c1 + c2 + 1))
                    }
                },
            },
        }
    }
}

/// While := 'while' Condition Block, where the first token is taken as the
/// `while`. The node holds the tokens and trees of the parts in a row.
#[verifier::opaque]
pub open spec fn spec_while(t: Seq<Token>, src: &str, p: int) -> Parsed
    decreases remaining(t, p), 11nat,
{
    if p < 0 || p >= t.len() {
        Err(ParseFault::Raw("Unexpected EOF"@))
    } else {
        match spec_condition(t, src, p + 1) {
            Err(f) => Err(f),
            Ok((cond, c1)) => match spec_block(t, src, p + 1 + c1) {
                Err(f) => Err(f),
                Ok((body, c2)) => Ok(
                    (
                        Tree::Inner(NTermType::While, seq![Tree::Leaf(t[p])] + cond + body),
                        c1 + c2 + 1,
                    ),
                ),
            },
        }
    }
}

/// The items of a program, up to a `}` or the end of the tokens: `if` and
/// `while` controls, and statements, each with a `;` that is dropped. A
/// control always takes at least one token; the guard says so for the
/// definition's sake.
pub open spec fn spec_program_items(t: Seq<Token>, src: &str, p: int) -> ParsedSeq
    decreases remaining(t, p), 12nat,
{
    if p < 0 || p >= t.len() || text_is(src, t[p], "}") {
        Ok((seq![], 0))
    } else if text_is(src, t[p], "if") || text_is(src, t[p], "while") {
        let r = if text_is(src, t[p], "if") {
            spec_if(t, src, p)
        } else {
            spec_while(t, src, p)
        };
        match r {
            Err(f) => Err(f),
            Ok((n, c)) => if 0 < c {
                after_trees(seq![n], c, spec_program_items(t, src, p + c))
            } else {
                Ok((seq![n], c))
            },
        }
    } else {
        match spec_stmt(t, src, p) {
            Err(f) => Err(f),
            Ok((n, c)) => match expect_text(t, src, p + c, ";") {
                Err(f) => Err(f),
                Ok(_) => after_trees(seq![n], c + 1, spec_program_items(t, src, p + c + 1)),
            },
        }
    }
}

/// Program := (Stmt ';' | If | While)*
pub open spec fn spec_program(t: Seq<Token>, src: &str, p: int) -> Parsed
    decreases remaining(t, p), 13nat,
{
    match spec_program_items(t, src, p) {
        Err(f) => Err(f),
        Ok((xs, c)) => Ok((Tree::Inner(NTermType::Program, xs), c)),
    }
}

/// What `parse` returns: the program that the tokens make up, where they
/// are not empty and the program takes all of them.
pub open spec fn spec_parse(t: Seq<Token>, src: &str) -> Result<Tree, ParseFault> {
    if t.len() == 0 {
        Err(ParseFault::Raw("No tokens to parse"@))
    } else {
        match spec_program(t, src, 0) {
            Err(f) => Err(f),
            Ok((tree, c)) => if c < t.len() {
                Err(ParseFault::Point("Unmatched }"@, t[c as int]))
            } else {
                Ok(tree)
            },
        }
    }
}

/// What a rule that ran at `p` returned, given the outcome that the grammar
/// gives there.
pub open spec fn agrees(r: Result<(Node, usize), ParseErr>, spec: Parsed, p: int) -> bool {
    match spec {
        Ok((tree, c)) => r is Ok && r->Ok_0.0@ == tree && r->Ok_0.1 == p + c,
        Err(f) => r is Err && r->Err_0@ == f,
    }
}

/// A terminal node for `tok`.
fn term(tok: Token) -> (r: Node)
    ensures
        r@ == Tree::Leaf(tok),
        r.wf(),
{
    Node { node_type: NodeType::Term(tok), children: Vec::new() }
}

/// A nonterminal node of kind `k` over `children`.
fn inner(k: NTermType, children: Vec<Node>) -> (r: Node)
    requires
        all_wf(children@),
    ensures
        r@ == Tree::Inner(k, views(children@)),
        r.wf(),
{
    Node { node_type: NodeType::NTerm(k), children }
}

/// Whether the lexeme of `tok` in `src` is `w`.
fn token_is(src: &str, tok: &Token, w: &str) -> (r: bool)
    ensures
        r == text_is(src, *tok, w),
{
    reveal(text_is);
    let b = src.as_bytes();
    let wb = w.as_bytes();
    let start = tok.start.0;
    let end = tok.end.0;
    if !(start <= end && end <= b.len()) {
        return false;
    }
    if end - start != wb.len() {
        assert(src.spec_bytes().subrange(start as int, end as int).len() != w.spec_bytes().len());
        return false;
    }
    let mut k: usize = 0;
    while k < wb.len()
        invariant
            b@ == src.spec_bytes(),
            wb@ == w.spec_bytes(),
            start == tok.start.0,
            end == tok.end.0,
            start <= end <= b@.len(),
            end - start == wb@.len(),
            k <= wb@.len(),
            forall|j: int| 0 <= j < k ==> b@[start + j] == wb@[j],
        decreases wb@.len() - k,
    {
        if b[start + k] != wb[k] {
            reveal(text_is);
            assert(src.spec_bytes().subrange(start as int, end as int)[k as int] != wb@[k as int]);
            return false;
        }
        k = k + 1;
    }
    reveal(text_is);
    assert(src.spec_bytes().subrange(start as int, end as int) =~= w.spec_bytes());
    true
}

/// Whether there is a token at `p` and its lexeme is `w`.
fn at_text_exec(tokens: &[Token], src: &str, p: usize, w: &str) -> (r: bool)
    ensures
        r == at_text(tokens@, src, p as int, w),
{
    p < tokens.len() && token_is(src, &tokens[p], w)
}

/// The lexeme of `tok` in `src`, or the empty string where its range does
/// not delimit whole characters of `src`.
pub fn token_text<'a>(src: &'a str, tok: &Token) -> (r: &'a str)
    ensures
        r@ == text_of(src, *tok),
{
    proof {
        reveal(text_of);
        reveal_strlit("");
    }
    let b = src.as_bytes();
    let start = tok.start.0;
    let end = tok.end.0;
    if !(start <= end && end <= b.len()) {
        return "";
    }
    if !(src.is_char_boundary(start) && src.is_char_boundary(end)) {
        return "";
    }
    let ghost bytes = src.spec_bytes();
    proof {
        encode_utf8_valid_utf8(src@);
    }
    let (left, _) = src.split_at(end);
    proof {
        valid_utf8_split(bytes, end as int);
        let lb = left.spec_bytes();
        assert(lb =~= bytes.subrange(0, end as int));
        if start < end {
            is_char_boundary_iff_not_is_continuation_byte(bytes, start as int);
            is_char_boundary_iff_not_is_continuation_byte(lb, start as int);
        } else {
            is_char_boundary_start_end_of_seq(lb);
        }
    }
    let (_, mid) = left.split_at(start);
    proof {
        assert(mid.spec_bytes() =~= bytes.subrange(start as int, end as int));
        encode_utf8_decode_utf8(mid@);
    }
    mid
}

/// The message for a missing `w`: what stands there instead, or the end.
fn expected_message(w: &str, got: Option<&str>) -> (r: String)
    ensures
        got matches Some(g) ==> r@ == "Expected "@ + w@ + ", got "@ + g@,
        got is None ==> r@ == "Expected "@ + w@ + ", got EOF"@,
{
    let m = "Expected ".to_owned().concat(w);
    match got {
        Some(g) => m.concat(", got ").concat(g),
        None => m.concat(", got EOF"),
    }
}

/// Takes the token at `pos` as a terminal if its lexeme is `expected`.
fn assert_term(tokens: &[Token], src: &str, pos: usize, expected: &str) -> (r: Result<
    (Node, usize),
    ParseErr,
>)
    ensures
        agrees(r, expect_text(tokens@, src, pos as int, expected), pos as int),
        r is Ok ==> r->Ok_0.0.wf(),
{
    if pos >= tokens.len() {
        return Err(ParseErr::Raw(expected_message(expected, None)));
    }
    let tok = tokens[pos];
    if token_is(src, &tok, expected) {
        Ok((term(tok), pos + 1))
    } else {
        let m = expected_message(expected, Some(token_text(src, &tok)));
        Err(ParseErr::Point(m, tok))
    }
}

/// Takes the token at `pos` as a terminal if it is of kind `expected`.
fn assert_term_with_type(tokens: &[Token], pos: usize, expected: TokenType) -> (r: Result<
    (Node, usize),
    ParseErr,
>)
    ensures
        agrees(r, expect_kind(tokens@, pos as int, expected), pos as int),
        r is Ok ==> r->Ok_0.0.wf(),
{
    if pos >= tokens.len() {
        return Err(ParseErr::Raw(expected_message(expected.name(), None)));
    }
    let tok = tokens[pos];
    if tok.token_type == expected {
        Ok((term(tok), pos + 1))
    } else {
        Err(ParseErr::Point("Expected ".to_owned().concat(expected.name()), tok))
    }
}

/// Whether the token at `p` is a multiplicative operator: `*`, `/`, `%`.
fn is_op0(tokens: &[Token], src: &str, p: usize) -> (r: bool)
    ensures
        r == is_op0_at(tokens@, src, p as int),
{
    at_text_exec(tokens, src, p, "*") || at_text_exec(tokens, src, p, "/") || at_text_exec(
        tokens,
        src,
        p,
        "%",
    )
}

/// Whether the token at `p` is an additive operator: `+`, `-`.
fn is_op1(tokens: &[Token], src: &str, p: usize) -> (r: bool)
    ensures
        r == is_op1_at(tokens@, src, p as int),
{
    at_text_exec(tokens, src, p, "+") || at_text_exec(tokens, src, p, "-")
}

/// Whether the token at `p` is a comparison: `==`, `>`, `<`, `>=`, `<=`.
fn is_op2(tokens: &[Token], src: &str, p: usize) -> (r: bool)
    ensures
        r == is_op2_at(tokens@, src, p as int),
{
    at_text_exec(tokens, src, p, "==") || at_text_exec(tokens, src, p, ">") || at_text_exec(
        tokens,
        src,
        p,
        "<",
    ) || at_text_exec(tokens, src, p, ">=") || at_text_exec(tokens, src, p, "<=")
}

/// Whether the token at `p` is a logical operator: `&&`, `||`.
fn is_op3(tokens: &[Token], src: &str, p: usize) -> (r: bool)
    ensures
        r == is_op3_at(tokens@, src, p as int),
{
    at_text_exec(tokens, src, p, "&&") || at_text_exec(tokens, src, p, "||")
}

fn node1(k: NTermType, a: Node) -> (r: Node)
    requires
        a.wf(),
    ensures
        r.wf(),
        r@ == Tree::Inner(k, seq![a@]),
{
    let ghost ts = seq![a@];
    let v = vec![a];
    assert(views(v@) =~= ts);
    inner(k, v)
}

fn node3(k: NTermType, a: Node, b: Node, c: Node) -> (r: Node)
    requires
        a.wf(),
        b.wf(),
        c.wf(),
    ensures
        r.wf(),
        r@ == Tree::Inner(k, seq![a@, b@, c@]),
{
    let ghost ts = seq![a@, b@, c@];
    let v = vec![a, b, c];
    assert(views(v@) =~= ts);
    inner(k, v)
}

fn node4(k: NTermType, a: Node, b: Node, c: Node, d: Node) -> (r: Node)
    requires
        a.wf(),
        b.wf(),
        c.wf(),
        d.wf(),
    ensures
        r.wf(),
        r@ == Tree::Inner(k, seq![a@, b@, c@, d@]),
{
    let ghost ts = seq![a@, b@, c@, d@];
    let v = vec![a, b, c, d];
    assert(views(v@) =~= ts);
    inner(k, v)
}

/// Repetitions compose: items `pre` then `mid` in front of `r`.
proof fn lemma_after_trees_assoc(pre: Seq<Tree>, c: nat, mid: Seq<Tree>, c2: nat, r: ParsedSeq)
    ensures
        after_trees(pre, c, after_trees(mid, c2, r)) == after_trees(pre + mid, c + c2, r),
{
    if let Ok((xs, c3)) = r {
        assert(pre + (mid + xs) =~= (pre + mid) + xs);
    }
}

/// Appending a node appends its tree.
proof fn lemma_views_push(ns: Seq<Node>, n: Node)
    ensures
        views(ns.push(n)) == views(ns) + seq![n@],
{
    assert(views(ns.push(n)) =~= views(ns) + seq![n@]);
}

/// Parses `Ident ( ParameterList )`.
fn parse_function_call(tokens: &[Token], src: &str, pos: usize) -> (r: Result<
    (Node, usize),
    ParseErr,
>)
    requires
        pos <= tokens@.len(),
    ensures
        agrees(r, spec_function_call(tokens@, src, pos as int), pos as int),
        r is Ok ==> pos < r->Ok_0.1 <= tokens@.len(),
        r is Ok ==> r->Ok_0.0.wf(),
    decreases remaining(tokens@, pos as int), 1nat,
{
    let (id, p1) = assert_term_with_type(tokens, pos, TokenType::Ident)?;
    let (lp, p2) = assert_term(tokens, src, p1, "(")?;
    let (pl, p3) = parse_parameter_list(tokens, src, p2)?;
    let (rp, p4) = assert_term(tokens, src, p3, ")")?;
    Ok((node4(NTermType::FunctionCall, id, lp, pl, rp), p4))
}

/// Parses an operand: a call, an identifier or a literal.
fn parse_atom(tokens: &[Token], src: &str, pos: usize) -> (r: Result<(Node, usize), ParseErr>)
    requires
        pos <= tokens@.len(),
    ensures
        agrees(r, spec_atom(tokens@, src, pos as int), pos as int),
        r is Ok ==> pos < r->Ok_0.1 <= tokens@.len(),
        r is Ok ==> r->Ok_0.0.wf(),
    decreases remaining(tokens@, pos as int), 2nat,
{
    if pos >= tokens.len() {
        return Err(ParseErr::Raw("Unexpected EOF".to_owned()));
    }
    let tok = tokens[pos];
    let k = tok.token_type;
    if k == TokenType::Ident && at_text_exec(tokens, src, pos + 1, "(") {
        let (fc, q) = parse_function_call(tokens, src, pos)?;
        Ok((node1(NTermType::Atom, fc), q))
    } else if k == TokenType::Ident || k == TokenType::ArithLit || k == TokenType::StringLit || k
        == TokenType::BoolLit {
        Ok((node1(NTermType::Atom, term(tok)), pos + 1))
    } else {
        Err(ParseErr::Point("Expected identifier or literal".to_owned(), tok))
    }
}

/// Parses a product: operands joined by `*`, `/` or `%`, nested to the right.
fn parse_term0(tokens: &[Token], src: &str, pos: usize) -> (r: Result<(Node, usize), ParseErr>)
    requires
        pos <= tokens@.len(),
    ensures
        agrees(r, spec_term0(tokens@, src, pos as int), pos as int),
        r is Ok ==> pos < r->Ok_0.1 <= tokens@.len(),
        r is Ok ==> r->Ok_0.0.wf(),
    decreases remaining(tokens@, pos as int), 3nat,
{
    let (a, q) = parse_atom(tokens, src, pos)?;
    if is_op0(tokens, src, q) {
        let op = term(tokens[q]);
        let (b, q2) = parse_term0(tokens, src, q + 1)?;
        Ok((node3(NTermType::Term0, a, op, b), q2))
    } else {
        Ok((node1(NTermType::Term0, a), q))
    }
}

/// Parses a sum: products joined by `+` or `-`, nested to the right.
fn parse_term1(tokens: &[Token], src: &str, pos: usize) -> (r: Result<(Node, usize), ParseErr>)
    requires
        pos <= tokens@.len(),
    ensures
        agrees(r, spec_term1(tokens@, src, pos as int), pos as int),
        r is Ok ==> pos < r->Ok_0.1 <= tokens@.len(),
        r is Ok ==> r->Ok_0.0.wf(),
    decreases remaining(tokens@, pos as int), 4nat,
{
    let (a, q) = parse_term0(tokens, src, pos)?;
    if is_op1(tokens, src, q) {
        let op = term(tokens[q]);
        let (b, q2) = parse_term1(tokens, src, q + 1)?;
        Ok((node3(NTermType::Term1, a, op, b), q2))
    } else {
        Ok((node1(NTermType::Term1, a), q))
    }
}

/// Parses a comparison: sums joined by `==`, `>`, `<`, `>=` or `<=`, nested
/// to the right.
fn parse_term2(tokens: &[Token], src: &str, pos: usize) -> (r: Result<(Node, usize), ParseErr>)
    requires
        pos <= tokens@.len(),
    ensures
        agrees(r, spec_term2(tokens@, src, pos as int), pos as int),
        r is Ok ==> pos < r->Ok_0.1 <= tokens@.len(),
        r is Ok ==> r->Ok_0.0.wf(),
    decreases remaining(tokens@, pos as int), 5nat,
{
    let (a, q) = parse_term1(tokens, src, pos)?;
    if is_op2(tokens, src, q) {
        let op = term(tokens[q]);
        let (b, q2) = parse_term2(tokens, src, q + 1)?;
        Ok((node3(NTermType::Term2, a, op, b), q2))
    } else {
        Ok((node1(NTermType::Term2, a), q))
    }
}

/// Parses an expression: comparisons joined by `&&` or `||`, nested to the
/// right.
fn parse_expression(tokens: &[Token], src: &str, pos: usize) -> (r: Result<
    (Node, usize),
    ParseErr,
>)
    requires
        pos <= tokens@.len(),
    ensures
        agrees(r, spec_expression(tokens@, src, pos as int), pos as int),
        r is Ok ==> pos < r->Ok_0.1 <= tokens@.len(),
        r is Ok ==> r->Ok_0.0.wf(),
    decreases remaining(tokens@, pos as int), 6nat,
{
    let (a, q) = parse_term2(tokens, src, pos)?;
    if is_op3(tokens, src, q) {
        let op = term(tokens[q]);
        let (b, q2) = parse_expression(tokens, src, q + 1)?;
        Ok((node3(NTermType::Expression, a, op, b), q2))
    } else {
        Ok((node1(NTermType::Expression, a), q))
    }
}

/// Parses the expressions and commas of an argument list, up to the `)`,
/// which it leaves in place.
#[verifier::rlimit(40)]
fn parse_parameter_list(tokens: &[Token], src: &str, pos: usize) -> (r: Result<
    (Node, usize),
    ParseErr,
>)
    requires
        pos <= tokens@.len(),
    ensures
        agrees(r, spec_parameter_list(tokens@, src, pos as int), pos as int),
        r is Ok ==> pos <= r->Ok_0.1 < tokens@.len(),
        r is Ok ==> r->Ok_0.0.wf(),
    decreases remaining(tokens@, pos as int), 8nat,
{
    let ghost t = tokens@;
    let mut children: Vec<Node> = Vec::new();
    let mut p = pos;
    loop
        invariant
            t == tokens@,
            pos <= p <= t.len(),
            all_wf(children@),
            spec_parameter_items(t, src, pos as int) == after_trees(
                views(children@),
                (p - pos) as nat,
                spec_parameter_items(t, src, p as int),
            ),
        ensures
            pos <= p < t.len(),
            spec_parameter_items(t, src, pos as int) == Ok::<(Seq<Tree>, nat), ParseFault>(
                (views(children@), (p - pos) as nat),
            ),
        decreases t.len() - p,
    {
        if p >= tokens.len() {
            return Err(ParseErr::Raw("Unexpected EOF in parameter list".to_owned()));
        }
        let tok = tokens[p];
        if token_is(src, &tok, ")") {
            assert(views(children@) + seq![] =~= views(children@));
            break ;
        }
        let n;
        let q;
        if token_is(src, &tok, ",") {
            n = term(tok);
            q = p + 1;
        } else {
            let (e, q1) = parse_expression(tokens, src, p)?;
            n = e;
            q = q1;
        }
        proof {
            lemma_after_trees_assoc(
                views(children@),
                (p - pos) as nat,
                seq![n@],
                (q - p) as nat,
                spec_parameter_items(t, src, q as int),
            );
            lemma_views_push(children@, n);
        }
        children.push(n);
        p = q;
    }
    Ok((inner(NTermType::ParameterList, children), p))
}

/// Parses `CoreType Ident = Expression`.
fn parse_declaration(tokens: &[Token], src: &str, pos: usize) -> (r: Result<
    (Node, usize),
    ParseErr,
>)
    requires
        pos <= tokens@.len(),
    ensures
        agrees(r, spec_declaration(tokens@, src, pos as int), pos as int),
        r is Ok ==> pos < r->Ok_0.1 <= tokens@.len(),
        r is Ok ==> r->Ok_0.0.wf(),
    decreases remaining(tokens@, pos as int), 7nat,
{
    let (ty, p1) = assert_term_with_type(tokens, pos, TokenType::CoreType)?;
    let (id, p2) = assert_term_with_type(tokens, p1, TokenType::Ident)?;
    let (eq, p3) = assert_term(tokens, src, p2, "=")?;
    let (e, p4) = parse_expression(tokens, src, p3)?;
    Ok((node4(NTermType::Declaration, ty, id, eq, e), p4))
}

/// Parses `Ident = Expression`.
fn parse_assignment(tokens: &[Token], src: &str, pos: usize) -> (r: Result<
    (Node, usize),
    ParseErr,
>)
    requires
        pos <= tokens@.len(),
    ensures
        agrees(r, spec_assignment(tokens@, src, pos as int), pos as int),
        r is Ok ==> pos < r->Ok_0.1 <= tokens@.len(),
        r is Ok ==> r->Ok_0.0.wf(),
    decreases remaining(tokens@, pos as int), 7nat,
{
    let (id, p1) = assert_term_with_type(tokens, pos, TokenType::Ident)?;
    let (eq, p2) = assert_term(tokens, src, p1, "=")?;
    let (e, p3) = parse_expression(tokens, src, p2)?;
    Ok((node3(NTermType::Assignment, id, eq, e), p3))
}

/// Parses a declaration, an assignment or a call, told apart by the first
/// two tokens.
fn parse_stmt(tokens: &[Token], src: &str, pos: usize) -> (r: Result<(Node, usize), ParseErr>)
    requires
        pos <= tokens@.len(),
    ensures
        agrees(r, spec_stmt(tokens@, src, pos as int), pos as int),
        r is Ok ==> pos < r->Ok_0.1 <= tokens@.len(),
        r is Ok ==> r->Ok_0.0.wf(),
    decreases remaining(tokens@, pos as int), 9nat,
{
    reveal(spec_stmt);
    if pos >= tokens.len() {
        return Err(ParseErr::Raw("Unexpected EOF".to_owned()));
    }
    let tok = tokens[pos];
    let (child, q) = if tok.token_type == TokenType::Ident {
        if pos + 1 >= tokens.len() {
            return Err(ParseErr::Raw("Unexpected EOF".to_owned()));
        }
        let next = tokens[pos + 1];
        if token_is(src, &next, "(") {
            parse_function_call(tokens, src, pos)?
        } else if token_is(src, &next, "=") {
            parse_assignment(tokens, src, pos)?
        } else {
            return Err(ParseErr::Point("Expected '(' or '='".to_owned(), next));
        }
    } else if tok.token_type == TokenType::CoreType {
        parse_declaration(tokens, src, pos)?
    } else {
        return Err(
            ParseErr::Point(
                "Expected declaration, assignment, or function call.".to_owned(),
                tok,
            ),
        );
    };
    Ok((node1(NTermType::Stmt, child), q))
}

/// What a rule that adds its trees to `children` returned, given the
/// outcome that the grammar gives at `p`.
pub open spec fn agrees_into(
    r: Result<usize, ParseErr>,
    spec: ParsedSeq,
    p: int,
    before: Seq<Node>,
    after: Seq<Node>,
) -> bool {
    match spec {
        Ok((xs, c)) => r is Ok && views(after) == views(before) + xs && r->Ok_0 == p + c,
        Err(f) => r is Err && r->Err_0@ == f,
    }
}

/// Appending three nodes appends their trees.
proof fn lemma_views_push3(ns: Seq<Node>, a: Node, b: Node, c: Node)
    ensures
        views(ns.push(a).push(b).push(c)) == views(ns) + seq![a@, b@, c@],
{
    assert(views(ns.push(a).push(b).push(c)) =~= views(ns) + seq![a@, b@, c@]);
}

/// Parses `( Expression )`, adding its nodes to `children`.
fn parse_condition(tokens: &[Token], src: &str, pos: usize, children: &mut Vec<Node>) -> (r:
    Result<usize, ParseErr>)
    requires
        pos <= tokens@.len(),
    ensures
        agrees_into(
            r,
            spec_condition(tokens@, src, pos as int),
            pos as int,
            old(children)@,
            final(children)@,
        ),
        r is Ok ==> pos < r->Ok_0 <= tokens@.len(),
        all_wf(old(children)@) ==> all_wf(final(children)@),
{
    reveal(spec_condition);
    let (lp, p1) = assert_term(tokens, src, pos, "(")?;
    let (e, p2) = parse_expression(tokens, src, p1)?;
    let (rp, p3) = assert_term(tokens, src, p2, ")")?;
    proof {
        lemma_views_push3(children@, lp, e, rp);
    }
    children.push(lp);
    children.push(e);
    children.push(rp);
    Ok(p3)
}

/// Parses `{ Program }`, adding its nodes to `children`.
fn parse_block(tokens: &[Token], src: &str, pos: usize, children: &mut Vec<Node>) -> (r: Result<
    usize,
    ParseErr,
>)
    requires
        pos <= tokens@.len(),
    ensures
        agrees_into(
            r,
            spec_block(tokens@, src, pos as int),
            pos as int,
            old(children)@,
            final(children)@,
        ),
        r is Ok ==> pos < r->Ok_0 <= tokens@.len(),
        all_wf(old(children)@) ==> all_wf(final(children)@),
    decreases remaining(tokens@, pos as int), 10nat,
{
    reveal(spec_block);
    let (lb, p1) = assert_term(tokens, src, pos, "{")?;
    let (body, p2) = parse_program(tokens, src, p1)?;
    let (rb, p3) = assert_term(tokens, src, p2, "}")?;
    proof {
        lemma_views_push3(children@, lb, body, rb);
    }
    children.push(lb);
    children.push(body);
    children.push(rb);
    Ok(p3)
}

/// One step of the definition of `spec_if`.
proof fn lemma_if_step(t: Seq<Token>, src: &str, p: int)
    requires
        0 <= p < t.len(),
    ensures
        spec_if(t, src, p) == match spec_condition(t, src, p + 1) {
            Err(f) => Err(f),
            Ok((cond, c1)) => match spec_block(t, src, p + 1 + c1) {
                Err(f) => Err(f),
                Ok((body, c2)) => {
                    let head = seq![Tree::Leaf(t[p])] + cond + body;
                    let q = p + 1 + c1 + c2;
                    if at_text(t, src, q, "else") {
                        match spec_block(t, src, q + 1) {
                            Err(f) => Err(f),
                            Ok((body2, c3)) => Ok(
                                (
                                    Tree::Inner(NTermType::If, head + seq![Tree::Leaf(t[q])] + body2),
                                    c1 + c2 + c3 + 2,
                                ),
                            ),
                        }
                    } else {
                        Ok((Tree::Inner(NTermType::If, head), c1 + c2 + 1))
                    }
                },
            },
        },
{
    reveal(spec_if);
    reveal(spec_block);
}

/// Parses `if ( Expression ) { Program }`, with an optional
/// `else { Program }`; the first token is taken as the `if`.
fn parse_if_control(tokens: &[Token], src: &str, pos: usize) -> (r: Result<
    (Node, usize),
    ParseErr,
>)
    requires
        pos <= tokens@.len(),
    ensures
        agrees(r, spec_if(tokens@, src, pos as int), pos as int),
        r is Ok ==> pos < r->Ok_0.1 <= tokens@.len(),
        r is Ok ==> r->Ok_0.0.wf(),
    decreases remaining(tokens@, pos as int), 11nat,
{
    if pos >= tokens.len() {
        proof {
            reveal(spec_if);
        }
        return Err(ParseErr::Raw("Unexpected EOF".to_owned()));
    }
    proof {
        lemma_if_step(tokens@, src, pos as int);
    }
    let mut children: Vec<Node> = Vec::new();
    let kw = term(tokens[pos]);
    proof {
        lemma_views_push(children@, kw);
        assert(views(children@) =~= seq![]);
    }
    children.push(kw);
    let p1 = parse_condition(tokens, src, pos + 1, &mut children)?;
    let p2 = parse_block(tokens, src, p1, &mut children)?;
    if !at_text_exec(tokens, src, p2, "else") {
        return Ok((inner(NTermType::If, children), p2));
    }
    let kw2 = term(tokens[p2]);
    proof {
        lemma_views_push(children@, kw2);
    }
    children.push(kw2);
    let p3 = parse_block(tokens, src, p2 + 1, &mut children)?;
    Ok((inner(NTermType::If, children), p3))
}

/// One step of the definition of `spec_while`.
proof fn lemma_while_step(t: Seq<Token>, src: &str, p: int)
    requires
        0 <= p < t.len(),
    ensures
        spec_while(t, src, p) == match spec_condition(t, src, p + 1) {
            Err(f) => Err(f),
            Ok((cond, c1)) => match spec_block(t, src, p + 1 + c1) {
                Err(f) => Err(f),
                Ok((body, c2)) => Ok(
                    (
                        Tree::Inner(NTermType::While, seq![Tree::Leaf(t[p])] + cond + body),
                        c1 + c2 + 1,
                    ),
                ),
            },
        },
{
    reveal(spec_while);
    reveal(spec_block);
}

/// Parses `while ( Expression ) { Program }`; the first token is taken as
/// the `while`.
#[verifier::rlimit(100)]
fn parse_while_control(tokens: &[Token], src: &str, pos: usize) -> (r: Result<
    (Node, usize),
    ParseErr,
>)
    requires
        pos <= tokens@.len(),
    ensures
        agrees(r, spec_while(tokens@, src, pos as int), pos as int),
        r is Ok ==> pos < r->Ok_0.1 <= tokens@.len(),
        r is Ok ==> r->Ok_0.0.wf(),
    decreases remaining(tokens@, pos as int), 11nat,
{
    if pos >= tokens.len() {
        proof {
            reveal(spec_while);
        }
        return Err(ParseErr::Raw("Unexpected EOF".to_owned()));
    }
    proof {
        lemma_while_step(tokens@, src, pos as int);
    }
    let mut children: Vec<Node> = Vec::new();
    let kw = term(tokens[pos]);
    proof {
        lemma_views_push(children@, kw);
        assert(views(children@) =~= seq![]);
    }
    children.push(kw);
    let p1 = parse_condition(tokens, src, pos + 1, &mut children)?;
    let p2 = parse_block(tokens, src, p1, &mut children)?;
    Ok((inner(NTermType::While, children), p2))
}

/// One step of the definition of `spec_program_items`.
proof fn lemma_program_items_step(t: Seq<Token>, src: &str, p: int)
    requires
        0 <= p < t.len(),
        !text_is(src, t[p], "}"),
    ensures
        spec_program_items(t, src, p) == if text_is(src, t[p], "if") || text_is(
            src,
            t[p],
            "while",
        ) {
            let r = if text_is(src, t[p], "if") {
                spec_if(t, src, p)
            } else {
                spec_while(t, src, p)
            };
            match r {
                Err(f) => Err(f),
                Ok((n, c)) => if 0 < c {
                    after_trees(seq![n], c, spec_program_items(t, src, p + c))
                } else {
                    Ok((seq![n], c))
                },
            }
        } else {
            match spec_stmt(t, src, p) {
                Err(f) => Err(f),
                Ok((n, c)) => match expect_text(t, src, p + c, ";") {
                    Err(f) => Err(f),
                    Ok(_) => after_trees(seq![n], c + 1, spec_program_items(t, src, p + c + 1)),
                },
            }
        },
{
    reveal(spec_if);
    reveal(spec_while);
    reveal(spec_stmt);
}

/// Parses controls and `;`-terminated statements up to a `}` or the end of
/// the tokens, leaving the `}` in place and dropping the `;`.
fn parse_program(tokens: &[Token], src: &str, pos: usize) -> (r: Result<
    (Node, usize),
    ParseErr,
>)
    requires
        pos <= tokens@.len(),
    ensures
        agrees(r, spec_program(tokens@, src, pos as int), pos as int),
        r is Ok ==> pos <= r->Ok_0.1 <= tokens@.len(),
        r is Ok ==> r->Ok_0.0.wf(),
    decreases remaining(tokens@, pos as int), 13nat,
{
    let ghost t = tokens@;
    let mut children: Vec<Node> = Vec::new();
    let mut p = pos;
    loop
        invariant
            t == tokens@,
            pos <= p <= t.len(),
            all_wf(children@),
            spec_program_items(t, src, pos as int) == after_trees(
                views(children@),
                (p - pos) as nat,
                spec_program_items(t, src, p as int),
            ),
        ensures
            pos <= p <= t.len(),
            spec_program_items(t, src, pos as int) == Ok::<(Seq<Tree>, nat), ParseFault>(
                (views(children@), (p - pos) as nat),
            ),
        decreases t.len() - p,
    {
        if p >= tokens.len() || token_is(src, &tokens[p], "}") {
            assert(views(children@) + seq![] =~= views(children@));
            break ;
        }
        let tok = tokens[p];
        proof {
            lemma_program_items_step(t, src, p as int);
        }
        let n;
        let q;
        if token_is(src, &tok, "if") {
            let (c, q1) = parse_if_control(tokens, src, p)?;
            n = c;
            q = q1;
        } else if token_is(src, &tok, "while") {
            let (c, q1) = parse_while_control(tokens, src, p)?;
            n = c;
            q = q1;
        } else {
            let (c, q1) = parse_stmt(tokens, src, p)?;
            // The `;` after a statement is checked and dropped.
            let (_, q2) = assert_term(tokens, src, q1, ";")?;
            n = c;
            q = q2;
        }
        proof {
            lemma_after_trees_assoc(
                views(children@),
                (p - pos) as nat,
                seq![n@],
                (q - p) as nat,
                spec_program_items(t, src, q as int),
            );
            lemma_views_push(children@, n);
        }
        children.push(n);
        p = q;
    }
    Ok((inner(NTermType::Program, children), p))
}

/// Parses a whole token sequence, lexed from `src`, into a `Program`.
pub fn parse(tokens: &[Token], src: &str) -> (r: Result<Node, ParseErr>)
    ensures
        match spec_parse(tokens@, src) {
            Ok(tree) => r is Ok && r->Ok_0@ == tree,
            Err(f) => r is Err && r->Err_0@ == f,
        },
        r is Ok ==> r->Ok_0.wf(),
{
    if tokens.len() == 0 {
        return Err(ParseErr::Raw("No tokens to parse".to_owned()));
    }
    let (program, p) = parse_program(tokens, src, 0)?;
    if p < tokens.len() {
        return Err(ParseErr::Point("Unmatched }".to_owned(), tokens[p]));
    }
    Ok(program)
}

} // verus!
