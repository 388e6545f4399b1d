//! What a parse tree keeps of the tokens: its terminals, left to right, are
//! the tokens less the `;` that end statements.
use vstd::prelude::*;
use crate::parse::{
    after_trees, at_text, expect_kind, expect_text, is_op0_at, is_op1_at, is_op2_at, is_op3_at,
    remaining, spec_assignment, spec_atom, spec_block, spec_condition, spec_declaration,
    spec_expression, spec_function_call, spec_if, spec_parameter_items, spec_parameter_list,
    spec_parse, spec_program, spec_program_items, spec_stmt, spec_term0, spec_term1, spec_term2,
    spec_while, text_is, Parsed, ParsedSeq, Tree,
};
use crate::lex::{
    joined, lemma_lex_from_bounds, lemma_lexemes_rebuild_source, lemma_token_slices, lex_result,
    lexemes, lexemes_unblank, lemma_token_layout, squeeze, Scan, scan_token,
};
use crate::token::{Token, TokenType};
use vstd::string::StringSliceAdditionalSpecFns;
use vstd::utf8::{encode_utf8, encode_utf8_decode_utf8};

verus! {

/// The terminals of a tree, left to right.
pub open spec fn leaves(tr: Tree) -> Seq<Token>
    decreases tr, 0nat,
{
    match tr {
        Tree::Leaf(t) => seq![t],
        Tree::Inner(_, cs) => leaves_from(cs, 0),
    }
}

/// The terminals of the trees `cs[k..]`, left to right.
pub open spec fn leaves_from(cs: Seq<Tree>, k: int) -> Seq<Token>
    decreases cs, cs.len() - k,
{
    if 0 <= k < cs.len() {
        leaves(cs[k]) + leaves_from(cs, k + 1)
    } else {
        seq![]
    }
}

/// The terminals of a sequence of trees, left to right.
pub open spec fn leaves_of(cs: Seq<Tree>) -> Seq<Token> {
    leaves_from(cs, 0)
}

/// Whether the lexeme of `tok` is `;`.
pub open spec fn is_semi(src: &str, tok: Token) -> bool {
    text_is(src, tok, ";")
}

/// `ts` without the tokens whose lexeme is `;`.
pub open spec fn strip_semis(src: &str, ts: Seq<Token>) -> Seq<Token>
    decreases ts.len(),
{
    if ts.len() == 0 {
        ts
    } else if is_semi(src, ts[0]) {
        strip_semis(src, ts.drop_first())
    } else {
        seq![ts[0]] + strip_semis(src, ts.drop_first())
    }
}

/// Whether every token of `t` whose lexeme is `;` is punctuation, as the
/// lexer makes it.
pub open spec fn semis_are_punc(t: Seq<Token>, src: &str) -> bool {
    forall|k: int| 0 <= k < t.len() && #[trigger] is_semi(src, t[k]) ==> t[k].token_type == TokenType::Punc
}

/// What holds of a rule that succeeds at `p`: it takes at least one token,
/// within `t`, and its terminals are those tokens less the `;`.
pub open spec fn covers(src: &str, t: Seq<Token>, p: int, r: Parsed) -> bool {
    r matches Ok((tree, c)) ==> {
        &&& 0 < c
        &&& p + c <= t.len()
        &&& leaves(tree) == strip_semis(src, t.subrange(p, p + c))
    }
}

/// As `covers`, for a rule that may take no token.
pub open spec fn covers_any(src: &str, t: Seq<Token>, p: int, r: Parsed) -> bool {
    r matches Ok((tree, c)) ==> {
        &&& p + c <= t.len()
        &&& leaves(tree) == strip_semis(src, t.subrange(p, p + c))
    }
}

/// As `covers_any`, for a repeated rule.
pub open spec fn covers_seq(src: &str, t: Seq<Token>, p: int, r: ParsedSeq) -> bool {
    r matches Ok((xs, c)) ==> {
        &&& p + c <= t.len()
        &&& leaves_of(xs) == strip_semis(src, t.subrange(p, p + c))
    }
}

proof fn lemma_strip_concat(src: &str, a: Seq<Token>, b: Seq<Token>)
    ensures
        strip_semis(src, a + b) == strip_semis(src, a) + strip_semis(src, b),
    decreases a.len(),
{
    if a.len() == 0 {
        assert(a + b =~= b);
        assert(strip_semis(src, a) + strip_semis(src, b) =~= strip_semis(src, b));
    } else {
        assert((a + b).drop_first() =~= a.drop_first() + b);
        assert((a + b)[0] == a[0]);
        lemma_strip_concat(src, a.drop_first(), b);
        if !is_semi(src, a[0]) {
            assert(seq![a[0]] + (strip_semis(src, a.drop_first()) + strip_semis(src, b)) =~= (
            seq![a[0]] + strip_semis(src, a.drop_first())) + strip_semis(src, b));
        }
    }
}

proof fn lemma_strip_split(src: &str, t: Seq<Token>, a: int, b: int, c: int)
    requires
        0 <= a <= b <= c <= t.len(),
    ensures
        strip_semis(src, t.subrange(a, c)) == strip_semis(src, t.subrange(a, b)) + strip_semis(
            src,
            t.subrange(b, c),
        ),
{
    assert(t.subrange(a, c) =~= t.subrange(a, b) + t.subrange(b, c));
    lemma_strip_concat(src, t.subrange(a, b), t.subrange(b, c));
}

proof fn lemma_strip_one(src: &str, t: Seq<Token>, a: int)
    requires
        0 <= a < t.len(),
    ensures
        strip_semis(src, t.subrange(a, a + 1)) == if is_semi(src, t[a]) {
            seq![]
        } else {
            seq![t[a]]
        },
{
    let s = t.subrange(a, a + 1);
    assert(s.drop_first() =~= Seq::<Token>::empty());
    assert(s[0] == t[a]);
    assert(strip_semis(src, Seq::<Token>::empty()) == Seq::<Token>::empty());
    assert(seq![t[a]] + Seq::<Token>::empty() =~= seq![t[a]]);
}

proof fn lemma_leaves_shift(xs: Seq<Tree>, ys: Seq<Tree>, j: int)
    requires
        0 <= j <= ys.len(),
    ensures
        leaves_from(xs + ys, xs.len() + j) == leaves_from(ys, j),
    decreases ys.len() - j,
{
    if j < ys.len() {
        lemma_leaves_shift(xs, ys, j + 1);
        assert((xs + ys)[xs.len() + j] == ys[j]);
    }
}

proof fn lemma_leaves_from_concat(xs: Seq<Tree>, ys: Seq<Tree>, k: int)
    requires
        0 <= k <= xs.len(),
    ensures
        leaves_from(xs + ys, k) == leaves_from(xs, k) + leaves_from(ys, 0),
    decreases xs.len() - k,
{
    if k < xs.len() {
        lemma_leaves_from_concat(xs, ys, k + 1);
        assert((xs + ys)[k] == xs[k]);
        assert(leaves(xs[k]) + (leaves_from(xs, k + 1) + leaves_from(ys, 0)) =~= (leaves(xs[k])
            + leaves_from(xs, k + 1)) + leaves_from(ys, 0));
    } else {
        lemma_leaves_shift(xs, ys, 0);
        assert(leaves_from(xs, k) + leaves_from(ys, 0) =~= leaves_from(ys, 0));
    }
}

/// The terminals of joined sequences of trees are joined.
pub proof fn lemma_leaves_concat(xs: Seq<Tree>, ys: Seq<Tree>)
    ensures
        leaves_of(xs + ys) == leaves_of(xs) + leaves_of(ys),
{
    lemma_leaves_from_concat(xs, ys, 0);
}

proof fn lemma_leaves_single(a: Tree)
    ensures
        leaves_of(seq![a]) == leaves(a),
{
    assert(leaves_from(seq![a], 1) == Seq::<Token>::empty());
    assert(leaves(a) + Seq::<Token>::empty() =~= leaves(a));
}

proof fn lemma_leaves_two(a: Tree, b: Tree)
    ensures
        leaves_of(seq![a, b]) == leaves(a) + leaves(b),
{
    assert(seq![a, b] =~= seq![a] + seq![b]);
    lemma_leaves_concat(seq![a], seq![b]);
    lemma_leaves_single(a);
    lemma_leaves_single(b);
}

proof fn lemma_leaves_three(a: Tree, b: Tree, c: Tree)
    ensures
        leaves_of(seq![a, b, c]) == leaves(a) + leaves(b) + leaves(c),
{
    assert(seq![a, b, c] =~= seq![a, b] + seq![c]);
    lemma_leaves_concat(seq![a, b], seq![c]);
    lemma_leaves_two(a, b);
    lemma_leaves_single(c);
}

proof fn lemma_leaves_four(a: Tree, b: Tree, c: Tree, d: Tree)
    ensures
        leaves_of(seq![a, b, c, d]) == leaves(a) + leaves(b) + leaves(c) + leaves(d),
{
    assert(seq![a, b, c, d] =~= seq![a, b, c] + seq![d]);
    lemma_leaves_concat(seq![a, b, c], seq![d]);
    lemma_leaves_three(a, b, c);
    lemma_leaves_single(d);
}

/// A token has one lexeme: where it is both `a` and `b`, they are equal.
pub proof fn lemma_text_unique(src: &str, tok: Token, a: &str, b: &str)
    requires
        text_is(src, tok, a),
        text_is(src, tok, b),
    ensures
        a@ == b@,
{
    reveal(text_is);
    encode_utf8_decode_utf8(a@);
    encode_utf8_decode_utf8(b@);
}

/// A token whose lexeme is `w`, other than `;`, is kept.
proof fn lemma_not_semi(src: &str, tok: Token, w: &str)
    requires
        text_is(src, tok, w),
        w@ != ";"@,
    ensures
        !is_semi(src, tok),
{
    if is_semi(src, tok) {
        lemma_text_unique(src, tok, w, ";");
    }
}

proof fn lemma_expect_text(t: Seq<Token>, src: &str, p: int, w: &str)
    requires
        0 <= p,
        w@ != ";"@,
    ensures
        covers(src, t, p, expect_text(t, src, p, w)),
{
    if expect_text(t, src, p, w) is Ok {
        lemma_not_semi(src, t[p], w);
        lemma_strip_one(src, t, p);
    }
}

proof fn lemma_expect_kind(t: Seq<Token>, src: &str, p: int, k: TokenType)
    requires
        0 <= p,
        k != TokenType::Punc,
        semis_are_punc(t, src),
    ensures
        covers(src, t, p, expect_kind(t, p, k)),
{
    if expect_kind(t, p, k) is Ok {
        assert(!is_semi(src, t[p]));
        lemma_strip_one(src, t, p);
    }
}

/// Literals that are not `;`.
proof fn lemma_literals_not_semi()
    ensures
        "("@ != ";"@,
        ")"@ != ";"@,
        "{"@ != ";"@,
        "}"@ != ";"@,
        "="@ != ";"@,
        ","@ != ";"@,
        "*"@ != ";"@,
        "/"@ != ";"@,
        "%"@ != ";"@,
        "+"@ != ";"@,
        "-"@ != ";"@,
        "=="@ != ";"@,
        ">"@ != ";"@,
        "<"@ != ";"@,
        ">="@ != ";"@,
        "<="@ != ";"@,
        "&&"@ != ";"@,
        "||"@ != ";"@,
        "if"@ != ";"@,
        "else"@ != ";"@,
        "while"@ != ";"@,
{
    reveal_strlit(";");
    reveal_strlit("(");
    reveal_strlit(")");
    reveal_strlit("{");
    reveal_strlit("}");
    reveal_strlit("=");
    reveal_strlit(",");
    reveal_strlit("*");
    reveal_strlit("/");
    reveal_strlit("%");
    reveal_strlit("+");
    reveal_strlit("-");
    reveal_strlit("==");
    reveal_strlit(">");
    reveal_strlit("<");
    reveal_strlit(">=");
    reveal_strlit("<=");
    reveal_strlit("&&");
    reveal_strlit("||");
    reveal_strlit("if");
    reveal_strlit("else");
    reveal_strlit("while");
    assert("("@[0] != ";"@[0]);
    assert(")"@[0] != ";"@[0]);
    assert("{"@[0] != ";"@[0]);
    assert("}"@[0] != ";"@[0]);
    assert("="@[0] != ";"@[0]);
    assert(","@[0] != ";"@[0]);
    assert("*"@[0] != ";"@[0]);
    assert("/"@[0] != ";"@[0]);
    assert("%"@[0] != ";"@[0]);
    assert("+"@[0] != ";"@[0]);
    assert("-"@[0] != ";"@[0]);
    assert("=="@[0] != ";"@[0]);
    assert(">"@[0] != ";"@[0]);
    assert("<"@[0] != ";"@[0]);
    assert(">="@[0] != ";"@[0]);
    assert("<="@[0] != ";"@[0]);
    assert("&&"@[0] != ";"@[0]);
    assert("||"@[0] != ";"@[0]);
    assert("if"@[0] != ";"@[0]);
    assert("else"@[0] != ";"@[0]);
    assert("while"@[0] != ";"@[0]);
}

/// An operator token is kept.
proof fn lemma_op_not_semi(t: Seq<Token>, src: &str, q: int)
    requires
        is_op0_at(t, src, q) || is_op1_at(t, src, q) || is_op2_at(t, src, q) || is_op3_at(
            t,
            src,
            q,
        ),
    ensures
        !is_semi(src, t[q]),
{
    lemma_literals_not_semi();
    if is_semi(src, t[q]) {
        if text_is(src, t[q], "*") {
            lemma_text_unique(src, t[q], "*", ";");
        } else if text_is(src, t[q], "/") {
            lemma_text_unique(src, t[q], "/", ";");
        } else if text_is(src, t[q], "%") {
            lemma_text_unique(src, t[q], "%", ";");
        } else if text_is(src, t[q], "+") {
            lemma_text_unique(src, t[q], "+", ";");
        } else if text_is(src, t[q], "-") {
            lemma_text_unique(src, t[q], "-", ";");
        } else if text_is(src, t[q], "==") {
            lemma_text_unique(src, t[q], "==", ";");
        } else if text_is(src, t[q], ">") {
            lemma_text_unique(src, t[q], ">", ";");
        } else if text_is(src, t[q], "<") {
            lemma_text_unique(src, t[q], "<", ";");
        } else if text_is(src, t[q], ">=") {
            lemma_text_unique(src, t[q], ">=", ";");
        } else if text_is(src, t[q], "<=") {
            lemma_text_unique(src, t[q], "<=", ";");
        } else if text_is(src, t[q], "&&") {
            lemma_text_unique(src, t[q], "&&", ";");
        } else {
            lemma_text_unique(src, t[q], "||", ";");
        }
    }
}

/// A binary rule: `a` from `p` to `p + c`, the operator at `p + c`, and `b`
/// after it.
proof fn lemma_binary(
    src: &str,
    t: Seq<Token>,
    p: int,
    c: int,
    c2: int,
    a: Tree,
    b: Tree,
)
    requires
        0 <= p,
        0 < c,
        0 < c2,
        p + c + 1 + c2 <= t.len(),
        !is_semi(src, t[p + c]),
        leaves(a) == strip_semis(src, t.subrange(p, p + c)),
        leaves(b) == strip_semis(src, t.subrange(p + c + 1, p + c + 1 + c2)),
    ensures
        leaves_of(seq![a, Tree::Leaf(t[p + c]), b]) == strip_semis(
            src,
            t.subrange(p, p + c + 1 + c2),
        ),
{
    lemma_leaves_three(a, Tree::Leaf(t[p + c]), b);
    lemma_strip_split(src, t, p, p + c, p + c + 1 + c2);
    lemma_strip_split(src, t, p + c, p + c + 1, p + c + 1 + c2);
    lemma_strip_one(src, t, p + c);
    assert(leaves(Tree::Leaf(t[p + c])) == seq![t[p + c]]);
    assert(strip_semis(src, t.subrange(p, p + c)) + (seq![t[p + c]] + strip_semis(
        src,
        t.subrange(p + c + 1, p + c + 1 + c2),
    )) =~= strip_semis(src, t.subrange(p, p + c)) + seq![t[p + c]] + strip_semis(
        src,
        t.subrange(p + c + 1, p + c + 1 + c2),
    ));
}

/// Consecutive pieces: the tokens from `a` to `c`, less the `;`, are those
/// from `a` to `b` followed by those from `b` to `c`.
proof fn lemma_join(src: &str, t: Seq<Token>, a: int, b: int, c: int, x: Seq<Token>, y: Seq<Token>)
    requires
        0 <= a <= b <= c <= t.len(),
        x == strip_semis(src, t.subrange(a, b)),
        y == strip_semis(src, t.subrange(b, c)),
    ensures
        x + y == strip_semis(src, t.subrange(a, c)),
{
    lemma_strip_split(src, t, a, b, c);
}

/// The terminals of `f ( list )` where the list runs from `p + 2` to
/// `p + 2 + c1`.
proof fn lemma_call_pieces(src: &str, t: Seq<Token>, p: int, c1: int, pl: Tree)
    requires
        0 <= p,
        0 <= c1,
        p + 3 + c1 <= t.len(),
        !is_semi(src, t[p]),
        !is_semi(src, t[p + 1]),
        !is_semi(src, t[p + 2 + c1]),
        leaves(pl) == strip_semis(src, t.subrange(p + 2, p + 2 + c1)),
    ensures
        leaves_of(seq![Tree::Leaf(t[p]), Tree::Leaf(t[p + 1]), pl, Tree::Leaf(t[p + 2 + c1])])
            == strip_semis(src, t.subrange(p, p + 3 + c1)),
{
    let (id, lp, rp) = (Tree::Leaf(t[p]), Tree::Leaf(t[p + 1]), Tree::Leaf(t[p + 2 + c1]));
    lemma_leaves_four(id, lp, pl, rp);
    lemma_strip_one(src, t, p);
    lemma_strip_one(src, t, p + 1);
    lemma_strip_one(src, t, p + 2 + c1);
    lemma_join(src, t, p, p + 1, p + 2, leaves(id), leaves(lp));
    lemma_join(src, t, p, p + 2, p + 2 + c1, leaves(id) + leaves(lp), leaves(pl));
    lemma_join(
        src,
        t,
        p,
        p + 2 + c1,
        p + 3 + c1,
        leaves(id) + leaves(lp) + leaves(pl),
        leaves(rp),
    );
}

proof fn lemma_function_call(t: Seq<Token>, src: &str, p: int)
    requires
        0 <= p,
        semis_are_punc(t, src),
    ensures
        covers(src, t, p, spec_function_call(t, src, p)),
    decreases remaining(t, p), 1nat,
{
    if let Ok((tree, c)) = spec_function_call(t, src, p) {
        lemma_literals_not_semi();
        assert(t[p].token_type == TokenType::Ident);
        assert(text_is(src, t[p + 1], "("));
        lemma_parameter_list(t, src, p + 2);
        let (pl, c1) = spec_parameter_list(t, src, p + 2)->Ok_0;
        assert(text_is(src, t[p + 2 + c1], ")"));
        lemma_not_semi(src, t[p + 1], "(");
        lemma_not_semi(src, t[p + 2 + c1], ")");
        lemma_call_pieces(src, t, p, c1 as int, pl);
    }
}

proof fn lemma_atom(t: Seq<Token>, src: &str, p: int)
    requires
        0 <= p,
        semis_are_punc(t, src),
    ensures
        covers(src, t, p, spec_atom(t, src, p)),
    decreases remaining(t, p), 2nat,
{
    if let Ok((tree, c)) = spec_atom(t, src, p) {
        let k = t[p].token_type;
        if k == TokenType::Ident && at_text(t, src, p + 1, "(") {
            lemma_function_call(t, src, p);
            lemma_leaves_single(spec_function_call(t, src, p)->Ok_0.0);
        } else {
            assert(!is_semi(src, t[p]));
            lemma_strip_one(src, t, p);
            lemma_leaves_single(Tree::Leaf(t[p]));
        }
    }
}

proof fn lemma_term0(t: Seq<Token>, src: &str, p: int)
    requires
        0 <= p,
        semis_are_punc(t, src),
    ensures
        covers(src, t, p, spec_term0(t, src, p)),
    decreases remaining(t, p), 3nat,
{
    if let Ok((tree, c)) = spec_term0(t, src, p) {
        lemma_atom(t, src, p);
        let (a, ca) = spec_atom(t, src, p)->Ok_0;
        if is_op0_at(t, src, p + ca) {
            lemma_term0(t, src, p + ca + 1);
            let (b, cb) = spec_term0(t, src, p + ca + 1)->Ok_0;
            lemma_op_not_semi(t, src, p + ca);
            lemma_binary(src, t, p, ca as int, cb as int, a, b);
        } else {
            lemma_leaves_single(a);
        }
    }
}

proof fn lemma_term1(t: Seq<Token>, src: &str, p: int)
    requires
        0 <= p,
        semis_are_punc(t, src),
    ensures
        covers(src, t, p, spec_term1(t, src, p)),
    decreases remaining(t, p), 4nat,
{
    if let Ok((tree, c)) = spec_term1(t, src, p) {
        lemma_term0(t, src, p);
        let (a, ca) = spec_term0(t, src, p)->Ok_0;
        if is_op1_at(t, src, p + ca) {
            lemma_term1(t, src, p + ca + 1);
            let (b, cb) = spec_term1(t, src, p + ca + 1)->Ok_0;
            lemma_op_not_semi(t, src, p + ca);
            lemma_binary(src, t, p, ca as int, cb as int, a, b);
        } else {
            lemma_leaves_single(a);
        }
    }
}

proof fn lemma_term2(t: Seq<Token>, src: &str, p: int)
    requires
        0 <= p,
        semis_are_punc(t, src),
    ensures
        covers(src, t, p, spec_term2(t, src, p)),
    decreases remaining(t, p), 5nat,
{
    if let Ok((tree, c)) = spec_term2(t, src, p) {
        lemma_term1(t, src, p);
        let (a, ca) = spec_term1(t, src, p)->Ok_0;
        if is_op2_at(t, src, p + ca) {
            lemma_term2(t, src, p + ca + 1);
            let (b, cb) = spec_term2(t, src, p + ca + 1)->Ok_0;
            lemma_op_not_semi(t, src, p + ca);
            lemma_binary(src, t, p, ca as int, cb as int, a, b);
        } else {
            lemma_leaves_single(a);
        }
    }
}

proof fn lemma_expression(t: Seq<Token>, src: &str, p: int)
    requires
        0 <= p,
        semis_are_punc(t, src),
    ensures
        covers(src, t, p, spec_expression(t, src, p)),
    decreases remaining(t, p), 6nat,
{
    if let Ok((tree, c)) = spec_expression(t, src, p) {
        lemma_term2(t, src, p);
        let (a, ca) = spec_term2(t, src, p)->Ok_0;
        if is_op3_at(t, src, p + ca) {
            lemma_expression(t, src, p + ca + 1);
            let (b, cb) = spec_expression(t, src, p + ca + 1)->Ok_0;
            lemma_op_not_semi(t, src, p + ca);
            lemma_binary(src, t, p, ca as int, cb as int, a, b);
        } else {
            lemma_leaves_single(a);
        }
    }
}

/// One tree from `p` to `p + c` in front of trees from `p + c` on.
proof fn lemma_prepend(
    src: &str,
    t: Seq<Token>,
    p: int,
    c: int,
    c2: int,
    n: Tree,
    xs: Seq<Tree>,
)
    requires
        0 <= p,
        0 <= c,
        0 <= c2,
        p + c + c2 <= t.len(),
        leaves(n) == strip_semis(src, t.subrange(p, p + c)),
        leaves_of(xs) == strip_semis(src, t.subrange(p + c, p + c + c2)),
    ensures
        leaves_of(seq![n] + xs) == strip_semis(src, t.subrange(p, p + c + c2)),
{
    lemma_leaves_concat(seq![n], xs);
    lemma_leaves_single(n);
    lemma_join(src, t, p, p + c, p + c + c2, leaves(n), leaves_of(xs));
}

proof fn lemma_parameter_items(t: Seq<Token>, src: &str, p: int)
    requires
        0 <= p,
        semis_are_punc(t, src),
    ensures
        covers_seq(src, t, p, spec_parameter_items(t, src, p)),
    decreases remaining(t, p), 7nat,
{
    if let Ok((xs, c)) = spec_parameter_items(t, src, p) {
        lemma_literals_not_semi();
        if text_is(src, t[p], ")") {
            assert(t.subrange(p, p) =~= Seq::<Token>::empty());
            assert(leaves_of(xs) == Seq::<Token>::empty());
        } else if text_is(src, t[p], ",") {
            lemma_parameter_items(t, src, p + 1);
            let (ys, c2) = spec_parameter_items(t, src, p + 1)->Ok_0;
            lemma_not_semi(src, t[p], ",");
            lemma_strip_one(src, t, p);
            lemma_prepend(src, t, p, 1, c2 as int, Tree::Leaf(t[p]), ys);
        } else {
            lemma_expression(t, src, p);
            let (e, ce) = spec_expression(t, src, p)->Ok_0;
            lemma_parameter_items(t, src, p + ce);
            let (ys, c2) = spec_parameter_items(t, src, p + ce)->Ok_0;
            lemma_prepend(src, t, p, ce as int, c2 as int, e, ys);
        }
    }
}

proof fn lemma_parameter_list(t: Seq<Token>, src: &str, p: int)
    requires
        0 <= p,
        semis_are_punc(t, src),
    ensures
        covers_any(src, t, p, spec_parameter_list(t, src, p)),
    decreases remaining(t, p), 8nat,
{
    lemma_parameter_items(t, src, p);
}

proof fn lemma_declaration(t: Seq<Token>, src: &str, p: int)
    requires
        0 <= p,
        semis_are_punc(t, src),
    ensures
        covers(src, t, p, spec_declaration(t, src, p)),
{
    if let Ok((tree, c)) = spec_declaration(t, src, p) {
        lemma_literals_not_semi();
        lemma_expect_kind(t, src, p, TokenType::CoreType);
        lemma_expect_kind(t, src, p + 1, TokenType::Ident);
        lemma_expect_text(t, src, p + 2, "=");
        lemma_expression(t, src, p + 3);
        let (e, ce) = spec_expression(t, src, p + 3)->Ok_0;
        let (ty, id, eq) = (Tree::Leaf(t[p]), Tree::Leaf(t[p + 1]), Tree::Leaf(t[p + 2]));
        lemma_leaves_four(ty, id, eq, e);
        lemma_join(src, t, p, p + 1, p + 2, leaves(ty), leaves(id));
        lemma_join(src, t, p, p + 2, p + 3, leaves(ty) + leaves(id), leaves(eq));
        lemma_join(src, t, p, p + 3, p + 3 + ce, leaves(ty) + leaves(id) + leaves(eq), leaves(e));
    }
}

proof fn lemma_assignment(t: Seq<Token>, src: &str, p: int)
    requires
        0 <= p,
        semis_are_punc(t, src),
    ensures
        covers(src, t, p, spec_assignment(t, src, p)),
{
    if let Ok((tree, c)) = spec_assignment(t, src, p) {
        lemma_literals_not_semi();
        lemma_expect_kind(t, src, p, TokenType::Ident);
        lemma_expect_text(t, src, p + 1, "=");
        lemma_expression(t, src, p + 2);
        let (e, ce) = spec_expression(t, src, p + 2)->Ok_0;
        let (id, eq) = (Tree::Leaf(t[p]), Tree::Leaf(t[p + 1]));
        lemma_leaves_three(id, eq, e);
        lemma_join(src, t, p, p + 1, p + 2, leaves(id), leaves(eq));
        lemma_join(src, t, p, p + 2, p + 2 + ce, leaves(id) + leaves(eq), leaves(e));
    }
}

proof fn lemma_stmt(t: Seq<Token>, src: &str, p: int)
    requires
        0 <= p,
        semis_are_punc(t, src),
    ensures
        covers(src, t, p, spec_stmt(t, src, p)),
{
    reveal(spec_stmt);
    if let Ok((tree, c)) = spec_stmt(t, src, p) {
        if t[p].token_type == TokenType::Ident {
            if text_is(src, t[p + 1], "(") {
                lemma_function_call(t, src, p);
                lemma_leaves_single(spec_function_call(t, src, p)->Ok_0.0);
            } else {
                lemma_assignment(t, src, p);
                lemma_leaves_single(spec_assignment(t, src, p)->Ok_0.0);
            }
        } else {
            lemma_declaration(t, src, p);
            lemma_leaves_single(spec_declaration(t, src, p)->Ok_0.0);
        }
    }
}

proof fn lemma_condition(t: Seq<Token>, src: &str, p: int)
    requires
        0 <= p,
        semis_are_punc(t, src),
    ensures
        spec_condition(t, src, p) matches Ok((xs, c)) ==> {
            &&& 0 < c
            &&& p + c <= t.len()
            &&& leaves_of(xs) == strip_semis(src, t.subrange(p, p + c))
        },
{
    reveal(spec_condition);
    if let Ok((xs, c)) = spec_condition(t, src, p) {
        lemma_literals_not_semi();
        lemma_expect_text(t, src, p, "(");
        lemma_expression(t, src, p + 1);
        let (e, ce) = spec_expression(t, src, p + 1)->Ok_0;
        lemma_expect_text(t, src, p + 1 + ce, ")");
        let (lp, rp) = (Tree::Leaf(t[p]), Tree::Leaf(t[p + 1 + ce]));
        lemma_leaves_three(lp, e, rp);
        lemma_join(src, t, p, p + 1, p + 1 + ce, leaves(lp), leaves(e));
        lemma_join(src, t, p, p + 1 + ce, p + 2 + ce, leaves(lp) + leaves(e), leaves(rp));
    }
}

/// Trees `xs` from `a` to `b` followed by trees `ys` from `b` to `c`.
proof fn lemma_append(src: &str, t: Seq<Token>, a: int, b: int, c: int, xs: Seq<Tree>, ys: Seq<Tree>)
    requires
        0 <= a <= b <= c <= t.len(),
        leaves_of(xs) == strip_semis(src, t.subrange(a, b)),
        leaves_of(ys) == strip_semis(src, t.subrange(b, c)),
    ensures
        leaves_of(xs + ys) == strip_semis(src, t.subrange(a, c)),
{
    lemma_leaves_concat(xs, ys);
    lemma_join(src, t, a, b, c, leaves_of(xs), leaves_of(ys));
}

/// The single terminal for the token at `a`, which is not `;`.
proof fn lemma_leaf_at(src: &str, t: Seq<Token>, a: int)
    requires
        0 <= a < t.len(),
        !is_semi(src, t[a]),
    ensures
        leaves_of(seq![Tree::Leaf(t[a])]) == strip_semis(src, t.subrange(a, a + 1)),
{
    lemma_leaves_single(Tree::Leaf(t[a]));
    lemma_strip_one(src, t, a);
}

proof fn lemma_block(t: Seq<Token>, src: &str, p: int)
    requires
        0 <= p,
        semis_are_punc(t, src),
    ensures
        spec_block(t, src, p) matches Ok((xs, c)) ==> {
            &&& 0 < c
            &&& p + c <= t.len()
            &&& leaves_of(xs) == strip_semis(src, t.subrange(p, p + c))
        },
    decreases remaining(t, p), 10nat,
{
    reveal(spec_block);
    if let Ok((xs, c)) = spec_block(t, src, p) {
        lemma_literals_not_semi();
        assert(text_is(src, t[p], "{"));
        lemma_program(t, src, p + 1);
        let (body, cb) = spec_program(t, src, p + 1)->Ok_0;
        assert(text_is(src, t[p + 1 + cb], "}"));
        lemma_not_semi(src, t[p], "{");
        lemma_not_semi(src, t[p + 1 + cb], "}");
        lemma_leaf_at(src, t, p);
        lemma_leaf_at(src, t, p + 1 + cb);
        lemma_leaves_single(body);
        lemma_append(src, t, p, p + 1, p + 1 + cb, seq![Tree::Leaf(t[p])], seq![body]);
        lemma_append(
            src,
            t,
            p,
            p + 1 + cb,
            p + 2 + cb,
            seq![Tree::Leaf(t[p])] + seq![body],
            seq![Tree::Leaf(t[p + 1 + cb])],
        );
        assert(seq![Tree::Leaf(t[p])] + seq![body] + seq![Tree::Leaf(t[p + 1 + cb])] =~= xs);
    }
}

/// A control from `p`: its keyword, a condition of `c1` tokens and a block
/// of `c2` tokens.
proof fn lemma_control_head(
    src: &str,
    t: Seq<Token>,
    p: int,
    c1: int,
    c2: int,
    cond: Seq<Tree>,
    body: Seq<Tree>,
)
    requires
        0 <= p,
        0 <= c1,
        0 <= c2,
        p + 1 + c1 + c2 <= t.len(),
        !is_semi(src, t[p]),
        leaves_of(cond) == strip_semis(src, t.subrange(p + 1, p + 1 + c1)),
        leaves_of(body) == strip_semis(src, t.subrange(p + 1 + c1, p + 1 + c1 + c2)),
    ensures
        leaves_of(seq![Tree::Leaf(t[p])] + cond + body) == strip_semis(
            src,
            t.subrange(p, p + 1 + c1 + c2),
        ),
{
    lemma_leaf_at(src, t, p);
    lemma_append(src, t, p, p + 1, p + 1 + c1, seq![Tree::Leaf(t[p])], cond);
    lemma_append(src, t, p, p + 1 + c1, p + 1 + c1 + c2, seq![Tree::Leaf(t[p])] + cond, body);
}

proof fn lemma_if(t: Seq<Token>, src: &str, p: int)
    requires
        0 <= p,
        semis_are_punc(t, src),
        at_text(t, src, p, "if"),
    ensures
        covers(src, t, p, spec_if(t, src, p)),
    decreases remaining(t, p), 11nat,
{
    reveal(spec_if);
    reveal(spec_block);
    if let Ok((tree, c)) = spec_if(t, src, p) {
        lemma_literals_not_semi();
        lemma_not_semi(src, t[p], "if");
        lemma_condition(t, src, p + 1);
        let (cond, c1) = spec_condition(t, src, p + 1)->Ok_0;
        lemma_block(t, src, p + 1 + c1);
        let (body, c2) = spec_block(t, src, p + 1 + c1)->Ok_0;
        lemma_control_head(src, t, p, c1 as int, c2 as int, cond, body);
        let head = seq![Tree::Leaf(t[p])] + cond + body;
        let q = p + 1 + c1 + c2;
        if at_text(t, src, q, "else") {
            lemma_not_semi(src, t[q], "else");
            lemma_block(t, src, q + 1);
            let (body2, c3) = spec_block(t, src, q + 1)->Ok_0;
            lemma_leaf_at(src, t, q);
            lemma_append(src, t, p, q, q + 1, head, seq![Tree::Leaf(t[q])]);
            lemma_append(src, t, p, q + 1, q + 1 + c3, head + seq![Tree::Leaf(t[q])], body2);
        }
    }
}

proof fn lemma_while(t: Seq<Token>, src: &str, p: int)
    requires
        0 <= p,
        semis_are_punc(t, src),
        at_text(t, src, p, "while"),
    ensures
        covers(src, t, p, spec_while(t, src, p)),
    decreases remaining(t, p), 11nat,
{
    reveal(spec_while);
    reveal(spec_block);
    if let Ok((tree, c)) = spec_while(t, src, p) {
        lemma_literals_not_semi();
        lemma_not_semi(src, t[p], "while");
        lemma_condition(t, src, p + 1);
        let (cond, c1) = spec_condition(t, src, p + 1)->Ok_0;
        lemma_block(t, src, p + 1 + c1);
        let (body, c2) = spec_block(t, src, p + 1 + c1)->Ok_0;
        lemma_control_head(src, t, p, c1 as int, c2 as int, cond, body);
    }
}

/// A statement from `p` to `p + c`, its `;`, which is dropped, and trees
/// `ys` after it.
proof fn lemma_statement_then(
    src: &str,
    t: Seq<Token>,
    p: int,
    c: int,
    c2: int,
    n: Tree,
    ys: Seq<Tree>,
)
    requires
        0 <= p,
        0 <= c,
        0 <= c2,
        p + c + 1 + c2 <= t.len(),
        is_semi(src, t[p + c]),
        leaves(n) == strip_semis(src, t.subrange(p, p + c)),
        leaves_of(ys) == strip_semis(src, t.subrange(p + c + 1, p + c + 1 + c2)),
    ensures
        leaves_of(seq![n] + ys) == strip_semis(src, t.subrange(p, p + c + 1 + c2)),
{
    lemma_strip_one(src, t, p + c);
    lemma_leaves_single(n);
    lemma_join(src, t, p, p + c, p + c + 1, leaves(n), Seq::<Token>::empty());
    assert(leaves(n) + Seq::<Token>::empty() =~= leaves(n));
    lemma_append(src, t, p, p + c + 1, p + c + 1 + c2, seq![n], ys);
}

proof fn lemma_program_items(t: Seq<Token>, src: &str, p: int)
    requires
        0 <= p <= t.len(),
        semis_are_punc(t, src),
    ensures
        covers_seq(src, t, p, spec_program_items(t, src, p)),
    decreases remaining(t, p), 12nat,
{
    if let Ok((xs, c)) = spec_program_items(t, src, p) {
        if p >= t.len() || text_is(src, t[p], "}") {
            lemma_program_items_end(t, src, p);
            assert(t.subrange(p, p) =~= Seq::<Token>::empty());
            assert(leaves_of(xs) == Seq::<Token>::empty());
        } else {
            lemma_program_items_step_view(t, src, p);
            if text_is(src, t[p], "if") || text_is(src, t[p], "while") {
                let r = if text_is(src, t[p], "if") {
                    lemma_if(t, src, p);
                    spec_if(t, src, p)
                } else {
                    lemma_while(t, src, p);
                    spec_while(t, src, p)
                };
                let (n, cn) = r->Ok_0;
                lemma_program_items(t, src, p + cn);
                let (ys, c2) = spec_program_items(t, src, p + cn)->Ok_0;
                lemma_prepend(src, t, p, cn as int, c2 as int, n, ys);
            } else {
                lemma_stmt(t, src, p);
                let (n, cn) = spec_stmt(t, src, p)->Ok_0;
                assert(text_is(src, t[p + cn], ";"));
                lemma_program_items(t, src, p + cn + 1);
                let (ys, c2) = spec_program_items(t, src, p + cn + 1)->Ok_0;
                lemma_statement_then(src, t, p, cn as int, c2 as int, n, ys);
            }
        }
    }
}

/// Where a program's items end.
proof fn lemma_program_items_end(t: Seq<Token>, src: &str, p: int)
    requires
        0 <= p,
        p >= t.len() || text_is(src, t[p], "}"),
    ensures
        spec_program_items(t, src, p) == Ok::<(Seq<Tree>, nat), crate::parse::ParseFault>(
            (seq![], 0),
        ),
{
}

/// One step of the definition of `spec_program_items`, seen from here.
proof fn lemma_program_items_step_view(t: Seq<Token>, src: &str, p: int)
    requires
        0 <= p < t.len(),
        !text_is(src, t[p], "}"),
    ensures
        spec_program_items(t, src, p) == if text_is(src, t[p], "if") || text_is(
            src,
            t[p],
            "while",
        ) {
            let r = if text_is(src, t[p], "if") {
                spec_if(t, src, p)
            } else {
                spec_while(t, src, p)
            };
            match r {
                Err(f) => Err(f),
                Ok((n, c)) => if 0 < c {
                    after_trees(seq![n], c, spec_program_items(t, src, p + c))
                } else {
                    Ok((seq![n], c))
                },
            }
        } else {
            match spec_stmt(t, src, p) {
                Err(f) => Err(f),
                Ok((n, c)) => match expect_text(t, src, p + c, ";") {
                    Err(f) => Err(f),
                    Ok(_) => after_trees(seq![n], c + 1, spec_program_items(t, src, p + c + 1)),
                },
            }
        },
{
    reveal(spec_if);
    reveal(spec_while);
    reveal(spec_stmt);
}

proof fn lemma_program(t: Seq<Token>, src: &str, p: int)
    requires
        0 <= p <= t.len(),
        semis_are_punc(t, src),
    ensures
        covers_any(src, t, p, spec_program(t, src, p)),
    decreases remaining(t, p), 13nat,
{
    lemma_program_items(t, src, p);
}

/// The terminals of the tree that `parse` builds are all the tokens, in
/// order, less the `;` that end statements, where every `;` token is
/// punctuation (as the lexer makes it).
pub proof fn lemma_parse_leaves(t: Seq<Token>, src: &str)
    requires
        semis_are_punc(t, src),
        spec_parse(t, src) is Ok,
    ensures
        leaves(spec_parse(t, src)->Ok_0) == strip_semis(src, t),
{
    lemma_program(t, src, 0);
    assert(t.subrange(0, t.len() as int) =~= t);
}

/// Every token that the lexer yields with the lexeme `;` is punctuation.
pub proof fn lemma_lexed_semis_are_punc(src: &str, file: Seq<char>)
    requires
        src.spec_bytes().len() <= usize::MAX,
        lex_result(src@, file) is Ok,
    ensures
        semis_are_punc(lex_result(src@, file)->Ok_0, src),
{
    let s = src@;
    let toks = lex_result(s, file)->Ok_0;
    lemma_lex_from_bounds(s, 0, 0);
    assert forall|k: int| 0 <= k < toks.len() && #[trigger] is_semi(src, toks[k]) implies toks[k].token_type
        == TokenType::Punc by {
        lemma_token_slices(s, file, k);
        let x = lexemes(s)->Ok_0[k];
        let tok = toks[k];
        reveal(text_is);
        encode_utf8_decode_utf8(s.subrange(x.start, x.end));
        encode_utf8_decode_utf8(";"@);
        assert(s.subrange(x.start, x.end) == ";"@);
        reveal_strlit(";");
        assert(s[x.start] == s.subrange(x.start, x.end)[0]);
        assert(s[x.start] == ';');
        assert(scan_token(s, x.start) == Scan::Match(x.kind, x.end));
    }
}

/// What lexing and then parsing keeps of a source: the terminals of the
/// tree, left to right, are the lexed tokens less the `;` that end
/// statements; and, where no lexeme holds a blank character (only a string
/// literal can), the lexemes of those tokens, joined, are the source without
/// its blank characters.
pub proof fn lemma_front_end_keeps_source(src: &str, file: Seq<char>)
    requires
        src.spec_bytes().len() <= usize::MAX,
        lex_result(src@, file) is Ok,
        spec_parse(lex_result(src@, file)->Ok_0, src) is Ok,
    ensures
        leaves(spec_parse(lex_result(src@, file)->Ok_0, src)->Ok_0) == strip_semis(
            src,
            lex_result(src@, file)->Ok_0,
        ),
        lexemes_unblank(src@, lexemes(src@)->Ok_0) ==> joined(src@, lexemes(src@)->Ok_0)
            == squeeze(src@),
{
    lemma_lexed_semis_are_punc(src, file);
    lemma_parse_leaves(lex_result(src@, file)->Ok_0, src);
    if lexemes_unblank(src@, lexemes(src@)->Ok_0) {
        lemma_lexemes_rebuild_source(src@);
    }
}

/// Whether the token before position `e` has the lexeme `;` or `}`.
pub open spec fn closed_at(t: Seq<Token>, src: &str, e: int) -> bool {
    text_is(src, t[e - 1], ";") || text_is(src, t[e - 1], "}")
}

proof fn lemma_block_ends(t: Seq<Token>, src: &str, p: int)
    requires
        0 <= p,
    ensures
        spec_block(t, src, p) matches Ok((xs, c)) ==> 0 < c && p + c <= t.len() && text_is(
            src,
            t[p + c - 1],
            "}",
        ),
{
    reveal(spec_block);
}

proof fn lemma_if_ends(t: Seq<Token>, src: &str, p: int)
    requires
        0 <= p,
    ensures
        spec_if(t, src, p) matches Ok((n, c)) ==> 0 < c && p + c <= t.len() && closed_at(
            t,
            src,
            p + c,
        ),
{
    reveal(spec_if);
    reveal(spec_block);
    if let Ok((n, c)) = spec_if(t, src, p) {
        let (cond, c1) = spec_condition(t, src, p + 1)->Ok_0;
        lemma_block_ends(t, src, p + 1 + c1);
        let (body, c2) = spec_block(t, src, p + 1 + c1)->Ok_0;
        let q = p + 1 + c1 + c2;
        if at_text(t, src, q, "else") {
            lemma_block_ends(t, src, q + 1);
        }
    }
}

proof fn lemma_while_ends(t: Seq<Token>, src: &str, p: int)
    requires
        0 <= p,
    ensures
        spec_while(t, src, p) matches Ok((n, c)) ==> 0 < c && p + c <= t.len() && closed_at(
            t,
            src,
            p + c,
        ),
{
    reveal(spec_while);
    reveal(spec_block);
    if let Ok((n, c)) = spec_while(t, src, p) {
        let (cond, c1) = spec_condition(t, src, p + 1)->Ok_0;
        lemma_block_ends(t, src, p + 1 + c1);
    }
}

proof fn lemma_program_items_end_closed(t: Seq<Token>, src: &str, p: int)
    requires
        0 <= p <= t.len(),
    ensures
        spec_program_items(t, src, p) matches Ok((xs, c)) ==> p + c <= t.len() && (c > 0
            ==> closed_at(t, src, p + c)),
    decreases remaining(t, p),
{
    if let Ok((xs, c)) = spec_program_items(t, src, p) {
        if p >= t.len() || text_is(src, t[p], "}") {
            lemma_program_items_end(t, src, p);
        } else {
            lemma_program_items_step_view(t, src, p);
            if text_is(src, t[p], "if") || text_is(src, t[p], "while") {
                if text_is(src, t[p], "if") {
                    lemma_if_ends(t, src, p);
                } else {
                    lemma_while_ends(t, src, p);
                }
                let cn = if text_is(src, t[p], "if") {
                    spec_if(t, src, p)->Ok_0.1
                } else {
                    spec_while(t, src, p)->Ok_0.1
                };
                lemma_program_items_end_closed(t, src, p + cn);
            } else {
                let cn = spec_stmt(t, src, p)->Ok_0.1;
                lemma_program_items_end_closed(t, src, p + cn + 1);
            }
        }
    }
}

/// A token sequence that parses ends with `;` or `}`.
pub proof fn lemma_parse_ends_closed(t: Seq<Token>, src: &str)
    requires
        spec_parse(t, src) is Ok,
    ensures
        text_is(src, t.last(), ";") || text_is(src, t.last(), "}"),
{
    lemma_program_items_end_closed(t, src, 0);
}

/// A token sequence that ends with an unclosed `(` or `{` fails to parse.
pub proof fn lemma_unclosed_fails(t: Seq<Token>, src: &str)
    requires
        t.len() > 0,
        text_is(src, t.last(), "(") || text_is(src, t.last(), "{"),
    ensures
        spec_parse(t, src) is Err,
{
    if spec_parse(t, src) is Ok {
        lemma_parse_ends_closed(t, src);
        reveal_strlit(";");
        reveal_strlit("}");
        reveal_strlit("(");
        reveal_strlit("{");
        assert(";"@[0] != "("@[0] && ";"@[0] != "{"@[0]);
        assert("}"@[0] != "("@[0] && "}"@[0] != "{"@[0]);
        if text_is(src, t.last(), "(") {
            if text_is(src, t.last(), ";") {
                lemma_text_unique(src, t.last(), "(", ";");
            } else {
                lemma_text_unique(src, t.last(), "(", "}");
            }
        } else {
            if text_is(src, t.last(), ";") {
                lemma_text_unique(src, t.last(), "{", ";");
            } else {
                lemma_text_unique(src, t.last(), "{", "}");
            }
        }
    }
}

/// Whether the start offsets of `ts` strictly increase.
pub open spec fn starts_increase(ts: Seq<Token>) -> bool {
    forall|a: int, b: int|
        0 <= a < b < ts.len() ==> #[trigger] ts[a].start.0 < #[trigger] ts[b].start.0
}

/// Whether every token of `us` is one of `ts`.
pub open spec fn drawn_from(us: Seq<Token>, ts: Seq<Token>) -> bool {
    forall|i: int| 0 <= i < us.len() ==> exists|j: int| 0 <= j < ts.len() && #[trigger] ts[j] == #[trigger] us[i]
}

proof fn lemma_chain(ts: Seq<Token>, a: int, b: int)
    requires
        0 <= a < b < ts.len(),
        forall|k: int|
            0 <= k < ts.len() ==> (#[trigger] ts[k]).start.0 < ts[k].end.0 && (k + 1 < ts.len()
                ==> ts[k].end.0 <= ts[k + 1].start.0),
    ensures
        ts[a].start.0 < ts[b].start.0,
    decreases b - a,
{
    let t0 = ts[b - 1];
    if a < b - 1 {
        lemma_chain(ts, a, b - 1);
    }
}

proof fn lemma_strip_keeps_order(src: &str, ts: Seq<Token>)
    requires
        starts_increase(ts),
    ensures
        starts_increase(strip_semis(src, ts)),
        drawn_from(strip_semis(src, ts), ts),
    decreases ts.len(),
{
    if ts.len() > 0 {
        let rest = ts.drop_first();
        assert forall|a: int, b: int| 0 <= a < b < rest.len() implies #[trigger] rest[a].start.0
            < #[trigger] rest[b].start.0 by {
            assert(rest[a] == ts[a + 1] && rest[b] == ts[b + 1]);
        }
        lemma_strip_keeps_order(src, rest);
        let sr = strip_semis(src, rest);
        assert forall|i: int| 0 <= i < sr.len() implies exists|j: int|
            0 <= j < ts.len() && #[trigger] ts[j] == #[trigger] sr[i] by {
            let j = choose|j: int| 0 <= j < rest.len() && #[trigger] rest[j] == #[trigger] sr[i];
            assert(ts[j + 1] == sr[i]);
        }
        if !is_semi(src, ts[0]) {
            let us = seq![ts[0]] + sr;
            assert forall|i: int| 0 <= i < us.len() implies exists|j: int|
                0 <= j < ts.len() && #[trigger] ts[j] == #[trigger] us[i] by {
                if i == 0 {
                    assert(ts[0] == us[0]);
                } else {
                    assert(us[i] == sr[i - 1]);
                }
            }
            assert forall|a: int, b: int| 0 <= a < b < us.len() implies #[trigger] us[a].start.0
                < #[trigger] us[b].start.0 by {
                assert(us[b] == sr[b - 1]);
                let j = choose|j: int| 0 <= j < ts.len() && #[trigger] ts[j] == #[trigger] sr[b - 1];
                if a == 0 {
                    assert(us[0] == ts[0]);
                    assert(j > 0) by {
                        let j2 = choose|j2: int| 0 <= j2 < rest.len() && #[trigger] rest[j2]
                            == #[trigger] sr[b - 1];
                        assert(ts[j2 + 1] == sr[b - 1]);
                        assert(ts[j2 + 1].start.0 > ts[0].start.0);
                    }
                } else {
                    assert(us[a] == sr[a - 1]);
                }
            }
        }
    }
}

proof fn lemma_ordered_terminals(src: &str, ts: Seq<Token>, tree: Tree)
    requires
        leaves(tree) == strip_semis(src, ts),
        forall|k: int|
            0 <= k < ts.len() ==> (#[trigger] ts[k]).start.0 < ts[k].end.0 && (k + 1 < ts.len()
                ==> ts[k].end.0 <= ts[k + 1].start.0),
    ensures
        starts_increase(leaves(tree)),
        drawn_from(leaves(tree), ts),
{
    assert forall|a: int, b: int| 0 <= a < b < ts.len() implies #[trigger] ts[a].start.0
        < #[trigger] ts[b].start.0 by {
        lemma_chain(ts, a, b);
    }
    lemma_strip_keeps_order(src, ts);
}

/// The terminals of the tree built from the lexed tokens of a source are
/// lexed tokens, byte ranges included, and their start offsets strictly
/// increase.
pub proof fn lemma_tree_terminals_in_order(src: &str, file: Seq<char>)
    requires
        src.spec_bytes().len() <= usize::MAX,
        lex_result(src@, file) is Ok,
        spec_parse(lex_result(src@, file)->Ok_0, src) is Ok,
    ensures
        starts_increase(leaves(spec_parse(lex_result(src@, file)->Ok_0, src)->Ok_0)),
        drawn_from(
            leaves(spec_parse(lex_result(src@, file)->Ok_0, src)->Ok_0),
            lex_result(src@, file)->Ok_0,
        ),
{
    let ts = lex_result(src@, file)->Ok_0;
    let tree = spec_parse(ts, src)->Ok_0;
    lemma_lexed_semis_are_punc(src, file);
    lemma_parse_leaves(ts, src);
    lemma_lexed_tokens_chain(src@, file);
    lemma_ordered_terminals(src, ts, tree);
}

/// Each lexed token ends after it starts and no later than the next starts.
proof fn lemma_lexed_tokens_chain(s: Seq<char>, file: Seq<char>)
    requires
        encode_utf8(s).len() <= usize::MAX,
        lex_result(s, file) is Ok,
    ensures
        forall|k: int|
            0 <= k < lex_result(s, file)->Ok_0.len() ==> (#[trigger] lex_result(
                s,
                file,
            )->Ok_0[k]).start.0 < lex_result(s, file)->Ok_0[k].end.0 && (k + 1 < lex_result(
                s,
                file,
            )->Ok_0.len() ==> lex_result(s, file)->Ok_0[k].end.0 <= lex_result(
                s,
                file,
            )->Ok_0[k + 1].start.0),
{
    lemma_token_layout(s, file);
}

} // verus!
