use hl2::lex::{
    lex, lex_token, try_bool_lit, try_core_type, try_ident, try_key, try_num_lit, try_op, try_punc,
    try_string_lit, LexErr,
};
use hl2::source::Cursor;
use hl2::parse::{parse, token_text, NTermType, Node, NodeType, ParseErr};
use hl2::token::{Point, Token, TokenType};

/// Renders a tree compactly: terminals as their lexeme, nonterminals as
/// `Kind(child child ...)`.
fn show(n: &Node, src: &str) -> String {
    match n.node_type {
        NodeType::Term(t) => src[t.start()..t.end()].to_string(),
        NodeType::NTerm(k) => {
            let parts: Vec<String> = n.children.iter().map(|c| show(c, src)).collect();
            format!("{:?}({})", k, parts.join(" "))
        }
    }
}

fn kinds(tokens: &[Token]) -> Vec<TokenType> {
    tokens.iter().map(|t| t.token_type()).collect()
}

fn lexemes<'a>(tokens: &[Token], src: &'a str) -> Vec<&'a str> {
    tokens.iter().map(|t| &src[t.start()..t.end()]).collect()
}

fn parse_src(src: &str) -> Result<Node, ParseErr> {
    let tokens = lex(src, "test.hl2").unwrap();
    parse(&tokens, src)
}

fn raw(m: &str) -> LexErr {
    LexErr::Raw(m.to_string())
}

fn point(m: &str, line: usize) -> LexErr {
    LexErr::Point(m.to_string(), "test.hl2".to_string(), line)
}

#[test]
fn declaration_tokens() {
    let src = "int x = 1 + 2;";
    let tokens = lex(src, "test.hl2").unwrap();
    assert_eq!(
        kinds(&tokens),
        vec![
            TokenType::CoreType,
            TokenType::Ident,
            TokenType::Op,
            TokenType::ArithLit,
            TokenType::Op,
            TokenType::ArithLit,
            TokenType::Punc,
        ]
    );
    assert_eq!(lexemes(&tokens, src), vec!["int", "x", "=", "1", "+", "2", ";"]);
    assert_eq!(tokens[0], Token::new_core_type(0, 3));
    assert_eq!(tokens[6], Token::new_punc(13, 14));
}

#[test]
fn declaration_tree() {
    let src = "int x = 1 + 2;";
    let tree = parse_src(src).unwrap();
    assert_eq!(
        show(&tree, src),
        "Program(Stmt(Declaration(int x = Expression(Term2(Term1(Term0(Atom(1)) + Term1(Term0(Atom(2)))))))))"
    );
}

#[test]
fn if_else_has_eleven_children() {
    let src = "if (a == b) { x = 1; } else { x = 2; }";
    let tree = parse_src(src).unwrap();
    assert_eq!(tree.node_type, NodeType::NTerm(NTermType::Program));
    assert_eq!(tree.children.len(), 1);
    let node = &tree.children[0];
    assert_eq!(node.node_type, NodeType::NTerm(NTermType::If));
    assert_eq!(node.children.len(), 11);
    let shape: Vec<String> = node
        .children
        .iter()
        .map(|c| match c.node_type {
            NodeType::Term(t) => src[t.start()..t.end()].to_string(),
            NodeType::NTerm(k) => format!("{:?}", k),
        })
        .collect();
    assert_eq!(
        shape,
        vec!["if", "(", "Expression", ")", "{", "Program", "}", "else", "{", "Program", "}"]
    );
    assert_eq!(
        show(node, src),
        "If(if ( Expression(Term2(Term1(Term0(Atom(a))) == Term2(Term1(Term0(Atom(b)))))) ) { \
         Program(Stmt(Assignment(x = Expression(Term2(Term1(Term0(Atom(1)))))))) } else { \
         Program(Stmt(Assignment(x = Expression(Term2(Term1(Term0(Atom(2)))))))) })"
    );
}

#[test]
fn if_without_else_has_seven_children() {
    let src = "if (a) { }";
    let tree = parse_src(src).unwrap();
    assert_eq!(tree.children[0].children.len(), 7);
    assert_eq!(
        show(&tree, src),
        "Program(If(if ( Expression(Term2(Term1(Term0(Atom(a))))) ) { Program() }))"
    );
}

#[test]
fn while_loop() {
    let src = "while (i < 10) { i = i + 1; }";
    let tree = parse_src(src).unwrap();
    assert_eq!(
        show(&tree, src),
        "Program(While(while ( Expression(Term2(Term1(Term0(Atom(i))) < Term2(Term1(Term0(Atom(10)))))) ) { \
         Program(Stmt(Assignment(i = Expression(Term2(Term1(Term0(Atom(i)) + Term1(Term0(Atom(1))))))))) }))"
    );
}

#[test]
fn nested_function_calls() {
    let src = "foo(1, 2, bar(3));";
    let tree = parse_src(src).unwrap();
    assert_eq!(
        show(&tree, src),
        "Program(Stmt(FunctionCall(foo ( ParameterList(\
         Expression(Term2(Term1(Term0(Atom(1))))) , \
         Expression(Term2(Term1(Term0(Atom(2))))) , \
         Expression(Term2(Term1(Term0(Atom(FunctionCall(bar ( ParameterList(Expression(Term2(Term1(Term0(Atom(3)))))) )))))))) ))))"
    );
}

#[test]
fn subtraction_is_right_nested() {
    let src = "x = 1 - 2 - 3;";
    let tree = parse_src(src).unwrap();
    let expr = &tree.children[0].children[0].children[2];
    assert_eq!(
        show(expr, src),
        "Expression(Term2(Term1(Term0(Atom(1)) - Term1(Term0(Atom(2)) - Term1(Term0(Atom(3)))))))"
    );
}

#[test]
fn precedence_levels() {
    let src = "x = a || b && c == d + e * f;";
    let tree = parse_src(src).unwrap();
    let expr = &tree.children[0].children[0].children[2];
    assert_eq!(
        show(expr, src),
        "Expression(Term2(Term1(Term0(Atom(a)))) || Expression(Term2(Term1(Term0(Atom(b)))) && \
         Expression(Term2(Term1(Term0(Atom(c))) == Term2(Term1(Term0(Atom(d)) + Term1(Term0(Atom(e) * Term0(Atom(f))))))))))"
    );
}

#[test]
fn lone_ampersand_is_refused() {
    assert_eq!(lex("x &", "test.hl2"), Err(point("Bitwise & operator is not supported.", 0)));
    assert_eq!(lex("x & y", "test.hl2"), Err(point("Bitwise & operator is not supported.", 0)));
}

#[test]
fn lone_bar_is_refused() {
    assert_eq!(lex("\na | b", "test.hl2"), Err(point("Bitwise | operator is not supported.", 1)));
}

#[test]
fn whitespace_only_source_fails() {
    assert_eq!(lex("  \n\t \n", "test.hl2"), Err(raw("File is empty.")));
}

#[test]
fn empty_source_fails() {
    assert_eq!(lex("", "test.hl2"), Err(raw("File is empty.")));
}

#[test]
fn unterminated_string_fails() {
    assert_eq!(
        lex("x = \"abc", "test.hl2"),
        Err(point("Unexpected EOF in string literal", 0))
    );
}

#[test]
fn unterminated_parenthesis_fails() {
    assert_eq!(
        parse_src("foo(1, 2"),
        Err(ParseErr::Raw("Unexpected EOF in parameter list".to_string()))
    );
}

#[test]
fn unterminated_brace_fails() {
    assert_eq!(
        parse_src("if (a) { x = 1;"),
        Err(ParseErr::Raw("Expected }, got EOF".to_string()))
    );
}

#[test]
fn lexing_is_repeatable() {
    let src = "int x = 1;\nwhile (x < 3) { x = x + 1; }";
    assert_eq!(lex(src, "a"), lex(src, "a"));
    assert!(lex(src, "a").is_ok());
}

#[test]
fn token_slices_match_lexemes() {
    let src = "string s = \"héllo\";\nüber = 2;";
    let tokens = lex(src, "test.hl2").unwrap();
    assert_eq!(
        lexemes(&tokens, src),
        vec!["string", "s", "=", "\"héllo\"", ";", "über", "=", "2", ";"]
    );
    assert_eq!(tokens[3], Token::new_string_lit(11, 19));
    assert_eq!(tokens[5], Token::new_ident(21, 26));
    for t in &tokens {
        assert_eq!(token_text(src, t), &src[t.start()..t.end()]);
    }
}

#[test]
fn lexemes_rebuild_source_without_whitespace() {
    let src = "int x = 1 + 2;\nif (x > 1) {\n  print(x);\n}";
    let tokens = lex(src, "test.hl2").unwrap();
    let joined: String = lexemes(&tokens, src).concat();
    let squeezed: String = src.chars().filter(|c| !c.is_whitespace()).collect();
    assert_eq!(joined, squeezed);
    assert!(parse(&tokens, src).is_ok());
}

#[test]
fn number_literals() {
    let src = "x = -5 + 3.25;";
    let tokens = lex(src, "test.hl2").unwrap();
    assert_eq!(lexemes(&tokens, src), vec!["x", "=", "-5", "+", "3.25", ";"]);
    assert_eq!(tokens[2].token_type(), TokenType::ArithLit);
    assert_eq!(tokens[4], Token::new_arith_lit(9, 13));
}

#[test]
fn minus_before_digit_starts_a_number() {
    let src = "a-1";
    let tokens = lex(src, "test.hl2").unwrap();
    assert_eq!(lexemes(&tokens, src), vec!["a", "-1"]);
    assert_eq!(kinds(&tokens), vec![TokenType::Ident, TokenType::ArithLit]);
}

#[test]
fn letter_in_number_fails() {
    assert_eq!(lex("x = 12a;", "f"), Err(LexErr::Point(
        "Identifier cannot start with a number".to_string(),
        "f".to_string(),
        0
    )));
}

#[test]
fn two_decimal_points_fail() {
    assert_eq!(
        lex("x = 1.2.3;", "test.hl2"),
        Err(point("Error: num literal contains more than 1 decimal place", 0))
    );
}

#[test]
fn operators_of_two_characters() {
    let src = "a == b >= c <= d && e || f < g > h = i";
    let tokens = lex(src, "test.hl2").unwrap();
    let ops: Vec<&str> = tokens
        .iter()
        .filter(|t| t.token_type() == TokenType::Op)
        .map(|t| &src[t.start()..t.end()])
        .collect();
    assert_eq!(ops, vec!["==", ">=", "<=", "&&", "||", "<", ">", "="]);
}

#[test]
fn operator_at_end_of_input_fails() {
    assert_eq!(lex("x =", "test.hl2"), Err(point("Unexpected EOF at operator `=`.", 0)));
    assert_eq!(lex("x\n\n<", "test.hl2"), Err(point("Unexpected EOF at operator `<`.", 2)));
    assert_eq!(lex(">", "test.hl2"), Err(point("Unexpected EOF at operator `>`.", 0)));
}

#[test]
fn unknown_character_reports_its_line() {
    assert_eq!(lex("x = 1;\n\ny @ 2", "test.hl2"), Err(point("Unknown token", 2)));
}

#[test]
fn prefix_words_split_identifiers() {
    let src = "truely intx";
    let tokens = lex(src, "test.hl2").unwrap();
    assert_eq!(lexemes(&tokens, src), vec!["true", "ly", "int", "x"]);
    assert_eq!(
        kinds(&tokens),
        vec![TokenType::BoolLit, TokenType::Ident, TokenType::CoreType, TokenType::Ident]
    );
}

#[test]
fn keywords_need_a_following_space_or_parenthesis() {
    let src = "if(x) iffy while\twhile";
    let tokens = lex(src, "test.hl2").unwrap();
    assert_eq!(lexemes(&tokens, src), vec!["if", "(", "x", ")", "iffy", "while", "while"]);
    assert_eq!(
        kinds(&tokens),
        vec![
            TokenType::Key,
            TokenType::Punc,
            TokenType::Ident,
            TokenType::Punc,
            TokenType::Ident,
            TokenType::Key,
            TokenType::Ident,
        ]
    );
}

#[test]
fn string_with_escaped_quote() {
    let src = r#"s = "a\"b" ;"#;
    let tokens = lex(src, "test.hl2").unwrap();
    assert_eq!(lexemes(&tokens, src), vec!["s", "=", r#""a\"b""#, ";"]);
    assert_eq!(tokens[2].token_type(), TokenType::StringLit);
}

#[test]
fn literal_kinds_in_a_call() {
    let src = "f(true, \"s\", 2.5, x);";
    let tree = parse_src(src).unwrap();
    assert_eq!(tree.children.len(), 1);
    let tokens = lex(src, "test.hl2").unwrap();
    assert_eq!(tokens[2].token_type(), TokenType::BoolLit);
}

#[test]
fn parse_empty_token_sequence() {
    assert_eq!(parse(&[], "x"), Err(ParseErr::Raw("No tokens to parse".to_string())));
}

#[test]
fn stray_closing_brace() {
    let src = "x = 1; } y = 2;";
    let tokens = lex(src, "test.hl2").unwrap();
    assert_eq!(parse(&tokens, src), Err(ParseErr::Point("Unmatched }".to_string(), tokens[4])));
}

#[test]
fn statement_needs_paren_or_assignment() {
    let src = "x + 1;";
    let tokens = lex(src, "test.hl2").unwrap();
    assert_eq!(
        parse(&tokens, src),
        Err(ParseErr::Point("Expected '(' or '='".to_string(), tokens[1]))
    );
}

#[test]
fn statement_cannot_start_with_a_literal() {
    let src = "1 = 2;";
    let tokens = lex(src, "test.hl2").unwrap();
    assert_eq!(
        parse(&tokens, src),
        Err(ParseErr::Point(
            "Expected declaration, assignment, or function call.".to_string(),
            tokens[0]
        ))
    );
}

#[test]
fn operand_must_be_identifier_or_literal() {
    let src = "x = ;";
    let tokens = lex(src, "test.hl2").unwrap();
    assert_eq!(
        parse(&tokens, src),
        Err(ParseErr::Point("Expected identifier or literal".to_string(), tokens[2]))
    );
}

#[test]
fn missing_semicolon_at_end() {
    assert_eq!(parse_src("x = 1"), Err(ParseErr::Raw("Expected ;, got EOF".to_string())));
}

#[test]
fn wrong_token_instead_of_semicolon() {
    let src = "x = 1 2;";
    let tokens = lex(src, "test.hl2").unwrap();
    assert_eq!(
        parse(&tokens, src),
        Err(ParseErr::Point("Expected ;, got 2".to_string(), tokens[3]))
    );
}

#[test]
fn declaration_needs_identifier() {
    let src = "int 5 = 1;";
    let tokens = lex(src, "test.hl2").unwrap();
    assert_eq!(
        parse(&tokens, src),
        Err(ParseErr::Point("Expected Ident".to_string(), tokens[1]))
    );
}

#[test]
fn statement_cut_short() {
    assert_eq!(parse_src("x"), Err(ParseErr::Raw("Unexpected EOF".to_string())));
    assert_eq!(parse_src("int"), Err(ParseErr::Raw("Expected Ident, got EOF".to_string())));
}

#[test]
fn token_constructors() {
    assert_eq!(
        Token::new_key(2, 4),
        Token { start: Point(2), end: Point(4), token_type: TokenType::Key }
    );
    assert_eq!(Token::new_op(1, 3).token_type(), TokenType::Op);
    assert_eq!(Token::new_bool_lit(0, 4).end(), 4);
    assert_eq!(Token::new_ident(5, 6).start(), 5);
    assert_eq!(TokenType::StringLit.name(), "StringLit");
}

#[test]
fn token_text_outside_source_is_empty() {
    let src = "héllo";
    assert_eq!(token_text(src, &Token::new_ident(0, 3)), "hé");
    assert_eq!(token_text(src, &Token::new_ident(0, 2)), "");
    assert_eq!(token_text(src, &Token::new_ident(4, 40)), "");
}

#[test]
fn unicode_letters_and_digits_in_identifiers() {
    let src = "é2 = x9;";
    let tokens = lex(src, "test.hl2").unwrap();
    assert_eq!(lexemes(&tokens, src), vec!["é2", "=", "x9", ";"]);
    assert!(parse(&tokens, src).is_ok());
}

#[test]
fn unicode_whitespace_separates_tokens() {
    let src = "if\u{3000}(a) {\u{00A0}}";
    let tokens = lex(src, "test.hl2").unwrap();
    assert_eq!(lexemes(&tokens, src), vec!["if", "(", "a", ")", "{", "}"]);
    assert_eq!(tokens[0].token_type(), TokenType::Key);
}

fn terminals(n: &Node, out: &mut Vec<Token>) {
    match n.node_type {
        NodeType::Term(t) => out.push(t),
        NodeType::NTerm(_) => {
            for c in &n.children {
                terminals(c, out);
            }
        }
    }
}

#[test]
fn tree_terminals_are_tokens_without_semicolons() {
    let src = "int x = 1;\nwhile (x < 3) { f(x, \"a;b\"); x = x + 1; }\nif (x) { } else { y = 2; }";
    let tokens = lex(src, "test.hl2").unwrap();
    let tree = parse(&tokens, src).unwrap();
    let mut leaves = Vec::new();
    terminals(&tree, &mut leaves);
    let kept: Vec<Token> = tokens
        .iter()
        .copied()
        .filter(|t| &src[t.start()..t.end()] != ";")
        .collect();
    assert_eq!(leaves, kept);
    assert_eq!(tokens.len() - kept.len(), 4);
}

#[test]
fn lex_error_reports() {
    let r = lex("x = 1;\n@", "prog.hl2").unwrap_err().print_formatted();
    assert_eq!(r.file, Some("prog.hl2".to_string()));
    assert_eq!(r.line, Some(1));
    assert_eq!(r.message, "Unknown token");
    let r = lex("", "prog.hl2").unwrap_err().print_formatted();
    assert_eq!(r.file, None);
    assert_eq!(r.line, None);
    assert_eq!(r.message, "File is empty.");
}

#[test]
fn parse_error_reports_line_of_token() {
    let src = "x = 1;\n\ny = ;";
    let tokens = lex(src, "prog.hl2").unwrap();
    let err = parse(&tokens, src).unwrap_err();
    let r = err.print_formatted("prog.hl2", src);
    assert_eq!(r.file, Some("prog.hl2".to_string()));
    assert_eq!(r.line, Some(3));
    assert_eq!(r.message, "Expected identifier or literal");
    let r = ParseErr::Raw("Unexpected EOF".to_string()).print_formatted("prog.hl2", src);
    assert_eq!(r.line, None);
    assert_eq!(r.message, "Unexpected EOF");
}

#[test]
fn recognizers_move_the_cursor() {
    let mut cur = Cursor::new("(x");
    assert_eq!(try_punc(&mut cur), Ok(Some(Token::new_punc(0, 1))));
    assert_eq!(cur.pos(), 1);
    assert_eq!(try_punc(&mut cur), Ok(None));
    assert_eq!(try_num_lit(&mut cur), Ok(None));
    assert_eq!(try_ident(&mut cur), Ok(Some(Token::new_ident(1, 2))));
    assert_eq!(cur.pos(), 2);
}

#[test]
fn recognizers_on_words() {
    let mut cur = Cursor::new("while (");
    assert_eq!(try_bool_lit(&mut cur), Ok(None));
    assert_eq!(try_core_type(&mut cur), Ok(None));
    assert_eq!(try_key(&mut cur), Ok(Some(Token::new_key(0, 5))));
    let mut cur = Cursor::new("float");
    assert_eq!(try_core_type(&mut cur), Ok(Some(Token::new_core_type(0, 5))));
    let mut cur = Cursor::new("\"é\" ");
    assert_eq!(try_string_lit(&mut cur), Ok(Some(Token::new_string_lit(0, 4))));
    assert_eq!(cur.pos(), 3);
}

#[test]
fn recognizer_errors() {
    let mut cur = Cursor::new("|x");
    assert_eq!(
        try_op(&mut cur),
        Err(LexErr::Raw("Bitwise | operator is not supported.".to_string()))
    );
    let mut cur = Cursor::new("<=");
    assert_eq!(try_op(&mut cur), Ok(Some(Token::new_op(0, 2))));
    let mut cur = Cursor::new("#");
    assert_eq!(lex_token(&mut cur), Err(LexErr::Raw("Unknown token".to_string())));
}

#[test]
fn sources_ending_in_an_open_bracket_fail() {
    assert_eq!(parse_src("if (a) {"), Err(ParseErr::Raw("Expected }, got EOF".to_string())));
    assert_eq!(
        parse_src("f("),
        Err(ParseErr::Raw("Unexpected EOF in parameter list".to_string()))
    );
    let src = "x = 1; {";
    let tokens = lex(src, "test.hl2").unwrap();
    assert!(parse(&tokens, src).is_err());
}

#[test]
fn string_with_only_escaped_quotes_is_unterminated() {
    assert_eq!(
        lex("s = \"a\\\"b\\\" ;", "test.hl2"),
        Err(point("Unexpected EOF in string literal", 0))
    );
    assert_eq!(
        lex("\n\"\\\\\\\"", "test.hl2"),
        Err(point("Unexpected EOF in string literal", 1))
    );
}

#[test]
fn tokens_are_ordered_on_char_boundaries() {
    let src = "string é = \"ü\";\n  über(1, 2.5);";
    let tokens = lex(src, "test.hl2").unwrap();
    for (k, t) in tokens.iter().enumerate() {
        assert!(t.start() < t.end() && t.end() <= src.len());
        assert!(src.is_char_boundary(t.start()) && src.is_char_boundary(t.end()));
        if k + 1 < tokens.len() {
            assert!(t.end() <= tokens[k + 1].start());
        }
    }
    let mut covered = vec![false; src.len()];
    for t in &tokens {
        for b in t.start()..t.end() {
            covered[b] = true;
        }
    }
    for (i, c) in src.char_indices() {
        if !covered[i] {
            assert!(c.is_whitespace());
        }
    }
}

#[test]
fn tree_terminal_starts_increase() {
    let src = "int a = 1;\nif (a > 0) { g(a, b); } else { a = a - 1; }";
    let tokens = lex(src, "test.hl2").unwrap();
    let tree = parse(&tokens, src).unwrap();
    let mut leaves = Vec::new();
    terminals(&tree, &mut leaves);
    for w in leaves.windows(2) {
        assert!(w[0].start() < w[1].start());
    }
    for t in &leaves {
        assert!(tokens.contains(t));
    }
}
