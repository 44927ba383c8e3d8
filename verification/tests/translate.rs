use gcc_asm::{gcc_asm, AsmBlock, Delimiter, ErrorKind, OperandSpec, SyntaxError, Token};

fn lit(text: &str) -> Token {
    Token::Literal(text.to_string())
}

fn ident(name: &str) -> Token {
    Token::Ident(name.to_string())
}

fn paren(inner: Vec<Token>) -> Token {
    Token::Group(Delimiter::Paren, inner)
}

fn bracket(inner: Vec<Token>) -> Token {
    Token::Group(Delimiter::Bracket, inner)
}

fn operand(name: Option<&str>, constraint: &str, variable: &str) -> OperandSpec {
    OperandSpec {
        symbolic_name: name.map(|n| n.to_string()),
        constraint: constraint.to_string(),
        expression: vec![paren(vec![ident(variable)])],
    }
}

fn failure(tokens: &[Token]) -> SyntaxError {
    match gcc_asm(tokens) {
        Ok(block) => panic!("translated to {:?}", block),
        Err(e) => e,
    }
}

fn add_block(names: bool) -> AsmBlock {
    let name = |n: &'static str| if names { Some(n) } else { None };
    AsmBlock {
        template: "add $0, $1, $2".to_string(),
        outputs: vec![operand(name("c"), "=r", "c")],
        inputs: vec![operand(name("a"), "r", "a"), operand(name("b"), "r", "b")],
        clobbers: vec![],
        volatile: false,
    }
}

// gcc_asm!("nop")
#[test]
fn nop_from_tokens() {
    let block = gcc_asm(&[lit("nop")]).unwrap();
    assert_eq!(
        block,
        AsmBlock {
            template: "nop".to_string(),
            outputs: vec![],
            inputs: vec![],
            clobbers: vec![],
            volatile: true,
        }
    );
}

// gcc_asm!("add %0, %1, %2" : "=r"(c) : "r"(a), "r"(b))
#[test]
fn add_from_tokens() {
    let tokens = vec![
        lit("add %0, %1, %2"),
        Token::Colon,
        lit("=r"),
        paren(vec![ident("c")]),
        Token::Colon,
        lit("r"),
        paren(vec![ident("a")]),
        Token::Comma,
        lit("r"),
        paren(vec![ident("b")]),
    ];
    assert_eq!(gcc_asm(&tokens), Ok(add_block(false)));
}

// gcc_asm!("add %0, " "%1, %2" : "=r"(c) : "r"(a), "r"(b))
#[test]
fn add_multi_string_from_tokens() {
    let tokens = vec![
        lit("add %0, "),
        lit("%1, %2"),
        Token::Colon,
        lit("=r"),
        paren(vec![ident("c")]),
        Token::Colon,
        lit("r"),
        paren(vec![ident("a")]),
        Token::Comma,
        lit("r"),
        paren(vec![ident("b")]),
    ];
    assert_eq!(gcc_asm(&tokens), Ok(add_block(false)));
}

// gcc_asm!("add %[c], %[a], %[b]" : [c]"=r"(c) : [a]"r"(a), [b]"r"(b))
#[test]
fn add_symbolic_from_tokens() {
    let tokens = vec![
        lit("add %[c], %[a], %[b]"),
        Token::Colon,
        bracket(vec![ident("c")]),
        lit("=r"),
        paren(vec![ident("c")]),
        Token::Colon,
        bracket(vec![ident("a")]),
        lit("r"),
        paren(vec![ident("a")]),
        Token::Comma,
        bracket(vec![ident("b")]),
        lit("r"),
        paren(vec![ident("b")]),
    ];
    let block = gcc_asm(&tokens).unwrap();
    assert_eq!(block, add_block(true));
    assert_eq!(block.template, "add $0, $1, $2");
    assert_eq!(block.outputs[0].constraint, "=r");
    assert_eq!(block.outputs[0].expression, vec![paren(vec![ident("c")])]);
    assert_eq!(block.inputs[0].constraint, "r");
    assert_eq!(block.inputs[0].expression, vec![paren(vec![ident("a")])]);
    assert_eq!(block.inputs[1].constraint, "r");
    assert_eq!(block.inputs[1].expression, vec![paren(vec![ident("b")])]);
}

// gcc_asm!("b unique_label%=\nnop\nunique_label%=:")
#[test]
fn uid_from_tokens() {
    let block = gcc_asm(&[lit("b unique_label%=\nnop\nunique_label%=:")]).unwrap();
    assert_eq!(
        block,
        AsmBlock {
            template: "b unique_label${:uid}\nnop\nunique_label${:uid}:".to_string(),
            outputs: vec![],
            inputs: vec![],
            clobbers: vec![],
            volatile: true,
        }
    );
}

#[test]
fn same_tokens_translate_alike() {
    let tokens = vec![
        lit("mov %[x], %1 ; %% $ %="),
        Token::Colon,
        bracket(vec![ident("x")]),
        lit("+r"),
        paren(vec![ident("x")]),
        Token::Colon,
        lit("r"),
        paren(vec![ident("y")]),
    ];
    let first = gcc_asm(&tokens);
    let second = gcc_asm(&tokens.clone());
    assert!(first.is_ok());
    assert_eq!(first, second);
    let refused = vec![lit("nop"), Token::Colon, Token::Comma];
    assert_eq!(gcc_asm(&refused), gcc_asm(&refused.clone()));
    assert!(gcc_asm(&refused).is_err());
}

#[test]
fn tied_output_becomes_output_and_trailing_input() {
    // "add %0, %2" : "=r"(d), "+r"(acc) : "r"(x)
    let tokens = vec![
        lit("add %0, %2"),
        Token::Colon,
        lit("=r"),
        paren(vec![ident("d")]),
        Token::Comma,
        lit("+r"),
        paren(vec![ident("acc")]),
        Token::Colon,
        lit("r"),
        paren(vec![ident("x")]),
    ];
    let block = gcc_asm(&tokens).unwrap();
    assert_eq!(block.template, "add $0, $2");
    assert_eq!(block.outputs, vec![operand(None, "=r", "d"), operand(None, "=r", "acc")]);
    assert_eq!(block.inputs, vec![operand(None, "r", "x"), operand(None, "1", "acc")]);
    assert!(!block.volatile);
    assert!(block.clobbers.is_empty());
}

#[test]
fn tied_inputs_follow_in_the_order_of_their_outputs() {
    // "" : "+r"(a), "=m"(b), [n]"+&r"(c) : "i"(k)
    let tokens = vec![
        lit(""),
        Token::Colon,
        lit("+r"),
        paren(vec![ident("a")]),
        Token::Comma,
        lit("=m"),
        paren(vec![ident("b")]),
        Token::Comma,
        bracket(vec![ident("n")]),
        lit("+&r"),
        paren(vec![ident("c")]),
        Token::Colon,
        lit("i"),
        paren(vec![ident("k")]),
    ];
    let block = gcc_asm(&tokens).unwrap();
    assert_eq!(
        block.outputs,
        vec![operand(None, "=r", "a"), operand(None, "=m", "b"), operand(Some("n"), "=&r", "c")]
    );
    assert_eq!(
        block.inputs,
        vec![operand(None, "i", "k"), operand(None, "0", "a"), operand(None, "2", "c")]
    );
}

#[test]
fn names_resolve_to_indices_in_the_combined_list() {
    // "%[p] %[q] %[r]" : [p]"+r"(p) : [q]"r"(q), [r]"r"(r)
    let tokens = vec![
        lit("%[p] %[q] %[r]"),
        Token::Colon,
        bracket(vec![ident("p")]),
        lit("+r"),
        paren(vec![ident("p")]),
        Token::Colon,
        bracket(vec![ident("q")]),
        lit("r"),
        paren(vec![ident("q")]),
        Token::Comma,
        bracket(vec![ident("r")]),
        lit("r"),
        paren(vec![ident("r")]),
    ];
    let block = gcc_asm(&tokens).unwrap();
    assert_eq!(block.template, "$0 $1 $2");
    assert_eq!(block.outputs.len(), 1);
    assert_eq!(block.inputs.len(), 3);
    assert_eq!(block.inputs[2], operand(None, "0", "p"));
}

#[test]
fn volatile_exactly_without_outputs() {
    // "nop" : : "r"(a)
    let inputs_only = vec![lit("nop"), Token::Colon, Token::Colon, lit("r"), paren(vec![ident("a")])];
    let block = gcc_asm(&inputs_only).unwrap();
    assert!(block.volatile);
    assert!(block.outputs.is_empty());
    assert_eq!(block.inputs, vec![operand(None, "r", "a")]);
    // "nop" : "=r"(a)
    let with_output = vec![lit("nop"), Token::Colon, lit("=r"), paren(vec![ident("a")])];
    let block = gcc_asm(&with_output).unwrap();
    assert!(!block.volatile);
    assert_eq!(block.outputs.len(), 1);
}

#[test]
fn empty_trailing_sections_are_accepted() {
    // "nop" : : :
    let tokens = vec![lit("nop"), Token::Colon, Token::Colon, Token::Colon];
    let block = gcc_asm(&tokens).unwrap();
    assert_eq!(block.template, "nop");
    assert!(block.outputs.is_empty() && block.inputs.is_empty() && block.clobbers.is_empty());
    assert!(block.volatile);
}

#[test]
fn empty_template_section_is_an_empty_template() {
    // : "=r"(a)
    let tokens = vec![Token::Colon, lit("=r"), paren(vec![ident("a")])];
    let block = gcc_asm(&tokens).unwrap();
    assert_eq!(block.template, "");
    assert_eq!(block.outputs, vec![operand(None, "=r", "a")]);
}

#[test]
fn expression_is_all_that_follows_the_constraint() {
    // "nop" : "=r"(a.b) c
    let field = paren(vec![ident("a"), Token::Other(".".to_string()), ident("b")]);
    let tokens = vec![lit("nop"), Token::Colon, lit("=r"), field, ident("c")];
    let block = gcc_asm(&tokens).unwrap();
    let field = paren(vec![ident("a"), Token::Other(".".to_string()), ident("b")]);
    assert_eq!(block.outputs[0].expression, vec![field, ident("c")]);
}

#[test]
fn separators_inside_groups_do_not_split() {
    // "nop" : "=r"(f(a, b) : c)
    let inner = vec![
        ident("f"),
        paren(vec![ident("a"), Token::Comma, ident("b")]),
        Token::Colon,
        ident("c"),
    ];
    let tokens = vec![lit("nop"), Token::Colon, lit("=r"), paren(inner.clone())];
    let block = gcc_asm(&tokens).unwrap();
    assert_eq!(block.outputs.len(), 1);
    assert_eq!(block.outputs[0].expression, vec![paren(inner)]);
    assert!(block.inputs.is_empty());
}

#[test]
fn missing_template() {
    assert_eq!(failure(&[]), SyntaxError { kind: ErrorKind::MissingTemplate, position: 0 });
}

#[test]
fn non_literal_template() {
    // "a" nop "b"
    let tokens = vec![lit("a"), ident("nop"), lit("b")];
    assert_eq!(failure(&tokens), SyntaxError { kind: ErrorKind::NonLiteralTemplate, position: 1 });
    // nop : "=r"(a)
    let tokens = vec![ident("nop"), Token::Colon, lit("=r"), paren(vec![ident("a")])];
    assert_eq!(failure(&tokens), SyntaxError { kind: ErrorKind::NonLiteralTemplate, position: 0 });
}

#[test]
fn clobbers_are_refused() {
    // "nop" : : : "memory"
    let tokens = vec![lit("nop"), Token::Colon, Token::Colon, Token::Colon, lit("memory")];
    assert_eq!(failure(&tokens), SyntaxError { kind: ErrorKind::UnsupportedClobbers, position: 4 });
    // "add %0, %1, %2" : "=r"(c) : "r"(a), "r"(b) : "cc"
    let tokens = vec![
        lit("add %0, %1, %2"),
        Token::Colon,
        lit("=r"),
        paren(vec![ident("c")]),
        Token::Colon,
        lit("r"),
        paren(vec![ident("a")]),
        Token::Comma,
        lit("r"),
        paren(vec![ident("b")]),
        Token::Colon,
        lit("cc"),
    ];
    assert_eq!(
        failure(&tokens),
        SyntaxError { kind: ErrorKind::UnsupportedClobbers, position: 11 }
    );
}

#[test]
fn trailing_tokens() {
    // "nop" : : : : x
    let tokens =
        vec![lit("nop"), Token::Colon, Token::Colon, Token::Colon, Token::Colon, ident("x")];
    assert_eq!(failure(&tokens), SyntaxError { kind: ErrorKind::TrailingTokens, position: 4 });
    // "nop" : : : :
    let tokens = vec![lit("nop"), Token::Colon, Token::Colon, Token::Colon, Token::Colon];
    assert_eq!(failure(&tokens), SyntaxError { kind: ErrorKind::TrailingTokens, position: 4 });
}

#[test]
fn clobbers_are_checked_before_trailing_tokens() {
    // "nop" : : : "cc" : x
    let tokens = vec![
        lit("nop"),
        Token::Colon,
        Token::Colon,
        Token::Colon,
        lit("cc"),
        Token::Colon,
        ident("x"),
    ];
    assert_eq!(failure(&tokens).kind, ErrorKind::UnsupportedClobbers);
}

#[test]
fn empty_operand() {
    // "nop" : "=r"(a),
    let tokens = vec![lit("nop"), Token::Colon, lit("=r"), paren(vec![ident("a")]), Token::Comma];
    assert_eq!(failure(&tokens), SyntaxError { kind: ErrorKind::EmptyOperand, position: 5 });
    // "nop" : : , "r"(a)
    let tokens = vec![
        lit("nop"),
        Token::Colon,
        Token::Colon,
        Token::Comma,
        lit("r"),
        paren(vec![ident("a")]),
    ];
    assert_eq!(failure(&tokens), SyntaxError { kind: ErrorKind::EmptyOperand, position: 3 });
    // "nop" : [a]
    let tokens = vec![lit("nop"), Token::Colon, bracket(vec![ident("a")])];
    assert_eq!(failure(&tokens), SyntaxError { kind: ErrorKind::EmptyOperand, position: 3 });
}

#[test]
fn bad_symbolic_name() {
    let cases = vec![
        bracket(vec![]),
        bracket(vec![lit("a")]),
        bracket(vec![ident("a"), ident("b")]),
        bracket(vec![paren(vec![ident("a")])]),
    ];
    for group in cases {
        // "nop" : "=r"(x), [..]"=r"(a)
        let tokens = vec![
            lit("nop"),
            Token::Colon,
            lit("=r"),
            paren(vec![ident("x")]),
            Token::Comma,
            group,
            lit("=r"),
            paren(vec![ident("a")]),
        ];
        assert_eq!(failure(&tokens), SyntaxError { kind: ErrorKind::BadSymbolicName, position: 5 });
    }
}

#[test]
fn bad_symbolic_reference() {
    // "mov %[dst], %[src]" : [dst]"=r"(a) : "r"(b)
    let tokens = vec![
        lit("mov %[dst], %[src]"),
        Token::Colon,
        bracket(vec![ident("dst")]),
        lit("=r"),
        paren(vec![ident("a")]),
        Token::Colon,
        lit("r"),
        paren(vec![ident("b")]),
    ];
    assert_eq!(
        failure(&tokens),
        SyntaxError { kind: ErrorKind::BadSymbolicReference, position: 0 }
    );
    // "%[" alone
    assert_eq!(failure(&[lit("%[")]).kind, ErrorKind::BadSymbolicReference);
}

#[test]
fn non_literal_constraint() {
    // "nop" : r(a)
    let tokens = vec![lit("nop"), Token::Colon, ident("r"), paren(vec![ident("a")])];
    assert_eq!(
        failure(&tokens),
        SyntaxError { kind: ErrorKind::NonLiteralConstraint, position: 2 }
    );
    // "nop" : : "r"(a), [n](b)
    let tokens = vec![
        lit("nop"),
        Token::Colon,
        Token::Colon,
        lit("r"),
        paren(vec![ident("a")]),
        Token::Comma,
        bracket(vec![ident("n")]),
        paren(vec![ident("b")]),
    ];
    assert_eq!(
        failure(&tokens),
        SyntaxError { kind: ErrorKind::NonLiteralConstraint, position: 7 }
    );
    // "nop" : ("=r")(a)
    let tokens =
        vec![lit("nop"), Token::Colon, paren(vec![lit("=r")]), paren(vec![ident("a")])];
    assert_eq!(
        failure(&tokens),
        SyntaxError { kind: ErrorKind::NonLiteralConstraint, position: 2 }
    );
}

#[test]
fn outputs_are_read_before_inputs() {
    // "nop" : x : ,
    let tokens = vec![lit("nop"), Token::Colon, ident("x"), Token::Colon, Token::Comma];
    assert_eq!(
        failure(&tokens),
        SyntaxError { kind: ErrorKind::NonLiteralConstraint, position: 2 }
    );
}

#[test]
fn operands_are_read_before_the_template_is_rewritten() {
    // "%[zz]" : x
    let tokens = vec![lit("%[zz]"), Token::Colon, ident("x")];
    assert_eq!(failure(&tokens).kind, ErrorKind::NonLiteralConstraint);
}
