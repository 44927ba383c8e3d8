use gcc_asm::text::{chars_of, contains, matches_at, replace_all, string_of, to_decimal};
use gcc_asm::{
    assemble_template, expand_tied_operands, extract_symbolic_name, extract_tied_operands,
    get_string_literal, make_string_literal, parse_operand, parse_operands, replace_template,
    split_on_token, Delimiter, ErrorKind, OperandSpec, Separator, SyntaxError, Token,
};

fn lit(text: &str) -> Token {
    Token::Literal(text.to_string())
}

fn ident(name: &str) -> Token {
    Token::Ident(name.to_string())
}

fn paren(inner: Vec<Token>) -> Token {
    Token::Group(Delimiter::Paren, inner)
}

fn bracket(inner: Vec<Token>) -> Token {
    Token::Group(Delimiter::Bracket, inner)
}

fn operand(name: Option<&str>, constraint: &str, variable: &str) -> OperandSpec {
    OperandSpec {
        symbolic_name: name.map(|n| n.to_string()),
        constraint: constraint.to_string(),
        expression: vec![paren(vec![ident(variable)])],
    }
}

fn names(list: &[Option<&str>]) -> Vec<Option<String>> {
    list.iter().map(|n| n.map(|s| s.to_string())).collect()
}

fn rewrite(template: &str, list: &[Option<&str>]) -> Result<String, SyntaxError> {
    replace_template(template.to_string(), &names(list))
}

fn chars(text: &str) -> Vec<char> {
    text.chars().collect()
}

fn replace(text: &str, from: &str, to: &str) -> String {
    replace_all(&chars(text), &chars(from), &chars(to)).into_iter().collect()
}

#[test]
fn escaped_percent_becomes_one_percent() {
    assert_eq!(rewrite("%%", &[]), Ok("%".to_string()));
    assert_eq!(rewrite("100%% sure", &[]), Ok("100% sure".to_string()));
    assert_eq!(rewrite("%%%%", &[]), Ok("%%".to_string()));
    assert_eq!(rewrite("%%0", &[]), Ok("%0".to_string()));
    assert_eq!(rewrite("%%%0", &[]), Ok("%$0".to_string()));
}

#[test]
fn dollar_becomes_two_dollars() {
    assert_eq!(rewrite("$", &[]), Ok("$$".to_string()));
    assert_eq!(rewrite("mov $1, %0", &[]), Ok("mov $$1, $0".to_string()));
    assert_eq!(rewrite("$$", &[]), Ok("$$$$".to_string()));
    assert_eq!(rewrite("%$", &[]), Ok("$$$".to_string()));
    assert_eq!(rewrite("$[a]", &[Some("a")]), Ok("$$[a]".to_string()));
    assert_eq!(rewrite("$=", &[]), Ok("$$=".to_string()));
}

#[test]
fn sentinel_in_the_source_is_read_as_a_dollar() {
    assert_eq!(rewrite("\u{80}", &[]), Ok("$$".to_string()));
}

#[test]
fn name_at_index_two_becomes_dollar_two() {
    assert_eq!(rewrite("%[a]", &[None, None, Some("a")]), Ok("$2".to_string()));
    assert_eq!(
        rewrite("ld %[a], %[b]", &[Some("b"), None, Some("a")]),
        Ok("ld $2, $0".to_string())
    );
}

#[test]
fn name_is_resolved_to_its_first_index() {
    assert_eq!(rewrite("%[a]", &[None, Some("a"), Some("a")]), Ok("$1".to_string()));
}

#[test]
fn index_is_written_in_decimal() {
    let mut list: Vec<Option<&str>> = vec![None; 12];
    list.push(Some("x"));
    assert_eq!(rewrite("%[x]!", &list), Ok("$12!".to_string()));
}

#[test]
fn a_name_does_not_match_a_longer_name() {
    assert_eq!(rewrite("%[ab] %[a]", &[Some("a"), Some("ab")]), Ok("$1 $0".to_string()));
}

#[test]
fn unique_id_marker() {
    assert_eq!(rewrite("%=", &[]), Ok("${:uid}".to_string()));
    assert_eq!(rewrite("L%=: jmp L%=", &[]), Ok("L${:uid}: jmp L${:uid}".to_string()));
    assert_eq!(rewrite("%%=", &[]), Ok("%=".to_string()));
}

#[test]
fn positional_placeholders() {
    assert_eq!(rewrite("add %0, %1, %2", &[None, None, None]), Ok("add $0, $1, $2".to_string()));
    assert_eq!(rewrite("", &[]), Ok(String::new()));
    assert_eq!(rewrite("plain text", &[Some("plain")]), Ok("plain text".to_string()));
}

#[test]
fn escaped_percent_before_a_bracket_is_no_reference() {
    assert_eq!(rewrite("%%[a]", &[]), Ok("%[a]".to_string()));
    assert_eq!(rewrite("%%[a]", &[Some("a")]), Ok("%[a]".to_string()));
}

#[test]
fn undeclared_name_is_refused() {
    let refused = Err(SyntaxError { kind: ErrorKind::BadSymbolicReference, position: 0 });
    assert_eq!(rewrite("%[a]", &[]), refused);
    assert_eq!(rewrite("%[a]", &[None, Some("b")]), refused);
    assert_eq!(rewrite("%[a", &[Some("a")]), refused);
    assert_eq!(rewrite("x %[] y", &[Some("a")]), refused);
    assert_eq!(rewrite("%[a] %[b]", &[Some("a")]), refused);
}

#[test]
fn replace_all_is_leftmost_and_does_not_overlap() {
    assert_eq!(replace("aaa", "aa", "b"), "ba");
    assert_eq!(replace("aaaa", "aa", "b"), "bb");
    assert_eq!(replace("abcabc", "bc", "x"), "axax");
    assert_eq!(replace("abc", "abcd", "x"), "abc");
    assert_eq!(replace("abc", "", "x"), "abc");
    assert_eq!(replace("", "a", "x"), "");
    assert_eq!(replace("aXa", "X", "XX"), "aXXa");
    assert_eq!(replace("abc", "abc", ""), "");
}

#[test]
fn search_for_a_pattern() {
    assert!(contains(&chars("abc$[d"), &chars("$[")));
    assert!(contains(&chars("$["), &chars("$[")));
    assert!(!contains(&chars("$ ["), &chars("$[")));
    assert!(!contains(&chars("$"), &chars("$[")));
    assert!(contains(&chars(""), &chars("")));
    assert!(matches_at(&chars("abc"), &chars("bc"), 1));
    assert!(!matches_at(&chars("abc"), &chars("bc"), 2));
    assert!(matches_at(&chars("abc"), &chars(""), 3));
    assert!(!matches_at(&chars("abc"), &chars(""), 4));
    assert!(!matches_at(&chars("abc"), &chars("c"), usize::MAX));
}

#[test]
fn decimal_numerals() {
    assert_eq!(to_decimal(0), chars("0"));
    assert_eq!(to_decimal(7), chars("7"));
    assert_eq!(to_decimal(10), chars("10"));
    assert_eq!(to_decimal(109), chars("109"));
    assert_eq!(to_decimal(12345), chars("12345"));
    assert_eq!(to_decimal(usize::MAX), chars(&usize::MAX.to_string()));
}

#[test]
fn strings_and_characters() {
    assert_eq!(chars_of("a$%é"), vec!['a', '$', '%', 'é']);
    assert_eq!(chars_of(""), Vec::<char>::new());
    assert_eq!(string_of(&['a', '$', '%', 'é']), "a$%é");
    assert_eq!(string_of(&[]), "");
}

#[test]
fn template_is_the_literals_joined() {
    assert_eq!(assemble_template(&[lit("add %0, "), lit("%1, %2")]), Ok("add %0, %1, %2".to_string()));
    assert_eq!(assemble_template(&[lit("nop")]), Ok("nop".to_string()));
    assert_eq!(assemble_template(&[]), Ok(String::new()));
    assert_eq!(
        assemble_template(&[lit("a"), lit("b"), Token::Comma, ident("c")]),
        Err(SyntaxError { kind: ErrorKind::NonLiteralTemplate, position: 2 })
    );
}

#[test]
fn split_on_separators() {
    let tokens = vec![ident("a"), Token::Colon, ident("b"), ident("c"), Token::Colon];
    let parts = split_on_token(&tokens, Separator::Colon);
    assert_eq!(parts, vec![&tokens[0..1], &tokens[2..4], &tokens[5..5]]);
    let parts = split_on_token(&tokens, Separator::Comma);
    assert_eq!(parts, vec![&tokens[..]]);
}

#[test]
fn split_of_nothing_is_nothing() {
    assert!(split_on_token(&[], Separator::Colon).is_empty());
    assert!(split_on_token(&[], Separator::Comma).is_empty());
}

#[test]
fn split_keeps_empty_pieces() {
    let tokens = vec![Token::Comma, Token::Comma];
    let parts = split_on_token(&tokens, Separator::Comma);
    assert_eq!(parts.len(), 3);
    assert!(parts.iter().all(|p| p.is_empty()));
    let tokens = vec![Token::Comma];
    assert_eq!(split_on_token(&tokens, Separator::Colon), vec![&tokens[..]]);
}

#[test]
fn split_looks_at_the_top_level_only() {
    let tokens = vec![paren(vec![ident("a"), Token::Comma, ident("b")]), Token::Comma, ident("c")];
    let parts = split_on_token(&tokens, Separator::Comma);
    assert_eq!(parts, vec![&tokens[0..1], &tokens[2..3]]);
}

#[test]
fn string_literals() {
    let token = make_string_literal("=r".to_string());
    assert_eq!(token, lit("=r"));
    assert_eq!(get_string_literal(&token), Some(&"=r".to_string()));
    assert_eq!(get_string_literal(&ident("r")), None);
    assert_eq!(get_string_literal(&Token::Colon), None);
    assert_eq!(get_string_literal(&paren(vec![lit("r")])), None);
    assert_eq!(get_string_literal(&Token::Other("1".to_string())), None);
}

#[test]
fn symbolic_name_is_taken_off_the_item() {
    let mut list = names(&[Some("z")]);
    let item = vec![bracket(vec![ident("a")]), lit("r"), paren(vec![ident("x")])];
    assert_eq!(
        extract_symbolic_name(&mut list, &item),
        Ok(vec![lit("r"), paren(vec![ident("x")])])
    );
    assert_eq!(list, names(&[Some("z"), Some("a")]));
}

#[test]
fn item_without_a_name_records_none() {
    let mut list = names(&[Some("z")]);
    let item = vec![lit("r"), paren(vec![ident("x")])];
    assert_eq!(extract_symbolic_name(&mut list, &item), Ok(item.iter().cloned().collect()));
    assert_eq!(list, names(&[Some("z"), None]));
    let item = vec![paren(vec![ident("x")])];
    assert_eq!(extract_symbolic_name(&mut list, &item), Ok(vec![paren(vec![ident("x")])]));
    assert_eq!(list, names(&[Some("z"), None, None]));
}

#[test]
fn malformed_name_leaves_the_list_alone() {
    let mut list = names(&[Some("z")]);
    let bad = SyntaxError { kind: ErrorKind::BadSymbolicName, position: 0 };
    assert_eq!(extract_symbolic_name(&mut list, &[bracket(vec![]), lit("r")]), Err(bad));
    assert_eq!(extract_symbolic_name(&mut list, &[bracket(vec![lit("a")]), lit("r")]), Err(bad));
    assert_eq!(
        extract_symbolic_name(&mut list, &[bracket(vec![ident("a"), ident("b")]), lit("r")]),
        Err(bad)
    );
    assert_eq!(
        extract_symbolic_name(&mut list, &[]),
        Err(SyntaxError { kind: ErrorKind::EmptyOperand, position: 0 })
    );
    assert_eq!(list, names(&[Some("z")]));
}

#[test]
fn one_operand() {
    let mut list = Vec::new();
    let item = vec![bracket(vec![ident("a")]), lit("r"), paren(vec![ident("x")])];
    assert_eq!(parse_operand(&mut list, &item), Ok(operand(Some("a"), "r", "x")));
    let item = vec![lit("=m"), paren(vec![ident("y")])];
    assert_eq!(parse_operand(&mut list, &item), Ok(operand(None, "=m", "y")));
    assert_eq!(list, names(&[Some("a"), None]));
    let item = vec![lit("i")];
    assert_eq!(
        parse_operand(&mut list, &item),
        Ok(OperandSpec { symbolic_name: None, constraint: "i".to_string(), expression: vec![] })
    );
}

#[test]
fn refused_operand_leaves_the_list_alone() {
    let mut list = names(&[None]);
    let item = vec![bracket(vec![ident("a")])];
    assert_eq!(
        parse_operand(&mut list, &item),
        Err(SyntaxError { kind: ErrorKind::EmptyOperand, position: 1 })
    );
    let item = vec![bracket(vec![ident("a")]), ident("r"), paren(vec![ident("x")])];
    assert_eq!(
        parse_operand(&mut list, &item),
        Err(SyntaxError { kind: ErrorKind::NonLiteralConstraint, position: 1 })
    );
    let item = vec![ident("r")];
    assert_eq!(
        parse_operand(&mut list, &item),
        Err(SyntaxError { kind: ErrorKind::NonLiteralConstraint, position: 0 })
    );
    assert_eq!(list, names(&[None]));
}

#[test]
fn operand_section() {
    let mut list = names(&[Some("o")]);
    let section = vec![
        bracket(vec![ident("a")]),
        lit("r"),
        paren(vec![ident("x")]),
        Token::Comma,
        lit("m"),
        paren(vec![ident("y")]),
    ];
    assert_eq!(
        parse_operands(&mut list, &section),
        Ok(vec![operand(Some("a"), "r", "x"), operand(None, "m", "y")])
    );
    assert_eq!(list, names(&[Some("o"), Some("a"), None]));
    assert_eq!(parse_operands(&mut list, &[]), Ok(vec![]));
    assert_eq!(list, names(&[Some("o"), Some("a"), None]));
}

#[test]
fn refused_section_leaves_the_list_alone() {
    let mut list = names(&[Some("o")]);
    let section = vec![
        bracket(vec![ident("a")]),
        lit("r"),
        paren(vec![ident("x")]),
        Token::Comma,
        bracket(vec![ident("b")]),
        ident("m"),
    ];
    assert_eq!(
        parse_operands(&mut list, &section),
        Err(SyntaxError { kind: ErrorKind::NonLiteralConstraint, position: 5 })
    );
    assert_eq!(list, names(&[Some("o")]));
    let section = vec![lit("r"), Token::Comma, Token::Comma, ident("m")];
    assert_eq!(
        parse_operands(&mut list, &section),
        Err(SyntaxError { kind: ErrorKind::EmptyOperand, position: 2 })
    );
    assert_eq!(list, names(&[Some("o")]));
}

#[test]
fn tied_operand_is_split_in_two() {
    let (output, input) = extract_tied_operands((3, operand(Some("n"), "+r", "x")));
    assert_eq!(output, operand(Some("n"), "=r", "x"));
    assert_eq!(input, Some(operand(None, "3", "x")));
    let (output, input) = extract_tied_operands((10, operand(None, "+", "x")));
    assert_eq!(output, operand(None, "=", "x"));
    assert_eq!(input, Some(operand(None, "10", "x")));
}

#[test]
fn only_the_leading_plus_is_rewritten() {
    let (output, input) = extract_tied_operands((0, operand(None, "+r+", "x")));
    assert_eq!(output, operand(None, "=r+", "x"));
    assert_eq!(input, Some(operand(None, "0", "x")));
}

#[test]
fn other_operands_pass_through() {
    for constraint in ["=r", "", "r+", "=+r"] {
        let (output, input) = extract_tied_operands((1, operand(Some("n"), constraint, "x")));
        assert_eq!(output, operand(Some("n"), constraint, "x"));
        assert_eq!(input, None);
    }
}

#[test]
fn table_stays_aligned_with_the_lists() {
    let outputs = vec![operand(Some("a"), "+r", "a"), operand(None, "=r", "b"), operand(Some("c"), "+m", "c")];
    let inputs = vec![operand(Some("d"), "r", "d")];
    let mut table = names(&[Some("a"), None, Some("c"), Some("d")]);
    let (outputs, inputs) = expand_tied_operands(&mut table, outputs, inputs);
    assert_eq!(
        outputs,
        vec![operand(Some("a"), "=r", "a"), operand(None, "=r", "b"), operand(Some("c"), "=m", "c")]
    );
    assert_eq!(
        inputs,
        vec![operand(Some("d"), "r", "d"), operand(None, "0", "a"), operand(None, "2", "c")]
    );
    assert_eq!(table.len(), outputs.len() + inputs.len());
    let listed: Vec<Option<String>> =
        outputs.iter().chain(inputs.iter()).map(|o| o.symbolic_name.clone()).collect();
    assert_eq!(table, listed);
}

#[test]
fn copies_are_equal() {
    let token = paren(vec![ident("a"), bracket(vec![lit("b"), Token::Other("+".to_string())])]);
    assert_eq!(token.clone(), token);
    let op = operand(Some("n"), "+r", "x");
    assert_eq!(op.clone(), op);
}

#[test]
fn operand_as_it_is_written() {
    let op = operand(Some("n"), "=r", "x");
    assert_eq!(op.to_tokens(), vec![lit("=r"), paren(vec![ident("x")])]);
    let bare = OperandSpec { symbolic_name: None, constraint: String::new(), expression: vec![] };
    assert_eq!(bare.to_tokens(), vec![lit("")]);
    let mut list = Vec::new();
    assert_eq!(parse_operand(&mut list, &op.to_tokens()), Ok(operand(None, "=r", "x")));
}
