use lisper::error::LispError;
use lisper::lispies::{Lisper, Lispies};
use lisper::parser::Parser;

fn symbol(name: &str) -> Lispies {
    Lispies::Symbol(name.to_string())
}

fn list(items: Vec<Lispies>) -> Lispies {
    Lispies::List(Lisper { list: items })
}

fn begin_program_tokens() -> Vec<String> {
    [
        "(", "begin", "(", "define", "r", "10", ")", "(", "*", "pi", "(", "*", "r", "r", ")",
        ")", ")",
    ]
    .into_iter()
    .map(|s| s.to_string())
    .collect::<Vec<String>>()
}

fn define_r_10() -> Lisper {
    Lisper { list: vec![symbol("define"), symbol("r"), Lispies::Int(10)] }
}

fn define_r() -> Lisper {
    Lisper { list: vec![symbol("define"), list(vec![symbol("r")])] }
}

fn define_r_pi() -> Lisper {
    Lisper { list: vec![symbol("define"), list(vec![symbol("r")]), list(vec![symbol("pi")])] }
}

fn define_r_r() -> Lisper {
    Lisper { list: vec![symbol("define"), list(vec![symbol("r"), list(vec![symbol("r")])])] }
}

fn begin_program() -> Lisper {
    Lisper {
        list: vec![
            symbol("begin"),
            list(vec![symbol("define"), symbol("r"), Lispies::Int(10)]),
            list(vec![
                symbol("*"),
                symbol("pi"),
                list(vec![symbol("*"), symbol("r"), symbol("r")]),
            ]),
        ],
    }
}

#[test]
fn lib_vectorize_test_1() {
    let program = "(begin (define r 10) (* pi (* r r)))";
    let answer = begin_program_tokens();
    assert_eq!(program.vectorize(), answer);
}

#[test]
fn parser_vectorize_test_1() {
    let program = "(begin (define r 10) (* pi (* r r)))";
    let answer = begin_program_tokens();
    assert_eq!(program.vectorize(), answer);
}

#[test]
fn lib_test_one_lisper_1() {
    let program = "(define r 10)";
    let res = define_r_10();
    let act = program.tokenize();
    assert_eq!(act, Ok(Some(res)));
}

#[test]
fn parser_test_one_lisper_1() {
    let program = "(define r 10)";
    let res = define_r_10();
    let act = program.tokenize();
    assert_eq!(act, Ok(Some(res)));
}

#[test]
fn lib_test_nest_lisper_1() {
    let program = "(define (r))";
    let res = define_r();
    let act = program.tokenize();
    assert_eq!(act, Ok(Some(res)));
}

#[test]
fn parser_test_nest_lisper_1() {
    let program = "(define (r))";
    let res = define_r();
    let act = program.tokenize();
    assert_eq!(act, Ok(Some(res)));
}

#[test]
fn lib_test_nest_lisper_2() {
    let program = "(define (r) (pi))";
    let res = define_r_pi();
    let act = program.tokenize();
    assert_eq!(act, Ok(Some(res)));
}

#[test]
fn parser_test_nest_lisper_2() {
    let program = "(define (r) (pi))";
    let res = define_r_pi();
    let act = program.tokenize();
    assert_eq!(act, Ok(Some(res)));
}

#[test]
fn lib_test_nest_lisper_3() {
    let program = "(define (r (r)))";
    let res = define_r_r();
    let act = program.tokenize();
    assert_eq!(act, Ok(Some(res)));
}

#[test]
fn parser_test_nest_lisper_3() {
    let program = "(define (r (r)))";
    let res = define_r_r();
    let act = program.tokenize();
    assert_eq!(act, Ok(Some(res)));
}

#[test]
fn lib_test_nest_lisper_4() {
    let program = "(begin (define r 10) (* pi (* r r)))";
    let res = begin_program();
    let act = program.tokenize();
    println!("{:#?}", act);
    println!("{:#?}", res);
    assert_eq!(act, Ok(Some(res)));
}

#[test]
fn parser_test_nest_lisper_4() {
    let program = "(begin (define r 10) (* pi (* r r)))";
    let res = begin_program();
    let act = program.tokenize();
    assert_eq!(act, Ok(Some(res)));
}

fn strings(tokens: &[&str]) -> Vec<String> {
    tokens.iter().map(|s| s.to_string()).collect()
}

#[test]
fn vectorize_empty_text_has_no_tokens() {
    assert_eq!("".vectorize(), Vec::<String>::new());
    assert_eq!(" \t\n\r\x0C ".vectorize(), Vec::<String>::new());
}

#[test]
fn vectorize_splits_on_every_ascii_space() {
    assert_eq!("a\tb\nc\rd\x0Ce  f".vectorize(), strings(&["a", "b", "c", "d", "e", "f"]));
}

#[test]
fn vectorize_makes_every_parenthesis_a_token() {
    assert_eq!("(a)".vectorize(), strings(&["(", "a", ")"]));
    assert_eq!("a(b".vectorize(), strings(&["a", "(", "b"]));
    assert_eq!("a)b".vectorize(), strings(&["a", ")", "b"]));
    assert_eq!("(a)(b)".vectorize(), strings(&["(", "a", ")", "(", "b", ")"]));
    assert_eq!("(a(b)c)".vectorize(), strings(&["(", "a", "(", "b", ")", "c", ")"]));
    assert_eq!("((".vectorize(), strings(&["(", "("]));
    assert_eq!("))".vectorize(), strings(&[")", ")"]));
    assert_eq!(")(".vectorize(), strings(&[")", "("]));
}

#[test]
fn vectorize_counts_parentheses() {
    for text in ["", "(", ")", "(a(b)c)", "a(b)c)d(e", "((()))", ")))(((", " ( x ) "] {
        let tokens = text.vectorize();
        for token in &tokens {
            assert!(!token.is_empty());
            assert!(!token.contains(|c: char| c.is_ascii_whitespace()));
            assert!(token == "(" || token == ")" || !token.contains(|c| c == '(' || c == ')'));
        }
        let openers = tokens.iter().filter(|t| t.as_str() == "(").count();
        let closers = tokens.iter().filter(|t| t.as_str() == ")").count();
        assert_eq!(openers, text.chars().filter(|c| *c == '(').count());
        assert_eq!(closers, text.chars().filter(|c| *c == ')').count());
    }
}

#[test]
fn vectorize_keeps_other_characters_verbatim() {
    assert_eq!("(λ \"x y\" 1.5e3)".vectorize(), strings(&["(", "λ", "\"x", "y\"", "1.5e3", ")"]));
    assert_eq!("a\u{a0}b".vectorize(), strings(&["a\u{a0}b"]));
}

#[test]
fn tokenize_without_opener_is_nothing() {
    assert_eq!("".tokenize(), Ok(None));
    assert_eq!("   ".tokenize(), Ok(None));
}

#[test]
fn tokenize_lone_closer_is_nothing() {
    assert_eq!(")".tokenize(), Ok(None));
    assert_eq!(") ) )".tokenize(), Ok(None));
}

#[test]
fn tokenize_drops_stray_closer() {
    assert_eq!("(a))".tokenize(), Ok(Some(Lisper { list: vec![symbol("a")] })));
    assert_eq!("(a))".tokenize(), "(a)".tokenize());
}

#[test]
fn tokenize_empty_list() {
    assert_eq!("()".tokenize(), Ok(Some(Lisper { list: vec![] })));
    assert_eq!("(".tokenize(), Ok(Some(Lisper::new())));
}

#[test]
fn tokenize_atom_before_opener_is_malformed() {
    assert_eq!("a (b)".tokenize(), Err(LispError::MalformedInput));
    assert_eq!("1".tokenize(), Err(LispError::MalformedInput));
    assert_eq!("x.y (b)".tokenize(), Err(LispError::MalformedInput));
}

#[test]
fn tokenize_bad_number_fails() {
    assert_eq!("(+ 1 99999999999)".tokenize(), Err(LispError::NumericParseFailure));
    assert_eq!("(+ 1 2147483648)".tokenize(), Err(LispError::NumericParseFailure));
    assert_eq!("(+ 1 a.b)".tokenize(), Err(LispError::NumericParseFailure));
    assert_eq!("(+ 1 .)".tokenize(), Err(LispError::NumericParseFailure));
}

#[test]
fn tokenize_reads_other_tokens_as_symbols() {
    assert_eq!(
        "(+ 1 r2)".tokenize(),
        Ok(Some(Lisper { list: vec![symbol("+"), Lispies::Int(1), symbol("r2")] }))
    );
}

#[test]
fn tokenize_glued_parentheses_nest() {
    assert_eq!(
        "(a(b))".tokenize(),
        Ok(Some(Lisper { list: vec![symbol("a"), list(vec![symbol("b")])] }))
    );
    assert_eq!(
        "(a (b (c)d)e)".tokenize(),
        Ok(Some(Lisper {
            list: vec![
                symbol("a"),
                list(vec![symbol("b"), list(vec![symbol("c")]), symbol("d")]),
                symbol("e"),
            ]
        }))
    );
}

#[test]
fn tokenize_drops_closers_behind_a_balanced_expression() {
    for program in ["(a)", "(a (b (c)d)e)", "(+ (+ 1 1) (- 2 1))", "()"] {
        let tree = program.tokenize();
        assert!(matches!(tree, Ok(Some(_))));
        for k in 1..4 {
            let longer = format!("{}{}", program, ")".repeat(k));
            assert_eq!(longer.tokenize(), tree, "{}", longer);
        }
    }
}

#[test]
fn tokenize_first_error_wins() {
    assert_eq!("x (1.2.3)".tokenize(), Err(LispError::MalformedInput));
    assert_eq!("(1.2.3) )x".tokenize(), Err(LispError::NumericParseFailure));
}

#[test]
fn tokenize_after_the_root_closed_goes_on_in_the_root() {
    assert_eq!("(a) b".tokenize(), Ok(Some(Lisper { list: vec![symbol("a"), symbol("b")] })));
    assert_eq!(
        "(a) (b)".tokenize(),
        Ok(Some(Lisper { list: vec![symbol("a"), list(vec![symbol("b")])] }))
    );
}

#[test]
fn tokenize_leaves_out_lists_still_open() {
    assert_eq!("(a (b".tokenize(), Ok(Some(Lisper { list: vec![symbol("a")] })));
    assert_eq!("(a (b (c) d".tokenize(), Ok(Some(Lisper { list: vec![symbol("a")] })));
}

#[test]
fn tokenize_reads_signed_tokens_as_symbols() {
    assert_eq!(
        "(-5 +7 0012)".tokenize(),
        Ok(Some(Lisper { list: vec![symbol("-5"), symbol("+7"), Lispies::Int(12)] }))
    );
}

fn atoms(items: &[Lispies], found: &mut Vec<Lispies>, lists: &mut usize) {
    for item in items {
        match item {
            Lispies::List(inner) => {
                *lists += 1;
                atoms(&inner.list, found, lists);
            }
            other => found.push(other.clone()),
        }
    }
}

#[test]
fn tokenize_keeps_every_atom_in_order() {
    for program in ["(a (b (c)d)e)", "(begin (define r 10) (* pi (* r r)))", "(1 (2.5) x)", "()"] {
        let tokens = program.vectorize();
        let expected: Vec<Lispies> = tokens
            .iter()
            .filter(|t| t.as_str() != "(" && t.as_str() != ")")
            .map(|t| Lispies::from_token(t).unwrap())
            .collect();
        let openers = tokens.iter().filter(|t| t.as_str() == "(").count();
        let tree = program.tokenize().unwrap().unwrap();
        let mut found = Vec::new();
        let mut lists = 0usize;
        atoms(&tree.list, &mut found, &mut lists);
        assert_eq!(found, expected, "{}", program);
        assert_eq!(lists, openers - 1, "{}", program);
    }
}

fn depth(items: &[Lispies]) -> usize {
    1 + items
        .iter()
        .map(|item| match item {
            Lispies::List(inner) => depth(&inner.list),
            _ => 0,
        })
        .max()
        .unwrap_or(0)
}

fn paren_depth(text: &str) -> usize {
    let mut level = 0usize;
    let mut peak = 0usize;
    for c in text.chars() {
        if c == '(' {
            level += 1;
            peak = peak.max(level);
        } else if c == ')' {
            level -= 1;
        }
    }
    peak
}

#[test]
fn nesting_depth_matches_parentheses() {
    for program in [
        "()",
        "(a)",
        "(define (r))",
        "(define (r) (pi))",
        "(define (r (r)))",
        "(begin (define r 10) (* pi (* r r)))",
        "(((((x)))) (y) ((z)))",
        "(a(b))",
        "(a(b(c)d)e)",
    ] {
        let tree = program.tokenize().unwrap().unwrap();
        assert_eq!(depth(&tree.list), paren_depth(program), "{}", program);
    }
}

#[test]
fn begin_program_nests_three_deep() {
    let tree = "(begin (define r 10) (* pi (* r r)))".tokenize().unwrap().unwrap();
    assert_eq!(tree.list.len(), 3);
    assert!(matches!(tree.list[1], Lispies::List(_)));
    assert!(matches!(tree.list[2], Lispies::List(_)));
    assert_eq!(depth(&tree.list), 3);
    match &tree.list[2] {
        Lispies::List(product) => {
            assert_eq!(product.list[2], list(vec![symbol("*"), symbol("r"), symbol("r")]))
        }
        other => panic!("not a list: {:?}", other),
    }
}
