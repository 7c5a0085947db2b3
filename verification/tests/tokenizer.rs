use linsl::parsing::Tokenizer;

fn setup(input: &str) -> Tokenizer {
    let lines: Vec<String> = input.lines().map(|l| l.to_string()).collect();
    Tokenizer::new(vec![lines]).unwrap()
}

#[test]
fn tokenize_line() {
    let s = "(+ 1 2 3)\n";
    let tokenizer = setup(s);

    let string: String = s.to_string();

    let mut tokens: Vec<String> = Vec::new();

    for s in string.chars() {
        if s != ' ' && s != '\n' {
            tokens.push(s.to_string());
        }
    }

    assert_eq!(tokens.len(), 6);

    let test = tokenizer
        .tokens
        .iter()
        .zip(&tokens)
        .fold(true, |acc, (t, c)| (*c == t.0) && acc);
    if !test {
        println!("{:?}", tokens);
        println!("{:?}", &tokenizer.tokens);
    };
    assert!(test);
}

#[test]
fn check_peek_length() {
    let s = "(+ 1 2 3)\n";
    let mut tokenizer = setup(s);

    let len0 = tokenizer.tokens.len();
    let _ = tokenizer.peek();
    let len1 = tokenizer.tokens.len();
    assert_eq!(len0, len1)
}

#[test]
fn check_peek_idempotence() {
    let s = "(+ 1 2 3)\n";
    let mut tokenizer = setup(s);

    let a = tokenizer.peek().unwrap();
    let b = tokenizer.peek().unwrap();
    assert_eq!(a, b);
}

#[test]
fn next_token() {
    let s = "(+ 1 2 3)\n";
    let mut tokenizer = setup(s);

    let string: Vec<String> = s
        .replace("(", " ( ")
        .replace(")", " ) ")
        .split_whitespace()
        .map(|c| c.to_string())
        .collect();

    (0..string.len()).for_each(|n| {
        let token = tokenizer.next_token().unwrap();
        assert_eq!(string[n], token)
    });
}

#[test]
fn comments_and_specials() {
    let mut tokenizer = setup("(a ; trailing comment\n,@b `c 'd ,e)\n");
    let mut out: Vec<String> = Vec::new();
    while let Some(t) = tokenizer.next_token() {
        out.push(t);
    }
    assert_eq!(out, vec!["(", "a", ",@", "b", "`", "c", "'", "d", ",", "e", ")"]);
}

#[test]
fn multiple_sources_compose() {
    let mut tokenizer = setup("a b\n");
    tokenizer.add_input(vec!["c".to_string()]).unwrap();
    let mut out: Vec<String> = Vec::new();
    while let Some(t) = tokenizer.next_token() {
        out.push(t);
    }
    assert_eq!(out, vec!["a", "b", "c"]);
}

#[test]
fn blank_lines_are_skipped() {
    let mut tokenizer = setup("\n\nx\n");
    assert_eq!(tokenizer.next_token(), Some("x".to_string()));
    assert_eq!(tokenizer.next_token(), None);
}

#[test]
fn unbalanced_source_is_rejected() {
    let lines = vec!["((".to_string(), ")".to_string()];
    match Tokenizer::new(vec![lines]) {
        Err(linsl::LinslErr::UnbalancedParens(o, c)) => {
            assert_eq!((o, c), (2, 1));
        }
        _ => panic!("expected unbalanced parentheses"),
    }
}

#[test]
fn add_input_checks_balance() {
    let mut tokenizer = setup("x\n");
    let r = tokenizer.add_input(vec![") (".to_string(), ")".to_string()]);
    match r {
        Err(linsl::LinslErr::UnbalancedParens(o, c)) => {
            assert_eq!((o, c), (1, 2));
        }
        _ => panic!("expected unbalanced parentheses"),
    }
}

#[test]
fn positions_track_line_and_column() {
    let mut tokenizer = setup("(a\n  b)\n");
    let _ = tokenizer.next_token(); // "("
    assert_eq!(tokenizer.get_pos(), (0, 0));
    let _ = tokenizer.next_token(); // "a"
    assert_eq!(tokenizer.get_pos(), (0, 1));
    let _ = tokenizer.next_token(); // "b"
    assert_eq!(tokenizer.get_pos(), (1, 2));
    let _ = tokenizer.next_token(); // ")"
    assert_eq!(tokenizer.get_pos(), (1, 3));
}

#[test]
fn check_parens_counts() {
    assert_eq!(linsl::parsing::check_parens("(a (b))"), None);
    assert_eq!(linsl::parsing::check_parens("((a)"), Some((2, 1)));
    assert_eq!(linsl::parsing::check_parens(""), None);
}
