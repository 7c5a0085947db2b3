use linsl::datatypes::{LinslEnv, LinslErr, LinslExpr};
use linsl::evaluation::evaluate;
use linsl::parsing::{parse, Tokenizer};

fn num(v: f64) -> LinslExpr {
    LinslExpr::Number(v.to_bits())
}

fn parse_str(input: &str) -> LinslExpr {
    let lines: Vec<String> = input.lines().map(|l| l.to_string()).collect();
    let mut tokenizer = Tokenizer::new(vec![lines]).unwrap();
    parse(&mut tokenizer).unwrap()
}

fn eval_str(input: &str, env: &mut LinslEnv) -> Result<LinslExpr, LinslErr> {
    let lines: Vec<String> = input.lines().map(|l| l.to_string()).collect();
    let mut tokenizer = Tokenizer::new(vec![lines])?;
    let expr = parse(&mut tokenizer)?;
    evaluate(&expr, env, 0)
}

#[test]
fn addition_folds_numbers() {
    let mut env = LinslEnv::default();
    assert_eq!(eval_str("(+ 1 2 3)", &mut env).unwrap(), num(6.0));
}

#[test]
fn define_then_lookup() {
    let mut env = LinslEnv::default();
    let echoed = eval_str("(define x 5)", &mut env).unwrap();
    assert_eq!(echoed, LinslExpr::Symbol("x".to_string()));
    assert_eq!(eval_str("x", &mut env).unwrap(), num(5.0));
}

#[test]
fn car_and_cdr_of_empty_list() {
    let mut env = LinslEnv::default();
    assert_eq!(eval_str("(car '())", &mut env).unwrap(), LinslExpr::List(vec![]));
    assert_eq!(eval_str("(cdr '())", &mut env).unwrap(), LinslExpr::List(vec![]));
}

#[test]
fn lambda_application() {
    let mut env = LinslEnv::default();
    assert_eq!(
        eval_str("((lambda (a b) (+ a b)) 3 4)", &mut env).unwrap(),
        num(7.0)
    );
}

#[test]
fn last_parameter_absorbs_surplus() {
    let mut env = LinslEnv::default();
    assert_eq!(
        eval_str("((lambda (a b) b) 1 2 3 4)", &mut env).unwrap(),
        LinslExpr::List(vec![num(2.0), num(3.0), num(4.0)])
    );
    assert_eq!(
        eval_str("((lambda (a b) a) 1 2 3 4)", &mut env).unwrap(),
        num(1.0)
    );
}

#[test]
fn too_few_values_is_an_error() {
    let mut env = LinslEnv::default();
    assert!(matches!(
        eval_str("((lambda (a b) a) 1)", &mut env),
        Err(LinslErr::SyntaxError(_, _))
    ));
}

#[test]
fn quasiquote_with_unquote() {
    let mut env = LinslEnv::default();
    assert_eq!(
        eval_str("`(1 ,(+ 1 1) 3)", &mut env).unwrap(),
        LinslExpr::List(vec![num(1.0), num(2.0), num(3.0)])
    );
}

#[test]
fn quasiquote_splicing() {
    let mut env = LinslEnv::default();
    assert_eq!(
        eval_str("`(1 ,@(list 2 3) 4)", &mut env).unwrap(),
        LinslExpr::List(vec![num(1.0), num(2.0), num(3.0), num(4.0)])
    );
}

#[test]
fn quasiquote_atom_is_plain_quote() {
    let mut env = LinslEnv::default();
    assert_eq!(
        eval_str("`x", &mut env).unwrap(),
        LinslExpr::Symbol("x".to_string())
    );
}

#[test]
fn splicing_at_top_level_is_an_error() {
    let mut env = LinslEnv::default();
    assert!(matches!(
        eval_str("`,@x", &mut env),
        Err(LinslErr::SyntaxError(_, _))
    ));
}

#[test]
fn macro_argument_is_not_evaluated_at_binding() {
    let mut env = LinslEnv::default();
    eval_str("(define ignore (macro (a) 5))", &mut env).unwrap();
    // The argument would fail loudly if it were ever evaluated.
    assert_eq!(eval_str("(ignore (no-such-symbol))", &mut env).unwrap(), num(5.0));
}

#[test]
fn macro_body_evaluates_argument_once() {
    let mut env = LinslEnv::default();
    eval_str("(define expand (macro (a) a))", &mut env).unwrap();
    assert_eq!(eval_str("(expand (+ 1 2))", &mut env).unwrap(), num(3.0));
}

#[test]
fn closure_calls_do_not_leak_bindings() {
    let mut env = LinslEnv::default();
    eval_str("(define f (lambda (a) a))", &mut env).unwrap();
    assert_eq!(eval_str("(f 1)", &mut env).unwrap(), num(1.0));
    assert_eq!(eval_str("(f 2)", &mut env).unwrap(), num(2.0));
    // The parameter never escapes into the calling scope.
    assert!(matches!(
        eval_str("a", &mut env),
        Err(LinslErr::SyntaxError(_, _))
    ));
}

#[test]
fn inv_of_zero_is_an_error() {
    let mut env = LinslEnv::default();
    assert!(matches!(
        eval_str("(inv 0)", &mut env),
        Err(LinslErr::SyntaxError(_, _))
    ));
    assert!(matches!(
        eval_str("(inv -0.0)", &mut env),
        Err(LinslErr::SyntaxError(_, _))
    ));
}

#[test]
fn inv_divides_one_by_its_argument() {
    let mut env = LinslEnv::default();
    assert_eq!(eval_str("(inv 2)", &mut env).unwrap(), num(0.5));
    assert!(matches!(
        eval_str("(inv)", &mut env),
        Err(LinslErr::SyntaxError(_, _))
    ));
}

#[test]
fn multiplication_and_negation() {
    let mut env = LinslEnv::default();
    assert_eq!(eval_str("(* 2 3 4)", &mut env).unwrap(), num(24.0));
    assert_eq!(eval_str("(*)", &mut env).unwrap(), num(1.0));
    assert_eq!(eval_str("(+)", &mut env).unwrap(), num(0.0));
    assert_eq!(eval_str("(neg 3)", &mut env).unwrap(), num(-3.0));
    assert_eq!(eval_str("(neg)", &mut env).unwrap(), num(-0.0));
}

#[test]
fn comparisons() {
    let mut env = LinslEnv::default();
    assert_eq!(eval_str("(> 2 1)", &mut env).unwrap(), LinslExpr::Bool(true));
    assert_eq!(eval_str("(> 1 2)", &mut env).unwrap(), LinslExpr::Bool(false));
    assert_eq!(eval_str("(> -1 -2)", &mut env).unwrap(), LinslExpr::Bool(true));
    assert_eq!(eval_str("(= 2 2)", &mut env).unwrap(), LinslExpr::Bool(true));
    assert_eq!(eval_str("(= 2 3)", &mut env).unwrap(), LinslExpr::Bool(false));
    assert_eq!(
        eval_str("(= (quote a) (quote a))", &mut env).unwrap(),
        LinslExpr::Bool(true)
    );
    assert_eq!(eval_str("(= #t #f)", &mut env).unwrap(), LinslExpr::Bool(false));
    assert!(matches!(
        eval_str("(= 1 #t)", &mut env),
        Err(LinslErr::SyntaxError(_, _))
    ));
    assert!(matches!(
        eval_str("(> 1 #t)", &mut env),
        Err(LinslErr::SyntaxError(_, _))
    ));
    // A wrong number of arguments is a user-level error too.
    assert!(matches!(
        eval_str("(> 1)", &mut env),
        Err(LinslErr::SyntaxError(_, _))
    ));
    assert!(matches!(
        eval_str("(= 1)", &mut env),
        Err(LinslErr::SyntaxError(_, _))
    ));
}

#[test]
fn list_and_append() {
    let mut env = LinslEnv::default();
    assert_eq!(
        eval_str("(list 1 2)", &mut env).unwrap(),
        LinslExpr::List(vec![num(1.0), num(2.0)])
    );
    assert_eq!(eval_str("(list)", &mut env).unwrap(), LinslExpr::List(vec![]));
    assert_eq!(
        eval_str("(append '(1) '(2) '(3))", &mut env).unwrap(),
        LinslExpr::List(vec![num(1.0), num(2.0), num(3.0)])
    );
    assert_eq!(
        eval_str("(append '(1 2))", &mut env).unwrap(),
        LinslExpr::List(vec![num(1.0), num(2.0)])
    );
    assert!(matches!(
        eval_str("(append '(1) 2)", &mut env),
        Err(LinslErr::SyntaxError(_, _))
    ));
    assert!(matches!(
        eval_str("(append)", &mut env),
        Err(LinslErr::SyntaxError(_, _))
    ));
}

#[test]
fn empty_and_type_tests() {
    let mut env = LinslEnv::default();
    assert_eq!(eval_str("(empty? '())", &mut env).unwrap(), LinslExpr::Bool(true));
    assert_eq!(eval_str("(empty? '(1))", &mut env).unwrap(), LinslExpr::Bool(false));
    assert_eq!(eval_str("(empty? 1)", &mut env).unwrap(), LinslExpr::Bool(false));
    assert_eq!(eval_str("(eqt? 1 2)", &mut env).unwrap(), LinslExpr::Bool(true));
    assert_eq!(eval_str("(eqt? 1 #t)", &mut env).unwrap(), LinslExpr::Bool(false));
    assert_eq!(
        eval_str("(eqt? (lambda (x) x) (lambda (y) y))", &mut env).unwrap(),
        LinslExpr::Bool(true)
    );
}

#[test]
fn if_selects_branch_lazily() {
    let mut env = LinslEnv::default();
    assert_eq!(eval_str("(if #t 1 (no-such))", &mut env).unwrap(), num(1.0));
    assert_eq!(eval_str("(if #f (no-such) 2)", &mut env).unwrap(), num(2.0));
    assert!(matches!(
        eval_str("(if 1 2 3)", &mut env),
        Err(LinslErr::SyntaxError(_, _))
    ));
}

#[test]
fn quote_returns_form_unevaluated() {
    let mut env = LinslEnv::default();
    assert_eq!(
        eval_str("(quote (+ 1 2))", &mut env).unwrap(),
        LinslExpr::List(vec![
            LinslExpr::Symbol("+".to_string()),
            num(1.0),
            num(2.0)
        ])
    );
    assert!(matches!(
        eval_str("(quote)", &mut env),
        Err(LinslErr::SyntaxError(_, _))
    ));
}

#[test]
fn errors_from_malformed_forms() {
    let mut env = LinslEnv::default();
    assert!(matches!(
        eval_str("()", &mut env),
        Err(LinslErr::SyntaxError(_, _))
    ));
    assert!(matches!(
        eval_str("boom", &mut env),
        Err(LinslErr::SyntaxError(_, _))
    ));
    assert!(matches!(
        eval_str("(1 2)", &mut env),
        Err(LinslErr::SyntaxError(_, _))
    ));
    assert!(matches!(
        eval_str("(define x)", &mut env),
        Err(LinslErr::SyntaxError(_, _))
    ));
    assert!(matches!(
        eval_str("(define 1 2)", &mut env),
        Err(LinslErr::SyntaxError(_, _))
    ));
    assert!(matches!(
        eval_str("(lambda (x))", &mut env),
        Err(LinslErr::SyntaxError(_, _))
    ));
}

#[test]
fn unexpected_closing_parenthesis() {
    let mut env = LinslEnv::default();
    // Balanced over the whole source, but a closing parenthesis comes first.
    assert!(matches!(
        eval_str(")(", &mut env),
        Err(LinslErr::SyntaxError(_, _))
    ));
}

#[test]
fn parse_classifies_atoms() {
    assert_eq!(parse_str("#t"), LinslExpr::Bool(true));
    assert_eq!(parse_str("#f"), LinslExpr::Bool(false));
    assert_eq!(parse_str("2.5"), num(2.5));
    assert_eq!(parse_str("-4"), num(-4.0));
    assert_eq!(parse_str("abc"), LinslExpr::Symbol("abc".to_string()));
}

#[test]
fn parse_helpers() {
    assert_eq!(linsl::primitives::parse_num(&num(2.0)), Ok(2.0f64.to_bits()));
    assert!(linsl::primitives::parse_num(&LinslExpr::Bool(true)).is_err());
    assert_eq!(
        linsl::primitives::parse_list_of_nums(&[num(1.0), num(2.0)]),
        Ok(vec![1.0f64.to_bits(), 2.0f64.to_bits()])
    );
    assert!(linsl::primitives::parse_list_of_nums(&[num(1.0), LinslExpr::Bool(true)]).is_err());
    let symbols = LinslExpr::List(vec![
        LinslExpr::Symbol("a".to_string()),
        LinslExpr::Symbol("b".to_string()),
    ]);
    assert_eq!(
        linsl::parsing::parse_list_of_symbols(&symbols),
        Ok(vec!["a".to_string(), "b".to_string()])
    );
    assert!(linsl::parsing::parse_list_of_symbols(&num(1.0)).is_err());
}

#[test]
fn define_inside_call_does_not_escape() {
    let mut env = LinslEnv::default();
    eval_str("(define f (lambda (a) (define inner 7)))", &mut env).unwrap();
    eval_str("(f 1)", &mut env).unwrap();
    assert!(matches!(
        eval_str("inner", &mut env),
        Err(LinslErr::SyntaxError(_, _))
    ));
}

#[test]
fn shadowing_is_local_to_the_call() {
    let mut env = LinslEnv::default();
    eval_str("(define x 1)", &mut env).unwrap();
    eval_str("(define f (lambda (x) x))", &mut env).unwrap();
    assert_eq!(eval_str("(f 9)", &mut env).unwrap(), num(9.0));
    assert_eq!(eval_str("x", &mut env).unwrap(), num(1.0));
}

#[test]
fn parse_consumes_exactly_one_expression() {
    let lines: Vec<String> = vec!["1 (+ 1 1) x".to_string()];
    let mut tokenizer = Tokenizer::new(vec![lines]).unwrap();
    assert_eq!(parse(&mut tokenizer).unwrap(), num(1.0));
    assert_eq!(
        parse(&mut tokenizer).unwrap(),
        LinslExpr::List(vec![LinslExpr::Symbol("+".to_string()), num(1.0), num(1.0)])
    );
    assert_eq!(parse(&mut tokenizer).unwrap(), LinslExpr::Symbol("x".to_string()));
    assert!(parse(&mut tokenizer).is_err());
}

#[test]
fn parse_eval_reads_one_form_at_a_time() {
    let lines: Vec<String> = vec!["(define y 2) (+ y y)".to_string()];
    let mut tokenizer = Tokenizer::new(vec![lines]).unwrap();
    let mut env = LinslEnv::default();
    assert_eq!(
        linsl::evaluation::parse_eval(&mut tokenizer, &mut env).unwrap(),
        LinslExpr::Symbol("y".to_string())
    );
    assert_eq!(
        linsl::evaluation::parse_eval(&mut tokenizer, &mut env).unwrap(),
        num(4.0)
    );
}

#[test]
fn multiline_expression_across_lines() {
    let lines: Vec<String> = vec!["(+ 1".to_string(), "   2)".to_string()];
    let mut tokenizer = Tokenizer::new(vec![lines]).unwrap();
    let mut env = LinslEnv::default();
    assert_eq!(
        linsl::evaluation::parse_eval(&mut tokenizer, &mut env).unwrap(),
        num(3.0)
    );
}

#[test]
fn numbers_round_through_parsing() {
    let mut env = LinslEnv::default();
    assert_eq!(eval_str("1e3", &mut env).unwrap(), num(1000.0));
    assert_eq!(eval_str("-2.5", &mut env).unwrap(), num(-2.5));
    // Number-like text that fails to parse is a symbol, and unbound.
    assert!(matches!(
        eval_str("1..2", &mut env),
        Err(LinslErr::SyntaxError(_, _))
    ));
}

#[test]
fn child_scopes_see_outer_bindings() {
    let mut env = LinslEnv::default();
    eval_str("(define x 1)", &mut env).unwrap();
    let child = env.new(0);
    let expr = parse_str("x");
    assert_eq!(evaluate(&expr, &mut env, child).unwrap(), num(1.0));
    // A define in the child scope is invisible at the root.
    let d = parse_str("(define z 9)");
    evaluate(&d, &mut env, child).unwrap();
    assert!(matches!(
        eval_str("z", &mut env),
        Err(LinslErr::SyntaxError(_, _))
    ));
}

#[test]
fn special_number_spellings() {
    let mut env = LinslEnv::default();
    assert_eq!(eval_str("inf", &mut env).unwrap(), num(f64::INFINITY));
    assert_eq!(eval_str("INF", &mut env).unwrap(), num(f64::INFINITY));
    assert_eq!(eval_str("infinity", &mut env).unwrap(), num(f64::INFINITY));
    assert_eq!(eval_str("Infinity", &mut env).unwrap(), num(f64::INFINITY));
    assert_eq!(eval_str("-inf", &mut env).unwrap(), num(f64::NEG_INFINITY));
    assert_eq!(
        eval_str("nan", &mut env).unwrap(),
        LinslExpr::Number(0x7FF8_0000_0000_0000)
    );
    assert_eq!(
        eval_str("-NaN", &mut env).unwrap(),
        LinslExpr::Number(0xFFF8_0000_0000_0000)
    );
}

#[test]
fn number_like_text_outside_the_grammar_is_a_symbol() {
    // None of these are numeric literals of the language, so they all
    // come out as unbound symbols.
    for text in ["0x1p4", "snan", "nan123", "1e", "1e+", "-", "1..2", "e5"] {
        let mut env = LinslEnv::default();
        assert!(
            matches!(eval_str(text, &mut env), Err(LinslErr::SyntaxError(_, _))),
            "{} should be an unbound symbol",
            text
        );
    }
    // "+" is likewise a symbol, but a bound one: the addition primitive.
    let mut env = LinslEnv::default();
    assert!(matches!(
        eval_str("+", &mut env),
        Ok(LinslExpr::Primitive(_))
    ));
}

#[test]
fn decimal_literal_edge_shapes() {
    let mut env = LinslEnv::default();
    assert_eq!(eval_str("+5", &mut env).unwrap(), num(5.0));
    assert_eq!(eval_str("5.", &mut env).unwrap(), num(5.0));
    assert_eq!(eval_str(".5", &mut env).unwrap(), num(0.5));
    assert_eq!(eval_str("1.25e2", &mut env).unwrap(), num(125.0));
    assert_eq!(eval_str("1E-2", &mut env).unwrap(), num(0.01));
}

#[test]
fn errors_name_the_offending_value() {
    let mut env = LinslEnv::default();
    match eval_str("(#t 1)", &mut env) {
        Err(LinslErr::SyntaxError(msg, _)) => {
            assert_eq!(msg, "Expected the head of list to be a primitive, found '#t'");
        }
        other => panic!("expected a syntax error, got {:?}", other),
    }
    match eval_str("boom", &mut env) {
        Err(LinslErr::SyntaxError(msg, _)) => {
            assert_eq!(msg, "Undefined symbol 'boom'");
        }
        other => panic!("expected a syntax error, got {:?}", other),
    }
}

#[test]
fn render_gives_canonical_text() {
    let e = LinslExpr::List(vec![
        LinslExpr::Symbol("a".to_string()),
        LinslExpr::Bool(true),
        LinslExpr::List(vec![]),
    ]);
    assert_eq!(e.render(), "(a #t ())");
    let f = parse_str("(lambda (x) x)");
    let mut env = LinslEnv::default();
    let closure = evaluate(&f, &mut env, 0).unwrap();
    assert_eq!(closure.render(), "(lambda (x), x)");
}
