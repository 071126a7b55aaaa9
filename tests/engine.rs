use term_rewrite::expr::Expr;
use term_rewrite::lexer::{Lexer, TokenKind};
use term_rewrite::parser::ParseError;
use term_rewrite::rule::Rule;

fn sym(s: &str) -> Expr {
    Expr::symbol(s.to_string())
}

fn fun(name: &str, args: Vec<Expr>) -> Expr {
    Expr::function(name.to_string(), args)
}

#[test]
fn test_expr_display() {
    let expr = fun("foo", vec![sym("x"), sym("y")]);
    assert_eq!(expr.to_string(), "foo(x, y)");
}

#[test]
fn test_expr_pattern_match() {
    let pattern = fun("foo", vec![sym("x"), sym("y")]);
    let expr = fun("foo", vec![sym("a"), sym("b")]);

    let bindings = pattern.pattern_match(&expr);
    let bindings = bindings.unwrap();
    assert_eq!(bindings.len(), 2);
    assert_eq!(bindings.get("x"), Some(&sym("a")));
    assert_eq!(bindings.get("y"), Some(&sym("b")));
}

#[test]
fn test_rule_apply_all() {
    let rule = Rule::make(
        fun("foo", vec![sym("x"), sym("y")]),
        fun("bar", vec![sym("y"), sym("x")]),
    );

    let expr = fun("foo", vec![sym("a"), sym("b")]);
    let result = rule.apply_all(expr);
    assert_eq!(result, fun("bar", vec![sym("b"), sym("a")]));
}

#[test]
fn render_nested_and_empty_calls() {
    let expr = fun("f", vec![fun("g", vec![sym("a")]), fun("h", vec![]), sym("b")]);
    assert_eq!(expr.to_string(), "f(g(a), h(), b)");
    assert_eq!(fun("k", vec![]).to_string(), "k()");
    assert_eq!(sym("z").to_string(), "z");
}

#[test]
fn render_sentence_without_separator() {
    let expr = Expr::sentence(vec![sym("a"), fun("f", vec![sym("b")]), sym("c")]);
    assert_eq!(expr.to_string(), "af(b)c");
    assert_eq!(Expr::sentence(vec![]).to_string(), "");
}

#[test]
fn render_rule() {
    let rule = Rule::make(fun("foo", vec![sym("x")]), fun("bar", vec![sym("x"), sym("x")]));
    assert_eq!(rule.to_string(), "foo(x) = bar(x, x)");
}

#[test]
fn mismatched_name_fails() {
    let pattern = fun("foo", vec![sym("x")]);
    assert!(pattern.pattern_match(&fun("bar", vec![sym("a")])).is_none());
}

#[test]
fn mismatched_arity_fails() {
    let pattern = fun("foo", vec![sym("x")]);
    assert!(pattern.pattern_match(&fun("foo", vec![sym("a"), sym("b")])).is_none());
}

#[test]
fn repeated_variable_needs_equal_subterms() {
    let pattern = fun("f", vec![sym("x"), sym("x")]);
    let same = pattern.pattern_match(&fun("f", vec![sym("a"), sym("a")])).unwrap();
    assert_eq!(same.len(), 1);
    assert_eq!(same.get("x"), Some(&sym("a")));
    assert!(pattern.pattern_match(&fun("f", vec![sym("a"), sym("b")])).is_none());
}

#[test]
fn symbol_pattern_binds_whole_subject() {
    let subject = fun("g", vec![sym("a"), fun("h", vec![])]);
    let bindings = sym("x").pattern_match(&subject).unwrap();
    assert_eq!(bindings.len(), 1);
    assert_eq!(bindings.get("x"), Some(&subject));
    assert_eq!(bindings.get("y"), None);
}

#[test]
fn shape_mismatch_fails() {
    let pattern = fun("f", vec![]);
    assert!(pattern.pattern_match(&sym("f")).is_none());
    assert!(pattern.pattern_match(&Expr::sentence(vec![])).is_none());
    let run = Expr::sentence(vec![sym("x")]);
    assert!(run.pattern_match(&fun("f", vec![sym("a")])).is_none());
}

#[test]
fn sentence_pattern_broadcasts_each_item() {
    let one = Expr::sentence(vec![sym("x")]);
    let b = one.pattern_match(&Expr::sentence(vec![sym("a")])).unwrap();
    assert_eq!(b.get("x"), Some(&sym("a")));

    // each pattern item is matched against every subject item
    let two = Expr::sentence(vec![sym("x"), sym("y")]);
    assert!(two.pattern_match(&Expr::sentence(vec![sym("a"), sym("b")])).is_none());
    let b = two.pattern_match(&Expr::sentence(vec![sym("a"), sym("a")])).unwrap();
    assert_eq!(b.len(), 2);
    assert_eq!(b.get("y"), Some(&sym("a")));

    assert!(one.pattern_match(&Expr::sentence(vec![sym("a"), sym("b")])).is_none());
}

#[test]
fn rewrite_single_outermost_pass() {
    let rule = Rule::make(fun("foo", vec![sym("x")]), fun("foo", vec![fun("bar", vec![sym("x")])]));
    let result = rule.apply_all(fun("foo", vec![sym("a")]));
    assert_eq!(result, fun("foo", vec![fun("bar", vec![sym("a")])]));
}

#[test]
fn unbound_body_variable_left_literal() {
    let rule = Rule::make(fun("f", vec![sym("x")]), fun("g", vec![sym("y")]));
    let result = rule.apply_all(fun("f", vec![sym("a")]));
    assert_eq!(result, fun("g", vec![sym("y")]));
}

#[test]
fn rewrite_descends_where_no_match() {
    let rule = Rule::make(fun("f", vec![sym("x")]), fun("g", vec![sym("x")]));
    let expr = fun("h", vec![fun("f", vec![sym("a")]), sym("b"), Expr::sentence(vec![fun("f", vec![sym("c")])])]);
    let result = rule.apply_all(expr);
    assert_eq!(
        result,
        fun("h", vec![fun("g", vec![sym("a")]), sym("b"), Expr::sentence(vec![fun("g", vec![sym("c")])])])
    );
    let untouched = rule.apply_all(sym("q"));
    assert_eq!(untouched, sym("q"));
}

#[test]
fn substitute_replaces_bound_symbols() {
    let rule = Rule::make(fun("p", vec![sym("x")]), sym("x"));
    let bindings = fun("p", vec![sym("x")]).pattern_match(&fun("p", vec![fun("k", vec![])])).unwrap();
    let out = rule.substitute_bindings(&bindings, &fun("w", vec![sym("x"), sym("z")]));
    assert_eq!(out, fun("w", vec![fun("k", vec![]), sym("z")]));
}

#[test]
fn parse_zero_arg_function() {
    assert_eq!(Expr::parse_text("f()"), Ok(fun("f", vec![])));
}

#[test]
fn parse_nested_calls() {
    assert_eq!(
        Expr::parse_text("f(g(a), b)"),
        Ok(fun("f", vec![fun("g", vec![sym("a")]), sym("b")]))
    );
}

#[test]
fn parse_symbol_and_trailing_tokens() {
    assert_eq!(Expr::parse_text("  abc  "), Ok(sym("abc")));
    assert_eq!(Expr::parse_text("f(x) = g(x)"), Ok(fun("f", vec![sym("x")])));
}

#[test]
fn parse_errors() {
    assert_eq!(Expr::parse_text(""), Err(ParseError::Empty));
    assert_eq!(Expr::parse_text("   "), Err(ParseError::Empty));
    assert_eq!(Expr::parse_text(")"), Err(ParseError::UnexpectedToken));
    assert_eq!(Expr::parse_text("= a"), Err(ParseError::UnexpectedToken));
    assert_eq!(Expr::parse_text("f(a"), Err(ParseError::UnexpectedEnd));
    assert_eq!(Expr::parse_text("f("), Err(ParseError::UnexpectedEnd));
    assert_eq!(Expr::parse_text("f(a b)"), Err(ParseError::UnexpectedToken));
    assert_eq!(Expr::parse_text("f(a,)"), Err(ParseError::UnexpectedToken));
}

#[test]
fn parse_function_args_returns_position() {
    let tokens = Lexer::tokenize("a, b) c");
    let (e, end) = Expr::parse_function_args(&tokens, 0, "f".to_string()).unwrap();
    assert_eq!(e, fun("f", vec![sym("a"), sym("b")]));
    assert_eq!(end, 4);
    let (next, after) = Expr::parse_peekable(&tokens, end).unwrap();
    assert_eq!(next, sym("c"));
    assert_eq!(after, 5);
}

#[test]
fn lexer_token_kinds_and_texts() {
    let tokens = Lexer::tokenize("f(x1, y) = +ab");
    let got: Vec<(TokenKind, String)> = tokens.into_iter().map(|t| (t.kind, t.text)).collect();
    let want = vec![
        (TokenKind::Symbol, "f"),
        (TokenKind::OpenParen, "("),
        (TokenKind::Symbol, "x1"),
        (TokenKind::Comma, ","),
        (TokenKind::Symbol, "y"),
        (TokenKind::CloseParen, ")"),
        (TokenKind::Equal, "="),
        (TokenKind::Symbol, "+ab"),
    ];
    let want: Vec<(TokenKind, String)> = want.into_iter().map(|(k, s)| (k, s.to_string())).collect();
    assert_eq!(got, want);
}

#[test]
fn lexer_whitespace_separates_and_symbols_stop_at_punctuation() {
    let texts: Vec<String> = Lexer::tokenize(" ab\tc d+e ").into_iter().map(|t| t.text).collect();
    assert_eq!(texts, vec!["ab", "c", "d", "+e"]);
    let mut lexer = Lexer::from_iter("  ");
    assert!(lexer.next().is_none());
}

#[test]
fn duplicate_and_same() {
    let e = fun("f", vec![sym("a"), Expr::sentence(vec![sym("b")])]);
    let c = e.duplicate();
    assert_eq!(c, e);
    assert!(c.same(&e));
    assert!(!e.same(&fun("f", vec![sym("a"), Expr::sentence(vec![sym("c")])])));
    assert!(!sym("f").same(&fun("f", vec![])));
}
