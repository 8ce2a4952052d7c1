use minilisp::expr::Expr;
use minilisp::heap::Heap;
use minilisp::lexer::{is_whitespace, tokenize, Token};
use minilisp::parser::{parse_expr, parse_value, ParseError};
use minilisp::text::{chars_of, decimal_text, fold, parse_decimal, to_upper};

fn atom(s: &str) -> Token {
    Token::Value(s.to_string())
}

fn read(heap: &mut Heap, text: &str) -> Result<String, ParseError> {
    let tokens = tokenize(text);
    let (expr, _) = parse_expr(&tokens, 0, heap)?;
    Ok(heap.format_expr(&expr).unwrap())
}

#[test]
fn tokens_of_a_line() {
    assert_eq!(
        tokenize("(define x '(1 . 2))"),
        vec![
            Token::LBracket,
            atom("define"),
            atom("x"),
            Token::Tick,
            Token::LBracket,
            atom("1"),
            Token::Dot,
            atom("2"),
            Token::RBracket,
            Token::RBracket,
        ]
    );
}

#[test]
fn white_space_only_separates() {
    assert_eq!(tokenize(""), vec![]);
    assert_eq!(tokenize("  \t\n "), vec![]);
    assert_eq!(tokenize(" a\tb\nc "), vec![atom("a"), atom("b"), atom("c")]);
    assert_eq!(tokenize("a\u{a0}b\u{3000}c"), vec![atom("a"), atom("b"), atom("c")]);
}

#[test]
fn an_atom_runs_up_to_white_space_or_a_bracket() {
    assert_eq!(tokenize("a.b"), vec![atom("a.b")]);
    assert_eq!(tokenize("a'b"), vec![atom("a'b")]);
    assert_eq!(tokenize("ab(cd)ef"), vec![atom("ab"), Token::LBracket, atom("cd"), Token::RBracket, atom("ef")]);
    assert_eq!(tokenize(".5"), vec![Token::Dot, atom("5")]);
    assert_eq!(tokenize("..."), vec![Token::Dot, Token::Dot, Token::Dot]);
    assert_eq!(tokenize("''a"), vec![Token::Tick, Token::Tick, atom("a")]);
    assert_eq!(tokenize("-"), vec![atom("-")]);
    assert_eq!(tokenize("#t"), vec![atom("#t")]);
}

#[test]
fn white_space_is_that_of_unicode() {
    let mut c = 0u32;
    while c <= 0x10ffff {
        if let Some(ch) = char::from_u32(c) {
            assert_eq!(is_whitespace(ch), ch.is_whitespace(), "U+{:04X}", c);
        }
        c += 1;
    }
}

#[test]
fn upper_case_is_that_of_ascii() {
    let mut c = 0u32;
    while c <= 0x10ffff {
        if let Some(ch) = char::from_u32(c) {
            assert_eq!(to_upper(ch), ch.to_ascii_uppercase(), "U+{:04X}", c);
        }
        c += 1;
    }
    assert_eq!(fold("make-Adder9é"), "MAKE-ADDER9é");
    assert_eq!(fold(""), "");
}

#[test]
fn characters_of_a_text() {
    assert_eq!(chars_of("aé(1"), vec!['a', 'é', '(', '1']);
    assert_eq!(chars_of(""), Vec::<char>::new());
}

#[test]
fn decimal_numbers() {
    for text in ["0", "7", "-7", "007", "-0", "9223372036854775807", "-9223372036854775808", "123456789"] {
        assert_eq!(parse_decimal(&chars_of(text)), text.parse::<i64>().ok(), "{}", text);
    }
    for text in ["", "-", "--1", "-+1", "+1", "1a", "a1", "1 ", "9223372036854775808", "-9223372036854775809",
        "99999999999999999999999", "1.5", "١"]
    {
        assert_eq!(parse_decimal(&chars_of(text)), None, "{}", text);
    }
    assert_eq!(parse_decimal(&chars_of("00000000000000000000000000000012")), Some(12));
}

#[test]
fn decimal_text_of_integers() {
    for n in [0i64, 1, -1, 9, 10, 11, 99, 100, -100, 1234567890, i64::MAX, i64::MIN, i64::MIN + 1, i64::MAX - 1] {
        assert_eq!(decimal_text(n), n.to_string());
        assert_eq!(parse_decimal(&chars_of(&decimal_text(n))), Some(n));
    }
}

#[test]
fn atoms() {
    let mut heap = Heap::new();
    assert_eq!(parse_value("#t", &mut heap), Ok(Expr::Boolean(true)));
    assert_eq!(parse_value("#f", &mut heap), Ok(Expr::Boolean(false)));
    assert_eq!(parse_value("#x", &mut heap), Err(ParseError::AmbiguousValue));
    assert_eq!(parse_value("#", &mut heap), Err(ParseError::AmbiguousValue));
    assert_eq!(parse_value("#tt", &mut heap), Err(ParseError::AmbiguousValue));
    assert_eq!(parse_value("42", &mut heap), Ok(Expr::Integer(42)));
    assert_eq!(parse_value("-42", &mut heap), Ok(Expr::Integer(-42)));
    assert_eq!(parse_value("1a", &mut heap), Err(ParseError::AmbiguousValue));
    assert_eq!(parse_value("-a", &mut heap), Err(ParseError::AmbiguousValue));
    assert_eq!(parse_value("--", &mut heap), Err(ParseError::AmbiguousValue));
    assert_eq!(parse_value("9223372036854775808", &mut heap), Err(ParseError::AmbiguousValue));
    let minus = parse_value("-", &mut heap).unwrap();
    assert!(minus.is_symbol());
    assert_eq!(heap.format_expr(&minus).unwrap(), "-");
    let sym = parse_value("abc", &mut heap).unwrap();
    assert_eq!(heap.format_expr(&sym).unwrap(), "ABC");
    assert_eq!(parse_value("ABC", &mut heap), Ok(sym));
    let plus = parse_value("+5", &mut heap).unwrap();
    assert_eq!(heap.format_expr(&plus).unwrap(), "+5");
}

#[test]
fn reading_errors() {
    let mut heap = Heap::new();
    assert_eq!(read(&mut heap, ""), Err(ParseError::UnexpectedEndOfInput));
    assert_eq!(read(&mut heap, ")"), Err(ParseError::UnmatchedBracket));
    assert_eq!(read(&mut heap, "("), Err(ParseError::UnexpectedEndOfInput));
    assert_eq!(read(&mut heap, "(a"), Err(ParseError::UnexpectedEndOfInput));
    assert_eq!(read(&mut heap, "(a (b)"), Err(ParseError::UnexpectedEndOfInput));
    assert_eq!(read(&mut heap, "'"), Err(ParseError::UnexpectedEndOfInput));
    assert_eq!(read(&mut heap, "(a '"), Err(ParseError::UnexpectedEndOfInput));
    assert_eq!(read(&mut heap, "."), Err(ParseError::UnexpectedDot));
    assert_eq!(read(&mut heap, "( . a)"), Err(ParseError::UnexpectedDot));
    assert_eq!(read(&mut heap, "(a . b c)"), Err(ParseError::UnexpectedDot));
    assert_eq!(read(&mut heap, "(a . b"), Err(ParseError::UnexpectedDot));
    assert_eq!(read(&mut heap, "(a . . b)"), Err(ParseError::UnexpectedDot));
    assert_eq!(read(&mut heap, "(a . )"), Err(ParseError::UnexpectedDot));
    assert_eq!(read(&mut heap, "(1 . )"), Err(ParseError::UnexpectedDot));
    assert_eq!(read(&mut heap, "(a b . )"), Err(ParseError::UnexpectedDot));
    assert_eq!(read(&mut heap, "(a . (b . ))"), Err(ParseError::UnexpectedDot));
    assert_eq!(read(&mut heap, "((a . ) b)"), Err(ParseError::UnexpectedDot));
    assert_eq!(read(&mut heap, "(a . ')"), Err(ParseError::UnexpectedDot));
    assert_eq!(read(&mut heap, "(a))"), Ok("(A)".to_string()));
    assert_eq!(read(&mut heap, "(a ."), Err(ParseError::UnexpectedEndOfInput));
    assert_eq!(read(&mut heap, "(#q)"), Err(ParseError::AmbiguousValue));
    assert_eq!(read(&mut heap, "(1 2x)"), Err(ParseError::AmbiguousValue));
}

#[test]
fn reading_and_printing() {
    let mut heap = Heap::new();
    for (text, printed) in [
        ("()", "()"),
        ("( )", "()"),
        ("(a)", "(A)"),
        ("(a b c)", "(A B C)"),
        ("(a . b)", "(A . B)"),
        ("(a b . c)", "(A B . C)"),
        ("(a . (b . (c . ())))", "(A B C)"),
        ("(a . ())", "(A)"),
        ("((a) (b (c)) ())", "((A) (B (C)) ())"),
        ("'a", "(QUOTE A)"),
        ("''a", "(QUOTE (QUOTE A))"),
        ("'(a 'b)", "(QUOTE (A (QUOTE B)))"),
        ("(1 -2 #t #f)", "(1 -2 #t #f)"),
        ("(a.b c'd)", "(A.B C'D)"),
        ("  ( a\t(b)\n)  ", "(A (B))"),
    ] {
        assert_eq!(read(&mut heap, text), Ok(printed.to_string()), "{}", text);
        assert_eq!(read(&mut heap, printed), Ok(printed.to_string()), "{}", printed);
    }
}

#[test]
fn reading_leaves_what_the_heap_had() {
    let mut heap = Heap::new();
    let kept = {
        let tokens = tokenize("(a (b) c)");
        parse_expr(&tokens, 0, &mut heap).unwrap().0
    };
    let before = heap.format_expr(&kept).unwrap();
    let root = heap.root_env();
    let root_before = heap.format_expr(&root).unwrap();
    let symbols_before = heap.format_expr(&heap.symbols()).unwrap();
    let keys_before = heap.keys();
    let cells = heap.len();
    // atoms that are no symbols change nothing
    for text in ["42", "-7", "#t", "#f", "#x", "1x", "()"] {
        let tokens = tokenize(text);
        let _ = parse_expr(&tokens, 0, &mut heap);
        assert_eq!(heap.len(), cells, "{}", text);
        assert_eq!(heap.keys(), keys_before, "{}", text);
    }
    // a symbol that is interned changes nothing, a new one adds one cell
    assert!(parse_value("A", &mut heap).is_ok());
    assert_eq!(heap.len(), cells);
    assert!(parse_value("fresh", &mut heap).is_ok());
    assert_eq!(heap.len(), cells + 1);
    // errors before anything was read change nothing
    for text in ["", ")", ".", "(", "'", "(1 2", "(1 (2 3)"] {
        let now = heap.len();
        let tokens = tokenize(text);
        assert!(parse_expr(&tokens, 0, &mut heap).is_err(), "{}", text);
        if text.len() <= 1 {
            assert_eq!(heap.len(), now, "{}", text);
        }
        assert_eq!(heap.format_expr(&kept).unwrap(), before, "{}", text);
        assert_eq!(heap.root_env(), root);
        assert_eq!(heap.format_expr(&root).unwrap(), root_before);
    }
    // the pairs of what is read are in cells that were not there
    let tokens = tokenize("(a (b) . c)");
    let (again, _) = parse_expr(&tokens, 0, &mut heap).unwrap();
    let Expr::Pair(key) = again else { unreachable!() };
    assert!(!keys_before.contains(&key.0));
    let Ok(Expr::Pair(second)) = heap.get_rest(&again) else { unreachable!() };
    assert!(!keys_before.contains(&second.0));
    let Ok(Expr::Pair(inner)) = heap.get_first(&Expr::Pair(second)) else { unreachable!() };
    assert!(!keys_before.contains(&inner.0));
    for key in &keys_before {
        assert!(heap.keys().contains(key));
    }
    assert_eq!(heap.format_expr(&kept).unwrap(), before);
    assert!(heap.format_expr(&heap.symbols()).unwrap().ends_with(&symbols_before[1..]));
}

#[test]
fn reading_returns_the_position_after_the_expression() {
    let mut heap = Heap::new();
    let tokens = tokenize("a (b c) 'd (e . f) 7");
    let mut pos = 0;
    let mut ends = Vec::new();
    while pos < tokens.len() {
        let (_, next) = parse_expr(&tokens, pos, &mut heap).unwrap();
        ends.push(next);
        pos = next;
    }
    assert_eq!(ends, vec![1, 5, 7, 12, 13]);
    assert_eq!(parse_expr(&tokens, 13, &mut heap), Err(ParseError::UnexpectedEndOfInput));
    assert_eq!(parse_expr(&tokens, 100, &mut heap), Err(ParseError::UnexpectedEndOfInput));
}

#[test]
fn a_long_list_is_read_without_deep_recursion() {
    let mut heap = Heap::new();
    let mut text = String::from("(");
    for i in 0..20000 {
        text.push_str(&i.to_string());
        text.push(' ');
    }
    text.push(')');
    let tokens = tokenize(&text);
    let (list, _) = parse_expr(&tokens, 0, &mut heap).unwrap();
    assert_eq!(heap.test_length(&list, 20000), Ok(true));
    let printed = heap.format_expr(&list).unwrap();
    assert_eq!(printed.len() + 1, text.len());
}
