use minilisp::expr::{Expr, SError};
use minilisp::heap::Heap;
use minilisp::lexer::tokenize;
use minilisp::parser::parse_expr;
use minilisp::semantics::Stop;

const DEPTH: usize = 100_000;

/// Reads every expression of `line`, evaluates each in the root environment
/// and returns what a read-eval-print loop would print after `out: ` or
/// `err: `.
fn run(heap: &mut Heap, line: &str) -> Vec<String> {
    let tokens = tokenize(line);
    let mut out = Vec::new();
    let mut pos = 0;
    while pos < tokens.len() {
        let (expr, next) = parse_expr(&tokens, pos, heap).unwrap();
        pos = next;
        match heap.eval(&expr, DEPTH) {
            Ok(v) => out.push(heap.format_expr(&v).unwrap()),
            Err(Stop::Failed(e)) => out.push(format!("{:?}", e)),
            Err(Stop::Exhausted) => out.push("Exhausted".to_string()),
        }
    }
    out
}

fn last(heap: &mut Heap, line: &str) -> String {
    run(heap, line).pop().unwrap()
}

#[test]
fn define_then_use() {
    let mut heap = Heap::new();
    assert_eq!(run(&mut heap, "(define x 3) (+ x x)"), vec!["X", "6"]);
}

#[test]
fn define_and_call_lambda() {
    let mut heap = Heap::new();
    assert_eq!(run(&mut heap, "(define sq (lambda (n) (* n n))) (sq 7)"), vec!["SQ", "49"]);
}

#[test]
fn quoted_dotted_list_prints_as_written() {
    let mut heap = Heap::new();
    assert_eq!(run(&mut heap, "'(1 2 . 3)"), vec!["(1 2 . 3)"]);
}

#[test]
fn closures_capture_their_environment() {
    let mut heap = Heap::new();
    assert_eq!(
        run(
            &mut heap,
            "(define make-adder (lambda (k) (lambda (n) (+ n k)))) (define add5 (make-adder 5)) (add5 10)"
        ),
        vec!["MAKE-ADDER", "ADD5", "15"]
    );
}

#[test]
fn list_predicate() {
    let mut heap = Heap::new();
    assert_eq!(last(&mut heap, "(list? '(1 2 3))"), "#t");
    assert_eq!(last(&mut heap, "(list? (cons 1 2))"), "#f");
    assert_eq!(last(&mut heap, "(list? '())"), "#t");
    assert_eq!(last(&mut heap, "(list? 5)"), "#f");
    assert_eq!(last(&mut heap, "(list? '(1 2 . 3))"), "#f");
}

#[test]
fn deep_recursion_and_reclaiming() {
    let mut heap = Heap::new();
    assert_eq!(
        run(&mut heap, "(define loop (lambda (n) (if (= n 0) 'done (loop (- n 1)))))"),
        vec!["LOOP"]
    );
    heap.collect();
    let before = heap.len();
    let symbols_before = heap.spine(&heap.symbols()).0.len();
    assert_eq!(run(&mut heap, "(loop 1000)"), vec!["DONE"]);
    assert!(heap.len() > before + 1000);
    heap.collect();
    // every frame of the calls and every cell of the expression is reclaimed
    assert_eq!(heap.spine(&heap.symbols()).0.len(), symbols_before);
    assert_eq!(heap.len(), before);
    assert_eq!(last(&mut heap, "(loop 10)"), "DONE");
}

#[test]
fn only_false_is_falsy() {
    let mut heap = Heap::new();
    assert_eq!(last(&mut heap, "(if #f 1 2)"), "2");
    assert_eq!(last(&mut heap, "(if () 1 2)"), "1");
    assert_eq!(last(&mut heap, "(if 0 1 2)"), "1");
    assert_eq!(last(&mut heap, "(if '() 1 2)"), "1");
    assert_eq!(last(&mut heap, "(if #t 1 2)"), "1");
    assert!(!Expr::Boolean(false).is_truthy());
    assert!(Expr::Nil.is_truthy());
    assert!(Expr::Integer(0).is_truthy());
    assert!(Expr::Boolean(true).is_truthy());
}

#[test]
fn cons_makes_a_pair_of_its_arguments() {
    let mut heap = Heap::new();
    assert_eq!(last(&mut heap, "(first (cons 1 2))"), "1");
    assert_eq!(last(&mut heap, "(rest (cons 1 2))"), "2");
    assert_eq!(last(&mut heap, "(cons 1 2)"), "(1 . 2)");
    assert_eq!(last(&mut heap, "(cons 1 '(2 3))"), "(1 2 3)");
    assert_eq!(last(&mut heap, "(cons '(a) '(b))"), "((A) B)");
}

#[test]
fn arithmetic_with_one_operand_starts_from_the_identity() {
    let mut heap = Heap::new();
    assert_eq!(last(&mut heap, "(- 5)"), "-5");
    assert_eq!(last(&mut heap, "(/ 4)"), "0");
    assert_eq!(last(&mut heap, "(+ 5)"), "5");
    assert_eq!(last(&mut heap, "(* 5)"), "5");
    assert_eq!(last(&mut heap, "(/ 1)"), "1");
}

#[test]
fn arithmetic_folds_from_the_left() {
    let mut heap = Heap::new();
    assert_eq!(last(&mut heap, "(+ 1 2 3 4)"), "10");
    assert_eq!(last(&mut heap, "(- 10 1 2)"), "7");
    assert_eq!(last(&mut heap, "(* 2 3 4)"), "24");
    assert_eq!(last(&mut heap, "(/ 100 5 2)"), "10");
    assert_eq!(last(&mut heap, "(/ 7 2)"), "3");
    assert_eq!(last(&mut heap, "(/ -7 2)"), "-3");
    assert_eq!(last(&mut heap, "(/ 7 -2)"), "-3");
    assert_eq!(last(&mut heap, "(/ -7 -2)"), "3");
}

#[test]
fn arithmetic_errors() {
    let mut heap = Heap::new();
    assert_eq!(last(&mut heap, "(+)"), "WrongNumberOfArgs");
    assert_eq!(last(&mut heap, "(*)"), "WrongNumberOfArgs");
    assert_eq!(last(&mut heap, "(+ 1 'a)"), "TypeError");
    assert_eq!(last(&mut heap, "(+ 'a)"), "TypeError");
    assert_eq!(last(&mut heap, "(/ 1 0)"), "TypeError");
    assert_eq!(last(&mut heap, "(/ 0)"), "TypeError");
    assert_eq!(last(&mut heap, "(+ 9223372036854775807 1)"), "TypeError");
    assert_eq!(last(&mut heap, "(- -9223372036854775808 1)"), "TypeError");
    assert_eq!(last(&mut heap, "(* 4611686018427387904 2)"), "TypeError");
    assert_eq!(last(&mut heap, "(/ -9223372036854775808 -1)"), "TypeError");
    assert_eq!(last(&mut heap, "(- -9223372036854775808)"), "TypeError");
    assert_eq!(last(&mut heap, "(+ 9223372036854775806 1)"), "9223372036854775807");
}

#[test]
fn integer_predicates() {
    let mut heap = Heap::new();
    assert_eq!(last(&mut heap, "(= 1 1)"), "#t");
    assert_eq!(last(&mut heap, "(= 1 2)"), "#f");
    assert_eq!(last(&mut heap, "(< 1 2)"), "#t");
    assert_eq!(last(&mut heap, "(< 2 2)"), "#f");
    assert_eq!(last(&mut heap, "(<= 2 2)"), "#t");
    assert_eq!(last(&mut heap, "(<= 3 2)"), "#f");
    assert_eq!(last(&mut heap, "(> 3 2)"), "#t");
    assert_eq!(last(&mut heap, "(> 2 2)"), "#f");
    assert_eq!(last(&mut heap, "(>= 2 2)"), "#t");
    assert_eq!(last(&mut heap, "(>= 1 2)"), "#f");
    assert_eq!(last(&mut heap, "(= 1)"), "WrongNumberOfArgs");
    assert_eq!(last(&mut heap, "(= 1 2 3)"), "WrongNumberOfArgs");
    assert_eq!(last(&mut heap, "(< 1 'a)"), "TypeError");
    assert_eq!(last(&mut heap, "(< '(1) 2)"), "TypeError");
}

#[test]
fn first_and_rest_errors() {
    let mut heap = Heap::new();
    assert_eq!(last(&mut heap, "(first 5)"), "ImproperList");
    assert_eq!(last(&mut heap, "(rest '())"), "ImproperList");
    assert_eq!(last(&mut heap, "(first)"), "WrongNumberOfArgs");
    assert_eq!(last(&mut heap, "(first '(1) '(2))"), "WrongNumberOfArgs");
    assert_eq!(last(&mut heap, "(cons 1)"), "WrongNumberOfArgs");
    assert_eq!(last(&mut heap, "(list? 1 2)"), "WrongNumberOfArgs");
    assert_eq!(last(&mut heap, "(first '(1 2 3))"), "1");
    assert_eq!(last(&mut heap, "(rest '(1 2 3))"), "(2 3)");
}

#[test]
fn evaluation_errors() {
    let mut heap = Heap::new();
    assert_eq!(last(&mut heap, "nowhere"), "UnboundSymbol");
    assert_eq!(last(&mut heap, "(1 2)"), "NotCallable");
    assert_eq!(last(&mut heap, "('a 2)"), "NotCallable");
    assert_eq!(last(&mut heap, "(define 1 2)"), "ImproperSymbol");
    assert_eq!(last(&mut heap, "(define x)"), "WrongNumberOfArgs");
    assert_eq!(last(&mut heap, "(define x 1 2)"), "WrongNumberOfArgs");
    assert_eq!(last(&mut heap, "(quote)"), "WrongNumberOfArgs");
    assert_eq!(last(&mut heap, "(quote 1 2)"), "WrongNumberOfArgs");
    assert_eq!(last(&mut heap, "(if 1 2)"), "WrongNumberOfArgs");
    assert_eq!(last(&mut heap, "(if 1 2 3 4)"), "WrongNumberOfArgs");
    assert_eq!(last(&mut heap, "(lambda (x))"), "WrongNumberOfArgs");
    assert_eq!(last(&mut heap, "(lambda)"), "WrongNumberOfArgs");
    assert_eq!(last(&mut heap, "(lambda (1) 1)"), "ImproperSymbol");
    assert_eq!(last(&mut heap, "(lambda (x . y) 1)"), "ImproperList");
    assert_eq!(last(&mut heap, "(lambda x 1)"), "ImproperList");
    assert_eq!(last(&mut heap, "((lambda (x) x))"), "WrongNumberOfArgs");
    assert_eq!(last(&mut heap, "((lambda (x) x) 1 2)"), "WrongNumberOfArgs");
    assert_eq!(last(&mut heap, "(+ 1 . 2)"), "ImproperList");
    assert_eq!(last(&mut heap, "(quote . 1)"), "ImproperList");
}

#[test]
fn a_failed_definition_binds_nothing() {
    let mut heap = Heap::new();
    assert_eq!(run(&mut heap, "(define x (first 1)) x"), vec!["ImproperList", "UnboundSymbol"]);
}

#[test]
fn define_updates_an_existing_binding() {
    let mut heap = Heap::new();
    assert_eq!(run(&mut heap, "(define x 1) (define x 2) x"), vec!["X", "X", "2"]);
}

#[test]
fn define_in_a_closure_targets_its_own_frame() {
    let mut heap = Heap::new();
    assert_eq!(
        run(&mut heap, "(define x 1) (define f (lambda () (define x 2) x)) (f) x"),
        vec!["X", "F", "2", "1"]
    );
}

#[test]
fn lambda_body_may_have_several_forms() {
    let mut heap = Heap::new();
    assert_eq!(
        run(&mut heap, "(define f (lambda (a) (define b (+ a 1)) (* a b))) (f 3)"),
        vec!["F", "12"]
    );
}

#[test]
fn arguments_are_evaluated_left_to_right() {
    let mut heap = Heap::new();
    assert_eq!(
        run(&mut heap, "(define f (lambda (a b) x)) (f (define x 1) (define x 2))"),
        vec!["F", "2"]
    );
}

#[test]
fn special_forms_ignore_case() {
    let mut heap = Heap::new();
    assert_eq!(run(&mut heap, "(Define X 3) (IF #t x 0) (Quote a)"), vec!["X", "3", "A"]);
    assert_eq!(last(&mut heap, "((LAMBDA (n) n) 4)"), "4");
}

#[test]
fn self_evaluating_values() {
    let mut heap = Heap::new();
    assert_eq!(last(&mut heap, "5"), "5");
    assert_eq!(last(&mut heap, "-5"), "-5");
    assert_eq!(last(&mut heap, "#t"), "#t");
    assert_eq!(last(&mut heap, "#f"), "#f");
    assert_eq!(last(&mut heap, "()"), "()");
    assert_eq!(last(&mut heap, "first"), "#<primitive first>");
    assert_eq!(last(&mut heap, "LIST?"), "#<primitive list?>");
    assert_eq!(last(&mut heap, "+"), "#<primitive +>");
    assert_eq!(last(&mut heap, "-"), "#<primitive ->");
    assert_eq!(last(&mut heap, "(lambda (x) x)"), "#<lambda>");
}

#[test]
fn every_primitive_is_bound() {
    let mut heap = Heap::new();
    for name in ["first", "rest", "list?", "cons", "+", "-", "*", "/", "=", "<", "<=", ">", ">="] {
        assert_eq!(last(&mut heap, name), format!("#<primitive {}>", name));
    }
}

#[test]
fn evaluation_stops_at_the_depth_allowed() {
    let mut heap = Heap::new();
    let tokens = tokenize("(define forever (lambda () (forever))) (forever)");
    let (def, next) = parse_expr(&tokens, 0, &mut heap).unwrap();
    let (call, _) = parse_expr(&tokens, next, &mut heap).unwrap();
    assert!(heap.eval(&def, 100).is_ok());
    assert_eq!(heap.eval(&call, 100), Err(Stop::Exhausted));
    assert_eq!(heap.eval(&call, 0), Err(Stop::Exhausted));
    assert_eq!(heap.eval(&Expr::Integer(1), 0), Err(Stop::Exhausted));
    assert_eq!(heap.eval(&Expr::Integer(1), 1), Ok(Expr::Integer(1)));
}

#[test]
fn apply_and_map_list() {
    let mut heap = Heap::new();
    let tokens = tokenize("(1 (+ 1 1) 3)");
    let (list, _) = parse_expr(&tokens, 0, &mut heap).unwrap();
    let env = heap.root_env();
    let values = heap.map_list(&list, &env, 10).unwrap();
    assert_eq!(heap.format_expr(&values).unwrap(), "(1 2 3)");
    let plus = heap.make_symbol("+").unwrap();
    let op = heap.env_get(&env, &plus).unwrap();
    assert_eq!(heap.apply(&op, &values, 10), Ok(Expr::Integer(6)));
    assert_eq!(heap.apply(&Expr::Integer(1), &values, 10), Err(Stop::Failed(SError::NotCallable)));
}
