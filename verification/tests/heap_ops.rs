use minilisp::expr::{ConsCellKey, Expr, Native, SError};
use minilisp::heap::Heap;
use minilisp::lexer::tokenize;
use minilisp::parser::parse_expr;
use minilisp::primitive::{
    add_primitive, as_integer, bin_op, compare, cons, do_arithmetic, do_divide, do_gt, do_gte, do_lt, do_lte,
    do_minus, do_numeq, do_plus, do_predicate, do_times, first, list_p, rest, validate_arg_count,
};
use minilisp::store::Form;

fn read(heap: &mut Heap, text: &str) -> Expr {
    let tokens = tokenize(text);
    parse_expr(&tokens, 0, heap).unwrap().0
}

fn show(heap: &Heap, v: &Expr) -> String {
    heap.format_expr(v).unwrap()
}

#[test]
fn value_tests() {
    let pair = Expr::Pair(ConsCellKey(0));
    assert!(Expr::Nil.is_nil());
    assert!(!pair.is_nil());
    assert!(pair.is_pair());
    assert!(!Expr::Nil.is_pair());
    assert!(!Expr::Closure(ConsCellKey(0)).is_pair());
    assert!(Expr::Symbol(0).is_symbol());
    assert!(!Expr::Integer(0).is_symbol());
}

#[test]
fn values_are_equal_by_tag_and_content() {
    assert_eq!(Expr::Nil, Expr::Nil);
    assert_eq!(Expr::Integer(3), Expr::Integer(3));
    assert_ne!(Expr::Integer(3), Expr::Integer(4));
    assert_ne!(Expr::Integer(0), Expr::Nil);
    assert_ne!(Expr::Boolean(false), Expr::Nil);
    assert_eq!(Expr::Pair(ConsCellKey(1)), Expr::Pair(ConsCellKey(1)));
    assert_ne!(Expr::Pair(ConsCellKey(1)), Expr::Pair(ConsCellKey(2)));
    assert_ne!(Expr::Pair(ConsCellKey(1)), Expr::Closure(ConsCellKey(1)));
    assert_eq!(Expr::Primitive(Native::Plus), Expr::Primitive(Native::Plus));
    assert_ne!(Expr::Primitive(Native::Plus), Expr::Primitive(Native::Minus));
}

#[test]
fn pairs_are_equal_by_key_not_by_content() {
    let mut heap = Heap::new();
    let a = heap.make_cons(Expr::Integer(1), Expr::Nil).unwrap();
    let b = heap.make_cons(Expr::Integer(1), Expr::Nil).unwrap();
    assert_ne!(a, b);
    assert_eq!(a, a);
}

#[test]
fn interning_folds_case() {
    let mut heap = Heap::new();
    let a = heap.make_symbol("hello").unwrap();
    let cells = heap.len();
    let b = heap.make_symbol("HELLO").unwrap();
    let c = heap.make_symbol("HeLlO").unwrap();
    assert_eq!(a, b);
    assert_eq!(a, c);
    assert_eq!(heap.len(), cells);
    let d = heap.make_symbol("hello2").unwrap();
    assert_ne!(a, d);
    assert_eq!(heap.len(), cells + 1);
    assert_eq!(heap.make_symbol("hello").unwrap(), a);
    assert_eq!(show(&heap, &a), "HELLO");
    assert_eq!(heap.get_first(&heap.symbols()), Ok(d));
    assert!(heap.is_specific_symbol(&a, "HELLO"));
    assert!(!heap.is_specific_symbol(&a, "hello"));
    assert!(!heap.is_specific_symbol(&d, "HELLO"));
    assert!(!heap.is_specific_symbol(&Expr::Nil, "HELLO"));
}

#[test]
fn special_form_names_are_interned() {
    let mut heap = Heap::new();
    let quote = heap.make_symbol("quote").unwrap();
    assert_eq!(heap.quote_symbol(), quote);
    assert_eq!(heap.form_of(&quote), Some(Form::Quote));
    let define = heap.make_symbol("define").unwrap();
    assert_eq!(heap.form_of(&define), Some(Form::Define));
    let cond = heap.make_symbol("if").unwrap();
    assert_eq!(heap.form_of(&cond), Some(Form::If));
    let lambda = heap.make_symbol("lambda").unwrap();
    assert_eq!(heap.form_of(&lambda), Some(Form::Lambda));
    let other = heap.make_symbol("cons").unwrap();
    assert_eq!(heap.form_of(&other), None);
    assert_eq!(heap.form_of(&Expr::Nil), None);
}

#[test]
fn cells_keep_what_was_stored() {
    let mut heap = Heap::new();
    let before = heap.len();
    let p = heap.make_cons(Expr::Integer(1), Expr::Integer(2)).unwrap();
    assert_eq!(heap.len(), before + 1);
    assert_eq!(heap.get_first(&p), Ok(Expr::Integer(1)));
    assert_eq!(heap.get_rest(&p), Ok(Expr::Integer(2)));
    assert_eq!(heap.get_first_rest(&p), Ok((Expr::Integer(1), Expr::Integer(2))));
    let q = heap.make_cons(Expr::Integer(3), p).unwrap();
    assert_ne!(p, q);
    assert_eq!(heap.get_rest(&q), Ok(p));
    assert_eq!(heap.get_first(&p), Ok(Expr::Integer(1)));
    assert_eq!(heap.set_first(&p, Expr::Integer(10)), Ok(()));
    assert_eq!(heap.get_first_rest(&p), Ok((Expr::Integer(10), Expr::Integer(2))));
    assert_eq!(heap.set_rest(&p, Expr::Nil), Ok(()));
    assert_eq!(heap.get_first_rest(&p), Ok((Expr::Integer(10), Expr::Nil)));
    assert_eq!(heap.get_first_rest(&q), Ok((Expr::Integer(3), p)));
    assert_eq!(show(&heap, &q), "(3 10)");
}

#[test]
fn only_pairs_have_halves() {
    let mut heap = Heap::new();
    assert_eq!(heap.get_first(&Expr::Nil), Err(SError::ImproperList));
    assert_eq!(heap.get_rest(&Expr::Integer(1)), Err(SError::ImproperList));
    assert_eq!(heap.get_first_rest(&Expr::Boolean(true)), Err(SError::ImproperList));
    assert_eq!(heap.set_first(&Expr::Nil, Expr::Nil), Err(SError::ImproperList));
    assert_eq!(heap.set_rest(&Expr::Integer(1), Expr::Nil), Err(SError::ImproperList));
    let c = read(&mut heap, "(lambda (x) x)");
    let env = heap.root_env();
    let closure = heap.eval_in(&env, &c, 10).unwrap();
    assert_eq!(heap.get_first(&closure), Err(SError::ImproperList));
    assert_eq!(heap.get_lambda_env(&Expr::Nil), Err(SError::ImproperLambda));
    assert_eq!(heap.get_lambda_args(&c), Err(SError::ImproperLambda));
    assert_eq!(heap.get_lambda_body(&Expr::Integer(1)), Err(SError::ImproperLambda));
}

#[test]
fn closures_hold_environment_parameters_and_body() {
    let mut heap = Heap::new();
    let params = read(&mut heap, "(a b)");
    let body = read(&mut heap, "((+ a b))");
    let env = heap.root_env();
    let before = heap.len();
    let c = heap.make_closure(env, params, body).unwrap();
    assert_eq!(heap.len(), before + 2);
    assert!(matches!(c, Expr::Closure(_)));
    assert_eq!(heap.get_lambda_env(&c), Ok(env));
    assert_eq!(heap.get_lambda_args(&c), Ok(params));
    assert_eq!(heap.get_lambda_body(&c), Ok(body));
    assert_eq!(show(&heap, &c), "#<lambda>");
    let bad = read(&mut heap, "(a 1)");
    assert_eq!(heap.make_closure(env, bad, body), Err(SError::ImproperSymbol));
    let dotted = read(&mut heap, "(a . b)");
    assert_eq!(heap.make_closure(env, dotted, body), Err(SError::ImproperList));
    let mixed = read(&mut heap, "(a 1 . b)");
    assert_eq!(heap.make_closure(env, mixed, body), Err(SError::ImproperSymbol));
    assert!(heap.make_closure(env, Expr::Nil, body).is_ok());
}

#[test]
fn lengths_of_lists() {
    let mut heap = Heap::new();
    let list = read(&mut heap, "(1 2 3)");
    assert_eq!(heap.test_length(&list, 3), Ok(true));
    assert_eq!(heap.test_length(&list, 2), Ok(false));
    assert_eq!(heap.test_length(&list, 4), Ok(false));
    assert_eq!(heap.test_length(&list, 0), Ok(false));
    assert_eq!(heap.test_length(&Expr::Nil, 0), Ok(true));
    assert_eq!(heap.test_length(&Expr::Nil, 1), Ok(false));
    assert_eq!(heap.test_length(&Expr::Integer(1), 0), Ok(false));
    assert_eq!(heap.test_length(&Expr::Integer(1), 1), Err(SError::ImproperList));
    let dotted = read(&mut heap, "(1 2 . 3)");
    assert_eq!(heap.test_length(&dotted, 2), Ok(false));
    assert_eq!(heap.test_length(&dotted, 3), Err(SError::ImproperList));
    assert_eq!(heap.test_length(&dotted, 1), Ok(false));
    assert_eq!(heap.test_min_length(&list, 0), Ok(true));
    assert_eq!(heap.test_min_length(&list, 3), Ok(true));
    assert_eq!(heap.test_min_length(&list, 4), Ok(false));
    assert_eq!(heap.test_min_length(&dotted, 2), Ok(true));
    assert_eq!(heap.test_min_length(&dotted, 3), Err(SError::ImproperList));
    assert_eq!(heap.test_min_length(&Expr::Integer(1), 0), Ok(true));
}

#[test]
fn proper_lists() {
    let mut heap = Heap::new();
    let list = read(&mut heap, "(1 2 3)");
    let dotted = read(&mut heap, "(1 2 . 3)");
    assert_eq!(heap.is_proper_list(&list), Ok(true));
    assert_eq!(heap.is_proper_list(&Expr::Nil), Ok(true));
    assert_eq!(heap.is_proper_list(&dotted), Ok(false));
    assert_eq!(heap.is_proper_list(&Expr::Integer(1)), Ok(false));
    let (elems, tail) = heap.spine(&list);
    assert_eq!(elems, vec![Expr::Integer(1), Expr::Integer(2), Expr::Integer(3)]);
    assert_eq!(tail, Expr::Nil);
    let (elems, tail) = heap.spine(&dotted);
    assert_eq!(elems, vec![Expr::Integer(1), Expr::Integer(2)]);
    assert_eq!(tail, Expr::Integer(3));
    assert_eq!(heap.spine(&Expr::Integer(7)), (vec![], Expr::Integer(7)));
}

#[test]
fn a_chain_that_runs_in_a_cycle_is_no_list() {
    let mut heap = Heap::new();
    let a = heap.make_cons(Expr::Integer(1), Expr::Nil).unwrap();
    let b = heap.make_cons(Expr::Integer(2), a).unwrap();
    heap.set_rest(&a, b).unwrap();
    assert_eq!(heap.is_proper_list(&b), Ok(false));
    assert_eq!(heap.test_length(&b, 5), Ok(false));
    assert_eq!(heap.format_expr(&b), Err(SError::ImproperList));
    let (_, tail) = heap.spine(&b);
    assert!(tail.is_pair());
    let c = heap.make_cons(Expr::Nil, Expr::Nil).unwrap();
    heap.set_first(&c, c).unwrap();
    assert_eq!(heap.format_expr(&c), Err(SError::ImproperList));
    assert_eq!(heap.is_proper_list(&c), Ok(true));
}

#[test]
fn lists_from_values() {
    let mut heap = Heap::new();
    let vals = vec![Expr::Integer(1), Expr::Integer(2), Expr::Integer(3)];
    let before = heap.len();
    let list = heap.make_list(&vals, Expr::Nil);
    assert_eq!(heap.len(), before + 3);
    assert_eq!(show(&heap, &list), "(1 2 3)");
    let dotted = heap.make_list(&vals, Expr::Integer(4));
    assert_eq!(show(&heap, &dotted), "(1 2 3 . 4)");
    assert_eq!(heap.make_list(&vec![], Expr::Nil), Expr::Nil);
    assert_eq!(heap.make_list(&vec![], list), list);
}

#[test]
fn environments() {
    let mut heap = Heap::new();
    let root = heap.root_env();
    let x = heap.make_symbol("x").unwrap();
    let y = heap.make_symbol("y").unwrap();
    assert_eq!(heap.env_get(&root, &x), Err(SError::UnboundSymbol));
    assert_eq!(heap.env_set(&root, &x, Expr::Integer(1)), Ok(()));
    assert_eq!(heap.env_get(&root, &x), Ok(Expr::Integer(1)));
    let child = heap.make_env(&root).unwrap();
    assert_eq!(heap.env_get(&child, &x), Ok(Expr::Integer(1)));
    assert_eq!(heap.env_set(&child, &x, Expr::Integer(2)), Ok(()));
    assert_eq!(heap.env_set(&child, &y, Expr::Integer(3)), Ok(()));
    assert_eq!(heap.env_get(&child, &x), Ok(Expr::Integer(2)));
    assert_eq!(heap.env_get(&child, &y), Ok(Expr::Integer(3)));
    assert_eq!(heap.env_get(&root, &x), Ok(Expr::Integer(1)));
    assert_eq!(heap.env_get(&root, &y), Err(SError::UnboundSymbol));
    let cells = heap.len();
    assert_eq!(heap.env_set(&child, &x, Expr::Integer(4)), Ok(()));
    assert_eq!(heap.len(), cells);
    assert_eq!(heap.env_get(&child, &x), Ok(Expr::Integer(4)));
    assert_eq!(heap.env_set(&root, &y, Expr::Integer(5)), Ok(()));
    assert_eq!(heap.len(), cells + 2);
    assert_eq!(heap.env_get(&child, &y), Ok(Expr::Integer(3)));
}

#[test]
fn environment_errors() {
    let mut heap = Heap::new();
    let root = heap.root_env();
    let x = heap.make_symbol("x").unwrap();
    assert_eq!(heap.env_get(&Expr::Nil, &x), Err(SError::ImproperEnvironment));
    assert_eq!(heap.env_get(&Expr::Integer(1), &x), Err(SError::ImproperEnvironment));
    assert_eq!(heap.env_get(&root, &Expr::Integer(1)), Err(SError::ImproperSymbol));
    assert_eq!(heap.env_set(&Expr::Nil, &x, Expr::Nil), Err(SError::ImproperEnvironment));
    assert_eq!(heap.env_set(&root, &Expr::Nil, Expr::Nil), Err(SError::ImproperSymbol));
    let bad_parent = heap.make_cons(Expr::Integer(1), Expr::Nil).unwrap();
    assert_eq!(heap.env_get(&bad_parent, &x), Err(SError::ImproperEnvironment));
    let bad_bindings = heap.make_cons(Expr::Nil, Expr::Integer(1)).unwrap();
    assert_eq!(heap.env_get(&bad_bindings, &x), Err(SError::ImproperList));
    assert_eq!(heap.env_set(&bad_bindings, &x, Expr::Nil), Err(SError::ImproperList));
    let looped = heap.make_cons(Expr::Nil, Expr::Nil).unwrap();
    heap.set_first(&looped, looped).unwrap();
    assert_eq!(heap.env_get(&looped, &x), Err(SError::ImproperEnvironment));
}

#[test]
fn validity_of_values() {
    let mut heap = Heap::new();
    let p = heap.make_cons(Expr::Nil, Expr::Nil).unwrap();
    assert!(heap.is_valid(&p));
    assert!(heap.is_valid(&Expr::Nil));
    assert!(heap.is_valid(&Expr::Integer(1)));
    assert!(heap.is_valid(&heap.root_env()));
    assert!(!heap.is_valid(&heap.symbols()));
    assert!(!heap.is_valid(&Expr::Pair(ConsCellKey(1_000_000))));
    assert!(!heap.is_valid(&Expr::Closure(ConsCellKey(1_000_000))));
    assert!(!heap.is_valid(&Expr::Symbol(1_000_000)));
    let s = heap.make_symbol("some").unwrap();
    assert!(heap.is_valid(&s));
    heap.collect();
    assert!(!heap.is_valid(&p));
    assert!(heap.is_valid(&s));
}

#[test]
fn collection_keeps_what_the_roots_reach() {
    let mut heap = Heap::new();
    heap.collect();
    let base = heap.len();
    let root = heap.root_env();
    let x = heap.make_symbol("x").unwrap();
    let kept = read(&mut heap, "(1 (2 3) . 4)");
    heap.env_set(&root, &x, kept).unwrap();
    let lost = read(&mut heap, "(5 6 7)");
    assert!(heap.is_valid(&lost));
    let before = show(&heap, &kept);
    let before_env = show(&heap, &root);
    heap.collect();
    assert_eq!(show(&heap, &kept), before);
    assert_eq!(show(&heap, &kept), "(1 (2 3) . 4)");
    assert_eq!(show(&heap, &heap.root_env()), before_env);
    assert!(!heap.is_valid(&lost));
    // one symbol cell, one binding, one link of the bindings, four cells of the value
    assert_eq!(heap.len(), base + 7);
    assert_eq!(heap.env_get(&root, &x), Ok(kept));
    heap.collect();
    assert_eq!(heap.len(), base + 7);
}

#[test]
fn collection_reclaims_cycles() {
    let mut heap = Heap::new();
    heap.collect();
    let base = heap.len();
    let a = heap.make_cons(Expr::Integer(1), Expr::Nil).unwrap();
    let b = heap.make_cons(Expr::Integer(2), a).unwrap();
    heap.set_rest(&a, b).unwrap();
    assert_eq!(heap.len(), base + 2);
    heap.collect();
    assert_eq!(heap.len(), base);
    // a closure in the root environment refers to the environment that holds it
    let def = read(&mut heap, "(define f (lambda () f))");
    heap.eval(&def, 100).unwrap();
    heap.collect();
    let with_f = heap.len();
    let call = read(&mut heap, "((f))");
    assert_eq!(heap.eval(&call, 100).map(|v| matches!(v, Expr::Closure(_))), Ok(true));
    heap.collect();
    assert_eq!(heap.len(), with_f);
    let undef = read(&mut heap, "(define f 0)");
    heap.eval(&undef, 100).unwrap();
    heap.collect();
    // the two cells of the closure and the cell of its body list
    assert_eq!(heap.len(), with_f - 3);
}

#[test]
fn a_new_heap_holds_no_garbage() {
    let mut heap = Heap::new();
    let cells = heap.len();
    let keys = heap.keys();
    heap.collect();
    assert_eq!(heap.len(), cells);
    assert_eq!(heap.keys(), keys);
    // one root frame, seventeen names, two cells for each of thirteen bindings
    assert_eq!(cells, 1 + 17 + 26);
    assert_eq!(heap.spine(&heap.symbols()).0.len(), 17);
    assert_eq!(heap.get_first(&heap.root_env()), Ok(Expr::Nil));
}

#[test]
fn values_that_can_be_read() {
    let mut heap = Heap::new();
    let symbols = heap.symbols();
    assert!(heap.is_known(&symbols));
    assert!(!heap.is_valid(&symbols));
    assert!(heap.is_known(&heap.root_env()));
    assert!(heap.is_known(&Expr::Nil));
    assert!(heap.is_known(&Expr::Symbol(0)));
    assert!(!heap.is_known(&Expr::Symbol(1_000_000)));
    assert!(!heap.is_known(&Expr::Pair(ConsCellKey(1_000_000))));
    assert!(!heap.is_known(&Expr::Closure(ConsCellKey(1_000_000))));
    assert_eq!(heap.is_proper_list(&symbols), Ok(true));
    assert_eq!(heap.test_length(&symbols, 17), Ok(true));
    assert_eq!(heap.test_min_length(&symbols, 18), Ok(false));
    let text = show(&heap, &symbols);
    assert!(text.starts_with("(>= > <= < = / * - + CONS LIST? REST FIRST LAMBDA IF DEFINE QUOTE)"));
    let lost = heap.make_cons(Expr::Nil, Expr::Nil).unwrap();
    assert!(heap.is_known(&lost));
    heap.collect();
    assert!(!heap.is_known(&lost));
    assert_eq!(show(&heap, &heap.symbols()), text);
}

#[test]
fn keys_of_the_live_cells() {
    let mut heap = Heap::new();
    let mut keys = heap.keys();
    assert_eq!(keys.len(), heap.len());
    let p = heap.make_cons(Expr::Nil, Expr::Nil).unwrap();
    let Expr::Pair(ConsCellKey(k)) = p else { unreachable!() };
    assert!(!keys.contains(&k));
    keys = heap.keys();
    assert!(keys.contains(&k));
    assert_eq!(keys.len(), heap.len());
    keys.sort();
    keys.dedup();
    assert_eq!(keys.len(), heap.len());
    heap.collect();
    assert!(!heap.keys().contains(&k));
    assert_eq!(heap.keys().len(), heap.len());
}

#[test]
fn a_freed_key_is_used_again() {
    let mut heap = Heap::new();
    let lost = heap.make_cons(Expr::Integer(1), Expr::Nil).unwrap();
    heap.collect();
    let again = heap.make_cons(Expr::Integer(2), Expr::Nil).unwrap();
    assert_eq!(lost, again);
    assert_eq!(heap.get_first(&again), Ok(Expr::Integer(2)));
}

#[test]
fn primitives_on_argument_lists() {
    let mut heap = Heap::new();
    let args = read(&mut heap, "((1 2) 3)");
    let one = read(&mut heap, "((1 2))");
    assert_eq!(validate_arg_count(&heap, &args, 2), Ok(()));
    assert_eq!(validate_arg_count(&heap, &args, 1), Err(SError::WrongNumberOfArgs));
    assert_eq!(validate_arg_count(&heap, &Expr::Integer(1), 1), Err(SError::ImproperList));
    assert_eq!(first(&one, &heap), Ok(Expr::Integer(1)));
    assert_eq!(rest(&one, &heap).map(|v| show(&heap, &v)), Ok("(2)".to_string()));
    assert_eq!(list_p(&one, &heap), Ok(Expr::Boolean(true)));
    let pair = cons(&args, &mut heap).unwrap();
    assert_eq!(show(&heap, &pair), "((1 2) . 3)");
    assert_eq!(cons(&one, &mut heap), Err(SError::WrongNumberOfArgs));
    assert_eq!(Native::Cons.call(&args, &mut heap).map(|v| show(&heap, &v)), Ok("((1 2) . 3)".to_string()));
    assert_eq!(Native::First.call(&one, &mut heap), Ok(Expr::Integer(1)));
    assert_eq!(Native::Lt.call(&args, &mut heap), Err(SError::TypeError));
    assert_eq!(as_integer(&Expr::Integer(4)), Ok(4));
    assert_eq!(as_integer(&Expr::Nil), Err(SError::TypeError));
    assert_eq!(as_integer(&Expr::Boolean(true)), Err(SError::TypeError));
}

#[test]
fn arithmetic_on_argument_lists() {
    let mut heap = Heap::new();
    let nums = read(&mut heap, "(20 5 2)");
    assert_eq!(do_plus(&nums, &heap), Ok(Expr::Integer(27)));
    assert_eq!(do_minus(&nums, &heap), Ok(Expr::Integer(13)));
    assert_eq!(do_times(&nums, &heap), Ok(Expr::Integer(200)));
    assert_eq!(do_divide(&nums, &heap), Ok(Expr::Integer(2)));
    assert_eq!(do_arithmetic(&nums, &heap, 0, Native::Plus), Ok(Expr::Integer(27)));
    let single = read(&mut heap, "(5)");
    assert_eq!(do_arithmetic(&single, &heap, 100, Native::Minus), Ok(Expr::Integer(95)));
    assert_eq!(do_arithmetic(&Expr::Nil, &heap, 0, Native::Plus), Err(SError::WrongNumberOfArgs));
    assert_eq!(do_arithmetic(&Expr::Integer(1), &heap, 0, Native::Plus), Err(SError::ImproperList));
    let dotted = read(&mut heap, "(1 2 . 3)");
    assert_eq!(do_plus(&dotted, &heap), Err(SError::ImproperList));
    let dotted_one = read(&mut heap, "(1 . 3)");
    assert_eq!(do_plus(&dotted_one, &heap), Err(SError::ImproperList));
    let typed = read(&mut heap, "(1 a . 3)");
    assert_eq!(do_plus(&typed, &heap), Err(SError::TypeError));
    let head = read(&mut heap, "(a . 3)");
    assert_eq!(do_plus(&head, &heap), Err(SError::TypeError));
    assert_eq!(bin_op(Native::Plus, 2, 3), Ok(5));
    assert_eq!(bin_op(Native::Minus, 2, 3), Ok(-1));
    assert_eq!(bin_op(Native::Times, 2, 3), Ok(6));
    assert_eq!(bin_op(Native::Divide, 7, 2), Ok(3));
    assert_eq!(bin_op(Native::Divide, 7, 0), Err(SError::TypeError));
    assert_eq!(bin_op(Native::Plus, i64::MAX, 1), Err(SError::TypeError));
    assert_eq!(bin_op(Native::Minus, i64::MIN, 1), Err(SError::TypeError));
    assert_eq!(bin_op(Native::Times, i64::MIN, -1), Err(SError::TypeError));
    assert_eq!(bin_op(Native::Divide, i64::MIN, -1), Err(SError::TypeError));
    assert_eq!(bin_op(Native::Divide, i64::MIN, 1), Ok(i64::MIN));
}

#[test]
fn predicates_on_argument_lists() {
    let mut heap = Heap::new();
    let up = read(&mut heap, "(1 2)");
    let same = read(&mut heap, "(2 2)");
    let down = read(&mut heap, "(3 2)");
    let expected = [
        (Native::NumEq, false, true, false),
        (Native::Lt, true, false, false),
        (Native::Lte, true, true, false),
        (Native::Gt, false, false, true),
        (Native::Gte, false, true, true),
    ];
    for (f, a, b, c) in expected {
        assert_eq!(do_predicate(&up, &heap, f), Ok(Expr::Boolean(a)));
        assert_eq!(do_predicate(&same, &heap, f), Ok(Expr::Boolean(b)));
        assert_eq!(do_predicate(&down, &heap, f), Ok(Expr::Boolean(c)));
        assert_eq!(compare(f, 1, 2), a);
        assert_eq!(compare(f, 2, 2), b);
        assert_eq!(compare(f, 3, 2), c);
    }
    assert_eq!(do_numeq(&same, &heap), Ok(Expr::Boolean(true)));
    assert_eq!(do_lt(&up, &heap), Ok(Expr::Boolean(true)));
    assert_eq!(do_lte(&down, &heap), Ok(Expr::Boolean(false)));
    assert_eq!(do_gt(&down, &heap), Ok(Expr::Boolean(true)));
    assert_eq!(do_gte(&up, &heap), Ok(Expr::Boolean(false)));
}

#[test]
fn names_of_the_primitives() {
    let names = [
        (Native::First, "first"),
        (Native::Rest, "rest"),
        (Native::ListP, "list?"),
        (Native::Cons, "cons"),
        (Native::Plus, "+"),
        (Native::Minus, "-"),
        (Native::Times, "*"),
        (Native::Divide, "/"),
        (Native::NumEq, "="),
        (Native::Lt, "<"),
        (Native::Lte, "<="),
        (Native::Gt, ">"),
        (Native::Gte, ">="),
    ];
    for (f, name) in names {
        assert_eq!(f.name(), name);
    }
}

#[test]
fn a_primitive_can_be_bound_under_another_name() {
    let mut heap = Heap::new();
    assert_eq!(add_primitive(&mut heap, "car", Native::First), Ok(()));
    let call = read(&mut heap, "(car '(1 2))");
    assert_eq!(heap.eval(&call, 100), Ok(Expr::Integer(1)));
}
