use rustymal::env::Env;
use rustymal::eval::{rep, EVAL, READ};
use rustymal::types::{Arity, Builtin, MalError, MalVal};

fn env_with(names: &[(&str, Builtin)]) -> Env {
    let mut e = Env::new();
    for (n, f) in names {
        e.set(0, n.to_string(), MalVal::BuiltinFn(*f));
    }
    e
}

fn eval_str(src: &str, e: &mut Env) -> Result<MalVal, MalError> {
    let form = READ(src.to_string())?;
    EVAL(form, e, 0)
}

#[test]
fn test_eval_nested_function() {
    // (def! nested-fn (fn* [a] (fn* [b] (+ a b))))
    let nested_fn = MalVal::list(vec![
        MalVal::symbol("fn*"),
        MalVal::list(vec![MalVal::symbol("a")]),
        MalVal::list(vec![
            MalVal::symbol("fn*"),
            MalVal::list(vec![MalVal::symbol("b")]),
            MalVal::list(vec![
                MalVal::symbol("+"),
                MalVal::symbol("b"),
                MalVal::symbol("a"),
            ]),
        ]),
    ]);
    // (nested-fn 7)
    let apply_a = MalVal::list(vec![nested_fn, MalVal::Number(7)]);
    let mut core_env = env_with(&[("+", Builtin::Add)]);
    // ((nested-fn 7) 5)
    assert_eq!(
        EVAL(MalVal::list(vec![apply_a, MalVal::Number(5)]), &mut core_env, 0).unwrap(),
        MalVal::Number(12)
    );
}

#[test]
fn test_eval_body() {
    let body = MalVal::list(vec![
        MalVal::symbol("+"),
        MalVal::symbol("b"),
        MalVal::symbol("a"),
    ]);
    let mut e = env_with(&[("+", Builtin::Add)]);
    let outer = e.push_scope(0);
    e.set(outer, "a".to_string(), MalVal::Number(5));
    let inner = e.push_scope(outer);
    e.set(inner, "b".to_string(), MalVal::Number(7));
    assert_eq!(EVAL(body, &mut e, inner).unwrap(), MalVal::Number(12));
}

#[test]
fn test_eval_func_with_env() {
    let func = MalVal::list(vec![
        MalVal::symbol("fn*"),
        MalVal::list(vec![MalVal::symbol("b")]),
        MalVal::list(vec![
            MalVal::symbol("+"),
            MalVal::symbol("b"),
            MalVal::symbol("a"),
        ]),
    ]);
    let applied = MalVal::list(vec![func, MalVal::Number(5)]);
    let mut e = env_with(&[("+", Builtin::Add)]);
    let s = e.push_scope(0);
    e.set(s, "a".to_string(), MalVal::Number(7));
    assert_eq!(EVAL(applied, &mut e, s).unwrap(), MalVal::Number(12));
}

#[test]
fn test_eval_variadic_func() {
    let func = MalVal::list(vec![
        MalVal::symbol("fn*"),
        MalVal::list(vec![MalVal::symbol("&"), MalVal::symbol("more")]),
        MalVal::list(vec![MalVal::symbol("count"), MalVal::symbol("more")]),
    ]);
    let mut e = env_with(&[("count", Builtin::Count)]);
    assert_eq!(
        EVAL(MalVal::list(vec![func]), &mut e, 0).unwrap(),
        MalVal::Number(0)
    );
}

#[test]
fn fixed_arity_rejects_too_few_and_too_many() {
    let mut e = rustymal::builtins::env();
    eval_str("(def! f (fn* (a b) a))", &mut e).unwrap();
    for src in ["(f 1)", "(f 1 2 3)"] {
        match eval_str(src, &mut e) {
            Err(MalError::WrongArity(name, Arity::Fixed(2), got)) => {
                assert_eq!(name, "function");
                assert_eq!(got, if src == "(f 1)" { 1 } else { 3 });
            }
            other => panic!("unexpected {:?}", other),
        }
    }
    assert_eq!(eval_str("(f 1 2)", &mut e).unwrap(), MalVal::Number(1));
}

#[test]
fn variadic_arity_and_rest_binding() {
    let mut e = rustymal::builtins::env();
    eval_str("(def! g (fn* (a & b) b))", &mut e).unwrap();
    match eval_str("(g)", &mut e) {
        Err(MalError::WrongArity(_, Arity::Variadic(1), 0)) => {}
        other => panic!("unexpected {:?}", other),
    }
    let r = eval_str("(g 1 2 3)", &mut e).unwrap();
    assert_eq!(r, MalVal::list(vec![MalVal::Number(2), MalVal::Number(3)]));
    let r = eval_str("(g 1)", &mut e).unwrap();
    assert_eq!(r, MalVal::list(vec![]));
}

#[test]
fn deep_tail_recursion_runs_in_bounded_stack() {
    let mut e = rustymal::builtins::env();
    eval_str(
        "(def! count-down (fn* (n) (if (= n 0) 0 (count-down (- n 1)))))",
        &mut e,
    )
    .unwrap();
    assert_eq!(
        eval_str("(count-down 1000000)", &mut e).unwrap(),
        MalVal::Number(0)
    );
}

#[test]
fn inner_let_shadows_without_touching_outer() {
    let mut e = rustymal::builtins::env();
    assert_eq!(
        eval_str("(let* (x 2) (let* (x (* x x)) x))", &mut e).unwrap(),
        MalVal::Number(4)
    );
    eval_str("(def! x 10)", &mut e).unwrap();
    assert_eq!(eval_str("(let* (x 3) x)", &mut e).unwrap(), MalVal::Number(3));
    assert_eq!(eval_str("x", &mut e).unwrap(), MalVal::Number(10));
}

#[test]
fn let_sees_earlier_bindings_and_pads_with_nil() {
    let mut e = rustymal::builtins::env();
    assert_eq!(
        eval_str("(let* [a 1 b (+ a 1)] (list a b))", &mut e).unwrap(),
        MalVal::list(vec![MalVal::Number(1), MalVal::Number(2)])
    );
    assert_eq!(eval_str("(let* (a) a)", &mut e).unwrap(), MalVal::Nil);
}

#[test]
fn if_without_else_gives_nil() {
    let mut e = rustymal::builtins::env();
    assert_eq!(eval_str("(if false 1)", &mut e).unwrap(), MalVal::Nil);
    assert_eq!(eval_str("(if nil 1 2)", &mut e).unwrap(), MalVal::Number(2));
    assert_eq!(eval_str("(if 0 1 2)", &mut e).unwrap(), MalVal::Number(1));
}

#[test]
fn do_returns_last_and_needs_an_operand() {
    let mut e = rustymal::builtins::env();
    assert_eq!(
        eval_str("(do (def! y 3) (+ y 1))", &mut e).unwrap(),
        MalVal::Number(4)
    );
    match eval_str("(do)", &mut e) {
        Err(MalError::WrongArity(name, Arity::Variadic(1), 0)) => assert_eq!(name, "do"),
        other => panic!("unexpected {:?}", other),
    }
}

#[test]
fn unknown_symbol_is_reported() {
    let mut e = rustymal::builtins::env();
    assert_eq!(
        eval_str("nope", &mut e),
        Err(MalError::NotFound("nope".to_string()))
    );
}

#[test]
fn applying_a_non_function_fails() {
    let mut e = rustymal::builtins::env();
    match eval_str("(1 2)", &mut e) {
        Err(MalError::InvalidType(p, x, g)) => {
            assert_eq!(p, "1");
            assert_eq!(x, "function");
            assert_eq!(g, "number");
        }
        other => panic!("unexpected {:?}", other),
    }
}

#[test]
fn misplaced_ampersand_and_bad_parameters() {
    let mut e = rustymal::builtins::env();
    assert!(matches!(
        eval_str("(fn* (& a b) a)", &mut e),
        Err(MalError::InvalidSyntax(_))
    ));
    assert!(matches!(
        eval_str("(fn* (a 1) a)", &mut e),
        Err(MalError::InvalidType(_, _, _))
    ));
}

#[test]
fn eval_runs_in_global_scope() {
    let mut e = rustymal::builtins::env();
    eval_str("(def! z 1)", &mut e).unwrap();
    assert_eq!(
        eval_str("(let* (z 2) (eval (read-string \"z\")))", &mut e).unwrap(),
        MalVal::Number(1)
    );
}

#[test]
fn vectors_and_maps_evaluate_their_members() {
    let mut e = rustymal::builtins::env();
    assert_eq!(
        eval_str("[(+ 1 1) 3]", &mut e).unwrap(),
        MalVal::vec(vec![MalVal::Number(2), MalVal::Number(3)])
    );
    assert_eq!(
        eval_str("{:a (+ 1 2)}", &mut e).unwrap(),
        MalVal::hashmap(vec![(MalVal::keyword("a"), MalVal::Number(3))])
    );
}

#[test]
fn atoms_hold_shared_state() {
    let mut e = rustymal::builtins::env();
    eval_str("(def! a (atom 1))", &mut e).unwrap();
    assert_eq!(eval_str("(deref a)", &mut e).unwrap(), MalVal::Number(1));
    assert_eq!(eval_str("(reset! a 5)", &mut e).unwrap(), MalVal::Number(5));
    assert_eq!(eval_str("@a", &mut e).unwrap(), MalVal::Number(5));
    assert_eq!(eval_str("(atom? a)", &mut e).unwrap(), MalVal::Bool(true));
}

#[test]
fn rep_prints_readably() {
    let mut e = rustymal::builtins::env();
    assert_eq!(rep("(list 1 \"a\" :k)".to_string(), &mut e).unwrap(), "(1 \"a\" :k)");
    assert_eq!(rep("   ".to_string(), &mut e), Err(MalError::NoInput));
    assert_eq!(rep("(fn* (a) a)".to_string(), &mut e).unwrap(), "#<function>");
}

#[test]
fn prn_records_a_line() {
    let mut e = rustymal::builtins::env();
    assert_eq!(eval_str("(prn \"a\" 1)", &mut e).unwrap(), MalVal::Nil);
    assert_eq!(eval_str("(println \"a\" 1)", &mut e).unwrap(), MalVal::Nil);
    assert_eq!(e.printed, vec!["\"a\" 1".to_string(), "a 1".to_string()]);
}

#[test]
fn closures_compare_by_identity() {
    let mut e = rustymal::builtins::env();
    eval_str("(def! f (fn* (a) a))", &mut e).unwrap();
    assert_eq!(eval_str("(= f f)", &mut e).unwrap(), MalVal::Bool(true));
    assert_eq!(
        eval_str("(= f (fn* (a) a))", &mut e).unwrap(),
        MalVal::Bool(false)
    );
}

#[test]
fn arithmetic_through_the_evaluator() {
    let mut e = rustymal::builtins::env();
    assert_eq!(eval_str("(/ 7 0)", &mut e), Err(MalError::DividedByZero));
    assert_eq!(
        eval_str("(+)", &mut e),
        Err(MalError::WrongArity("+".to_string(), Arity::Variadic(1), 0))
    );
    assert_eq!(eval_str("(+ 5)", &mut e).unwrap(), MalVal::Number(5));
    assert_eq!(eval_str("(- (* 2 3) (/ 9 3))", &mut e).unwrap(), MalVal::Number(3));
}

#[test]
fn too_deep_nesting_fails_cleanly() {
    let mut e = rustymal::builtins::env();
    eval_str("(def! sum (fn* (n) (if (= n 0) 0 (+ n (sum (- n 1))))))", &mut e).unwrap();
    assert_eq!(eval_str("(sum 10)", &mut e).unwrap(), MalVal::Number(55));
    assert_eq!(eval_str("(sum 5000)", &mut e), Err(MalError::TooDeep));
}

#[test]
fn let_bindings_stay_in_their_scope() {
    let mut e = rustymal::builtins::env();
    assert_eq!(eval_str("(let* (x 1) x)", &mut e).unwrap(), MalVal::Number(1));
    assert_eq!(eval_str("x", &mut e), Err(MalError::NotFound("x".to_string())));
    assert!(e.get(0, &"x".to_string()).is_none());
}

#[test]
fn failing_def_keeps_the_old_binding() {
    let mut e = rustymal::builtins::env();
    eval_str("(def! y 1)", &mut e).unwrap();
    assert_eq!(eval_str("(def! y (/ 1 0))", &mut e), Err(MalError::DividedByZero));
    assert_eq!(eval_str("y", &mut e).unwrap(), MalVal::Number(1));
}
