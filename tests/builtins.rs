use rustymal::builtins::call_builtin;
use rustymal::types::{Arity, Builtin, MalError, MalVal};

fn call(f: Builtin, args: Vec<MalVal>) -> Result<MalVal, MalError> {
    let mut e = rustymal::builtins::env();
    call_builtin(f, &args, &mut e)
}

fn n(x: i64) -> MalVal {
    MalVal::Number(x)
}

#[test]
fn division_by_zero_fails() {
    assert_eq!(call(Builtin::Div, vec![n(7), n(0)]), Err(MalError::DividedByZero));
    assert_eq!(call(Builtin::Div, vec![n(i64::MIN), n(-1)]), Err(MalError::DividedByZero));
    assert_eq!(call(Builtin::Div, vec![n(-7), n(2)]), Ok(n(-3)));
}

#[test]
fn arithmetic_needs_an_operand() {
    assert_eq!(
        call(Builtin::Add, vec![]),
        Err(MalError::WrongArity("+".to_string(), Arity::Variadic(1), 0))
    );
    assert_eq!(call(Builtin::Add, vec![n(5)]), Ok(n(5)));
    assert_eq!(call(Builtin::Sub, vec![n(10), n(3), n(2)]), Ok(n(5)));
    assert_eq!(call(Builtin::Mul, vec![n(2), n(3), n(4)]), Ok(n(24)));
    assert_eq!(call(Builtin::Add, vec![n(i64::MAX), n(1)]), Ok(n(i64::MIN)));
}

#[test]
fn arithmetic_rejects_non_numbers() {
    assert_eq!(
        call(Builtin::Add, vec![n(1), MalVal::string("a")]),
        Err(MalError::InvalidType("\"a\"".to_string(), "number".to_string(), "string".to_string()))
    );
}

#[test]
fn comparisons_chain_and_stop_early() {
    assert_eq!(call(Builtin::Lt, vec![n(1), n(2), n(3)]), Ok(MalVal::Bool(true)));
    assert_eq!(call(Builtin::Lt, vec![n(1), n(3), n(2)]), Ok(MalVal::Bool(false)));
    assert_eq!(call(Builtin::Gt, vec![n(1), n(2), MalVal::Nil]), Ok(MalVal::Bool(false)));
    assert_eq!(call(Builtin::Le, vec![n(1), n(1)]), Ok(MalVal::Bool(true)));
    assert_eq!(call(Builtin::Ge, vec![]), Ok(MalVal::Bool(true)));
    assert!(matches!(
        call(Builtin::Lt, vec![n(1), MalVal::Nil]),
        Err(MalError::InvalidType(_, _, _))
    ));
}

#[test]
fn count_and_predicates() {
    assert_eq!(call(Builtin::Count, vec![MalVal::Nil]), Ok(n(0)));
    assert_eq!(call(Builtin::Count, vec![MalVal::list(vec![n(1), n(2)])]), Ok(n(2)));
    assert_eq!(
        call(Builtin::Count, vec![MalVal::hashmap(vec![(n(1), n(2))])]),
        Ok(n(1))
    );
    assert!(matches!(call(Builtin::Count, vec![n(1)]), Err(MalError::InvalidType(_, _, _))));
    assert_eq!(call(Builtin::IsEmpty, vec![MalVal::vec(vec![])]), Ok(MalVal::Bool(true)));
    assert_eq!(call(Builtin::IsList, vec![MalVal::vec(vec![])]), Ok(MalVal::Bool(false)));
}

#[test]
fn equality_over_all_arguments() {
    assert_eq!(call(Builtin::Equal, vec![n(1), n(1), n(1)]), Ok(MalVal::Bool(true)));
    assert_eq!(call(Builtin::Equal, vec![n(1), n(1), n(2)]), Ok(MalVal::Bool(false)));
}

#[test]
fn strings_of_values() {
    assert_eq!(
        call(Builtin::PrStr, vec![MalVal::string("a"), n(1)]),
        Ok(MalVal::string("\"a\" 1"))
    );
    assert_eq!(
        call(Builtin::Str, vec![MalVal::string("a"), n(1)]),
        Ok(MalVal::string("a1"))
    );
}

#[test]
fn cons_prepends() {
    assert_eq!(
        call(Builtin::Cons, vec![n(0), MalVal::vec(vec![n(1)])]),
        Ok(MalVal::list(vec![n(0), n(1)]))
    );
}

#[test]
fn atoms_outside_the_state_are_dangling() {
    assert_eq!(call(Builtin::Deref, vec![MalVal::Atom(99)]), Err(MalError::Dangling));
    assert_eq!(
        call(Builtin::Reset, vec![MalVal::Atom(99), n(1)]),
        Err(MalError::Dangling)
    );
}

#[test]
fn read_string_reads_one_form() {
    assert_eq!(
        call(Builtin::ReadString, vec![MalVal::string("(1 2)")]),
        Ok(MalVal::list(vec![n(1), n(2)]))
    );
    assert_eq!(
        call(Builtin::ReadString, vec![MalVal::string("(1")]),
        Err(MalError::Unbalanced(rustymal::types::Paren::Round))
    );
}
