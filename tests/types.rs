use std::rc::Rc;
use rustymal::hash::hash_code;
use rustymal::types::{Arity, MalError, MalVal, Paren};

fn pairs() -> Vec<(MalVal, MalVal)> {
    vec![
        (MalVal::Nil, MalVal::Bool(false)),
        (MalVal::Bool(false), MalVal::Number(1)),
        (MalVal::Number(1), MalVal::string("hello")),
        (MalVal::string("hello"), MalVal::symbol("+")),
        (MalVal::symbol("+"), MalVal::keyword("key")),
        (MalVal::keyword("key"), MalVal::Nil),
    ]
}

#[test]
fn test_hash() {
    let v = pairs();
    let expected_map = MalVal::hashmap(v.clone());
    for shift in 0..v.len() {
        for reverse in [false, true] {
            let mut c = v.clone();
            c.rotate_left(shift);
            if reverse {
                c.reverse();
            }
            let rand_map = MalVal::hashmap(c);
            assert_eq!(expected_map, rand_map);
            assert_eq!(
                hash_code(&expected_map),
                hash_code(&rand_map),
                "hashes are not equal"
            );
        }
    }
}

#[test]
fn list_and_vector_never_equal() {
    let l = MalVal::list(vec![MalVal::Number(1), MalVal::Number(2)]);
    let v = MalVal::vec(vec![MalVal::Number(1), MalVal::Number(2)]);
    assert_ne!(l, v);
    assert_eq!(l, MalVal::list_with_meta(vec![MalVal::Number(1), MalVal::Number(2)], MalVal::Bool(true)));
}

#[test]
fn hash_ignores_metadata_and_tells_kinds_apart() {
    let a = MalVal::vec(vec![MalVal::Number(1)]);
    let b = MalVal::vec_with_meta(vec![MalVal::Number(1)], MalVal::keyword("m"));
    assert_eq!(hash_code(&a), hash_code(&b));
    assert_ne!(hash_code(&MalVal::string("a")), hash_code(&MalVal::symbol("a")));
    assert_ne!(hash_code(&MalVal::Number(1)), hash_code(&MalVal::Number(2)));
}

#[test]
fn sets_ignore_order_and_duplicates() {
    let a = MalVal::hashset(vec![MalVal::Number(1), MalVal::Number(2), MalVal::Number(1)]);
    let b = MalVal::hashset(vec![MalVal::Number(2), MalVal::Number(1)]);
    assert_eq!(a, b);
    assert_eq!(hash_code(&a), hash_code(&b));
}

#[test]
fn type_names() {
    assert_eq!(MalVal::Nil.type_str(), "nil");
    assert_eq!(MalVal::hashmap(vec![]).type_str(), "hash-map");
    assert_eq!(MalVal::keyword("a").type_str(), "keyword");
}

#[test]
fn error_messages() {
    assert_eq!(MalError::Unbalanced(Paren::Round).message(), "expected ), got EOF");
    assert_eq!(MalError::OddMap(1).message(), "odd number of map entries: 1");
    assert_eq!(
        MalError::WrongArity("+".to_string(), Arity::Variadic(1), 0).message(),
        "wrong number of arguments for +: expected 1+, got 0"
    );
    assert_eq!(
        MalError::WrongArity("if".to_string(), Arity::JustOrOneLess(3), 1).message(),
        "wrong number of arguments for if: expected 2 or 3, got 1"
    );
    assert_eq!(
        MalError::NotFound("x".to_string()).message(),
        "symbol 'x' not found"
    );
    assert_eq!(
        MalError::InvalidType("\"a\"".to_string(), "number".to_string(), "string".to_string()).message(),
        "expected number for \"a\", got string"
    );
    assert_eq!(Arity::Fixed(2).message(), "2");
}

#[test]
fn map_equality_compares_both_ways() {
    let doubled = MalVal::HashMap(
        Rc::new(vec![(MalVal::Number(1), MalVal::Number(1)), (MalVal::Number(1), MalVal::Number(1))]),
        Rc::new(MalVal::Nil),
    );
    let two = MalVal::hashmap(vec![
        (MalVal::Number(1), MalVal::Number(1)),
        (MalVal::Number(2), MalVal::Number(2)),
    ]);
    assert_ne!(doubled, two);
    assert_ne!(two, doubled);
}
