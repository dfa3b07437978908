use std::rc::Rc;
use vstd::prelude::*;

use crate::printer::{digits, push_char, push_digits};

verus! {

/// The kind of delimiter that an unbalanced-delimiter error names.
#[derive(PartialEq, Eq, Structural, Clone, Copy, Debug)]
pub enum Paren {
    Round,
    Square,
    Curly,
}

/// The shape of an expected argument count.
#[derive(PartialEq, Eq, Structural, Clone, Copy, Debug)]
pub enum Arity {
    Fixed(usize),
    Variadic(usize),
    JustOrOneLess(usize),
}

/// Every way in which reading or evaluating a form can fail.
#[derive(PartialEq, Eq, Clone, Debug)]
pub enum MalError {
    NoInput,
    Unbalanced(Paren),
    UnclosedQuote,
    OddMap(usize),
    DividedByZero,
    NotFound(String),
    InvalidType(String, String, String),
    WrongArity(String, Arity, usize),
    InvalidSyntax(String),
    /// Nested (non-tail) evaluation went deeper than the evaluator allows.
    TooDeep,
    /// A closure or atom names a scope or cell that its environment does not hold.
    Dangling,
}

/// The host procedures that the global scope offers.
#[derive(PartialEq, Eq, Structural, Clone, Copy, Debug)]
pub enum Builtin {
    Add,
    Sub,
    Mul,
    Div,
    List,
    IsList,
    IsEmpty,
    Count,
    Equal,
    Lt,
    Le,
    Gt,
    Ge,
    PrStr,
    Str,
    Prn,
    Println,
    Atom,
    IsAtom,
    Deref,
    Reset,
    ReadString,
    Cons,
}

/// A user-defined function: fixed parameter names, an optional rest parameter,
/// an unevaluated body, the scope it was defined in, and an identity.
#[derive(Clone, Debug)]
pub struct Closure {
    pub params: Vec<String>,
    pub rest: Option<String>,
    pub body: MalVal,
    pub env: usize,
    pub id: usize,
}

/// A value of the language.
#[derive(Clone, Debug)]
pub enum MalVal {
    Nil,
    Bool(bool),
    Number(i64),
    String(Rc<String>),
    Keyword(Rc<String>),
    Symbol(Rc<String>),
    List(Rc<Vec<MalVal>>, Rc<MalVal>),
    Vector(Rc<Vec<MalVal>>, Rc<MalVal>),
    HashMap(Rc<Vec<(MalVal, MalVal)>>, Rc<MalVal>),
    HashSet(Rc<Vec<MalVal>>, Rc<MalVal>),
    BuiltinFn(Builtin),
    Func(Rc<Closure>, Rc<MalVal>),
    Atom(usize),
}

pub type MalResult = Result<MalVal, MalError>;

/// Deep structural equality: metadata is ignored, tags never mix, maps are
/// compared as sets of entries, functions and atoms by identity.
pub open spec fn val_eq(a: MalVal, b: MalVal) -> bool
    decreases a, 0nat,
{
    match (a, b) {
        (MalVal::Nil, MalVal::Nil) => true,
        (MalVal::Bool(x), MalVal::Bool(y)) => x == y,
        (MalVal::Number(x), MalVal::Number(y)) => x == y,
        (MalVal::String(x), MalVal::String(y)) => x@ == y@,
        (MalVal::Keyword(x), MalVal::Keyword(y)) => x@ == y@,
        (MalVal::Symbol(x), MalVal::Symbol(y)) => x@ == y@,
        (MalVal::List(x, _), MalVal::List(y, _)) => x@.len() == y@.len() && forall|i: int|
            0 <= i < x@.len() ==> val_eq(#[trigger] x@[i], y@[i]),
        (MalVal::Vector(x, _), MalVal::Vector(y, _)) => x@.len() == y@.len() && forall|i: int|
            0 <= i < x@.len() ==> val_eq(#[trigger] x@[i], y@[i]),
        (MalVal::HashMap(x, _), MalVal::HashMap(y, _)) => x@.len() == y@.len() && (forall|i: int|
            #![trigger x@[i]]
            0 <= i < x@.len() ==> entry_in(x@[i], y@)) && (forall|j: int|
            #![trigger y@[j]]
            0 <= j < y@.len() ==> entry_found(x@, y@[j])),
        (MalVal::HashSet(x, _), MalVal::HashSet(y, _)) => x@.len() == y@.len() && (forall|i: int|
            #![trigger x@[i]]
            0 <= i < x@.len() ==> elem_in(x@[i], y@)) && (forall|j: int|
            #![trigger y@[j]]
            0 <= j < y@.len() ==> elem_found(x@, y@[j])),
        (MalVal::BuiltinFn(x), MalVal::BuiltinFn(y)) => x == y,
        (MalVal::Func(x, _), MalVal::Func(y, _)) => x.id == y.id,
        (MalVal::Atom(x), MalVal::Atom(y)) => x == y,
        _ => false,
    }
}


/// Some entry of `ys` has a key equal to `e`'s key and a value equal to its value.
pub open spec fn entry_in(e: (MalVal, MalVal), ys: Seq<(MalVal, MalVal)>) -> bool
    decreases e, 1nat,
{
    exists|j: int| #![trigger ys[j]] 0 <= j < ys.len() && val_eq(e.0, ys[j].0) && val_eq(e.1, ys[j].1)
}

/// Some element of `ys` is equal to `e`.
pub open spec fn elem_in(e: MalVal, ys: Seq<MalVal>) -> bool
    decreases e, 1nat,
{
    exists|j: int| #![trigger ys[j]] 0 <= j < ys.len() && val_eq(e, ys[j])
}

/// Some entry of `xs` has a key equal to `e`'s key and a value equal to its
/// value (the converse direction of `entry_in`).
pub open spec fn entry_found(xs: Seq<(MalVal, MalVal)>, e: (MalVal, MalVal)) -> bool
    decreases xs, 1nat,
{
    exists|i: int| #![trigger xs[i]] 0 <= i < xs.len() && val_eq(xs[i].0, e.0) && val_eq(xs[i].1, e.1)
}

/// Some element of `xs` is equal to `e` (the converse direction of `elem_in`).
pub open spec fn elem_found(xs: Seq<MalVal>, e: MalVal) -> bool
    decreases xs, 1nat,
{
    exists|i: int| #![trigger xs[i]] 0 <= i < xs.len() && val_eq(xs[i], e)
}

/// The type name used in diagnostics.
pub open spec fn kind_name(v: MalVal) -> Seq<char> {
    match v {
        MalVal::Nil => "nil"@,
        MalVal::Bool(_) => "bool"@,
        MalVal::Number(_) => "number"@,
        MalVal::String(_) => "string"@,
        MalVal::Keyword(_) => "keyword"@,
        MalVal::Symbol(_) => "symbol"@,
        MalVal::List(_, _) => "list"@,
        MalVal::Vector(_, _) => "vector"@,
        MalVal::HashMap(_, _) => "hash-map"@,
        MalVal::HashSet(_, _) => "hash-set"@,
        MalVal::BuiltinFn(_) => "function"@,
        MalVal::Func(_, _) => "function"@,
        MalVal::Atom(_) => "atom"@,
    }
}

/// The position of the last entry of `m` whose key equals `k`, or -1.
pub open spec fn key_index(m: Seq<(MalVal, MalVal)>, k: MalVal) -> int
    decreases m.len(),
{
    if m.len() == 0 {
        -1
    } else if val_eq(m.last().0, k) {
        m.len() - 1
    } else {
        key_index(m.drop_last(), k)
    }
}

/// The position of the last element of `s` equal to `x`, or -1.
pub open spec fn elem_index(s: Seq<MalVal>, x: MalVal) -> int
    decreases s.len(),
{
    if s.len() == 0 {
        -1
    } else if val_eq(s.last(), x) {
        s.len() - 1
    } else {
        elem_index(s.drop_last(), x)
    }
}

/// No two entries have structurally equal keys.
pub open spec fn keys_distinct(m: Seq<(MalVal, MalVal)>) -> bool {
    forall|i: int, j: int| 0 <= i < j < m.len() ==> !val_eq(#[trigger] m[i].0, #[trigger] m[j].0)
}

/// Pairwise unequal elements.
pub open spec fn elems_distinct(s: Seq<MalVal>) -> bool {
    forall|i: int, j: int| 0 <= i < j < s.len() ==> !val_eq(#[trigger] s[i], #[trigger] s[j])
}

/// The entries after associating `k` with `v`: an entry with an equal key
/// keeps its key and takes the new value, otherwise the pair is appended.
pub open spec fn assoc(m: Seq<(MalVal, MalVal)>, k: MalVal, v: MalVal) -> Seq<(MalVal, MalVal)> {
    let j = key_index(m, k);
    if j >= 0 {
        m.update(j, (m[j].0, v))
    } else {
        m.push((k, v))
    }
}

/// The entries of a map built by associating each pair in turn.
pub open spec fn assoc_all(pairs: Seq<(MalVal, MalVal)>) -> Seq<(MalVal, MalVal)>
    decreases pairs.len(),
{
    if pairs.len() == 0 {
        Seq::empty()
    } else {
        let last = pairs.last();
        assoc(assoc_all(pairs.drop_last()), last.0, last.1)
    }
}

/// The elements of a set built by adding each value in turn; a value equal to
/// one already held is left out.
pub open spec fn adjoin_all(xs: Seq<MalVal>) -> Seq<MalVal>
    decreases xs.len(),
{
    if xs.len() == 0 {
        Seq::empty()
    } else {
        let prev = adjoin_all(xs.drop_last());
        if elem_index(prev, xs.last()) >= 0 {
            prev
        } else {
            prev.push(xs.last())
        }
    }
}

/// The elements of a list, vector or set; empty for any other value.
pub open spec fn items_of(v: MalVal) -> Seq<MalVal> {
    match v {
        MalVal::List(x, _) => x@,
        MalVal::Vector(x, _) => x@,
        MalVal::HashSet(x, _) => x@,
        _ => Seq::empty(),
    }
}

/// The entries of a map; empty for any other value.
pub open spec fn entries_of(v: MalVal) -> Seq<(MalVal, MalVal)> {
    match v {
        MalVal::HashMap(x, _) => x@,
        _ => Seq::empty(),
    }
}

/// Two maps are equal exactly when they have as many entries and each entry
/// of the first is matched in the second.
pub proof fn lemma_map_eq(a: MalVal, b: MalVal)
    requires
        a is HashMap,
        b is HashMap,
    ensures
        val_eq(a, b) == (entries_of(a).len() == entries_of(b).len() && (forall|k: int|
            #![trigger entries_of(a)[k]]
            0 <= k < entries_of(a).len() ==> entry_in(entries_of(a)[k], entries_of(b))) && (forall|k: int|
            #![trigger entries_of(b)[k]]
            0 <= k < entries_of(b).len() ==> entry_found(entries_of(a), entries_of(b)[k]))),
{
}

/// Two sets are equal exactly when they have as many elements and each
/// element of the first is matched in the second.
pub proof fn lemma_set_eq(a: MalVal, b: MalVal)
    requires
        a is HashSet,
        b is HashSet,
    ensures
        val_eq(a, b) == (items_of(a).len() == items_of(b).len() && (forall|k: int|
            #![trigger items_of(a)[k]]
            0 <= k < items_of(a).len() ==> elem_in(items_of(a)[k], items_of(b))) && (forall|k: int|
            #![trigger items_of(b)[k]]
            0 <= k < items_of(b).len() ==> elem_found(items_of(a), items_of(b)[k]))),
{
}

/// An element of a list, vector or set is smaller than the collection.
pub proof fn lemma_item_child(parent: MalVal, i: int)
    requires
        0 <= i < items_of(parent).len(),
    ensures
        decreases_to!(parent => items_of(parent)[i]),
{
    match parent {
        MalVal::List(x, _) => {
            assert(decreases_to!(parent => x));
            assert(decreases_to!(*x => x@));
            assert(decreases_to!(x@ => x@[i]));
        },
        MalVal::Vector(x, _) => {
            assert(decreases_to!(parent => x));
            assert(decreases_to!(*x => x@));
            assert(decreases_to!(x@ => x@[i]));
        },
        MalVal::HashSet(x, _) => {
            assert(decreases_to!(parent => x));
            assert(decreases_to!(*x => x@));
            assert(decreases_to!(x@ => x@[i]));
        },
        _ => {},
    }
}

/// A key or value of a map is smaller than the map.
pub proof fn lemma_entry_child(parent: MalVal, i: int)
    requires
        0 <= i < entries_of(parent).len(),
    ensures
        decreases_to!(parent => entries_of(parent)[i].0),
        decreases_to!(parent => entries_of(parent)[i].1),
{
    match parent {
        MalVal::HashMap(x, _) => {
            assert(decreases_to!(parent => x));
            assert(decreases_to!(*x => x@));
            assert(decreases_to!(x@ => x@[i]));
            assert(decreases_to!(x@[i] => x@[i].0));
            assert(decreases_to!(x@[i] => x@[i].1));
        },
        _ => {},
    }
}

pub proof fn lemma_key_index_range(m: Seq<(MalVal, MalVal)>, k: MalVal)
    ensures
        -1 <= key_index(m, k) < m.len(),
        key_index(m, k) >= 0 ==> val_eq(m[key_index(m, k)].0, k),
        key_index(m, k) == -1 <==> forall|j: int| 0 <= j < m.len() ==> !val_eq(#[trigger] m[j].0, k),
    decreases m.len(),
{
    if m.len() > 0 {
        lemma_key_index_range(m.drop_last(), k);
        assert(m.last() == m[m.len() - 1]);
        assert forall|j: int| 0 <= j < m.len() - 1 implies m[j] == #[trigger] m.drop_last()[j] by {}
        if !val_eq(m.last().0, k) {
            if key_index(m, k) == -1 {
                assert forall|j: int| 0 <= j < m.len() implies !val_eq(#[trigger] m[j].0, k) by {
                    if j < m.len() - 1 {
                        assert(m[j] == m.drop_last()[j]);
                    }
                }
            }
        }
    }
}

/// Associating pairs one by one never repeats a key.
pub proof fn lemma_assoc_all_distinct_keys(p: Seq<(MalVal, MalVal)>)
    ensures
        keys_distinct(assoc_all(p)),
    decreases p.len(),
{
    if p.len() > 0 {
        let m = assoc_all(p.drop_last());
        lemma_assoc_all_distinct_keys(p.drop_last());
        let k = p.last().0;
        lemma_key_index_range(m, k);
        let m2 = assoc_all(p);
        assert forall|i: int, j: int| 0 <= i < j < m2.len() implies !val_eq(#[trigger] m2[i].0, #[trigger] m2[j].0) by {
            if key_index(m, k) >= 0 {
                assert(m2[i].0 == m[i].0 && m2[j].0 == m[j].0);
            } else if j < m.len() {
                assert(m2[i] == m[i] && m2[j] == m[j]);
            } else {
                assert(m2[i] == m[i]);
            }
        }
    }
}

/// Adding values one by one never repeats an element.
pub proof fn lemma_adjoin_all_distinct(xs: Seq<MalVal>)
    ensures
        elems_distinct(adjoin_all(xs)),
    decreases xs.len(),
{
    if xs.len() > 0 {
        let prev = adjoin_all(xs.drop_last());
        lemma_adjoin_all_distinct(xs.drop_last());
        lemma_elem_index_range(prev, xs.last());
        let s2 = adjoin_all(xs);
        assert forall|i: int, j: int| 0 <= i < j < s2.len() implies !val_eq(#[trigger] s2[i], #[trigger] s2[j]) by {
            if elem_index(prev, xs.last()) < 0 && j == prev.len() {
                assert(s2[i] == prev[i]);
            } else {
                assert(s2[i] == prev[i] && s2[j] == prev[j]);
            }
        }
    }
}

pub proof fn lemma_elem_index_range(s: Seq<MalVal>, x: MalVal)
    ensures
        -1 <= elem_index(s, x) < s.len(),
        elem_index(s, x) == -1 <==> forall|j: int| 0 <= j < s.len() ==> !val_eq(#[trigger] s[j], x),
    decreases s.len(),
{
    if s.len() > 0 {
        lemma_elem_index_range(s.drop_last(), x);
        assert(s.last() == s[s.len() - 1]);
        assert forall|j: int| 0 <= j < s.len() - 1 implies s[j] == #[trigger] s.drop_last()[j] by {}
        if !val_eq(s.last(), x) && elem_index(s, x) == -1 {
            assert forall|j: int| 0 <= j < s.len() implies !val_eq(#[trigger] s[j], x) by {
                if j < s.len() - 1 {
                    assert(s[j] == s.drop_last()[j]);
                }
            }
        }
    }
}

/// Where the last entry whose key equals `k` stands.
pub fn key_position(m: &Vec<(MalVal, MalVal)>, k: &MalVal) -> (r: Option<usize>)
    ensures
        match r {
            Some(j) => j as int == key_index(m@, *k) && j < m@.len(),
            None => key_index(m@, *k) == -1,
        },
{
    let mut i: usize = m.len();
    assert(m@.subrange(0, m@.len() as int) =~= m@);
    while i > 0
        invariant
            i <= m@.len(),
            key_index(m@, *k) == key_index(m@.subrange(0, i as int), *k),
        decreases i,
    {
        let ghost pre = m@.subrange(0, i as int);
        assert(pre.drop_last() =~= m@.subrange(0, i - 1));
        if m[i - 1].0.equals(k) {
            return Some(i - 1);
        }
        i = i - 1;
    }
    None
}

/// Where the last element equal to `x` stands.
pub fn elem_position(s: &Vec<MalVal>, x: &MalVal) -> (r: Option<usize>)
    ensures
        match r {
            Some(j) => j as int == elem_index(s@, *x) && j < s@.len(),
            None => elem_index(s@, *x) == -1,
        },
{
    let mut i: usize = s.len();
    assert(s@.subrange(0, s@.len() as int) =~= s@);
    while i > 0
        invariant
            i <= s@.len(),
            elem_index(s@, *x) == elem_index(s@.subrange(0, i as int), *x),
        decreases i,
    {
        let ghost pre = s@.subrange(0, i as int);
        assert(pre.drop_last() =~= s@.subrange(0, i - 1));
        if s[i - 1].equals(x) {
            return Some(i - 1);
        }
        i = i - 1;
    }
    None
}

/// Associates `k` with `v` in `m` in place.
pub fn assoc_in(m: &mut Vec<(MalVal, MalVal)>, k: MalVal, v: MalVal)
    ensures
        final(m)@ == assoc(old(m)@, k, v),
{
    match key_position(m, &k) {
        Some(j) => {
            let key = m[j].0.share();
            m.set(j, (key, v));
        },
        None => {
            m.push((k, v));
        },
    }
}

fn assoc_pairs(pairs: &Vec<(MalVal, MalVal)>) -> (r: Vec<(MalVal, MalVal)>)
    ensures
        r@ == assoc_all(pairs@),
{
    let mut m: Vec<(MalVal, MalVal)> = Vec::new();
    let mut i: usize = 0;
    while i < pairs.len()
        invariant
            i <= pairs@.len(),
            m@ == assoc_all(pairs@.subrange(0, i as int)),
        decreases pairs@.len() - i,
    {
        assert(pairs@.subrange(0, i + 1).drop_last() =~= pairs@.subrange(0, i as int));
        let k = pairs[i].0.share();
        let v = pairs[i].1.share();
        assoc_in(&mut m, k, v);
        i = i + 1;
    }
    assert(pairs@.subrange(0, pairs@.len() as int) =~= pairs@);
    m
}

fn adjoin_items(items: &Vec<MalVal>) -> (r: Vec<MalVal>)
    ensures
        r@ == adjoin_all(items@),
{
    let mut s: Vec<MalVal> = Vec::new();
    let mut i: usize = 0;
    while i < items.len()
        invariant
            i <= items@.len(),
            s@ == adjoin_all(items@.subrange(0, i as int)),
        decreases items@.len() - i,
    {
        assert(items@.subrange(0, i + 1).drop_last() =~= items@.subrange(0, i as int));
        if elem_position(&s, &items[i]).is_none() {
            s.push(items[i].share());
        }
        i = i + 1;
    }
    assert(items@.subrange(0, items@.len() as int) =~= items@);
    s
}

impl MalVal {
    /// A second handle on the same value.
    pub fn share(&self) -> (r: MalVal)
        ensures
            r == *self,
    {
        match self {
            MalVal::Nil => MalVal::Nil,
            MalVal::Bool(b) => MalVal::Bool(*b),
            MalVal::Number(n) => MalVal::Number(*n),
            MalVal::String(s) => MalVal::String(Rc::clone(s)),
            MalVal::Keyword(s) => MalVal::Keyword(Rc::clone(s)),
            MalVal::Symbol(s) => MalVal::Symbol(Rc::clone(s)),
            MalVal::List(l, m) => MalVal::List(Rc::clone(l), Rc::clone(m)),
            MalVal::Vector(l, m) => MalVal::Vector(Rc::clone(l), Rc::clone(m)),
            MalVal::HashMap(l, m) => MalVal::HashMap(Rc::clone(l), Rc::clone(m)),
            MalVal::HashSet(l, m) => MalVal::HashSet(Rc::clone(l), Rc::clone(m)),
            MalVal::BuiltinFn(b) => MalVal::BuiltinFn(*b),
            MalVal::Func(f, m) => MalVal::Func(Rc::clone(f), Rc::clone(m)),
            MalVal::Atom(a) => MalVal::Atom(*a),
        }
    }

    pub fn string(s: &str) -> (r: MalVal)
        ensures
            r matches MalVal::String(t) && t@ == s@,
    {
        MalVal::String(Rc::new(String::from_str(s)))
    }

    pub fn keyword(s: &str) -> (r: MalVal)
        ensures
            r matches MalVal::Keyword(t) && t@ == s@,
    {
        MalVal::Keyword(Rc::new(String::from_str(s)))
    }

    pub fn symbol(s: &str) -> (r: MalVal)
        ensures
            r matches MalVal::Symbol(t) && t@ == s@,
    {
        MalVal::Symbol(Rc::new(String::from_str(s)))
    }

    pub fn list(list: Vec<MalVal>) -> (r: MalVal)
        ensures
            r matches MalVal::List(l, m) && l@ == list@ && *m == MalVal::Nil,
    {
        MalVal::list_with_meta(list, MalVal::Nil)
    }

    pub fn list_with_meta(list: Vec<MalVal>, meta: MalVal) -> (r: MalVal)
        ensures
            r matches MalVal::List(l, m) && l@ == list@ && *m == meta,
    {
        MalVal::List(Rc::new(list), Rc::new(meta))
    }

    pub fn vec(vec: Vec<MalVal>) -> (r: MalVal)
        ensures
            r matches MalVal::Vector(l, m) && l@ == vec@ && *m == MalVal::Nil,
    {
        MalVal::vec_with_meta(vec, MalVal::Nil)
    }

    pub fn vec_with_meta(vec: Vec<MalVal>, meta: MalVal) -> (r: MalVal)
        ensures
            r matches MalVal::Vector(l, m) && l@ == vec@ && *m == meta,
    {
        MalVal::Vector(Rc::new(vec), Rc::new(meta))
    }

    /// A map holding each pair in turn; a later pair whose key equals an
    /// earlier one's replaces its value.
    pub fn hashmap(pairs: Vec<(MalVal, MalVal)>) -> (r: MalVal)
        ensures
            r matches MalVal::HashMap(l, m) && l@ == assoc_all(pairs@) && *m == MalVal::Nil,
            keys_distinct(entries_of(r)),
    {
        MalVal::hashmap_with_meta(pairs, MalVal::Nil)
    }

    pub fn hashmap_with_meta(pairs: Vec<(MalVal, MalVal)>, meta: MalVal) -> (r: MalVal)
        ensures
            r matches MalVal::HashMap(l, m) && l@ == assoc_all(pairs@) && *m == meta,
            keys_distinct(entries_of(r)),
    {
        proof {
            lemma_assoc_all_distinct_keys(pairs@);
        }
        MalVal::HashMap(Rc::new(assoc_pairs(&pairs)), Rc::new(meta))
    }

    /// A set holding each value once; a value equal to an earlier one is dropped.
    pub fn hashset(items: Vec<MalVal>) -> (r: MalVal)
        ensures
            r matches MalVal::HashSet(l, m) && l@ == adjoin_all(items@) && *m == MalVal::Nil,
            elems_distinct(items_of(r)),
    {
        MalVal::hashset_with_meta(items, MalVal::Nil)
    }

    pub fn hashset_with_meta(items: Vec<MalVal>, meta: MalVal) -> (r: MalVal)
        ensures
            r matches MalVal::HashSet(l, m) && l@ == adjoin_all(items@) && *m == meta,
            elems_distinct(items_of(r)),
    {
        proof {
            lemma_adjoin_all_distinct(items@);
        }
        MalVal::HashSet(Rc::new(adjoin_items(&items)), Rc::new(meta))
    }

    pub fn func_with_meta(closure: Closure, meta: MalVal) -> (r: MalVal)
        ensures
            r matches MalVal::Func(c, m) && *c == closure && *m == meta,
    {
        MalVal::Func(Rc::new(closure), Rc::new(meta))
    }

    pub fn func(closure: Closure) -> (r: MalVal)
        ensures
            r matches MalVal::Func(c, m) && *c == closure && *m == MalVal::Nil,
    {
        MalVal::func_with_meta(closure, MalVal::Nil)
    }

    pub fn type_str(&self) -> (r: String)
        ensures
            r@ == kind_name(*self),
    {
        match self {
            MalVal::Nil => String::from_str("nil"),
            MalVal::Bool(_) => String::from_str("bool"),
            MalVal::Number(_) => String::from_str("number"),
            MalVal::String(_) => String::from_str("string"),
            MalVal::Keyword(_) => String::from_str("keyword"),
            MalVal::Symbol(_) => String::from_str("symbol"),
            MalVal::List(_, _) => String::from_str("list"),
            MalVal::Vector(_, _) => String::from_str("vector"),
            MalVal::HashMap(_, _) => String::from_str("hash-map"),
            MalVal::HashSet(_, _) => String::from_str("hash-set"),
            MalVal::BuiltinFn(_) => String::from_str("function"),
            MalVal::Func(_, _) => String::from_str("function"),
            MalVal::Atom(_) => String::from_str("atom"),
        }
    }

    /// Deep structural equality.
    #[verifier::loop_isolation(false)]
    pub fn equals(&self, other: &MalVal) -> (r: bool)
        ensures
            r == val_eq(*self, *other),
        decreases self,
    {
        match self {
            MalVal::Nil => match other {
                MalVal::Nil => true,
                _ => false,
            },
            MalVal::Bool(x) => match other {
                MalVal::Bool(y) => { let rr = *x == *y; assert(rr == val_eq(*self, *other)); rr },
                _ => false,
            },
            MalVal::Number(x) => match other {
                MalVal::Number(y) => { let rr = *x == *y; assert(rr == val_eq(*self, *other)); rr },
                _ => false,
            },
            MalVal::String(x) => match other {
                MalVal::String(y) => { let rr = **x == **y; assert(rr == val_eq(*self, *other)); rr },
                _ => false,
            },
            MalVal::Keyword(x) => match other {
                MalVal::Keyword(y) => { let rr = **x == **y; assert(rr == val_eq(*self, *other)); rr },
                _ => false,
            },
            MalVal::Symbol(x) => match other {
                MalVal::Symbol(y) => { let rr = **x == **y; assert(rr == val_eq(*self, *other)); rr },
                _ => false,
            },
            MalVal::List(x, _) => match other {
                MalVal::List(y, _) => {
                        if x.len() != y.len() {
                            return false;
                        }
                        let mut i: usize = 0;
                        while i < x.len()
                            invariant
                                x@.len() == y@.len(),
                                i <= x@.len(),
                                forall|a: int| 0 <= a < i ==> val_eq(#[trigger] x@[a], y@[a]),
                            decreases x@.len() - i,
                        {
                            proof {
                                lemma_item_child(*self, i as int);
                            }
                            if !x[i].equals(&y[i]) {
                                return false;
                            }
                            i = i + 1;
                        }

                        true

                },
                _ => false,
            },
            MalVal::Vector(x, _) => match other {
                MalVal::Vector(y, _) => {
                        if x.len() != y.len() {
                            return false;
                        }
                        let mut i: usize = 0;
                        while i < x.len()
                            invariant
                                x@.len() == y@.len(),
                                i <= x@.len(),
                                forall|a: int| 0 <= a < i ==> val_eq(#[trigger] x@[a], y@[a]),
                            decreases x@.len() - i,
                        {
                            proof {
                                lemma_item_child(*self, i as int);
                            }
                            if !x[i].equals(&y[i]) {
                                return false;
                            }
                            i = i + 1;
                        }

                        true

                },
                _ => false,
            },
            MalVal::HashMap(x, _) => match other {
                MalVal::HashMap(y, _) => {
                        if x.len() != y.len() {
                            return false;
                        }
                        let mut i: usize = 0;
                        while i < x.len()
                            invariant
                                x@.len() == y@.len(),
                                i <= x@.len(),
                                forall|a: int| #![trigger entries_of(*self)[a]] 0 <= a < i ==> entry_in(entries_of(*self)[a], entries_of(*other)),
                            decreases x@.len() - i,
                        {
                            let mut j: usize = 0;
                            let mut found = false;
                            while j < y.len() && !found
                                invariant
                                    i < x@.len(),
                                    j <= y@.len(),
                                    found ==> exists|b: int|
                                        #![trigger y@[b]]
                                        0 <= b < j && val_eq(x@[i as int].0, y@[b].0) && val_eq(x@[i as int].1, y@[b].1),
                                    !found ==> forall|b: int|
                                        0 <= b < j ==> !(val_eq(x@[i as int].0, #[trigger] y@[b].0) && val_eq(x@[i as int].1, y@[b].1)),
                                decreases y@.len() - j,
                            {
                                proof {
                                    lemma_entry_child(*self, i as int);
                                }
                                if x[i].0.equals(&y[j].0) && x[i].1.equals(&y[j].1) {
                                    found = true;
                                }
                                j = j + 1;
                            }
                            if !found {
                                proof {
                                    lemma_map_eq(*self, *other);
                                }
                                return false;
                            }
                            i = i + 1;
                        }
                        let mut j: usize = 0;
                        while j < y.len()
                            invariant
                                x@.len() == y@.len(),
                                j <= y@.len(),
                                forall|a: int| #![trigger entries_of(*self)[a]] 0 <= a < x@.len() ==> entry_in(entries_of(*self)[a], entries_of(*other)),
                                forall|b: int| #![trigger entries_of(*other)[b]] 0 <= b < j ==> entry_found(entries_of(*self), entries_of(*other)[b]),
                            decreases y@.len() - j,
                        {
                            let mut k: usize = 0;
                            let mut found = false;
                            while k < x.len() && !found
                                invariant
                                    j < y@.len(),
                                    k <= x@.len(),
                                    found ==> exists|a: int|
                                        #![trigger x@[a]]
                                        0 <= a < k && val_eq(x@[a].0, y@[j as int].0) && val_eq(x@[a].1, y@[j as int].1),
                                    !found ==> forall|a: int|
                                        0 <= a < k ==> !(val_eq((#[trigger] x@[a]).0, y@[j as int].0) && val_eq(x@[a].1, y@[j as int].1)),
                                decreases x@.len() - k,
                            {
                                proof {
                                    lemma_entry_child(*self, k as int);
                                }
                                if x[k].0.equals(&y[j].0) && x[k].1.equals(&y[j].1) {
                                    found = true;
                                }
                                k = k + 1;
                            }
                            if !found {
                                proof {
                                    lemma_map_eq(*self, *other);
                                }
                                return false;
                            }
                            j = j + 1;
                        }
                        proof {
                            lemma_map_eq(*self, *other);
                        }
                        true

                },
                _ => false,
            },
            MalVal::HashSet(x, _) => match other {
                MalVal::HashSet(y, _) => {
                        if x.len() != y.len() {
                            return false;
                        }
                        let mut i: usize = 0;
                        while i < x.len()
                            invariant
                                x@.len() == y@.len(),
                                i <= x@.len(),
                                forall|a: int| #![trigger items_of(*self)[a]] 0 <= a < i ==> elem_in(items_of(*self)[a], items_of(*other)),
                            decreases x@.len() - i,
                        {
                            let mut j: usize = 0;
                            let mut found = false;
                            while j < y.len() && !found
                                invariant
                                    i < x@.len(),
                                    j <= y@.len(),
                                    found ==> exists|b: int| #![trigger y@[b]] 0 <= b < j && val_eq(x@[i as int], y@[b]),
                                    !found ==> forall|b: int| 0 <= b < j ==> !val_eq(x@[i as int], #[trigger] y@[b]),
                                decreases y@.len() - j,
                            {
                                proof {
                                    lemma_item_child(*self, i as int);
                                }
                                if x[i].equals(&y[j]) {
                                    found = true;
                                }
                                j = j + 1;
                            }
                            if !found {
                                proof {
                                    lemma_set_eq(*self, *other);
                                }
                                return false;
                            }
                            i = i + 1;
                        }
                        let mut j: usize = 0;
                        while j < y.len()
                            invariant
                                x@.len() == y@.len(),
                                j <= y@.len(),
                                forall|a: int| #![trigger items_of(*self)[a]] 0 <= a < x@.len() ==> elem_in(items_of(*self)[a], items_of(*other)),
                                forall|b: int| #![trigger items_of(*other)[b]] 0 <= b < j ==> elem_found(items_of(*self), items_of(*other)[b]),
                            decreases y@.len() - j,
                        {
                            let mut k: usize = 0;
                            let mut found = false;
                            while k < x.len() && !found
                                invariant
                                    j < y@.len(),
                                    k <= x@.len(),
                                    found ==> exists|a: int| #![trigger x@[a]] 0 <= a < k && val_eq(x@[a], y@[j as int]),
                                    !found ==> forall|a: int| 0 <= a < k ==> !val_eq(#[trigger] x@[a], y@[j as int]),
                                decreases x@.len() - k,
                            {
                                proof {
                                    lemma_item_child(*self, k as int);
                                }
                                if x[k].equals(&y[j]) {
                                    found = true;
                                }
                                k = k + 1;
                            }
                            if !found {
                                proof {
                                    lemma_set_eq(*self, *other);
                                }
                                return false;
                            }
                            j = j + 1;
                        }
                        proof {
                            lemma_set_eq(*self, *other);
                        }
                        true

                },
                _ => false,
            },
            MalVal::BuiltinFn(x) => match other {
                MalVal::BuiltinFn(y) => { let rr = *x == *y; assert(rr == val_eq(*self, *other)); rr },
                _ => false,
            },
            MalVal::Func(x, _) => match other {
                MalVal::Func(y, _) => { let rr = x.id == y.id; assert(rr == val_eq(*self, *other)); rr },
                _ => false,
            },
            MalVal::Atom(x) => match other {
                MalVal::Atom(y) => { let rr = *x == *y; assert(rr == val_eq(*self, *other)); rr },
                _ => false,
            },
        }
    }
}


/// A list and a vector are never equal, whatever they hold.
pub proof fn law_list_is_not_vector(a: MalVal, b: MalVal)
    requires
        a is List,
        b is Vector,
    ensures
        !val_eq(a, b),
        !val_eq(b, a),
{
}

/// The decimal digits of a count.
fn show_count(n: usize) -> (r: String)
    ensures
        r@ == digits(n as nat),
{
    let mut out = String::new();
    push_digits(n as u64, &mut out);
    out
}

/// How an expected argument count is written.
pub open spec fn arity_text(a: Arity) -> Seq<char> {
    match a {
        Arity::Fixed(n) => digits(n as nat),
        Arity::Variadic(n) => digits(n as nat) + seq!['+'],
        Arity::JustOrOneLess(n) => digits((if n > 0 { n - 1 } else { 0 }) as nat) + " or "@ + digits(
            n as nat,
        ),
    }
}

/// The closing token an unbalanced-delimiter error expected.
pub open spec fn close_char(p: Paren) -> char {
    match p {
        Paren::Round => ')',
        Paren::Square => ']',
        Paren::Curly => '}',
    }
}

/// How an error is reported.
pub open spec fn message_spec(e: MalError) -> Seq<char> {
    match e {
        MalError::NoInput => "no input"@,
        MalError::Unbalanced(p) => "expected "@ + seq![close_char(p)] + ", got EOF"@,
        MalError::UnclosedQuote => "expected \", got EOF"@,
        MalError::OddMap(n) => "odd number of map entries: "@ + digits(n as nat),
        MalError::DividedByZero => "divided by zero"@,
        MalError::NotFound(s) => "symbol '"@ + s@ + "' not found"@,
        MalError::InvalidType(name, expected, got) => "expected "@ + expected@ + " for "@ + name@
            + ", got "@ + got@,
        MalError::WrongArity(name, a, got) => "wrong number of arguments for "@ + name@
            + ": expected "@ + arity_text(a) + ", got "@ + digits(got as nat),
        MalError::InvalidSyntax(s) => "invalid syntax: "@ + s@,
        MalError::TooDeep => "evaluation nested too deeply"@,
        MalError::Dangling => "reference to a missing scope or atom"@,
    }
}

impl Arity {
    /// How the expected count is written: `2`, `1+`, `2 or 3`.
    pub fn message(&self) -> (r: String)
        ensures
            r@ == arity_text(*self),
    {
        match self {
            Arity::Fixed(n) => show_count(*n),
            Arity::Variadic(n) => {
                let mut out = show_count(*n);
                push_char(&mut out, '+');
                out
            },
            Arity::JustOrOneLess(n) => {
                let mut out = show_count(if *n > 0 { *n - 1 } else { 0 });
                out.append(" or ");
                let m = show_count(*n);
                out.append(m.as_str());
                out
            },
        }
    }
}

impl MalError {
    /// How the error is reported to a user.
    pub fn message(&self) -> (r: String)
        ensures
            r@ == message_spec(*self),
    {
        match self {
            MalError::NoInput => String::from_str("no input"),
            MalError::Unbalanced(p) => {
                let mut out = String::from_str("expected ");
                push_char(&mut out, match p {
                    Paren::Round => ')',
                    Paren::Square => ']',
                    Paren::Curly => '}',
                });
                out.append(", got EOF");
                out
            },
            MalError::UnclosedQuote => String::from_str("expected \", got EOF"),
            MalError::OddMap(n) => {
                let mut out = String::from_str("odd number of map entries: ");
                let d = show_count(*n);
                out.append(d.as_str());
                out
            },
            MalError::DividedByZero => String::from_str("divided by zero"),
            MalError::NotFound(s) => {
                let mut out = String::from_str("symbol '");
                out.append(s.as_str());
                out.append("' not found");
                out
            },
            MalError::InvalidType(name, expected, got) => {
                let mut out = String::from_str("expected ");
                out.append(expected.as_str());
                out.append(" for ");
                out.append(name.as_str());
                out.append(", got ");
                out.append(got.as_str());
                out
            },
            MalError::WrongArity(name, a, got) => {
                let mut out = String::from_str("wrong number of arguments for ");
                out.append(name.as_str());
                out.append(": expected ");
                let t = a.message();
                out.append(t.as_str());
                out.append(", got ");
                let d = show_count(*got);
                out.append(d.as_str());
                out
            },
            MalError::InvalidSyntax(s) => {
                let mut out = String::from_str("invalid syntax: ");
                out.append(s.as_str());
                out
            },
            MalError::TooDeep => String::from_str("evaluation nested too deeply"),
            MalError::Dangling => String::from_str("reference to a missing scope or atom"),
        }
    }
}

impl PartialEq for MalVal {
    fn eq(&self, other: &MalVal) -> (r: bool) {
        self.equals(other)
    }
}

impl vstd::std_specs::cmp::PartialEqSpecImpl for MalVal {
    open spec fn obeys_eq_spec() -> bool {
        true
    }

    open spec fn eq_spec(&self, other: &MalVal) -> bool {
        val_eq(*self, *other)
    }
}

} // verus!
