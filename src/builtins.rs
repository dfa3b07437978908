use std::rc::Rc;
use vstd::prelude::*;

use crate::env::{Env, Scope};
use crate::printer::{join_spec, join_with, pr_str, print_spec};
use crate::reader::{read_outcome, read_str};
use crate::types::{entries_of, items_of, kind_name, val_eq, Arity, Builtin, MalError, MalResult, MalVal};

verus! {

/// What folding an arithmetic procedure over its arguments comes to.
pub enum Fold {
    Value(i64),
    NoArgs,
    /// The argument at this position is not a number.
    NotNumber(int),
    DivZero,
}

/// One step of an arithmetic procedure; `None` where division fails.
pub open spec fn arith_step(op: Builtin, a: i64, b: i64) -> Option<i64> {
    match op {
        Builtin::Add => Some(a.wrapping_add(b)),
        Builtin::Sub => Some(a.wrapping_sub(b)),
        Builtin::Mul => Some(a.wrapping_mul(b)),
        _ => a.checked_div(b),
    }
}

/// Folds `op` left to right over the first `n` arguments.
pub open spec fn arith_fold(op: Builtin, args: Seq<MalVal>, n: nat) -> Fold
    decreases n,
{
    if n == 0 {
        Fold::NoArgs
    } else if n == 1 {
        match args[0] {
            MalVal::Number(x) => Fold::Value(x),
            _ => Fold::NotNumber(0),
        }
    } else {
        match arith_fold(op, args, (n - 1) as nat) {
            Fold::Value(acc) => match args[n - 1] {
                MalVal::Number(x) => match arith_step(op, acc, x) {
                    Some(v) => Fold::Value(v),
                    None => Fold::DivZero,
                },
                _ => Fold::NotNumber(n - 1),
            },
            other => other,
        }
    }
}

/// Once the fold has stopped on an error, further arguments change nothing.
pub proof fn lemma_arith_stops(op: Builtin, args: Seq<MalVal>, i: nat, n: nat)
    requires
        1 <= i <= n,
        !(arith_fold(op, args, i) is Value),
    ensures
        arith_fold(op, args, n) == arith_fold(op, args, i),
    decreases n - i,
{
    if n > i {
        lemma_arith_stops(op, args, i, (n - 1) as nat);
    }
}

/// Once the chain has failed or stopped on an error, further arguments
/// change nothing.
pub proof fn lemma_cmp_stops(op: Builtin, args: Seq<MalVal>, i: nat, n: nat)
    requires
        i <= n,
        cmp_fold(op, args, i) != Chain::Holds(true),
    ensures
        cmp_fold(op, args, n) == cmp_fold(op, args, i),
    decreases n - i,
{
    if n > i {
        lemma_cmp_stops(op, args, i, (n - 1) as nat);
    }
}

/// What comparing neighbouring arguments comes to.
pub enum Chain {
    Holds(bool),
    /// The argument at this position is not a number.
    NotNumber(int),
}

pub open spec fn cmp_holds(op: Builtin, a: i64, b: i64) -> bool {
    match op {
        Builtin::Lt => a < b,
        Builtin::Le => a <= b,
        Builtin::Gt => a > b,
        _ => a >= b,
    }
}

/// Compares the neighbours among the first `n` arguments, left to right,
/// stopping at the first pair that fails the relation.
pub open spec fn cmp_fold(op: Builtin, args: Seq<MalVal>, n: nat) -> Chain
    decreases n,
{
    if n <= 1 {
        Chain::Holds(true)
    } else {
        match cmp_fold(op, args, (n - 1) as nat) {
            Chain::Holds(true) => match (args[n - 2], args[n - 1]) {
                (MalVal::Number(a), MalVal::Number(b)) => Chain::Holds(cmp_holds(op, a, b)),
                (MalVal::Number(_), _) => Chain::NotNumber(n - 1),
                _ => Chain::NotNumber(n - 2),
            },
            other => other,
        }
    }
}

/// The name under which the global scope offers a procedure.
pub open spec fn builtin_name(f: Builtin) -> Seq<char> {
    match f {
        Builtin::Add => "+"@,
        Builtin::Sub => "-"@,
        Builtin::Mul => "*"@,
        Builtin::Div => "/"@,
        Builtin::List => "list"@,
        Builtin::IsList => "list?"@,
        Builtin::IsEmpty => "empty?"@,
        Builtin::Count => "count"@,
        Builtin::Equal => "="@,
        Builtin::Lt => "<"@,
        Builtin::Le => "<="@,
        Builtin::Gt => ">"@,
        Builtin::Ge => ">="@,
        Builtin::PrStr => "pr-str"@,
        Builtin::Str => "str"@,
        Builtin::Prn => "prn"@,
        Builtin::Println => "println"@,
        Builtin::Atom => "atom"@,
        Builtin::IsAtom => "atom?"@,
        Builtin::Deref => "deref"@,
        Builtin::Reset => "reset!"@,
        Builtin::ReadString => "read-string"@,
        Builtin::Cons => "cons"@,
    }
}

/// `e` says that `v` was given where a value of the kind `expected` names
/// was needed.
pub open spec fn type_error(e: MalError, v: MalVal, expected: Seq<char>) -> bool {
    e matches MalError::InvalidType(p, x, g) && p@ == print_spec(v, true) && x@ == expected && g@
        == kind_name(v)
}

/// `e` says that the procedure `name` got `got` arguments where `arity` was needed.
pub open spec fn arity_error(e: MalError, name: Seq<char>, arity: Arity, got: int) -> bool {
    e matches MalError::WrongArity(n, a, g) && n@ == name && a == arity && g == got
}

/// The error for an argument of the wrong kind.
pub(crate) fn invalid_type(v: &MalVal, expected: &str) -> (e: MalError)
    ensures
        type_error(e, *v, expected@),
{
    MalError::InvalidType(pr_str(v, true), String::from_str(expected), v.type_str())
}

/// Folds an arithmetic procedure over its arguments.
pub fn arith(op: Builtin, args: &Vec<MalVal>) -> (r: MalResult)
    requires
        op is Add || op is Sub || op is Mul || op is Div,
    ensures
        match arith_fold(op, args@, args@.len()) {
            Fold::Value(v) => r == Ok::<MalVal, MalError>(MalVal::Number(v)),
            Fold::NoArgs => r is Err && arity_error(r->Err_0, builtin_name(op), Arity::Variadic(1), 0),
            Fold::NotNumber(k) => r is Err && type_error(r->Err_0, args@[k], "number"@),
            Fold::DivZero => r is Err && r->Err_0 is DividedByZero,
        },
{
    if args.len() == 0 {
        let name = match op {
            Builtin::Add => String::from_str("+"),
            Builtin::Sub => String::from_str("-"),
            Builtin::Mul => String::from_str("*"),
            _ => String::from_str("/"),
        };
        return Err(MalError::WrongArity(name, Arity::Variadic(1), 0));
    }
    let mut acc: i64 = match &args[0] {
        MalVal::Number(x) => *x,
        other => {
            proof {
                lemma_arith_stops(op, args@, 1, args@.len());
            }
            return Err(invalid_type(other, "number"));
        },
    };
    let mut i: usize = 1;
    while i < args.len()
        invariant
            1 <= i <= args@.len(),
            op is Add || op is Sub || op is Mul || op is Div,
            arith_fold(op, args@, i as nat) == Fold::Value(acc),
        decreases args@.len() - i,
    {
        let x = match &args[i] {
            MalVal::Number(x) => *x,
            other => {
                proof {
                    lemma_arith_stops(op, args@, (i + 1) as nat, args@.len());
                }
                return Err(invalid_type(other, "number"));
            },
        };
        acc = match op {
            Builtin::Add => acc.wrapping_add(x),
            Builtin::Sub => acc.wrapping_sub(x),
            Builtin::Mul => acc.wrapping_mul(x),
            _ => match acc.checked_div(x) {
                Some(v) => v,
                None => {
                    proof {
                        lemma_arith_stops(op, args@, (i + 1) as nat, args@.len());
                    }
                    return Err(MalError::DividedByZero);
                },
            },
        };
        i = i + 1;
    }
    Ok(MalVal::Number(acc))
}

/// Compares neighbouring arguments.
pub fn compare(op: Builtin, args: &Vec<MalVal>) -> (r: MalResult)
    requires
        op is Lt || op is Le || op is Gt || op is Ge,
    ensures
        match cmp_fold(op, args@, args@.len()) {
            Chain::Holds(b) => r == Ok::<MalVal, MalError>(MalVal::Bool(b)),
            Chain::NotNumber(k) => r is Err && type_error(r->Err_0, args@[k], "number"@),
        },
{
    let mut i: usize = 1;
    while i < args.len()
        invariant
            1 <= i,
            i <= args@.len() || args@.len() == 0,
            op is Lt || op is Le || op is Gt || op is Ge,
            cmp_fold(op, args@, i as nat) == Chain::Holds(true),
        decreases args@.len() - i,
    {
        proof {
            if cmp_fold(op, args@, (i + 1) as nat) != Chain::Holds(true) {
                lemma_cmp_stops(op, args@, (i + 1) as nat, args@.len());
            }
        }
        let a = match &args[i - 1] {
            MalVal::Number(a) => *a,
            other => {
                return Err(invalid_type(other, "number"));
            },
        };
        let b = match &args[i] {
            MalVal::Number(b) => *b,
            other => {
                return Err(invalid_type(other, "number"));
            },
        };
        let holds = match op {
            Builtin::Lt => a < b,
            Builtin::Le => a <= b,
            Builtin::Gt => a > b,
            _ => a >= b,
        };
        if !holds {
            return Ok(MalVal::Bool(false));
        }
        i = i + 1;
    }
    proof {
        if args@.len() == 0 {
            assert(cmp_fold(op, args@, 0) == Chain::Holds(true));
        }
    }
    Ok(MalVal::Bool(true))
}


/// The printed forms of the arguments.
pub open spec fn printed_args(args: Seq<MalVal>, readably: bool) -> Seq<Seq<char>> {
    Seq::new(args.len(), |k: int| print_spec(args[k], readably))
}

/// A list, vector, map or set with nothing in it.
pub open spec fn is_empty_coll(v: MalVal) -> bool {
    match v {
        MalVal::List(x, _) => x@.len() == 0,
        MalVal::Vector(x, _) => x@.len() == 0,
        MalVal::HashMap(x, _) => x@.len() == 0,
        MalVal::HashSet(x, _) => x@.len() == 0,
        _ => false,
    }
}

/// `r` is a list of exactly `items`, without metadata.
pub open spec fn is_list_of(r: MalVal, items: Seq<MalVal>) -> bool {
    r matches MalVal::List(l, m) && l@ == items && *m == MalVal::Nil
}

/// What calling the procedure `f` on `args` returns, and how it changes the
/// interpreter's cells and printed lines (it never changes a scope).
pub open spec fn builtin_outcome(f: Builtin, args: Seq<MalVal>, e0: Env, e1: Env, r: MalResult) -> bool {
    let n = args.len() as int;
    let unchanged = e1.cells == e0.cells && e1.printed == e0.printed;
    match f {
        Builtin::Add | Builtin::Sub | Builtin::Mul | Builtin::Div => unchanged && match arith_fold(f, args, args.len()) {
            Fold::Value(v) => r == Ok::<MalVal, MalError>(MalVal::Number(v)),
            Fold::NoArgs => r is Err && arity_error(r->Err_0, builtin_name(f), Arity::Variadic(1), 0),
            Fold::NotNumber(k) => r is Err && type_error(r->Err_0, args[k], "number"@),
            Fold::DivZero => r is Err && r->Err_0 is DividedByZero,
        },
        Builtin::Lt | Builtin::Le | Builtin::Gt | Builtin::Ge => unchanged && match cmp_fold(f, args, args.len()) {
            Chain::Holds(b) => r == Ok::<MalVal, MalError>(MalVal::Bool(b)),
            Chain::NotNumber(k) => r is Err && type_error(r->Err_0, args[k], "number"@),
        },
        Builtin::List => unchanged && r is Ok && is_list_of(r->Ok_0, args),
        Builtin::IsList => unchanged && r == Ok::<MalVal, MalError>(MalVal::Bool(n > 0 && args[0] is List)),
        Builtin::IsEmpty => unchanged && r == Ok::<MalVal, MalError>(MalVal::Bool(n > 0 && is_empty_coll(args[0]))),
        Builtin::Count => unchanged && if n == 0 || args[0] is Nil {
            r == Ok::<MalVal, MalError>(MalVal::Number(0))
        } else if args[0] is List || args[0] is Vector || args[0] is HashSet {
            r == Ok::<MalVal, MalError>(MalVal::Number(items_of(args[0]).len() as i64))
        } else if args[0] is HashMap {
            r == Ok::<MalVal, MalError>(MalVal::Number(entries_of(args[0]).len() as i64))
        } else {
            r is Err && type_error(r->Err_0, args[0], "nil, list, vector, hashmap or hashset"@)
        },
        Builtin::Equal => unchanged && r == Ok::<MalVal, MalError>(
            MalVal::Bool(forall|k: int| 1 <= k < n ==> val_eq(args[0], #[trigger] args[k])),
        ),
        Builtin::PrStr => unchanged && (r is Ok && (r->Ok_0 matches MalVal::String(s) && s@ == join_spec(
            printed_args(args, true),
            " "@,
        ))),
        Builtin::Str => unchanged && (r is Ok && (r->Ok_0 matches MalVal::String(s) && s@ == join_spec(
            printed_args(args, false),
            ""@,
        ))),
        Builtin::Prn | Builtin::Println => e1.cells == e0.cells && r == Ok::<MalVal, MalError>(MalVal::Nil)
            && e1.printed@.len() == e0.printed@.len() + 1 && e1.printed@.drop_last() == e0.printed@
            && e1.printed@.last()@ == join_spec(printed_args(args, f is Prn), " "@),
        Builtin::Atom => e1.printed == e0.printed && if n == 1 {
            r == Ok::<MalVal, MalError>(MalVal::Atom(e0.cells@.len() as usize)) && e1.cells@ == e0.cells@.push(args[0])
        } else {
            e1.cells == e0.cells && r is Err && arity_error(r->Err_0, "atom"@, Arity::Fixed(1), n)
        },
        Builtin::IsAtom => unchanged && r == Ok::<MalVal, MalError>(MalVal::Bool(n > 0 && args[0] is Atom)),
        Builtin::Deref => unchanged && if n != 1 {
            r is Err && arity_error(r->Err_0, "deref"@, Arity::Fixed(1), n)
        } else {
            match args[0] {
                MalVal::Atom(i) => if i < e0.cells@.len() {
                    r == Ok::<MalVal, MalError>(e0.cells@[i as int])
                } else {
                    r is Err && r->Err_0 is Dangling
                },
                _ => r is Err && type_error(r->Err_0, args[0], "atom"@),
            }
        },
        Builtin::Reset => e1.printed == e0.printed && if n != 2 {
            e1.cells == e0.cells && r is Err && arity_error(r->Err_0, "reset!"@, Arity::Fixed(2), n)
        } else {
            match args[0] {
                MalVal::Atom(i) => if i < e0.cells@.len() {
                    r == Ok::<MalVal, MalError>(args[1]) && e1.cells@ == e0.cells@.update(i as int, args[1])
                } else {
                    e1.cells == e0.cells && r is Err && r->Err_0 is Dangling
                },
                _ => e1.cells == e0.cells && r is Err && type_error(r->Err_0, args[0], "atom"@),
            }
        },
        Builtin::ReadString => unchanged && if n != 1 {
            r is Err && arity_error(r->Err_0, "read-string"@, Arity::Fixed(1), n)
        } else {
            match args[0] {
                MalVal::String(s) => read_outcome(s@, r),
                _ => r is Err && type_error(r->Err_0, args[0], "string"@),
            }
        },
        Builtin::Cons => unchanged && if n != 2 {
            r is Err && arity_error(r->Err_0, "cons"@, Arity::Fixed(2), n)
        } else if args[1] is Nil {
            r is Ok && is_list_of(r->Ok_0, seq![args[0]])
        } else if args[1] is List || args[1] is Vector {
            r is Ok && is_list_of(r->Ok_0, seq![args[0]] + items_of(args[1]))
        } else {
            r is Err && type_error(r->Err_0, args[1], "list or vector"@)
        },
    }
}

/// The printed forms of the arguments, as strings.
fn print_args(args: &Vec<MalVal>, readably: bool) -> (r: Vec<String>)
    ensures
        r.deep_view() == printed_args(args@, readably),
{
    let mut parts: Vec<String> = Vec::new();
    let mut i: usize = 0;
    while i < args.len()
        invariant
            i <= args@.len(),
            parts.deep_view() =~= printed_args(args@, readably).subrange(0, i as int),
        decreases args@.len() - i,
    {
        let p = pr_str(&args[i], readably);
        let ghost before = parts.deep_view();
        parts.push(p);
        proof {
            assert(parts.deep_view() =~= before.push(p@));
        }
        i = i + 1;
    }
    parts
}

fn arity_err(name: &str, arity: Arity, got: usize) -> (e: MalError)
    ensures
        arity_error(e, name@, arity, got as int),
{
    MalError::WrongArity(String::from_str(name), arity, got)
}

/// Calls the procedure `f` on `args`.
#[verifier::loop_isolation(false)]
pub fn call_builtin(f: Builtin, args: &Vec<MalVal>, env: &mut Env) -> (r: MalResult)
    ensures
        builtin_outcome(f, args@, *old(env), *final(env), r),
        final(env).scopes == old(env).scopes,
        final(env).next_id == old(env).next_id,
{
    let n = args.len();
    match f {
        Builtin::Add | Builtin::Sub | Builtin::Mul | Builtin::Div => arith(f, args),
        Builtin::Lt | Builtin::Le | Builtin::Gt | Builtin::Ge => compare(f, args),
        Builtin::List => {
            let mut items: Vec<MalVal> = Vec::new();
            let mut i: usize = 0;
            while i < n
                invariant
                    n == args@.len(),
                    i <= n,
                    items@ == args@.subrange(0, i as int),
                decreases n - i,
            {
                items.push(args[i].share());
                assert(items@ =~= args@.subrange(0, i + 1));
                i = i + 1;
            }
            assert(args@.subrange(0, n as int) =~= args@);
            Ok(MalVal::list(items))
        },
        Builtin::IsList => Ok(MalVal::Bool(n > 0 && matches!(&args[0], MalVal::List(_, _)))),
        Builtin::IsEmpty => {
            let e = n > 0 && match &args[0] {
                MalVal::List(x, _) => x.len() == 0,
                MalVal::Vector(x, _) => x.len() == 0,
                MalVal::HashMap(x, _) => x.len() == 0,
                MalVal::HashSet(x, _) => x.len() == 0,
                _ => false,
            };
            Ok(MalVal::Bool(e))
        },
        Builtin::Count => {
            if n == 0 {
                return Ok(MalVal::Number(0));
            }
            match &args[0] {
                MalVal::Nil => Ok(MalVal::Number(0)),
                MalVal::List(x, _) => Ok(MalVal::Number(x.len() as i64)),
                MalVal::Vector(x, _) => Ok(MalVal::Number(x.len() as i64)),
                MalVal::HashSet(x, _) => Ok(MalVal::Number(x.len() as i64)),
                MalVal::HashMap(x, _) => Ok(MalVal::Number(x.len() as i64)),
                other => Err(invalid_type(other, "nil, list, vector, hashmap or hashset")),
            }
        },
        Builtin::Equal => {
            let mut i: usize = 1;
            while i < n
                invariant
                    n == args@.len(),
                    1 <= i,
                    forall|k: int| 1 <= k < i && k < n ==> val_eq(args@[0], #[trigger] args@[k]),
                decreases n - i,
            {
                if !args[0].equals(&args[i]) {
                    assert(!val_eq(args@[0], args@[i as int]));
                    return Ok(MalVal::Bool(false));
                }
                i = i + 1;
            }
            Ok(MalVal::Bool(true))
        },
        Builtin::PrStr => {
            let parts = print_args(args, true);
            Ok(MalVal::String(Rc::new(join_with(&parts, " "))))
        },
        Builtin::Str => {
            let parts = print_args(args, false);
            Ok(MalVal::String(Rc::new(join_with(&parts, ""))))
        },
        Builtin::Prn | Builtin::Println => {
            let parts = print_args(args, matches!(f, Builtin::Prn));
            let line = join_with(&parts, " ");
            let ghost before = env.printed@;
            env.printed.push(line);
            assert(env.printed@.drop_last() =~= before);
            Ok(MalVal::Nil)
        },
        Builtin::Atom => {
            if n != 1 {
                return Err(arity_err("atom", Arity::Fixed(1), n));
            }
            let at = env.cells.len();
            env.cells.push(args[0].share());
            Ok(MalVal::Atom(at))
        },
        Builtin::IsAtom => Ok(MalVal::Bool(n > 0 && matches!(&args[0], MalVal::Atom(_)))),
        Builtin::Deref => {
            if n != 1 {
                return Err(arity_err("deref", Arity::Fixed(1), n));
            }
            match &args[0] {
                MalVal::Atom(i) => {
                    if *i < env.cells.len() {
                        Ok(env.cells[*i].share())
                    } else {
                        Err(MalError::Dangling)
                    }
                },
                other => Err(invalid_type(other, "atom")),
            }
        },
        Builtin::Reset => {
            if n != 2 {
                return Err(arity_err("reset!", Arity::Fixed(2), n));
            }
            match &args[0] {
                MalVal::Atom(i) => {
                    if *i < env.cells.len() {
                        env.cells.set(*i, args[1].share());
                        Ok(args[1].share())
                    } else {
                        Err(MalError::Dangling)
                    }
                },
                other => Err(invalid_type(other, "atom")),
            }
        },
        Builtin::ReadString => {
            if n != 1 {
                return Err(arity_err("read-string", Arity::Fixed(1), n));
            }
            match &args[0] {
                MalVal::String(s) => read_str((**s).clone()),
                other => Err(invalid_type(other, "string")),
            }
        },
        Builtin::Cons => {
            if n != 2 {
                return Err(arity_err("cons", Arity::Fixed(2), n));
            }
            let mut items: Vec<MalVal> = Vec::new();
            items.push(args[0].share());
            match &args[1] {
                MalVal::Nil => {
                    assert(items@ =~= seq![args@[0]]);
                    Ok(MalVal::list(items))
                },
                MalVal::List(x, _) | MalVal::Vector(x, _) => {
                    let mut i: usize = 0;
                    while i < x.len()
                        invariant
                            i <= x@.len(),
                            items@ == seq![args@[0]] + x@.subrange(0, i as int),
                        decreases x@.len() - i,
                    {
                        items.push(x[i].share());
                        assert(items@ =~= seq![args@[0]] + x@.subrange(0, i + 1));
                        i = i + 1;
                    }
                    assert(x@.subrange(0, x@.len() as int) =~= x@);
                    assert(x@ == items_of(args@[1]));
                    Ok(MalVal::list(items))
                },
                other => Err(invalid_type(other, "list or vector")),
            }
        },
    }
}


/// Every procedure, in the order the global scope binds them.
pub open spec fn all_builtins() -> Seq<Builtin> {
    seq![
        Builtin::Add, Builtin::Sub, Builtin::Mul, Builtin::Div, Builtin::List, Builtin::IsList,
        Builtin::IsEmpty, Builtin::Count, Builtin::Equal, Builtin::Lt, Builtin::Le, Builtin::Gt,
        Builtin::Ge, Builtin::PrStr, Builtin::Str, Builtin::Prn, Builtin::Println, Builtin::Atom,
        Builtin::IsAtom, Builtin::Deref, Builtin::Reset, Builtin::ReadString, Builtin::Cons,
    ]
}

/// The name of a procedure.
pub fn builtin_str(f: Builtin) -> (r: String)
    ensures
        r@ == builtin_name(f),
{
    match f {
        Builtin::Add => String::from_str("+"),
        Builtin::Sub => String::from_str("-"),
        Builtin::Mul => String::from_str("*"),
        Builtin::Div => String::from_str("/"),
        Builtin::List => String::from_str("list"),
        Builtin::IsList => String::from_str("list?"),
        Builtin::IsEmpty => String::from_str("empty?"),
        Builtin::Count => String::from_str("count"),
        Builtin::Equal => String::from_str("="),
        Builtin::Lt => String::from_str("<"),
        Builtin::Le => String::from_str("<="),
        Builtin::Gt => String::from_str(">"),
        Builtin::Ge => String::from_str(">="),
        Builtin::PrStr => String::from_str("pr-str"),
        Builtin::Str => String::from_str("str"),
        Builtin::Prn => String::from_str("prn"),
        Builtin::Println => String::from_str("println"),
        Builtin::Atom => String::from_str("atom"),
        Builtin::IsAtom => String::from_str("atom?"),
        Builtin::Deref => String::from_str("deref"),
        Builtin::Reset => String::from_str("reset!"),
        Builtin::ReadString => String::from_str("read-string"),
        Builtin::Cons => String::from_str("cons"),
    }
}

/// A fresh interpreter state whose global scope binds each procedure under
/// its name.
pub fn env() -> (r: Env)
    ensures
        r.wf(),
        r.scopes@.len() == 1,
        r.cells@.len() == 0,
        r.printed@.len() == 0,
        r.scopes@[0].table@.len() == all_builtins().len(),
        forall|i: int|
            0 <= i < all_builtins().len() ==> (#[trigger] r.scopes@[0].table@[i]).0@ == builtin_name(
                all_builtins()[i],
            ) && r.scopes@[0].table@[i].1 == MalVal::BuiltinFn(all_builtins()[i]),
{
    let fs: [Builtin; 23] = [
        Builtin::Add, Builtin::Sub, Builtin::Mul, Builtin::Div, Builtin::List, Builtin::IsList,
        Builtin::IsEmpty, Builtin::Count, Builtin::Equal, Builtin::Lt, Builtin::Le, Builtin::Gt,
        Builtin::Ge, Builtin::PrStr, Builtin::Str, Builtin::Prn, Builtin::Println, Builtin::Atom,
        Builtin::IsAtom, Builtin::Deref, Builtin::Reset, Builtin::ReadString, Builtin::Cons,
    ];
    assert(fs@ =~= all_builtins());
    let mut table: Vec<(String, MalVal)> = Vec::new();
    let mut i: usize = 0;
    while i < 23
        invariant
            i <= 23,
            fs@ == all_builtins(),
            table@.len() == i,
            forall|k: int|
                0 <= k < i ==> (#[trigger] table@[k]).0@ == builtin_name(fs@[k]) && table@[k].1
                    == MalVal::BuiltinFn(fs@[k]),
        decreases 23 - i,
    {
        let f = fs[i];
        table.push((builtin_str(f), MalVal::BuiltinFn(f)));
        i = i + 1;
    }
    let mut scopes: Vec<Scope> = Vec::new();
    scopes.push(Scope { outer: None, table });
    Env { scopes, cells: Vec::new(), next_id: 0, printed: Vec::new() }
}

} // verus!
