use std::rc::Rc;
use vstd::prelude::*;

use crate::builtins::{builtin_outcome, call_builtin, invalid_type, type_error};
use crate::env::{binds, table_set, Env};
use crate::printer::{pr_str, print_spec};
use crate::reader::{fails_with, read_outcome, read_str, reads, scan_form, tokens_from, Scan};
use crate::types::{assoc_all, entries_of, items_of, Arity, Closure, MalError, MalResult, MalVal};

verus! {

/// How deep evaluation may nest outside tail position (argument, condition,
/// binding and `do` prefix evaluation). Deeper nesting fails with
/// `MalError::TooDeep` instead of exhausting the host stack; tail positions
/// do not count against it.
pub const MAX_DEPTH: u64 = 2000;

/// `e1` is `e0` after more evaluation: scopes are only added, and no scope
/// changes the scope it is nested in.
pub open spec fn extends(e0: Env, e1: Env) -> bool {
    &&& e1.wf()
    &&& e0.scopes@.len() <= e1.scopes@.len()
    &&& forall|i: int|
        0 <= i < e0.scopes@.len() ==> (#[trigger] e1.scopes@[i]).outer == e0.scopes@[i].outer
}

/// Anything but `false` and `nil` counts as true.
pub open spec fn truthy(v: MalVal) -> bool {
    !(v is Nil || v == MalVal::Bool(false))
}

/// The branch of `(if c then else?)` that a condition selects.
pub open spec fn if_branch_spec(form: Seq<MalVal>, cond: MalVal) -> MalVal {
    if truthy(cond) {
        form[2]
    } else if form.len() == 4 {
        form[3]
    } else {
        MalVal::Nil
    }
}

/// Whether a closure with `fixed` parameters, and a rest parameter when
/// `variadic`, accepts `got` arguments.
pub open spec fn arity_accepts(fixed: nat, variadic: bool, got: nat) -> bool {
    if variadic {
        got >= fixed
    } else {
        got == fixed
    }
}

/// Where reading a parameter list from position `k` on stops.
pub enum ParamScan {
    /// All parameters are symbols; the rest name, if `&` introduced one.
    Done(Option<Seq<char>>),
    /// The entry at this position is not a symbol.
    NotSymbol(int),
    /// `&` stands somewhere other than just before one final symbol.
    BadAmp,
}

/// Reads a parameter list from position `k` on.
pub open spec fn scan_params(ps: Seq<MalVal>, k: int) -> ParamScan
    decreases ps.len() - k,
{
    if k < 0 || k >= ps.len() {
        ParamScan::Done(None)
    } else {
        match ps[k] {
            MalVal::Symbol(s) => if s@ == "&"@ {
                if k == ps.len() - 2 {
                    match ps[k + 1] {
                        MalVal::Symbol(t) => if t@ == "&"@ {
                            ParamScan::BadAmp
                        } else {
                            ParamScan::Done(Some(t@))
                        },
                        _ => ParamScan::NotSymbol(k + 1),
                    }
                } else {
                    ParamScan::BadAmp
                }
            } else {
                scan_params(ps, k + 1)
            },
            _ => ParamScan::NotSymbol(k),
        }
    }
}

/// The number of fixed parameters in a list that `scan_params` accepts.
pub open spec fn fixed_count(ps: Seq<MalVal>, rest: Option<Seq<char>>) -> int {
    if rest is Some {
        ps.len() - 2
    } else {
        ps.len() as int
    }
}

/// The name of a symbol.
pub open spec fn sym_name(v: MalVal) -> Option<Seq<char>> {
    match v {
        MalVal::Symbol(s) => Some(s@),
        _ => None,
    }
}

/// `names` and `rn` are the fixed names and the rest name of the parameter
/// list `ps`, whose rest name, if any, is `rest`.
pub open spec fn params_match(ps: Seq<MalVal>, rest: Option<Seq<char>>, names: Seq<String>, rn: Option<String>) -> bool {
    &&& names.len() == fixed_count(ps, rest)
    &&& forall|k: int|
        0 <= k < names.len() ==> sym_name(ps[k]) == Some((#[trigger] names[k])@)
    &&& match rest {
        Some(t) => rn is Some && rn->0@ == t,
        None => rn is None,
    }
}

/// The branch that `(if c then else?)` continues with.
pub fn if_branch(form: &Vec<MalVal>, cond: &MalVal) -> (r: MalVal)
    requires
        3 <= form@.len() <= 4,
    ensures
        r == if_branch_spec(form@, *cond),
{
    let t = match cond {
        MalVal::Nil => false,
        MalVal::Bool(b) => *b,
        _ => true,
    };
    if t {
        form[2].share()
    } else if form.len() == 4 {
        form[3].share()
    } else {
        MalVal::Nil
    }
}

/// Checks an argument count against a closure's parameters.
pub fn check_arity(fixed: usize, variadic: bool, got: usize) -> (r: Result<(), MalError>)
    ensures
        r is Ok <==> arity_accepts(fixed as nat, variadic, got as nat),
        r is Err ==> (r->Err_0 matches MalError::WrongArity(name, a, g) && name@ == "function"@ && g
            == got && a == (if variadic {
            Arity::Variadic(fixed)
        } else {
            Arity::Fixed(fixed)
        })),
{
    if variadic {
        if got < fixed {
            return Err(MalError::WrongArity(String::from_str("function"), Arity::Variadic(fixed), got));
        }
    } else if got != fixed {
        return Err(MalError::WrongArity(String::from_str("function"), Arity::Fixed(fixed), got));
    }
    Ok(())
}

fn is_sym(s: &String, lit: &str) -> (r: bool)
    ensures
        r == (s@ == lit@),
{
    *s == String::from_str(lit)
}

/// Reads a parameter list into its fixed names and its rest name.
pub fn parse_params(ps: &Vec<MalVal>) -> (r: Result<(Vec<String>, Option<String>), MalError>)
    ensures
        match scan_params(ps@, 0) {
            ParamScan::Done(rest) => r is Ok && params_match(ps@, rest, r->Ok_0.0@, r->Ok_0.1),
            ParamScan::NotSymbol(k) => r is Err && 0 <= k < ps@.len() && type_error(r->Err_0, ps@[k], "symbol"@),
            ParamScan::BadAmp => r is Err && r->Err_0 is InvalidSyntax,
        },
{
    let n = ps.len();
    let mut names: Vec<String> = Vec::new();
    let mut k: usize = 0;
    while k < n
        invariant
            n == ps@.len(),
            k <= n,
            scan_params(ps@, 0) == scan_params(ps@, k as int),
            names@.len() == k,
            forall|m: int| 0 <= m < k ==> sym_name(ps@[m]) == Some((#[trigger] names@[m])@),
        decreases n - k,
    {
        match &ps[k] {
            MalVal::Symbol(s) => {
                if is_sym(s, "&") {
                    if n >= 2 && k == n - 2 {
                        match &ps[k + 1] {
                            MalVal::Symbol(t) => {
                                if is_sym(t, "&") {
                                    return Err(MalError::InvalidSyntax(String::from_str("& in incorrect position")));
                                }
                                return Ok((names, Some((**t).clone())));
                            },
                            other => {
                                return Err(invalid_type(other, "symbol"));
                            },
                        }
                    }
                    return Err(MalError::InvalidSyntax(String::from_str("& in incorrect position")));
                }
                let ghost before = names@;
                let name = (**s).clone();
                assert(name@ == s@);
                names.push(name);
                proof {
                    assert(names@[k as int]@ == s@);
                    assert forall|m: int| 0 <= m < k + 1 implies sym_name(ps@[m]) == Some((#[trigger] names@[m])@) by {
                        if m < k {
                            assert(names@[m] == before[m]);
                        }
                    }
                }
            },
            other => {
                return Err(invalid_type(other, "symbol"));
            },
        }
        k = k + 1;
    }
    Ok((names, None))
}


/// The parameter entries of a list or vector.
pub open spec fn param_entries(v: MalVal) -> Option<Seq<MalVal>> {
    match v {
        MalVal::List(p, _) => Some(p@),
        MalVal::Vector(p, _) => Some(p@),
        _ => None,
    }
}

/// What `(fn* params body)` evaluates to in scope `scope` when the next
/// closure identity is `id`: a closure over that scope, or the error that
/// the form's shape calls for.
pub open spec fn fn_outcome(form: Seq<MalVal>, scope: usize, id: usize, r: MalResult) -> bool {
    if form.len() != 3 {
        r is Err && (r->Err_0 matches MalError::WrongArity(n, a, g) && n@ == "fn*"@ && a
            == Arity::Fixed(2) && g == form.len() - 1)
    } else {
        match param_entries(form[1]) {
            None => r is Err && type_error(r->Err_0, form[1], "list or vec"@),
            Some(ps) => match scan_params(ps, 0) {
                ParamScan::Done(rest) => r is Ok && (r->Ok_0 matches MalVal::Func(c, m) && c.env
                    == scope && c.body == form[2] && c.id == id && *m == MalVal::Nil
                    && params_match(ps, rest, c.params@, c.rest)),
                ParamScan::NotSymbol(k) => r is Err && type_error(r->Err_0, ps[k], "symbol"@),
                ParamScan::BadAmp => r is Err && r->Err_0 is InvalidSyntax,
            },
        }
    }
}

/// `e` says that the special form `name` got `got` operands where `arity`
/// was needed.
pub open spec fn form_arity_error(e: MalError, name: Seq<char>, arity: Arity, got: int) -> bool {
    e matches MalError::WrongArity(n, a, g) && n@ == name && a == arity && g == got
}

/// What a special form comes to when its shape alone decides: a wrong
/// number of operands, or a `fn*` form.
pub open spec fn special_outcome(ast: MalVal, scope: usize, id: usize, r: MalResult) -> bool {
    match ast {
        MalVal::List(x, _) => x@.len() > 0 ==> match x@[0] {
            MalVal::Symbol(s) => {
                let n = x@.len() - 1;
                if s@ == "fn*"@ {
                    fn_outcome(x@, scope, id, r)
                } else if s@ == "def!"@ && n != 2 {
                    r is Err && form_arity_error(r->Err_0, "def!"@, Arity::Fixed(2), n)
                } else if s@ == "let*"@ && n != 2 {
                    r is Err && form_arity_error(r->Err_0, "let*"@, Arity::Fixed(2), n)
                } else if s@ == "let*"@ && param_entries(x@[1]) is None {
                    r is Err && type_error(r->Err_0, x@[1], "list or vec"@)
                } else if s@ == "do"@ && n == 0 {
                    r is Err && form_arity_error(r->Err_0, "do"@, Arity::Variadic(1), 0)
                } else if s@ == "if"@ && (n < 2 || n > 3) {
                    r is Err && form_arity_error(r->Err_0, "if"@, Arity::JustOrOneLess(3), n)
                } else if s@ == "eval"@ && n != 1 {
                    r is Err && form_arity_error(r->Err_0, "eval"@, Arity::Fixed(1), n)
                } else {
                    true
                }
            },
            _ => true,
        },
        _ => true,
    }
}

/// What `(def! name expr)` promises: a name that is not a symbol is
/// refused; otherwise a value that comes back is what `name` now resolves to
/// from the scope it was defined in.
pub open spec fn def_binds(form: Seq<MalVal>, scope: usize, e1: Env, r: MalResult) -> bool {
    match form[1] {
        MalVal::Symbol(s) => r is Ok ==> e1.lookup(scope as int, s@) == Some(r->Ok_0),
        other => r is Err && type_error(r->Err_0, other, "symbol"@),
    }
}

/// What `(def! ...)` comes to, for a form whose head is `def!` and that has
/// two operands.
pub open spec fn def_outcome(ast: MalVal, scope: usize, e1: Env, r: MalResult) -> bool {
    match ast {
        MalVal::List(x, _) => (x@.len() == 3 && is_symbol(x@[0], "def!"@)) ==> def_binds(x@, scope, e1, r),
        _ => true,
    }
}

/// Marks a value that an existential statement is about; it holds of every
/// value.
pub open spec fn witness<T>(x: T) -> bool {
    true
}

/// The tail-call budget that each evaluation starts with.
pub open spec fn full_steps() -> nat {
    u64::MAX as nat
}

/// `e1` is `e` after `set(s, key, v)`.
pub open spec fn sets(e: Env, s: int, key: String, v: MalVal, e1: Env) -> bool {
    &&& e1.scopes@.len() == e.scopes@.len()
    &&& forall|i: int| 0 <= i < e.scopes@.len() && i != s ==> #[trigger] e1.scopes@[i] == e.scopes@[i]
    &&& e1.scopes@[s].outer == e.scopes@[s].outer
    &&& e1.scopes@[s].table@ == table_set(e.scopes@[s].table@, key, v)
    &&& e1.cells == e.cells && e1.printed == e.printed && e1.next_id == e.next_id
}

/// `e1` is `e` with one more scope, nested in `outer`, whose table is `t`.
pub open spec fn adds_scope(e: Env, outer: int, e1: Env) -> bool {
    &&& e1.scopes@.len() == e.scopes@.len() + 1
    &&& forall|i: int| 0 <= i < e.scopes@.len() ==> #[trigger] e1.scopes@[i] == e.scopes@[i]
    &&& e1.scopes@[e.scopes@.len() as int].outer == Some(outer as usize)
    &&& e1.cells == e.cells && e1.printed == e.printed && e1.next_id == e.next_id
}

/// The special form that the head of a list names, if any.
pub open spec fn head_form(v: MalVal) -> Option<Special> {
    if is_symbol(v, "def!"@) {
        Some(Special::Def)
    } else if is_symbol(v, "let*"@) {
        Some(Special::Let)
    } else if is_symbol(v, "do"@) {
        Some(Special::Do)
    } else if is_symbol(v, "if"@) {
        Some(Special::If)
    } else if is_symbol(v, "fn*"@) {
        Some(Special::Fn)
    } else if is_symbol(v, "eval"@) {
        Some(Special::Eval)
    } else {
        None
    }
}

/// The values of a map's entries, in order.
pub open spec fn values_of(m: Seq<(MalVal, MalVal)>) -> Seq<MalVal> {
    Seq::new(m.len(), |i: int| m[i].1)
}

/// A map's keys paired with new values.
pub open spec fn with_values(m: Seq<(MalVal, MalVal)>, vals: Seq<MalVal>) -> Seq<(MalVal, MalVal)> {
    Seq::new(m.len(), |i: int| (m[i].0, vals[i]))
}

/// A form that is not a list: a symbol resolves through the scope chain, a
/// vector or a map evaluates its elements or values in order and is built
/// again from them, anything else is its own value.
pub open spec fn atom_evals(ast: MalVal, e0: Env, s: int, depth: nat, e1: Env, r: MalResult) -> bool
    decreases depth, 2nat, items_of(ast).len() + entries_of(ast).len() + 1, 0nat,
{
    match ast {
        MalVal::Symbol(sym) => e1 == e0 && match e0.lookup(s, sym@) {
            Some(v) => r == Ok::<MalVal, MalError>(v),
            None => r is Err && (r->Err_0 matches MalError::NotFound(n) && n@ == sym@),
        },
        MalVal::Vector(x, _) => exists|ri: Result<Seq<MalVal>, MalError>|
            #![trigger witness(ri)]
            items_evals(x@, x@.len(), e0, s, depth, e1, ri) && match ri {
                Ok(vals) => r is Ok && (r->Ok_0 matches MalVal::Vector(l, m) && l@ == vals && *m
                    == MalVal::Nil),
                Err(e) => r == Err::<MalVal, MalError>(e),
            },
        MalVal::HashMap(x, _) => exists|ri: Result<Seq<MalVal>, MalError>|
            #![trigger witness(ri)]
            items_evals(values_of(x@), x@.len(), e0, s, depth, e1, ri) && match ri {
                Ok(vals) => r is Ok && (r->Ok_0 matches MalVal::HashMap(l, m) && l@ == assoc_all(
                    with_values(x@, vals),
                ) && *m == MalVal::Nil),
                Err(e) => r == Err::<MalVal, MalError>(e),
            },
        MalVal::List(_, _) => false,
        _ => e1 == e0 && r == Ok::<MalVal, MalError>(ast),
    }
}

/// Evaluating `ast` in scope `s` of `e0`, with `depth` levels of nesting
/// and `steps` tail continuations left, ends in state `e1` with result `r`.
pub open spec fn evals(ast: MalVal, e0: Env, s: int, depth: nat, steps: nat, e1: Env, r: MalResult) -> bool
    decreases depth, 3nat, steps, 0nat,
{
    if depth == 0 {
        e1 == e0 && r == Err::<MalVal, MalError>(MalError::TooDeep)
    } else {
        match ast {
            MalVal::List(x, _) => if x@.len() == 0 {
                e1 == e0 && r == Ok::<MalVal, MalError>(ast)
            } else if steps == 0 {
                e1 == e0 && r == Err::<MalVal, MalError>(MalError::TooDeep)
            } else {
                list_evals(x@, e0, s, depth, (steps - 1) as nat, e1, r)
            },
            _ => atom_evals(ast, e0, s, depth, e1, r),
        }
    }
}

/// Evaluating the first `n` of `items` one after another; the first error
/// stops the sequence.
pub open spec fn items_evals(
    items: Seq<MalVal>,
    n: nat,
    e0: Env,
    s: int,
    depth: nat,
    e1: Env,
    res: Result<Seq<MalVal>, MalError>,
) -> bool
    decreases depth, 2nat, n, 0nat,
{
    if depth == 0 || n > items.len() {
        false
    } else if n == 0 {
        e1 == e0 && res == Ok::<Seq<MalVal>, MalError>(Seq::empty())
    } else {
        exists|em: Env, rm: Result<Seq<MalVal>, MalError>|
            #![trigger witness(em), witness(rm)]
            items_evals(items, (n - 1) as nat, e0, s, depth, em, rm) && match rm {
                Err(e) => res == Err::<Seq<MalVal>, MalError>(e) && e1 == em,
                Ok(vals) => exists|rv: MalResult|
                    #![trigger witness(rv)]
                    evals(items[n - 1], em, s, (depth - 1) as nat, full_steps(), e1, rv) && match rv {
                        Ok(v) => res == Ok::<Seq<MalVal>, MalError>(vals.push(v)),
                        Err(e) => res == Err::<Seq<MalVal>, MalError>(e),
                    },
            }
    }
}

/// Binding the pairs of a `let*` binding form from position `i` on, in
/// scope `s2`: each name must be a symbol; its expression (nil when the
/// form has an odd number of entries) is evaluated in `s2` and bound there.
pub open spec fn binds_seq(
    b: Seq<MalVal>,
    i: int,
    s2: int,
    e0: Env,
    depth: nat,
    e1: Env,
    res: Option<MalError>,
) -> bool
    decreases depth, 2nat, b.len() - i, 0nat,
{
    if depth == 0 || i < 0 {
        false
    } else if i >= b.len() {
        e1 == e0 && res is None
    } else {
        match b[i] {
            MalVal::Symbol(k) => {
                let expr = if i + 1 < b.len() { b[i + 1] } else { MalVal::Nil };
                let next = if i + 1 < b.len() { i + 2 } else { i + 1 };
                exists|em: Env, rv: MalResult|
                    #![trigger witness(em), witness(rv)]
                    evals(expr, e0, s2, (depth - 1) as nat, full_steps(), em, rv) && match rv {
                        Ok(v) => exists|es: Env|
                            #![trigger witness(es)]
                            sets(em, s2, *k, v, es) && binds_seq(b, next, s2, es, depth, e1, res),
                        Err(e) => res == Some(e) && e1 == em,
                    }
            },
            other => e1 == e0 && res is Some && type_error(res->0, other, "symbol"@),
        }
    }
}

/// `(def! name expr)`: `expr` is evaluated one level deeper and its value
/// bound to `name` in scope `s`.
pub open spec fn def_evals(x: Seq<MalVal>, e0: Env, s: int, depth: nat, e1: Env, r: MalResult) -> bool
    decreases depth, 1nat, 0nat, 0nat,
{
    let n = x.len() - 1;
    if depth == 0 || x.len() == 0 {
        false
    } else if n != 2 {
        e1 == e0 && r is Err && form_arity_error(r->Err_0, "def!"@, Arity::Fixed(2), n)
    } else {
        match x[1] {
            MalVal::Symbol(name) => exists|em: Env, rv: MalResult|
                #![trigger witness(em), witness(rv)]
                evals(x[2], e0, s, (depth - 1) as nat, full_steps(), em, rv) && match rv {
                    Ok(v) => r == Ok::<MalVal, MalError>(v) && sets(em, s, *name, v, e1),
                    Err(e) => r == Err::<MalVal, MalError>(e) && e1 == em,
                },
            other => e1 == e0 && r is Err && type_error(r->Err_0, other, "symbol"@),
        }
    }
}

/// The part of `(let* bindings body)` before the body: a new scope nested
/// in `s` is added and the pairs are bound in it; `Ok` holds that scope.
pub open spec fn let_start(x: Seq<MalVal>, e0: Env, s: int, depth: nat, e1: Env, rr: Result<int, MalError>) -> bool
    decreases depth, 3nat, 0nat, 0nat,
{
    let n = x.len() - 1;
    if depth == 0 || x.len() == 0 {
        false
    } else if n != 2 {
        e1 == e0 && rr is Err && form_arity_error(rr->Err_0, "let*"@, Arity::Fixed(2), n)
    } else {
        match param_entries(x[1]) {
            None => e1 == e0 && rr is Err && type_error(rr->Err_0, x[1], "list or vec"@),
            Some(b) => exists|ea: Env, rb: Option<MalError>|
                #![trigger witness(ea), witness(rb)]
                adds_scope(e0, s, ea) && ea.scopes@[e0.scopes@.len() as int].table@.len() == 0
                    && binds_seq(b, 0, e0.scopes@.len() as int, ea, depth, e1, rb) && match rb {
                    None => rr == Ok::<int, MalError>(e0.scopes@.len() as int),
                    Some(e) => rr == Err::<int, MalError>(e),
                },
        }
    }
}

/// Evaluating a non-empty list `x` whose tail continuations have `steps`
/// left: a special form by its own rule, anything else as an application.
pub open spec fn list_evals(x: Seq<MalVal>, e0: Env, s: int, depth: nat, steps: nat, e1: Env, r: MalResult) -> bool
    decreases depth, 3nat, steps, 2nat,
{
    let n = x.len() - 1;
    if depth == 0 || x.len() == 0 {
        false
    } else {
        match head_form(x[0]) {
            Some(Special::Def) => def_evals(x, e0, s, depth, e1, r),
            Some(Special::Fn) => fn_outcome(x, s as usize, e0.next_id, r) && e1.scopes == e0.scopes
                && e1.cells == e0.cells && e1.printed == e0.printed && (r is Err ==> e1 == e0),
            Some(Special::Let) => exists|eb: Env, rr: Result<int, MalError>|
                #![trigger witness(eb), witness(rr)]
                let_start(x, e0, s, depth, eb, rr) && match rr {
                    Ok(s2) => evals(x[2], eb, s2, depth, steps, e1, r),
                    Err(e) => r == Err::<MalVal, MalError>(e) && e1 == eb,
                },
            Some(Special::Do) => if n == 0 {
                e1 == e0 && r is Err && form_arity_error(r->Err_0, "do"@, Arity::Variadic(1), 0)
            } else {
                exists|eb: Env, rb: Result<Seq<MalVal>, MalError>|
                    #![trigger witness(eb), witness(rb)]
                    items_evals(x.subrange(1, x.len() - 1), (x.len() - 2) as nat, e0, s, depth, eb, rb)
                        && match rb {
                        Ok(_) => evals(x[x.len() - 1], eb, s, depth, steps, e1, r),
                        Err(e) => r == Err::<MalVal, MalError>(e) && e1 == eb,
                    }
            },
            Some(Special::If) => if n < 2 || n > 3 {
                e1 == e0 && r is Err && form_arity_error(r->Err_0, "if"@, Arity::JustOrOneLess(3), n)
            } else {
                exists|ec: Env, rc: MalResult|
                    #![trigger witness(ec), witness(rc)]
                    evals(x[1], e0, s, (depth - 1) as nat, full_steps(), ec, rc) && match rc {
                        Ok(c) => evals(if_branch_spec(x, c), ec, s, depth, steps, e1, r),
                        Err(e) => r == Err::<MalVal, MalError>(e) && e1 == ec,
                    }
            },
            Some(Special::Eval) => if n != 1 {
                e1 == e0 && r is Err && form_arity_error(r->Err_0, "eval"@, Arity::Fixed(1), n)
            } else {
                exists|ef: Env, rf: MalResult|
                    #![trigger witness(ef), witness(rf)]
                    evals(x[1], e0, s, (depth - 1) as nat, full_steps(), ef, rf) && match rf {
                        Ok(f) => evals(f, ef, 0, depth, steps, e1, r),
                        Err(e) => r == Err::<MalVal, MalError>(e) && e1 == ef,
                    }
            },
            None => exists|ei: Env, ri: Result<Seq<MalVal>, MalError>|
                #![trigger witness(ei), witness(ri)]
                items_evals(x, x.len(), e0, s, depth, ei, ri) && match ri {
                    Err(e) => r == Err::<MalVal, MalError>(e) && e1 == ei,
                    Ok(vals) => vals.len() == x.len() && applies(vals, ei, depth, steps, e1, r),
                },
        }
    }
}

/// Applying the evaluated head `vals[0]` to the arguments after it: a
/// procedure is called, a closure checks its arity, binds its parameters
/// in a new scope nested in the scope it captured, and continues with its
/// body there; anything else is not a function.
pub open spec fn applies(vals: Seq<MalVal>, ei: Env, depth: nat, steps: nat, e1: Env, r: MalResult) -> bool
    decreases depth, 3nat, steps, 1nat,
{
    let args = vals.drop_first();
    if vals.len() == 0 {
        false
    } else {
        match vals[0] {
            MalVal::BuiltinFn(f) => builtin_outcome(f, args, ei, e1, r) && e1.scopes == ei.scopes
                && e1.next_id == ei.next_id,
            MalVal::Func(c, _) => if !arity_accepts(c.params@.len(), c.rest is Some, args.len()) {
                e1 == ei && r is Err && (r->Err_0 matches MalError::WrongArity(name, a, g) && name@
                    == "function"@ && g == args.len() && a == (if c.rest is Some {
                    Arity::Variadic(c.params@.len() as usize)
                } else {
                    Arity::Fixed(c.params@.len() as usize)
                }))
            } else if c.env >= ei.scopes@.len() {
                e1 == ei && r == Err::<MalVal, MalError>(MalError::Dangling)
            } else {
                exists|eb: Env|
                    #![trigger witness(eb)]
                    adds_scope(ei, c.env as int, eb) && binds(
                        eb.scopes@[ei.scopes@.len() as int].table@,
                        c.params@,
                        c.rest,
                        args,
                    ) && evals(c.body, eb, ei.scopes@.len() as int, depth, steps, e1, r)
            },
            other => e1 == ei && r is Err && type_error(r->Err_0, other, "function"@),
        }
    }
}

/// The forms whose head symbol the evaluator handles itself.
pub enum Special {
    Def,
    Let,
    Do,
    If,
    Fn,
    Eval,
}

proof fn lemma_form_names()
    ensures
        "def!"@ =~= seq!['d', 'e', 'f', '!'],
        "let*"@ =~= seq!['l', 'e', 't', '*'],
        "do"@ =~= seq!['d', 'o'],
        "if"@ =~= seq!['i', 'f'],
        "fn*"@ =~= seq!['f', 'n', '*'],
        "eval"@ =~= seq!['e', 'v', 'a', 'l'],
{
    reveal_strlit("def!");
    reveal_strlit("let*");
    reveal_strlit("do");
    reveal_strlit("if");
    reveal_strlit("fn*");
    reveal_strlit("eval");
}

/// Whether `v` is the symbol `name`.
pub open spec fn is_symbol(v: MalVal, name: Seq<char>) -> bool {
    v matches MalVal::Symbol(s) && s@ == name
}

/// The special form that the head of a list names, if any.
fn special_of(head: &MalVal) -> (r: Option<Special>)
    ensures
        r == Some(Special::Def) <==> is_symbol(*head, "def!"@),
        r == Some(Special::Let) <==> is_symbol(*head, "let*"@),
        r == Some(Special::Do) <==> is_symbol(*head, "do"@),
        r == Some(Special::If) <==> is_symbol(*head, "if"@),
        r == Some(Special::Fn) <==> is_symbol(*head, "fn*"@),
        r == Some(Special::Eval) <==> is_symbol(*head, "eval"@),
{
    proof {
        lemma_form_names();
    }
    match head {
        MalVal::Symbol(s) => {
            if is_sym(s, "def!") {
                Some(Special::Def)
            } else if is_sym(s, "let*") {
                Some(Special::Let)
            } else if is_sym(s, "do") {
                Some(Special::Do)
            } else if is_sym(s, "if") {
                Some(Special::If)
            } else if is_sym(s, "fn*") {
                Some(Special::Fn)
            } else if is_sym(s, "eval") {
                Some(Special::Eval)
            } else {
                None
            }
        },
        _ => None,
    }
}

proof fn lemma_extends_trans(e0: Env, e1: Env, e2: Env)
    requires
        extends(e0, e1),
        extends(e1, e2),
    ensures
        extends(e0, e2),
{
    assert forall|i: int| 0 <= i < e0.scopes@.len() implies (#[trigger] e2.scopes@[i]).outer
        == e0.scopes@[i].outer by {
        assert(e1.scopes@[i].outer == e0.scopes@[i].outer);
    }
}

/// The result of a sequence of evaluations, as values.
pub open spec fn seq_result(r: Result<Vec<MalVal>, MalError>) -> Result<Seq<MalVal>, MalError> {
    match r {
        Ok(v) => Ok(v@),
        Err(e) => Err(e),
    }
}

/// One more evaluation extends a sequence of evaluations.
proof fn lemma_items_step(
    items: Seq<MalVal>,
    i: nat,
    e0: Env,
    s: int,
    depth: nat,
    em: Env,
    vals: Seq<MalVal>,
    e1: Env,
    rv: MalResult,
)
    requires
        depth > 0,
        i < items.len(),
        items_evals(items, i, e0, s, depth, em, Ok(vals)),
        evals(items[i as int], em, s, (depth - 1) as nat, full_steps(), e1, rv),
    ensures
        items_evals(items, i + 1, e0, s, depth, e1, match rv {
            Ok(v) => Ok(vals.push(v)),
            Err(e) => Err(e),
        }),
{
    assert(witness(em) && witness(Ok::<Seq<MalVal>, MalError>(vals)) && witness(rv));
}

/// Once a sequence of evaluations has failed, later forms are not evaluated.
proof fn lemma_items_stop(items: Seq<MalVal>, k: nat, n: nat, e0: Env, s: int, depth: nat, e1: Env, e: MalError)
    requires
        k <= n <= items.len(),
        items_evals(items, k, e0, s, depth, e1, Err(e)),
    ensures
        items_evals(items, n, e0, s, depth, e1, Err(e)),
    decreases n - k,
{
    if n > k {
        lemma_items_stop(items, k, (n - 1) as nat, e0, s, depth, e1, e);
        assert(witness(e1) && witness(Err::<Seq<MalVal>, MalError>(e)));
    }
}

/// Evaluates each form of `items` in turn, one level deeper.
#[verifier::loop_isolation(false)]
fn eval_items(items: &Vec<MalVal>, env: &mut Env, scope: usize, depth: u64) -> (r: Result<Vec<MalVal>, MalError>)
    requires
        old(env).wf(),
        scope < old(env).scopes@.len(),
        depth > 0,
    ensures
        extends(*old(env), *final(env)),
        r is Ok ==> r->Ok_0@.len() == items@.len(),
        items_evals(items@, items@.len(), *old(env), scope as int, depth as nat, *final(env), seq_result(r)),
    decreases depth, 0nat,
{
    let mut out: Vec<MalVal> = Vec::new();
    let mut i: usize = 0;
    while i < items.len()
        invariant
            i <= items@.len(),
            out@.len() == i,
            scope < old(env).scopes@.len(),
            depth > 0,
            extends(*old(env), *env),
            items_evals(items@, i as nat, *old(env), scope as int, depth as nat, *env, Ok(out@)),
        decreases items@.len() - i,
    {
        let ghost before = *env;
        let rv = eval_in(items[i].share(), env, scope, depth - 1);
        proof {
            lemma_extends_trans(*old(env), before, *env);
            lemma_items_step(items@, i as nat, *old(env), scope as int, depth as nat, before, out@, *env, rv);
        }
        let v = match rv {
            Ok(v) => v,
            Err(e) => {
                proof {
                    lemma_items_stop(items@, (i + 1) as nat, items@.len(), *old(env), scope as int, depth as nat, *env, e);
                }
                return Err(e);
            },
        };
        out.push(v);
        i = i + 1;
    }
    Ok(out)
}

/// Evaluates a form without applying it: a symbol resolves through the
/// scope chain, a vector or a map has its elements or values evaluated,
/// anything else is returned as it is.
#[verifier::loop_isolation(false)]
fn eval_ast(ast: &MalVal, env: &mut Env, scope: usize, depth: u64) -> (r: MalResult)
    requires
        old(env).wf(),
        scope < old(env).scopes@.len(),
        depth > 0,
    ensures
        extends(*old(env), *final(env)),
        !(ast is List) ==> atom_evals(*ast, *old(env), scope as int, depth as nat, *final(env), r),
        ast is List && r is Ok ==> (r->Ok_0 matches MalVal::List(l, _) && l@.len() == match *ast {
            MalVal::List(x, _) => x@.len(),
            _ => 0,
        }),
    decreases depth, 1nat,
{
    match ast {
        MalVal::Symbol(s) => match env.get(scope, s) {
            Some(v) => Ok(v),
            None => Err(MalError::NotFound((**s).clone())),
        },
        MalVal::List(x, _) => match eval_items(x, env, scope, depth) {
            Ok(items) => Ok(MalVal::list(items)),
            Err(e) => Err(e),
        },
        MalVal::Vector(x, _) => {
            let res = eval_items(x, env, scope, depth);
            proof {
                assert(witness(seq_result(res)));
            }
            match res {
                Ok(items) => Ok(MalVal::vec(items)),
                Err(e) => Err(e),
            }
        },
        MalVal::HashMap(x, _) => {
            let ghost vs = values_of(x@);
            let mut pairs: Vec<(MalVal, MalVal)> = Vec::new();
            let ghost mut vals: Seq<MalVal> = Seq::empty();
            let mut i: usize = 0;
            while i < x.len()
                invariant
                    i <= x@.len(),
                    scope < old(env).scopes@.len(),
                    depth > 0,
                    extends(*old(env), *env),
                    vs == values_of(x@),
                    vals.len() == i,
                    pairs@ == with_values(x@.subrange(0, i as int), vals),
                    items_evals(vs, i as nat, *old(env), scope as int, depth as nat, *env, Ok(vals)),
                decreases x@.len() - i,
            {
                let ghost before = *env;
                let rv = eval_in(x[i].1.share(), env, scope, depth - 1);
                proof {
                    lemma_extends_trans(*old(env), before, *env);
                    assert(vs[i as int] == x@[i as int].1);
                    lemma_items_step(vs, i as nat, *old(env), scope as int, depth as nat, before, vals, *env, rv);
                }
                let v = match rv {
                    Ok(v) => v,
                    Err(e) => {
                        proof {
                            lemma_items_stop(vs, (i + 1) as nat, x@.len(), *old(env), scope as int, depth as nat, *env, e);
                            assert(witness(Err::<Seq<MalVal>, MalError>(e)));
                        }
                        return Err(e);
                    },
                };
                pairs.push((x[i].0.share(), v));
                proof {
                    vals = vals.push(v);
                    assert(pairs@ =~= with_values(x@.subrange(0, i + 1), vals));
                }
                i = i + 1;
            }
            proof {
                assert(x@.subrange(0, x@.len() as int) =~= x@);
                assert(witness(Ok::<Seq<MalVal>, MalError>(vals)));
            }
            Ok(MalVal::hashmap(pairs))
        },
        _ => Ok(ast.share()),
    }
}

/// `(def! name expr)`: binds the value of `expr` in the current scope.
fn special_def(form: &Vec<MalVal>, env: &mut Env, scope: usize, depth: u64) -> (r: MalResult)
    requires
        form@.len() >= 1,
        old(env).wf(),
        scope < old(env).scopes@.len(),
        depth > 0,
    ensures
        extends(*old(env), *final(env)),
        form@.len() != 3 ==> r is Err && (r->Err_0 matches MalError::WrongArity(n, a, g) && n@
            == "def!"@ && a == Arity::Fixed(2) && g == form@.len() - 1),
        form@.len() == 3 ==> def_binds(form@, scope, *final(env), r),
        def_evals(form@, *old(env), scope as int, depth as nat, *final(env), r),
    decreases depth, 1nat,
{
    if form.len() != 3 {
        return Err(MalError::WrongArity(String::from_str("def!"), Arity::Fixed(2), form.len() - 1));
    }
    match &form[1] {
        MalVal::Symbol(s) => {
            let v = eval_in(form[2].share(), env, scope, depth - 1);
            proof {
                assert(witness(*env) && witness(v));
            }
            match v {
                Ok(v) => {
                    let name = (**s).clone();
                    let ghost before = *env;
                    env.set(scope, name, v.share());
                    proof {
                        crate::env::lemma_table_set(before.scopes@[scope as int].table@, name, v, s@);
                    }
                    Ok(v)
                },
                Err(e) => Err(e),
            }
        },
        other => Err(invalid_type(other, "symbol")),
    }
}

/// `(let* bindings body)`: binds each pair in a new scope nested in the
/// current one, in order, and hands back the body and that scope.
#[verifier::loop_isolation(false)]
fn special_let(form: &Vec<MalVal>, env: &mut Env, scope: usize, depth: u64) -> (r: Result<(MalVal, usize), MalError>)
    requires
        form@.len() >= 1,
        old(env).wf(),
        scope < old(env).scopes@.len(),
        depth > 0,
    ensures
        extends(*old(env), *final(env)),
        r is Ok ==> ({
            let (body, s2) = r->Ok_0;
            &&& body == form@[2]
            &&& old(env).scopes@.len() <= s2 < final(env).scopes@.len()
            &&& final(env).scopes@[s2 as int].outer == Some(scope)
        }),
        form@.len() != 3 ==> r is Err && (r->Err_0 matches MalError::WrongArity(n, a, g) && n@
            == "let*"@ && a == Arity::Fixed(2) && g == form@.len() - 1),
        form@.len() == 3 && param_entries(form@[1]) is None ==> r is Err && type_error(r->Err_0, form@[1], "list or vec"@),
        let_start(form@, *old(env), scope as int, depth as nat, *final(env), match r {
            Ok(p) => Ok::<int, MalError>(p.1 as int),
            Err(e) => Err::<int, MalError>(e),
        }),
    decreases depth, 1nat,
{
    if form.len() != 3 {
        return Err(MalError::WrongArity(String::from_str("let*"), Arity::Fixed(2), form.len() - 1));
    }
    let bindings = match &form[1] {
        MalVal::List(b, _) => b,
        MalVal::Vector(b, _) => b,
        other => {
            return Err(invalid_type(other, "list or vec"));
        },
    };
    let ghost b = bindings@;
    let ghost e0 = *env;
    let s2 = env.push_scope(scope);
    let ghost ea = *env;
    proof {
        assert forall|k: int| 0 <= k < e0.scopes@.len() implies #[trigger] ea.scopes@[k] == e0.scopes@[k] by {}
        assert(adds_scope(e0, scope as int, ea));
    }
    let mut i: usize = 0;
    while i < bindings.len()
        invariant
            extends(*old(env), *env),
            old(env).scopes@.len() <= s2 < env.scopes@.len(),
            env.scopes@[s2 as int].outer == Some(scope),
            depth > 0,
            b == bindings@,
            i <= b.len(),
            forall|e1: Env, res: Option<MalError>|
                binds_seq(b, i as int, s2 as int, *env, depth as nat, e1, res) ==> #[trigger] binds_seq(
                    b,
                    0,
                    s2 as int,
                    ea,
                    depth as nat,
                    e1,
                    res,
                ),
        decreases bindings@.len() - i,
    {
        let ghost cur = *env;
        let key = match &bindings[i] {
            MalVal::Symbol(k) => (**k).clone(),
            other => {
                let e = invalid_type(other, "symbol");
                proof {
                    assert(binds_seq(b, i as int, s2 as int, cur, depth as nat, cur, Some(e)));
                    assert(binds_seq(b, 0, s2 as int, ea, depth as nat, cur, Some(e)));
                    assert(witness(ea) && witness(Some(e)));
                    assert(param_entries(form@[1]) == Some(b));
                    assert(form@.len() == 3);
                    assert(let_start(form@, *old(env), scope as int, depth as nat, cur, Err::<int, MalError>(e)));
                }
                return Err(e);
            },
        };
        let expr = if i + 1 < bindings.len() {
            bindings[i + 1].share()
        } else {
            MalVal::Nil
        };
        let next: usize = if i + 1 < bindings.len() { i + 2 } else { i + 1 };
        let rv = eval_in(expr, env, s2, depth - 1);
        proof {
            lemma_extends_trans(*old(env), cur, *env);
        }
        let ghost em = *env;
        match rv {
            Ok(v) => {
                env.set(s2, key, v.share());
                proof {
                    assert(extends(em, *env));
                    lemma_extends_trans(*old(env), em, *env);
                    let es = *env;
                    assert(sets(em, s2 as int, key, v, es));
                    assert forall|e1: Env, res: Option<MalError>|
                        binds_seq(b, next as int, s2 as int, es, depth as nat, e1, res) implies #[trigger] binds_seq(
                            b,
                            0,
                            s2 as int,
                            ea,
                            depth as nat,
                            e1,
                            res,
                        ) by {
                        assert(witness(em) && witness(rv) && witness(es));
                        assert(binds_seq(b, i as int, s2 as int, cur, depth as nat, e1, res));
                    }
                }
                i = next;
            },
            Err(e) => {
                proof {
                    assert(witness(em) && witness(rv));
                    assert(binds_seq(b, i as int, s2 as int, cur, depth as nat, em, Some(e)));
                    assert(binds_seq(b, 0, s2 as int, ea, depth as nat, em, Some(e)));
                    assert(witness(ea) && witness(Some(e)));
                    assert(param_entries(form@[1]) == Some(b));
                    assert(form@.len() == 3);
                    assert(let_start(form@, *old(env), scope as int, depth as nat, em, Err::<int, MalError>(e)));
                }
                return Err(e);
            },
        }
    }
    proof {
        assert(binds_seq(b, i as int, s2 as int, *env, depth as nat, *env, None));
        assert(binds_seq(b, 0, s2 as int, ea, depth as nat, *env, None));
        assert(witness(ea) && witness(None::<MalError>));
        assert(param_entries(form@[1]) == Some(b));
        assert(form@.len() == 3);
        assert(let_start(form@, *old(env), scope as int, depth as nat, *env, Ok::<int, MalError>(s2 as int)));
    }
    Ok((form[2].share(), s2))
}

/// `(fn* params body)`: a closure over the current scope.
fn special_fn(form: &Vec<MalVal>, env: &mut Env, scope: usize) -> (r: MalResult)
    requires
        form@.len() >= 1,
        old(env).wf(),
        scope < old(env).scopes@.len(),
    ensures
        extends(*old(env), *final(env)),
        final(env).scopes == old(env).scopes,
        final(env).cells == old(env).cells,
        final(env).printed == old(env).printed,
        r is Err ==> *final(env) == *old(env),
        fn_outcome(form@, scope, old(env).next_id, r),
{
    if form.len() != 3 {
        return Err(MalError::WrongArity(String::from_str("fn*"), Arity::Fixed(2), form.len() - 1));
    }
    let ps = match &form[1] {
        MalVal::List(p, _) => p,
        MalVal::Vector(p, _) => p,
        other => {
            return Err(invalid_type(other, "list or vec"));
        },
    };
    let (params, rest) = match parse_params(ps) {
        Ok(p) => p,
        Err(e) => {
            return Err(e);
        },
    };
    let id = env.next_id;
    if env.next_id < usize::MAX {
        env.next_id = env.next_id + 1;
    }
    Ok(MalVal::func(Closure { params, rest, body: form[2].share(), env: scope, id }))
}

/// Evaluates `ast` in scope `scope`. Forms in tail position (the branch of
/// an `if`, the last form of a `do`, the body of a `let*` or of a called
/// closure, the form that `eval` produced) are taken up by the same loop
/// rather than by a nested call.
#[verifier::loop_isolation(false)]
fn eval_in(ast: MalVal, env: &mut Env, scope: usize, depth: u64) -> (r: MalResult)
    requires
        old(env).wf(),
        scope < old(env).scopes@.len(),
    ensures
        extends(*old(env), *final(env)),
        depth > 0 ==> special_outcome(ast, scope, old(env).next_id, r),
        depth > 0 ==> def_outcome(ast, scope, *final(env), r),
        depth == 0 ==> r is Err && r->Err_0 is TooDeep,
        evals(ast, *old(env), scope as int, depth as nat, full_steps(), *final(env), r),
    decreases depth, 2nat,
{
    if depth == 0 {
        return Err(MalError::TooDeep);
    }
    match &ast {
        MalVal::List(l, _) => {
            if l.len() == 0 {
                return Ok(ast.share());
            }
        },
        _ => {
            return eval_ast(&ast, env, scope, depth);
        },
    }
    let ghost first_ast = ast;
    let ghost first_scope = scope;
    let mut ast = ast;
    let mut scope = scope;
    let mut steps: u64 = u64::MAX;
    let mut first = true;
    loop
        invariant
            extends(*old(env), *env),
            scope < env.scopes@.len(),
            depth > 0,
            first ==> ast == first_ast && scope == first_scope && *env == *old(env) && steps == u64::MAX,
            !first ==> forall|r: MalResult| #[trigger] special_outcome(first_ast, first_scope, old(env).next_id, r),
            !first ==> forall|e1: Env, r: MalResult| #[trigger] def_outcome(first_ast, first_scope, e1, r),
            forall|e1: Env, r: MalResult|
                evals(ast, *env, scope as int, depth as nat, steps as nat, e1, r) ==> #[trigger] evals(
                    first_ast,
                    *old(env),
                    first_scope as int,
                    depth as nat,
                    full_steps(),
                    e1,
                    r,
                ),
        decreases steps,
    {
        proof {
            lemma_form_names();
        }
        let ghost cur_ast = ast;
        let ghost cur_env = *env;
        let ghost cur_scope = scope;
        let ghost cur_steps = steps;
        let l = match &ast {
            MalVal::List(l, _) => {
                if l.len() == 0 {
                    proof {
                        assert(evals(cur_ast, cur_env, cur_scope as int, depth as nat, cur_steps as nat, *env, Ok::<MalVal, MalError>(ast)));
                    }
                    return Ok(ast.share());
                }
                Rc::clone(l)
            },
            _ => {
                let ghost before = *env;
                let r = eval_ast(&ast, env, scope, depth);
                proof {
                    lemma_extends_trans(*old(env), before, *env);
                    assert(evals(cur_ast, cur_env, cur_scope as int, depth as nat, cur_steps as nat, *env, r));
                }
                return r;
            },
        };
        if steps == 0 {
            proof {
                assert(evals(cur_ast, cur_env, cur_scope as int, depth as nat, cur_steps as nat, *env, Err::<MalVal, MalError>(MalError::TooDeep)));
            }
            return Err(MalError::TooDeep);
        }
        steps = steps - 1;
        let special = special_of(&l[0]);
        proof {
            assert(l@ == cur_ast->List_0@);
            assert(head_form(l@[0]) == special);
        }
        proof {
            if first {
                assert(l@ == first_ast->List_0@);
            }
        }
        let ghost before = *env;
        match special {
            Some(Special::Def) => {
                let r = special_def(&l, env, scope, depth);
                proof {
                    lemma_extends_trans(*old(env), before, *env);
                    assert(evals(cur_ast, cur_env, cur_scope as int, depth as nat, cur_steps as nat, *env, r));
                }
                return r;
            },
            Some(Special::Fn) => {
                let r = special_fn(&l, env, scope);
                proof {
                    lemma_extends_trans(*old(env), before, *env);
                    assert(evals(cur_ast, cur_env, cur_scope as int, depth as nat, cur_steps as nat, *env, r));
                }
                return r;
            },
            Some(Special::Let) => {
                let lr = special_let(&l, env, scope, depth);
                let ghost eb = *env;
                let ghost rr = if lr is Ok {
                    Ok::<int, MalError>(lr->Ok_0.1 as int)
                } else {
                    Err::<int, MalError>(lr->Err_0)
                };
                proof {
                    lemma_extends_trans(*old(env), before, *env);
                    assert(witness(eb) && witness(rr));
                }
                match lr {
                    Ok((body, s2)) => {
                        proof {
                            assert forall|e1: Env, r: MalResult|
                                evals(body, eb, s2 as int, depth as nat, steps as nat, e1, r) implies #[trigger] evals(
                                    first_ast,
                                    *old(env),
                                    first_scope as int,
                                    depth as nat,
                                    full_steps(),
                                    e1,
                                    r,
                                ) by {
                                assert(evals(cur_ast, cur_env, cur_scope as int, depth as nat, cur_steps as nat, e1, r));
                            }
                        }
                        ast = body;
                        scope = s2;
                    },
                    Err(e) => {
                        proof {
                            assert(evals(cur_ast, cur_env, cur_scope as int, depth as nat, cur_steps as nat, *env, Err::<MalVal, MalError>(e)));
                        }
                        return Err(e);
                    },
                }
            },
            Some(Special::Do) => {
                let n = l.len();
                if n < 2 {
                    let e = MalError::WrongArity(String::from_str("do"), Arity::Variadic(1), 0);
                    proof {
                        assert(evals(cur_ast, cur_env, cur_scope as int, depth as nat, cur_steps as nat, *env, Err::<MalVal, MalError>(e)));
                    }
                    return Err(e);
                }
                let ghost sub = l@.subrange(1, n - 1);
                let ghost mut vals: Seq<MalVal> = Seq::empty();
                let mut i: usize = 1;
                while i < n - 1
                    invariant
                        n == l@.len(),
                        1 <= i <= n - 1,
                        extends(*old(env), *env),
                        scope < env.scopes@.len(),
                        depth > 0,
                        sub == l@.subrange(1, n - 1),
                        items_evals(sub, (i - 1) as nat, cur_env, scope as int, depth as nat, *env, Ok(vals)),
                    decreases n - 1 - i,
                {
                    let ghost b2 = *env;
                    let r = eval_in(l[i].share(), env, scope, depth - 1);
                    proof {
                        lemma_extends_trans(*old(env), b2, *env);
                        assert(sub[i - 1] == l@[i as int]);
                        lemma_items_step(sub, (i - 1) as nat, cur_env, scope as int, depth as nat, b2, vals, *env, r);
                    }
                    match r {
                        Ok(v) => {
                            proof {
                                vals = vals.push(v);
                            }
                        },
                        Err(e) => {
                            proof {
                                lemma_items_stop(sub, i as nat, (n - 2) as nat, cur_env, scope as int, depth as nat, *env, e);
                                assert(witness(*env) && witness(Err::<Seq<MalVal>, MalError>(e)));
                                assert(evals(cur_ast, cur_env, cur_scope as int, depth as nat, cur_steps as nat, *env, Err::<MalVal, MalError>(e)));
                            }
                            return Err(e);
                        },
                    }
                    i = i + 1;
                }
                ast = l[n - 1].share();
                proof {
                    let eb = *env;
                    assert(witness(eb) && witness(Ok::<Seq<MalVal>, MalError>(vals)));
                    assert forall|e1: Env, r: MalResult|
                        evals(ast, eb, scope as int, depth as nat, steps as nat, e1, r) implies #[trigger] evals(
                            first_ast,
                            *old(env),
                            first_scope as int,
                            depth as nat,
                            full_steps(),
                            e1,
                            r,
                        ) by {
                        assert(evals(cur_ast, cur_env, cur_scope as int, depth as nat, cur_steps as nat, e1, r));
                    }
                }
            },
            Some(Special::If) => {
                let n = l.len();
                if n < 3 || n > 4 {
                    let e = MalError::WrongArity(String::from_str("if"), Arity::JustOrOneLess(3), n - 1);
                    proof {
                        assert(evals(cur_ast, cur_env, cur_scope as int, depth as nat, cur_steps as nat, *env, Err::<MalVal, MalError>(e)));
                    }
                    return Err(e);
                }
                let c = eval_in(l[1].share(), env, scope, depth - 1);
                let ghost ec = *env;
                proof {
                    lemma_extends_trans(*old(env), before, *env);
                    assert(witness(ec) && witness(c));
                }
                match c {
                    Ok(c) => {
                        ast = if_branch(&l, &c);
                        proof {
                            assert forall|e1: Env, r: MalResult|
                                evals(ast, ec, scope as int, depth as nat, steps as nat, e1, r) implies #[trigger] evals(
                                    first_ast,
                                    *old(env),
                                    first_scope as int,
                                    depth as nat,
                                    full_steps(),
                                    e1,
                                    r,
                                ) by {
                                assert(evals(cur_ast, cur_env, cur_scope as int, depth as nat, cur_steps as nat, e1, r));
                            }
                        }
                    },
                    Err(e) => {
                        proof {
                            assert(evals(cur_ast, cur_env, cur_scope as int, depth as nat, cur_steps as nat, *env, Err::<MalVal, MalError>(e)));
                        }
                        return Err(e);
                    },
                }
            },
            Some(Special::Eval) => {
                let n = l.len();
                if n != 2 {
                    let e = MalError::WrongArity(String::from_str("eval"), Arity::Fixed(1), n - 1);
                    proof {
                        assert(evals(cur_ast, cur_env, cur_scope as int, depth as nat, cur_steps as nat, *env, Err::<MalVal, MalError>(e)));
                    }
                    return Err(e);
                }
                let f = eval_in(l[1].share(), env, scope, depth - 1);
                let ghost ef = *env;
                proof {
                    lemma_extends_trans(*old(env), before, *env);
                    assert(witness(ef) && witness(f));
                }
                match f {
                    Ok(f) => {
                        ast = f;
                        scope = env.global();
                        proof {
                            assert forall|e1: Env, r: MalResult|
                                evals(ast, ef, scope as int, depth as nat, steps as nat, e1, r) implies #[trigger] evals(
                                    first_ast,
                                    *old(env),
                                    first_scope as int,
                                    depth as nat,
                                    full_steps(),
                                    e1,
                                    r,
                                ) by {
                                assert(evals(cur_ast, cur_env, cur_scope as int, depth as nat, cur_steps as nat, e1, r));
                            }
                        }
                    },
                    Err(e) => {
                        proof {
                            assert(evals(cur_ast, cur_env, cur_scope as int, depth as nat, cur_steps as nat, *env, Err::<MalVal, MalError>(e)));
                        }
                        return Err(e);
                    },
                }
            },
            None => {
                let ires = eval_items(&l, env, scope, depth);
                let ghost ei = *env;
                proof {
                    lemma_extends_trans(*old(env), before, *env);
                    assert(witness(ei) && witness(seq_result(ires)));
                }
                let items = match ires {
                    Ok(items) => items,
                    Err(e) => {
                        proof {
                            assert(evals(cur_ast, cur_env, cur_scope as int, depth as nat, cur_steps as nat, *env, Err::<MalVal, MalError>(e)));
                        }
                        return Err(e);
                    },
                };
                let mut args: Vec<MalVal> = Vec::new();
                let mut k: usize = 1;
                while k < items.len()
                    invariant
                        1 <= k <= items@.len(),
                        args@ == items@.subrange(1, k as int),
                    decreases items@.len() - k,
                {
                    args.push(items[k].share());
                    assert(args@ =~= items@.subrange(1, k + 1));
                    k = k + 1;
                }
                assert(args@ =~= items@.drop_first());
                match &items[0] {
                    MalVal::BuiltinFn(f) => {
                        let ghost b3 = *env;
                        let r = call_builtin(*f, &args, env);
                        proof {
                            assert(extends(b3, *env));
                            lemma_extends_trans(*old(env), b3, *env);
                            assert(b3 == ei);
                            assert(items@[0] is BuiltinFn);
                            assert(applies(items@, ei, depth as nat, steps as nat, *env, r));
                            assert(list_evals(l@, cur_env, cur_scope as int, depth as nat, steps as nat, *env, r));
                            assert(evals(cur_ast, cur_env, cur_scope as int, depth as nat, cur_steps as nat, *env, r));
                        }
                        return r;
                    },
                    MalVal::Func(c, _) => {
                        if let Err(e) = check_arity(c.params.len(), c.rest.is_some(), args.len()) {
                            proof {
                                assert(*env == ei);
                                assert(applies(items@, ei, depth as nat, steps as nat, *env, Err::<MalVal, MalError>(e)));
                                assert(list_evals(l@, cur_env, cur_scope as int, depth as nat, steps as nat, *env, Err::<MalVal, MalError>(e)));
                                assert(evals(cur_ast, cur_env, cur_scope as int, depth as nat, cur_steps as nat, *env, Err::<MalVal, MalError>(e)));
                            }
                            return Err(e);
                        }
                        if c.env >= env.scopes.len() {
                            proof {
                                assert(*env == ei);
                                assert(applies(items@, ei, depth as nat, steps as nat, *env, Err::<MalVal, MalError>(MalError::Dangling)));
                                assert(list_evals(l@, cur_env, cur_scope as int, depth as nat, steps as nat, *env, Err::<MalVal, MalError>(MalError::Dangling)));
                                assert(evals(cur_ast, cur_env, cur_scope as int, depth as nat, cur_steps as nat, *env, Err::<MalVal, MalError>(MalError::Dangling)));
                            }
                            return Err(MalError::Dangling);
                        }
                        let ghost b3 = *env;
                        let s2 = env.with_bind(c.env, &c.params, &c.rest, &args);
                        let ghost eb = *env;
                        proof {
                            lemma_extends_trans(*old(env), b3, *env);
                            assert forall|k: int| 0 <= k < b3.scopes@.len() implies #[trigger] eb.scopes@[k] == b3.scopes@[k] by {}
                            assert(witness(eb));
                        }
                        ast = c.body.share();
                        scope = s2;
                        proof {
                            assert forall|e1: Env, r: MalResult|
                                evals(ast, eb, scope as int, depth as nat, steps as nat, e1, r) implies #[trigger] evals(
                                    first_ast,
                                    *old(env),
                                    first_scope as int,
                                    depth as nat,
                                    full_steps(),
                                    e1,
                                    r,
                                ) by {
                                assert(b3 == ei);
                                assert(applies(items@, ei, depth as nat, steps as nat, e1, r));
                                assert(list_evals(l@, cur_env, cur_scope as int, depth as nat, steps as nat, e1, r));
                                assert(evals(cur_ast, cur_env, cur_scope as int, depth as nat, cur_steps as nat, e1, r));
                            }
                        }
                    },
                    other => {
                        let e = invalid_type(other, "function");
                        proof {
                            assert(*env == ei);
                            assert(applies(items@, ei, depth as nat, steps as nat, *env, Err::<MalVal, MalError>(e)));
                            assert(list_evals(l@, cur_env, cur_scope as int, depth as nat, steps as nat, *env, Err::<MalVal, MalError>(e)));
                            assert(evals(cur_ast, cur_env, cur_scope as int, depth as nat, cur_steps as nat, *env, Err::<MalVal, MalError>(e)));
                        }
                        return Err(e);
                    },
                }
            },
        }
        first = false;
    }
}

/// Reads a form from text.
#[allow(non_snake_case)]
pub fn READ(input: String) -> (r: MalResult)
    ensures
        read_outcome(input@, r),
{
    read_str(input)
}

/// Evaluates a form in scope `scope` of the interpreter state `env`.
#[allow(non_snake_case)]
pub fn EVAL(input: MalVal, env: &mut Env, scope: usize) -> (r: MalResult)
    requires
        old(env).wf(),
        scope < old(env).scopes@.len(),
    ensures
        extends(*old(env), *final(env)),
        special_outcome(input, scope, old(env).next_id, r),
        def_outcome(input, scope, *final(env), r),
        evals(input, *old(env), scope as int, MAX_DEPTH as nat, full_steps(), *final(env), r),
{
    eval_in(input, env, scope, MAX_DEPTH)
}

/// The readable printed form of a value.
#[allow(non_snake_case)]
pub fn PRINT(input: &MalVal) -> (r: String)
    ensures
        r@ == print_spec(*input, true),
{
    pr_str(input, true)
}

/// Reads a form from text, evaluates it in the global scope and prints the
/// result readably.
pub fn rep(input: String, env: &mut Env) -> (r: Result<String, MalError>)
    requires
        old(env).wf(),
    ensures
        extends(*old(env), *final(env)),
        tokens_from(input@, 0).len() == 0 ==> (r is Err && r->Err_0 is NoInput),
        scan_form(tokens_from(input@, 0), 0) matches Scan::Fails(f) ==> (r is Err && fails_with(r->Err_0, f)
            && *final(env) == *old(env)),
        scan_form(tokens_from(input@, 0), 0) matches Scan::Ends(q) ==> exists|form: MalVal, er: MalResult|
            #![trigger witness(form), witness(er)]
            reads(tokens_from(input@, 0), 0, form, q) && evals(form, *old(env), 0, MAX_DEPTH as nat, full_steps(), *final(env), er)
                && match er {
                Ok(v) => r is Ok && r->Ok_0@ == print_spec(v, true),
                Err(e) => r == Err::<String, MalError>(e),
            },
{
    let form = match READ(input) {
        Ok(v) => v,
        Err(e) => {
            return Err(e);
        },
    };
    let ghost f = form;
    let g = env.global();
    let er = EVAL(form, env, g);
    proof {
        assert(witness(f) && witness(er));
    }
    match er {
        Ok(v) => Ok(PRINT(&v)),
        Err(e) => Err(e),
    }
}

} // verus!
