use vstd::prelude::*;

use crate::types::MalVal;

verus! {

/// One scope: its own bindings and the scope it is nested in. A name is
/// looked up as its last binding in `table`, and `set` replaces that binding
/// in place, so a name bound twice (a call that names one parameter twice)
/// resolves to the later binding, as inserting into a map would.
pub struct Scope {
    pub outer: Option<usize>,
    pub table: Vec<(String, MalVal)>,
}

/// Every scope and mutable cell of a running interpreter. A scope or a cell
/// is named by its index; the global scope is index 0. Scopes are only ever
/// added, so an index stays valid for as long as the `Env` lives.
pub struct Env {
    pub scopes: Vec<Scope>,
    pub cells: Vec<MalVal>,
    pub next_id: usize,
    /// Lines that printing procedures produced and nobody has shown yet.
    pub printed: Vec<String>,
}

/// The position of the last binding of `k` in a table, or -1.
pub open spec fn table_index(t: Seq<(String, MalVal)>, k: Seq<char>) -> int
    decreases t.len(),
{
    if t.len() == 0 {
        -1
    } else if t.last().0@ == k {
        t.len() - 1
    } else {
        table_index(t.drop_last(), k)
    }
}

/// The table after binding `k` to `v`: an existing binding of `k` takes the
/// new value in place, otherwise the binding is appended.
pub open spec fn table_set(t: Seq<(String, MalVal)>, k: String, v: MalVal) -> Seq<(String, MalVal)> {
    let j = table_index(t, k@);
    if j >= 0 {
        t.update(j, (t[j].0, v))
    } else {
        t.push((k, v))
    }
}

pub proof fn lemma_table_index(t: Seq<(String, MalVal)>, k: Seq<char>)
    ensures
        -1 <= table_index(t, k) < t.len(),
        table_index(t, k) >= 0 ==> t[table_index(t, k)].0@ == k,
        table_index(t, k) == -1 ==> forall|j: int| 0 <= j < t.len() ==> (#[trigger] t[j]).0@ != k,
    decreases t.len(),
{
    if t.len() > 0 {
        lemma_table_index(t.drop_last(), k);
        assert(t.last() == t[t.len() - 1]);
        assert forall|j: int| 0 <= j < t.len() - 1 implies t[j] == #[trigger] t.drop_last()[j] by {}
        if table_index(t, k) == -1 {
            assert forall|j: int| 0 <= j < t.len() implies (#[trigger] t[j]).0@ != k by {
                if j < t.len() - 1 {
                    assert(t[j] == t.drop_last()[j]);
                }
            }
        }
    }
}

/// Where the last binding of `key` in a table stands.
fn table_position(t: &Vec<(String, MalVal)>, key: &String) -> (r: Option<usize>)
    ensures
        match r {
            Some(j) => j < t@.len() && j as int == table_index(t@, key@),
            None => table_index(t@, key@) == -1,
        },
{
    let mut j = t.len();
    proof {
        assert(t@.subrange(0, j as int) =~= t@);
    }
    while j > 0
        invariant
            j <= t@.len(),
            table_index(t@, key@) == table_index(t@.subrange(0, j as int), key@),
        decreases j,
    {
        proof {
            assert(t@.subrange(0, j as int).drop_last() =~= t@.subrange(0, j - 1));
        }
        if t[j - 1].0 == *key {
            return Some(j - 1);
        }
        j = j - 1;
    }
    None
}

/// Lookups in a table depend on its keys alone.
pub proof fn lemma_table_index_keys(t1: Seq<(String, MalVal)>, t2: Seq<(String, MalVal)>, k: Seq<char>)
    requires
        t1.len() == t2.len(),
        forall|j: int| 0 <= j < t1.len() ==> (#[trigger] t1[j]).0@ == t2[j].0@,
    ensures
        table_index(t1, k) == table_index(t2, k),
    decreases t1.len(),
{
    if t1.len() > 0 {
        assert(t1.last() == t1[t1.len() - 1]);
        assert(t2.last() == t2[t2.len() - 1]);
        assert forall|j: int| 0 <= j < t1.len() - 1 implies (#[trigger] t1.drop_last()[j]).0@
            == t2.drop_last()[j].0@ by {
            assert(t1.drop_last()[j] == t1[j]);
            assert(t2.drop_last()[j] == t2[j]);
        }
        lemma_table_index_keys(t1.drop_last(), t2.drop_last(), k);
    }
}

/// What `k` is bound to in `t` after `table_set(t, key, v)`.
pub proof fn lemma_table_set(t: Seq<(String, MalVal)>, key: String, v: MalVal, k: Seq<char>)
    ensures
        ({
            let t2 = table_set(t, key, v);
            let j = table_index(t2, k);
            if k == key@ {
                j >= 0 && t2[j].1 == v
            } else {
                j == table_index(t, k) && (j >= 0 ==> t2[j] == t[j])
            }
        }),
{
    lemma_table_index(t, key@);
    let j0 = table_index(t, key@);
    let t2 = table_set(t, key, v);
    if j0 >= 0 {
        assert forall|j: int| 0 <= j < t.len() implies (#[trigger] t[j]).0@ == t2[j].0@ by {}
        lemma_table_index_keys(t, t2, k);
        lemma_table_index(t, k);
    } else {
        assert(t2.drop_last() =~= t);
        assert(t2.last() == (key, v));
        lemma_table_index(t, k);
    }
}

impl Env {
    /// Every scope but the global one is nested in an earlier scope.
    pub open spec fn wf(&self) -> bool {
        &&& self.scopes@.len() >= 1
        &&& self.scopes@[0].outer is None
        &&& forall|i: int|
            0 < i < self.scopes@.len() ==> (#[trigger] self.scopes@[i]).outer is Some
                && self.scopes@[i].outer->0 < i
    }

    /// What `k` resolves to from scope `s`: its own binding, else what it
    /// resolves to from the enclosing scope.
    pub open spec fn lookup(&self, s: int, k: Seq<char>) -> Option<MalVal>
        decreases s,
    {
        if !(0 <= s < self.scopes@.len()) {
            None
        } else {
            let t = self.scopes@[s].table@;
            let j = table_index(t, k);
            if j >= 0 {
                Some(t[j].1)
            } else {
                match self.scopes@[s].outer {
                    Some(o) => if o < s {
                        self.lookup(o as int, k)
                    } else {
                        None
                    },
                    None => None,
                }
            }
        }
    }

    /// An interpreter state holding only an empty global scope.
    pub fn new() -> (r: Env)
        ensures
            r.wf(),
            r.scopes@.len() == 1,
            r.scopes@[0].table@.len() == 0,
            r.cells@.len() == 0,
            r.printed@.len() == 0,
    {
        let mut scopes: Vec<Scope> = Vec::new();
        scopes.push(Scope { outer: None, table: Vec::new() });
        Env { scopes, cells: Vec::new(), next_id: 0, printed: Vec::new() }
    }

    /// Adds an empty scope nested in `outer` and returns its index.
    pub fn push_scope(&mut self, outer: usize) -> (r: usize)
        requires
            old(self).wf(),
            outer < old(self).scopes@.len(),
        ensures
            final(self).wf(),
            r == old(self).scopes@.len(),
            final(self).scopes@ == old(self).scopes@.push(
                Scope { outer: Some(outer), table: final(self).scopes@[r as int].table },
            ),
            final(self).scopes@[r as int].table@.len() == 0,
            final(self).cells == old(self).cells,
            final(self).printed == old(self).printed,
            final(self).next_id == old(self).next_id,
    {
        let r = self.scopes.len();
        self.scopes.push(Scope { outer: Some(outer), table: Vec::new() });
        r
    }

    /// Adds a scope nested in `outer` that binds each parameter to the
    /// argument at its position and, when a rest name is given, the rest name
    /// to a list of the arguments past the fixed parameters.
    pub fn with_bind(
        &mut self,
        outer: usize,
        params: &Vec<String>,
        variadic: &Option<String>,
        args: &Vec<MalVal>,
    ) -> (r: usize)
        requires
            old(self).wf(),
            outer < old(self).scopes@.len(),
            variadic is None ==> args@.len() == params@.len(),
            variadic is Some ==> args@.len() >= params@.len(),
        ensures
            final(self).wf(),
            r == old(self).scopes@.len(),
            final(self).scopes@.len() == r + 1,
            forall|i: int| 0 <= i < r ==> #[trigger] final(self).scopes@[i] == old(self).scopes@[i],
            final(self).scopes@[r as int].outer == Some(outer),
            binds(final(self).scopes@[r as int].table@, params@, *variadic, args@),
            final(self).cells == old(self).cells,
            final(self).printed == old(self).printed,
            final(self).next_id == old(self).next_id,
    {
        let mut table: Vec<(String, MalVal)> = Vec::new();
        let mut i: usize = 0;
        while i < params.len()
            invariant
                i <= params@.len(),
                params@.len() <= args@.len(),
                table@.len() == i,
                forall|m: int| 0 <= m < i ==> #[trigger] table@[m] == (params@[m], args@[m]),
            decreases params@.len() - i,
        {
            table.push((params[i].clone(), args[i].share()));
            proof {
                assert(table@[i as int] == (params@[i as int], args@[i as int]));
            }
            i = i + 1;
        }
        match variadic {
            Some(name) => {
                let mut rest: Vec<MalVal> = Vec::new();
                let mut k = i;
                while k < args.len()
                    invariant
                        i <= k <= args@.len(),
                        rest@ == args@.subrange(i as int, k as int),
                    decreases args@.len() - k,
                {
                    rest.push(args[k].share());
                    assert(rest@ =~= args@.subrange(i as int, k + 1));
                    k = k + 1;
                }
                table.push((name.clone(), MalVal::list(rest)));
            },
            None => {},
        }
        let r = self.scopes.len();
        self.scopes.push(Scope { outer: Some(outer), table });
        r
    }

    /// What `key` resolves to from scope `s`.
    pub fn get(&self, s: usize, key: &String) -> (r: Option<MalVal>)
        requires
            self.wf(),
        ensures
            r == self.lookup(s as int, key@),
    {
        if s >= self.scopes.len() {
            return None;
        }
        let mut cur = s;
        loop
            invariant
                self.wf(),
                cur < self.scopes@.len(),
                self.lookup(s as int, key@) == self.lookup(cur as int, key@),
            decreases cur,
        {
            match table_position(&self.scopes[cur].table, key) {
                Some(j) => {
                    return Some(self.scopes[cur].table[j].1.share());
                },
                None => {},
            }
            match self.scopes[cur].outer {
                Some(o) => {
                    cur = o;
                },
                None => {
                    return None;
                },
            }
        }
    }

    /// Binds `key` to `val` in scope `s` alone.
    pub fn set(&mut self, s: usize, key: String, val: MalVal)
        requires
            old(self).wf(),
            s < old(self).scopes@.len(),
        ensures
            final(self).wf(),
            final(self).scopes@.len() == old(self).scopes@.len(),
            forall|i: int| 0 <= i < old(self).scopes@.len() && i != s ==> #[trigger] final(self).scopes@[i] == old(self).scopes@[i],
            final(self).scopes@[s as int].outer == old(self).scopes@[s as int].outer,
            final(self).scopes@[s as int].table@ == table_set(old(self).scopes@[s as int].table@, key, val),
            final(self).cells == old(self).cells,
            final(self).printed == old(self).printed,
            final(self).next_id == old(self).next_id,
    {
        let mut scope = Scope { outer: None, table: Vec::new() };
        std::mem::swap(&mut scope, &mut self.scopes[s]);
        let found = table_position(&scope.table, &key);
        proof {
            lemma_table_index(scope.table@, key@);
        }
        match found {
            Some(at) => {
                let k = scope.table[at].0.clone();
                scope.table.set(at, (k, val));
            },
            None => {
                scope.table.push((key, val));
            },
        }
        std::mem::swap(&mut scope, &mut self.scopes[s]);
    }

    /// The outermost scope.
    pub fn global(&self) -> (r: usize)
        requires
            self.wf(),
        ensures
            r == 0,
            self.scopes@[r as int].outer is None,
    {
        0
    }
}

/// `t` is the table of a call's scope: each parameter bound positionally to
/// its argument, then the rest name, if any, bound to a list of the
/// remaining arguments.
pub open spec fn binds(t: Seq<(String, MalVal)>, params: Seq<String>, rest: Option<String>, args: Seq<MalVal>) -> bool {
    let n = params.len() as int;
    &&& t.len() == n + (if rest is Some { 1int } else { 0int })
    &&& forall|i: int| 0 <= i < n ==> #[trigger] t[i] == (params[i], args[i])
    &&& rest is Some ==> (t[n].0 == rest->0 && (t[n].1 matches MalVal::List(l, m) && l@ == args.subrange(
        n,
        args.len() as int,
    ) && *m == MalVal::Nil))
}


/// Lookups from a scope depend only on that scope and the scopes before it.
pub proof fn lemma_lookup_below(e1: Env, e2: Env, s: int, j: int, k: Seq<char>)
    requires
        e1.wf(),
        e2.wf(),
        e1.scopes@.len() == e2.scopes@.len(),
        forall|i: int| 0 <= i < e1.scopes@.len() && i != s ==> #[trigger] e2.scopes@[i] == e1.scopes@[i],
        0 <= j < s < e1.scopes@.len(),
    ensures
        e2.lookup(j, k) == e1.lookup(j, k),
    decreases j,
{
    assert(e2.scopes@[j] == e1.scopes@[j]);
    match e1.scopes@[j].outer {
        Some(o) => {
            if o < j {
                lemma_lookup_below(e1, e2, s, o as int, k);
            }
        },
        None => {},
    }
}

/// Binding a name in a scope never changes what any name resolves to from
/// a scope that it is nested in (or from any earlier scope): an inner binding
/// shadows an outer one and leaves it as it was.
pub proof fn law_inner_binding_keeps_outer(
    e1: Env,
    e2: Env,
    s: int,
    key: String,
    val: MalVal,
    outer: int,
    k: Seq<char>,
)
    requires
        e1.wf(),
        0 <= s < e1.scopes@.len(),
        // `e2` is `e1` after `set(s, key, val)`, as that method ensures.
        e2.wf(),
        e2.scopes@.len() == e1.scopes@.len(),
        forall|i: int| 0 <= i < e1.scopes@.len() && i != s ==> #[trigger] e2.scopes@[i] == e1.scopes@[i],
        e2.scopes@[s].outer == e1.scopes@[s].outer,
        e2.scopes@[s].table@ == table_set(e1.scopes@[s].table@, key, val),
        0 <= outer < s,
    ensures
        e2.scopes@[outer] == e1.scopes@[outer],
        e2.lookup(outer, k) == e1.lookup(outer, k),
        e2.lookup(s, key@) == Some(val),
{
    lemma_lookup_below(e1, e2, s, outer, k);
    lemma_table_set(e1.scopes@[s].table@, key, val, key@);
}

} // verus!
