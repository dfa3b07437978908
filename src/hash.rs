use std::hash::Hasher;
use vstd::prelude::*;

use crate::types::{
    assoc, assoc_all, elem_found, elems_distinct, elem_in, entries_of, entry_found, entry_in, items_of, key_index, keys_distinct,
    lemma_entry_child, lemma_item_child, lemma_key_index_range, lemma_map_eq, lemma_set_eq, val_eq,
    Builtin, MalVal,
};

verus! {

/// The 64-bit FNV-1a hash of a byte string.
pub uninterp spec fn fnv1a(bytes: Seq<u8>) -> u64;

/// Relies on `fnv::FnvHasher`: a default hasher that is written `bytes` and
/// then finished gives a value that depends on the bytes alone.
#[verifier::external_body]
fn fnv_hash(bytes: &Vec<u8>) -> (r: u64)
    ensures
        r == fnv1a(bytes@),
{
    let mut h = fnv::FnvHasher::default();
    h.write(bytes.as_slice());
    h.finish()
}

/// The low `n` bytes of `x`, least significant first.
pub open spec fn le_bytes(x: nat, n: nat) -> Seq<u8>
    decreases n,
{
    if n == 0 {
        Seq::empty()
    } else {
        seq![(x % 256) as u8] + le_bytes(x / 256, (n - 1) as nat)
    }
}

/// Each character as the four bytes of its code point.
pub open spec fn chars_bytes(s: Seq<char>) -> Seq<u8>
    decreases s.len(),
{
    if s.len() == 0 {
        Seq::empty()
    } else {
        chars_bytes(s.drop_last()) + le_bytes(s.last() as u32 as nat, 4)
    }
}

/// The position of a procedure among all procedures.
pub open spec fn builtin_index(f: Builtin) -> u8 {
    match f {
        Builtin::Add => 0,
        Builtin::Sub => 1,
        Builtin::Mul => 2,
        Builtin::Div => 3,
        Builtin::List => 4,
        Builtin::IsList => 5,
        Builtin::IsEmpty => 6,
        Builtin::Count => 7,
        Builtin::Equal => 8,
        Builtin::Lt => 9,
        Builtin::Le => 10,
        Builtin::Gt => 11,
        Builtin::Ge => 12,
        Builtin::PrStr => 13,
        Builtin::Str => 14,
        Builtin::Prn => 15,
        Builtin::Println => 16,
        Builtin::Atom => 17,
        Builtin::IsAtom => 18,
        Builtin::Deref => 19,
        Builtin::Reset => 20,
        Builtin::ReadString => 21,
        Builtin::Cons => 22,
    }
}

/// The hashes of the first `n` elements of a list or vector, as bytes.
pub open spec fn items_bytes(v: MalVal, n: nat) -> Seq<u8>
    decreases v, n,
{
    if n == 0 || n > items_of(v).len() {
        Seq::empty()
    } else {
        items_bytes(v, (n - 1) as nat) + le_bytes(hash_spec(items_of(v)[n - 1]) as nat, 8)
    }
}

/// The sum of the hashes of the first `n` elements of a set.
pub open spec fn items_sum(v: MalVal, n: nat) -> int
    decreases v, n,
{
    if n == 0 || n > items_of(v).len() {
        0
    } else {
        items_sum(v, (n - 1) as nat) + hash_spec(items_of(v)[n - 1]) as int
    }
}

/// The sum of the hashes of the first `n` entries of a map; an entry hashes
/// its key's hash and its value's hash together.
pub open spec fn entries_sum(v: MalVal, n: nat) -> int
    decreases v, n,
{
    if n == 0 || n > entries_of(v).len() {
        0
    } else {
        let e = entries_of(v)[n - 1];
        entries_sum(v, (n - 1) as nat) + fnv1a(
            le_bytes(hash_spec(e.0) as nat, 8) + le_bytes(hash_spec(e.1) as nat, 8),
        ) as int
    }
}

/// A hash that agrees with structural equality: metadata takes no part, and
/// a map or a set combines its members' hashes by addition, so the order of
/// its members takes no part either.
pub open spec fn hash_spec(v: MalVal) -> u64
    decreases v, items_of(v).len() + entries_of(v).len() + 1,
{
    match v {
        MalVal::Nil => fnv1a(seq![0u8]),
        MalVal::Bool(b) => fnv1a(seq![1u8, if b { 1u8 } else { 0u8 }]),
        MalVal::Number(n) => fnv1a(seq![2u8] + le_bytes(n as u64 as nat, 8)),
        MalVal::String(s) => fnv1a(seq![3u8] + chars_bytes(s@)),
        MalVal::Keyword(s) => fnv1a(seq![4u8] + chars_bytes(s@)),
        MalVal::Symbol(s) => fnv1a(seq![5u8] + chars_bytes(s@)),
        MalVal::List(x, _) => fnv1a(seq![6u8] + items_bytes(v, x@.len())),
        MalVal::Vector(x, _) => fnv1a(seq![7u8] + items_bytes(v, x@.len())),
        MalVal::HashMap(x, _) => fnv1a(
            seq![8u8] + le_bytes(x@.len(), 8) + le_bytes((entries_sum(v, x@.len()) % 0x1_0000_0000_0000_0000) as nat, 8),
        ),
        MalVal::HashSet(x, _) => fnv1a(
            seq![9u8] + le_bytes(x@.len(), 8) + le_bytes((items_sum(v, x@.len()) % 0x1_0000_0000_0000_0000) as nat, 8),
        ),
        MalVal::BuiltinFn(f) => fnv1a(seq![10u8, builtin_index(f)]),
        MalVal::Func(c, _) => fnv1a(seq![11u8] + le_bytes(c.id as nat, 8)),
        MalVal::Atom(i) => fnv1a(seq![12u8] + le_bytes(i as nat, 8)),
    }
}

/// Appends the low `n` bytes of `x`, least significant first.
fn push_le(out: &mut Vec<u8>, x: u64, n: usize)
    requires
        n <= 8,
    ensures
        final(out)@ == old(out)@ + le_bytes(x as nat, n as nat),
{
    let mut y = x;
    let mut k: usize = 0;
    while k < n
        invariant
            k <= n,
            out@ + le_bytes(y as nat, (n - k) as nat) == old(out)@ + le_bytes(x as nat, n as nat),
        decreases n - k,
    {
        let ghost before = out@;
        out.push((y % 256) as u8);
        proof {
            assert(le_bytes(y as nat, (n - k) as nat) == seq![(y % 256) as u8] + le_bytes(
                (y / 256) as nat,
                (n - k - 1) as nat,
            ));
            assert(out@ + le_bytes((y / 256) as nat, (n - k - 1) as nat) =~= before + le_bytes(
                y as nat,
                (n - k) as nat,
            ));
        }
        y = y / 256;
        k = k + 1;
    }
    assert(out@ + le_bytes(y as nat, 0) =~= out@);
}

/// Appends the bytes of each character.
fn push_chars(out: &mut Vec<u8>, s: &String)
    ensures
        final(out)@ == old(out)@ + chars_bytes(s@),
{
    let cs = crate::printer::chars_of(s.as_str());
    let mut i: usize = 0;
    while i < cs.len()
        invariant
            i <= cs@.len(),
            cs@ == s@,
            out@ == old(out)@ + chars_bytes(cs@.subrange(0, i as int)),
        decreases cs@.len() - i,
    {
        assert(cs@.subrange(0, i + 1).drop_last() =~= cs@.subrange(0, i as int));
        let ghost before = out@;
        push_le(out, cs[i] as u32 as u64, 4);
        assert(out@ =~= old(out)@ + chars_bytes(cs@.subrange(0, i + 1)));
        i = i + 1;
    }
    assert(cs@.subrange(0, cs@.len() as int) =~= cs@);
}

fn builtin_byte(f: Builtin) -> (r: u8)
    ensures
        r == builtin_index(f),
{
    match f {
        Builtin::Add => 0,
        Builtin::Sub => 1,
        Builtin::Mul => 2,
        Builtin::Div => 3,
        Builtin::List => 4,
        Builtin::IsList => 5,
        Builtin::IsEmpty => 6,
        Builtin::Count => 7,
        Builtin::Equal => 8,
        Builtin::Lt => 9,
        Builtin::Le => 10,
        Builtin::Gt => 11,
        Builtin::Ge => 12,
        Builtin::PrStr => 13,
        Builtin::Str => 14,
        Builtin::Prn => 15,
        Builtin::Println => 16,
        Builtin::Atom => 17,
        Builtin::IsAtom => 18,
        Builtin::Deref => 19,
        Builtin::Reset => 20,
        Builtin::ReadString => 21,
        Builtin::Cons => 22,
    }
}

/// Appends the hashes of the elements of a list or vector.
fn push_item_hashes(out: &mut Vec<u8>, v: &MalVal, items: &Vec<MalVal>)
    requires
        items@ == items_of(*v),
    ensures
        final(out)@ == old(out)@ + items_bytes(*v, items@.len()),
    decreases *v, 0nat,
{
    let mut i: usize = 0;
    while i < items.len()
        invariant
            i <= items@.len(),
            items@ == items_of(*v),
            out@ == old(out)@ + items_bytes(*v, i as nat),
        decreases items@.len() - i,
    {
        proof {
            lemma_item_child(*v, i as int);
        }
        let h = hash_code(&items[i]);
        push_le(out, h, 8);
        assert(out@ =~= old(out)@ + items_bytes(*v, (i + 1) as nat));
        i = i + 1;
    }
}

/// The wrapped sum of the hashes of the elements of a set.
fn sum_item_hashes(v: &MalVal, items: &Vec<MalVal>) -> (r: u64)
    requires
        items@ == items_of(*v),
    ensures
        r as int == items_sum(*v, items@.len()) % 0x1_0000_0000_0000_0000,
    decreases *v, 0nat,
{
    let mut acc: u64 = 0;
    let mut i: usize = 0;
    while i < items.len()
        invariant
            i <= items@.len(),
            items@ == items_of(*v),
            acc as int == items_sum(*v, i as nat) % 0x1_0000_0000_0000_0000,
            items_sum(*v, i as nat) >= 0,
        decreases items@.len() - i,
    {
        proof {
            lemma_item_child(*v, i as int);
        }
        let h = hash_code(&items[i]);
        let ghost s = items_sum(*v, i as nat);
        proof {
            lemma_wrap_step(s, acc, h);
        }
        acc = acc.wrapping_add(h);
        i = i + 1;
    }
    acc
}

/// The wrapped sum of the hashes of the entries of a map.
fn sum_entry_hashes(v: &MalVal, entries: &Vec<(MalVal, MalVal)>) -> (r: u64)
    requires
        entries@ == entries_of(*v),
    ensures
        r as int == entries_sum(*v, entries@.len()) % 0x1_0000_0000_0000_0000,
    decreases *v, 0nat,
{
    let mut acc: u64 = 0;
    let mut i: usize = 0;
    while i < entries.len()
        invariant
            i <= entries@.len(),
            entries@ == entries_of(*v),
            acc as int == entries_sum(*v, i as nat) % 0x1_0000_0000_0000_0000,
            entries_sum(*v, i as nat) >= 0,
        decreases entries@.len() - i,
    {
        proof {
            lemma_entry_child(*v, i as int);
        }
        let hk = hash_code(&entries[i].0);
        let hv = hash_code(&entries[i].1);
        let mut bytes: Vec<u8> = Vec::new();
        push_le(&mut bytes, hk, 8);
        push_le(&mut bytes, hv, 8);
        assert(bytes@ =~= le_bytes(hk as nat, 8) + le_bytes(hv as nat, 8));
        let h = fnv_hash(&bytes);
        let ghost s = entries_sum(*v, i as nat);
        proof {
            lemma_wrap_step(s, acc, h);
        }
        acc = acc.wrapping_add(h);
        i = i + 1;
    }
    acc
}

proof fn lemma_wrap_step(s: int, acc: u64, h: u64)
    requires
        s >= 0,
        acc as int == s % 0x1_0000_0000_0000_0000,
    ensures
        acc.wrapping_add(h) as int == (s + h) % 0x1_0000_0000_0000_0000,
{
    let m: int = 0x1_0000_0000_0000_0000;
    assert((s + h) % m == (s % m + h) % m) by {
        vstd::arithmetic::div_mod::lemma_add_mod_noop(s, h as int, m);
        vstd::arithmetic::div_mod::lemma_small_mod(h as nat, m as nat);
    }
    if acc + h >= m {
        assert((acc + h) % m == acc + h - m) by {
            vstd::arithmetic::div_mod::lemma_mod_sub_multiples_vanish((acc + h) as int, m);
            vstd::arithmetic::div_mod::lemma_small_mod((acc + h - m) as nat, m as nat);
        }
    } else {
        vstd::arithmetic::div_mod::lemma_small_mod((acc + h) as nat, m as nat);
    }
}

/// A hash of a value that agrees with structural equality.
pub fn hash_code(v: &MalVal) -> (r: u64)
    ensures
        r == hash_spec(*v),
    decreases *v, 1nat,
{
    let mut bytes: Vec<u8> = Vec::new();
    match v {
        MalVal::Nil => {
            bytes.push(0);
        },
        MalVal::Bool(b) => {
            bytes.push(1);
            bytes.push(if *b { 1 } else { 0 });
        },
        MalVal::Number(n) => {
            bytes.push(2);
            push_le(&mut bytes, *n as u64, 8);
        },
        MalVal::String(s) => {
            bytes.push(3);
            push_chars(&mut bytes, s);
        },
        MalVal::Keyword(s) => {
            bytes.push(4);
            push_chars(&mut bytes, s);
        },
        MalVal::Symbol(s) => {
            bytes.push(5);
            push_chars(&mut bytes, s);
        },
        MalVal::List(x, _) => {
            bytes.push(6);
            push_item_hashes(&mut bytes, v, x);
        },
        MalVal::Vector(x, _) => {
            bytes.push(7);
            push_item_hashes(&mut bytes, v, x);
        },
        MalVal::HashMap(x, _) => {
            bytes.push(8);
            push_le(&mut bytes, x.len() as u64, 8);
            let s = sum_entry_hashes(v, x);
            push_le(&mut bytes, s, 8);
        },
        MalVal::HashSet(x, _) => {
            bytes.push(9);
            push_le(&mut bytes, x.len() as u64, 8);
            let s = sum_item_hashes(v, x);
            push_le(&mut bytes, s, 8);
        },
        MalVal::BuiltinFn(f) => {
            bytes.push(10);
            bytes.push(builtin_byte(*f));
        },
        MalVal::Func(c, _) => {
            bytes.push(11);
            push_le(&mut bytes, c.id as u64, 8);
        },
        MalVal::Atom(i) => {
            bytes.push(12);
            push_le(&mut bytes, *i as u64, 8);
        },
    }
    proof {
        assert(bytes@ =~= match *v {
            MalVal::Nil => seq![0u8],
            MalVal::Bool(b) => seq![1u8, if b { 1u8 } else { 0u8 }],
            MalVal::Number(n) => seq![2u8] + le_bytes(n as u64 as nat, 8),
            MalVal::String(s) => seq![3u8] + chars_bytes(s@),
            MalVal::Keyword(s) => seq![4u8] + chars_bytes(s@),
            MalVal::Symbol(s) => seq![5u8] + chars_bytes(s@),
            MalVal::List(x, _) => seq![6u8] + items_bytes(*v, x@.len()),
            MalVal::Vector(x, _) => seq![7u8] + items_bytes(*v, x@.len()),
            MalVal::HashMap(x, _) => seq![8u8] + le_bytes(x@.len(), 8) + le_bytes(
                (entries_sum(*v, x@.len()) % 0x1_0000_0000_0000_0000) as nat,
                8,
            ),
            MalVal::HashSet(x, _) => seq![9u8] + le_bytes(x@.len(), 8) + le_bytes(
                (items_sum(*v, x@.len()) % 0x1_0000_0000_0000_0000) as nat,
                8,
            ),
            MalVal::BuiltinFn(f) => seq![10u8, builtin_index(f)],
            MalVal::Func(c, _) => seq![11u8] + le_bytes(c.id as nat, 8),
            MalVal::Atom(i) => seq![12u8] + le_bytes(i as nat, 8),
        });
    }
    fnv_hash(&bytes)
}


/// Every value is structurally equal to itself.
pub proof fn lemma_val_eq_refl(v: MalVal)
    ensures
        val_eq(v, v),
    decreases v,
{
    match v {
        MalVal::List(x, _) => {
            assert forall|i: int| 0 <= i < x@.len() implies val_eq(#[trigger] x@[i], x@[i]) by {
                lemma_item_child(v, i);
                lemma_val_eq_refl(x@[i]);
            }
        },
        MalVal::Vector(x, _) => {
            assert forall|i: int| 0 <= i < x@.len() implies val_eq(#[trigger] x@[i], x@[i]) by {
                lemma_item_child(v, i);
                lemma_val_eq_refl(x@[i]);
            }
        },
        MalVal::HashMap(x, _) => {
            assert forall|i: int| #![trigger entries_of(v)[i]] 0 <= i < entries_of(v).len() implies entry_in(
                entries_of(v)[i],
                entries_of(v),
            ) by {
                lemma_entry_child(v, i);
                lemma_val_eq_refl(entries_of(v)[i].0);
                lemma_val_eq_refl(entries_of(v)[i].1);
                assert(entries_of(v)[i] == entries_of(v)[i]);
            }
            assert forall|i: int| #![trigger entries_of(v)[i]] 0 <= i < entries_of(v).len() implies entry_found(
                entries_of(v),
                entries_of(v)[i],
            ) by {
                lemma_entry_child(v, i);
                lemma_val_eq_refl(entries_of(v)[i].0);
                lemma_val_eq_refl(entries_of(v)[i].1);
            }
            lemma_map_eq(v, v);
        },
        MalVal::HashSet(x, _) => {
            assert forall|i: int| #![trigger items_of(v)[i]] 0 <= i < items_of(v).len() implies elem_in(
                items_of(v)[i],
                items_of(v),
            ) by {
                lemma_item_child(v, i);
                lemma_val_eq_refl(items_of(v)[i]);
                assert(items_of(v)[i] == items_of(v)[i]);
            }
            assert forall|i: int| #![trigger items_of(v)[i]] 0 <= i < items_of(v).len() implies elem_found(
                items_of(v),
                items_of(v)[i],
            ) by {
                lemma_item_child(v, i);
                lemma_val_eq_refl(items_of(v)[i]);
            }
            lemma_set_eq(v, v);
        },
        _ => {},
    }
}

/// Structural equality is symmetric.
pub proof fn lemma_val_eq_symm(a: MalVal, b: MalVal)
    requires
        val_eq(a, b),
    ensures
        val_eq(b, a),
    decreases a, 1nat,
{
    match a {
        MalVal::List(_, _) => lemma_symm_items(a, b),
        MalVal::Vector(_, _) => lemma_symm_items(a, b),
        MalVal::HashMap(_, _) => lemma_symm_map(a, b),
        MalVal::HashSet(_, _) => lemma_symm_set(a, b),
        _ => {},
    }
}

proof fn lemma_symm_items(a: MalVal, b: MalVal)
    requires
        val_eq(a, b),
        a is List || a is Vector,
    ensures
        val_eq(b, a),
    decreases a, 0nat,
{
    let x = items_of(a);
    let y = items_of(b);
    assert(x.len() == y.len());
    assert forall|i: int| 0 <= i < y.len() implies val_eq(#[trigger] y[i], x[i]) by {
        lemma_item_child(a, i);
        assert(val_eq(x[i], y[i]));
        lemma_val_eq_symm(x[i], y[i]);
    }
}

proof fn lemma_symm_map(a: MalVal, b: MalVal)
    requires
        val_eq(a, b),
        a is HashMap,
    ensures
        val_eq(b, a),
    decreases a, 0nat,
{
    lemma_map_eq(a, b);
    lemma_map_eq(b, a);
    let ea = entries_of(a);
    let eb = entries_of(b);
    assert forall|k: int| #![trigger eb[k]] 0 <= k < eb.len() implies entry_in(eb[k], ea) by {
        assert(entry_found(ea, eb[k]));
        let i = choose|i: int| #![trigger ea[i]] 0 <= i < ea.len() && val_eq(ea[i].0, eb[k].0) && val_eq(ea[i].1, eb[k].1);
        lemma_entry_child(a, i);
        lemma_val_eq_symm(ea[i].0, eb[k].0);
        lemma_val_eq_symm(ea[i].1, eb[k].1);
    }
    assert forall|k: int| #![trigger ea[k]] 0 <= k < ea.len() implies entry_found(eb, ea[k]) by {
        assert(entry_in(ea[k], eb));
        let j = choose|j: int| #![trigger eb[j]] 0 <= j < eb.len() && val_eq(ea[k].0, eb[j].0) && val_eq(ea[k].1, eb[j].1);
        lemma_entry_child(a, k);
        lemma_val_eq_symm(ea[k].0, eb[j].0);
        lemma_val_eq_symm(ea[k].1, eb[j].1);
    }
}

proof fn lemma_symm_set(a: MalVal, b: MalVal)
    requires
        val_eq(a, b),
        a is HashSet,
    ensures
        val_eq(b, a),
    decreases a, 0nat,
{
    lemma_set_eq(a, b);
    lemma_set_eq(b, a);
    let xa = items_of(a);
    let xb = items_of(b);
    assert forall|k: int| #![trigger xb[k]] 0 <= k < xb.len() implies elem_in(xb[k], xa) by {
        assert(elem_found(xa, xb[k]));
        let i = choose|i: int| #![trigger xa[i]] 0 <= i < xa.len() && val_eq(xa[i], xb[k]);
        lemma_item_child(a, i);
        lemma_val_eq_symm(xa[i], xb[k]);
    }
    assert forall|k: int| #![trigger xa[k]] 0 <= k < xa.len() implies elem_found(xb, xa[k]) by {
        assert(elem_in(xa[k], xb));
        let j = choose|j: int| #![trigger xb[j]] 0 <= j < xb.len() && val_eq(xa[k], xb[j]);
        lemma_item_child(a, k);
        lemma_val_eq_symm(xa[k], xb[j]);
    }
}

/// Structural equality is transitive.
pub proof fn lemma_val_eq_trans(a: MalVal, b: MalVal, c: MalVal)
    requires
        val_eq(a, b),
        val_eq(b, c),
    ensures
        val_eq(a, c),
    decreases a,
{
    match a {
        MalVal::List(x, _) => {
            let y = items_of(b);
            let z = items_of(c);
            assert forall|i: int| 0 <= i < x@.len() implies val_eq(#[trigger] x@[i], z[i]) by {
                lemma_item_child(a, i);
                assert(val_eq(x@[i], y[i]));
                assert(val_eq(y[i], z[i]));
                lemma_val_eq_trans(x@[i], y[i], z[i]);
            }
        },
        MalVal::Vector(x, _) => {
            let y = items_of(b);
            let z = items_of(c);
            assert forall|i: int| 0 <= i < x@.len() implies val_eq(#[trigger] x@[i], z[i]) by {
                lemma_item_child(a, i);
                assert(val_eq(x@[i], y[i]));
                assert(val_eq(y[i], z[i]));
                lemma_val_eq_trans(x@[i], y[i], z[i]);
            }
        },
        MalVal::HashMap(_, _) => {
            lemma_map_eq(a, b);
            lemma_map_eq(b, c);
            lemma_map_eq(a, c);
            let ea = entries_of(a);
            let eb = entries_of(b);
            let ec = entries_of(c);
            assert forall|i: int| #![trigger ea[i]] 0 <= i < ea.len() implies entry_in(ea[i], ec) by {
                assert(entry_in(ea[i], eb));
                let j = choose|j: int| #![trigger eb[j]] 0 <= j < eb.len() && val_eq(ea[i].0, eb[j].0) && val_eq(ea[i].1, eb[j].1);
                assert(entry_in(eb[j], ec));
                let k = choose|k: int| #![trigger ec[k]] 0 <= k < ec.len() && val_eq(eb[j].0, ec[k].0) && val_eq(eb[j].1, ec[k].1);
                lemma_entry_child(a, i);
                lemma_val_eq_trans(ea[i].0, eb[j].0, ec[k].0);
                lemma_val_eq_trans(ea[i].1, eb[j].1, ec[k].1);
            }
            assert forall|k: int| #![trigger ec[k]] 0 <= k < ec.len() implies entry_found(ea, ec[k]) by {
                assert(entry_found(eb, ec[k]));
                let j = choose|j: int| #![trigger eb[j]] 0 <= j < eb.len() && val_eq(eb[j].0, ec[k].0) && val_eq(eb[j].1, ec[k].1);
                assert(entry_found(ea, eb[j]));
                let i = choose|i: int| #![trigger ea[i]] 0 <= i < ea.len() && val_eq(ea[i].0, eb[j].0) && val_eq(ea[i].1, eb[j].1);
                lemma_entry_child(a, i);
                lemma_val_eq_trans(ea[i].0, eb[j].0, ec[k].0);
                lemma_val_eq_trans(ea[i].1, eb[j].1, ec[k].1);
            }
        },
        MalVal::HashSet(_, _) => {
            lemma_set_eq(a, b);
            lemma_set_eq(b, c);
            lemma_set_eq(a, c);
            let xa = items_of(a);
            let xb = items_of(b);
            let xc = items_of(c);
            assert forall|i: int| #![trigger xa[i]] 0 <= i < xa.len() implies elem_in(xa[i], xc) by {
                assert(elem_in(xa[i], xb));
                let j = choose|j: int| #![trigger xb[j]] 0 <= j < xb.len() && val_eq(xa[i], xb[j]);
                assert(elem_in(xb[j], xc));
                let k = choose|k: int| #![trigger xc[k]] 0 <= k < xc.len() && val_eq(xb[j], xc[k]);
                lemma_item_child(a, i);
                lemma_val_eq_trans(xa[i], xb[j], xc[k]);
            }
            assert forall|k: int| #![trigger xc[k]] 0 <= k < xc.len() implies elem_found(xa, xc[k]) by {
                assert(elem_found(xb, xc[k]));
                let j = choose|j: int| #![trigger xb[j]] 0 <= j < xb.len() && val_eq(xb[j], xc[k]);
                assert(elem_found(xa, xb[j]));
                let i = choose|i: int| #![trigger xa[i]] 0 <= i < xa.len() && val_eq(xa[i], xb[j]);
                lemma_item_child(a, i);
                lemma_val_eq_trans(xa[i], xb[j], xc[k]);
            }
        },
        _ => {},
    }
}

/// Associating pairs whose keys are pairwise unequal keeps every pair, in order.
pub proof fn lemma_assoc_all_distinct(p: Seq<(MalVal, MalVal)>)
    requires
        keys_distinct(p),
    ensures
        assoc_all(p) == p,
    decreases p.len(),
{
    if p.len() > 0 {
        let q = p.drop_last();
        assert(keys_distinct(q)) by {
            assert forall|i: int, j: int| 0 <= i < j < q.len() implies !val_eq(
                #[trigger] q[i].0,
                #[trigger] q[j].0,
            ) by {
                assert(q[i] == p[i] && q[j] == p[j]);
            }
        }
        lemma_assoc_all_distinct(q);
        let k = p.last().0;
        lemma_key_index_range(q, k);
        assert forall|j: int| 0 <= j < q.len() implies !val_eq(#[trigger] q[j].0, k) by {
            assert(q[j] == p[j]);
            assert(p.last() == p[p.len() - 1]);
        }
        assert(key_index(q, k) == -1);
        assert(assoc(q, k, p.last().1) =~= p);
    }
}

/// The hash of one map entry.
pub open spec fn pair_hash(e: (MalVal, MalVal)) -> u64 {
    fnv1a(le_bytes(hash_spec(e.0) as nat, 8) + le_bytes(hash_spec(e.1) as nat, 8))
}

/// The sum of the hashes of some map entries.
pub open spec fn pair_hash_sum(s: Seq<(MalVal, MalVal)>) -> int
    decreases s.len(),
{
    if s.len() == 0 {
        0
    } else {
        pair_hash_sum(s.drop_last()) + pair_hash(s.last()) as int
    }
}

proof fn lemma_entries_sum(v: MalVal, n: nat)
    requires
        n <= entries_of(v).len(),
    ensures
        entries_sum(v, n) == pair_hash_sum(entries_of(v).subrange(0, n as int)),
    decreases n,
{
    if n > 0 {
        lemma_entries_sum(v, (n - 1) as nat);
        assert(entries_of(v).subrange(0, n as int).drop_last() =~= entries_of(v).subrange(0, n - 1));
    }
}

proof fn lemma_sum_remove(s: Seq<(MalVal, MalVal)>, j: int)
    requires
        0 <= j < s.len(),
    ensures
        pair_hash_sum(s) == pair_hash_sum(s.remove(j)) + pair_hash(s[j]) as int,
    decreases s.len(),
{
    if j == s.len() - 1 {
        assert(s.remove(j) =~= s.drop_last());
    } else {
        lemma_sum_remove(s.drop_last(), j);
        assert(s.remove(j).drop_last() =~= s.drop_last().remove(j));
        assert(s.remove(j).last() == s.last());
    }
}

/// The sum of entry hashes does not depend on the order of the entries.
proof fn lemma_sum_permutation(s1: Seq<(MalVal, MalVal)>, s2: Seq<(MalVal, MalVal)>)
    requires
        s1.to_multiset() == s2.to_multiset(),
    ensures
        pair_hash_sum(s1) == pair_hash_sum(s2),
    decreases s1.len(),
{
    broadcast use vstd::seq_lib::group_to_multiset_ensures;

    vstd::seq_lib::to_multiset_len(s1);
    vstd::seq_lib::to_multiset_len(s2);
    if s1.len() == 0 {
        assert(s2.len() == 0);
    } else {
        let x = s1.last();
        let q1 = s1.drop_last();
        assert(q1.push(x) =~= s1);
        assert(s1.to_multiset().count(x) > 0);
        assert(s2.contains(x));
        let j = choose|j: int| 0 <= j < s2.len() && s2[j] == x;
        let q2 = s2.remove(j);
        assert(q1.to_multiset() =~= s1.to_multiset().remove(x));
        assert(q2.to_multiset() =~= s2.to_multiset().remove(x));
        lemma_sum_permutation(q1, q2);
        lemma_sum_remove(s2, j);
    }
}

/// Maps whose entries are the same pairs in two orders are equal.
#[verifier::rlimit(60)]
proof fn lemma_permuted_maps_equal(
    pairs_a: Seq<(MalVal, MalVal)>,
    pairs_b: Seq<(MalVal, MalVal)>,
    m1: MalVal,
    m2: MalVal,
)
    requires
        pairs_a.to_multiset() == pairs_b.to_multiset(),
        pairs_a.len() == pairs_b.len(),
        m1 is HashMap && entries_of(m1) == pairs_a,
        m2 is HashMap && entries_of(m2) == pairs_b,
    ensures
        val_eq(m1, m2),
{
    assert forall|i: int| #![trigger entries_of(m1)[i]] 0 <= i < entries_of(m1).len() implies entry_in(
        entries_of(m1)[i],
        entries_of(m2),
    ) by {
        let e = pairs_a[i];
        vstd::seq_lib::to_multiset_contains(pairs_a, e);
        vstd::seq_lib::to_multiset_contains(pairs_b, e);
        assert(pairs_a.contains(e));
        assert(pairs_b.contains(e));
        let j = choose|j: int| 0 <= j < pairs_b.len() && pairs_b[j] == e;
        lemma_val_eq_refl(e.0);
        lemma_val_eq_refl(e.1);
        assert(entries_of(m2)[j] == e);
    }
    assert forall|i: int| #![trigger entries_of(m2)[i]] 0 <= i < entries_of(m2).len() implies entry_found(
        entries_of(m1),
        entries_of(m2)[i],
    ) by {
        let e = pairs_b[i];
        vstd::seq_lib::to_multiset_contains(pairs_a, e);
        vstd::seq_lib::to_multiset_contains(pairs_b, e);
        assert(pairs_b.contains(e));
        assert(pairs_a.contains(e));
        let j = choose|j: int| 0 <= j < pairs_a.len() && pairs_a[j] == e;
        lemma_val_eq_refl(e.0);
        lemma_val_eq_refl(e.1);
        assert(entries_of(m1)[j] == e);
    }
    lemma_map_eq(m1, m2);
}

/// Two maps built from the same key/value pairs, whose keys are pairwise
/// unequal, in two different orders are equal and hash alike.
#[verifier::rlimit(60)]
pub proof fn law_map_insertion_order(
    pairs_a: Seq<(MalVal, MalVal)>,
    pairs_b: Seq<(MalVal, MalVal)>,
    m1: MalVal,
    m2: MalVal,
)
    requires
        pairs_a.to_multiset() == pairs_b.to_multiset(),
        keys_distinct(pairs_a),
        keys_distinct(pairs_b),
        m1 is HashMap && entries_of(m1) == assoc_all(pairs_a),
        m2 is HashMap && entries_of(m2) == assoc_all(pairs_b),
    ensures
        val_eq(m1, m2),
        hash_spec(m1) == hash_spec(m2),
{
    lemma_assoc_all_distinct(pairs_a);
    lemma_assoc_all_distinct(pairs_b);
    vstd::seq_lib::to_multiset_len(pairs_a);
    vstd::seq_lib::to_multiset_len(pairs_b);
    assert(pairs_a.len() == pairs_b.len());
    lemma_permuted_maps_equal(pairs_a, pairs_b, m1, m2);
    lemma_entries_sum(m1, pairs_a.len());
    lemma_entries_sum(m2, pairs_b.len());
    assert(pairs_a.subrange(0, pairs_a.len() as int) =~= pairs_a);
    assert(pairs_b.subrange(0, pairs_b.len() as int) =~= pairs_b);
    lemma_sum_permutation(pairs_a, pairs_b);
}


/// A value whose maps have pairwise unequal keys and whose sets have
/// pairwise unequal elements, at every depth; what the map and set
/// constructors build from well-formed parts.
pub open spec fn wf_val(v: MalVal) -> bool
    decreases v,
{
    match v {
        MalVal::List(x, _) => forall|i: int| #![trigger x@[i]] 0 <= i < x@.len() ==> wf_val(x@[i]),
        MalVal::Vector(x, _) => forall|i: int| #![trigger x@[i]] 0 <= i < x@.len() ==> wf_val(x@[i]),
        MalVal::HashMap(x, _) => keys_distinct(x@) && forall|i: int|
            #![trigger x@[i]]
            0 <= i < x@.len() ==> wf_val(x@[i].0) && wf_val(x@[i].1),
        MalVal::HashSet(x, _) => elems_distinct(x@) && forall|i: int|
            #![trigger x@[i]]
            0 <= i < x@.len() ==> wf_val(x@[i]),
        _ => true,
    }
}

/// The sum of some integers.
pub open spec fn sum_ints(s: Seq<int>) -> int
    decreases s.len(),
{
    if s.len() == 0 {
        0
    } else {
        sum_ints(s.drop_last()) + s.last()
    }
}

proof fn lemma_sum_ints_remove(s: Seq<int>, j: int)
    requires
        0 <= j < s.len(),
    ensures
        sum_ints(s) == sum_ints(s.remove(j)) + s[j],
    decreases s.len(),
{
    if j == s.len() - 1 {
        assert(s.remove(j) =~= s.drop_last());
    } else {
        lemma_sum_ints_remove(s.drop_last(), j);
        assert(s.remove(j).drop_last() =~= s.drop_last().remove(j));
        assert(s.remove(j).last() == s.last());
    }
}

/// Sums agree when one sequence is the other rearranged by `sigma`.
proof fn lemma_sum_rearranged(fa: Seq<int>, fb: Seq<int>, sigma: spec_fn(int) -> int)
    requires
        fa.len() == fb.len(),
        forall|i: int| 0 <= i < fa.len() ==> 0 <= #[trigger] sigma(i) < fa.len() && fa[i] == fb[sigma(i)],
        forall|i: int, k: int| 0 <= i < fa.len() && 0 <= k < fa.len() && i != k ==> #[trigger] sigma(i) != #[trigger] sigma(k),
    ensures
        sum_ints(fa) == sum_ints(fb),
    decreases fa.len(),
{
    let n = fa.len() as int;
    if n > 0 {
        let j = sigma(n - 1);
        let fb2 = fb.remove(j);
        let sigma2 = |i: int| if sigma(i) < j { sigma(i) } else { sigma(i) - 1 };
        let fa2 = fa.drop_last();
        assert forall|i: int| 0 <= i < fa2.len() implies 0 <= #[trigger] sigma2(i) < fa2.len() && fa2[i] == fb2[sigma2(i)] by {
            assert(sigma(i) != sigma(n - 1));
        }
        assert forall|i: int, k: int| 0 <= i < fa2.len() && 0 <= k < fa2.len() && i != k implies #[trigger] sigma2(i) != #[trigger] sigma2(k) by {
            assert(sigma(i) != sigma(k));
            assert(sigma(i) != sigma(n - 1));
            assert(sigma(k) != sigma(n - 1));
        }
        lemma_sum_rearranged(fa2, fb2, sigma2);
        lemma_sum_ints_remove(fb, j);
    }
}

proof fn lemma_items_sum_ints(v: MalVal, n: nat)
    requires
        n <= items_of(v).len(),
    ensures
        items_sum(v, n) == sum_ints(Seq::new(n, |i: int| hash_spec(items_of(v)[i]) as int)),
    decreases n,
{
    if n > 0 {
        lemma_items_sum_ints(v, (n - 1) as nat);
        assert(Seq::new(n, |i: int| hash_spec(items_of(v)[i]) as int).drop_last() =~= Seq::new(
            (n - 1) as nat,
            |i: int| hash_spec(items_of(v)[i]) as int,
        ));
    }
}

proof fn lemma_entries_sum_ints(v: MalVal, n: nat)
    requires
        n <= entries_of(v).len(),
    ensures
        entries_sum(v, n) == sum_ints(Seq::new(n, |i: int| pair_hash(entries_of(v)[i]) as int)),
    decreases n,
{
    if n > 0 {
        lemma_entries_sum_ints(v, (n - 1) as nat);
        assert(Seq::new(n, |i: int| pair_hash(entries_of(v)[i]) as int).drop_last() =~= Seq::new(
            (n - 1) as nat,
            |i: int| pair_hash(entries_of(v)[i]) as int,
        ));
    }
}

/// Well-formed values that are structurally equal hash alike.
pub proof fn law_equal_values_hash_alike(a: MalVal, b: MalVal)
    requires
        wf_val(a),
        wf_val(b),
        val_eq(a, b),
    ensures
        hash_spec(a) == hash_spec(b),
    decreases a, 1nat,
{
    match a {
        MalVal::List(x, _) => {
            lemma_hash_items(a, b, x@.len());
        },
        MalVal::Vector(x, _) => {
            lemma_hash_items(a, b, x@.len());
        },
        MalVal::HashMap(x, _) => {
            lemma_hash_map(a, b);
        },
        MalVal::HashSet(x, _) => {
            lemma_hash_set(a, b);
        },
        _ => {},
    }
}

proof fn lemma_hash_items(a: MalVal, b: MalVal, n: nat)
    requires
        wf_val(a),
        wf_val(b),
        val_eq(a, b),
        a is List || a is Vector,
        n <= items_of(a).len(),
    ensures
        items_bytes(a, n) == items_bytes(b, n),
    decreases a, 0nat, n,
{
    if n > 0 {
        lemma_hash_items(a, b, (n - 1) as nat);
        let x = items_of(a);
        let y = items_of(b);
        lemma_item_child(a, n - 1);
        assert(val_eq(x[n - 1], y[n - 1]));
        assert(wf_val(x[n - 1]) && wf_val(y[n - 1]));
        law_equal_values_hash_alike(x[n - 1], y[n - 1]);
    }
}

proof fn lemma_hash_map(a: MalVal, b: MalVal)
    requires
        wf_val(a),
        wf_val(b),
        val_eq(a, b),
        a is HashMap,
    ensures
        hash_spec(a) == hash_spec(b),
    decreases a, 0nat, 0nat,
{
    lemma_map_eq(a, b);
    let ea = entries_of(a);
    let eb = entries_of(b);
    let n = ea.len();
    let sigma = |i: int| choose|j: int| 0 <= j < eb.len() && val_eq(ea[i].0, #[trigger] eb[j].0) && val_eq(ea[i].1, eb[j].1);
    let fa = Seq::new(n, |i: int| pair_hash(ea[i]) as int);
    let fb = Seq::new(n, |i: int| pair_hash(eb[i]) as int);
    assert forall|i: int| 0 <= i < n implies 0 <= #[trigger] sigma(i) < n && fa[i] == fb[sigma(i)] by {
        assert(entry_in(ea[i], eb));
        let j = sigma(i);
        lemma_entry_child(a, i);
        assert(wf_val(ea[i].0) && wf_val(ea[i].1));
        assert(wf_val(eb[j].0) && wf_val(eb[j].1));
        law_equal_values_hash_alike(ea[i].0, eb[j].0);
        law_equal_values_hash_alike(ea[i].1, eb[j].1);
    }
    assert forall|i: int, k: int| 0 <= i < n && 0 <= k < n && i != k implies #[trigger] sigma(i) != #[trigger] sigma(k) by {
        assert(entry_in(ea[i], eb));
        assert(entry_in(ea[k], eb));
        if sigma(i) == sigma(k) {
            let j = sigma(i);
            lemma_val_eq_symm(ea[k].0, eb[j].0);
            lemma_val_eq_trans(ea[i].0, eb[j].0, ea[k].0);
            lemma_val_eq_symm(ea[i].0, ea[k].0);
            if i < k {
                assert(!val_eq(ea[i].0, ea[k].0));
            } else {
                assert(!val_eq(ea[k].0, ea[i].0));
            }
        }
    }
    lemma_sum_rearranged(fa, fb, sigma);
    lemma_entries_sum_ints(a, n);
    lemma_entries_sum_ints(b, n);
}

proof fn lemma_hash_set(a: MalVal, b: MalVal)
    requires
        wf_val(a),
        wf_val(b),
        val_eq(a, b),
        a is HashSet,
    ensures
        hash_spec(a) == hash_spec(b),
    decreases a, 0nat, 0nat,
{
    lemma_set_eq(a, b);
    let xa = items_of(a);
    let xb = items_of(b);
    let n = xa.len();
    let sigma = |i: int| choose|j: int| 0 <= j < xb.len() && val_eq(xa[i], #[trigger] xb[j]);
    let fa = Seq::new(n, |i: int| hash_spec(xa[i]) as int);
    let fb = Seq::new(n, |i: int| hash_spec(xb[i]) as int);
    assert forall|i: int| 0 <= i < n implies 0 <= #[trigger] sigma(i) < n && fa[i] == fb[sigma(i)] by {
        assert(elem_in(xa[i], xb));
        let j = sigma(i);
        lemma_item_child(a, i);
        assert(wf_val(xa[i]) && wf_val(xb[j]));
        law_equal_values_hash_alike(xa[i], xb[j]);
    }
    assert forall|i: int, k: int| 0 <= i < n && 0 <= k < n && i != k implies #[trigger] sigma(i) != #[trigger] sigma(k) by {
        assert(elem_in(xa[i], xb));
        assert(elem_in(xa[k], xb));
        if sigma(i) == sigma(k) {
            let j = sigma(i);
            lemma_val_eq_symm(xa[k], xb[j]);
            lemma_val_eq_trans(xa[i], xb[j], xa[k]);
            lemma_val_eq_symm(xa[i], xa[k]);
            if i < k {
                assert(!val_eq(xa[i], xa[k]));
            } else {
                assert(!val_eq(xa[k], xa[i]));
            }
        }
    }
    lemma_sum_rearranged(fa, fb, sigma);
    lemma_items_sum_ints(a, n);
    lemma_items_sum_ints(b, n);
}

} // verus!
