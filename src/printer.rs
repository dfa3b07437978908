use itertools::Itertools;
use vstd::prelude::*;
use vstd::std_specs::iter::IteratorSpec;

use crate::types::{entries_of, items_of, lemma_entry_child, lemma_item_child, MalVal};

verus! {

/// The characters of `s`, in order.
pub(crate) fn chars_of(s: &str) -> (r: Vec<char>)
    ensures
        r@ == s@,
{
    broadcast use vstd::string::axiom_spec_iter, vstd::string::next_postcondition;

    let mut it = s.chars();
    let mut out: Vec<char> = Vec::new();
    loop
        invariant
            it.obeys_prophetic_iter_laws(),
            it.decrease() is Some,
            out@ + it.remaining() == s@,
        decreases it.decrease()->0,
    {
        match it.next() {
            Some(c) => {
                out.push(c);
            },
            None => {
                assert(out@ + it.remaining() =~= out@);
                return out;
            },
        }
    }
}

/// Relies on `String::push`: appends one character.
#[verifier::external_body]
pub(crate) fn push_char(s: &mut String, c: char)
    ensures
        final(s)@ == old(s)@.push(c),
{
    s.push(c)
}

/// The pieces in order with `sep` between each two neighbours.
pub open spec fn join_spec(parts: Seq<Seq<char>>, sep: Seq<char>) -> Seq<char>
    decreases parts.len(),
{
    if parts.len() == 0 {
        Seq::empty()
    } else if parts.len() == 1 {
        parts[0]
    } else {
        join_spec(parts.drop_last(), sep) + sep + parts.last()
    }
}

/// Relies on `itertools::Itertools::join`: the first piece, then for each
/// later piece the separator and the piece; empty for no pieces.
#[verifier::external_body]
pub(crate) fn join_with(parts: &Vec<String>, sep: &str) -> (r: String)
    ensures
        r@ == join_spec(parts.deep_view(), sep@),
{
    parts.iter().join(sep)
}

/// The decimal digits of `n`, most significant first, without leading zeros.
pub open spec fn digits(n: nat) -> Seq<char>
    decreases n,
{
    if n < 10 {
        seq![digit_char(n)]
    } else {
        digits(n / 10).push(digit_char(n % 10))
    }
}

pub open spec fn digit_char(d: nat) -> char {
    ((d + 48) as u8) as char
}

/// How an integer is written: an optional minus sign, then its digits.
pub open spec fn show_int(n: int) -> Seq<char> {
    if n < 0 {
        seq!['-'] + digits((-n) as nat)
    } else {
        digits(n as nat)
    }
}

/// The readable form of a string's contents: quote, backslash, newline,
/// carriage return and tab each become a backslash and a letter.
pub open spec fn escape_spec(s: Seq<char>) -> Seq<char>
    decreases s.len(),
{
    if s.len() == 0 {
        Seq::empty()
    } else {
        escape_spec(s.drop_last()) + escape_char(s.last())
    }
}

pub open spec fn escape_char(c: char) -> Seq<char> {
    if c == '"' {
        seq!['\\', '"']
    } else if c == '\\' {
        seq!['\\', '\\']
    } else if c == '\n' {
        seq!['\\', 'n']
    } else if c == '\r' {
        seq!['\\', 'r']
    } else if c == '\t' {
        seq!['\\', 't']
    } else {
        seq![c]
    }
}

/// The printed forms of the first `n` elements of a list, vector or set.
pub open spec fn printed_items(v: MalVal, n: nat, readably: bool) -> Seq<Seq<char>>
    decreases v, n,
{
    if n == 0 || n > items_of(v).len() {
        Seq::empty()
    } else {
        printed_items(v, (n - 1) as nat, readably).push(print_spec(items_of(v)[n - 1], readably))
    }
}

/// The printed forms `key value` of the first `n` entries of a map.
pub open spec fn printed_entries(v: MalVal, n: nat, readably: bool) -> Seq<Seq<char>>
    decreases v, n,
{
    if n == 0 || n > entries_of(v).len() {
        Seq::empty()
    } else {
        let e = entries_of(v)[n - 1];
        printed_entries(v, (n - 1) as nat, readably).push(
            print_spec(e.0, readably) + seq![' '] + print_spec(e.1, readably),
        )
    }
}

/// The printed form of a value.
pub open spec fn print_spec(v: MalVal, readably: bool) -> Seq<char>
    decreases v, items_of(v).len() + entries_of(v).len() + 1,
{
    match v {
        MalVal::Nil => "nil"@,
        MalVal::Bool(b) => if b { "true"@ } else { "false"@ },
        MalVal::Number(n) => show_int(n as int),
        MalVal::String(s) => if readably { seq!['"'] + escape_spec(s@) + seq!['"'] } else { s@ },
        MalVal::Keyword(s) => seq![':'] + s@,
        MalVal::Symbol(s) => s@,
        MalVal::List(x, _) => seq!['('] + join_spec(printed_items(v, x@.len(), readably), seq![' '])
            + seq![')'],
        MalVal::Vector(x, _) => seq!['['] + join_spec(printed_items(v, x@.len(), readably), seq![' '])
            + seq![']'],
        MalVal::HashMap(x, _) => seq!['{'] + join_spec(
            printed_entries(v, x@.len(), readably),
            seq![' '],
        ) + seq!['}'],
        MalVal::HashSet(x, _) => seq!['#', '{'] + join_spec(
            printed_items(v, x@.len(), readably),
            seq![' '],
        ) + seq!['}'],
        MalVal::BuiltinFn(_) => "#<function>"@,
        MalVal::Func(_, _) => "#<function>"@,
        MalVal::Atom(_) => "#<atom>"@,
    }
}

/// Appends the digits of `n` to `out`.
pub(crate) fn push_digits(n: u64, out: &mut String)
    ensures
        final(out)@ == old(out)@ + digits(n as nat),
    decreases n,
{
    if n >= 10 {
        push_digits(n / 10, out);
    }
    let d = (n % 10) as u8;
    push_char(out, (d + 48) as char);
}

/// The decimal form of `n`.
pub fn show_number(n: i64) -> (r: String)
    ensures
        r@ == show_int(n as int),
{
    let mut out = String::new();
    if n < 0 {
        push_char(&mut out, '-');
        let mag: u64 = if n == i64::MIN { 9223372036854775808u64 } else { (-n) as u64 };
        push_digits(mag, &mut out);
    } else {
        push_digits(n as u64, &mut out);
    }
    out
}

/// The readable form of a string's contents.
pub fn escape(s: &str) -> (r: String)
    ensures
        r@ == escape_spec(s@),
{
    let cs = chars_of(s);
    let mut out = String::new();
    let mut i: usize = 0;
    while i < cs.len()
        invariant
            i <= cs@.len(),
            cs@ == s@,
            out@ == escape_spec(cs@.subrange(0, i as int)),
        decreases cs@.len() - i,
    {
        let c = cs[i];
        assert(cs@.subrange(0, i + 1).drop_last() =~= cs@.subrange(0, i as int));
        if c == '"' {
            push_char(&mut out, '\\');
            push_char(&mut out, '"');
        } else if c == '\\' {
            push_char(&mut out, '\\');
            push_char(&mut out, '\\');
        } else if c == '\n' {
            push_char(&mut out, '\\');
            push_char(&mut out, 'n');
        } else if c == '\r' {
            push_char(&mut out, '\\');
            push_char(&mut out, 'r');
        } else if c == '\t' {
            push_char(&mut out, '\\');
            push_char(&mut out, 't');
        } else {
            push_char(&mut out, c);
        }
        proof {
            assert(out@ =~= escape_spec(cs@.subrange(0, i + 1)));
        }
        i = i + 1;
    }
    assert(cs@.subrange(0, cs@.len() as int) =~= cs@);
    out
}


/// The printed forms of the elements of a list, vector or set.
fn print_items(form: &MalVal, items: &Vec<MalVal>, readably: bool) -> (r: Vec<String>)
    requires
        items@ == items_of(*form),
    ensures
        r.deep_view() == printed_items(*form, items@.len(), readably),
    decreases *form, 0nat,
{
    let mut parts: Vec<String> = Vec::new();
    let mut i: usize = 0;
    while i < items.len()
        invariant
            i <= items@.len(),
            items@ == items_of(*form),
            parts.deep_view() == printed_items(*form, i as nat, readably),
        decreases items@.len() - i,
    {
        proof {
            lemma_item_child(*form, i as int);
        }
        let p = pr_str(&items[i], readably);
        let ghost before = parts.deep_view();
        parts.push(p);
        proof {
            assert(parts.deep_view() =~= before.push(p@));
        }
        i = i + 1;
    }
    parts
}

/// The printed forms `key value` of the entries of a map.
fn print_entries(form: &MalVal, entries: &Vec<(MalVal, MalVal)>, readably: bool) -> (r: Vec<String>)
    requires
        entries@ == entries_of(*form),
    ensures
        r.deep_view() == printed_entries(*form, entries@.len(), readably),
    decreases *form, 0nat,
{
    let mut parts: Vec<String> = Vec::new();
    let mut i: usize = 0;
    while i < entries.len()
        invariant
            i <= entries@.len(),
            entries@ == entries_of(*form),
            parts.deep_view() == printed_entries(*form, i as nat, readably),
        decreases entries@.len() - i,
    {
        proof {
            lemma_entry_child(*form, i as int);
        }
        let mut p = pr_str(&entries[i].0, readably);
        push_char(&mut p, ' ');
        let q = pr_str(&entries[i].1, readably);
        p.append(q.as_str());
        proof {
            let e = entries_of(*form)[i as int];
            assert(p@ =~= print_spec(e.0, readably) + seq![' '] + print_spec(e.1, readably));
        }
        let ghost before = parts.deep_view();
        parts.push(p);
        proof {
            assert(parts.deep_view() =~= before.push(p@));
        }
        i = i + 1;
    }
    parts
}

/// `open`, the pieces joined by single spaces, then `close`.
fn enclose(open: &str, parts: &Vec<String>, close: char) -> (r: String)
    ensures
        r@ == open@ + join_spec(parts.deep_view(), seq![' ']) + seq![close],
{
    let mut out = String::from_str(open);
    let inner = join_with(parts, " ");
    proof {
        reveal_strlit(" ");
        assert(" "@ =~= seq![' ']);
    }
    out.append(inner.as_str());
    push_char(&mut out, close);
    out
}

/// The printed form of a value: readable mode quotes and escapes strings,
/// display mode emits them raw.
pub fn pr_str(form: &MalVal, print_readably: bool) -> (r: String)
    ensures
        r@ == print_spec(*form, print_readably),
    decreases *form, 1nat,
{
    proof {
        reveal_strlit("(");
        reveal_strlit("[");
        reveal_strlit("{");
        reveal_strlit("#{");
    }
    match form {
        MalVal::Nil => String::from_str("nil"),
        MalVal::Bool(b) => if *b {
            String::from_str("true")
        } else {
            String::from_str("false")
        },
        MalVal::Number(n) => show_number(*n),
        MalVal::String(s) => {
            if print_readably {
                let mut out = String::new();
                push_char(&mut out, '"');
                let e = escape(s.as_str());
                out.append(e.as_str());
                push_char(&mut out, '"');
                proof {
                    assert(out@ =~= seq!['"'] + escape_spec(s@) + seq!['"']);
                }
                out
            } else {
                (**s).clone()
            }
        },
        MalVal::Keyword(s) => {
            let mut out = String::new();
            push_char(&mut out, ':');
            out.append(s.as_str());
            proof {
                assert(out@ =~= seq![':'] + s@);
            }
            out
        },
        MalVal::Symbol(s) => (**s).clone(),
        MalVal::List(x, _) => {
            let parts = print_items(form, x, print_readably);
            let r = enclose("(", &parts, ')');
            proof {
                assert(r@ =~= print_spec(*form, print_readably));
            }
            r
        },
        MalVal::Vector(x, _) => {
            let parts = print_items(form, x, print_readably);
            let r = enclose("[", &parts, ']');
            proof {
                assert(r@ =~= print_spec(*form, print_readably));
            }
            r
        },
        MalVal::HashMap(x, _) => {
            let parts = print_entries(form, x, print_readably);
            let r = enclose("{", &parts, '}');
            proof {
                assert(r@ =~= print_spec(*form, print_readably));
            }
            r
        },
        MalVal::HashSet(x, _) => {
            let parts = print_items(form, x, print_readably);
            let r = enclose("#{", &parts, '}');
            proof {
                assert(r@ =~= print_spec(*form, print_readably));
            }
            r
        },
        MalVal::BuiltinFn(_) => String::from_str("#<function>"),
        MalVal::Func(_, _) => String::from_str("#<function>"),
        MalVal::Atom(_) => String::from_str("#<atom>"),
    }
}

} // verus!
