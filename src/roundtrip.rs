use vstd::prelude::*;

use crate::printer::{digit_char, digits, escape_char, escape_spec, print_spec, show_int};
use crate::reader::{
    all_digits, atom_reads, bare_end, closed_quote, digits_value, int_text, is_bare, is_gap,
    is_space, is_special, macro_symbol, reads, skip_gap, string_end, token_end, tokens_from,
    trailing_backslashes, unescape_spec,
};
use crate::types::MalVal;

verus! {

/// Text that a bare token may hold throughout.
pub open spec fn plain_text(s: Seq<char>) -> bool {
    forall|k: int| 0 <= k < s.len() ==> is_bare(#[trigger] s[k])
}

/// String contents that print without escapes and hold no quote.
pub open spec fn plain_string(s: Seq<char>) -> bool {
    forall|k: int|
        0 <= k < s.len() ==> #[trigger] s[k] != '"' && s[k] != '\\' && s[k] != '\n' && s[k] != '\r'
            && s[k] != '\t'
}

/// An atom that the reader can read back from its printed form: nil, a
/// boolean, an integer, a keyword or symbol whose name is one bare token that
/// no other reading claims, or a string without characters that need escapes.
pub open spec fn literal_atom(v: MalVal) -> bool {
    match v {
        MalVal::Nil => true,
        MalVal::Bool(_) => true,
        MalVal::Number(_) => true,
        MalVal::String(s) => plain_string(s@),
        MalVal::Keyword(s) => plain_text(s@),
        MalVal::Symbol(s) => s@.len() > 0 && plain_text(s@) && !is_special(s@[0]) && s@[0] != ':'
            && s@ != "nil"@ && s@ != "true"@ && s@ != "false"@ && int_text(s@) is None,
        _ => false,
    }
}

proof fn lemma_literals()
    ensures
        "nil"@ =~= seq!['n', 'i', 'l'],
        "true"@ =~= seq!['t', 'r', 'u', 'e'],
        "false"@ =~= seq!['f', 'a', 'l', 's', 'e'],
        "'"@ =~= seq!['\''],
        "`"@ =~= seq!['`'],
        "~"@ =~= seq!['~'],
        "~@"@ =~= seq!['~', '@'],
        "@"@ =~= seq!['@'],
        "("@ =~= seq!['('],
        "["@ =~= seq!['['],
        "{"@ =~= seq!['{'],
        "#{"@ =~= seq!['#', '{'],
{
    reveal_strlit("nil");
    reveal_strlit("true");
    reveal_strlit("false");
    reveal_strlit("'");
    reveal_strlit("`");
    reveal_strlit("~");
    reveal_strlit("~@");
    reveal_strlit("@");
    reveal_strlit("(");
    reveal_strlit("[");
    reveal_strlit("{");
    reveal_strlit("#{");
}

proof fn lemma_bare_end_all(t: Seq<char>, i: int)
    requires
        0 <= i <= t.len(),
        forall|k: int| i <= k < t.len() ==> is_bare(#[trigger] t[k]),
    ensures
        bare_end(t, i) == t.len(),
    decreases t.len() - i,
{
    if i < t.len() {
        lemma_bare_end_all(t, i + 1);
    }
}

proof fn lemma_string_end_plain(t: Seq<char>, i: int)
    requires
        1 <= i <= t.len() - 1,
        t[t.len() - 1] == '"',
        forall|k: int| i <= k < t.len() - 1 ==> #[trigger] t[k] != '"' && t[k] != '\\',
    ensures
        string_end(t, i) == t.len(),
    decreases t.len() - i,
{
    if i < t.len() - 1 {
        lemma_string_end_plain(t, i + 1);
    }
}

/// Text that is one whole token reads as that one token.
proof fn lemma_single_token(t: Seq<char>)
    requires
        t.len() > 0,
        !is_gap(t[0]),
        t[0] != ';',
        token_end(t, 0) == t.len(),
    ensures
        tokens_from(t, 0) == seq![t],
{
    assert(skip_gap(t, 0) == 0);
    assert(skip_gap(t, t.len() as int) == t.len());
    assert(tokens_from(t, t.len() as int) == Seq::<Seq<char>>::empty());
    assert(t.subrange(0, t.len() as int) =~= t);
    assert(seq![t] + Seq::<Seq<char>>::empty() =~= seq![t]);
}

proof fn lemma_digits(m: nat)
    ensures
        digits(m).len() > 0,
        all_digits(digits(m)),
        digits_value(digits(m)) == m,
        plain_text(digits(m)),
    decreases m,
{
    let d = digit_char(m % 10);
    assert(d as int == m % 10 + 48);
    if m >= 10 {
        lemma_digits(m / 10);
        let p = digits(m / 10);
        assert(digits(m) == p.push(d));
        assert(digits(m).drop_last() =~= p);
        assert(forall|k: int| 0 <= k < p.len() ==> digits(m)[k] == p[k]);
        vstd::arithmetic::div_mod::lemma_fundamental_div_mod(m as int, 10);
        assert(digits(m).last() == d);
        assert(digits_value(digits(m)) == digits_value(p) * 10 + (d as int - '0' as int));
        assert(digits_value(digits(m)) == (m / 10) as int * 10 + m % 10);
    } else {
        assert(digits(m).drop_last() =~= Seq::<char>::empty());
        assert(digits(m).last() == d);
        assert(digits_value(digits(m)) == digits_value(Seq::<char>::empty()) * 10 + (d as int - '0' as int));
    }
}

proof fn lemma_escape_plain(s: Seq<char>)
    requires
        plain_string(s),
    ensures
        escape_spec(s) == s,
    decreases s.len(),
{
    if s.len() > 0 {
        let p = s.drop_last();
        assert(plain_string(p)) by {
            assert forall|k: int| 0 <= k < p.len() implies #[trigger] p[k] != '"' && p[k] != '\\'
                && p[k] != '\n' && p[k] != '\r' && p[k] != '\t' by {
                assert(p[k] == s[k]);
            }
        }
        lemma_escape_plain(p);
        assert(s[s.len() - 1] == s.last());
        assert(escape_char(s.last()) == seq![s.last()]);
        assert(p.push(s.last()) =~= s);
    }
}

proof fn lemma_unescape_plain(s: Seq<char>)
    requires
        forall|k: int| 0 <= k < s.len() ==> #[trigger] s[k] != '\\',
    ensures
        unescape_spec(s) == s,
    decreases s.len(),
{
    if s.len() > 0 {
        let r = s.subrange(1, s.len() as int);
        assert forall|k: int| 0 <= k < r.len() implies #[trigger] r[k] != '\\' by {
            assert(r[k] == s[k + 1]);
        }
        lemma_unescape_plain(r);
        assert(seq![s[0]] + r =~= s);
    }
}

/// Reading the printed form of a literal atom and printing what was read
/// gives the printed form back.
pub proof fn law_atom_round_trip(v: MalVal, w: MalVal, end: int)
    requires
        literal_atom(v),
        reads(tokens_from(print_spec(v, true), 0), 0, w, end),
    ensures
        print_spec(w, true) == print_spec(v, true),
{
    lemma_literals();
    let t = print_spec(v, true);
    match v {
        MalVal::Nil => {
            lemma_bare_end_all(t, 0);
            lemma_single_token(t);
        },
        MalVal::Bool(b) => {
            lemma_bare_end_all(t, 0);
            lemma_single_token(t);
        },
        MalVal::Number(n) => {
            if n < 0 {
                lemma_digits((-n) as nat);
                let ds = digits((-n) as nat);
                assert(t == seq!['-'] + ds);
                assert forall|k: int| 0 <= k < t.len() implies is_bare(#[trigger] t[k]) by {
                    if k > 0 {
                        assert(t[k] == ds[k - 1]);
                    }
                }
                assert(t.subrange(1, t.len() as int) =~= ds);
            } else {
                lemma_digits(n as nat);
            }
            lemma_bare_end_all(t, 0);
            lemma_single_token(t);
            assert(int_text(t) == Some(n as int));
        },
        MalVal::String(s) => {
            lemma_escape_plain(s@);
            assert(t == seq!['"'] + s@ + seq!['"']);
            assert forall|k: int| 1 <= k < t.len() - 1 implies #[trigger] t[k] != '"' && t[k] != '\\' by {
                assert(t[k] == s@[k - 1]);
            }
            lemma_string_end_plain(t, 1);
            lemma_single_token(t);
            let inner = t.subrange(1, t.len() - 1);
            assert(inner =~= s@);
            assert forall|k: int| 0 <= k < inner.len() implies #[trigger] inner[k] != '\\' by {
                assert(inner[k] == s@[k]);
            }
            lemma_unescape_plain(inner);
            assert(t.drop_last().last() != '\\') by {
                if s@.len() > 0 {
                    assert(t.drop_last().last() == s@[s@.len() - 1]);
                }
            }
            assert(trailing_backslashes(t.drop_last()) == 0);
            assert(closed_quote(t));
            assert(!all_digits(t)) by {
                assert(!('0' <= t[0] <= '9'));
            }
        },
        MalVal::Keyword(s) => {
            assert(t == seq![':'] + s@);
            assert forall|k: int| 0 <= k < t.len() implies is_bare(#[trigger] t[k]) by {
                if k > 0 {
                    assert(t[k] == s@[k - 1]);
                }
            }
            lemma_bare_end_all(t, 0);
            lemma_single_token(t);
            assert(t.subrange(1, t.len() as int) =~= s@);
            assert(!all_digits(t)) by {
                assert(!('0' <= t[0] <= '9'));
            }
        },
        MalVal::Symbol(s) => {
            lemma_bare_end_all(t, 0);
            lemma_single_token(t);
        },
        _ => {},
    }
    let toks = tokens_from(t, 0);
    assert(toks[0] == t);
    assert(macro_symbol(t) is None);
    assert(t != "("@ && t != "["@ && t != "#{"@ && t != "{"@);
    assert(atom_reads(t, w));
}

} // verus!
