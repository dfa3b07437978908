use std::rc::Rc;
use vstd::prelude::*;

use crate::printer::{chars_of, push_char};
use crate::types::{adjoin_all, assoc_all, MalError, MalResult, MalVal, Paren};

verus! {

/// Whitespace in the Unicode sense.
pub open spec fn is_space(c: char) -> bool {
    c == ' ' || c == '\t' || c == '\n' || c == '\r' || c == '\x0B' || c == '\x0C' || c == '\u{85}'
        || c == '\u{A0}' || c == '\u{1680}' || ('\u{2000}' <= c && c <= '\u{200A}') || c
        == '\u{2028}' || c == '\u{2029}' || c == '\u{202F}' || c == '\u{205F}' || c == '\u{3000}'
}

/// Characters skipped between tokens: whitespace and commas.
pub open spec fn is_gap(c: char) -> bool {
    is_space(c) || c == ','
}

/// Characters that form a token of their own.
pub open spec fn is_special(c: char) -> bool {
    c == '[' || c == ']' || c == '{' || c == '}' || c == '(' || c == ')' || c == '\'' || c == '`'
        || c == '~' || c == '^' || c == '@'
}

/// Characters that may stand in a bare token.
pub open spec fn is_bare(c: char) -> bool {
    !is_space(c) && c != '[' && c != ']' && c != '{' && c != '}' && c != '(' && c != ')' && c
        != '\'' && c != '"' && c != '`' && c != ',' && c != ';'
}

/// The first position at or after `i` that is not a gap.
pub open spec fn skip_gap(cs: Seq<char>, i: int) -> int
    decreases cs.len() - i,
{
    if 0 <= i < cs.len() && is_gap(cs[i]) {
        skip_gap(cs, i + 1)
    } else {
        i
    }
}

/// The end of a run of bare characters starting at `i`.
pub open spec fn bare_end(cs: Seq<char>, i: int) -> int
    decreases cs.len() - i,
{
    if 0 <= i < cs.len() && is_bare(cs[i]) {
        bare_end(cs, i + 1)
    } else {
        i
    }
}

/// The end of the line that position `i` is on (the newline not included).
pub open spec fn line_end(cs: Seq<char>, i: int) -> int
    decreases cs.len() - i,
{
    if 0 <= i < cs.len() && cs[i] != '\n' {
        line_end(cs, i + 1)
    } else {
        i
    }
}

/// The end of a string token whose content starts at `i`: escaped pairs
/// (a backslash and any character but a newline) and other characters but a
/// quote are taken, then a closing quote if there is one.
pub open spec fn string_end(cs: Seq<char>, i: int) -> int
    decreases cs.len() - i,
{
    if !(0 <= i < cs.len()) {
        i
    } else if cs[i] == '"' {
        i + 1
    } else if cs[i] == '\\' {
        if i + 1 < cs.len() && cs[i + 1] != '\n' {
            string_end(cs, i + 2)
        } else {
            i
        }
    } else {
        string_end(cs, i + 1)
    }
}

/// The end of the token that starts at `i` (which is not a gap).
pub open spec fn token_end(cs: Seq<char>, i: int) -> int {
    let n = cs.len();
    let c = cs[i];
    if c == '~' && i + 1 < n && cs[i + 1] == '@' {
        i + 2
    } else if c == '#' && i + 1 < cs.len() && cs[i + 1] == '{' {
        i + 2
    } else if is_special(c) {
        i + 1
    } else if c == '"' {
        string_end(cs, i + 1)
    } else if c == ';' {
        line_end(cs, i)
    } else {
        bare_end(cs, i)
    }
}

/// The tokens of `cs` from position `i` on; comments are left out.
pub open spec fn tokens_from(cs: Seq<char>, i: int) -> Seq<Seq<char>>
    decreases cs.len() - i,
{
    let j = skip_gap(cs, i);
    if !(0 <= i <= j < cs.len()) {
        Seq::empty()
    } else {
        let e = token_end(cs, j);
        if e <= j || e > cs.len() {
            Seq::empty()
        } else if cs[j] == ';' {
            tokens_from(cs, e)
        } else {
            seq![cs.subrange(j, e)] + tokens_from(cs, e)
        }
    }
}

proof fn lemma_skip_gap(cs: Seq<char>, i: int)
    requires
        0 <= i <= cs.len(),
    ensures
        i <= skip_gap(cs, i) <= cs.len(),
        skip_gap(cs, i) < cs.len() ==> !is_gap(cs[skip_gap(cs, i)]),
    decreases cs.len() - i,
{
    if i < cs.len() && is_gap(cs[i]) {
        lemma_skip_gap(cs, i + 1);
    }
}

proof fn lemma_bare_end(cs: Seq<char>, i: int)
    requires
        0 <= i <= cs.len(),
    ensures
        i <= bare_end(cs, i) <= cs.len(),
    decreases cs.len() - i,
{
    if i < cs.len() && is_bare(cs[i]) {
        lemma_bare_end(cs, i + 1);
    }
}

proof fn lemma_line_end(cs: Seq<char>, i: int)
    requires
        0 <= i <= cs.len(),
    ensures
        i <= line_end(cs, i) <= cs.len(),
    decreases cs.len() - i,
{
    if i < cs.len() && cs[i] != '\n' {
        lemma_line_end(cs, i + 1);
    }
}

proof fn lemma_string_end(cs: Seq<char>, i: int)
    requires
        0 <= i <= cs.len(),
    ensures
        i <= string_end(cs, i) <= cs.len(),
    decreases cs.len() - i,
{
    if i < cs.len() {
        if cs[i] == '\\' {
            if i + 1 < cs.len() && cs[i + 1] != '\n' {
                lemma_string_end(cs, i + 2);
            }
        } else if cs[i] != '"' {
            lemma_string_end(cs, i + 1);
        }
    }
}

proof fn lemma_token_end(cs: Seq<char>, i: int)
    requires
        0 <= i < cs.len(),
        !is_gap(cs[i]),
    ensures
        i < token_end(cs, i) <= cs.len(),
{
    let c = cs[i];
    if c == '"' {
        lemma_string_end(cs, i + 1);
    } else if c == ';' {
        lemma_line_end(cs, i + 1);
    } else {
        lemma_bare_end(cs, i + 1);
    }
}

fn skip_gap_at(cs: &Vec<char>, i: usize) -> (r: usize)
    requires
        i <= cs@.len(),
    ensures
        r as int == skip_gap(cs@, i as int),
{
    let mut k = i;
    while k < cs.len() && is_gap_char(cs[k])
        invariant
            i <= k <= cs@.len(),
            skip_gap(cs@, i as int) == skip_gap(cs@, k as int),
        decreases cs@.len() - k,
    {
        k = k + 1;
    }
    k
}

fn bare_end_at(cs: &Vec<char>, i: usize) -> (r: usize)
    requires
        i <= cs@.len(),
    ensures
        r as int == bare_end(cs@, i as int),
{
    let mut k = i;
    while k < cs.len() && is_bare_char(cs[k])
        invariant
            i <= k <= cs@.len(),
            bare_end(cs@, i as int) == bare_end(cs@, k as int),
        decreases cs@.len() - k,
    {
        k = k + 1;
    }
    k
}

fn line_end_at(cs: &Vec<char>, i: usize) -> (r: usize)
    requires
        i <= cs@.len(),
    ensures
        r as int == line_end(cs@, i as int),
{
    let mut k = i;
    while k < cs.len() && cs[k] != '\n'
        invariant
            i <= k <= cs@.len(),
            line_end(cs@, i as int) == line_end(cs@, k as int),
        decreases cs@.len() - k,
    {
        k = k + 1;
    }
    k
}

fn string_end_at(cs: &Vec<char>, i: usize) -> (r: usize)
    requires
        i <= cs@.len(),
    ensures
        r as int == string_end(cs@, i as int),
{
    let mut k = i;
    while k < cs.len()
        invariant
            i <= k <= cs@.len(),
            string_end(cs@, i as int) == string_end(cs@, k as int),
        decreases cs@.len() - k,
    {
        if cs[k] == '"' {
            return k + 1;
        } else if cs[k] == '\\' {
            if k + 1 < cs.len() && cs[k + 1] != '\n' {
                k = k + 2;
            } else {
                return k;
            }
        } else {
            k = k + 1;
        }
    }
    k
}

fn is_space_char(c: char) -> (r: bool)
    ensures
        r == is_space(c),
{
    c == ' ' || c == '\t' || c == '\n' || c == '\r' || c == '\x0B' || c == '\x0C' || c == '\u{85}'
        || c == '\u{A0}' || c == '\u{1680}' || ('\u{2000}' <= c && c <= '\u{200A}') || c
        == '\u{2028}' || c == '\u{2029}' || c == '\u{202F}' || c == '\u{205F}' || c == '\u{3000}'
}

fn is_gap_char(c: char) -> (r: bool)
    ensures
        r == is_gap(c),
{
    is_space_char(c) || c == ','
}

fn is_bare_char(c: char) -> (r: bool)
    ensures
        r == is_bare(c),
{
    !is_space_char(c) && c != '[' && c != ']' && c != '{' && c != '}' && c != '(' && c != ')' && c
        != '\'' && c != '"' && c != '`' && c != ',' && c != ';'
}

fn token_end_at(cs: &Vec<char>, i: usize) -> (r: usize)
    requires
        i < cs@.len(),
        !is_gap(cs@[i as int]),
    ensures
        r as int == token_end(cs@, i as int),
{
    let n = cs.len();
    let c = cs[i];
    if c == '~' && i + 1 < n && cs[i + 1] == '@' {
        i + 2
    } else if c == '#' && i + 1 < n && cs[i + 1] == '{' {
        i + 2
    } else if c == '[' || c == ']' || c == '{' || c == '}' || c == '(' || c == ')' || c == '\''
        || c == '`' || c == '~' || c == '^' || c == '@' {
        i + 1
    } else if c == '"' {
        string_end_at(cs, i + 1)
    } else if c == ';' {
        line_end_at(cs, i)
    } else {
        bare_end_at(cs, i)
    }
}

/// The characters `cs[from..to]` as a string.
fn slice_string(cs: &Vec<char>, from: usize, to: usize) -> (r: String)
    requires
        from <= to <= cs@.len(),
    ensures
        r@ == cs@.subrange(from as int, to as int),
{
    let mut out = String::new();
    let mut k = from;
    while k < to
        invariant
            from <= k <= to <= cs@.len(),
            out@ == cs@.subrange(from as int, k as int),
        decreases to - k,
    {
        push_char(&mut out, cs[k]);
        assert(out@ =~= cs@.subrange(from as int, k + 1));
        k = k + 1;
    }
    out
}

/// Splits the input into tokens: gaps of whitespace and commas separate
/// them, comments are dropped.
pub fn tokenize(input: &str) -> (r: Vec<String>)
    ensures
        r.deep_view() == tokens_from(input@, 0),
{
    let cs = chars_of(input);
    let mut toks: Vec<String> = Vec::new();
    let mut i: usize = 0;
    while i < cs.len()
        invariant
            i <= cs@.len(),
            cs@ == input@,
            toks.deep_view() + tokens_from(cs@, i as int) == tokens_from(cs@, 0),
        decreases cs@.len() - i,
    {
        proof {
            lemma_skip_gap(cs@, i as int);
        }
        let j = skip_gap_at(&cs, i);
        if j >= cs.len() {
            proof {
                assert(tokens_from(cs@, i as int) == Seq::<Seq<char>>::empty());
                assert(toks.deep_view() + Seq::<Seq<char>>::empty() =~= toks.deep_view());
            }
            i = j;
        } else {
            proof {
                lemma_token_end(cs@, j as int);
            }
            let e = token_end_at(&cs, j);
            if cs[j] != ';' {
                let t = slice_string(&cs, j, e);
                let ghost before = toks.deep_view();
                toks.push(t);
                proof {
                    assert(toks.deep_view() =~= before.push(t@));
                    assert(toks.deep_view() + tokens_from(cs@, e as int) =~= before + tokens_from(
                        cs@,
                        i as int,
                    ));
                }
            }
            i = e;
        }
    }
    proof {
        assert(tokens_from(cs@, i as int) == Seq::<Seq<char>>::empty());
        assert(toks.deep_view() + Seq::<Seq<char>>::empty() =~= toks.deep_view());
    }
    toks
}


/// The value of a run of decimal digits.
pub open spec fn digits_value(d: Seq<char>) -> int
    decreases d.len(),
{
    if d.len() == 0 {
        0
    } else {
        digits_value(d.drop_last()) * 10 + (d.last() as int - '0' as int)
    }
}

pub open spec fn all_digits(d: Seq<char>) -> bool {
    forall|k: int| 0 <= k < d.len() ==> '0' <= #[trigger] d[k] <= '9'
}

/// The integer that a token denotes: an optional sign, one or more decimal
/// digits, and a value that fits in 64 signed bits.
pub open spec fn int_text(t: Seq<char>) -> Option<int> {
    let signed = t.len() > 0 && (t[0] == '-' || t[0] == '+');
    let body = if signed { t.subrange(1, t.len() as int) } else { t };
    let value = if signed && t[0] == '-' { -digits_value(body) } else { digits_value(body) };
    if body.len() > 0 && all_digits(body) && i64::MIN <= value <= i64::MAX {
        Some(value)
    } else {
        None
    }
}

/// How many backslashes end `s`.
pub open spec fn trailing_backslashes(s: Seq<char>) -> nat
    decreases s.len(),
{
    if s.len() > 0 && s.last() == '\\' {
        trailing_backslashes(s.drop_last()) + 1
    } else {
        0
    }
}

/// A string token is closed when it ends in a quote that no backslash escapes.
pub open spec fn closed_quote(t: Seq<char>) -> bool {
    t.len() >= 2 && t.last() == '"' && trailing_backslashes(t.drop_last()) % 2 == 0
}

/// The character that an escape `\c` stands for.
pub open spec fn unescape_char(c: char) -> char {
    if c == 'n' {
        '\n'
    } else if c == 't' {
        '\t'
    } else if c == 'r' {
        '\r'
    } else {
        c
    }
}

/// String contents with escapes resolved; a lone final backslash is dropped.
pub open spec fn unescape_spec(s: Seq<char>) -> Seq<char>
    decreases s.len(),
{
    if s.len() == 0 {
        Seq::empty()
    } else if s[0] == '\\' {
        if s.len() == 1 {
            Seq::empty()
        } else {
            seq![unescape_char(s[1])] + unescape_spec(s.subrange(2, s.len() as int))
        }
    } else {
        seq![s[0]] + unescape_spec(s.subrange(1, s.len() as int))
    }
}

/// `v` is the atom that token `t` denotes: nil, a boolean, an integer, a
/// closed string, a keyword, or else a symbol.
pub open spec fn atom_reads(t: Seq<char>, v: MalVal) -> bool {
    if t == "nil"@ {
        v is Nil
    } else if t == "true"@ {
        v == MalVal::Bool(true)
    } else if t == "false"@ {
        v == MalVal::Bool(false)
    } else if int_text(t) is Some {
        v == MalVal::Number(int_text(t)->0 as i64)
    } else if t.len() > 0 && t[0] == '"' {
        closed_quote(t) && (v matches MalVal::String(s) && s@ == unescape_spec(
            t.subrange(1, t.len() - 1),
        ))
    } else if t.len() > 0 && t[0] == ':' {
        v matches MalVal::Keyword(s) && s@ == t.subrange(1, t.len() as int)
    } else {
        v matches MalVal::Symbol(s) && s@ == t
    }
}

/// Token `t` opens a string that never closes.
pub open spec fn atom_unclosed(t: Seq<char>) -> bool {
    t != "nil"@ && t != "true"@ && t != "false"@ && int_text(t) is None && t.len() > 0 && t[0]
        == '"' && !closed_quote(t)
}

proof fn lemma_digits_grow(d: Seq<char>, k: int)
    requires
        0 <= k <= d.len(),
        all_digits(d),
    ensures
        digits_value(d) >= digits_value(d.subrange(0, k)) >= 0,
    decreases d.len(),
{
    if d.len() > 0 {
        assert(d.drop_last() =~= d.subrange(0, d.len() - 1));
        if k < d.len() {
            assert(d.drop_last().subrange(0, k) =~= d.subrange(0, k));
            lemma_digits_grow(d.drop_last(), k);
        } else {
            assert(d.subrange(0, k) =~= d);
            lemma_digits_grow(d.drop_last(), k - 1);
        }
    } else {
        assert(d.subrange(0, k) =~= d);
    }
}

/// The integer that the characters denote, as `int_text` says.
#[verifier::loop_isolation(false)]
fn parse_int(t: &Vec<char>) -> (r: Option<i64>)
    ensures
        match r {
            Some(n) => int_text(t@) == Some(n as int),
            None => int_text(t@) is None,
        },
{
    let n = t.len();
    let signed = n > 0 && (t[0] == '-' || t[0] == '+');
    let neg = signed && t[0] == '-';
    let start: usize = if signed { 1 } else { 0 };
    let ghost body = if signed { t@.subrange(1, t@.len() as int) } else { t@ };
    if start >= n {
        return None;
    }
    let limit: u64 = if neg { 9223372036854775808u64 } else { 9223372036854775807u64 };
    let mut mag: u64 = 0;
    let mut k = start;
    while k < n
        invariant
            n == t@.len(),
            start <= k <= n,
            body == t@.subrange(start as int, n as int),
            all_digits(body.subrange(0, k - start)),
            mag as int == digits_value(body.subrange(0, k - start)),
            mag <= limit,
            limit == (if neg { 9223372036854775808u64 } else { 9223372036854775807u64 }),
        decreases n - k,
    {
        let c = t[k];
        assert(body[k - start] == c);
        if !('0' <= c && c <= '9') {
            assert(!all_digits(body));
            return None;
        }
        let d = (c as u32 - 48) as u64;
        assert(body.subrange(0, k + 1 - start).drop_last() =~= body.subrange(0, k - start));
        if mag > (limit - d) / 10 {
            proof {
                assert(digits_value(body.subrange(0, k + 1 - start)) > limit) by (nonlinear_arith)
                    requires
                        digits_value(body.subrange(0, k + 1 - start)) == mag * 10 + d,
                        mag > (limit - d) / 10,
                        d <= 9,
                        limit >= 9,
                ;
                if all_digits(body) {
                    lemma_digits_grow(body, k + 1 - start);
                }
            }
            return None;
        }
        proof {
            assert(mag * 10 + d <= limit) by (nonlinear_arith)
                requires
                    mag <= (limit - d) / 10,
                    d <= 9,
                    limit >= 9,
            ;
        }
        mag = mag * 10 + d;
        k = k + 1;
    }
    assert(body.subrange(0, n - start) =~= body);
    if neg {
        if mag == 9223372036854775808u64 {
            Some(i64::MIN)
        } else {
            Some(-(mag as i64))
        }
    } else {
        Some(mag as i64)
    }
}

/// Whether the characters are exactly those of `lit`.
fn chars_are(t: &Vec<char>, lit: &str) -> (r: bool)
    ensures
        r == (t@ == lit@),
{
    let l = chars_of(lit);
    if t.len() != l.len() {
        return false;
    }
    let mut k: usize = 0;
    while k < t.len()
        invariant
            t@.len() == l@.len(),
            l@ == lit@,
            k <= t@.len(),
            forall|m: int| 0 <= m < k ==> t@[m] == l@[m],
        decreases t@.len() - k,
    {
        if t[k] != l[k] {
            return false;
        }
        k = k + 1;
    }
    assert(t@ =~= l@);
    true
}

/// Whether the token ends in a quote that no backslash escapes.
fn is_closed_quote(t: &Vec<char>) -> (r: bool)
    ensures
        r == closed_quote(t@),
{
    let n = t.len();
    if n < 2 || t[n - 1] != '"' {
        return false;
    }
    let mut k: usize = n - 1;
    let mut count: usize = 0;
    while k > 0 && t[k - 1] == '\\'
        invariant
            k <= n - 1,
            n == t@.len(),
            count == n - 1 - k,
            trailing_backslashes(t@.drop_last()) == count + trailing_backslashes(t@.subrange(0, k as int)),
        decreases k,
    {
        assert(t@.subrange(0, k as int).drop_last() =~= t@.subrange(0, k - 1));
        k = k - 1;
        count = count + 1;
    }
    assert(trailing_backslashes(t@.subrange(0, k as int)) == 0);
    assert(t@.drop_last() =~= t@.subrange(0, n - 1));
    count % 2 == 0
}

/// Resolves the escapes in string contents: `\n`, `\t`, `\r` become
/// newline, tab and carriage return, any other escaped character stands for
/// itself, and a lone final backslash is dropped.
pub fn unescape(s: &str) -> (r: String)
    ensures
        r@ == unescape_spec(s@),
{
    let cs = chars_of(s);
    assert(cs@.subrange(0, cs@.len() as int) =~= cs@);
    unescape_chars(&cs, 0, cs.len())
}

fn unescape_chars(cs: &Vec<char>, from: usize, to: usize) -> (r: String)
    requires
        from <= to <= cs@.len(),
    ensures
        r@ == unescape_spec(cs@.subrange(from as int, to as int)),
{
    let mut out = String::new();
    let mut i = from;
    while i < to
        invariant
            from <= i <= to <= cs@.len(),
            out@ + unescape_spec(cs@.subrange(i as int, to as int)) == unescape_spec(
                cs@.subrange(from as int, to as int),
            ),
        decreases to - i,
    {
        let ghost rest = cs@.subrange(i as int, to as int);
        let ghost before = out@;
        let c = cs[i];
        if c == '\\' {
            if i + 1 < to {
                let e = cs[i + 1];
                let u = if e == 'n' {
                    '\n'
                } else if e == 't' {
                    '\t'
                } else if e == 'r' {
                    '\r'
                } else {
                    e
                };
                push_char(&mut out, u);
                assert(rest.subrange(2, rest.len() as int) =~= cs@.subrange(i + 2, to as int));
                assert(out@ + unescape_spec(cs@.subrange(i + 2, to as int)) =~= before
                    + unescape_spec(rest));
                i = i + 2;
            } else {
                assert(cs@.subrange(i + 1, to as int) =~= Seq::<char>::empty());
                i = i + 1;
            }
        } else {
            push_char(&mut out, c);
            assert(rest.subrange(1, rest.len() as int) =~= cs@.subrange(i + 1, to as int));
            assert(out@ + unescape_spec(cs@.subrange(i + 1, to as int)) =~= before
                + unescape_spec(rest));
            i = i + 1;
        }
    }
    assert(out@ + Seq::<char>::empty() =~= out@);
    out
}

/// The atom that a token denotes.
fn read_atom(token: &String) -> (r: MalResult)
    ensures
        match r {
            Ok(v) => atom_reads(token@, v),
            Err(e) => atom_unclosed(token@) && e is UnclosedQuote,
        },
        atom_unclosed(token@) ==> r is Err,
{
    proof {
        reveal_strlit("nil");
        reveal_strlit("true");
        reveal_strlit("false");
    }
    let t = chars_of(token.as_str());
    if chars_are(&t, "nil") {
        return Ok(MalVal::Nil);
    }
    if chars_are(&t, "true") {
        return Ok(MalVal::Bool(true));
    }
    if chars_are(&t, "false") {
        return Ok(MalVal::Bool(false));
    }
    match parse_int(&t) {
        Some(n) => {
            return Ok(MalVal::Number(n));
        },
        None => {},
    }
    let n = t.len();
    if n > 0 && t[0] == '"' {
        if is_closed_quote(&t) {
            let body = unescape_chars(&t, 1, n - 1);
            Ok(MalVal::String(Rc::new(body)))
        } else {
            Err(MalError::UnclosedQuote)
        }
    } else if n > 0 && t[0] == ':' {
        let name = slice_string(&t, 1, n);
        Ok(MalVal::Keyword(Rc::new(name)))
    } else {
        Ok(MalVal::Symbol(Rc::new(token.clone())))
    }
}


/// The symbol that a reader-macro token stands for.
pub open spec fn macro_symbol(t: Seq<char>) -> Option<Seq<char>> {
    if t == "'"@ {
        Some("quote"@)
    } else if t == "`"@ {
        Some("quasiquote"@)
    } else if t == "~"@ {
        Some("unquote"@)
    } else if t == "~@"@ {
        Some("splice-unquote"@)
    } else if t == "@"@ {
        Some("deref"@)
    } else {
        None
    }
}

/// `v` is the form that the tokens `toks[pos..end]` spell.
pub open spec fn reads(toks: Seq<Seq<char>>, pos: int, v: MalVal, end: int) -> bool
    decreases end - pos, 1nat,
{
    if !(0 <= pos < end <= toks.len()) {
        false
    } else {
        let t = toks[pos];
        if macro_symbol(t) is Some {
            v matches MalVal::List(x, _) && x@.len() == 2 && (x@[0] matches MalVal::Symbol(s) && s@
                == macro_symbol(t)->0) && reads(toks, pos + 1, x@[1], end)
        } else if t == "("@ {
            v matches MalVal::List(x, _) && reads_items(toks, pos + 1, x@, ")"@, end)
        } else if t == "["@ {
            v matches MalVal::Vector(x, _) && reads_items(toks, pos + 1, x@, "]"@, end)
        } else if t == "#{"@ {
            v matches MalVal::HashSet(x, _) && exists|raw: Seq<MalVal>|
                x@ == #[trigger] adjoin_all(raw) && reads_items(toks, pos + 1, raw, "}"@, end)
        } else if t == "{"@ {
            v matches MalVal::HashMap(x, _) && exists|raw: Seq<(MalVal, MalVal)>|
                x@ == #[trigger] assoc_all(raw) && reads_pairs(toks, pos + 1, raw, end)
        } else {
            end == pos + 1 && atom_reads(t, v)
        }
    }
}

/// `items` are the forms that `toks[p..end]` spell one after another,
/// followed by the closing token `close` at `end - 1`.
pub open spec fn reads_items(
    toks: Seq<Seq<char>>,
    p: int,
    items: Seq<MalVal>,
    close: Seq<char>,
    end: int,
) -> bool
    decreases end - p, 0nat,
{
    if !(0 <= p < end <= toks.len()) {
        false
    } else if items.len() == 0 {
        toks[p] == close && end == p + 1
    } else {
        toks[p] != close && exists|mid: int|
            #![trigger toks[mid]]
            p < mid < end && reads(toks, p, items[0], mid) && reads_items(
                toks,
                mid,
                items.drop_first(),
                close,
                end,
            )
    }
}

/// `pairs` are the key and value forms that `toks[p..end]` spell, followed
/// by a closing brace at `end - 1`.
pub open spec fn reads_pairs(toks: Seq<Seq<char>>, p: int, pairs: Seq<(MalVal, MalVal)>, end: int) -> bool
    decreases end - p, 0nat,
{
    if !(0 <= p < end <= toks.len()) {
        false
    } else if pairs.len() == 0 {
        toks[p] == "}"@ && end == p + 1
    } else {
        toks[p] != "}"@ && exists|mid: int, mid2: int|
            #![trigger toks[mid], toks[mid2]]
            p < mid < mid2 < end && reads(toks, p, pairs[0].0, mid) && toks[mid] != "}"@ && reads(
                toks,
                mid,
                pairs[0].1,
                mid2,
            ) && reads_pairs(toks, mid2, pairs.drop_first(), end)
    }
}

/// The errors that reading can end in.
pub open spec fn is_read_error(e: MalError) -> bool {
    e is NoInput || e is Unbalanced || e is UnclosedQuote || e is OddMap
}

/// How reading can fail.
pub enum ReadFail {
    NoInput,
    Unbalanced(Paren),
    UnclosedQuote,
    /// A key came with no value; the number of forms read in the map so far.
    OddMap(nat),
}

/// Where the form at a token position ends, or how reading it fails.
pub enum Scan {
    Ends(int),
    Fails(ReadFail),
}

/// `e` is the error that `f` describes.
pub open spec fn fails_with(e: MalError, f: ReadFail) -> bool {
    match f {
        ReadFail::NoInput => e is NoInput,
        ReadFail::Unbalanced(p) => e == MalError::Unbalanced(p),
        ReadFail::UnclosedQuote => e is UnclosedQuote,
        ReadFail::OddMap(n) => e matches MalError::OddMap(m) && m == n,
    }
}

/// Scans the form that starts at token `pos`.
pub open spec fn scan_form(toks: Seq<Seq<char>>, pos: int) -> Scan
    decreases toks.len() - pos + 1, 1nat,
{
    if pos < 0 || pos >= toks.len() {
        Scan::Fails(ReadFail::NoInput)
    } else {
        let t = toks[pos];
        if macro_symbol(t) is Some {
            scan_form(toks, pos + 1)
        } else if t == "("@ {
            scan_seq(toks, pos + 1, ")"@, Paren::Round)
        } else if t == "["@ {
            scan_seq(toks, pos + 1, "]"@, Paren::Square)
        } else if t == "#{"@ {
            scan_seq(toks, pos + 1, "}"@, Paren::Curly)
        } else if t == "{"@ {
            scan_pairs(toks, pos + 1, 0)
        } else if atom_unclosed(t) {
            Scan::Fails(ReadFail::UnclosedQuote)
        } else {
            Scan::Ends(pos + 1)
        }
    }
}

/// Scans forms from token `p` on up to the closing token `close`.
pub open spec fn scan_seq(toks: Seq<Seq<char>>, p: int, close: Seq<char>, paren: Paren) -> Scan
    decreases toks.len() - p + 2, 0nat,
{
    if p < 0 || p >= toks.len() {
        Scan::Fails(ReadFail::Unbalanced(paren))
    } else if toks[p] == close {
        Scan::Ends(p + 1)
    } else {
        match scan_form(toks, p) {
            Scan::Ends(q) => if p < q <= toks.len() {
                scan_seq(toks, q, close, paren)
            } else {
                Scan::Fails(ReadFail::NoInput)
            },
            Scan::Fails(f) => Scan::Fails(f),
        }
    }
}

/// Scans key and value forms from token `p` on up to a closing brace, with
/// `pairs` pairs read before `p`.
pub open spec fn scan_pairs(toks: Seq<Seq<char>>, p: int, pairs: nat) -> Scan
    decreases toks.len() - p + 2, 0nat,
{
    if p < 0 || p >= toks.len() {
        Scan::Fails(ReadFail::Unbalanced(Paren::Curly))
    } else if toks[p] == "}"@ {
        Scan::Ends(p + 1)
    } else {
        match scan_form(toks, p) {
            Scan::Ends(q) => if !(p < q <= toks.len()) {
                Scan::Fails(ReadFail::NoInput)
            } else if q >= toks.len() || toks[q] == "}"@ {
                Scan::Fails(ReadFail::OddMap(2 * pairs + 1))
            } else {
                match scan_form(toks, q) {
                    Scan::Ends(q2) => if q < q2 <= toks.len() {
                        scan_pairs(toks, q2, pairs + 1)
                    } else {
                        Scan::Fails(ReadFail::NoInput)
                    },
                    Scan::Fails(f) => Scan::Fails(f),
                }
            },
            Scan::Fails(f) => Scan::Fails(f),
        }
    }
}

/// The closing token for a kind of delimiter.
pub open spec fn close_of(paren: Paren) -> Seq<char> {
    match paren {
        Paren::Round => ")"@,
        Paren::Square => "]"@,
        Paren::Curly => "}"@,
    }
}

fn is_token(t: &String, lit: &str) -> (r: bool)
    ensures
        r == (t@ == lit@),
{
    *t == String::from_str(lit)
}

/// Reads the forms that follow an opening delimiter, up to and including
/// the matching closing token.
pub fn read_seq(toks: &Vec<String>, pos: usize, paren: Paren) -> (r: (Result<Vec<MalVal>, MalError>, usize))
    requires
        pos <= toks@.len(),
    ensures
        match r.0 {
            Ok(items) => pos < r.1 <= toks@.len() && reads_items(toks.deep_view(), pos as int, items@, close_of(paren), r.1 as int),
            Err(e) => is_read_error(e),
        },
        match scan_seq(toks.deep_view(), pos as int, close_of(paren), paren) {
            Scan::Ends(q) => r.0 is Ok && r.1 == q,
            Scan::Fails(f) => r.0 is Err && fails_with(r.0->Err_0, f),
        },
    decreases toks@.len() - pos + 2, 0nat,
{
    let close = match paren {
        Paren::Round => String::from_str(")"),
        Paren::Square => String::from_str("]"),
        Paren::Curly => String::from_str("}"),
    };
    let ghost ts = toks.deep_view();
    let mut items: Vec<MalVal> = Vec::new();
    let mut p = pos;
    while p < toks.len()
        invariant
            pos <= p <= toks@.len(),
            ts == toks.deep_view(),
            ts.len() == toks@.len(),
            close@ == close_of(paren),
            items@.len() == 0 ==> p == pos,
            scan_seq(ts, pos as int, close@, paren) == scan_seq(ts, p as int, close@, paren),
            // Reading on from `p` to the close finishes the whole sequence.
            forall|e: int, rest: Seq<MalVal>|
                reads_items(ts, p as int, rest, close@, e) ==> #[trigger] reads_items(ts, pos as int, items@ + rest, close@, e),
        decreases toks@.len() - p,
    {
        assert(ts[p as int] == toks@[p as int]@);
        if toks[p] == close {
            proof {
                assert(reads_items(ts, p as int, Seq::empty(), close@, p + 1));
                assert(items@ + Seq::<MalVal>::empty() =~= items@);
            }
            return (Ok(items), p + 1);
        }
        let (res, next) = read_form(toks, p);
        match res {
            Ok(v) => {
                proof {
                    let ghost old_items = items@;
                    assert forall|e: int, rest: Seq<MalVal>|
                        reads_items(ts, next as int, rest, close@, e) implies #[trigger] reads_items(ts, pos as int, old_items.push(v) + rest, close@, e) by {
                        // Names the token at `next`, the witness of the step.
                        assert(ts[next as int] == ts[next as int]);
                        let r2 = seq![v] + rest;
                        assert(r2.drop_first() =~= rest);
                        assert(reads_items(ts, p as int, r2, close@, e));
                        assert(old_items + r2 =~= old_items.push(v) + rest);
                    }
                }
                items.push(v);
                p = next;
            },
            Err(e) => {
                return (Err(e), p);
            },
        }
    }
    (Err(MalError::Unbalanced(paren)), p)
}


fn reveal_tokens()
    ensures
        "'"@ =~= seq!['\''],
        "`"@ =~= seq!['`'],
        "~"@ =~= seq!['~'],
        "~@"@ =~= seq!['~', '@'],
        "@"@ =~= seq!['@'],
        "("@ =~= seq!['('],
        ")"@ =~= seq![')'],
        "["@ =~= seq!['['],
        "]"@ =~= seq![']'],
        "{"@ =~= seq!['{'],
        "}"@ =~= seq!['}'],
        "#{"@ =~= seq!['#', '{'],
{
    proof {
        reveal_strlit("'");
        reveal_strlit("`");
        reveal_strlit("~");
        reveal_strlit("~@");
        reveal_strlit("@");
        reveal_strlit("(");
        reveal_strlit(")");
        reveal_strlit("[");
        reveal_strlit("]");
        reveal_strlit("{");
        reveal_strlit("}");
        reveal_strlit("#{");
    }
}

/// Reads the key and value forms of a map after its opening brace, up to
/// and including the closing brace.
fn read_pairs(toks: &Vec<String>, pos: usize) -> (r: (Result<Vec<(MalVal, MalVal)>, MalError>, usize))
    requires
        pos <= toks@.len(),
    ensures
        match r.0 {
            Ok(pairs) => pos < r.1 <= toks@.len() && reads_pairs(toks.deep_view(), pos as int, pairs@, r.1 as int),
            Err(e) => is_read_error(e),
        },
        match scan_pairs(toks.deep_view(), pos as int, 0) {
            Scan::Ends(q) => r.0 is Ok && r.1 == q,
            Scan::Fails(f) => r.0 is Err && fails_with(r.0->Err_0, f),
        },
    decreases toks@.len() - pos + 2, 0nat,
{
    let close = String::from_str("}");
    let ghost ts = toks.deep_view();
    let mut pairs: Vec<(MalVal, MalVal)> = Vec::new();
    let mut p = pos;
    while p < toks.len()
        invariant
            pos <= p <= toks@.len(),
            ts == toks.deep_view(),
            ts.len() == toks@.len(),
            close@ == "}"@,
            pairs@.len() == 0 ==> p == pos,
            2 * pairs@.len() <= p - pos,
            scan_pairs(ts, pos as int, 0) == scan_pairs(ts, p as int, pairs@.len()),
            forall|e: int, rest: Seq<(MalVal, MalVal)>|
                reads_pairs(ts, p as int, rest, e) ==> #[trigger] reads_pairs(ts, pos as int, pairs@ + rest, e),
        decreases toks@.len() - p,
    {
        assert(ts[p as int] == toks@[p as int]@);
        if toks[p] == close {
            proof {
                assert(reads_pairs(ts, p as int, Seq::empty(), p + 1));
                assert(pairs@ + Seq::<(MalVal, MalVal)>::empty() =~= pairs@);
            }
            return (Ok(pairs), p + 1);
        }
        let (kres, mid) = read_form(toks, p);
        let k = match kres {
            Ok(k) => k,
            Err(e) => {
                return (Err(e), p);
            },
        };
        if mid >= toks.len() || toks[mid] == close {
            return (Err(MalError::OddMap(2 * pairs.len() + 1)), mid);
        }
        assert(ts[mid as int] == toks@[mid as int]@);
        let (vres, next) = read_form(toks, mid);
        let v = match vres {
            Ok(v) => v,
            Err(e) => {
                return (Err(e), mid);
            },
        };
        proof {
            let ghost old_pairs = pairs@;
            assert forall|e: int, rest: Seq<(MalVal, MalVal)>|
                reads_pairs(ts, next as int, rest, e) implies #[trigger] reads_pairs(ts, pos as int, old_pairs.push((k, v)) + rest, e) by {
                let r2 = seq![(k, v)] + rest;
                assert(r2.drop_first() =~= rest);
                // Names the tokens at `mid` and `next`, the witnesses of the step.
                assert(ts[mid as int] == ts[mid as int] && ts[next as int] == ts[next as int]);
                assert(reads_pairs(ts, p as int, r2, e));
                assert(old_pairs + r2 =~= old_pairs.push((k, v)) + rest);
            }
        }
        pairs.push((k, v));
        p = next;
    }
    (Err(MalError::Unbalanced(Paren::Curly)), p)
}

/// The symbol name that a reader-macro token stands for.
fn macro_name(t: &String) -> (r: Option<&'static str>)
    ensures
        r is Some <==> macro_symbol(t@) is Some,
        r is Some ==> r->0@ == macro_symbol(t@)->0,
{
    reveal_tokens();
    if is_token(t, "'") {
        Some("quote")
    } else if is_token(t, "`") {
        Some("quasiquote")
    } else if is_token(t, "~") {
        Some("unquote")
    } else if is_token(t, "~@") {
        Some("splice-unquote")
    } else if is_token(t, "@") {
        Some("deref")
    } else {
        None
    }
}

/// Reads one form starting at token `pos`.
pub fn read_form(toks: &Vec<String>, pos: usize) -> (r: (MalResult, usize))
    requires
        pos <= toks@.len(),
    ensures
        match r.0 {
            Ok(v) => pos < r.1 <= toks@.len() && reads(toks.deep_view(), pos as int, v, r.1 as int),
            Err(e) => is_read_error(e),
        },
        match scan_form(toks.deep_view(), pos as int) {
            Scan::Ends(q) => r.0 is Ok && r.1 == q,
            Scan::Fails(f) => r.0 is Err && fails_with(r.0->Err_0, f),
        },
    decreases toks@.len() - pos + 1, 1nat,
{
    if pos >= toks.len() {
        return (Err(MalError::NoInput), pos);
    }
    reveal_tokens();
    let ghost ts = toks.deep_view();
    assert(ts[pos as int] == toks@[pos as int]@);
    let t = &toks[pos];
    match macro_name(t) {
        Some(name) => {
            let (res, next) = read_form(toks, pos + 1);
            match res {
                Ok(v) => {
                    let mut items: Vec<MalVal> = Vec::new();
                    let sym = MalVal::symbol(name);
                    items.push(sym);
                    items.push(v);
                    assert(items@ =~= seq![sym, v]);
                    let l = MalVal::list(items);
                    assert(macro_symbol(ts[pos as int]) is Some);
                    assert(reads(ts, pos as int, l, next as int));
                    (Ok(l), next)
                },
                Err(e) => (Err(e), next),
            }
        },
        None => {
            if is_token(t, "(") {
                let (res, next) = read_seq(toks, pos + 1, Paren::Round);
                match res {
                    Ok(items) => {
                        let l = MalVal::list(items);
                        assert(reads(ts, pos as int, l, next as int));
                        (Ok(l), next)
                    },
                    Err(e) => (Err(e), next),
                }
            } else if is_token(t, "[") {
                let (res, next) = read_seq(toks, pos + 1, Paren::Square);
                match res {
                    Ok(items) => {
                        let l = MalVal::vec(items);
                        assert(reads(ts, pos as int, l, next as int));
                        (Ok(l), next)
                    },
                    Err(e) => (Err(e), next),
                }
            } else if is_token(t, "#{") {
                let (res, next) = read_seq(toks, pos + 1, Paren::Curly);
                match res {
                    Ok(items) => {
                        let ghost raw = items@;
                        let v = MalVal::hashset(items);
                        assert(reads_items(ts, pos + 1, raw, "}"@, next as int));
                        assert(reads(ts, pos as int, v, next as int));
                        (Ok(v), next)
                    },
                    Err(e) => (Err(e), next),
                }
            } else if is_token(t, "{") {
                let (res, next) = read_pairs(toks, pos + 1);
                match res {
                    Ok(pairs) => {
                        let ghost raw = pairs@;
                        let v = MalVal::hashmap(pairs);
                        assert(reads_pairs(ts, pos + 1, raw, next as int));
                        assert(reads(ts, pos as int, v, next as int));
                        (Ok(v), next)
                    },
                    Err(e) => (Err(e), next),
                }
            } else {
                let a = read_atom(t);
                proof {
                    if a is Ok {
                        assert(reads(ts, pos as int, a->Ok_0, pos + 1));
                    }
                }
                (a, pos + 1)
            }
        },
    }
}

/// What reading the first form of `text` gives: the form that its first
/// tokens spell when they spell one, else the error that scanning them meets.
pub open spec fn read_outcome(text: Seq<char>, r: MalResult) -> bool {
    let toks = tokens_from(text, 0);
    match scan_form(toks, 0) {
        Scan::Ends(q) => r is Ok && reads(toks, 0, r->Ok_0, q),
        Scan::Fails(f) => r is Err && fails_with(r->Err_0, f),
    }
}

/// Reads the first form of the input.
pub fn read_str(input: String) -> (r: MalResult)
    ensures
        read_outcome(input@, r),
{
    let toks = tokenize(input.as_str());
    let (res, end) = read_form(&toks, 0);
    res
}

} // verus!
