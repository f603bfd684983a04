//! The delayed-start wrapper: a command run after `N` seconds is written as
//! `sh -c 'sleep N && exec COMMAND'`, each `'` of the command written as `'\''`.
use vstd::prelude::*;
use crate::decimal::{
    all_digits, decimal, digits_value, is_digit, is_digit_char, lemma_decimal, parse_u32,
    push_decimal,
};
use crate::text::{chars_of, push_str, string_of};

verus! {

/// What comes before the delay.
pub open spec fn wrap_head() -> Seq<char> {
    "sh -c 'sleep "@
}

/// What stands between the delay and the command.
pub open spec fn wrap_middle() -> Seq<char> {
    " && exec "@
}

/// The four characters `'\''` that stand for one `'` inside the wrapper.
pub open spec fn quoted_quote() -> Seq<char> {
    seq!['\'', '\\', '\'', '\'']
}

pub open spec fn quote_token(c: char) -> Seq<char> {
    if c == '\'' {
        quoted_quote()
    } else {
        seq![c]
    }
}

/// `s` with every `'` replaced by `'\''`.
pub open spec fn quote_escape(s: Seq<char>) -> Seq<char>
    decreases s.len(),
{
    if s.len() == 0 {
        Seq::empty()
    } else {
        quote_escape(s.drop_last()) + quote_token(s.last())
    }
}

/// `s` with every `'\''`, found from left to right, replaced by `'`.
pub open spec fn quote_unescape(s: Seq<char>) -> Seq<char>
    decreases s.len(),
{
    if s.len() == 0 {
        Seq::empty()
    } else if s.len() >= 4 && s.take(4) == quoted_quote() {
        seq!['\''] + quote_unescape(s.skip(4))
    } else {
        seq![s[0]] + quote_unescape(s.drop_first())
    }
}

/// The number of ASCII digits at the start of `s`.
pub open spec fn digit_run(s: Seq<char>) -> nat
    decreases s.len(),
{
    if s.len() > 0 && is_digit(s[0]) {
        1 + digit_run(s.drop_first())
    } else {
        0
    }
}

/// The digits and the quoted command of a wrapped command line: `s` is the
/// head, one or more ASCII digits, the middle, the quoted command (of any
/// length and any characters), and a closing `'`.
pub open spec fn wrapper_parts(s: Seq<char>) -> Option<(Seq<char>, Seq<char>)> {
    let h = wrap_head();
    let m = wrap_middle();
    if s.len() >= h.len() && s.take(h.len() as int) == h {
        let rest = s.skip(h.len() as int);
        let n = digit_run(rest);
        let tail = rest.skip(n as int);
        let body = tail.skip(m.len() as int).drop_last();
        if n >= 1 && tail.len() >= m.len() + 1 && tail.take(m.len() as int) == m && tail.last()
            == '\'' {
            Some((rest.take(n as int), body))
        } else {
            None
        }
    } else {
        None
    }
}

/// `exec` run after `delay` seconds; a delay of zero leaves `exec` as it is.
pub open spec fn wrap_spec(exec: Seq<char>, delay: nat) -> Seq<char> {
    if delay == 0 {
        exec
    } else {
        wrap_head() + decimal(delay) + wrap_middle() + quote_escape(exec) + seq!['\'']
    }
}

/// The number the delay digits stand for, when it fits in `u32`.
pub open spec fn delay_value(digits: Seq<char>) -> Option<u32> {
    if all_digits(digits) && digits_value(digits) <= u32::MAX {
        Some(digits_value(digits) as u32)
    } else {
        None
    }
}

/// The command and the delay of a command line; one that is not wrapped is
/// its own command, with no delay. Delay digits that do not read as a `u32`
/// give a delay of 0.
pub open spec fn unwrap_spec(exec: Seq<char>) -> (Seq<char>, Option<u32>) {
    match wrapper_parts(exec) {
        Some((digits, body)) => (
            quote_unescape(body),
            Some(
                match delay_value(digits) {
                    Some(d) => d,
                    None => 0,
                },
            ),
        ),
        None => (exec, None),
    }
}

/// The delay of a wrapped command line, when its digits read as a `u32`.
pub open spec fn delay_spec(exec: Seq<char>) -> Option<u32> {
    match wrapper_parts(exec) {
        Some((digits, _)) => delay_value(digits),
        None => None,
    }
}

proof fn lemma_quoted_quote()
    ensures
        quoted_quote().len() == 4,
        quoted_quote()[0] == '\'',
        quoted_quote()[1] == '\\',
        quoted_quote()[2] == '\'',
        quoted_quote()[3] == '\'',
{
}

proof fn lemma_not_quoted(t: Seq<char>)
    requires
        t.len() > 0,
        t[0] != '\'',
    ensures
        !(t.len() >= 4 && t.take(4) == quoted_quote()),
{
    lemma_quoted_quote();
    if t.len() >= 4 {
        assert(t.take(4)[0] == t[0]);
    }
}

proof fn lemma_quote_escape_concat(a: Seq<char>, b: Seq<char>)
    ensures
        quote_escape(a + b) == quote_escape(a) + quote_escape(b),
    decreases b.len(),
{
    if b.len() == 0 {
        assert(a + b =~= a);
    } else {
        lemma_quote_escape_concat(a, b.drop_last());
        assert((a + b).drop_last() =~= a + b.drop_last());
    }
}

proof fn lemma_quote_escape_front(s: Seq<char>)
    requires
        s.len() > 0,
    ensures
        quote_escape(s) == quote_token(s[0]) + quote_escape(s.drop_first()),
{
    lemma_quote_escape_concat(seq![s[0]], s.drop_first());
    assert(seq![s[0]] + s.drop_first() =~= s);
    assert(seq![s[0]].drop_last() =~= Seq::<char>::empty());
    let one = seq![s[0]];
    assert(one.last() == s[0]);
    assert(quote_escape(one) == quote_escape(one.drop_last()) + quote_token(one.last()));
    assert(quote_escape(one.drop_last()) =~= Seq::<char>::empty());
    assert(quote_escape(one) =~= quote_token(s[0]));
}

proof fn lemma_quote_round_trip(s: Seq<char>)
    ensures
        quote_unescape(quote_escape(s)) == s,
        quote_escape(s).len() >= s.len(),
    decreases s.len(),
{
    if s.len() > 0 {
        lemma_quote_escape_front(s);
        let rest = s.drop_first();
        lemma_quote_round_trip(rest);
        let t = quote_escape(rest);
        let e = quote_escape(s);
        if s[0] == '\'' {
            assert(e.take(4) =~= quoted_quote());
            assert(e.skip(4) =~= t);
        } else {
            assert(e.drop_first() =~= t);
            assert(e[0] == s[0]);
            lemma_not_quoted(e);
        }
        assert(seq![s[0]] + rest =~= s);
    }
}

proof fn lemma_digit_run_of(d: Seq<char>, t: Seq<char>)
    requires
        all_digits(d),
        t.len() > 0,
        !is_digit(t[0]),
    ensures
        digit_run(d + t) == d.len(),
    decreases d.len(),
{
    if d.len() == 0 {
        assert(d + t =~= t);
    } else {
        assert(is_digit(d[0]));
        assert((d + t).drop_first() =~= d.drop_first() + t);
        lemma_digit_run_of(d.drop_first(), t);
    }
}

/// A delay of at least one second wrapped around any command is read back
/// as that command and that delay; a delay of zero leaves the command as it is.
pub proof fn lemma_delay_round_trip(c: Seq<char>, d: u32)
    requires
        d >= 1,
    ensures
        unwrap_spec(wrap_spec(c, d as nat)) == (c, Some(d)),
        delay_spec(wrap_spec(c, d as nat)) == Some(d),
        wrap_spec(c, 0) == c,
{
    reveal_strlit("sh -c 'sleep ");
    reveal_strlit(" && exec ");
    lemma_decimal(d as nat);
    lemma_quote_round_trip(c);
    let h = wrap_head();
    let m = wrap_middle();
    let dg = decimal(d as nat);
    let q = quote_escape(c);
    let s = wrap_spec(c, d as nat);
    assert(s.take(h.len() as int) =~= h);
    let rest = s.skip(h.len() as int);
    assert(rest =~= dg + (m + q + seq!['\'']));
    lemma_digit_run_of(dg, m + q + seq!['\'']);
    let tail = rest.skip(dg.len() as int);
    assert(tail =~= m + q + seq!['\'']);
    assert(tail.take(m.len() as int) =~= m);
    assert(tail.skip(m.len() as int).drop_last() =~= q);
    assert(rest.take(dg.len() as int) =~= dg);
    assert(delay_value(dg) == Some(d));
}

/// `exec` made to start after `delay_seconds` seconds (unchanged when the delay is zero).
pub fn wrap_with_delay(exec: &str, delay_seconds: u32) -> (r: String)
    ensures
        r@ == wrap_spec(exec@, delay_seconds as nat),
{
    if delay_seconds == 0 {
        return exec.to_owned();
    }
    let v = chars_of(exec);
    let mut out: Vec<char> = Vec::new();
    push_str(&mut out, "sh -c 'sleep ");
    push_decimal(&mut out, delay_seconds as u128);
    push_str(&mut out, " && exec ");
    let ghost start = out@;
    let mut i: usize = 0;
    while i < v.len()
        invariant
            i <= v.len(),
            v@ == exec@,
            out@ == start + quote_escape(v@.take(i as int)),
        decreases v.len() - i,
    {
        let c = v[i];
        if c == '\'' {
            out.push('\'');
            out.push('\\');
            out.push('\'');
            out.push('\'');
        } else {
            out.push(c);
        }
        assert(v@.take(i + 1).drop_last() =~= v@.take(i as int));
        assert(out@ =~= start + quote_escape(v@.take(i + 1)));
        i += 1;
    }
    out.push('\'');
    assert(v@.take(v.len() as int) =~= v@);
    assert(out@ =~= wrap_spec(exec@, delay_seconds as nat));
    string_of(&out)
}

/// Whether `v[i..]` starts with the characters of `s`.
fn matches_at(v: &Vec<char>, i: usize, s: &str) -> (r: bool)
    requires
        i <= v.len(),
    ensures
        r == (i + s@.len() <= v.len() && v@.subrange(i as int, i + s@.len()) == s@),
{
    let w = chars_of(s);
    if w.len() > v.len() - i {
        return false;
    }
    let mut k: usize = 0;
    while k < w.len()
        invariant
            i + w.len() <= v.len(),
            w@ == s@,
            k <= w.len(),
            forall|j: int| 0 <= j < k ==> v@[i + j] == w@[j],
        decreases w.len() - k,
    {
        if v[i + k] != w[k] {
            assert(v@.subrange(i as int, i + s@.len())[k as int] != s@[k as int]);
            return false;
        }
        k += 1;
    }
    assert(v@.subrange(i as int, i + s@.len()) =~= s@);
    true
}

proof fn lemma_digit_run_bound(s: Seq<char>)
    ensures
        digit_run(s) <= s.len(),
        digit_run(s) < s.len() ==> !is_digit(s[digit_run(s) as int]),
    decreases s.len(),
{
    if s.len() > 0 && is_digit(s[0]) {
        lemma_digit_run_bound(s.drop_first());
    }
}

/// Locates the parts of a wrapped command line: the range of the digits and
/// the range of the quoted command, in `v`.
fn find_wrapper(v: &Vec<char>) -> (r: Option<(usize, usize, usize, usize)>)
    ensures
        match wrapper_parts(v@) {
            Some((digits, body)) => r matches Some((a, b, c, e)) && a <= b <= v.len() && c <= e
                <= v.len() && digits == v@.subrange(a as int, b as int) && body == v@.subrange(
                c as int,
                e as int,
            ),
            None => r is None,
        },
{
    proof {
        reveal_strlit("sh -c 'sleep ");
        reveal_strlit(" && exec ");
    }
    let h_len: usize = 13;
    let m_len: usize = 9;
    if !matches_at(v, 0, "sh -c 'sleep ") {
        return None;
    }
    assert(v@.subrange(0, 13) =~= v@.take(13));
    let ghost rest = v@.skip(13);
    let mut b: usize = h_len;
    while b < v.len() && is_digit_char(v[b])
        invariant
            h_len <= b <= v.len(),
            h_len == 13,
            rest == v@.skip(13),
            digit_run(rest) == (b - 13) + digit_run(v@.skip(b as int)),
        decreases v.len() - b,
    {
        assert(v@.skip(b as int).drop_first() =~= v@.skip(b + 1));
        b += 1;
    }
    let ghost n = digit_run(rest);
    assert(n == b - 13) by {
        if b < v.len() {
            assert(v@.skip(b as int)[0] == v@[b as int]);
        }
    }
    proof {
        lemma_digit_run_bound(rest);
        assert(rest.take(n as int) =~= v@.subrange(13, b as int));
    }
    let ghost tail = rest.skip(n as int);
    assert(tail =~= v@.skip(b as int));
    if b == h_len || v.len() - b < m_len + 1 {
        return None;
    }
    assert(tail.len() == v.len() - b);
    if !matches_at(v, b, " && exec ") {
        assert(tail.take(9) =~= v@.subrange(b as int, b + 9));
        return None;
    }
    if v[v.len() - 1] != '\'' {
        assert(tail.last() == v@[v.len() - 1]);
        return None;
    }
    let c = b + m_len;
    let e = v.len() - 1;
    assert(tail.take(9) =~= v@.subrange(b as int, b + 9));
    assert(tail.skip(9).drop_last() =~= v@.subrange(c as int, e as int));
    Some((13, b, c, e))
}

/// `v[c..e]` with every `'\''` replaced by `'`.
fn unescape_quotes(v: &Vec<char>, c: usize, e: usize) -> (r: Vec<char>)
    requires
        c <= e <= v.len(),
    ensures
        r@ == quote_unescape(v@.subrange(c as int, e as int)),
{
    let ghost s = v@.subrange(c as int, e as int);
    let mut out: Vec<char> = Vec::new();
    let mut i: usize = c;
    assert(s.skip(0) =~= s);
    assert(out@ + s =~= s);
    while i < e
        invariant
            c <= i <= e <= v.len(),
            s == v@.subrange(c as int, e as int),
            out@ + quote_unescape(s.skip(i - c)) == quote_unescape(s),
        decreases e - i,
    {
        let ghost t = s.skip(i - c);
        let ghost before = out@;
        if e - i >= 4 && v[i] == '\'' && v[i + 1] == '\\' && v[i + 2] == '\'' && v[i + 3] == '\'' {
            assert(t.take(4) =~= quoted_quote());
            assert(t.skip(4) =~= s.skip(i + 4 - c));
            out.push('\'');
            assert(out@ + quote_unescape(s.skip(i + 4 - c)) =~= before + quote_unescape(t));
            i += 4;
        } else {
            assert(!(t.len() >= 4 && t.take(4) == quoted_quote())) by {
                lemma_quoted_quote();
                if t.len() >= 4 && t.take(4) == quoted_quote() {
                    assert(t.take(4)[0] == v@[i as int]);
                    assert(t.take(4)[1] == v@[i + 1]);
                    assert(t.take(4)[2] == v@[i + 2]);
                    assert(t.take(4)[3] == v@[i + 3]);
                    assert(quoted_quote()[1] == '\\');
                }
            }
            assert(t.drop_first() =~= s.skip(i + 1 - c));
            assert(t[0] == v@[i as int]);
            out.push(v[i]);
            assert(out@ + quote_unescape(s.skip(i + 1 - c)) =~= before + quote_unescape(t));
            i += 1;
        }
    }
    assert(s.skip(e - c) =~= Seq::<char>::empty());
    assert(out@ + Seq::<char>::empty() =~= out@);
    out
}


/// The value of the delay digits `v[a..b]`, when they read as a `u32`.
fn read_delay(v: &Vec<char>, a: usize, b: usize) -> (r: Option<u32>)
    requires
        a <= b <= v.len(),
    ensures
        r == delay_value(v@.subrange(a as int, b as int)),
{
    let mut i: usize = a;
    while i < b && is_digit_char(v[i])
        invariant
            a <= i <= b <= v.len(),
            forall|j: int| a <= j < i ==> #[trigger] is_digit(v@[j]),
        decreases b - i,
    {
        i += 1;
    }
    if i < b {
        assert(!is_digit(v@.subrange(a as int, b as int)[i - a]));
        return None;
    }
    assert forall|j: int| 0 <= j < b - a implies #[trigger] is_digit(v@.subrange(a as int, b as int)[j]) by {
        assert(v@.subrange(a as int, b as int)[j] == v@[a + j]);
    }
    parse_u32(v, a, b)
}

/// The command and the delay of `exec`: `(COMMAND, Some(N))` for a wrapped
/// command line, `(exec, None)` for any other.
pub fn unwrap_delay(exec: &str) -> (r: (String, Option<u32>))
    ensures
        r.0@ == unwrap_spec(exec@).0,
        r.1 == unwrap_spec(exec@).1,
{
    let v = chars_of(exec);
    match find_wrapper(&v) {
        Some((a, b, c, e)) => {
            let delay = match read_delay(&v, a, b) {
                Some(d) => d,
                None => 0,
            };
            let command = unescape_quotes(&v, c, e);
            (string_of(&command), Some(delay))
        },
        None => (exec.to_owned(), None),
    }
}

/// The delay of `exec`, when it is a wrapped command line whose delay fits in `u32`.
pub fn get_delay(exec: &str) -> (r: Option<u32>)
    ensures
        r == delay_spec(exec@),
{
    let v = chars_of(exec);
    match find_wrapper(&v) {
        Some((a, b, _, _)) => read_delay(&v, a, b),
        None => None,
    }
}

} // verus!
