//! Character-level text helpers shared by the entry codec and the writers.
//!
//! Text is handled as `Vec<char>` in executable code and as `Seq<char>` in
//! specifications; `str::lines`, `str::trim` and `str::split_once` are stated
//! here as spec functions and implemented by verified loops.
use vstd::prelude::*;

verus! {

/// Characters with the Unicode `White_Space` property (what `char::is_whitespace` tests).
pub open spec fn is_space(c: char) -> bool {
    let u = c as u32;
    (9 <= u <= 13) || u == 32 || u == 0x85 || u == 0xa0 || u == 0x1680 || (0x2000 <= u <= 0x200a)
        || u == 0x2028 || u == 0x2029 || u == 0x202f || u == 0x205f || u == 0x3000
}

/// `s` with leading white space removed.
pub open spec fn trim_start(s: Seq<char>) -> Seq<char>
    decreases s.len(),
{
    if s.len() > 0 && is_space(s[0]) {
        trim_start(s.drop_first())
    } else {
        s
    }
}

/// `s` with trailing white space removed.
pub open spec fn trim_end(s: Seq<char>) -> Seq<char>
    decreases s.len(),
{
    if s.len() > 0 && is_space(s.last()) {
        trim_end(s.drop_last())
    } else {
        s
    }
}

/// `s` with white space removed at both ends, as `str::trim` does.
pub open spec fn trim(s: Seq<char>) -> Seq<char> {
    trim_end(trim_start(s))
}

/// Position of the first `c` in `s`, or `s.len()` when there is none.
pub open spec fn index_of(s: Seq<char>, c: char) -> int
    decreases s.len(),
{
    if s.len() == 0 {
        0
    } else if s[0] == c {
        0
    } else {
        1 + index_of(s.drop_first(), c)
    }
}

/// The text of `s` before its first `c` (all of `s` when there is none).
pub open spec fn before_char(s: Seq<char>, c: char) -> Seq<char> {
    s.take(index_of(s, c))
}

/// The text of `s` after its first `c` (empty when there is none).
pub open spec fn after_char(s: Seq<char>, c: char) -> Seq<char> {
    if index_of(s, c) < s.len() {
        s.skip(index_of(s, c) + 1)
    } else {
        Seq::empty()
    }
}

/// `s` cut at every `c`, as `str::split` does; `k` occurrences give `k + 1` pieces.
pub open spec fn split_at_char(s: Seq<char>, c: char) -> Seq<Seq<char>>
    decreases s.len(),
{
    if s.len() == 0 {
        seq![Seq::empty()]
    } else {
        let p = split_at_char(s.drop_last(), c);
        if s.last() == c {
            p.push(Seq::empty())
        } else {
            p.update(p.len() - 1, p.last().push(s.last()))
        }
    }
}

/// A line that was ended by `'\n'` loses one trailing `'\r'`.
pub open spec fn strip_cr(l: Seq<char>) -> Seq<char> {
    if l.len() > 0 && l.last() == '\r' {
        l.drop_last()
    } else {
        l
    }
}

/// The lines of `s` as `str::lines` yields them: split at `'\n'`, a `'\r'`
/// before the `'\n'` dropped, and no empty line after a final `'\n'`.
pub open spec fn lines_of(s: Seq<char>) -> Seq<Seq<char>> {
    let p = split_at_char(s, '\n');
    let ended = p.drop_last().map_values(|l: Seq<char>| strip_cr(l));
    if p.last().len() == 0 {
        ended
    } else {
        ended.push(p.last())
    }
}

/// The lines of `s` each with its own line end, as `str::split_inclusive('\n')`
/// yields them: every line but a last one without a line break ends in `'\n'`.
pub open spec fn raw_lines(s: Seq<char>) -> Seq<Seq<char>> {
    let p = split_at_char(s, '\n');
    let ended = p.drop_last().map_values(|l: Seq<char>| l.push('\n'));
    if p.last().len() == 0 {
        ended
    } else {
        ended.push(p.last())
    }
}

/// The lines `ls` written one after the other.
pub open spec fn concat_lines(ls: Seq<Seq<char>>) -> Seq<char>
    decreases ls.len(),
{
    if ls.len() == 0 {
        Seq::empty()
    } else {
        concat_lines(ls.drop_last()) + ls.last()
    }
}

/// The line end of a raw line: `"\r\n"`, `"\n"`, or nothing.
pub open spec fn line_end(l: Seq<char>) -> Seq<char> {
    if l.len() > 0 && l.last() == '\n' {
        if l.len() > 1 && l[l.len() - 2] == '\r' {
            seq!['\r', '\n']
        } else {
            seq!['\n']
        }
    } else {
        Seq::empty()
    }
}

spec fn rejoin(p: Seq<Seq<char>>) -> Seq<char> {
    concat_lines(p.drop_last().map_values(|l: Seq<char>| l.push('\n'))) + p.last()
}

proof fn lemma_rejoin(s: Seq<char>)
    ensures
        split_at_char(s, '\n').len() >= 1,
        rejoin(split_at_char(s, '\n')) == s,
    decreases s.len(),
{
    if s.len() == 0 {
        assert(split_at_char(s, '\n').drop_last() =~= Seq::<Seq<char>>::empty());
        assert(split_at_char(s, '\n').drop_last().map_values(|l: Seq<char>| l.push('\n'))
            =~= Seq::<Seq<char>>::empty());
        assert(rejoin(split_at_char(s, '\n')) =~= s);
    } else {
        let q = split_at_char(s.drop_last(), '\n');
        lemma_rejoin(s.drop_last());
        let p = split_at_char(s, '\n');
        let mq = q.drop_last().map_values(|l: Seq<char>| l.push('\n'));
        if s.last() == '\n' {
            assert(p.drop_last() =~= q);
            assert(p.drop_last().map_values(|l: Seq<char>| l.push('\n')) =~= mq.push(
                q.last().push('\n'),
            ));
            let mp = mq.push(q.last().push('\n'));
            assert(mp.drop_last() =~= mq);
            assert(concat_lines(mp) == concat_lines(mq) + q.last().push('\n'));
            assert(p.last() =~= Seq::<char>::empty());
            assert(rejoin(p) =~= concat_lines(mq) + q.last().push('\n'));
        } else {
            assert(p.drop_last() =~= q.drop_last());
            assert(p.last() == q.last().push(s.last()));
        }
        assert(s.drop_last().push(s.last()) =~= s);
        assert(rejoin(p) =~= s);
    }
}

/// The raw lines of a text, written one after the other, give back the text.
pub proof fn lemma_raw_lines_concat(s: Seq<char>)
    ensures
        concat_lines(raw_lines(s)) == s,
{
    lemma_rejoin(s);
    let p = split_at_char(s, '\n');
    let ended = p.drop_last().map_values(|l: Seq<char>| l.push('\n'));
    if p.last().len() == 0 {
        assert(concat_lines(ended) + p.last() =~= concat_lines(ended));
    } else {
        assert(ended.push(p.last()).drop_last() =~= ended);
    }
}

/// The character sequences held by a vector of lines.
pub open spec fn views(ls: Seq<Vec<char>>) -> Seq<Seq<char>> {
    ls.map_values(|l: Vec<char>| l@)
}

/// The lines of `ls` each followed by `'\n'`.
pub open spec fn join_lines(ls: Seq<Seq<char>>) -> Seq<char>
    decreases ls.len(),
{
    if ls.len() == 0 {
        Seq::empty()
    } else {
        join_lines(ls.drop_last()) + ls.last() + seq!['\n']
    }
}

/// The number of white-space characters at the start of `s`.
pub open spec fn leading_spaces(s: Seq<char>) -> nat
    decreases s.len(),
{
    if s.len() > 0 && is_space(s[0]) {
        1 + leading_spaces(s.drop_first())
    } else {
        0
    }
}

/// The number of white-space characters at the end of `s`.
pub open spec fn trailing_spaces(s: Seq<char>) -> nat
    decreases s.len(),
{
    if s.len() > 0 && is_space(s.last()) {
        1 + trailing_spaces(s.drop_last())
    } else {
        0
    }
}

proof fn lemma_leading(s: Seq<char>)
    ensures
        leading_spaces(s) <= s.len(),
        trim_start(s) == s.skip(leading_spaces(s) as int),
        forall|i: int| 0 <= i < leading_spaces(s) ==> is_space(#[trigger] s[i]),
        leading_spaces(s) < s.len() ==> !is_space(s[leading_spaces(s) as int]),
    decreases s.len(),
{
    if s.len() > 0 && is_space(s[0]) {
        lemma_leading(s.drop_first());
        assert(s.drop_first().skip(leading_spaces(s.drop_first()) as int) =~= s.skip(
            leading_spaces(s) as int,
        ));
        assert forall|i: int| 0 <= i < leading_spaces(s) implies is_space(#[trigger] s[i]) by {
            if i > 0 {
                assert(s[i] == s.drop_first()[i - 1]);
            }
        }
    } else {
        assert(s.skip(0) =~= s);
    }
}

proof fn lemma_leading_at(s: Seq<char>, a: int)
    requires
        0 <= a <= s.len(),
        forall|i: int| 0 <= i < a ==> is_space(#[trigger] s[i]),
        a < s.len() ==> !is_space(s[a]),
    ensures
        leading_spaces(s) == a,
    decreases a,
{
    if a > 0 {
        assert forall|i: int| 0 <= i < a - 1 implies is_space(#[trigger] s.drop_first()[i]) by {
            assert(s.drop_first()[i] == s[i + 1]);
        }
        assert(is_space(s[0]));
        lemma_leading_at(s.drop_first(), a - 1);
    }
}

proof fn lemma_trailing(s: Seq<char>)
    ensures
        trailing_spaces(s) <= s.len(),
        trim_end(s) == s.take(s.len() - trailing_spaces(s)),
        forall|i: int| s.len() - trailing_spaces(s) <= i < s.len() ==> is_space(#[trigger] s[i]),
        trailing_spaces(s) < s.len() ==> !is_space(s[s.len() - trailing_spaces(s) - 1]),
    decreases s.len(),
{
    if s.len() > 0 && is_space(s.last()) {
        lemma_trailing(s.drop_last());
        assert(s.drop_last().take(s.drop_last().len() - trailing_spaces(s.drop_last())) =~= s.take(
            s.len() - trailing_spaces(s),
        ));
        assert forall|i: int| s.len() - trailing_spaces(s) <= i < s.len() implies is_space(
            #[trigger] s[i],
        ) by {
            if i < s.len() - 1 {
                assert(s[i] == s.drop_last()[i]);
            }
        }
    } else {
        assert(s.take(s.len() as int) =~= s);
    }
}

proof fn lemma_trailing_at(s: Seq<char>, b: int)
    requires
        0 <= b <= s.len(),
        forall|i: int| b <= i < s.len() ==> is_space(#[trigger] s[i]),
        b > 0 ==> !is_space(s[b - 1]),
    ensures
        trailing_spaces(s) == s.len() - b,
    decreases s.len() - b,
{
    if b < s.len() {
        assert forall|i: int| b <= i < s.len() - 1 implies is_space(#[trigger] s.drop_last()[i]) by {
            assert(s.drop_last()[i] == s[i]);
        }
        assert(is_space(s[s.len() - 1]));
        lemma_trailing_at(s.drop_last(), b);
    }
}

/// Trimming ignores trailing white space already taken away.
pub proof fn lemma_trim_of_trim_end(s: Seq<char>)
    ensures
        trim(trim_end(s)) == trim(s),
{
    lemma_leading(s);
    lemma_trailing(s);
    let a = leading_spaces(s) as int;
    let b = s.len() - trailing_spaces(s);
    let w = trim_end(s);
    if a == s.len() {
        // all white space
        lemma_trailing_at(s, 0);
        assert(w =~= Seq::<char>::empty());
        lemma_leading(w);
        assert(s.skip(a) =~= Seq::<char>::empty());
    } else {
        assert(b > a) by {
            if b <= a {
                assert(is_space(s[a]));
            }
        }
        lemma_leading_at(w, a);
        lemma_leading(w);
        let u = s.skip(a);
        lemma_trailing_at(u, b - a);
        lemma_trailing(u);
        let x = w.skip(a);
        assert(x =~= s.subrange(a, b));
        lemma_trailing_at(x, b - a);
        lemma_trailing(x);
        assert(x.take(x.len() - trailing_spaces(x)) =~= s.subrange(a, b));
        assert(u.take(u.len() - trailing_spaces(u)) =~= s.subrange(a, b));
    }
}

/// White space after a non-space prefix is trimmed from the end alone.
pub proof fn lemma_trim_end_after(a: Seq<char>, b: Seq<char>)
    requires
        a.len() > 0,
        !is_space(a.last()),
    ensures
        trim_end(a + b) == a + trim_end(b),
    decreases b.len(),
{
    if b.len() == 0 {
        assert(a + b =~= a);
        assert(a + trim_end(b) =~= a);
    } else {
        assert((a + b).last() == b.last());
        if is_space(b.last()) {
            assert((a + b).drop_last() =~= a + b.drop_last());
            lemma_trim_end_after(a, b.drop_last());
        }
    }
}

proof fn lemma_index_of_bounds(s: Seq<char>, c: char)
    ensures
        0 <= index_of(s, c) <= s.len(),
        index_of(s, c) < s.len() ==> s[index_of(s, c)] == c,
        forall|j: int| 0 <= j < index_of(s, c) ==> s[j] != c,
    decreases s.len(),
{
    if s.len() > 0 && s[0] != c {
        lemma_index_of_bounds(s.drop_first(), c);
        assert forall|j: int| 0 <= j < index_of(s, c) implies s[j] != c by {
            if j > 0 {
                assert(s[j] == s.drop_first()[j - 1]);
            }
        }
    }
}

pub proof fn lemma_index_of_at(s: Seq<char>, c: char, i: int)
    requires
        0 <= i <= s.len(),
        i < s.len() ==> s[i] == c,
        forall|j: int| 0 <= j < i ==> s[j] != c,
    ensures
        index_of(s, c) == i,
    decreases s.len(),
{
    if s.len() > 0 && i > 0 {
        assert forall|j: int| 0 <= j < i - 1 implies s.drop_first()[j] != c by {
            assert(s.drop_first()[j] == s[j + 1]);
        }
        lemma_index_of_at(s.drop_first(), c, i - 1);
    }
}

/// Tests `char::is_whitespace`.
pub fn is_space_char(c: char) -> (r: bool)
    ensures
        r == is_space(c),
{
    let u = c as u32;
    (9 <= u && u <= 13) || u == 32 || u == 0x85 || u == 0xa0 || u == 0x1680 || (0x2000 <= u && u
        <= 0x200a) || u == 0x2028 || u == 0x2029 || u == 0x202f || u == 0x205f || u == 0x3000
}

/// The characters of `s`.
pub fn chars_of(s: &str) -> (r: Vec<char>)
    ensures
        r@ == s@,
{
    let mut out: Vec<char> = Vec::new();
    for c in it: s.chars()
        invariant
            out@ == it.seq().take(it.index() as int),
            it.seq() == s@,
    {
        out.push(c);
    }
    out
}

/// Relies on String::push: appends one character.
#[verifier::external_body]
fn push_char(s: &mut String, c: char)
    ensures
        final(s)@ == old(s)@.push(c),
{
    s.push(c)
}

/// The characters of `v` as a `String`.
pub fn string_of(v: &Vec<char>) -> (r: String)
    ensures
        r@ == v@,
{
    let mut s = String::new();
    let mut i: usize = 0;
    while i < v.len()
        invariant
            i <= v.len(),
            s@ == v@.take(i as int),
        decreases v.len() - i,
    {
        push_char(&mut s, v[i]);
        assert(v@.take(i + 1) =~= v@.take(i as int).push(v@[i as int]));
        i += 1;
    }
    assert(v@.take(v.len() as int) =~= v@);
    s
}

/// Appends the characters of `s` to `out`.
pub fn push_str(out: &mut Vec<char>, s: &str)
    ensures
        final(out)@ == old(out)@ + s@,
{
    let ghost start = out@;
    for c in it: s.chars()
        invariant
            out@ == start + it.seq().take(it.index() as int),
            it.seq() == s@,
    {
        out.push(c);
        assert(start + it.seq().take(it.index() + 1) =~= start + it.seq().take(it.index() as int)
            + seq![c]);
    }
    assert(s@.take(s@.len() as int) =~= s@);
}

/// Appends the characters of `v` to `out`.
pub fn push_chars(out: &mut Vec<char>, v: &Vec<char>)
    ensures
        final(out)@ == old(out)@ + v@,
{
    let ghost start = out@;
    let mut i: usize = 0;
    while i < v.len()
        invariant
            i <= v.len(),
            out@ == start + v@.take(i as int),
        decreases v.len() - i,
    {
        out.push(v[i]);
        assert(start + v@.take(i + 1) =~= start + v@.take(i as int) + seq![v@[i as int]]);
        i += 1;
    }
    assert(v@.take(v.len() as int) =~= v@);
}

/// The characters `v[a..b]`.
pub fn subvec(v: &Vec<char>, a: usize, b: usize) -> (r: Vec<char>)
    requires
        a <= b <= v.len(),
    ensures
        r@ == v@.subrange(a as int, b as int),
{
    let mut out: Vec<char> = Vec::new();
    let mut i: usize = a;
    while i < b
        invariant
            a <= i <= b <= v.len(),
            out@ == v@.subrange(a as int, i as int),
        decreases b - i,
    {
        out.push(v[i]);
        assert(v@.subrange(a as int, i + 1) =~= v@.subrange(a as int, i as int).push(v@[i as int]));
        i += 1;
    }
    out
}

/// Whether the characters of `v` are exactly those of `s`.
pub fn eq_str(v: &Vec<char>, s: &str) -> (r: bool)
    ensures
        r == (v@ == s@),
{
    let w = chars_of(s);
    if v.len() != w.len() {
        return false;
    }
    let mut i: usize = 0;
    while i < v.len()
        invariant
            i <= v.len() == w.len(),
            w@ == s@,
            forall|j: int| 0 <= j < i ==> v@[j] == w@[j],
        decreases v.len() - i,
    {
        if v[i] != w[i] {
            return false;
        }
        i += 1;
    }
    assert(v@ =~= w@);
    true
}

/// `v` with white space removed at both ends.
pub fn trimmed(v: &Vec<char>) -> (r: Vec<char>)
    ensures
        r@ == trim(v@),
{
    let n = v.len();
    let mut a: usize = 0;
    assert(v@.subrange(0, n as int) =~= v@);
    while a < n && is_space_char(v[a])
        invariant
            a <= n == v.len(),
            trim_start(v@.subrange(a as int, n as int)) == trim_start(v@),
        decreases n - a,
    {
        assert(v@.subrange(a as int, n as int).drop_first() =~= v@.subrange(a + 1, n as int));
        a += 1;
    }
    assert(trim_start(v@) == v@.subrange(a as int, n as int));
    let mut b: usize = n;
    while b > a && is_space_char(v[b - 1])
        invariant
            a <= b <= n == v.len(),
            trim_end(v@.subrange(a as int, b as int)) == trim(v@),
        decreases b,
    {
        assert(v@.subrange(a as int, b as int).drop_last() =~= v@.subrange(a as int, b - 1));
        b -= 1;
    }
    subvec(v, a, b)
}

/// Position of the first `c` in `v`, or `v.len()` when there is none.
pub fn find_char(v: &Vec<char>, c: char) -> (r: usize)
    ensures
        r == index_of(v@, c),
        r <= v.len(),
        r < v.len() ==> v@[r as int] == c,
{
    let mut i: usize = 0;
    while i < v.len() && v[i] != c
        invariant
            i <= v.len(),
            forall|j: int| 0 <= j < i ==> v@[j] != c,
        decreases v.len() - i,
    {
        i += 1;
    }
    proof {
        lemma_index_of_at(v@, c, i as int);
    }
    i
}

/// `str::split_once`: the text before and after the first `c`, if there is one.
pub fn split_once(v: &Vec<char>, c: char) -> (r: Option<(Vec<char>, Vec<char>)>)
    ensures
        0 <= index_of(v@, c) <= v@.len(),
        r is None <==> index_of(v@, c) == v@.len(),
        r matches Some(p) ==> p.0@ == before_char(v@, c) && p.1@ == after_char(v@, c),
{
    proof {
        lemma_index_of_bounds(v@, c);
    }
    let i = find_char(v, c);
    if i == v.len() {
        None
    } else {
        Some((subvec(v, 0, i), subvec(v, i + 1, v.len())))
    }
}

/// The lines of `s`, as `str::lines` yields them.
pub fn split_lines(s: &Vec<char>) -> (r: Vec<Vec<char>>)
    ensures
        views(r@) == lines_of(s@),
{
    let mut done: Vec<Vec<char>> = Vec::new();
    let mut cur: Vec<char> = Vec::new();
    let mut i: usize = 0;
    while i < s.len()
        invariant
            i <= s.len(),
            split_at_char(s@.take(i as int), '\n').len() >= 1,
            views(done@) == split_at_char(s@.take(i as int), '\n').drop_last().map_values(
                |l: Seq<char>| strip_cr(l),
            ),
            cur@ == split_at_char(s@.take(i as int), '\n').last(),
        decreases s.len() - i,
    {
        let ghost t = s@.take(i + 1);
        assert(t.drop_last() =~= s@.take(i as int));
        assert(t.last() == s@[i as int]);
        let c = s[i];
        if c == '\n' {
            let n = cur.len();
            let line = if n > 0 && cur[n - 1] == '\r' {
                subvec(&cur, 0, n - 1)
            } else {
                subvec(&cur, 0, n)
            };
            proof {
                assert(cur@.subrange(0, n as int) =~= cur@);
                if n > 0 {
                    assert(cur@.drop_last() =~= cur@.subrange(0, n - 1));
                }
            }
            let ghost before = views(done@);
            assert(line@ == strip_cr(cur@));
            done.push(line);
            cur = Vec::new();
            proof {
                let p = split_at_char(s@.take(i as int), '\n');
                assert(split_at_char(t, '\n') == p.push(Seq::empty()));
                assert(split_at_char(t, '\n').drop_last() =~= p);
                assert(views(done@) =~= before.push(line@));
                assert(p.map_values(|l: Seq<char>| strip_cr(l)) =~= p.drop_last().map_values(
                    |l: Seq<char>| strip_cr(l),
                ).push(strip_cr(p.last())));
            }
        } else {
            cur.push(c);
            proof {
                let p = split_at_char(s@.take(i as int), '\n');
                let q = split_at_char(t, '\n');
                assert(q == p.update(p.len() - 1, p.last().push(c)));
                assert(q.drop_last() =~= p.drop_last());
            }
        }
        i += 1;
    }
    assert(s@.take(s.len() as int) =~= s@);
    if cur.len() > 0 {
        let ghost before = views(done@);
        let ghost last = cur@;
        done.push(cur);
        proof {
            assert(views(done@) =~= before.push(last));
            let p = split_at_char(s@, '\n');
            assert(views(done@) =~= p.drop_last().map_values(|l: Seq<char>| strip_cr(l)).push(
                p.last(),
            ));
        }
    }
    done
}

/// The raw lines of `s`, each with its own line end.
pub fn split_raw_lines(s: &Vec<char>) -> (r: Vec<Vec<char>>)
    ensures
        views(r@) == raw_lines(s@),
{
    let mut done: Vec<Vec<char>> = Vec::new();
    let mut cur: Vec<char> = Vec::new();
    let mut i: usize = 0;
    while i < s.len()
        invariant
            i <= s.len(),
            split_at_char(s@.take(i as int), '\n').len() >= 1,
            views(done@) == split_at_char(s@.take(i as int), '\n').drop_last().map_values(
                |l: Seq<char>| l.push('\n'),
            ),
            cur@ == split_at_char(s@.take(i as int), '\n').last(),
        decreases s.len() - i,
    {
        let ghost t = s@.take(i + 1);
        assert(t.drop_last() =~= s@.take(i as int));
        assert(t.last() == s@[i as int]);
        let c = s[i];
        let ghost p = split_at_char(s@.take(i as int), '\n');
        if c == '\n' {
            let ghost before = views(done@);
            let mut line = cur;
            line.push('\n');
            let ghost lv = line@;
            done.push(line);
            cur = Vec::new();
            proof {
                assert(split_at_char(t, '\n') == p.push(Seq::empty()));
                assert(split_at_char(t, '\n').drop_last() =~= p);
                assert(views(done@) =~= before.push(lv));
                assert(p.map_values(|l: Seq<char>| l.push('\n')) =~= p.drop_last().map_values(
                    |l: Seq<char>| l.push('\n'),
                ).push(p.last().push('\n')));
            }
        } else {
            cur.push(c);
            proof {
                let q = split_at_char(t, '\n');
                assert(q == p.update(p.len() - 1, p.last().push(c)));
                assert(q.drop_last() =~= p.drop_last());
            }
        }
        i += 1;
    }
    assert(s@.take(s.len() as int) =~= s@);
    if cur.len() > 0 {
        let ghost before = views(done@);
        let ghost last = cur@;
        done.push(cur);
        assert(views(done@) =~= before.push(last));
    }
    done
}

/// The line end of the raw line `l`.
pub fn line_end_of(l: &Vec<char>) -> (r: Vec<char>)
    ensures
        r@ == line_end(l@),
{
    let mut r: Vec<char> = Vec::new();
    let n = l.len();
    if n > 0 && l[n - 1] == '\n' {
        if n > 1 && l[n - 2] == '\r' {
            r.push('\r');
        }
        r.push('\n');
    }
    assert(r@ =~= line_end(l@));
    r
}

/// The lines `ls` written one after the other.
pub fn concat_vecs(ls: &Vec<Vec<char>>) -> (r: Vec<char>)
    ensures
        r@ == concat_lines(views(ls@)),
{
    let mut out: Vec<char> = Vec::new();
    let mut i: usize = 0;
    while i < ls.len()
        invariant
            i <= ls.len(),
            out@ == concat_lines(views(ls@).take(i as int)),
        decreases ls.len() - i,
    {
        push_chars(&mut out, &ls[i]);
        assert(views(ls@).take(i + 1).drop_last() =~= views(ls@).take(i as int));
        i += 1;
    }
    assert(views(ls@).take(ls.len() as int) =~= views(ls@));
    out
}

} // verus!
