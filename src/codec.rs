//! Reading the `[Desktop Entry]` group of a file, the validity test, and the
//! backslash escapes of `Name` and `Comment` values.
use vstd::prelude::*;
use crate::entry::{DesktopEntry, EntryError, EntryModel, empty_model, list_view};
use crate::text::{
    after_char, before_char, chars_of, index_of, lines_of, split_at_char, split_lines,
    split_once, string_of, trim, trimmed, views, eq_str, is_space, trim_start, trim_end, strip_cr,
    lemma_index_of_at, lemma_trim_end_after, lemma_trim_of_trim_end,
};

verus! {

// ---------------------------------------------------------------- escapes

/// How one character is written in an escaped value.
pub open spec fn escape_token(c: char) -> Seq<char> {
    if c == '\\' {
        seq!['\\', '\\']
    } else if c == '\n' {
        seq!['\\', 'n']
    } else if c == '\t' {
        seq!['\\', 't']
    } else if c == '\r' {
        seq!['\\', 'r']
    } else {
        seq![c]
    }
}

/// `s` with `\`, line feed, tab and carriage return written as `\\`, `\n`, `\t`, `\r`.
pub open spec fn escape_spec(s: Seq<char>) -> Seq<char>
    decreases s.len(),
{
    if s.len() == 0 {
        Seq::empty()
    } else {
        escape_spec(s.drop_last()) + escape_token(s.last())
    }
}

/// `s` with every two-character sequence `a b`, found from left to right, replaced by `r`.
pub open spec fn replace_pair(s: Seq<char>, a: char, b: char, r: char) -> Seq<char>
    decreases s.len(),
{
    if s.len() == 0 {
        Seq::empty()
    } else if s.len() >= 2 && s[0] == a && s[1] == b {
        seq![r] + replace_pair(s.skip(2), a, b, r)
    } else {
        seq![s[0]] + replace_pair(s.drop_first(), a, b, r)
    }
}

/// `s` with `\n`, `\t`, `\r` and then `\\` replaced, one kind after the other.
pub open spec fn unescape_spec(s: Seq<char>) -> Seq<char> {
    let s1 = replace_pair(s, '\\', 'n', '\n');
    let s2 = replace_pair(s1, '\\', 't', '\t');
    let s3 = replace_pair(s2, '\\', 'r', '\r');
    replace_pair(s3, '\\', '\\', '\\')
}

/// `v` with every `a b`, found from left to right, replaced by `r`.
fn replace_pair_exec(v: &Vec<char>, a: char, b: char, r: char) -> (out: Vec<char>)
    ensures
        out@ == replace_pair(v@, a, b, r),
{
    let ghost s = v@;
    let mut out: Vec<char> = Vec::new();
    let mut i: usize = 0;
    assert(s.skip(0) =~= s);
    assert(out@ + s =~= s);
    while i < v.len()
        invariant
            i <= v.len(),
            s == v@,
            out@ + replace_pair(s.skip(i as int), a, b, r) == replace_pair(s, a, b, r),
        decreases v.len() - i,
    {
        let ghost t = s.skip(i as int);
        let ghost before = out@;
        assert(t[0] == v@[i as int]);
        if v.len() - i >= 2 && v[i] == a && v[i + 1] == b {
            assert(t[1] == v@[i + 1]);
            assert(t.skip(2) =~= s.skip(i + 2));
            out.push(r);
            assert(out@ + replace_pair(s.skip(i + 2), a, b, r) =~= before + replace_pair(t, a, b, r));
            i += 2;
        } else {
            assert(t.len() >= 2 ==> t[1] == v@[i + 1]);
            assert(t.drop_first() =~= s.skip(i + 1));
            out.push(v[i]);
            assert(out@ + replace_pair(s.skip(i + 1), a, b, r) =~= before + replace_pair(t, a, b, r));
            i += 1;
        }
    }
    assert(s.skip(v.len() as int) =~= Seq::<char>::empty());
    assert(out@ + Seq::<char>::empty() =~= out@);
    out
}

/// Undoes the backslash escapes of a `Name` or `Comment` value.
pub fn unescape_chars(v: &Vec<char>) -> (r: Vec<char>)
    ensures
        r@ == unescape_spec(v@),
{
    let s1 = replace_pair_exec(v, '\\', 'n', '\n');
    let s2 = replace_pair_exec(&s1, '\\', 't', '\t');
    let s3 = replace_pair_exec(&s2, '\\', 'r', '\r');
    replace_pair_exec(&s3, '\\', '\\', '\\')
}

/// Undoes the backslash escapes of a `Name` or `Comment` value.
pub fn unescape_value(value: &str) -> (r: String)
    ensures
        r@ == unescape_spec(value@),
{
    let v = chars_of(value);
    string_of(&unescape_chars(&v))
}

/// Escapes the characters of `v` for a `Name` or `Comment` value.
pub fn escape_chars(v: &Vec<char>) -> (r: Vec<char>)
    ensures
        r@ == escape_spec(v@),
{
    let mut out: Vec<char> = Vec::new();
    let mut i: usize = 0;
    while i < v.len()
        invariant
            i <= v.len(),
            out@ == escape_spec(v@.take(i as int)),
        decreases v.len() - i,
    {
        let c = v[i];
        if c == '\\' {
            out.push('\\');
            out.push('\\');
        } else if c == '\n' {
            out.push('\\');
            out.push('n');
        } else if c == '\t' {
            out.push('\\');
            out.push('t');
        } else if c == '\r' {
            out.push('\\');
            out.push('r');
        } else {
            out.push(c);
        }
        assert(v@.take(i + 1).drop_last() =~= v@.take(i as int));
        assert(out@ =~= escape_spec(v@.take(i + 1)));
        i += 1;
    }
    assert(v@.take(v.len() as int) =~= v@);
    out
}

/// Escapes `\`, line feed, tab and carriage return for a `Name` or `Comment` value.
pub fn escape_value(value: &str) -> (r: String)
    ensures
        r@ == escape_spec(value@),
{
    let v = chars_of(value);
    string_of(&escape_chars(&v))
}

/// No backslash of `s` is directly followed by `n`, `t` or `r`: the text holds
/// nothing that would read as an escape sequence once its backslashes are doubled.
pub open spec fn no_escape_ambiguity(s: Seq<char>) -> bool {
    forall|i: int|
        0 <= i < s.len() - 1 && #[trigger] s[i] == '\\' ==> s[i + 1] != 'n' && s[i + 1] != 't'
            && s[i + 1] != 'r'
}

/// How `c` stands in an escaped text after the first `k` of the four
/// replacements that undo the escapes.
spec fn stage_token(c: char, k: int) -> Seq<char> {
    if c == '\\' {
        if k < 4 {
            seq!['\\', '\\']
        } else {
            seq!['\\']
        }
    } else if c == '\n' {
        if k >= 1 {
            seq!['\n']
        } else {
            seq!['\\', 'n']
        }
    } else if c == '\t' {
        if k >= 2 {
            seq!['\t']
        } else {
            seq!['\\', 't']
        }
    } else if c == '\r' {
        if k >= 3 {
            seq!['\r']
        } else {
            seq!['\\', 'r']
        }
    } else {
        seq![c]
    }
}

spec fn stage(s: Seq<char>, k: int) -> Seq<char>
    decreases s.len(),
{
    if s.len() == 0 {
        Seq::empty()
    } else {
        stage_token(s[0], k) + stage(s.drop_first(), k)
    }
}

/// The second character of the sequence that replacement `k` undoes.
spec fn pass_second(k: int) -> char {
    if k == 0 {
        'n'
    } else if k == 1 {
        't'
    } else if k == 2 {
        'r'
    } else {
        '\\'
    }
}

/// The character that replacement `k` writes.
spec fn pass_result(k: int) -> char {
    if k == 0 {
        '\n'
    } else if k == 1 {
        '\t'
    } else if k == 2 {
        '\r'
    } else {
        '\\'
    }
}

proof fn lemma_stage_push(a: Seq<char>, c: char, k: int)
    ensures
        stage(a.push(c), k) == stage(a, k) + stage_token(c, k),
    decreases a.len(),
{
    if a.len() == 0 {
        assert(a.push(c).drop_first() =~= Seq::<char>::empty());
        assert(a.push(c)[0] == c);
        assert(stage(Seq::<char>::empty(), k) == Seq::<char>::empty());
        assert(stage(a, k) == Seq::<char>::empty());
        assert(stage(a.push(c), k) =~= stage_token(c, k));
    } else {
        assert(a.push(c).drop_first() =~= a.drop_first().push(c));
        lemma_stage_push(a.drop_first(), c, k);
        assert(stage(a.push(c), k) =~= stage(a, k) + stage_token(c, k));
    }
}

proof fn lemma_escape_is_stage(s: Seq<char>)
    ensures
        escape_spec(s) == stage(s, 0),
    decreases s.len(),
{
    if s.len() > 0 {
        lemma_escape_is_stage(s.drop_last());
        lemma_stage_push(s.drop_last(), s.last(), 0);
        assert(s.drop_last().push(s.last()) =~= s);
    }
}

proof fn lemma_last_stage(s: Seq<char>)
    ensures
        stage(s, 4) == s,
    decreases s.len(),
{
    if s.len() > 0 {
        lemma_last_stage(s.drop_first());
        assert(stage_token(s[0], 4) =~= seq![s[0]]);
        assert(seq![s[0]] + s.drop_first() =~= s);
    }
}

proof fn lemma_stage_first(s: Seq<char>, k: int)
    requires
        s.len() > 0,
        0 <= k < 3,
        stage(s, k)[0] == pass_second(k),
    ensures
        s[0] == pass_second(k),
{
    assert(stage(s, k)[0] == stage_token(s[0], k)[0]);
}

proof fn lemma_pass(s: Seq<char>, k: int)
    requires
        0 <= k < 4,
        no_escape_ambiguity(s),
    ensures
        replace_pair(stage(s, k), '\\', pass_second(k), pass_result(k)) == stage(s, k + 1),
    decreases s.len(),
{
    let x = pass_second(k);
    let y = pass_result(k);
    if s.len() > 0 {
        let c = s[0];
        let rest = s.drop_first();
        assert(no_escape_ambiguity(rest)) by {
            assert forall|i: int| 0 <= i < rest.len() - 1 && #[trigger] rest[i] == '\\' implies rest[i
                + 1] != 'n' && rest[i + 1] != 't' && rest[i + 1] != 'r' by {
                assert(s[i + 1] == rest[i]);
                assert(s[i + 2] == rest[i + 1]);
            }
        }
        lemma_pass(rest, k);
        let tok = stage_token(c, k);
        let tt = stage(rest, k);
        let full = tok + tt;
        assert(stage(s, k) == full);
        assert(stage(s, k + 1) == stage_token(c, k + 1) + stage(rest, k + 1));
        if tok.len() == 2 && tok[1] == x {
            assert(full.skip(2) =~= tt);
            assert(full[0] == '\\' && full[1] == x);
            assert(stage_token(c, k + 1) =~= seq![y]);
        } else if tok.len() == 2 {
            assert(full[0] == '\\');
            assert(full[1] == tok[1]);
            let f1 = full.drop_first();
            assert(f1 =~= seq![tok[1]] + tt);
            if tok[1] == '\\' {
                assert(c == '\\' && k < 3);
                if tt.len() > 0 {
                    assert(f1[1] == tt[0]);
                    if tt[0] == x {
                        lemma_stage_first(rest, k);
                        assert(s[1] == rest[0]);
                        assert(s[0] == '\\');
                    }
                }
                assert(f1.drop_first() =~= tt);
            } else {
                assert(f1.drop_first() =~= tt);
            }
            assert(stage_token(c, k + 1) =~= tok);
            assert(replace_pair(full, '\\', x, y) == seq![full[0]] + replace_pair(f1, '\\', x, y));
            assert(f1[0] == tok[1]);
            assert(replace_pair(f1, '\\', x, y) == seq![f1[0]] + replace_pair(f1.drop_first(), '\\', x, y));
            assert(replace_pair(full, '\\', x, y) =~= tok + replace_pair(tt, '\\', x, y));
        } else {
            assert(tok =~= seq![c]);
            assert(c != '\\');
            assert(full.drop_first() =~= tt);
            assert(stage_token(c, k + 1) =~= tok);
        }
    }
}

/// Escaping and then unescaping gives back the value, for every value in
/// which no backslash is followed by `n`, `t` or `r`.
pub proof fn lemma_escape_round_trip(s: Seq<char>)
    requires
        no_escape_ambiguity(s),
    ensures
        unescape_spec(escape_spec(s)) == s,
{
    lemma_escape_is_stage(s);
    lemma_pass(s, 0);
    lemma_pass(s, 1);
    lemma_pass(s, 2);
    lemma_pass(s, 3);
    lemma_last_stage(s);
}

// ---------------------------------------------------------------- lists

/// The non-empty trimmed items of `pieces`, in order.
pub open spec fn list_items(pieces: Seq<Seq<char>>) -> Seq<Seq<char>>
    decreases pieces.len(),
{
    if pieces.len() == 0 {
        Seq::empty()
    } else {
        let r = list_items(pieces.drop_last());
        let t = trim(pieces.last());
        if t.len() > 0 {
            r.push(t)
        } else {
            r
        }
    }
}

/// The items of a `;`-separated list value: split at `;`, trimmed, empty ones dropped.
pub open spec fn list_spec(s: Seq<char>) -> Seq<Seq<char>> {
    list_items(split_at_char(s, ';'))
}

/// Reads a `;`-separated list value.
pub fn parse_list(v: &Vec<char>) -> (r: Vec<String>)
    ensures
        list_view(r@) == list_spec(v@),
{
    let mut out: Vec<String> = Vec::new();
    let mut cur: Vec<char> = Vec::new();
    let mut i: usize = 0;
    while i < v.len()
        invariant
            i <= v.len(),
            split_at_char(v@.take(i as int), ';').len() >= 1,
            list_view(out@) == list_items(split_at_char(v@.take(i as int), ';').drop_last()),
            cur@ == split_at_char(v@.take(i as int), ';').last(),
        decreases v.len() - i,
    {
        let ghost t = v@.take(i + 1);
        let ghost p = split_at_char(v@.take(i as int), ';');
        assert(t.drop_last() =~= v@.take(i as int));
        assert(t.last() == v@[i as int]);
        let c = v[i];
        if c == ';' {
            let item = trimmed(&cur);
            let ghost before = list_view(out@);
            if item.len() > 0 {
                out.push(string_of(&item));
                assert(list_view(out@) =~= before.push(item@));
            }
            cur = Vec::new();
            assert(split_at_char(t, ';') == p.push(Seq::empty()));
            assert(split_at_char(t, ';').drop_last() =~= p);
        } else {
            cur.push(c);
            assert(split_at_char(t, ';') == p.update(p.len() - 1, p.last().push(c)));
            assert(split_at_char(t, ';').drop_last() =~= p.drop_last());
        }
        i += 1;
    }
    assert(v@.take(v.len() as int) =~= v@);
    let item = trimmed(&cur);
    let ghost before = list_view(out@);
    if item.len() > 0 {
        out.push(string_of(&item));
        assert(list_view(out@) =~= before.push(item@));
    }
    out
}

// ---------------------------------------------------------------- parsing

/// The code of `c` with ASCII capitals made small.
pub open spec fn lower_code(c: char) -> u32 {
    if 65 <= c as u32 <= 90 {
        (c as u32 + 32) as u32
    } else {
        c as u32
    }
}

/// Whether a boolean value reads as true: `true` in any mix of ASCII case.
pub open spec fn is_true_spec(v: Seq<char>) -> bool {
    v.len() == 4 && lower_code(v[0]) == 116 && lower_code(v[1]) == 114 && lower_code(v[2]) == 117
        && lower_code(v[3]) == 101
}

fn lower_code_exec(c: char) -> (r: u32)
    ensures
        r == lower_code(c),
{
    let u = c as u32;
    if 65 <= u && u <= 90 {
        u + 32
    } else {
        u
    }
}

/// `str::eq_ignore_ascii_case` against `"true"`.
fn is_true(v: &Vec<char>) -> (r: bool)
    ensures
        r == is_true_spec(v@),
{
    v.len() == 4 && lower_code_exec(v[0]) == 116 && lower_code_exec(v[1]) == 114
        && lower_code_exec(v[2]) == 117 && lower_code_exec(v[3]) == 101
}

/// The entry after reading `key=value` inside the `[Desktop Entry]` group.
pub open spec fn apply_key(e: EntryModel, key: Seq<char>, value: Seq<char>) -> EntryModel {
    if key == "Name"@ {
        EntryModel { name: unescape_spec(value), ..e }
    } else if key == "Exec"@ {
        EntryModel { exec_line: value, ..e }
    } else if key == "Icon"@ {
        EntryModel { icon: Some(value), ..e }
    } else if key == "Comment"@ {
        EntryModel { comment: Some(unescape_spec(value)), ..e }
    } else if key == "Hidden"@ {
        EntryModel { hidden: is_true_spec(value), ..e }
    } else if key == "Terminal"@ {
        EntryModel { terminal: is_true_spec(value), ..e }
    } else if key == "NoDisplay"@ {
        EntryModel { no_display: is_true_spec(value), ..e }
    } else if key == "TryExec"@ {
        EntryModel { try_exec: Some(value), ..e }
    } else if key == "OnlyShowIn"@ {
        EntryModel { only_show_in: list_spec(value), ..e }
    } else if key == "NotShowIn"@ {
        EntryModel { not_show_in: list_spec(value), ..e }
    } else if key == "Categories"@ {
        EntryModel { categories: list_spec(value), ..e }
    } else if key == "Keywords"@ {
        EntryModel { keywords: list_spec(value), ..e }
    } else {
        e
    }
}

/// The header line of the group that is read.
pub open spec fn main_header() -> Seq<char> {
    "[Desktop Entry]"@
}

/// Reading one line: blank lines and `#` comments are skipped, a `[...]`
/// line opens a group, and inside `[Desktop Entry]` a `key=value` line
/// (both sides trimmed) sets a recognised key.
pub open spec fn parse_step(st: (EntryModel, bool), line: Seq<char>) -> (EntryModel, bool) {
    let t = trim(line);
    if t.len() == 0 || t[0] == '#' {
        st
    } else if t[0] == '[' {
        (st.0, t == main_header())
    } else if !st.1 || index_of(t, '=') == t.len() {
        st
    } else {
        (apply_key(st.0, trim(before_char(t, '=')), trim(after_char(t, '='))), st.1)
    }
}

/// The entry and the "inside `[Desktop Entry]`" flag after reading `ls`.
pub open spec fn parse_lines(ls: Seq<Seq<char>>) -> (EntryModel, bool)
    decreases ls.len(),
{
    if ls.len() == 0 {
        (empty_model(), false)
    } else {
        parse_step(parse_lines(ls.drop_last()), ls.last())
    }
}

/// The entry that a file's text describes.
pub open spec fn parse_spec(content: Seq<char>) -> EntryModel {
    parse_lines(lines_of(content)).0
}

fn set_key(e: &mut DesktopEntry, key: &Vec<char>, value: &Vec<char>)
    ensures
        final(e)@ == apply_key(old(e)@, key@, value@),
{
    if eq_str(key, "Name") {
        e.name = string_of(&unescape_chars(value));
    } else if eq_str(key, "Exec") {
        e.exec_line = string_of(value);
    } else if eq_str(key, "Icon") {
        e.icon = Some(string_of(value));
    } else if eq_str(key, "Comment") {
        e.comment = Some(string_of(&unescape_chars(value)));
    } else if eq_str(key, "Hidden") {
        e.hidden = is_true(value);
    } else if eq_str(key, "Terminal") {
        e.terminal = is_true(value);
    } else if eq_str(key, "NoDisplay") {
        e.no_display = is_true(value);
    } else if eq_str(key, "TryExec") {
        e.try_exec = Some(string_of(value));
    } else if eq_str(key, "OnlyShowIn") {
        e.only_show_in = parse_list(value);
    } else if eq_str(key, "NotShowIn") {
        e.not_show_in = parse_list(value);
    } else if eq_str(key, "Categories") {
        e.categories = parse_list(value);
    } else if eq_str(key, "Keywords") {
        e.keywords = parse_list(value);
    }
}

/// An entry with no field set.
pub fn empty_entry() -> (r: DesktopEntry)
    ensures
        r@ == empty_model(),
{
    let r = DesktopEntry {
        name: String::new(),
        exec_line: String::new(),
        icon: None,
        comment: None,
        hidden: false,
        terminal: false,
        only_show_in: Vec::new(),
        not_show_in: Vec::new(),
        try_exec: None,
        no_display: false,
        categories: Vec::new(),
        keywords: Vec::new(),
    };
    assert(r@.only_show_in =~= Seq::<Seq<char>>::empty());
    assert(r@.not_show_in =~= Seq::<Seq<char>>::empty());
    assert(r@.categories =~= Seq::<Seq<char>>::empty());
    assert(r@.keywords =~= Seq::<Seq<char>>::empty());
    r
}

/// Reads the `[Desktop Entry]` group of a file's text. Every text is read:
/// lines that mean nothing to the group are skipped.
pub fn parse_desktop_file(content: &str) -> (r: Result<DesktopEntry, EntryError>)
    ensures
        r matches Ok(e) && e@ == parse_spec(content@),
{
    let v = chars_of(content);
    let lines = split_lines(&v);
    let mut e = empty_entry();
    let mut in_group = false;
    let mut i: usize = 0;
    while i < lines.len()
        invariant
            i <= lines.len(),
            views(lines@) == lines_of(content@),
            (e@, in_group) == parse_lines(views(lines@).take(i as int)),
        decreases lines.len() - i,
    {
        let ghost ls = views(lines@);
        assert(ls.take(i + 1).drop_last() =~= ls.take(i as int));
        assert(ls.take(i + 1).last() == lines@[i as int]@);
        let t = trimmed(&lines[i]);
        if t.len() == 0 || t[0] == '#' {
        } else if t[0] == '[' {
            in_group = eq_str(&t, "[Desktop Entry]");
        } else if in_group {
            match split_once(&t, '=') {
                Some((k, val)) => {
                    let key = trimmed(&k);
                    let value = trimmed(&val);
                    set_key(&mut e, &key, &value);
                },
                None => {},
            }
        }
        i += 1;
    }
    assert(views(lines@).take(lines.len() as int) =~= views(lines@));
    Ok(e)
}

// ---------------------------------------------------------------- validity

/// What the validity test has seen: a `Type` key, whether its value was
/// `Application`, a non-empty `Name`, a non-empty `Exec`, and whether the
/// line read last lies in the `[Desktop Entry]` group.
pub struct ValidityScan {
    pub has_type: bool,
    pub is_application: bool,
    pub has_name: bool,
    pub has_exec: bool,
    pub in_group: bool,
}

pub open spec fn validity_step(st: ValidityScan, line: Seq<char>) -> ValidityScan {
    let t = trim(line);
    if t == main_header() {
        ValidityScan { in_group: true, ..st }
    } else if t.len() > 0 && t[0] == '[' {
        ValidityScan { in_group: false, ..st }
    } else if !st.in_group || index_of(t, '=') == t.len() {
        st
    } else {
        let key = trim(before_char(t, '='));
        let value = trim(after_char(t, '='));
        if key == "Type"@ {
            ValidityScan { has_type: true, is_application: value == "Application"@, ..st }
        } else if key == "Name"@ {
            ValidityScan { has_name: value.len() > 0, ..st }
        } else if key == "Exec"@ {
            ValidityScan { has_exec: value.len() > 0, ..st }
        } else {
            st
        }
    }
}

pub open spec fn validity_lines(ls: Seq<Seq<char>>) -> ValidityScan
    decreases ls.len(),
{
    if ls.len() == 0 {
        ValidityScan {
            has_type: false,
            is_application: false,
            has_name: false,
            has_exec: false,
            in_group: false,
        }
    } else {
        validity_step(validity_lines(ls.drop_last()), ls.last())
    }
}

/// Whether lines `ls` describe an application: inside `[Desktop Entry]`, the
/// last `Type` is `Application`, the last `Name` and the last `Exec` are not
/// empty once trimmed.
pub open spec fn valid_lines(ls: Seq<Seq<char>>) -> bool {
    let st = validity_lines(ls);
    st.has_type && st.is_application && st.has_name && st.has_exec
}

/// Whether a file's text describes an application that can be launched.
pub open spec fn valid_spec(content: Seq<char>) -> bool {
    valid_lines(lines_of(content))
}

/// Whether a file's text is a valid application entry: `Type=Application`
/// and a non-empty `Name` and `Exec` in its `[Desktop Entry]` group.
pub fn is_valid_desktop_entry(content: &str) -> (r: bool)
    ensures
        r == valid_spec(content@),
{
    let v = chars_of(content);
    let lines = split_lines(&v);
    let mut has_type = false;
    let mut is_application = false;
    let mut has_name = false;
    let mut has_exec = false;
    let mut in_group = false;
    let mut i: usize = 0;
    while i < lines.len()
        invariant
            i <= lines.len(),
            views(lines@) == lines_of(content@),
            (ValidityScan { has_type, is_application, has_name, has_exec, in_group })
                == validity_lines(views(lines@).take(i as int)),
        decreases lines.len() - i,
    {
        let ghost ls = views(lines@);
        assert(ls.take(i + 1).drop_last() =~= ls.take(i as int));
        assert(ls.take(i + 1).last() == lines@[i as int]@);
        let t = trimmed(&lines[i]);
        if eq_str(&t, "[Desktop Entry]") {
            in_group = true;
        } else if t.len() > 0 && t[0] == '[' {
            in_group = false;
        } else if in_group {
            match split_once(&t, '=') {
                Some((k, val)) => {
                    let key = trimmed(&k);
                    let value = trimmed(&val);
                    if eq_str(&key, "Type") {
                        has_type = true;
                        is_application = eq_str(&value, "Application");
                    } else if eq_str(&key, "Name") {
                        has_name = value.len() > 0;
                    } else if eq_str(&key, "Exec") {
                        has_exec = value.len() > 0;
                    }
                },
                None => {},
            }
        }
        i += 1;
    }
    assert(views(lines@).take(lines.len() as int) =~= views(lines@));
    has_type && is_application && has_name && has_exec
}

/// The line `key=value`.
pub open spec fn key_value(key: Seq<char>, value: Seq<char>) -> Seq<char> {
    key + seq!['='] + value
}

/// A line `key=value` for a key of letters is read as that key and the
/// trimmed value.
proof fn lemma_read_key_value(key: Seq<char>, value: Seq<char>)
    requires
        key.len() > 0,
        forall|i: int| 0 <= i < key.len() ==> #[trigger] key[i] != '=' && !is_space(key[i]) && key[i] != '[',
    ensures
        ({
            let t = trim(key_value(key, value));
            &&& t.len() > 0 && t[0] == key[0]
            &&& t != main_header()
            &&& !(t.len() > 0 && t[0] == '[')
            &&& index_of(t, '=') == key.len()
            &&& t.len() > key.len()
            &&& trim(before_char(t, '=')) == key
            &&& trim(after_char(t, '=')) == trim(value)
        }),
{
    reveal_strlit("[Desktop Entry]");
    let head = key + seq!['='];
    let l = key_value(key, value);
    assert(l =~= head + value);
    assert(l[0] == key[0]);
    assert(trim_start(l) == l);
    lemma_trim_end_after(head, value);
    let t = trim(l);
    assert(t == head + trim_end(value));
    assert(t[0] == key[0]);
    assert(main_header()[0] == '[');
    assert(t[0] != main_header()[0]);
    lemma_index_of_at(t, '=', key.len() as int);
    assert(t.take(key.len() as int) =~= key);
    assert(key[key.len() - 1] == key.last());
    assert(trim_start(key) == key);
    assert(trim_end(key) == key);
    assert(t.skip(key.len() as int + 1) =~= trim_end(value));
    lemma_trim_of_trim_end(value);
}

proof fn lemma_plain_keys()
    ensures
        forall|i: int| 0 <= i < "Type"@.len() ==> #[trigger] "Type"@[i] != '=' && !is_space("Type"@[i]) && "Type"@[i] != '[',
        forall|i: int| 0 <= i < "Name"@.len() ==> #[trigger] "Name"@[i] != '=' && !is_space("Name"@[i]) && "Name"@[i] != '[',
        forall|i: int| 0 <= i < "Exec"@.len() ==> #[trigger] "Exec"@[i] != '=' && !is_space("Exec"@[i]) && "Exec"@[i] != '[',
        "Type"@.len() == 4 && "Name"@.len() == 4 && "Exec"@.len() == 4,
        "Type"@ != "Name"@ && "Type"@ != "Exec"@ && "Name"@ != "Exec"@,
{
    reveal_strlit("Type");
    reveal_strlit("Name");
    reveal_strlit("Exec");
    assert("Type"@[0] != "Name"@[0]);
    assert("Type"@[0] != "Exec"@[0]);
    assert("Name"@[0] != "Exec"@[0]);
}

/// A `[Desktop Entry]` group of `Type`, `Name` and `Exec` lines is valid
/// exactly when `Type` is `Application` and `Name` and `Exec` are not empty,
/// values read trimmed; without any one of the three lines it is not valid.
pub proof fn lemma_validity(ty: Seq<char>, name: Seq<char>, exec: Seq<char>)
    ensures
        valid_lines(
            seq![
                main_header(),
                key_value("Type"@, ty),
                key_value("Name"@, name),
                key_value("Exec"@, exec),
            ],
        ) <==> (trim(ty) == "Application"@ && trim(name).len() > 0 && trim(exec).len() > 0),
        !valid_lines(seq![main_header(), key_value("Name"@, name), key_value("Exec"@, exec)]),
        !valid_lines(seq![main_header(), key_value("Type"@, ty), key_value("Exec"@, exec)]),
        !valid_lines(seq![main_header(), key_value("Type"@, ty), key_value("Name"@, name)]),
{
    reveal_strlit("[Desktop Entry]");
    lemma_plain_keys();
    lemma_read_key_value("Type"@, ty);
    lemma_read_key_value("Name"@, name);
    lemma_read_key_value("Exec"@, exec);
    let h = main_header();
    assert(trim_start(h) == h);
    assert(trim_end(h) == h);
    let tl = key_value("Type"@, ty);
    let nl = key_value("Name"@, name);
    let el = key_value("Exec"@, exec);
    let e0 = Seq::<Seq<char>>::empty();
    let s0 = validity_lines(e0);
    assert(seq![h].drop_last() =~= e0);
    assert(seq![h].last() == h);
    let s1 = validity_lines(seq![h]);
    assert(s1 == validity_step(s0, h));
    assert(s1.in_group && !s1.has_type && !s1.has_name && !s1.has_exec);
    // with every line
    let l2 = seq![h, tl];
    assert(l2.drop_last() =~= seq![h]);
    assert(l2.last() == tl);
    let s2 = validity_lines(l2);
    assert(s2 == validity_step(s1, tl));
    assert(s2.in_group && s2.has_type && s2.is_application == (trim(ty) == "Application"@)
        && !s2.has_name && !s2.has_exec);
    let l3 = seq![h, tl, nl];
    assert(l3.drop_last() =~= l2);
    assert(l3.last() == nl);
    let s3 = validity_lines(l3);
    assert(s3 == validity_step(s2, nl));
    assert(s3.in_group && s3.has_type && s3.is_application == (trim(ty) == "Application"@)
        && s3.has_name == (trim(name).len() > 0) && !s3.has_exec);
    let l4 = seq![h, tl, nl, el];
    assert(l4.drop_last() =~= l3);
    assert(l4.last() == el);
    let s4 = validity_lines(l4);
    assert(s4 == validity_step(s3, el));
    // without Type
    let a2 = seq![h, nl];
    assert(a2.drop_last() =~= seq![h]);
    assert(a2.last() == nl);
    assert(validity_lines(a2) == validity_step(s1, nl));
    assert(!validity_lines(a2).has_type);
    let a3 = seq![h, nl, el];
    assert(a3.drop_last() =~= a2);
    assert(a3.last() == el);
    assert(validity_lines(a3) == validity_step(validity_lines(a2), el));
    // without Name
    let b3 = seq![h, tl, el];
    assert(b3.drop_last() =~= l2);
    assert(b3.last() == el);
    assert(validity_lines(b3) == validity_step(s2, el));
    // without Exec: l3 above
}

/// Line `i` of `ls` lies in the `[Desktop Entry]` group and sets `key`, to the
/// trimmed value `value`.
pub open spec fn sets_key(ls: Seq<Seq<char>>, i: int, key: Seq<char>, value: Seq<char>) -> bool {
    let t = trim(ls[i]);
    &&& 0 <= i < ls.len()
    &&& validity_lines(ls.take(i)).in_group
    &&& t != main_header()
    &&& !(t.len() > 0 && t[0] == '[')
    &&& index_of(t, '=') != t.len()
    &&& trim(before_char(t, '=')) == key
    &&& trim(after_char(t, '=')) == value
}

proof fn lemma_scan_witnesses(ls: Seq<Seq<char>>)
    ensures
        validity_lines(ls).is_application ==> exists|i: int|
            #[trigger] sets_key(ls, i, "Type"@, "Application"@),
        validity_lines(ls).has_name ==> exists|i: int, v: Seq<char>|
            #[trigger] sets_key(ls, i, "Name"@, v) && v.len() > 0,
        validity_lines(ls).has_exec ==> exists|i: int, v: Seq<char>|
            #[trigger] sets_key(ls, i, "Exec"@, v) && v.len() > 0,
    decreases ls.len(),
{
    if ls.len() > 0 {
        let prev = ls.drop_last();
        lemma_scan_witnesses(prev);
        let n = ls.len() - 1;
        assert(ls.take(n) =~= prev);
        let st = validity_lines(prev);
        let t = trim(ls.last());
        let key = trim(before_char(t, '='));
        let value = trim(after_char(t, '='));
        assert(ls.last() == ls[n]);
        // a witness among the earlier lines stays one
        assert forall|i: int, k: Seq<char>, v: Seq<char>| #[trigger] sets_key(prev, i, k, v)
            implies sets_key(ls, i, k, v) by {
            assert(ls.take(i) =~= prev.take(i));
            assert(ls[i] == prev[i]);
        }
        if validity_lines(ls).is_application && !st.is_application {
            assert(sets_key(ls, n, "Type"@, "Application"@));
        }
        if validity_lines(ls).is_application && st.is_application {
            let i = choose|i: int| #[trigger] sets_key(prev, i, "Type"@, "Application"@);
            assert(sets_key(ls, i, "Type"@, "Application"@));
        }
        if validity_lines(ls).has_name && !st.has_name {
            assert(sets_key(ls, n, "Name"@, value));
        }
        if validity_lines(ls).has_name && st.has_name {
            let (i, v) = choose|i: int, v: Seq<char>| #[trigger] sets_key(prev, i, "Name"@, v) && v.len() > 0;
            assert(sets_key(ls, i, "Name"@, v));
        }
        if validity_lines(ls).has_exec && !st.has_exec {
            assert(sets_key(ls, n, "Exec"@, value));
        }
        if validity_lines(ls).has_exec && st.has_exec {
            let (i, v) = choose|i: int, v: Seq<char>| #[trigger] sets_key(prev, i, "Exec"@, v) && v.len() > 0;
            assert(sets_key(ls, i, "Exec"@, v));
        }
    }
}

/// A file is valid only if its `[Desktop Entry]` group has a `Type` line of
/// value `Application` and a `Name` line and an `Exec` line of non-empty
/// values: deleting every such line, or giving every `Type` line another
/// value, leaves any file invalid.
pub proof fn lemma_validity_needs_keys(ls: Seq<Seq<char>>)
    ensures
        valid_lines(ls) ==> (exists|i: int| #[trigger] sets_key(ls, i, "Type"@, "Application"@)),
        valid_lines(ls) ==> (exists|i: int, v: Seq<char>|
            #[trigger] sets_key(ls, i, "Name"@, v) && v.len() > 0),
        valid_lines(ls) ==> (exists|i: int, v: Seq<char>|
            #[trigger] sets_key(ls, i, "Exec"@, v) && v.len() > 0),
{
    lemma_scan_witnesses(ls);
}

/// White space at an end of a value that escaping does not turn into a
/// backslash sequence.
pub open spec fn unescaped_space(c: char) -> bool {
    is_space(c) && c != '\t' && c != '\n' && c != '\r'
}

proof fn lemma_escape_shape(s: Seq<char>)
    ensures
        forall|i: int|
            0 <= i < escape_spec(s).len() ==> #[trigger] escape_spec(s)[i] != '\n'
                && escape_spec(s)[i] != '\r',
        s.len() > 0 ==> escape_spec(s).len() > 0 && escape_spec(s).last() == escape_token(
            s.last(),
        ).last(),
        escape_spec(s).len() == 0 <==> s.len() == 0,
    decreases s.len(),
{
    if s.len() > 0 {
        lemma_escape_shape(s.drop_last());
        let a = escape_spec(s.drop_last());
        let b = escape_token(s.last());
        assert forall|i: int| 0 <= i < (a + b).len() implies #[trigger] (a + b)[i] != '\n' && (a
            + b)[i] != '\r' by {
            if i >= a.len() {
                assert((a + b)[i] == b[i - a.len()]);
            }
        }
    }
}

proof fn lemma_escape_first(s: Seq<char>)
    requires
        s.len() > 0,
    ensures
        escape_spec(s)[0] == escape_token(s[0])[0],
{
    lemma_escape_is_stage(s);
    assert(stage_token(s[0], 0) == escape_token(s[0]));
}

proof fn lemma_split_join(a: Seq<char>, b: Seq<char>)
    ensures
        split_at_char(a + seq!['\n'] + b, '\n') == split_at_char(a, '\n') + split_at_char(b, '\n'),
    decreases b.len(),
{
    let x = a + seq!['\n'] + b;
    if b.len() == 0 {
        assert(x.drop_last() =~= a);
        assert(split_at_char(b, '\n') =~= seq![Seq::<char>::empty()]);
        assert(split_at_char(a, '\n').push(Seq::empty()) =~= split_at_char(a, '\n')
            + split_at_char(b, '\n'));
    } else {
        lemma_split_join(a, b.drop_last());
        assert(x.drop_last() =~= a + seq!['\n'] + b.drop_last());
        assert(x.last() == b.last());
        let pa = split_at_char(a, '\n');
        let pb = split_at_char(b.drop_last(), '\n');
        assert(split_at_char(b.drop_last(), '\n').len() >= 1) by {
            lemma_split_len(b.drop_last());
        }
        if b.last() == '\n' {
            assert((pa + pb).push(Seq::empty()) =~= pa + pb.push(Seq::empty()));
        } else {
            assert((pa + pb).update((pa + pb).len() - 1, (pa + pb).last().push(b.last())) =~= pa
                + pb.update(pb.len() - 1, pb.last().push(b.last())));
        }
    }
}

proof fn lemma_split_len(s: Seq<char>)
    ensures
        split_at_char(s, '\n').len() >= 1,
    decreases s.len(),
{
    if s.len() > 0 {
        lemma_split_len(s.drop_last());
    }
}

proof fn lemma_split_plain(s: Seq<char>)
    requires
        forall|i: int| 0 <= i < s.len() ==> #[trigger] s[i] != '\n',
    ensures
        split_at_char(s, '\n') == seq![s],
    decreases s.len(),
{
    if s.len() > 0 {
        let t = s.drop_last();
        assert forall|i: int| 0 <= i < t.len() implies #[trigger] t[i] != '\n' by {
            assert(t[i] == s[i]);
        }
        lemma_split_plain(t);
        assert(t.push(s.last()) =~= s);
    } else {
        assert(s =~= Seq::<char>::empty());
    }
}

/// A name written escaped into a `Name` line is read back: the file
/// `[Desktop Entry]` then `Name=` and `escape(s)` parses to the name `s`, for
/// every `s` with no ambiguous escape and no unescaped white space at its ends.
pub proof fn lemma_name_round_trip(s: Seq<char>)
    requires
        no_escape_ambiguity(s),
        s.len() > 0 ==> !unescaped_space(s[0]) && !unescaped_space(s.last()),
    ensures
        parse_spec(main_header() + seq!['\n'] + "Name="@ + escape_spec(s) + seq!['\n']).name == s,
{
    reveal_strlit("[Desktop Entry]");
    reveal_strlit("Name=");
    reveal_strlit("Name");
    lemma_plain_keys();
    let e = escape_spec(s);
    lemma_escape_shape(s);
    let h = main_header();
    let l = key_value("Name"@, e);
    assert("Name="@ =~= "Name"@ + seq!['=']);
    let content = h + seq!['\n'] + "Name="@ + e + seq!['\n'];
    assert(content =~= h + seq!['\n'] + (l + seq!['\n'] + Seq::<char>::empty()));
    // the value is its own trimmed form
    if s.len() > 0 {
        lemma_escape_first(s);
        assert(trim_start(e) == e);
        assert(trim_end(e) == e);
    } else {
        assert(e =~= Seq::<char>::empty());
    }
    assert(trim(e) == e);
    lemma_read_key_value("Name"@, e);
    // the lines of the file
    assert forall|i: int| 0 <= i < h.len() implies #[trigger] h[i] != '\n' by {
    }
    assert forall|i: int| 0 <= i < l.len() implies #[trigger] l[i] != '\n' by {
        if i >= 5 {
            assert(l[i] == e[i - 5]);
        }
    }
    lemma_split_plain(h);
    lemma_split_plain(l);
    lemma_split_join(h, l + seq!['\n'] + Seq::<char>::empty());
    lemma_split_join(l, Seq::<char>::empty());
    assert(split_at_char(Seq::<char>::empty(), '\n') =~= seq![Seq::<char>::empty()]);
    let p = split_at_char(content, '\n');
    assert(p =~= seq![h, l, Seq::<char>::empty()]);
    assert(l.last() != '\r') by {
        if e.len() == 0 {
            assert(l.last() == '=');
        } else {
            assert(l.last() == e.last());
            assert(e[e.len() - 1] == e.last());
        }
    }
    assert(h.last() == ']');
    assert(p.drop_last().map_values(|x: Seq<char>| strip_cr(x)) =~= seq![h, l]);
    assert(lines_of(content) =~= seq![h, l]);
    // reading the two lines
    assert(trim_start(h) == h);
    assert(trim_end(h) == h);
    assert(seq![h, l].drop_last() =~= seq![h]);
    assert(seq![h].drop_last() =~= Seq::<Seq<char>>::empty());
    let st1 = parse_lines(seq![h]);
    assert(st1 == parse_step(parse_lines(Seq::<Seq<char>>::empty()), h));
    assert(st1.1);
    assert(parse_lines(seq![h, l]) == parse_step(st1, l));
    lemma_escape_round_trip(s);
}

/// A line that is not a group header.
pub open spec fn plain_line(line: Seq<char>) -> bool {
    let t = trim(line);
    t != main_header() && !(t.len() > 0 && t[0] == '[')
}

/// Whether line `i` of `ls` sets `key` in the `[Desktop Entry]` group, to any value.
pub open spec fn sets_any(ls: Seq<Seq<char>>, i: int, key: Seq<char>) -> bool {
    exists|v: Seq<char>| #[trigger] sets_key(ls, i, key, v)
}

proof fn lemma_flag_extends(first: Seq<Seq<char>>, second: Seq<Seq<char>>, rest: Seq<Seq<char>>)
    requires
        validity_lines(first).in_group == validity_lines(second).in_group,
    ensures
        validity_lines(first + rest).in_group == validity_lines(second + rest).in_group,
    decreases rest.len(),
{
    if rest.len() == 0 {
        assert(first + rest =~= first);
        assert(second + rest =~= second);
    } else {
        lemma_flag_extends(first, second, rest.drop_last());
        assert((first + rest).drop_last() =~= first + rest.drop_last());
        assert((second + rest).drop_last() =~= second + rest.drop_last());
        assert((first + rest).last() == rest.last());
        assert((second + rest).last() == rest.last());
    }
}

proof fn lemma_plain_keeps_flag(p: Seq<Seq<char>>, line: Seq<char>)
    requires
        plain_line(line),
    ensures
        validity_lines(p.push(line)).in_group == validity_lines(p).in_group,
{
    assert(p.push(line).drop_last() =~= p);
}

/// Deleting from a file the only line of its `[Desktop Entry]` group that
/// sets `Type`, `Name` or `Exec` leaves it invalid.
pub proof fn lemma_deleting_key_invalidates(ls: Seq<Seq<char>>, i: int, key: Seq<char>)
    requires
        key == "Type"@ || key == "Name"@ || key == "Exec"@,
        sets_any(ls, i, key),
        forall|j: int| 0 <= j < ls.len() && j != i ==> !#[trigger] sets_any(ls, j, key),
    ensures
        !valid_lines(ls.remove(i)),
{
    let ls2 = ls.remove(i);
    let v0 = choose|v: Seq<char>| #[trigger] sets_key(ls, i, key, v);
    assert(plain_line(ls[i]));
    lemma_validity_needs_keys(ls2);
    // a line of the shorter file that sets `key` would be another such line of `ls`
    assert forall|j: int, v: Seq<char>| !#[trigger] sets_key(ls2, j, key, v) by {
        if sets_key(ls2, j, key, v) {
            if j < i {
                assert(ls2.take(j) =~= ls.take(j));
                assert(ls2[j] == ls[j]);
                assert(sets_key(ls, j, key, v));
                assert(sets_any(ls, j, key));
            } else {
                let mid = ls.subrange(i + 1, j + 1);
                assert(ls2.take(j) =~= ls.take(i) + mid);
                assert(ls.take(j + 1) =~= ls.take(i).push(ls[i]) + mid);
                lemma_plain_keeps_flag(ls.take(i), ls[i]);
                lemma_flag_extends(ls.take(i).push(ls[i]), ls.take(i), mid);
                assert(ls2[j] == ls[j + 1]);
                assert(sets_key(ls, j + 1, key, v));
                assert(sets_any(ls, j + 1, key));
            }
        }
    }
}

/// Replacing the only `Type` line of the `[Desktop Entry]` group by
/// `Type=t`, where `t` trimmed is not `Application`, leaves a file invalid.
pub proof fn lemma_retyping_invalidates(ls: Seq<Seq<char>>, i: int, t: Seq<char>)
    requires
        sets_any(ls, i, "Type"@),
        forall|j: int| 0 <= j < ls.len() && j != i ==> !#[trigger] sets_any(ls, j, "Type"@),
        trim(t) != "Application"@,
    ensures
        !valid_lines(ls.update(i, key_value("Type"@, t))),
{
    let line = key_value("Type"@, t);
    let ls2 = ls.update(i, line);
    let v0 = choose|v: Seq<char>| #[trigger] sets_key(ls, i, "Type"@, v);
    assert(plain_line(ls[i]));
    lemma_plain_keys();
    lemma_read_key_value("Type"@, t);
    assert(plain_line(line));
    lemma_validity_needs_keys(ls2);
    assert forall|j: int| !#[trigger] sets_key(ls2, j, "Type"@, "Application"@) by {
        if sets_key(ls2, j, "Type"@, "Application"@) {
            if j < i {
                assert(ls2.take(j) =~= ls.take(j));
                assert(ls2[j] == ls[j]);
                assert(sets_key(ls, j, "Type"@, "Application"@));
                assert(sets_any(ls, j, "Type"@));
            } else if j == i {
                assert(ls2[i] == line);
            } else {
                let mid = ls.subrange(i + 1, j);
                assert(ls2.take(j) =~= ls.take(i).push(line) + mid);
                assert(ls.take(j) =~= ls.take(i).push(ls[i]) + mid);
                lemma_plain_keeps_flag(ls.take(i), ls[i]);
                lemma_plain_keeps_flag(ls.take(i), line);
                lemma_flag_extends(ls.take(i).push(line), ls.take(i).push(ls[i]), mid);
                assert(ls2[j] == ls[j]);
                assert(sets_key(ls, j, "Type"@, "Application"@));
                assert(sets_any(ls, j, "Type"@));
            }
        }
    }
}

} // verus!
