//! Writing entries: the content-preserving update of an existing file, the
//! text of a new file, the `Hidden` toggle, and identifiers for new files.
use vstd::prelude::*;
use crate::codec::{escape_chars, escape_spec, main_header};
use crate::decimal::{decimal, push_decimal};
use crate::delay::{unwrap_delay, unwrap_spec, wrap_spec, wrap_with_delay};
use crate::entry::{CreateOptions, DesktopEntry, EntryModel, list_view};
use crate::text::{
    before_char, chars_of, concat_lines, concat_vecs, eq_str, index_of, join_lines, line_end,
    line_end_of, push_chars, push_str, raw_lines, split_at_char, split_once, split_raw_lines,
    string_of, trim, trimmed, views, lemma_raw_lines_concat,
};

verus! {

// ---------------------------------------------------------------- groups

/// Whether a trimmed line is a group header.
pub open spec fn is_header(t: Seq<char>) -> bool {
    t.len() > 0 && t[0] == '['
}

/// Whether the line after `line` lies in `[Desktop Entry]`, given whether `line` does.
pub open spec fn group_after(open: bool, line: Seq<char>) -> bool {
    let t = trim(line);
    if t == main_header() {
        true
    } else if is_header(t) {
        false
    } else {
        open
    }
}

/// Whether the line that follows `ls` lies in the `[Desktop Entry]` group.
pub open spec fn group_open(ls: Seq<Seq<char>>) -> bool
    decreases ls.len(),
{
    if ls.len() == 0 {
        false
    } else {
        group_after(group_open(ls.drop_last()), ls.last())
    }
}

/// Line `i` of `ls` is a header or lies outside `[Desktop Entry]`.
pub open spec fn outside_group(ls: Seq<Seq<char>>, i: int) -> bool {
    is_header(trim(ls[i])) || !group_open(ls.take(i))
}

/// The text of lines written with `"\n"` between them and after the last;
/// no lines give a single `"\n"`.
pub open spec fn text_of(ls: Seq<Seq<char>>) -> Seq<char> {
    if ls.len() == 0 {
        seq!['\n']
    } else {
        join_lines(ls)
    }
}

// ---------------------------------------------------------------- update

/// The items of a list value, each followed by `;`.
pub open spec fn list_text(items: Seq<Seq<char>>) -> Seq<char>
    decreases items.len(),
{
    if items.len() == 0 {
        Seq::empty()
    } else {
        list_text(items.drop_last()) + items.last() + seq![';']
    }
}

/// `key=value`, or nothing when the value is empty.
pub open spec fn assignment(key: Seq<char>, value: Seq<char>) -> Option<Seq<char>> {
    if value.len() == 0 {
        None
    } else {
        Some(key + seq!['='] + value)
    }
}

pub open spec fn opt_assignment(key: Seq<char>, value: Option<Seq<char>>) -> Option<Seq<char>> {
    match value {
        Some(v) => assignment(key, v),
        None => None,
    }
}

pub open spec fn flag_assignment(key: Seq<char>, on: bool) -> Option<Seq<char>> {
    if on {
        Some(key + "=true"@)
    } else {
        None
    }
}

pub open spec fn list_assignment(key: Seq<char>, items: Seq<Seq<char>>) -> Option<Seq<char>> {
    if items.len() == 0 {
        None
    } else {
        Some(key + seq!['='] + list_text(items))
    }
}

/// The keys that an update rewrites; every other line is kept as it is.
pub open spec fn rewritten_key(key: Seq<char>) -> bool {
    key == "Name"@ || key == "Exec"@ || key == "Icon"@ || key == "Comment"@ || key == "Hidden"@
        || key == "Terminal"@ || key == "OnlyShowIn"@ || key == "NotShowIn"@
}

/// The new line for a rewritten key, or nothing when its value is empty or absent.
pub open spec fn key_line(key: Seq<char>, e: EntryModel, exec: Seq<char>) -> Option<Seq<char>> {
    if key == "Name"@ {
        assignment(key, escape_spec(e.name))
    } else if key == "Exec"@ {
        assignment(key, exec)
    } else if key == "Icon"@ {
        opt_assignment(key, e.icon)
    } else if key == "Comment"@ {
        match e.comment {
            Some(c) => assignment(key, escape_spec(c)),
            None => None,
        }
    } else if key == "Hidden"@ {
        flag_assignment(key, e.hidden)
    } else if key == "Terminal"@ {
        flag_assignment(key, e.terminal)
    } else if key == "OnlyShowIn"@ {
        list_assignment(key, e.only_show_in)
    } else {
        list_assignment(key, e.not_show_in)
    }
}

/// A new line ended as the line it replaces, or nothing.
pub open spec fn ended_line(l: Option<Seq<char>>, end: Seq<char>) -> Seq<Seq<char>> {
    match l {
        Some(x) => seq![x + end],
        None => Seq::empty(),
    }
}

/// What an update writes for the raw line `line` (with its line end), given
/// whether it lies in `[Desktop Entry]`: the line itself, byte for byte, or
/// for a rewritten key its new line with the same line end, or nothing.
pub open spec fn updated_line(line: Seq<char>, open: bool, e: EntryModel, exec: Seq<char>) -> Seq<
    Seq<char>,
> {
    let t = trim(line);
    if is_header(t) || !open || index_of(t, '=') == t.len() {
        seq![line]
    } else {
        let key = trim(before_char(t, '='));
        if rewritten_key(key) {
            ended_line(key_line(key, e, exec), line_end(line))
        } else {
            seq![line]
        }
    }
}

/// The lines that an update writes for the lines `ls`.
pub open spec fn update_lines(ls: Seq<Seq<char>>, e: EntryModel, exec: Seq<char>) -> Seq<
    Seq<char>,
>
    decreases ls.len(),
{
    if ls.len() == 0 {
        Seq::empty()
    } else {
        update_lines(ls.drop_last(), e, exec) + updated_line(
            ls.last(),
            group_open(ls.drop_last()),
            e,
            exec,
        )
    }
}

/// The command line written on update: the entry's command without its
/// wrapper, wrapped again with the requested delay when that is above zero,
/// and otherwise with the delay already encoded in the entry's command line.
pub open spec fn updated_exec(exec: Seq<char>, delay: Option<u32>) -> Seq<char> {
    let base = unwrap_spec(exec).0;
    let kept = match unwrap_spec(exec).1 {
        Some(p) => wrap_spec(base, p as nat),
        None => base,
    };
    match delay {
        Some(d) => if d > 0 {
            wrap_spec(base, d as nat)
        } else {
            kept
        },
        None => kept,
    }
}

/// The text of a file after its `[Desktop Entry]` group is updated to `e`.
pub open spec fn update_spec(content: Seq<char>, e: EntryModel, delay: Option<u32>) -> Seq<char> {
    concat_lines(update_lines(raw_lines(content), e, updated_exec(e.exec_line, delay)))
}

proof fn lemma_update_prefix(ls: Seq<Seq<char>>, e: EntryModel, exec: Seq<char>, j: int)
    requires
        0 <= j <= ls.len(),
    ensures
        update_lines(ls.take(j), e, exec).len() <= update_lines(ls, e, exec).len(),
        update_lines(ls, e, exec).take(update_lines(ls.take(j), e, exec).len() as int)
            == update_lines(ls.take(j), e, exec),
    decreases ls.len() - j,
{
    if j < ls.len() {
        lemma_update_prefix(ls, e, exec, j + 1);
        let a = ls.take(j + 1);
        assert(a.drop_last() =~= ls.take(j));
        let u = update_lines(ls.take(j), e, exec);
        let w = update_lines(a, e, exec);
        let all = update_lines(ls, e, exec);
        assert(w.take(u.len() as int) =~= u);
        assert(all.take(u.len() as int) =~= w.take(u.len() as int));
    } else {
        assert(ls.take(j) =~= ls);
        assert(update_lines(ls, e, exec).take(update_lines(ls, e, exec).len() as int)
            =~= update_lines(ls, e, exec));
    }
}

/// An update keeps every line outside the `[Desktop Entry]` group, headers
/// included: a run of such lines `ls[a..b]` appears unchanged, in order, in
/// the updated lines, right after what the lines before it became.
pub proof fn lemma_outside_lines_kept(
    ls: Seq<Seq<char>>,
    e: EntryModel,
    exec: Seq<char>,
    a: int,
    b: int,
)
    requires
        0 <= a <= b <= ls.len(),
        forall|i: int| a <= i < b ==> #[trigger] outside_group(ls, i),
    ensures
        ({
            let p = update_lines(ls.take(a), e, exec).len() as int;
            let out = update_lines(ls, e, exec);
            p + (b - a) <= out.len() && out.subrange(p, p + (b - a)) == ls.subrange(a, b)
        }),
    decreases b - a,
{
    if a < b {
        lemma_outside_lines_kept(ls, e, exec, a, b - 1);
        let prev = ls.take(b - 1);
        let cur = ls.take(b);
        assert(cur.drop_last() =~= prev);
        assert(cur.last() == ls[b - 1]);
        assert(outside_group(ls, b - 1));
        assert(ls.take(b - 1) =~= prev);
        assert(updated_line(ls[b - 1], group_open(prev), e, exec) == seq![ls[b - 1]]);
        lemma_outside_run(ls, e, exec, a, b);
        lemma_update_prefix(ls, e, exec, b);
        let p = update_lines(ls.take(a), e, exec).len() as int;
        let w = update_lines(cur, e, exec);
        let out = update_lines(ls, e, exec);
        assert(out.subrange(p, p + (b - a)) =~= w.subrange(p, p + (b - a)));
    } else {
        lemma_update_prefix(ls, e, exec, a);
        assert(ls.subrange(a, b) =~= Seq::<Seq<char>>::empty());
        let p = update_lines(ls.take(a), e, exec).len() as int;
        assert(update_lines(ls, e, exec).subrange(p, p) =~= Seq::<Seq<char>>::empty());
    }
}

proof fn lemma_concat_append(x: Seq<Seq<char>>, y: Seq<Seq<char>>)
    ensures
        concat_lines(x + y) == concat_lines(x) + concat_lines(y),
    decreases y.len(),
{
    if y.len() == 0 {
        assert(x + y =~= x);
        assert(concat_lines(x) + concat_lines(y) =~= concat_lines(x));
    } else {
        lemma_concat_append(x, y.drop_last());
        assert((x + y).drop_last() =~= x + y.drop_last());
        assert((x + y).last() == y.last());
    }
}

/// An update keeps the bytes of every run of lines outside the
/// `[Desktop Entry]` group: lines `a..b` of `content`, all outside the group,
/// are one and the same text `kept` in `content` and in the updated text,
/// each time between what comes before and what comes after them.
pub proof fn lemma_outside_bytes_kept(
    content: Seq<char>,
    e: EntryModel,
    delay: Option<u32>,
    a: int,
    b: int,
)
    requires
        0 <= a <= b <= raw_lines(content).len(),
        forall|i: int| a <= i < b ==> #[trigger] outside_group(raw_lines(content), i),
    ensures
        ({
            let ls = raw_lines(content);
            let x = updated_exec(e.exec_line, delay);
            let kept = concat_lines(ls.subrange(a, b));
            let before = update_lines(ls.take(a), e, x);
            let out = update_lines(ls, e, x);
            &&& content == concat_lines(ls.take(a)) + kept + concat_lines(ls.skip(b))
            &&& update_spec(content, e, delay) == concat_lines(before) + kept + concat_lines(
                out.skip(before.len() + (b - a)),
            )
        }),
{
    let ls = raw_lines(content);
    let x = updated_exec(e.exec_line, delay);
    lemma_raw_lines_concat(content);
    assert(ls =~= ls.take(a) + ls.subrange(a, b) + ls.skip(b));
    lemma_concat_append(ls.take(a) + ls.subrange(a, b), ls.skip(b));
    lemma_concat_append(ls.take(a), ls.subrange(a, b));
    lemma_outside_lines_kept(ls, e, x, a, b);
    lemma_update_prefix(ls, e, x, a);
    let before = update_lines(ls.take(a), e, x);
    let out = update_lines(ls, e, x);
    let p = before.len() as int;
    assert(out =~= out.take(p) + out.subrange(p, p + (b - a)) + out.skip(p + (b - a)));
    lemma_concat_append(out.take(p) + out.subrange(p, p + (b - a)), out.skip(p + (b - a)));
    lemma_concat_append(out.take(p), out.subrange(p, p + (b - a)));
}

proof fn lemma_outside_run(ls: Seq<Seq<char>>, e: EntryModel, exec: Seq<char>, a: int, b: int)
    requires
        0 <= a < b <= ls.len(),
        forall|i: int| a <= i < b ==> #[trigger] outside_group(ls, i),
    ensures
        ({
            let p = update_lines(ls.take(a), e, exec).len() as int;
            let w = update_lines(ls.take(b), e, exec);
            w.len() == p + (b - a) && w.subrange(p, p + (b - a)) == ls.subrange(a, b)
        }),
    decreases b - a,
{
    let cur = ls.take(b);
    let prev = ls.take(b - 1);
    assert(cur.drop_last() =~= prev);
    assert(cur.last() == ls[b - 1]);
    assert(outside_group(ls, b - 1));
    let t = trim(ls[b - 1]);
    assert(updated_line(ls[b - 1], group_open(prev), e, exec) == seq![ls[b - 1]]);
    let p = update_lines(ls.take(a), e, exec).len() as int;
    if a < b - 1 {
        lemma_outside_run(ls, e, exec, a, b - 1);
        let v = update_lines(prev, e, exec);
        let w = update_lines(cur, e, exec);
        assert(w == v + seq![ls[b - 1]]);
        assert(w.subrange(p, p + (b - a)) =~= v.subrange(p, p + (b - 1 - a)) + seq![ls[b - 1]]);
        assert(ls.subrange(a, b) =~= ls.subrange(a, b - 1) + seq![ls[b - 1]]);
    } else {
        assert(prev =~= ls.take(a));
        let w = update_lines(cur, e, exec);
        assert(w.subrange(p, p + 1) =~= seq![ls[b - 1]]);
        assert(ls.subrange(a, b) =~= seq![ls[b - 1]]);
    }
}

/// Appends the items of a list value, each followed by `;`.
fn push_list_text(out: &mut Vec<char>, items: &Vec<String>)
    ensures
        final(out)@ == old(out)@ + list_text(list_view(items@)),
{
    let ghost start = out@;
    let mut i: usize = 0;
    while i < items.len()
        invariant
            i <= items.len(),
            out@ == start + list_text(list_view(items@).take(i as int)),
        decreases items.len() - i,
    {
        let item = chars_of(items[i].as_str());
        push_chars(out, &item);
        out.push(';');
        assert(list_view(items@).take(i + 1).drop_last() =~= list_view(items@).take(i as int));
        assert(out@ =~= start + list_text(list_view(items@).take(i + 1)));
        i += 1;
    }
    assert(list_view(items@).take(items.len() as int) =~= list_view(items@));
}

pub open spec fn opt_chars(o: Option<Vec<char>>) -> Option<Seq<char>> {
    match o {
        Some(v) => Some(v@),
        None => None,
    }
}

/// `key=value`, or nothing when the value is empty.
fn assignment_exec(key: &str, value: &Vec<char>) -> (r: Option<Vec<char>>)
    ensures
        opt_chars(r) == assignment(key@, value@),
{
    if value.len() == 0 {
        None
    } else {
        let mut l = chars_of(key);
        l.push('=');
        push_chars(&mut l, value);
        Some(l)
    }
}

fn flag_exec(key: &str, on: bool) -> (r: Option<Vec<char>>)
    ensures
        opt_chars(r) == flag_assignment(key@, on),
{
    if on {
        let mut l = chars_of(key);
        push_str(&mut l, "=true");
        Some(l)
    } else {
        None
    }
}

fn list_exec(key: &str, items: &Vec<String>) -> (r: Option<Vec<char>>)
    ensures
        opt_chars(r) == list_assignment(key@, list_view(items@)),
{
    if items.len() == 0 {
        None
    } else {
        let mut l = chars_of(key);
        l.push('=');
        push_list_text(&mut l, items);
        Some(l)
    }
}

/// For a rewritten key, its new line (or nothing); `None` for any other key.
fn key_replacement(key: &Vec<char>, e: &DesktopEntry, exec: &Vec<char>) -> (r: Option<
    Option<Vec<char>>,
>)
    ensures
        match r {
            Some(l) => rewritten_key(key@) && opt_chars(l) == key_line(key@, e@, exec@),
            None => !rewritten_key(key@),
        },
{
    if eq_str(key, "Name") {
        let name = chars_of(e.name.as_str());
        Some(assignment_exec("Name", &escape_chars(&name)))
    } else if eq_str(key, "Exec") {
        Some(assignment_exec("Exec", exec))
    } else if eq_str(key, "Icon") {
        match &e.icon {
            Some(icon) => Some(assignment_exec("Icon", &chars_of(icon.as_str()))),
            None => Some(None),
        }
    } else if eq_str(key, "Comment") {
        match &e.comment {
            Some(c) => Some(assignment_exec("Comment", &escape_chars(&chars_of(c.as_str())))),
            None => Some(None),
        }
    } else if eq_str(key, "Hidden") {
        Some(flag_exec("Hidden", e.hidden))
    } else if eq_str(key, "Terminal") {
        Some(flag_exec("Terminal", e.terminal))
    } else if eq_str(key, "OnlyShowIn") {
        Some(list_exec("OnlyShowIn", &e.only_show_in))
    } else if eq_str(key, "NotShowIn") {
        Some(list_exec("NotShowIn", &e.not_show_in))
    } else {
        None
    }
}

/// The text of `lines`, each followed by `"\n"`; a single `"\n"` for no lines.
fn text_of_lines(lines: &Vec<Vec<char>>) -> (r: Vec<char>)
    ensures
        r@ == text_of(views(lines@)),
{
    let mut out: Vec<char> = Vec::new();
    if lines.len() == 0 {
        out.push('\n');
        return out;
    }
    let mut i: usize = 0;
    while i < lines.len()
        invariant
            i <= lines.len(),
            out@ == join_lines(views(lines@).take(i as int)),
        decreases lines.len() - i,
    {
        push_chars(&mut out, &lines[i]);
        out.push('\n');
        assert(views(lines@).take(i + 1).drop_last() =~= views(lines@).take(i as int));
        assert(out@ =~= join_lines(views(lines@).take(i + 1)));
        i += 1;
    }
    assert(views(lines@).take(lines.len() as int) =~= views(lines@));
    out
}

/// Rewrites the `[Desktop Entry]` group of `content` to match `entry`,
/// keeping every other line as it stands. The `Name`, `Exec`, `Icon`,
/// `Comment`, `Hidden`, `Terminal`, `OnlyShowIn` and `NotShowIn` lines of the
/// group are replaced in place, or dropped when the new value is empty or
/// absent; `Exec` is re-wrapped with `delay_seconds` when that is above zero,
/// and otherwise keeps the delay it already encodes.
pub fn update_desktop_entry_content(
    content: &str,
    entry: &DesktopEntry,
    delay_seconds: Option<u32>,
) -> (r: String)
    ensures
        r@ == update_spec(content@, entry@, delay_seconds),
{
    let (base, previous) = unwrap_delay(entry.exec_line.as_str());
    let kept = match previous {
        Some(p) => chars_of(wrap_with_delay(base.as_str(), p).as_str()),
        None => chars_of(base.as_str()),
    };
    let final_exec = match delay_seconds {
        Some(d) => if d > 0 {
            chars_of(wrap_with_delay(base.as_str(), d).as_str())
        } else {
            kept
        },
        None => kept,
    };
    let ghost exec = updated_exec(entry.exec_line@, delay_seconds);
    assert(final_exec@ == exec);
    let v = chars_of(content);
    let lines = split_raw_lines(&v);
    let ghost ls = views(lines@);
    let mut out: Vec<Vec<char>> = Vec::new();
    let mut in_group = false;
    let mut i: usize = 0;
    while i < lines.len()
        invariant
            i <= lines.len(),
            ls == views(lines@),
            final_exec@ == exec,
            in_group == group_open(ls.take(i as int)),
            views(out@) == update_lines(ls.take(i as int), entry@, exec),
        decreases lines.len() - i,
    {
        assert(ls.take(i + 1).drop_last() =~= ls.take(i as int));
        assert(ls.take(i + 1).last() == lines@[i as int]@);
        let ghost before = views(out@);
        let ghost g = in_group;
        let line = &lines[i];
        let t = trimmed(line);
        if eq_str(&t, "[Desktop Entry]") {
            proof {
                reveal_strlit("[Desktop Entry]");
            }
            out.push(subvec_all(line));
            in_group = true;
        } else if t.len() > 0 && t[0] == '[' {
            out.push(subvec_all(line));
            in_group = false;
        } else if !in_group {
            out.push(subvec_all(line));
        } else {
            match split_once(&t, '=') {
                Some((k, _)) => {
                    let key = trimmed(&k);
                    match key_replacement(&key, entry, &final_exec) {
                        Some(Some(l)) => {
                            let mut ended = l;
                            push_chars(&mut ended, &line_end_of(line));
                            let ghost lv = ended@;
                            out.push(ended);
                            assert(views(out@) =~= before.push(lv));
                        },
                        Some(None) => {
                            assert(views(out@) =~= before);
                        },
                        None => {
                            out.push(subvec_all(line));
                        },
                    }
                },
                None => {
                    out.push(subvec_all(line));
                },
            }
        }
        assert(views(out@) =~= before + updated_line(line@, g, entry@, exec));
        assert(update_lines(ls.take(i + 1), entry@, exec) == update_lines(ls.take(i as int), entry@, exec) + updated_line(ls.take(i + 1).last(), group_open(ls.take(i as int)), entry@, exec));
        i += 1;
    }
    assert(ls.take(lines.len() as int) =~= ls);
    string_of(&concat_vecs(&out))
}

/// A copy of `v`.
fn subvec_all(v: &Vec<char>) -> (r: Vec<char>)
    ensures
        r@ == v@,
{
    let mut r: Vec<char> = Vec::new();
    push_chars(&mut r, v);
    assert(Seq::<char>::empty() + v@ =~= v@);
    r
}

// ---------------------------------------------------------------- new files

/// The lines of a new entry file.
pub open spec fn new_entry_lines(name: Seq<char>, exec: Seq<char>, o: CreateOptions) -> Seq<
    Seq<char>,
> {
    seq![
        main_header(),
        "Type=Application"@,
        "Name="@ + escape_spec(name),
        "Exec="@ + wrap_spec(exec, o.delay_seconds as nat),
    ] + match o.icon {
        Some(i) => seq!["Icon="@ + i@],
        None => Seq::empty(),
    } + match o.comment {
        Some(c) => seq!["Comment="@ + escape_spec(c@)],
        None => Seq::empty(),
    } + (if o.terminal {
        seq!["Terminal=true"@]
    } else {
        Seq::empty()
    }) + (if o.only_show_in.len() > 0 {
        seq!["OnlyShowIn="@ + list_text(list_view(o.only_show_in@))]
    } else {
        Seq::empty()
    }) + (if o.not_show_in.len() > 0 {
        seq!["NotShowIn="@ + list_text(list_view(o.not_show_in@))]
    } else {
        Seq::empty()
    }) + (if o.hidden {
        seq!["Hidden=true"@]
    } else {
        Seq::empty()
    })
}

fn line_of(prefix: &str, value: &Vec<char>) -> (r: Vec<char>)
    ensures
        r@ == prefix@ + value@,
{
    let mut l = chars_of(prefix);
    push_chars(&mut l, value);
    l
}

/// The text of a new entry file: the `[Desktop Entry]` header, `Type`,
/// `Name` (escaped) and `Exec` (wrapped when a delay is asked for), then
/// whichever of `Icon`, `Comment`, `Terminal`, `OnlyShowIn`, `NotShowIn` and
/// `Hidden` the options set.
pub fn desktop_entry_content(name: &str, exec: &str, options: &CreateOptions) -> (r: String)
    ensures
        r@ == join_lines(new_entry_lines(name@, exec@, *options)),
{
    let mut lines: Vec<Vec<char>> = Vec::new();
    lines.push(chars_of("[Desktop Entry]"));
    lines.push(chars_of("Type=Application"));
    lines.push(line_of("Name=", &escape_chars(&chars_of(name))));
    let wrapped = wrap_with_delay(exec, options.delay_seconds);
    lines.push(line_of("Exec=", &chars_of(wrapped.as_str())));
    let ghost base = views(lines@);
    assert(base =~= seq![
        main_header(),
        "Type=Application"@,
        "Name="@ + escape_spec(name@),
        "Exec="@ + wrap_spec(exec@, options.delay_seconds as nat),
    ]);
    let ghost o = *options;
    let ghost s1 = match o.icon {
        Some(i) => seq!["Icon="@ + i@],
        None => Seq::<Seq<char>>::empty(),
    };
    match &options.icon {
        Some(icon) => {
            lines.push(line_of("Icon=", &chars_of(icon.as_str())));
        },
        None => {},
    }
    assert(views(lines@) =~= base + s1);
    let ghost s2 = match o.comment {
        Some(c) => seq!["Comment="@ + escape_spec(c@)],
        None => Seq::<Seq<char>>::empty(),
    };
    match &options.comment {
        Some(c) => {
            lines.push(line_of("Comment=", &escape_chars(&chars_of(c.as_str()))));
        },
        None => {},
    }
    assert(views(lines@) =~= base + s1 + s2);
    if options.terminal {
        lines.push(chars_of("Terminal=true"));
    }
    let ghost s3 = if o.terminal {
        seq!["Terminal=true"@]
    } else {
        Seq::<Seq<char>>::empty()
    };
    assert(views(lines@) =~= base + s1 + s2 + s3);
    if options.only_show_in.len() > 0 {
        let mut l = chars_of("OnlyShowIn=");
        push_list_text(&mut l, &options.only_show_in);
        lines.push(l);
    }
    let ghost s4 = if o.only_show_in.len() > 0 {
        seq!["OnlyShowIn="@ + list_text(list_view(o.only_show_in@))]
    } else {
        Seq::<Seq<char>>::empty()
    };
    assert(views(lines@) =~= base + s1 + s2 + s3 + s4);
    if options.not_show_in.len() > 0 {
        let mut l = chars_of("NotShowIn=");
        push_list_text(&mut l, &options.not_show_in);
        lines.push(l);
    }
    let ghost s5 = if o.not_show_in.len() > 0 {
        seq!["NotShowIn="@ + list_text(list_view(o.not_show_in@))]
    } else {
        Seq::<Seq<char>>::empty()
    };
    assert(views(lines@) =~= base + s1 + s2 + s3 + s4 + s5);
    if options.hidden {
        lines.push(chars_of("Hidden=true"));
    }
    assert(views(lines@) =~= new_entry_lines(name@, exec@, *options));
    string_of(&text_of_lines(&lines))
}

// ---------------------------------------------------------------- enable / disable

/// What the toggle has written so far, whether the next line lies in
/// `[Desktop Entry]`, and whether a `Hidden=true` line was written.
pub struct ToggleScan {
    pub out: Seq<Seq<char>>,
    pub open: bool,
    pub written: bool,
}

pub open spec fn hidden_line() -> Seq<char> {
    "Hidden=true"@
}

/// Reading one raw line: a header that closes `[Desktop Entry]` is preceded
/// by `Hidden=true` when disabling and none was written; a `Hidden` line of
/// the group is replaced by `Hidden=true` (with the same line end) when
/// disabling and dropped when enabling; every other line is kept byte for byte.
pub open spec fn toggle_step(st: ToggleScan, line: Seq<char>, enabled: bool) -> ToggleScan {
    let t = trim(line);
    if t == main_header() {
        ToggleScan { out: st.out.push(line), open: true, ..st }
    } else if is_header(t) {
        if st.open && !enabled && !st.written {
            ToggleScan {
                out: st.out.push(hidden_line() + seq!['\n']).push(line),
                open: false,
                written: true,
            }
        } else {
            ToggleScan { out: st.out.push(line), open: false, ..st }
        }
    } else if st.open && index_of(t, '=') < t.len() && trim(before_char(t, '=')) == "Hidden"@ {
        if !enabled {
            ToggleScan { out: st.out.push(hidden_line() + line_end(line)), written: true, ..st }
        } else {
            st
        }
    } else {
        ToggleScan { out: st.out.push(line), ..st }
    }
}

pub open spec fn toggle_lines(ls: Seq<Seq<char>>, enabled: bool) -> ToggleScan
    decreases ls.len(),
{
    if ls.len() == 0 {
        ToggleScan { out: Seq::empty(), open: false, written: false }
    } else {
        toggle_step(toggle_lines(ls.drop_last(), enabled), ls.last(), enabled)
    }
}

/// The `Hidden=true` line added at the end of a file whose lines are `out`,
/// after a line break when the last line has none.
pub open spec fn closing_hidden(out: Seq<Seq<char>>) -> Seq<char> {
    if out.len() > 0 && line_end(out.last()).len() == 0 {
        seq!['\n'] + hidden_line() + seq!['\n']
    } else {
        hidden_line() + seq!['\n']
    }
}

/// The text of a file after its entry is enabled (no `Hidden` line in
/// `[Desktop Entry]`) or disabled (`Hidden=true` there); when a disabled
/// file's group ends the file without a `Hidden` line, one is added at the end.
pub open spec fn toggle_spec(content: Seq<char>, enabled: bool) -> Seq<char> {
    let st = toggle_lines(raw_lines(content), enabled);
    concat_lines(
        if st.open && !enabled && !st.written {
            st.out.push(closing_hidden(st.out))
        } else {
            st.out
        },
    )
}

/// Rewrites only the `Hidden` key of the `[Desktop Entry]` group of `content`.
pub fn set_enabled_content(content: &str, enabled: bool) -> (r: String)
    ensures
        r@ == toggle_spec(content@, enabled),
{
    let v = chars_of(content);
    let lines = split_raw_lines(&v);
    let ghost ls = views(lines@);
    let mut out: Vec<Vec<char>> = Vec::new();
    let mut in_group = false;
    let mut written = false;
    let mut i: usize = 0;
    assert(views(out@) =~= Seq::<Seq<char>>::empty());
    while i < lines.len()
        invariant
            i <= lines.len(),
            ls == views(lines@),
            toggle_lines(ls.take(i as int), enabled).out == views(out@),
            toggle_lines(ls.take(i as int), enabled).open == in_group,
            toggle_lines(ls.take(i as int), enabled).written == written,
        decreases lines.len() - i,
    {
        assert(ls.take(i + 1).drop_last() =~= ls.take(i as int));
        assert(ls.take(i + 1).last() == lines@[i as int]@);
        let ghost before = views(out@);
        let line = &lines[i];
        let ghost exp = toggle_step(toggle_lines(ls.take(i as int), enabled), line@, enabled);
        assert(toggle_lines(ls.take(i + 1), enabled) == exp);
        let t = trimmed(line);
        if eq_str(&t, "[Desktop Entry]") {
            out.push(subvec_all(line));
            in_group = true;
            assert(views(out@) =~= before.push(line@));
        } else if t.len() > 0 && t[0] == '[' {
            if in_group && !enabled && !written {
                let mut l = chars_of("Hidden=true");
                l.push('\n');
                assert(l@ =~= hidden_line() + seq!['\n']);
                out.push(l);
                written = true;
                assert(views(out@) =~= before.push(hidden_line() + seq!['\n']));
                out.push(subvec_all(line));
                assert(views(out@) =~= before.push(hidden_line() + seq!['\n']).push(line@));
            } else {
                out.push(subvec_all(line));
                assert(views(out@) =~= before.push(line@));
            }
            in_group = false;
        } else {
            let is_hidden_key = if in_group {
                match split_once(&t, '=') {
                    Some((k, _)) => eq_str(&trimmed(&k), "Hidden"),
                    None => false,
                }
            } else {
                false
            };
            if is_hidden_key {
                if !enabled {
                    let mut l = chars_of("Hidden=true");
                    push_chars(&mut l, &line_end_of(line));
                    let ghost lv = l@;
                    out.push(l);
                    written = true;
                    assert(views(out@) =~= before.push(lv));
                }
            } else {
                out.push(subvec_all(line));
                assert(views(out@) =~= before.push(line@));
            }
        }
        assert(exp.out =~= views(out@));
        assert(exp.written == written);
        i += 1;
    }
    assert(ls.take(lines.len() as int) =~= ls);
    if in_group && !enabled && !written {
        let ghost before = views(out@);
        let mut l: Vec<char> = Vec::new();
        let n = out.len();
        if n > 0 {
            let end = line_end_of(&out[n - 1]);
            if end.len() == 0 {
                l.push('\n');
            }
        }
        push_str(&mut l, "Hidden=true");
        l.push('\n');
        assert(l@ =~= closing_hidden(before));
        out.push(l);
        assert(views(out@) =~= before.push(closing_hidden(before)));
    }
    string_of(&concat_vecs(&out))
}

// ---------------------------------------------------------------- identifiers

/// Whether `char::is_alphanumeric` holds of `c` (Unicode `Alphabetic` or `Numeric`).
pub uninterp spec fn alphanumeric(c: char) -> bool;

/// An ASCII letter or digit.
pub open spec fn ascii_alnum(c: char) -> bool {
    let u = c as u32;
    (48 <= u <= 57) || (65 <= u <= 90) || (97 <= u <= 122)
}

/// An ASCII character that an identifier cannot keep: not a letter, a digit,
/// `-`, `_` or `.`.
pub open spec fn unkept_ascii(c: char) -> bool {
    (c as u32) < 128 && !ascii_alnum(c) && c != '-' && c != '_' && c != '.'
}

/// Relies on char::is_alphanumeric: the Unicode `Alphabetic` or `Numeric`
/// property of `c`, which among ASCII characters holds of letters and digits.
#[verifier::external_body]
fn is_alphanumeric(c: char) -> (r: bool)
    ensures
        r == alphanumeric(c),
        (c as u32) < 128 ==> (r <==> ascii_alnum(c)),
{
    c.is_alphanumeric()
}

#[verifier::external_type_specification]
#[verifier::external_body]
pub struct ExSystemTime(std::time::SystemTime);

#[verifier::external_type_specification]
#[verifier::external_body]
pub struct ExSystemTimeError(std::time::SystemTimeError);

/// Relies on std::time::SystemTime::now: the current time of the system clock.
#[verifier::external_body]
fn system_now() -> std::time::SystemTime {
    std::time::SystemTime::now()
}

/// Relies on std::time::SystemTime::duration_since: the time elapsed since the
/// Unix epoch, an error when `t` lies before it.
#[verifier::external_body]
fn since_unix_epoch(t: &std::time::SystemTime) -> std::result::Result<
    std::time::Duration,
    std::time::SystemTimeError,
> {
    t.duration_since(std::time::UNIX_EPOCH)
}

/// Relies on std::time::Duration::as_millis: the whole milliseconds of `d`.
#[verifier::external_body]
fn whole_millis(d: &std::time::Duration) -> u128 {
    d.as_millis()
}

/// A character kept in an identifier; every other becomes `_`.
pub open spec fn id_char(c: char) -> char {
    let alnum = if (c as u32) < 128 {
        ascii_alnum(c)
    } else {
        alphanumeric(c)
    };
    if alnum || c == '-' || c == '_' || c == '.' {
        c
    } else {
        '_'
    }
}

/// The non-empty pieces of `pieces`, in order.
pub open spec fn non_empty(pieces: Seq<Seq<char>>) -> Seq<Seq<char>>
    decreases pieces.len(),
{
    if pieces.len() == 0 {
        Seq::empty()
    } else if pieces.last().len() > 0 {
        non_empty(pieces.drop_last()).push(pieces.last())
    } else {
        non_empty(pieces.drop_last())
    }
}

/// `words` with one `_` between each two.
pub open spec fn join_underscore(words: Seq<Seq<char>>) -> Seq<char>
    decreases words.len(),
{
    if words.len() == 0 {
        Seq::empty()
    } else if words.len() == 1 {
        words[0]
    } else {
        join_underscore(words.drop_last()) + seq!['_'] + words.last()
    }
}

/// `s` with runs of `_` made single and `_` removed at both ends.
pub open spec fn collapse_underscores(s: Seq<char>) -> Seq<char> {
    join_underscore(non_empty(split_at_char(s, '_')))
}

proof fn lemma_underscores_collapse(s: Seq<char>)
    requires
        forall|i: int| 0 <= i < s.len() ==> #[trigger] s[i] == '_',
    ensures
        non_empty(split_at_char(s, '_')) == Seq::<Seq<char>>::empty(),
        forall|j: int|
            0 <= j < split_at_char(s, '_').len() ==> #[trigger] split_at_char(s, '_')[j].len() == 0,
    decreases s.len(),
{
    if s.len() > 0 {
        let t = s.drop_last();
        assert forall|i: int| 0 <= i < t.len() implies #[trigger] t[i] == '_' by {
            assert(t[i] == s[i]);
        }
        lemma_underscores_collapse(t);
        let p = split_at_char(t, '_');
        let q = split_at_char(s, '_');
        assert(s.last() == '_');
        assert(q == p.push(Seq::empty()));
        assert(q.drop_last() =~= p);
        assert forall|j: int| 0 <= j < q.len() implies #[trigger] q[j].len() == 0 by {
            if j < p.len() {
                assert(q[j] == p[j]);
            }
        }
    } else {
        let q = split_at_char(s, '_');
        assert(q.drop_last() =~= Seq::<Seq<char>>::empty());
        assert(non_empty(q.drop_last()) == Seq::<Seq<char>>::empty());
    }
}

pub open spec fn only_dots_dashes(s: Seq<char>) -> bool {
    forall|i: int| 0 <= i < s.len() ==> #[trigger] s[i] == '.' || s[i] == '-'
}

/// A mapped identifier made tidy: runs of `_` collapsed and trimmed; when
/// that leaves nothing, or only `.` and `-`, `autostart_` followed by the time.
pub open spec fn tidy_spec(mapped: Seq<char>, now_millis: nat) -> Seq<char> {
    let c = collapse_underscores(mapped);
    if only_dots_dashes(c) {
        "autostart_"@ + decimal(now_millis)
    } else {
        c
    }
}

/// The identifier made of `id` at time `now_millis`: each character mapped by
/// `id_char`, then made tidy.
pub open spec fn sanitize_spec(id: Seq<char>, now_millis: nat) -> Seq<char> {
    tidy_spec(id.map_values(|ch: char| id_char(ch)), now_millis)
}

/// Collapses the runs of `_` of an identifier whose characters are already
/// mapped, and falls back to `autostart_` and the time when nothing usable is left.
pub fn tidy_id(mapped: &str, now_millis: u128) -> (r: String)
    ensures
        r@ == tidy_spec(mapped@, now_millis as nat),
{
    let v = chars_of(mapped);
    let ghost m = v@;
    let mut out: Vec<char> = Vec::new();
    let mut any = false;
    let mut cur: Vec<char> = Vec::new();
    let mut i: usize = 0;
    while i < v.len()
        invariant
            i <= v.len(),
            v@ == mapped@,
            m == v@,
            split_at_char(m.take(i as int), '_').len() >= 1,
            out@ == join_underscore(non_empty(split_at_char(m.take(i as int), '_').drop_last())),
            any == (non_empty(split_at_char(m.take(i as int), '_').drop_last()).len() > 0),
            cur@ == split_at_char(m.take(i as int), '_').last(),
        decreases v.len() - i,
    {
        let c = v[i];
        let ghost t = m.take(i + 1);
        let ghost p = split_at_char(m.take(i as int), '_');
        assert(t.drop_last() =~= m.take(i as int));
        assert(t.last() == c);
        if c == '_' {
            if cur.len() > 0 {
                let ghost ws = non_empty(p.drop_last());
                assert(ws.push(cur@).drop_last() =~= ws);
                assert(!any ==> ws.push(cur@)[0] == cur@);
                assert(!any ==> out@ =~= Seq::<char>::empty());
                if any {
                    out.push('_');
                }
                push_chars(&mut out, &cur);
                any = true;
                assert(p =~= p.drop_last().push(p.last()));
                assert(non_empty(p) == ws.push(cur@));
                assert(out@ =~= join_underscore(ws.push(cur@)));
            } else {
                assert(p =~= p.drop_last().push(p.last()));
                assert(non_empty(p) == non_empty(p.drop_last()));
            }
            cur = Vec::new();
            assert(split_at_char(t, '_') == p.push(Seq::empty()));
            assert(split_at_char(t, '_').drop_last() =~= p);
        } else {
            cur.push(c);
            assert(split_at_char(t, '_') == p.update(p.len() - 1, p.last().push(c)));
            assert(split_at_char(t, '_').drop_last() =~= p.drop_last());
        }
        i += 1;
    }
    assert(m.take(v.len() as int) =~= m);
    let ghost p = split_at_char(m, '_');
    let ghost ws = non_empty(p.drop_last());
    assert(p =~= p.drop_last().push(p.last()));
    if cur.len() > 0 {
        assert(ws.push(cur@).drop_last() =~= ws);
        assert(!any ==> ws.push(cur@)[0] == cur@);
        assert(!any ==> out@ =~= Seq::<char>::empty());
        if any {
            out.push('_');
        }
        push_chars(&mut out, &cur);
        assert(non_empty(p) == ws.push(cur@));
        assert(out@ =~= join_underscore(ws.push(cur@)));
    } else {
        assert(non_empty(p) == ws);
    }
    assert(out@ == collapse_underscores(m));
    let mut plain = true;
    let mut k: usize = 0;
    while k < out.len()
        invariant
            k <= out.len(),
            plain == (forall|j: int| 0 <= j < k ==> #[trigger] out@[j] == '.' || out@[j] == '-'),
        decreases out.len() - k,
    {
        if out[k] != '.' && out[k] != '-' {
            plain = false;
        }
        k += 1;
    }
    if plain {
        let mut r = chars_of("autostart_");
        push_decimal(&mut r, now_millis);
        string_of(&r)
    } else {
        string_of(&out)
    }
}

/// The identifier made of `id`, with `now_millis` as the time of the fallback.
pub fn sanitize_id_at(id: &str, now_millis: u128) -> (r: String)
    ensures
        r@ == sanitize_spec(id@, now_millis as nat),
        (forall|i: int| 0 <= i < id@.len() ==> #[trigger] unkept_ascii(id@[i])) ==> r@
            == "autostart_"@ + decimal(now_millis as nat),
{
    let v = chars_of(id);
    let mut mapped: Vec<char> = Vec::new();
    let mut i: usize = 0;
    while i < v.len()
        invariant
            i <= v.len(),
            v@ == id@,
            mapped@ == v@.take(i as int).map_values(|ch: char| id_char(ch)),
            forall|j: int|
                0 <= j < i && unkept_ascii(v@[j]) ==> #[trigger] mapped@[j] == '_',
        decreases v.len() - i,
    {
        let ch = v[i];
        let c = if is_alphanumeric(ch) || ch == '-' || ch == '_' || ch == '.' {
            ch
        } else {
            '_'
        };
        mapped.push(c);
        assert(v@.take(i + 1).map_values(|ch: char| id_char(ch)) =~= v@.take(i as int).map_values(
            |ch: char| id_char(ch),
        ).push(c));
        i += 1;
    }
    assert(v@.take(v.len() as int) =~= v@);
    if forall_unkept(&v) {
        proof {
            assert forall|i: int| 0 <= i < mapped@.len() implies #[trigger] mapped@[i] == '_' by {
                assert(unkept_ascii(v@[i]));
            }
            lemma_underscores_collapse(mapped@);
            let c = collapse_underscores(mapped@);
            assert(c =~= Seq::<char>::empty());
        }
    }
    tidy_id(string_of(&mapped).as_str(), now_millis)
}

/// Whether every character of `v` is an ASCII character an identifier cannot keep.
fn forall_unkept(v: &Vec<char>) -> (r: bool)
    ensures
        r == (forall|i: int| 0 <= i < v@.len() ==> #[trigger] unkept_ascii(v@[i])),
{
    let mut i: usize = 0;
    while i < v.len()
        invariant
            i <= v.len(),
            forall|j: int| 0 <= j < i ==> #[trigger] unkept_ascii(v@[j]),
        decreases v.len() - i,
    {
        let c = v[i];
        let u = c as u32;
        let alnum = (48 <= u && u <= 57) || (65 <= u && u <= 90) || (97 <= u && u <= 122);
        if !(u < 128 && !alnum && c != '-' && c != '_' && c != '.') {
            assert(!unkept_ascii(v@[i as int]));
            return false;
        }
        i += 1;
    }
    true
}

/// A file-name-safe identifier made of a name typed by a person: see
/// `sanitize_id_at`; the fallback carries the current time.
pub fn sanitize_id(id: &str) -> (r: String)
    ensures
        exists|t: nat| r@ == sanitize_spec(id@, t),
        (forall|i: int| 0 <= i < id@.len() ==> #[trigger] unkept_ascii(id@[i])) ==> exists|t: nat|
            r@ == "autostart_"@ + decimal(t),
{
    let now = match since_unix_epoch(&system_now()) {
        Ok(d) => whole_millis(&d),
        Err(_) => 0,
    };
    sanitize_id_at(id, now)
}

/// The file name for `base_id`: `base_id.desktop`, or `base_id_N.desktop`
/// with a suffix `N` (a probe count, or a time stamp).
pub fn candidate_file_name(base_id: &str, suffix: Option<u64>) -> (r: String)
    ensures
        r@ == match suffix {
            None => base_id@ + ".desktop"@,
            Some(n) => base_id@ + seq!['_'] + decimal(n as nat) + ".desktop"@,
        },
{
    let mut out = chars_of(base_id);
    match suffix {
        Some(n) => {
            out.push('_');
            push_decimal(&mut out, n as u128);
        },
        None => {},
    }
    push_str(&mut out, ".desktop");
    string_of(&out)
}

/// How many numbered names are tried before a time stamp is used.
pub const PROBE_LIMIT: u64 = 999;

/// Whether the search for a free file name stops at `attempt`: at the first
/// name not yet taken, or at the time-stamped name, which is taken as it is.
pub fn probe_stops(attempt: u64, name_taken: bool) -> (r: bool)
    ensures
        r == (!name_taken || attempt > PROBE_LIMIT),
{
    !name_taken || attempt > PROBE_LIMIT
}

/// The suffix of the file name tried at `attempt` when looking for a free
/// name: none at first, then `1` to `999`, then the time stamp `timestamp`.
pub fn candidate_suffix(attempt: u64, timestamp: u64) -> (r: Option<u64>)
    ensures
        attempt == 0 ==> r is None,
        1 <= attempt <= PROBE_LIMIT ==> r == Some(attempt),
        attempt > PROBE_LIMIT ==> r == Some(timestamp),
{
    if attempt == 0 {
        None
    } else if attempt <= PROBE_LIMIT {
        Some(attempt)
    } else {
        Some(timestamp)
    }
}

} // verus!
