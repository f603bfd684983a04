//! Choosing what a scan of the entry directories shows: the applications
//! found across directories in priority order, deduplicated by identifier and
//! sorted by name, and the autostart entries of one directory, sorted by name.
//! Reading the directories is left to the caller, which hands over each
//! file's identifier and text.
use vstd::prelude::*;
use vstd::multiset::Multiset;
use vstd::multiset::group_multiset_axioms;
use vstd::seq_lib::group_to_multiset_ensures;
use crate::codec::{is_valid_desktop_entry, parse_desktop_file, parse_spec, valid_spec};
use crate::entry::list_view;
use crate::model::{
    AppModel, Application, AutostartEntry, app_of, effective_state_spec, lowercase_of,
    to_lowercase,
};
use crate::text::{chars_of, views};

verus! {

// ---------------------------------------------------------------- ordering

/// `a` comes no later than `b` in the order of `str`'s `cmp`: character
/// codes compared one by one, a prefix first.
pub open spec fn text_le(a: Seq<char>, b: Seq<char>) -> bool
    decreases a.len(),
{
    if a.len() == 0 {
        true
    } else if b.len() == 0 {
        false
    } else if a[0] != b[0] {
        a[0] < b[0]
    } else {
        text_le(a.drop_first(), b.drop_first())
    }
}

/// Each key is no later than the next.
pub open spec fn sorted_keys(keys: Seq<Seq<char>>) -> bool {
    forall|i: int| 0 <= i < keys.len() - 1 ==> #[trigger] text_le(keys[i], keys[i + 1])
}

proof fn lemma_text_le_total(a: Seq<char>, b: Seq<char>)
    ensures
        text_le(a, b) || text_le(b, a),
    decreases a.len(),
{
    if a.len() > 0 && b.len() > 0 && a[0] == b[0] {
        lemma_text_le_total(a.drop_first(), b.drop_first());
    }
}

proof fn lemma_text_le_refl(a: Seq<char>)
    ensures
        text_le(a, a),
    decreases a.len(),
{
    if a.len() > 0 {
        lemma_text_le_refl(a.drop_first());
    }
}

proof fn lemma_text_le_trans(a: Seq<char>, b: Seq<char>, c: Seq<char>)
    requires
        text_le(a, b),
        text_le(b, c),
    ensures
        text_le(a, c),
    decreases a.len(),
{
    if a.len() > 0 && b.len() > 0 && c.len() > 0 && a[0] == b[0] && b[0] == c[0] {
        lemma_text_le_trans(a.drop_first(), b.drop_first(), c.drop_first());
    }
}

proof fn lemma_sorted_chain(keys: Seq<Seq<char>>, i: int, j: int)
    requires
        sorted_keys(keys),
        0 <= i <= j < keys.len(),
    ensures
        text_le(keys[i], keys[j]),
    decreases j - i,
{
    if i == j {
        lemma_text_le_refl(keys[i]);
    } else {
        lemma_sorted_chain(keys, i, j - 1);
        assert(text_le(keys[j - 1], keys[(j - 1) + 1]));
        lemma_text_le_trans(keys[i], keys[j - 1], keys[j]);
    }
}

/// `out` is `src` rearranged: item `k` of `out` is item `idx[k]` of `src`, and
/// items of equal keys stand in the order they had in `src`.
pub open spec fn keeps_order<V>(out: Seq<V>, keys: Seq<Seq<char>>, src: Seq<V>, idx: Seq<int>) -> bool {
    &&& idx.len() == out.len()
    &&& keys.len() == out.len()
    &&& forall|k: int| 0 <= k < out.len() ==> 0 <= #[trigger] idx[k] < src.len() && out[k] == src[idx[k]]
    &&& forall|k: int, l: int|
        0 <= k < l < out.len() && #[trigger] keys[k] == #[trigger] keys[l] ==> idx[k] < idx[l]
    &&& forall|k: int, l: int| 0 <= k < l < out.len() ==> #[trigger] idx[k] != #[trigger] idx[l]
}

/// Inserting item `x` of `src` (at `i`, after every item already placed)
/// right after the items whose keys are no later than its key keeps the order.
proof fn lemma_insert_keeps_order<V>(
    out: Seq<V>,
    keys: Seq<Seq<char>>,
    src: Seq<V>,
    idx: Seq<int>,
    p: int,
    i: int,
    k: Seq<char>,
)
    requires
        keeps_order(out, keys, src, idx),
        forall|j: int| 0 <= j < idx.len() ==> #[trigger] idx[j] < i,
        0 <= i < src.len(),
        0 <= p <= out.len(),
        forall|j: int| 0 <= j < p ==> #[trigger] text_le(keys[j], k),
        forall|j: int| p <= j < keys.len() ==> !#[trigger] text_le(keys[j], k),
    ensures
        keeps_order(out.insert(p, src[i]), keys.insert(p, k), src, idx.insert(p, i)),
{
    let o2 = out.insert(p, src[i]);
    let k2 = keys.insert(p, k);
    let i2 = idx.insert(p, i);
    lemma_text_le_refl(k);
    assert forall|a: int| 0 <= a < o2.len() implies 0 <= #[trigger] i2[a] < src.len() && o2[a] == src[i2[a]] by {
        if a > p {
            assert(i2[a] == idx[a - 1]);
        }
    }
    assert forall|a: int, b: int| 0 <= a < b < o2.len() implies #[trigger] i2[a] != #[trigger] i2[b] by {
        if a < p && b < p {
        } else if a < p && b == p {
            assert(i2[a] == idx[a]);
        } else if a < p {
            assert(i2[a] == idx[a] && i2[b] == idx[b - 1]);
        } else if a == p {
            assert(i2[b] == idx[b - 1]);
        } else {
            assert(i2[a] == idx[a - 1] && i2[b] == idx[b - 1]);
        }
    }
    assert forall|a: int, b: int|
        0 <= a < b < o2.len() && #[trigger] k2[a] == #[trigger] k2[b] implies i2[a] < i2[b] by {
        if b < p {
            assert(k2[a] == keys[a] && k2[b] == keys[b]);
        } else if b == p {
            assert(i2[a] == idx[a]);
        } else if a == p {
            assert(k2[b] == keys[b - 1]);
            assert(!text_le(keys[b - 1], k));
        } else if a < p {
            assert(k2[a] == keys[a] && k2[b] == keys[b - 1]);
        } else {
            assert(k2[a] == keys[a - 1] && k2[b] == keys[b - 1]);
        }
    }
}

fn text_le_exec(a: &Vec<char>, b: &Vec<char>) -> (r: bool)
    ensures
        r == text_le(a@, b@),
{
    let mut i: usize = 0;
    assert(a@.skip(0) =~= a@);
    assert(b@.skip(0) =~= b@);
    while i < a.len() && i < b.len() && a[i] == b[i]
        invariant
            i <= a.len(),
            i <= b.len(),
            text_le(a@, b@) == text_le(a@.skip(i as int), b@.skip(i as int)),
        decreases a.len() - i,
    {
        assert(a@.skip(i as int).drop_first() =~= a@.skip(i + 1));
        assert(b@.skip(i as int).drop_first() =~= b@.skip(i + 1));
        i += 1;
    }
    if i == a.len() {
        true
    } else if i == b.len() {
        false
    } else {
        assert(a@.skip(i as int)[0] == a@[i as int]);
        assert(b@.skip(i as int)[0] == b@[i as int]);
        a[i] < b[i]
    }
}

/// Inserts `x`, whose key is `k`, after every item whose key is no later
/// than `k`, keeping `keys` (one per item of `out`) sorted.
fn insert_sorted<T>(out: &mut Vec<T>, keys: &mut Vec<Vec<char>>, x: T, k: Vec<char>) -> (p: usize)
    requires
        old(out).len() == old(keys).len(),
        sorted_keys(views(old(keys)@)),
    ensures
        p <= old(out).len(),
        final(out)@ == old(out)@.insert(p as int, x),
        views(final(keys)@) == views(old(keys)@).insert(p as int, k@),
        sorted_keys(views(final(keys)@)),
        forall|j: int| 0 <= j < p ==> #[trigger] text_le(views(old(keys)@)[j], k@),
        forall|j: int| p <= j < old(keys).len() ==> !#[trigger] text_le(views(old(keys)@)[j], k@),
{
    let ghost ks = views(keys@);
    let mut p: usize = 0;
    while p < keys.len() && text_le_exec(&keys[p], &k)
        invariant
            p <= keys.len(),
            ks == views(keys@),
            forall|j: int| 0 <= j < p ==> #[trigger] text_le(ks[j], k@),
        decreases keys.len() - p,
    {
        p += 1;
    }
    if p < keys.len() {
        proof {
            lemma_text_le_total(ks[p as int], k@);
            assert forall|j: int| p <= j < ks.len() implies !#[trigger] text_le(ks[j], k@) by {
                lemma_sorted_chain(ks, p as int, j);
                if text_le(ks[j], k@) {
                    lemma_text_le_trans(ks[p as int], ks[j], k@);
                }
            }
        }
    }
    out.insert(p, x);
    keys.insert(p, k);
    let ghost nk = views(keys@);
    assert(nk =~= ks.insert(p as int, k@));
    assert forall|i: int| 0 <= i < nk.len() - 1 implies #[trigger] text_le(nk[i], nk[i + 1]) by {
        if i + 1 < p {
            assert(nk[i] == ks[i] && nk[i + 1] == ks[i + 1]);
            assert(text_le(ks[i], ks[i + 1]));
        } else if i + 1 == p {
            assert(nk[i] == ks[i] && nk[i + 1] == k@);
            assert(text_le(ks[i], k@));
        } else if i == p {
            assert(nk[i] == k@ && nk[i + 1] == ks[i]);
            assert(!text_le(ks[i], k@));
        } else {
            assert(nk[i] == ks[i - 1] && nk[i + 1] == ks[i]);
            assert(text_le(ks[i - 1], ks[(i - 1) + 1]));
        }
    }
    p
}

proof fn lemma_empty_multiset<A>(s: Seq<A>)
    requires
        s.len() == 0,
    ensures
        s.to_multiset() == Multiset::<A>::empty(),
{
    broadcast use group_to_multiset_ensures, group_multiset_axioms;

    assert(s.to_multiset() =~= Multiset::<A>::empty());
}

/// Moving the first item of `rest` into `outs` keeps the two together the same.
proof fn lemma_move_first<A>(outs: Seq<A>, rest: Seq<A>, p: int, total: Multiset<A>)
    requires
        rest.len() > 0,
        0 <= p <= outs.len(),
        outs.to_multiset().add(rest.to_multiset()) == total,
    ensures
        outs.insert(p, rest[0]).to_multiset().add(rest.remove(0).to_multiset()) == total,
{
    broadcast use group_to_multiset_ensures, group_multiset_axioms;

    assert(rest.contains(rest[0]));
    assert(rest.to_multiset().count(rest[0]) > 0);
    assert(outs.insert(p, rest[0]).to_multiset().add(rest.remove(0).to_multiset()) =~= total);
}

// ---------------------------------------------------------------- applications

/// A `.desktop` file found while walking the application directories, in
/// priority order: its identifier (the file stem), its text, and whether
/// the program named by its `TryExec` key exists.
pub struct AppCandidate {
    pub id: String,
    pub content: String,
    pub try_exec_found: bool,
}

/// A file that describes an application to offer: valid, neither hidden nor
/// marked `NoDisplay`, and with its `TryExec` program present when it names one.
pub open spec fn accepts(c: AppCandidate) -> bool {
    let e = parse_spec(c.content@);
    valid_spec(c.content@) && !e.hidden && !e.no_display && (e.try_exec is None || c.try_exec_found)
}

pub open spec fn has_id(apps: Seq<AppModel>, id: Seq<char>) -> bool {
    exists|k: int| 0 <= k < apps.len() && #[trigger] apps[k].id == id
}

/// The applications of the files `cs`, in order: each accepted file whose
/// identifier no earlier accepted file has.
pub open spec fn chosen(cs: Seq<AppCandidate>) -> Seq<AppModel>
    decreases cs.len(),
{
    if cs.len() == 0 {
        Seq::empty()
    } else {
        let prev = chosen(cs.drop_last());
        let c = cs.last();
        if accepts(c) && !has_id(prev, c.id@) {
            prev.push(app_of(c.id@, parse_spec(c.content@)))
        } else {
            prev
        }
    }
}

pub open spec fn app_views(apps: Seq<Application>) -> Seq<AppModel> {
    apps.map_values(|a: Application| a@)
}

pub open spec fn app_keys(apps: Seq<Application>) -> Seq<Seq<char>> {
    apps.map_values(|a: Application| lowercase_of(a.name@))
}

proof fn lemma_chosen_from(cs: Seq<AppCandidate>, id: Seq<char>)
    ensures
        has_id(chosen(cs), id) ==> exists|h: int|
            0 <= h < cs.len() && #[trigger] cs[h].id@ == id && accepts(cs[h]),
    decreases cs.len(),
{
    if cs.len() > 0 {
        let prev = cs.drop_last();
        lemma_chosen_from(prev, id);
        if has_id(chosen(cs), id) {
            let k = choose|k: int| 0 <= k < chosen(cs).len() && #[trigger] chosen(cs)[k].id == id;
            if k < chosen(prev).len() {
                assert(chosen(prev)[k].id == id);
                let h = choose|h: int| 0 <= h < prev.len() && #[trigger] prev[h].id@ == id && accepts(prev[h]);
                assert(cs[h] == prev[h]);
            } else {
                assert(cs[cs.len() - 1].id@ == id);
            }
        }
    }
}

/// Identifiers are never repeated among the applications chosen; and when
/// a file is accepted and no earlier file of the same identifier is, the
/// application of that identifier is the one of this file: a file of a
/// higher-priority directory hides those of the same identifier after it.
pub proof fn lemma_first_directory_wins(cs: Seq<AppCandidate>, i: int)
    requires
        0 <= i < cs.len(),
        accepts(cs[i]),
        forall|h: int| 0 <= h < i && #[trigger] cs[h].id@ == cs[i].id@ ==> !accepts(cs[h]),
    ensures
        forall|a: int, b: int|
            0 <= a < b < chosen(cs).len() ==> #[trigger] chosen(cs)[a].id != #[trigger] chosen(
                cs,
            )[b].id,
        has_id(chosen(cs), cs[i].id@),
        forall|k: int|
            0 <= k < chosen(cs).len() && #[trigger] chosen(cs)[k].id == cs[i].id@ ==> chosen(cs)[k]
                == app_of(cs[i].id@, parse_spec(cs[i].content@)),
    decreases cs.len(),
{
    lemma_chosen_distinct(cs);
    let id = cs[i].id@;
    let prev = cs.drop_last();
    let c = cs.last();
    if i == cs.len() - 1 {
        lemma_chosen_from(prev, id);
        if has_id(chosen(prev), id) {
            let h = choose|h: int| 0 <= h < prev.len() && #[trigger] prev[h].id@ == id && accepts(prev[h]);
            assert(cs[h] == prev[h]);
        }
        assert(chosen(cs) == chosen(prev).push(app_of(id, parse_spec(c.content@))));
        assert(chosen(cs)[chosen(prev).len() as int].id == id);
    } else {
        assert forall|h: int| 0 <= h < i && #[trigger] prev[h].id@ == prev[i].id@ implies !accepts(
            prev[h],
        ) by {
            assert(prev[h] == cs[h]);
        }
        lemma_first_directory_wins(prev, i);
        let k0 = choose|k: int| 0 <= k < chosen(prev).len() && #[trigger] chosen(prev)[k].id == id;
        if accepts(c) && !has_id(chosen(prev), c.id@) {
            assert(c.id@ != id);
            assert(chosen(cs)[k0].id == id);
        } else {
            assert(chosen(cs)[k0].id == id);
        }
    }
}

/// The same, said of any arrangement of the chosen applications, such as the
/// sorted result of `select_applications`: an application whose identifier
/// is that of file `i` is the application of file `i`.
pub proof fn lemma_first_directory_wins_in(
    out: Seq<AppModel>,
    keys: Seq<Seq<char>>,
    cs: Seq<AppCandidate>,
    idx: Seq<int>,
    i: int,
)
    requires
        keeps_order(out, keys, chosen(cs), idx),
        0 <= i < cs.len(),
        accepts(cs[i]),
        forall|h: int| 0 <= h < i && #[trigger] cs[h].id@ == cs[i].id@ ==> !accepts(cs[h]),
    ensures
        forall|k: int|
            0 <= k < out.len() && #[trigger] out[k].id == cs[i].id@ ==> out[k] == app_of(
                cs[i].id@,
                parse_spec(cs[i].content@),
            ),
{
    lemma_first_directory_wins(cs, i);
    assert forall|k: int| 0 <= k < out.len() && #[trigger] out[k].id == cs[i].id@ implies out[k]
        == app_of(cs[i].id@, parse_spec(cs[i].content@)) by {
        assert(out[k] == chosen(cs)[idx[k]]);
        assert(chosen(cs)[idx[k]].id == cs[i].id@);
    }
}

proof fn lemma_chosen_distinct(cs: Seq<AppCandidate>)
    ensures
        forall|a: int, b: int|
            0 <= a < b < chosen(cs).len() ==> #[trigger] chosen(cs)[a].id != #[trigger] chosen(
                cs,
            )[b].id,
    decreases cs.len(),
{
    if cs.len() > 0 {
        let prev = cs.drop_last();
        lemma_chosen_distinct(prev);
        let c = cs.last();
        if accepts(c) && !has_id(chosen(prev), c.id@) {
            let n = chosen(prev).len() as int;
            assert forall|a: int, b: int|
                0 <= a < b < chosen(cs).len() implies #[trigger] chosen(cs)[a].id
                    != #[trigger] chosen(cs)[b].id by {
                if b == n {
                    assert(chosen(cs)[a] == chosen(prev)[a]);
                    if chosen(prev)[a].id == c.id@ {
                        assert(has_id(chosen(prev), c.id@));
                    }
                } else {
                    assert(chosen(cs)[a] == chosen(prev)[a]);
                    assert(chosen(cs)[b] == chosen(prev)[b]);
                }
            }
        }
    }
}

fn has_app_id(apps: &Vec<Application>, id: &String) -> (r: bool)
    ensures
        r == has_id(app_views(apps@), id@),
{
    let mut k: usize = 0;
    while k < apps.len()
        invariant
            k <= apps.len(),
            forall|j: int| 0 <= j < k ==> #[trigger] app_views(apps@)[j].id != id@,
        decreases apps.len() - k,
    {
        if apps[k].id == *id {
            assert(app_views(apps@)[k as int].id == id@);
            return true;
        }
        k += 1;
    }
    false
}

/// The applications to offer from the files `candidates` (in directory
/// priority order): those of `chosen`, sorted by lowercase name, equal names
/// left in the order found.
pub fn select_applications(candidates: Vec<AppCandidate>) -> (r: Vec<Application>)
    ensures
        app_views(r@).to_multiset() == chosen(candidates@).to_multiset(),
        sorted_keys(app_keys(r@)),
        exists|idx: Seq<int>| keeps_order(app_views(r@), app_keys(r@), chosen(candidates@), idx),
        forall|k: int, l: int| 0 <= k < l < r.len() ==> #[trigger] r@[k].id@ != #[trigger] r@[l].id@,
{
    let ghost cs = candidates@;
    let mut found: Vec<Application> = Vec::new();
    let mut i: usize = 0;
    assert(app_views(found@) =~= Seq::<AppModel>::empty());
    while i < candidates.len()
        invariant
            i <= candidates.len(),
            cs == candidates@,
            app_views(found@) == chosen(cs.take(i as int)),
        decreases candidates.len() - i,
    {
        let c = &candidates[i];
        assert(cs.take(i + 1).drop_last() =~= cs.take(i as int));
        assert(cs.take(i + 1).last() == *c);
        let seen = has_app_id(&found, &c.id);
        if !seen && is_valid_desktop_entry(c.content.as_str()) {
            match parse_desktop_file(c.content.as_str()) {
                Ok(e) => {
                    let e_ok = !e.hidden && !e.no_display && (e.try_exec.is_none()
                        || c.try_exec_found);
                    if e_ok {
                        let ghost before = app_views(found@);
                        let app = Application::from_desktop_entry(c.id.clone(), &e);
                        found.push(app);
                        assert(app_views(found@) =~= before.push(app@));
                    }
                },
                Err(_) => {},
            }
        }
        i += 1;
    }
    assert(cs.take(candidates.len() as int) =~= cs);
    let ghost total = chosen(cs).to_multiset();
    let mut out: Vec<Application> = Vec::new();
    let mut keys: Vec<Vec<char>> = Vec::new();
    assert(app_views(out@) =~= Seq::<AppModel>::empty());
    assert(views(keys@) =~= Seq::<Seq<char>>::empty());
    proof {
        lemma_empty_multiset(app_views(out@));
        assert(app_views(out@).to_multiset().add(app_views(found@).to_multiset()) =~= total);
    }
    let ghost src = chosen(cs);
    let ghost n = found.len() as int;
    let mut idx: Ghost<Seq<int>> = Ghost(Seq::empty());
    assert(app_views(found@).skip(0) =~= app_views(found@));
    while found.len() > 0
        invariant
            out.len() == keys.len(),
            views(keys@) == app_keys(out@),
            sorted_keys(views(keys@)),
            app_views(out@).to_multiset().add(app_views(found@).to_multiset()) == total,
            n == src.len(),
            found.len() <= n,
            app_views(found@) == src.skip(n - found.len()),
            keeps_order(app_views(out@), app_keys(out@), src, idx@),
            forall|j: int| 0 <= j < idx@.len() ==> #[trigger] idx@[j] < n - found.len(),
        decreases found.len(),
    {
        let ghost rest = found@;
        let ghost outs = out@;
        let ghost i0 = n - found.len();
        let app = found.remove(0);
        let k = chars_of(to_lowercase(app.name.as_str()).as_str());
        let ghost v = app@;
        let p = insert_sorted(&mut out, &mut keys, app, k);
        proof {
            assert(app_views(found@) =~= app_views(rest).remove(0));
            assert(app_views(out@) =~= app_views(outs).insert(p as int, v));
            assert(app_keys(out@) =~= app_keys(outs).insert(p as int, lowercase_of(v.name)));
            assert(app_views(rest)[0] == v);
            lemma_move_first(app_views(outs), app_views(rest), p as int, total);
            assert(src.skip(i0)[0] == src[i0]);
            lemma_insert_keeps_order(
                app_views(outs),
                app_keys(outs),
                src,
                idx@,
                p as int,
                i0,
                lowercase_of(v.name),
            );
            assert(app_views(found@) =~= src.skip(i0 + 1));
        }
        idx = Ghost(idx@.insert(p as int, i0));
    }
    proof {
        broadcast use group_multiset_axioms;

        lemma_empty_multiset(app_views(found@));
        assert(app_views(out@).to_multiset() =~= total);
        assert(keeps_order(app_views(out@), app_keys(out@), chosen(candidates@), idx@));
        lemma_chosen_distinct(cs);
        let ov = app_views(out@);
        let ix = idx@;
        assert forall|k: int, l: int| 0 <= k < l < out.len() implies #[trigger] out@[k].id@
            != #[trigger] out@[l].id@ by {
            assert(ov[k] == src[ix[k]] && ov[l] == src[ix[l]]);
            assert(ix[k] != ix[l]);
            if ix[k] < ix[l] {
                assert(src[ix[k]].id != src[ix[l]].id);
            } else {
                assert(src[ix[l]].id != src[ix[k]].id);
            }
        }
    }
    out
}

// ---------------------------------------------------------------- autostart entries

/// The autostart entry of file `path` (identifier `id`, text `content`),
/// with its state for `current_desktop`; `None` when the text is not a valid
/// application entry.
pub fn load_autostart_entry(
    id: &str,
    path: &str,
    content: &str,
    current_desktop: &[String],
    try_exec_found: bool,
) -> (r: Option<AutostartEntry>)
    ensures
        r is Some <==> valid_spec(content@),
        r matches Some(a) ==> a.id@ == id@ && a.path@ == path@ && a.raw_content@ == content@
            && a.desktop_entry@ == parse_spec(content@) && a.effective_state
            == effective_state_spec(
            parse_spec(content@),
            list_view(current_desktop@),
            try_exec_found,
        ),
{
    if !is_valid_desktop_entry(content) {
        return None;
    }
    match parse_desktop_file(content) {
        Ok(e) => Some(
            AutostartEntry::new(
                id.to_owned(),
                path.to_owned(),
                e,
                content.to_owned(),
                current_desktop,
                try_exec_found,
            ),
        ),
        Err(_) => None,
    }
}

pub open spec fn entry_keys(entries: Seq<AutostartEntry>) -> Seq<Seq<char>> {
    entries.map_values(|a: AutostartEntry| a.desktop_entry.name@)
}

/// `entries` sorted by name, equal names left in their order.
pub fn sort_entries_by_name(entries: Vec<AutostartEntry>) -> (r: Vec<AutostartEntry>)
    ensures
        r@.to_multiset() == entries@.to_multiset(),
        sorted_keys(entry_keys(r@)),
        exists|idx: Seq<int>| keeps_order(r@, entry_keys(r@), entries@, idx),
{
    let ghost total = entries@.to_multiset();
    let mut rest = entries;
    let mut out: Vec<AutostartEntry> = Vec::new();
    let mut keys: Vec<Vec<char>> = Vec::new();
    assert(views(keys@) =~= Seq::<Seq<char>>::empty());
    assert(entry_keys(out@) =~= Seq::<Seq<char>>::empty());
    proof {
        lemma_empty_multiset(out@);
        assert(out@.to_multiset().add(rest@.to_multiset()) =~= total);
    }
    let ghost src = rest@;
    let ghost n = rest.len() as int;
    let mut idx: Ghost<Seq<int>> = Ghost(Seq::empty());
    assert(src.skip(0) =~= src);
    while rest.len() > 0
        invariant
            out.len() == keys.len(),
            views(keys@) == entry_keys(out@),
            sorted_keys(views(keys@)),
            out@.to_multiset().add(rest@.to_multiset()) == total,
            n == src.len(),
            rest.len() <= n,
            rest@ == src.skip(n - rest.len()),
            keeps_order(out@, entry_keys(out@), src, idx@),
            forall|j: int| 0 <= j < idx@.len() ==> #[trigger] idx@[j] < n - rest.len(),
        decreases rest.len(),
    {
        let ghost before_rest = rest@;
        let ghost outs = out@;
        let ghost i0 = n - rest.len();
        let entry = rest.remove(0);
        let k = chars_of(entry.desktop_entry.name.as_str());
        let ghost e = entry;
        let p = insert_sorted(&mut out, &mut keys, entry, k);
        proof {
            assert(entry_keys(out@) =~= entry_keys(outs).insert(p as int, e.desktop_entry.name@));
            lemma_move_first(outs, before_rest, p as int, total);
            assert(src.skip(i0)[0] == src[i0]);
            lemma_insert_keeps_order(
                outs,
                entry_keys(outs),
                src,
                idx@,
                p as int,
                i0,
                e.desktop_entry.name@,
            );
            assert(rest@ =~= src.skip(i0 + 1));
        }
        idx = Ghost(idx@.insert(p as int, i0));
    }
    proof {
        broadcast use group_multiset_axioms;

        lemma_empty_multiset(rest@);
        assert(out@.to_multiset() =~= total);
        assert(keeps_order(out@, entry_keys(out@), entries@, idx@));
    }
    out
}

} // verus!
