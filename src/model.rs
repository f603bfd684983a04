//! Autostart entries and launchable applications, the effective state of an
//! entry, and the search over applications.
use vstd::prelude::*;
use crate::delay::{delay_spec, get_delay, unwrap_delay, unwrap_spec};
use crate::entry::{DesktopEntry, EffectiveState, EntryModel, list_view, opt_view};
use crate::text::chars_of;

verus! {

// ---------------------------------------------------------------- effective state

/// Whether some desktop of `desktops` is named in `list`.
pub open spec fn names_any(list: Seq<Seq<char>>, desktops: Seq<Seq<char>>) -> bool {
    exists|i: int, j: int|
        0 <= i < desktops.len() && 0 <= j < list.len() && #[trigger] desktops[i] == #[trigger] list[j]
}

/// The effective state of entry `e` on the desktops `desktops`, where
/// `try_exec_found` tells whether the program named by `TryExec` exists:
/// `Hidden` first, then a missing `TryExec` program, then `OnlyShowIn` naming
/// none of the desktops, then `NotShowIn` naming one of them.
pub open spec fn effective_state_spec(
    e: EntryModel,
    desktops: Seq<Seq<char>>,
    try_exec_found: bool,
) -> EffectiveState {
    if e.hidden {
        EffectiveState::Disabled
    } else if e.try_exec is Some && !try_exec_found {
        EffectiveState::TryExecFailed
    } else if e.only_show_in.len() > 0 && !names_any(e.only_show_in, desktops) {
        EffectiveState::EnvironmentExcluded
    } else if names_any(e.not_show_in, desktops) {
        EffectiveState::EnvironmentExcluded
    } else {
        EffectiveState::Enabled
    }
}

/// `Hidden` decides over every other signal, and a missing `TryExec`
/// program decides over the desktop lists.
pub proof fn lemma_state_precedence(e: EntryModel, desktops: Seq<Seq<char>>, try_exec_found: bool)
    ensures
        e.hidden ==> effective_state_spec(e, desktops, try_exec_found) == EffectiveState::Disabled,
        !e.hidden && e.try_exec is Some && !try_exec_found ==> effective_state_spec(
            e,
            desktops,
            try_exec_found,
        ) == EffectiveState::TryExecFailed,
        !e.hidden && (e.try_exec is None || try_exec_found) && e.only_show_in.len() > 0
            && !names_any(e.only_show_in, desktops) ==> effective_state_spec(
            e,
            desktops,
            try_exec_found,
        ) == EffectiveState::EnvironmentExcluded,
{
}

/// Whether `s` is one of `list`.
fn contains_string(list: &Vec<String>, s: &String) -> (r: bool)
    ensures
        r == (exists|j: int| 0 <= j < list.len() && #[trigger] list_view(list@)[j] == s@),
{
    let mut i: usize = 0;
    while i < list.len()
        invariant
            i <= list.len(),
            forall|j: int| 0 <= j < i ==> #[trigger] list_view(list@)[j] != s@,
        decreases list.len() - i,
    {
        if list[i] == *s {
            assert(list_view(list@)[i as int] == s@);
            return true;
        }
        i += 1;
    }
    false
}

/// Whether some desktop of `desktops` is named in `list`.
fn names_any_exec(list: &Vec<String>, desktops: &[String]) -> (r: bool)
    ensures
        r == names_any(list_view(list@), list_view(desktops@)),
{
    let mut i: usize = 0;
    while i < desktops.len()
        invariant
            i <= desktops.len(),
            forall|a: int, b: int|
                0 <= a < i && 0 <= b < list.len() ==> #[trigger] list_view(desktops@)[a]
                    != #[trigger] list_view(list@)[b],
        decreases desktops.len() - i,
    {
        if contains_string(list, &desktops[i]) {
            assert(list_view(desktops@)[i as int] == desktops@[i as int]@);
            return true;
        }
        i += 1;
    }
    false
}

/// A file found in the autostart directory, with its parsed entry.
#[derive(Debug, Clone)]
pub struct AutostartEntry {
    pub id: String,
    pub path: String,
    pub desktop_entry: DesktopEntry,
    pub effective_state: EffectiveState,
    pub raw_content: String,
}

impl AutostartEntry {
    /// An entry read from `path`, its state computed for `current_desktop`;
    /// `try_exec_found` tells whether the program named by `TryExec` exists.
    pub fn new(
        id: String,
        path: String,
        desktop_entry: DesktopEntry,
        raw_content: String,
        current_desktop: &[String],
        try_exec_found: bool,
    ) -> (r: Self)
        ensures
            r.id@ == id@,
            r.path@ == path@,
            r.desktop_entry@ == desktop_entry@,
            r.raw_content@ == raw_content@,
            r.effective_state == effective_state_spec(
                desktop_entry@,
                list_view(current_desktop@),
                try_exec_found,
            ),
    {
        let mut entry = AutostartEntry {
            id,
            path,
            desktop_entry,
            effective_state: EffectiveState::Enabled,
            raw_content,
        };
        entry.effective_state = entry.compute_effective_state(current_desktop, try_exec_found);
        entry
    }

    /// The state of this entry on `current_desktop`.
    pub fn compute_effective_state(&self, current_desktop: &[String], try_exec_found: bool) -> (r:
        EffectiveState)
        ensures
            r == effective_state_spec(
                self.desktop_entry@,
                list_view(current_desktop@),
                try_exec_found,
            ),
    {
        let e = &self.desktop_entry;
        if e.hidden {
            return EffectiveState::Disabled;
        }
        if e.try_exec.is_some() && !try_exec_found {
            return EffectiveState::TryExecFailed;
        }
        if e.only_show_in.len() > 0 && !names_any_exec(&e.only_show_in, current_desktop) {
            return EffectiveState::EnvironmentExcluded;
        }
        if names_any_exec(&e.not_show_in, current_desktop) {
            return EffectiveState::EnvironmentExcluded;
        }
        EffectiveState::Enabled
    }

    /// The start delay encoded in the entry's command line.
    pub fn delay_seconds(&self) -> (r: Option<u32>)
        ensures
            r == delay_spec(self.desktop_entry.exec_line@),
    {
        get_delay(self.desktop_entry.exec_line.as_str())
    }

    /// The entry's command line without its delay wrapper.
    pub fn base_exec(&self) -> (r: String)
        ensures
            r@ == unwrap_spec(self.desktop_entry.exec_line@).0,
    {
        let (base, _) = unwrap_delay(self.desktop_entry.exec_line.as_str());
        base
    }
}

// ---------------------------------------------------------------- applications

/// A program that can be chosen for autostart.
#[derive(Debug, Clone)]
pub struct Application {
    pub id: String,
    pub name: String,
    pub exec_line: String,
    pub icon: Option<String>,
    pub comment: Option<String>,
    pub keywords: Vec<String>,
}

/// An `Application` as a mathematical value.
pub struct AppModel {
    pub id: Seq<char>,
    pub name: Seq<char>,
    pub exec_line: Seq<char>,
    pub icon: Option<Seq<char>>,
    pub comment: Option<Seq<char>>,
    pub keywords: Seq<Seq<char>>,
}

impl View for Application {
    type V = AppModel;

    open spec fn view(&self) -> AppModel {
        AppModel {
            id: self.id@,
            name: self.name@,
            exec_line: self.exec_line@,
            icon: opt_view(self.icon),
            comment: opt_view(self.comment),
            keywords: list_view(self.keywords@),
        }
    }
}

/// The application `id` that entry `e` describes.
pub open spec fn app_of(id: Seq<char>, e: EntryModel) -> AppModel {
    AppModel {
        id,
        name: e.name,
        exec_line: e.exec_line,
        icon: e.icon,
        comment: e.comment,
        keywords: e.keywords,
    }
}

/// The lowercase form of `s`, as `str::to_lowercase` gives it.
pub uninterp spec fn lowercase_of(s: Seq<char>) -> Seq<char>;

/// Relies on str::to_lowercase: the Unicode lowercase mapping of the whole
/// string (context decides the final sigma); an empty string stays empty.
#[verifier::external_body]
pub(crate) fn to_lowercase(s: &str) -> (r: String)
    ensures
        r@ == lowercase_of(s@),
        s@.len() == 0 ==> r@.len() == 0,
{
    s.to_lowercase()
}

/// Whether `needle` occurs in `hay`.
pub open spec fn occurs_in(needle: Seq<char>, hay: Seq<char>) -> bool {
    exists|i: int| 0 <= i && i + needle.len() <= hay.len() && #[trigger] hay.subrange(i, i + needle.len()) == needle
}

/// Whether `query` matches the application: it occurs in the lowercase name,
/// command line, comment or one of the keywords, the query itself lowercased.
pub open spec fn matches_spec(a: AppModel, query: Seq<char>) -> bool {
    let q = lowercase_of(query);
    occurs_in(q, lowercase_of(a.name)) || occurs_in(q, lowercase_of(a.exec_line)) || (
    a.comment is Some && occurs_in(q, lowercase_of(a.comment->0))) || exists|k: int|
        0 <= k < a.keywords.len() && occurs_in(q, lowercase_of(#[trigger] a.keywords[k]))
}

/// Whether `needle` occurs in `hay`.
pub fn contains_text(hay: &str, needle: &str) -> (r: bool)
    ensures
        r == occurs_in(needle@, hay@),
{
    let h = chars_of(hay);
    let n = chars_of(needle);
    if n.len() > h.len() {
        return false;
    }
    let mut i: usize = 0;
    while i <= h.len() - n.len()
        invariant
            n.len() <= h.len(),
            h@ == hay@,
            n@ == needle@,
            i <= h.len() - n.len() + 1,
            forall|j: int| 0 <= j < i ==> #[trigger] h@.subrange(j, j + n.len()) != n@,
        decreases h.len() - n.len() + 1 - i,
    {
        let mut k: usize = 0;
        while k < n.len() && h[i + k] == n[k]
            invariant
                n.len() <= h.len(),
                i + n.len() <= h.len(),
                k <= n.len(),
                forall|m: int| 0 <= m < k ==> h@[i + m] == n@[m],
            decreases n.len() - k,
        {
            k += 1;
        }
        if k == n.len() {
            assert(h@.subrange(i as int, i + n.len()) =~= n@);
            return true;
        }
        assert(h@.subrange(i as int, i + n.len())[k as int] != n@[k as int]);
        i += 1;
    }
    assert forall|j: int| 0 <= j && j + needle@.len() <= hay@.len() implies #[trigger] hay@.subrange(
        j,
        j + needle@.len(),
    ) != needle@ by {
        assert(j < i);
    }
    false
}

impl Application {
    /// The application `id` that `entry` describes.
    pub fn from_desktop_entry(id: String, entry: &DesktopEntry) -> (r: Self)
        ensures
            r@ == app_of(id@, entry@),
    {
        Application {
            id,
            name: entry.name.clone(),
            exec_line: entry.exec_line.clone(),
            icon: entry.icon.clone(),
            comment: entry.comment.clone(),
            keywords: entry.keywords.clone(),
        }
    }

    /// Whether `query` matches this application, ignoring case.
    pub fn matches_search(&self, query: &str) -> (r: bool)
        ensures
            r == matches_spec(self@, query@),
    {
        let q = to_lowercase(query);
        if contains_text(to_lowercase(self.name.as_str()).as_str(), q.as_str()) {
            return true;
        }
        if contains_text(to_lowercase(self.exec_line.as_str()).as_str(), q.as_str()) {
            return true;
        }
        match &self.comment {
            Some(c) => {
                if contains_text(to_lowercase(c.as_str()).as_str(), q.as_str()) {
                    return true;
                }
            },
            None => {},
        }
        let mut i: usize = 0;
        while i < self.keywords.len()
            invariant
                i <= self.keywords.len(),
                q@ == lowercase_of(query@),
                forall|k: int|
                    0 <= k < i ==> !occurs_in(q@, lowercase_of(#[trigger] list_view(self.keywords@)[k])),
            decreases self.keywords.len() - i,
        {
            if contains_text(to_lowercase(self.keywords[i].as_str()).as_str(), q.as_str()) {
                assert(list_view(self.keywords@)[i as int] == self.keywords@[i as int]@);
                assert(occurs_in(q@, lowercase_of(self@.keywords[i as int])));
                return true;
            }
            i += 1;
        }
        false
    }
}

} // verus!
