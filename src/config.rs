//! The directories scanned for entries, and the list of active desktops.
use vstd::prelude::*;
use crate::entry::list_view;
use crate::text::{split_at_char, string_of};
use crate::writer::non_empty;

verus! {

/// Where entries live: the user's autostart directory, the user's
/// application directory, and the system application directories in
/// priority order.
#[derive(Debug, Clone)]
pub struct XdgPaths {
    pub user_autostart: String,
    pub user_applications: String,
    pub system_applications: Vec<String>,
}

impl XdgPaths {
    /// The application directories in priority order: the user's first.
    pub fn all_application_dirs(&self) -> (r: Vec<String>)
        ensures
            list_view(r@) == seq![self.user_applications@] + list_view(self.system_applications@),
    {
        let mut dirs: Vec<String> = Vec::new();
        dirs.push(self.user_applications.clone());
        let mut i: usize = 0;
        while i < self.system_applications.len()
            invariant
                i <= self.system_applications.len(),
                list_view(dirs@) == seq![self.user_applications@] + list_view(
                    self.system_applications@,
                ).take(i as int),
            decreases self.system_applications.len() - i,
        {
            let ghost before = list_view(dirs@);
            dirs.push(self.system_applications[i].clone());
            assert(list_view(dirs@) =~= before.push(self.system_applications@[i as int]@));
            assert(list_view(self.system_applications@).take(i + 1) =~= list_view(
                self.system_applications@,
            ).take(i as int).push(self.system_applications@[i as int]@));
            i += 1;
        }
        assert(list_view(self.system_applications@).take(self.system_applications.len() as int)
            =~= list_view(self.system_applications@));
        dirs
    }
}

/// The desktops named in a `:`-separated value such as that of
/// `XDG_CURRENT_DESKTOP`: its non-empty pieces, in order.
pub open spec fn desktop_list_spec(value: Seq<char>) -> Seq<Seq<char>> {
    non_empty(split_at_char(value, ':'))
}

/// The desktops named in a `:`-separated value, empty pieces dropped.
pub fn parse_desktop_list(value: &str) -> (r: Vec<String>)
    ensures
        list_view(r@) == desktop_list_spec(value@),
{
    let v = crate::text::chars_of(value);
    let mut out: Vec<String> = Vec::new();
    let mut cur: Vec<char> = Vec::new();
    let mut i: usize = 0;
    while i < v.len()
        invariant
            i <= v.len(),
            v@ == value@,
            split_at_char(v@.take(i as int), ':').len() >= 1,
            list_view(out@) == non_empty(split_at_char(v@.take(i as int), ':').drop_last()),
            cur@ == split_at_char(v@.take(i as int), ':').last(),
        decreases v.len() - i,
    {
        let ghost t = v@.take(i + 1);
        let ghost p = split_at_char(v@.take(i as int), ':');
        assert(t.drop_last() =~= v@.take(i as int));
        assert(t.last() == v@[i as int]);
        let c = v[i];
        if c == ':' {
            let ghost before = list_view(out@);
            if cur.len() > 0 {
                out.push(string_of(&cur));
                assert(list_view(out@) =~= before.push(cur@));
            }
            assert(p =~= p.drop_last().push(p.last()));
            cur = Vec::new();
            assert(split_at_char(t, ':') == p.push(Seq::empty()));
            assert(split_at_char(t, ':').drop_last() =~= p);
        } else {
            cur.push(c);
            assert(split_at_char(t, ':') == p.update(p.len() - 1, p.last().push(c)));
            assert(split_at_char(t, ':').drop_last() =~= p.drop_last());
        }
        i += 1;
    }
    assert(v@.take(v.len() as int) =~= v@);
    let ghost p = split_at_char(v@, ':');
    assert(p =~= p.drop_last().push(p.last()));
    if cur.len() > 0 {
        let ghost before = list_view(out@);
        out.push(string_of(&cur));
        assert(list_view(out@) =~= before.push(cur@));
    }
    out
}

} // verus!
