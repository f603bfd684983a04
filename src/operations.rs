//! The decisions behind creating and editing entries; the caller reads and
//! writes the files.
use vstd::prelude::*;
use crate::delay::{unwrap_delay, unwrap_spec};
use crate::entry::{DesktopEntry, EntryChanges, EntryError, EntryModel, list_view};
use crate::model::AutostartEntry;
use crate::writer::{update_desktop_entry_content, update_spec};

verus! {

/// `e` with each field that `c` sets replaced.
pub open spec fn changed_model(e: EntryModel, c: EntryChanges) -> EntryModel {
    EntryModel {
        name: match c.name {
            Some(n) => n@,
            None => e.name,
        },
        exec_line: match c.exec_line {
            Some(x) => x@,
            None => e.exec_line,
        },
        comment: match c.comment {
            Some(x) => Some(x@),
            None => e.comment,
        },
        icon: match c.icon {
            Some(x) => Some(x@),
            None => e.icon,
        },
        hidden: match c.hidden {
            Some(h) => h,
            None => e.hidden,
        },
        terminal: match c.terminal {
            Some(t) => t,
            None => e.terminal,
        },
        only_show_in: match c.only_show_in {
            Some(l) => list_view(l@),
            None => e.only_show_in,
        },
        not_show_in: match c.not_show_in {
            Some(l) => list_view(l@),
            None => e.not_show_in,
        },
        ..e
    }
}

/// The delay kept by an edit: the one asked for, else the one already encoded.
pub open spec fn kept_delay(asked: Option<u32>, exec: Seq<char>) -> Option<u32> {
    match asked {
        Some(d) => Some(d),
        None => unwrap_spec(exec).1,
    }
}

/// `entry` with the fields that `changes` sets replaced.
pub fn apply_changes(entry: &DesktopEntry, changes: EntryChanges) -> (r: DesktopEntry)
    ensures
        r@ == changed_model(entry@, changes),
{
    let ghost c = changes;
    DesktopEntry {
        name: match changes.name {
            Some(n) => n,
            None => entry.name.clone(),
        },
        exec_line: match changes.exec_line {
            Some(x) => x,
            None => entry.exec_line.clone(),
        },
        icon: match changes.icon {
            Some(x) => Some(x),
            None => entry.icon.clone(),
        },
        comment: match changes.comment {
            Some(x) => Some(x),
            None => entry.comment.clone(),
        },
        hidden: match changes.hidden {
            Some(h) => h,
            None => entry.hidden,
        },
        terminal: match changes.terminal {
            Some(t) => t,
            None => entry.terminal,
        },
        only_show_in: match changes.only_show_in {
            Some(l) => l,
            None => entry.only_show_in.clone(),
        },
        not_show_in: match changes.not_show_in {
            Some(l) => l,
            None => entry.not_show_in.clone(),
        },
        try_exec: entry.try_exec.clone(),
        no_display: entry.no_display,
        categories: entry.categories.clone(),
        keywords: entry.keywords.clone(),
    }
}

/// The new text of `entry`'s file after `changes`: the entry's retained text
/// with its `[Desktop Entry]` group updated, the delay asked for or else the
/// one already encoded in its command line.
pub fn edited_content(entry: &AutostartEntry, changes: EntryChanges) -> (r: String)
    ensures
        r@ == update_spec(
            entry.raw_content@,
            changed_model(entry.desktop_entry@, changes),
            kept_delay(changes.delay_seconds, entry.desktop_entry.exec_line@),
        ),
{
    let delay = match changes.delay_seconds {
        Some(d) => Some(d),
        None => {
            let (_, existing) = unwrap_delay(entry.desktop_entry.exec_line.as_str());
            existing
        },
    };
    let updated = apply_changes(&entry.desktop_entry, changes);
    update_desktop_entry_content(entry.raw_content.as_str(), &updated, delay)
}

/// Refuses an identifier that gives no file name: a new entry needs a
/// non-empty identifier before any file is touched.
pub fn check_entry_id(id: &str) -> (r: Result<(), EntryError>)
    ensures
        r is Err <==> id@.len() == 0,
        r matches Err(e) ==> e == EntryError::InvalidId,
{
    if id.is_empty() {
        Err(EntryError::InvalidId)
    } else {
        Ok(())
    }
}

} // verus!
