//! The values the codec reads and writes: a parsed `[Desktop Entry]` group,
//! the effective state of an autostart entry, and the option sets used to
//! create and edit entries.
use vstd::prelude::*;

verus! {

/// The characters of an optional string.
pub open spec fn opt_view(o: Option<String>) -> Option<Seq<char>> {
    match o {
        Some(s) => Some(s@),
        None => None,
    }
}

/// The characters of each string of a list.
pub open spec fn list_view(v: Seq<String>) -> Seq<Seq<char>> {
    v.map_values(|s: String| s@)
}

/// The fields read from the `[Desktop Entry]` group of a file.
#[derive(Debug, Clone, Default)]
pub struct DesktopEntry {
    pub name: String,
    pub exec_line: String,
    pub icon: Option<String>,
    pub comment: Option<String>,
    pub hidden: bool,
    pub terminal: bool,
    pub only_show_in: Vec<String>,
    pub not_show_in: Vec<String>,
    pub try_exec: Option<String>,
    pub no_display: bool,
    pub categories: Vec<String>,
    pub keywords: Vec<String>,
}

/// A `DesktopEntry` as a mathematical value.
pub struct EntryModel {
    pub name: Seq<char>,
    pub exec_line: Seq<char>,
    pub icon: Option<Seq<char>>,
    pub comment: Option<Seq<char>>,
    pub hidden: bool,
    pub terminal: bool,
    pub only_show_in: Seq<Seq<char>>,
    pub not_show_in: Seq<Seq<char>>,
    pub try_exec: Option<Seq<char>>,
    pub no_display: bool,
    pub categories: Seq<Seq<char>>,
    pub keywords: Seq<Seq<char>>,
}

/// The entry of a file with no recognised key: empty strings, `false`, empty lists.
pub open spec fn empty_model() -> EntryModel {
    EntryModel {
        name: Seq::empty(),
        exec_line: Seq::empty(),
        icon: None,
        comment: None,
        hidden: false,
        terminal: false,
        only_show_in: Seq::empty(),
        not_show_in: Seq::empty(),
        try_exec: None,
        no_display: false,
        categories: Seq::empty(),
        keywords: Seq::empty(),
    }
}

impl View for DesktopEntry {
    type V = EntryModel;

    open spec fn view(&self) -> EntryModel {
        EntryModel {
            name: self.name@,
            exec_line: self.exec_line@,
            icon: opt_view(self.icon),
            comment: opt_view(self.comment),
            hidden: self.hidden,
            terminal: self.terminal,
            only_show_in: list_view(self.only_show_in@),
            not_show_in: list_view(self.not_show_in@),
            try_exec: opt_view(self.try_exec),
            no_display: self.no_display,
            categories: list_view(self.categories@),
            keywords: list_view(self.keywords@),
        }
    }
}

/// How an autostart entry behaves at login; derived, never stored.
#[derive(Debug, Clone, Copy, PartialEq, Eq, Structural)]
pub enum EffectiveState {
    Enabled,
    Disabled,
    EnvironmentExcluded,
    TryExecFailed,
}

impl EffectiveState {
    /// The name shown for the state.
    pub fn label(&self) -> (r: String)
        ensures
            r@ == match *self {
                EffectiveState::Enabled => "Enabled"@,
                EffectiveState::Disabled => "Disabled"@,
                EffectiveState::EnvironmentExcluded => "Environment Excluded"@,
                EffectiveState::TryExecFailed => "TryExec Failed"@,
            },
    {
        match self {
            EffectiveState::Enabled => "Enabled".to_owned(),
            EffectiveState::Disabled => "Disabled".to_owned(),
            EffectiveState::EnvironmentExcluded => "Environment Excluded".to_owned(),
            EffectiveState::TryExecFailed => "TryExec Failed".to_owned(),
        }
    }
}

/// Why an operation on entries was refused.
#[derive(Debug, Clone, Copy, PartialEq, Eq, Structural)]
pub enum EntryError {
    /// The requested identifier gives no usable file name.
    InvalidId,
}

/// Optional settings of a new entry.
#[derive(Debug, Clone, Default)]
pub struct CreateOptions {
    pub icon: Option<String>,
    pub comment: Option<String>,
    pub delay_seconds: u32,
    pub terminal: bool,
    pub only_show_in: Vec<String>,
    pub not_show_in: Vec<String>,
    pub hidden: bool,
}

/// An edit of an entry: each `Some` replaces a field, each `None` leaves it.
#[derive(Debug, Clone, Default)]
pub struct EntryChanges {
    pub name: Option<String>,
    pub exec_line: Option<String>,
    pub comment: Option<String>,
    pub icon: Option<String>,
    pub delay_seconds: Option<u32>,
    pub hidden: Option<bool>,
    pub terminal: Option<bool>,
    pub only_show_in: Option<Vec<String>>,
    pub not_show_in: Option<Vec<String>>,
}

} // verus!
