use onset::config::{parse_desktop_list, XdgPaths};
use onset::discovery::{load_autostart_entry, select_applications, sort_entries_by_name, AppCandidate};
use onset::entry::{EntryChanges, EntryError};
use onset::operations::{apply_changes, check_entry_id, edited_content};

fn app_file(name: &str) -> String {
    format!("[Desktop Entry]\nType=Application\nName={}\nExec=/usr/bin/{}\n", name, name)
}

fn candidate(id: &str, content: &str, found: bool) -> AppCandidate {
    AppCandidate { id: id.to_string(), content: content.to_string(), try_exec_found: found }
}

#[test]
fn first_directory_wins() {
    let apps = select_applications(vec![
        candidate("foo", &app_file("user"), true),
        candidate("foo", &app_file("system"), true),
        candidate("bar", &app_file("Bar"), true),
    ]);
    assert_eq!(apps.len(), 2);
    let foo: Vec<_> = apps.iter().filter(|a| a.id == "foo").collect();
    assert_eq!(foo.len(), 1);
    assert_eq!(foo[0].name, "user");
}

#[test]
fn rejected_files_do_not_hide_later_ones() {
    let hidden = format!("{}Hidden=true\n", app_file("user"));
    let apps = select_applications(vec![
        candidate("foo", &hidden, true),
        candidate("foo", &app_file("system"), true),
    ]);
    assert_eq!(apps.len(), 1);
    assert_eq!(apps[0].name, "system");
}

#[test]
fn filters_and_sorting() {
    let nodisplay = format!("{}NoDisplay=true\n", app_file("nd"));
    let tryexec = format!("{}TryExec=missing\n", app_file("te"));
    let apps = select_applications(vec![
        candidate("b", &app_file("beta"), true),
        candidate("nd", &nodisplay, true),
        candidate("te", &tryexec, false),
        candidate("te2", &tryexec, true),
        candidate("a", &app_file("Alpha"), true),
        candidate("x", "not an entry", true),
        candidate("c", &app_file("alpha"), true),
    ]);
    let names: Vec<&str> = apps.iter().map(|a| a.name.as_str()).collect();
    assert_eq!(names, vec!["Alpha", "alpha", "beta", "te"]);
}

#[test]
fn autostart_entries_load_and_sort() {
    let a = load_autostart_entry("a", "/x/a.desktop", &app_file("zed"), &[], true).unwrap();
    let b = load_autostart_entry("b", "/x/b.desktop", &app_file("Zed"), &[], true).unwrap();
    assert!(load_autostart_entry("c", "/x/c.desktop", "[Desktop Entry]\nName=x\n", &[], true).is_none());
    let sorted = sort_entries_by_name(vec![a, b]);
    let names: Vec<&str> = sorted.iter().map(|e| e.desktop_entry.name.as_str()).collect();
    assert_eq!(names, vec!["Zed", "zed"]);
    assert_eq!(sorted[0].id, "b");
    assert_eq!(sorted[0].raw_content, app_file("Zed"));
}

#[test]
fn application_dirs_in_priority_order() {
    let paths = XdgPaths {
        user_autostart: "/home/u/.config/autostart".to_string(),
        user_applications: "/home/u/.local/share/applications".to_string(),
        system_applications: vec!["/usr/local/share/applications".to_string(), "/usr/share/applications".to_string()],
    };
    assert_eq!(
        paths.all_application_dirs(),
        vec![
            "/home/u/.local/share/applications",
            "/usr/local/share/applications",
            "/usr/share/applications"
        ]
    );
}

#[test]
fn desktop_list() {
    assert_eq!(parse_desktop_list("ubuntu:GNOME"), vec!["ubuntu", "GNOME"]);
    assert_eq!(parse_desktop_list("::KDE:"), vec!["KDE"]);
    assert!(parse_desktop_list("").is_empty());
}

#[test]
fn edit_keeps_delay_unless_changed() {
    let content = "[Desktop Entry]\nType=Application\nName=A\nExec=sh -c 'sleep 6 && exec run'\n[X-Keep]\nK=v\n";
    let entry = load_autostart_entry("a", "/x/a.desktop", content, &[], true).unwrap();
    let changes = EntryChanges { name: Some("B".to_string()), ..EntryChanges::default() };
    assert_eq!(
        edited_content(&entry, changes),
        "[Desktop Entry]\nType=Application\nName=B\nExec=sh -c 'sleep 6 && exec run'\n[X-Keep]\nK=v\n"
    );
    let changes = EntryChanges { delay_seconds: Some(0), exec_line: Some("other".to_string()), ..EntryChanges::default() };
    assert_eq!(
        edited_content(&entry, changes),
        "[Desktop Entry]\nType=Application\nName=A\nExec=other\n[X-Keep]\nK=v\n"
    );
    let changes = EntryChanges { hidden: Some(true), ..EntryChanges::default() };
    let changed = apply_changes(&entry.desktop_entry, changes);
    assert!(changed.hidden);
    assert_eq!(changed.name, "A");
}

#[test]
fn empty_id_is_refused() {
    assert_eq!(check_entry_id(""), Err(EntryError::InvalidId));
    assert_eq!(check_entry_id("app"), Ok(()));
}
