use onset::codec::parse_desktop_file;
use onset::entry::EffectiveState;
use onset::model::{contains_text, Application, AutostartEntry};

fn entry_of(content: &str, desktops: &[String], found: bool) -> AutostartEntry {
    let e = parse_desktop_file(content).unwrap();
    AutostartEntry::new(
        "id".to_string(),
        "/tmp/id.desktop".to_string(),
        e,
        content.to_string(),
        desktops,
        found,
    )
}

#[test]
fn hidden_wins_over_failed_try_exec() {
    let e = entry_of("[Desktop Entry]\nHidden=true\nTryExec=missing\n", &[], false);
    assert_eq!(e.effective_state, EffectiveState::Disabled);
}

#[test]
fn try_exec_wins_over_environment() {
    let desktops = vec!["KDE".to_string()];
    let e = entry_of("[Desktop Entry]\nTryExec=missing\nOnlyShowIn=GNOME;\n", &desktops, false);
    assert_eq!(e.effective_state, EffectiveState::TryExecFailed);
    let e = entry_of("[Desktop Entry]\nTryExec=present\nOnlyShowIn=GNOME;\n", &desktops, true);
    assert_eq!(e.effective_state, EffectiveState::EnvironmentExcluded);
}

#[test]
fn environment_rules() {
    let desktops = vec!["ubuntu".to_string(), "GNOME".to_string()];
    let only = entry_of("[Desktop Entry]\nOnlyShowIn=GNOME;\n", &desktops, true);
    assert_eq!(only.effective_state, EffectiveState::Enabled);
    let not = entry_of("[Desktop Entry]\nNotShowIn=GNOME;\n", &desktops, true);
    assert_eq!(not.effective_state, EffectiveState::EnvironmentExcluded);
    let none = entry_of("[Desktop Entry]\nNotShowIn=KDE;\n", &desktops, true);
    assert_eq!(none.effective_state, EffectiveState::Enabled);
    let nothing = entry_of("[Desktop Entry]\nOnlyShowIn=GNOME;\n", &[], true);
    assert_eq!(nothing.effective_state, EffectiveState::EnvironmentExcluded);
    assert_eq!(nothing.compute_effective_state(&desktops, true), EffectiveState::Enabled);
}

#[test]
fn state_labels() {
    assert_eq!(EffectiveState::Enabled.label(), "Enabled");
    assert_eq!(EffectiveState::EnvironmentExcluded.label(), "Environment Excluded");
    assert_eq!(EffectiveState::TryExecFailed.label(), "TryExec Failed");
    assert_eq!(EffectiveState::Disabled.label(), "Disabled");
}

#[test]
fn delay_and_base_of_an_entry() {
    let e = entry_of("[Desktop Entry]\nExec=sh -c 'sleep 8 && exec run'\n", &[], true);
    assert_eq!(e.delay_seconds(), Some(8));
    assert_eq!(e.base_exec(), "run");
    let plain = entry_of("[Desktop Entry]\nExec=run\n", &[], true);
    assert_eq!(plain.delay_seconds(), None);
    assert_eq!(plain.base_exec(), "run");
}

#[test]
fn search_ignores_case() {
    let e = parse_desktop_file(
        "[Desktop Entry]\nName=Firefox\nExec=firefox %u\nComment=Web Browser\nKeywords=Internet;WWW;\n",
    )
    .unwrap();
    let app = Application::from_desktop_entry("firefox".to_string(), &e);
    assert_eq!(app.name, "Firefox");
    assert_eq!(app.keywords, vec!["Internet", "WWW"]);
    assert!(app.matches_search("FIRE"));
    assert!(app.matches_search("browser"));
    assert!(app.matches_search("www"));
    assert!(app.matches_search(""));
    assert!(!app.matches_search("chrome"));
}

#[test]
fn substring_search() {
    assert!(contains_text("hello", "ell"));
    assert!(contains_text("hello", ""));
    assert!(!contains_text("hello", "hello!"));
    assert!(!contains_text("", "a"));
}
