use onset::codec::parse_desktop_file;
use onset::entry::CreateOptions;
use onset::writer::{
    candidate_file_name, candidate_suffix, desktop_entry_content, probe_stops, sanitize_id, sanitize_id_at,
    set_enabled_content, tidy_id, update_desktop_entry_content,
};

fn is_fallback(s: &str) -> bool {
    match s.strip_prefix("autostart_") {
        Some(rest) => !rest.is_empty() && rest.chars().all(|c| c.is_ascii_digit()),
        None => false,
    }
}

#[test]
fn test_sanitize_id() {
    assert_eq!(sanitize_id("my-app"), "my-app");
    assert_eq!(sanitize_id("My App"), "My_App");
    assert_eq!(sanitize_id("app@2.0"), "app_2.0");
}

#[test]
fn test_sanitize_id_edge_cases() {
    // All illegal chars - should get fallback
    let result = sanitize_id("@#$%");
    assert!(result.starts_with("autostart_"));

    // Empty string - should get fallback
    let result = sanitize_id("");
    assert!(result.starts_with("autostart_"));

    // Only spaces - should get fallback
    let result = sanitize_id("   ");
    assert!(result.starts_with("autostart_"));

    // Mixed with valid chars
    assert_eq!(sanitize_id("  my app  "), "my_app");
    assert_eq!(sanitize_id("@my@app@"), "my_app");
}

#[test]
fn sanitize_fallback_is_numeric() {
    assert!(is_fallback(&sanitize_id("")));
    assert!(is_fallback(&sanitize_id("@#$%")));
    assert!(is_fallback(&sanitize_id("..--")));
    assert_eq!(sanitize_id_at("", 1234), "autostart_1234");
    assert_eq!(sanitize_id_at("-.-", 0), "autostart_0");
    assert_eq!(sanitize_id_at("a__b", 7), "a_b");
    assert_eq!(sanitize_id_at("_x_", 7), "x");
    assert_eq!(sanitize_id_at("Café Ü", 7), "Café_Ü");
}

#[test]
fn update_keeps_custom_group_byte_for_byte() {
    let content = "[Desktop Entry]\nType=Application\nName=Old\nExec=/usr/bin/app\nX-Vendor=keep me\n\n[X-Custom]\nName=not the entry\n  Weird = spacing  \n# note\n";
    let mut entry = parse_desktop_file(content).unwrap();
    entry.name = "New".to_string();
    let out = update_desktop_entry_content(content, &entry, None);
    assert_eq!(
        out,
        "[Desktop Entry]\nType=Application\nName=New\nExec=/usr/bin/app\nX-Vendor=keep me\n\n[X-Custom]\nName=not the entry\n  Weird = spacing  \n# note\n"
    );
    let custom: Vec<&str> = content.lines().skip(6).collect();
    let custom_out: Vec<&str> = out.lines().skip(6).collect();
    assert_eq!(custom, custom_out);
}

#[test]
fn update_rewrites_fields_in_place_and_drops_absent_ones() {
    let content = "[Desktop Entry]\nName=A\nComment=old\nIcon=old-icon\nHidden=true\nExec=sh -c 'sleep 4 && exec run'\nOnlyShowIn=GNOME;\n";
    let mut entry = parse_desktop_file(content).unwrap();
    entry.comment = None;
    entry.hidden = false;
    entry.icon = Some("new icon".to_string());
    entry.only_show_in = vec!["KDE".to_string(), "XFCE".to_string()];
    entry.name = "Two\nLines".to_string();
    let kept = update_desktop_entry_content(content, &entry, Some(4));
    assert_eq!(
        kept,
        "[Desktop Entry]\nName=Two\\nLines\nIcon=new icon\nExec=sh -c 'sleep 4 && exec run'\nOnlyShowIn=KDE;XFCE;\n"
    );
    let kept_delay = update_desktop_entry_content(content, &entry, None);
    assert!(kept_delay.contains("\nExec=sh -c 'sleep 4 && exec run'\n"));
    let zero = update_desktop_entry_content(content, &entry, Some(0));
    assert!(zero.contains("\nExec=sh -c 'sleep 4 && exec run'\n"));
    entry.exec_line = "run".to_string();
    assert!(update_desktop_entry_content(content, &entry, None).contains("\nExec=run\n"));
    let redelayed = update_desktop_entry_content(content, &entry, Some(12));
    assert!(redelayed.contains("\nExec=sh -c 'sleep 12 && exec run'\n"));
}

#[test]
fn update_of_empty_text_is_empty() {
    let entry = parse_desktop_file("").unwrap();
    assert_eq!(update_desktop_entry_content("", &entry, None), "");
}

#[test]
fn update_keeps_line_ends() {
    let content = "[Desktop Entry]\r\nName=Old\r\nExec=a\n[X-Custom]\r\nK=v\r\n# c\r";
    let mut entry = parse_desktop_file(content).unwrap();
    entry.name = "New".to_string();
    assert_eq!(
        update_desktop_entry_content(content, &entry, None),
        "[Desktop Entry]\r\nName=New\r\nExec=a\n[X-Custom]\r\nK=v\r\n# c\r"
    );
    let plain = "[X]\nK=v\r";
    assert_eq!(update_desktop_entry_content(plain, &entry, None), plain);
}

#[test]
fn toggle_keeps_line_ends() {
    assert_eq!(set_enabled_content("[Desktop Entry]\nName=a\r", true), "[Desktop Entry]\nName=a\r");
    assert_eq!(
        set_enabled_content("[Desktop Entry]\r\nHidden=false\r\nName=a", false),
        "[Desktop Entry]\r\nHidden=true\r\nName=a"
    );
    assert_eq!(
        set_enabled_content("[Desktop Entry]\r\nName=a", false),
        "[Desktop Entry]\r\nName=a\nHidden=true\n"
    );
}

#[test]
fn new_entry_text() {
    let options = CreateOptions {
        icon: Some("icon".to_string()),
        comment: Some("says\thi".to_string()),
        delay_seconds: 3,
        terminal: true,
        only_show_in: vec!["GNOME".to_string()],
        not_show_in: vec![],
        hidden: true,
    };
    assert_eq!(
        desktop_entry_content("My App", "run 'it'", &options),
        "[Desktop Entry]\nType=Application\nName=My App\nExec=sh -c 'sleep 3 && exec run '\\''it'\\'''\nIcon=icon\nComment=says\\thi\nTerminal=true\nOnlyShowIn=GNOME;\nHidden=true\n"
    );
    assert_eq!(
        desktop_entry_content("A", "b", &CreateOptions::default()),
        "[Desktop Entry]\nType=Application\nName=A\nExec=b\n"
    );
}

#[test]
fn disable_inserts_hidden_before_next_group() {
    let content = "[Desktop Entry]\nName=A\nExec=a\n[X-Other]\nHidden=false\n";
    assert_eq!(
        set_enabled_content(content, false),
        "[Desktop Entry]\nName=A\nExec=a\nHidden=true\n[X-Other]\nHidden=false\n"
    );
    assert_eq!(
        set_enabled_content("[Desktop Entry]\nName=A\n", false),
        "[Desktop Entry]\nName=A\nHidden=true\n"
    );
}

#[test]
fn enable_removes_hidden_line() {
    let content = "[Desktop Entry]\nName=A\nHidden=true\nExec=a\n[X-Other]\nHidden=true\n";
    assert_eq!(
        set_enabled_content(content, true),
        "[Desktop Entry]\nName=A\nExec=a\n[X-Other]\nHidden=true\n"
    );
    assert_eq!(
        set_enabled_content(content, false),
        "[Desktop Entry]\nName=A\nHidden=true\nExec=a\n[X-Other]\nHidden=true\n"
    );
}

#[test]
fn candidate_names() {
    assert_eq!(candidate_file_name("app", None), "app.desktop");
    assert_eq!(candidate_file_name("app", Some(1)), "app_1.desktop");
    assert_eq!(candidate_file_name("app", Some(1700000000)), "app_1700000000.desktop");
}

#[test]
fn tidy_collapses_underscores() {
    assert_eq!(tidy_id("__a___b__", 5), "a_b");
    assert_eq!(tidy_id("", 42), "autostart_42");
    assert_eq!(tidy_id("_._", 9), "autostart_9");
    assert_eq!(tidy_id("a-b.c", 9), "a-b.c");
}

#[test]
fn probe_suffixes() {
    assert_eq!(candidate_suffix(0, 77), None);
    assert_eq!(candidate_suffix(1, 77), Some(1));
    assert_eq!(candidate_suffix(999, 77), Some(999));
    assert_eq!(candidate_suffix(1000, 77), Some(77));
}

#[test]
fn sanitize_fallback_for_punctuation_and_spaces() {
    assert!(is_fallback(&sanitize_id_at("@#$%", 5)));
    assert_eq!(sanitize_id_at("   ", 5), "autostart_5");
}

#[test]
fn probe_stop_rule() {
    assert!(probe_stops(0, false));
    assert!(!probe_stops(0, true));
    assert!(!probe_stops(999, true));
    assert!(probe_stops(1000, true));
}
