use onset::codec::{escape_value, is_valid_desktop_entry, parse_desktop_file, unescape_value};

#[test]
fn test_parse_basic_entry() {
    let content = r#"[Desktop Entry]
Type=Application
Name=Test App
Exec=/usr/bin/test
Icon=test-icon
Comment=A test application
"#;
    let entry = parse_desktop_file(content).unwrap();
    assert_eq!(entry.name, "Test App");
    assert_eq!(entry.exec_line, "/usr/bin/test");
    assert_eq!(entry.icon, Some("test-icon".to_string()));
    assert_eq!(entry.comment, Some("A test application".to_string()));
}

#[test]
fn test_parse_hidden_entry() {
    let content = r#"[Desktop Entry]
Type=Application
Name=Hidden App
Exec=/usr/bin/hidden
Hidden=true
"#;
    let entry = parse_desktop_file(content).unwrap();
    assert!(entry.hidden);
}

#[test]
fn test_parse_only_show_in() {
    let content = r#"[Desktop Entry]
Type=Application
Name=GNOME App
Exec=/usr/bin/gnome-app
OnlyShowIn=GNOME;Unity;
"#;
    let entry = parse_desktop_file(content).unwrap();
    assert_eq!(entry.only_show_in, vec!["GNOME", "Unity"]);
}

#[test]
fn test_is_valid_desktop_entry() {
    let valid = r#"[Desktop Entry]
Type=Application
Name=Test
Exec=/usr/bin/test
"#;
    assert!(is_valid_desktop_entry(valid));

    let missing_type = r#"[Desktop Entry]
Name=Test
Exec=/usr/bin/test
"#;
    assert!(!is_valid_desktop_entry(missing_type));

    let wrong_type = r#"[Desktop Entry]
Type=Link
Name=Test
Exec=/usr/bin/test
"#;
    assert!(!is_valid_desktop_entry(wrong_type));
}

#[test]
fn validity_needs_name_and_exec() {
    assert!(!is_valid_desktop_entry("[Desktop Entry]\nType=Application\nExec=/usr/bin/test\n"));
    assert!(!is_valid_desktop_entry("[Desktop Entry]\nType=Application\nName=Test\n"));
    assert!(!is_valid_desktop_entry("[Desktop Entry]\nType=Application\nName=  \nExec=/usr/bin/test\n"));
    assert!(!is_valid_desktop_entry("[Desktop Entry]\nType=Application\nName=Test\nExec=\n"));
}

#[test]
fn validity_reads_only_the_desktop_entry_group() {
    let other_group = "[Other]\nType=Application\nName=Test\nExec=/usr/bin/test\n";
    assert!(!is_valid_desktop_entry(other_group));
    let later_group = "[Desktop Entry]\nType=Application\nName=Test\nExec=/usr/bin/test\n[X-Extra]\nType=Link\n";
    assert!(is_valid_desktop_entry(later_group));
    assert!(is_valid_desktop_entry("  [Desktop Entry]  \r\n Type = Application \r\nName=T\r\nExec=x\r\n"));
}

#[test]
fn parse_empty_text_gives_defaults() {
    let entry = parse_desktop_file("").unwrap();
    assert_eq!(entry.name, "");
    assert_eq!(entry.exec_line, "");
    assert_eq!(entry.icon, None);
    assert!(!entry.hidden);
    assert!(entry.keywords.is_empty());
}

#[test]
fn parse_ignores_other_groups_and_comments() {
    let content = "# comment\nName=Outside\n[Desktop Entry]\n# Name=Commented\nName=Inside\nExec = /bin/true \n[X-Custom]\nName=Other\nHidden=true\n";
    let entry = parse_desktop_file(content).unwrap();
    assert_eq!(entry.name, "Inside");
    assert_eq!(entry.exec_line, "/bin/true");
    assert!(!entry.hidden);
}

#[test]
fn parse_booleans_ignore_ascii_case() {
    let entry = parse_desktop_file("[Desktop Entry]\nHidden=TRUE\nTerminal=True\nNoDisplay=yes\n").unwrap();
    assert!(entry.hidden);
    assert!(entry.terminal);
    assert!(!entry.no_display);
}

#[test]
fn parse_lists_trim_and_drop_empty_items() {
    let entry = parse_desktop_file(
        "[Desktop Entry]\nNotShowIn= KDE ;; XFCE\nCategories=Utility;\nKeywords=;a; b ;\nTryExec=foo\n",
    )
    .unwrap();
    assert_eq!(entry.not_show_in, vec!["KDE", "XFCE"]);
    assert_eq!(entry.categories, vec!["Utility"]);
    assert_eq!(entry.keywords, vec!["a", "b"]);
    assert_eq!(entry.try_exec, Some("foo".to_string()));
}

#[test]
fn parse_unescapes_name_and_comment_only() {
    let entry =
        parse_desktop_file("[Desktop Entry]\nName=a\\tb\nComment=line\\nnext\nExec=echo \\n\n").unwrap();
    assert_eq!(entry.name, "a\tb");
    assert_eq!(entry.comment, Some("line\nnext".to_string()));
    assert_eq!(entry.exec_line, "echo \\n");
}

#[test]
fn escape_round_trip() {
    let s = "tab\there\nnew\\line\r";
    assert_eq!(escape_value(s), "tab\\there\\nnew\\\\line\\r");
    assert_eq!(unescape_value(&escape_value(s)), s);
    assert_eq!(unescape_value(&escape_value("")), "");
    assert_eq!(unescape_value(&escape_value("a\\b")), "a\\b");
}

#[test]
fn escape_round_trip_fails_on_ambiguous_text() {
    let s = "\\n";
    assert_ne!(unescape_value(&escape_value(s)), s);
}
