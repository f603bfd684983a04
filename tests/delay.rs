use onset::delay::{get_delay, unwrap_delay, wrap_with_delay};

#[test]
fn test_wrap_with_delay() {
    assert_eq!(
        wrap_with_delay("/usr/bin/app", 5),
        "sh -c 'sleep 5 && exec /usr/bin/app'"
    );
}

#[test]
fn test_wrap_with_zero_delay() {
    assert_eq!(wrap_with_delay("/usr/bin/app", 0), "/usr/bin/app");
}

#[test]
fn test_wrap_with_quotes() {
    assert_eq!(
        wrap_with_delay("/usr/bin/app --name='test'", 3),
        "sh -c 'sleep 3 && exec /usr/bin/app --name='\\''test'\\'''"
    );
}

#[test]
fn test_unwrap_delay() {
    let (cmd, delay) = unwrap_delay("sh -c 'sleep 10 && exec /usr/bin/app'");
    assert_eq!(cmd, "/usr/bin/app");
    assert_eq!(delay, Some(10));
}

#[test]
fn test_unwrap_no_delay() {
    let (cmd, delay) = unwrap_delay("/usr/bin/app");
    assert_eq!(cmd, "/usr/bin/app");
    assert_eq!(delay, None);
}

#[test]
fn test_unwrap_with_quotes() {
    let wrapped = wrap_with_delay("/usr/bin/app --name='test'", 5);
    let (cmd, delay) = unwrap_delay(&wrapped);
    assert_eq!(cmd, "/usr/bin/app --name='test'");
    assert_eq!(delay, Some(5));
}

#[test]
fn test_get_delay() {
    assert_eq!(get_delay("sh -c 'sleep 15 && exec /usr/bin/app'"), Some(15));
    assert_eq!(get_delay("/usr/bin/app"), None);
}

#[test]
fn delay_round_trip_with_many_quotes() {
    for c in ["'", "''", "a'\\''b", "x 'y' z", "\\", "", "a\nb", "\n"] {
        for d in [1u32, 9, 10, 4294967295] {
            assert_eq!(unwrap_delay(&wrap_with_delay(c, d)), (c.to_string(), Some(d)));
        }
    }
}

#[test]
fn unwrap_rejects_near_misses() {
    for s in [
        "sh -c 'sleep  && exec x'",
        "sh -c 'sleep 5 && exec x",
        "sh -c 'sleep x5 && exec a'",
        " sh -c 'sleep 5 && exec a'",
    ] {
        assert_eq!(unwrap_delay(s), (s.to_string(), None));
        assert_eq!(get_delay(s), None);
    }
}

#[test]
fn delay_too_large_for_u32() {
    let s = "sh -c 'sleep 4294967296 && exec a'";
    assert_eq!(unwrap_delay(s), ("a".to_string(), Some(0)));
    assert_eq!(get_delay(s), None);
    assert_eq!(get_delay("sh -c 'sleep 007 && exec a'"), Some(7));
}

#[test]
fn empty_and_multi_line_commands_are_wrapped() {
    assert_eq!(unwrap_delay("sh -c 'sleep 5 && exec '"), (String::new(), Some(5)));
    assert_eq!(unwrap_delay("sh -c 'sleep 5 && exec a\nb'"), ("a\nb".to_string(), Some(5)));
}

#[test]
fn non_ascii_digits_are_not_a_delay() {
    let s = "sh -c 'sleep \u{663} && exec a'";
    assert_eq!(unwrap_delay(s), (s.to_string(), None));
    assert_eq!(get_delay(s), None);
    let mixed = "sh -c 'sleep 1\u{967} && exec a'";
    assert_eq!(unwrap_delay(mixed), (mixed.to_string(), None));
}
