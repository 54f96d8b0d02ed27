use pocket_apps::kv::{expiry_in_range, line_can_load, Store};

const SECOND: u128 = 1_000_000_000;

#[test]
fn ping_and_echo() {
    let mut s = Store::new();
    assert_eq!(s.execute("PING", 0), "PONG\n");
    assert_eq!(s.execute("  PING \r\n", 0), "PONG\n");
    assert_eq!(s.execute("ECHO hello", 0), "hello\n");
    assert_eq!(s.execute("ECHO two words", 0), "Unknown command\n");
    assert_eq!(s.execute("ping", 0), "Unknown command\n");
    assert_eq!(s.execute("", 0), "Unknown command\n");
}

#[test]
fn set_then_get() {
    let mut s = Store::new();
    assert_eq!(s.execute("GET a", 0), "NOT FOUND\n");
    assert_eq!(s.execute("SET a 1", 0), "OK\n");
    assert_eq!(s.execute("GET a", 5 * SECOND), "1\n");
    assert_eq!(s.execute("SET a 2", 0), "OK\n");
    assert_eq!(s.execute("GET a\n", 0), "2\n");
    assert_eq!(s.execute("GET b", 0), "NOT FOUND\n");
}

#[test]
fn expiry() {
    let mut s = Store::new();
    assert_eq!(s.execute("SET k v EX 10", 3 * SECOND), "OK\n");
    assert_eq!(s.get("k"), Some((String::from("v"), Some(13 * SECOND))));
    assert_eq!(s.execute("GET k", 13 * SECOND), "v\n");
    assert_eq!(s.execute("GET k", 13 * SECOND + 1), "NOT FOUND\n");
    assert_eq!(s.get("k"), None);
    assert_eq!(s.execute("SET k v EX +0", 0), "OK\n");
    assert_eq!(s.execute("GET k", 0), "v\n");
}

#[test]
fn invalid_expiry_leaves_store_unchanged() {
    let mut s = Store::new();
    assert_eq!(s.execute("SET k v EX soon", 0), "Invalid expiry\n");
    assert_eq!(s.execute("SET k v EX -1", 0), "Invalid expiry\n");
    assert_eq!(s.get("k"), None);
    assert_eq!(s.execute("SET k v XX 5", 0), "Unknown command\n");
}

#[test]
fn requests_as_bytes() {
    let mut s = Store::new();
    assert_eq!(s.handle_request(b"SET a b\n", 0), Some(String::from("OK\n")));
    assert_eq!(s.handle_request(b"GET a\n", 0), Some(String::from("b\n")));
    assert_eq!(s.handle_request(b"ECHO \xff", 0), Some(String::from("\u{fffd}\n")));
    assert_eq!(s.handle_request(b"SET a c EX 9223372036854775807", SECOND), None);
    assert_eq!(s.get("a"), Some((String::from("b"), None)));
    assert_eq!(
        s.handle_request(b"SET a c EX 9223372036854775806", SECOND),
        Some(String::from("OK\n"))
    );
}

#[test]
fn insert_and_remove() {
    let mut s = Store::new();
    s.insert(String::from("x"), String::from("1"), None);
    s.insert(String::from("y"), String::from("2"), Some(7));
    s.insert(String::from("x"), String::from("3"), None);
    assert_eq!(s.get("x"), Some((String::from("3"), None)));
    s.remove("x");
    assert_eq!(s.get("x"), None);
    assert_eq!(s.get("y"), Some((String::from("2"), Some(7))));
}

#[test]
fn saved_lines() {
    let mut s = Store::new();
    s.execute("SET a 1", 0);
    s.execute("SET b 2 EX 5", 1_500_000_000);
    let mut lines = s.save_lines();
    lines.sort();
    assert_eq!(lines, vec!["a 1", "b 2 EX 6"]);
}

#[test]
fn save_then_load() {
    let mut s = Store::new();
    s.execute("SET a 1", 0);
    s.execute("SET b 2 EX 5", 1_500_000_000);
    s.execute("SET c 3 EX 0", 2 * SECOND);
    let lines = s.save_lines();
    let mut reversed = lines.clone();
    reversed.reverse();
    for ls in [lines, reversed] {
        let t = Store::load_lines(&ls);
        assert_eq!(t.get("a"), Some((String::from("1"), None)));
        assert_eq!(t.get("b"), Some((String::from("2"), Some(6 * SECOND))));
        assert_eq!(t.get("c"), Some((String::from("3"), Some(2 * SECOND))));
    }
}

#[test]
fn loading_lines() {
    let lines: Vec<String> = vec![
        "a 1".into(),
        "b 2 EX 9".into(),
        "c 3 EX later".into(),
        "bad line with five words".into(),
        "".into(),
        "lonely".into(),
        "a 4".into(),
    ];
    let t = Store::load_lines(&lines);
    assert_eq!(t.get("a"), Some((String::from("4"), None)));
    assert_eq!(t.get("b"), Some((String::from("2"), Some(9 * SECOND))));
    assert_eq!(t.get("c"), Some((String::from("3"), None)));
    assert_eq!(t.get("bad"), None);
    assert_eq!(t.get("lonely"), None);
}

#[test]
fn expiry_range() {
    assert!(expiry_in_range("SET k v EX 9223372036854775807", 0));
    assert!(!expiry_in_range("SET k v EX 9223372036854775807", SECOND));
    assert!(expiry_in_range("SET k v EX nope", u128::MAX));
    assert!(expiry_in_range("GET k", u128::MAX));
}

#[test]
fn lines_that_can_load() {
    assert!(line_can_load("k v"));
    assert!(line_can_load("k v EX 9223372036854775807"));
    assert!(!line_can_load("k v EX 9223372036854775808"));
    assert!(!line_can_load("k v EX 18446744073709551615"));
    assert!(line_can_load("k v EX 18446744073709551616"));
    assert!(line_can_load("k v EX soon"));
    assert!(line_can_load("k v XX 18446744073709551615"));
    assert!(line_can_load(""));
}
