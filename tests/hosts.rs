use landns::hosts::{contains_bytes, update_table};

#[test]
fn contains_bytes_cases() {
    assert!(contains_bytes(b"10.0.0.1 webserver", b"web"));
    assert!(contains_bytes(b"abc", b""));
    assert!(!contains_bytes(b"ab", b"abc"));
    assert!(!contains_bytes(b"10.0.0.1 alice", b"bob"));
}

#[test]
fn update_replaces_matching_line() {
    let t = b"127.0.0.1 localhost\n10.0.0.9 alice\n10.0.0.3 zed\n";
    assert_eq!(
        update_table(t, b"alice", b"10.0.0.42"),
        b"127.0.0.1 localhost\n10.0.0.42 alice\n10.0.0.3 zed\n".to_vec()
    );
}

#[test]
fn update_scenario_alice_and_carol() {
    let t = b"10.0.0.9 alice\n";
    assert_eq!(update_table(t, b"alice", b"10.0.0.42"), b"10.0.0.42 alice\n".to_vec());
    assert_eq!(update_table(t, b"carol", b"10.0.0.7"), b"10.0.0.9 alice\n10.0.0.7 carol".to_vec());
}

#[test]
fn update_twice_leaves_one_line() {
    let t = b"127.0.0.1 localhost\n";
    let once = update_table(t, b"bob", b"10.0.0.5");
    assert_eq!(once, b"127.0.0.1 localhost\n10.0.0.5 bob".to_vec());
    let twice = update_table(&once, b"bob", b"10.0.0.5");
    assert_eq!(twice, b"127.0.0.1 localhost\n10.0.0.5 bob\n".to_vec());
    let text = String::from_utf8(twice).unwrap();
    let bob_lines: Vec<&str> = text.lines().filter(|l| l.contains("bob")).collect();
    assert_eq!(bob_lines, vec!["10.0.0.5 bob"]);
}

#[test]
fn update_empty_table_appends() {
    assert_eq!(update_table(b"", b"bob", b"10.0.0.5"), b"10.0.0.5 bob".to_vec());
}

#[test]
fn update_normalises_line_endings() {
    let t = b"10.0.0.1 a\r\n10.0.0.2 b";
    assert_eq!(update_table(t, b"zz", b"1.2.3.4"), b"10.0.0.1 a\n10.0.0.2 b\n1.2.3.4 zz".to_vec());
}

#[test]
fn update_substring_match_replaces_every_mention() {
    let t = b"10.0.0.1 webserver\n10.0.0.2 web\n";
    assert_eq!(update_table(t, b"web", b"10.0.0.9"), b"10.0.0.9 web\n10.0.0.9 web\n".to_vec());
}
