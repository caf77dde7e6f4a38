use labworks::textproc::{expand_abbreviations, hosts_lines, longest_lines, rot13_char, rot13_text, HostLine};

#[test]
fn longest_line_by_bytes_and_chars() {
    let (by_chars, by_bytes) = longest_lines("ab\nééé\nc");
    assert_eq!(by_bytes, "ééé");
    assert_eq!(by_chars, "ééé");
}

#[test]
fn longest_by_chars_keeps_byte_length_as_bound() {
    // "ééé" has 3 characters and 6 bytes: after it, a line must have more
    // than 6 characters to replace it as the longest by characters.
    let (by_chars, by_bytes) = longest_lines("ééé\nabcde\nabcdefg");
    assert_eq!(by_chars, "abcdefg");
    assert_eq!(by_bytes, "abcdefg");
    let (by_chars, _) = longest_lines("ééé\nabcde");
    assert_eq!(by_chars, "ééé");
}

#[test]
fn longest_line_first_of_equals() {
    let (by_chars, by_bytes) = longest_lines("abc\nxyz\n");
    assert_eq!(by_chars, "abc");
    assert_eq!(by_bytes, "abc");
    assert_eq!(longest_lines(""), (String::new(), String::new()));
}

#[test]
fn rot13_values() {
    assert_eq!(rot13_char('a'), 'n');
    assert_eq!(rot13_char('m'), 'z');
    assert_eq!(rot13_char('n'), 'a');
    assert_eq!(rot13_char('Z'), 'M');
    assert_eq!(rot13_char('5'), '5');
    assert_eq!(rot13_text("Hello, World!"), (String::from("Uryyb, Jbeyq!"), false));
}

#[test]
fn rot13_stops_at_non_ascii() {
    assert_eq!(rot13_text("abcé xyz"), (String::from("nop"), true));
    assert_eq!(rot13_text(""), (String::new(), false));
}

#[test]
fn rot13_twice_is_identity() {
    let text = "The Quick Brown Fox jumps over 13 lazy dogs.";
    let (once, stopped) = rot13_text(text);
    assert!(!stopped);
    assert_eq!(rot13_text(&once), (String::from(text), false));
}

#[test]
fn abbreviations_are_expanded() {
    assert_eq!(expand_abbreviations("dl Popescu pt dna"), "domnul Popescu pentru doamna ");
    assert_eq!(expand_abbreviations("ptr x"), "pentru x ");
    assert_eq!(expand_abbreviations("a  b"), "a  b ");
    assert_eq!(expand_abbreviations(""), " ");
    assert_eq!(expand_abbreviations("pt."), "pt. ");
}

#[test]
fn hosts_lines_are_read() {
    let lines = hosts_lines("# comment\n127.0.0.1   localhost extra\n\nsolo");
    assert_eq!(lines.len(), 4);
    assert!(matches!(lines[0], HostLine::Comment));
    match &lines[1] {
        HostLine::Entry(addr, name) => {
            assert_eq!(addr, "127.0.0.1");
            assert_eq!(name, "localhost");
        }
        other => panic!("unexpected {:?}", other),
    }
    assert!(matches!(lines[2], HostLine::Empty));
    assert!(matches!(lines[3], HostLine::Short));
}
