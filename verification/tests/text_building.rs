use labworks::builder::{add_chars_n, add_chars_n_ref, add_integer, add_space, add_str, add_str2};
use labworks::text::{chars_of, matches_keyword, split_ranges, string_from_range, trim_bounds, word_ranges, Separator};

fn pieces(text: &str, sep: Separator) -> Vec<String> {
    let v = chars_of(text);
    split_ranges(&v, 0, v.len(), sep).iter().map(|&(a, b)| string_from_range(&v, a, b)).collect()
}

#[test]
fn repeated_characters() {
    assert_eq!(add_chars_n(String::from("ab"), 'x', 3), "abxxx");
    assert_eq!(add_chars_n(String::new(), 'x', 0), "");
    let mut s = String::from("q");
    add_chars_n_ref(&mut s, '💚', 2);
    assert_eq!(s, "q💚💚");
}

#[test]
fn owned_and_borrowed_repeat_agree() {
    let mut s = String::from("start");
    add_chars_n_ref(&mut s, 'z', 7);
    assert_eq!(add_chars_n(String::from("start"), 'z', 7), s);
}

#[test]
fn spaces_and_strings() {
    let mut s = String::new();
    add_space(&mut s, 4);
    add_str(&mut s, "Most");
    add_str2(&mut s, String::from(" crate"));
    assert_eq!(s, "    Most crate");
}

#[test]
fn integers_are_grouped_by_three() {
    let mut s = String::new();
    add_integer(&mut s, 306437968);
    assert_eq!(s, "306_437_968");
    let mut t = String::from("n=");
    add_integer(&mut t, 1000);
    assert_eq!(t, "n=1_000");
    let mut u = String::new();
    add_integer(&mut u, 999);
    assert_eq!(u, "999");
    let mut w = String::new();
    add_integer(&mut w, u32::MAX);
    assert_eq!(w, "4_294_967_295");
    let mut x = String::new();
    add_integer(&mut x, 1_000_007);
    assert_eq!(x, "1_000_007");
}

#[test]
fn zero_writes_nothing() {
    let mut s = String::from("a");
    add_integer(&mut s, 0);
    assert_eq!(s, "a");
}

#[test]
fn grouped_digits_read_back() {
    for n in [1u32, 9, 10, 999, 1000, 12345, 306437968, u32::MAX] {
        let mut s = String::new();
        add_integer(&mut s, n);
        let digits: String = s.chars().filter(|&c| c != '_').collect();
        assert_eq!(digits.parse::<u32>().unwrap(), n);
    }
}

#[test]
fn split_keeps_empty_pieces() {
    assert_eq!(pieces("a,b,,c", Separator::Char(',')), vec!["a", "b", "", "c"]);
    assert_eq!(pieces("", Separator::Char(',')), vec![""]);
    assert_eq!(pieces("x\n", Separator::Char('\n')), vec!["x", ""]);
}

#[test]
fn split_matches_std_and_rejoins() {
    for text in ["a b  c", " lead", "trail ", "", "one"] {
        let ours = pieces(text, Separator::Char(' '));
        let std: Vec<String> = text.split(' ').map(String::from).collect();
        assert_eq!(ours, std);
        assert_eq!(ours.join(" "), text);
    }
}

#[test]
fn words_match_split_whitespace() {
    for text in ["  a\tb  c\n", "", "   ", "x", "a\u{3000}b\u{85}c"] {
        let v = chars_of(text);
        let ours: Vec<String> =
            word_ranges(&v, 0, v.len()).iter().map(|&(a, b)| string_from_range(&v, a, b)).collect();
        let std: Vec<String> = text.split_whitespace().map(String::from).collect();
        assert_eq!(ours, std);
    }
}

#[test]
fn trimming_matches_std() {
    for text in ["  a b \n", "", "\t\t", "x", "\u{2003}mid\u{2003}"] {
        let v = chars_of(text);
        let (a, b) = trim_bounds(&v, 0, v.len());
        assert_eq!(string_from_range(&v, a, b), text.trim());
    }
}

#[test]
fn keywords_ignore_case_and_surrounding_whitespace() {
    assert!(matches_keyword("  No\n", "no"));
    assert!(matches_keyword("END", "end"));
    assert!(matches_keyword("help", "help"));
    assert!(!matches_keyword("n o", "no"));
    assert!(!matches_keyword("nope", "no"));
    assert!(!matches_keyword("", "end"));
}
