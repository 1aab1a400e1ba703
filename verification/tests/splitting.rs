use strsplit::{split_all, until_char, StrSplit};

#[test]
fn works() {
    let mut str_split = StrSplit::new("a b c d", " ");
    let mut letters: Vec<&str> = Vec::new();
    while let Some(seg) = str_split.next() {
        letters.push(seg);
    }
    assert_eq!(letters, vec!["a", "b", "c", "d"]);
}

#[test]
fn works_when_delimiter_is_at_string_tail() {
    let mut str_split = StrSplit::new("a b c d ", " ");
    let mut letters: Vec<&str> = Vec::new();
    while let Some(seg) = str_split.next() {
        letters.push(seg);
    }
    assert_eq!(letters, vec!["a", "b", "c", "d", ""]);
}

#[test]
fn split_all_collects_every_segment() {
    let letters = split_all("a b c d", " ");
    assert_eq!(letters, vec!["a", "b", "c", "d"]);
}

#[test]
fn absent_delimiter_yields_whole_haystack() {
    assert_eq!(split_all("abc", "x"), vec!["abc"]);
    assert_eq!(split_all("abc", 'x'), vec!["abc"]);
}

#[test]
fn empty_haystack_yields_one_empty_segment() {
    assert_eq!(split_all("", "x"), vec![""]);
    assert_eq!(split_all("", ' '), vec![""]);
}

#[test]
fn consecutive_delimiters_yield_empty_segments() {
    assert_eq!(split_all("a  b", " "), vec!["a", "", "b"]);
}

#[test]
fn delimiter_at_start_yields_leading_empty_segment() {
    assert_eq!(split_all(" a", " "), vec!["", "a"]);
}

#[test]
fn multi_character_literal_delimiter() {
    assert_eq!(split_all("1ab2ab3", "ab"), vec!["1", "2", "3"]);
}

#[test]
fn single_char_delimiter_matches_literal_behaviour() {
    assert_eq!(split_all("a b c d", ' '), vec!["a", "b", "c", "d"]);
}

#[test]
fn multi_byte_delimiter_respects_char_boundaries() {
    // 'é' takes two bytes in UTF-8; the segments around it must stay intact.
    assert_eq!(split_all("aéb", 'é'), vec!["a", "b"]);
    assert_eq!(split_all("αβ γδ", ' '), vec!["αβ", "γδ"]);
    assert_eq!(split_all("xéyéz", "é"), vec!["x", "y", "z"]);
}

#[test]
fn round_trip_reinserting_delimiter_reconstructs_input() {
    let input = "x-y--z-";
    let parts = split_all(input, "-");
    assert_eq!(parts.join("-"), input);
    let no_hit = split_all("plain", "-");
    assert_eq!(no_hit.join("-"), "plain");
}

#[test]
fn independent_splitters_yield_identical_sequences() {
    let first = split_all("one,two,,three", ",");
    let second = split_all("one,two,,three", ",");
    assert_eq!(first, second);

    let mut a = StrSplit::new("p q", ' ');
    let mut b = StrSplit::new("p q", ' ');
    loop {
        let x = a.next();
        let y = b.next();
        assert_eq!(x, y);
        if x.is_none() {
            break;
        }
    }
}

#[test]
fn until_char_returns_prefix_before_first_occurrence() {
    assert_eq!(until_char("hello world", ' '), "hello");
}

#[test]
fn until_char_returns_whole_text_without_occurrence() {
    assert_eq!(until_char("hello", ' '), "hello");
}
