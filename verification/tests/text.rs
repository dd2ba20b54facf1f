use dynamo_parsers::text::{
    append_str, begins_with_str, chars_of, contains_str, ends_with_chars, find_earliest, find_str,
    first_of, replaced, rest_of, same_text, string_of, trimmed, trimmed_end, trimmed_start,
    utf8_prefix_len, utf8_width,
};

fn text(chars: &[char]) -> String {
    chars.iter().collect()
}

#[test]
fn white_space_is_the_unicode_property() {
    let white: Vec<u32> = vec![
        0x9, 0xa, 0xb, 0xc, 0xd, 0x20, 0x85, 0xa0, 0x1680, 0x2000, 0x2001, 0x2002, 0x2003, 0x2004,
        0x2005, 0x2006, 0x2007, 0x2008, 0x2009, 0x200a, 0x2028, 0x2029, 0x202f, 0x205f, 0x3000,
    ];
    for code in 0..=0x10ffff {
        if let Some(ch) = char::from_u32(code) {
            assert_eq!(trimmed(&[ch]).is_empty(), white.contains(&code), "{code:x}");
        }
    }
}

#[test]
fn characters_and_strings_convert_both_ways() {
    let chars = chars_of("añ€😀");
    assert_eq!(chars, vec!['a', 'ñ', '€', '😀']);
    assert_eq!(string_of(&chars), "añ€😀");
}

#[test]
fn appending_keeps_what_was_there() {
    let mut chars = chars_of("ab");
    append_str(&mut chars, "cd");
    assert_eq!(text(&chars), "abcd");
}

#[test]
fn finding_gives_the_leftmost_position() {
    let chars = chars_of("ababab");
    assert_eq!(find_str(&chars, "ba"), Some(1));
    assert_eq!(find_str(&chars, ""), Some(0));
    assert_eq!(find_str(&chars, "bb"), None);
    assert!(contains_str(&chars, "bab"));
    assert!(!contains_str(&chars, "abc"));
    assert!(begins_with_str(&chars, "aba"));
    assert!(!begins_with_str(&chars, "abababa"));
    assert!(ends_with_chars(&chars, &chars_of("bab")));
    assert!(!ends_with_chars(&chars, &chars_of("ba")));
}

#[test]
fn the_earliest_marker_wins_and_the_first_of_equals() {
    let chars = chars_of("one two three");
    assert_eq!(find_earliest(&chars, &["three", "two"]), Some((4, 1)));
    assert_eq!(find_earliest(&chars, &["tw", "two"]), Some((4, 0)));
    assert_eq!(find_earliest(&chars, &["four"]), None);
}

#[test]
fn parts_of_a_text() {
    let chars = chars_of("abcde");
    assert_eq!(text(first_of(&chars, 2)), "ab");
    assert_eq!(text(rest_of(&chars, 2)), "cde");
    assert!(same_text("abc", "abc"));
    assert!(!same_text("abc", "abd"));
    assert!(!same_text("abc", "ab"));
}

#[test]
fn trimming_takes_either_end() {
    let chars = chars_of(" \u{a0}a b\n ");
    assert_eq!(text(trimmed_start(&chars)), "a b\n ");
    assert_eq!(text(trimmed_end(&chars)), " \u{a0}a b");
    assert_eq!(text(trimmed(&chars)), "a b");
}

#[test]
fn replacing_goes_from_the_left_without_overlap() {
    assert_eq!(text(&replaced(&chars_of("aaa"), "aa", "b")), "ba");
    assert_eq!(text(&replaced(&chars_of("a-b-c"), "-", "")), "abc");
    assert_eq!(text(&replaced(&chars_of("abc"), "x", "y")), "abc");
}

#[test]
fn byte_lengths_follow_utf8() {
    let shown = "añ€😀";
    let chars = chars_of(shown);
    assert_eq!(utf8_width('a'), 1);
    assert_eq!(utf8_width('ñ'), 2);
    assert_eq!(utf8_width('€'), 3);
    assert_eq!(utf8_width('😀'), 4);
    assert_eq!(utf8_prefix_len(shown, &chars, 0), 0);
    assert_eq!(utf8_prefix_len(shown, &chars, 3), 6);
    assert_eq!(utf8_prefix_len(shown, &chars, 4), shown.len());
}
