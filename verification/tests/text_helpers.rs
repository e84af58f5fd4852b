use pbs::text::{chars_of, contains_chars, ends_with_chars, slice_eq, starts_with_chars, str_eq};

#[test]
fn searches_over_characters() {
    let hay = chars_of("front-left");
    assert!(contains_chars(&hay, &chars_of("t-l")));
    assert!(contains_chars(&hay, &chars_of("")));
    assert!(!contains_chars(&hay, &chars_of("right")));
    assert!(starts_with_chars(&hay, &chars_of("front")));
    assert!(!starts_with_chars(&hay, &chars_of("left")));
    assert!(ends_with_chars(&hay, &chars_of("left")));
    assert!(!ends_with_chars(&chars_of("ft"), &chars_of("left")));
    assert!(slice_eq(&chars_of("ab"), &['a', 'b']));
    assert!(!slice_eq(&chars_of("ab"), &['a']));
    assert!(str_eq("Größe", "Größe"));
    assert!(!str_eq("Größe", "Grösse"));
    assert_eq!(chars_of("añb"), vec!['a', 'ñ', 'b']);
}
