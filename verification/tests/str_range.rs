use z157::StrRange;

#[test]
fn test_new() {
    let outer = "The quick brown fox jumps over the lazy dog";
    let ms = StrRange::new(outer, &outer[0..3]).unwrap();
    assert_eq!(ms.range().start, 0);
    assert_eq!(ms.range().end, 3);
    let ms = StrRange::new(outer, &outer[4..12]).unwrap();
    assert_eq!(ms.range().start, 4);
    assert_eq!(ms.range().end, 12);

    let other = "brown";
    assert!(StrRange::new(outer, other).is_none());
}

#[test]
fn test_index() {
    let outer = "The quick brown fox jumps over the lazy dog";
    let ms = StrRange::new(outer, &outer[0..3]).unwrap();
    let the = &outer[ms.range()];
    assert_eq!("The", the);
}

#[test]
fn str_range_resolves_against_its_buffer() {
    let outer = "The quick brown fox jumps over the lazy dog";
    let range = StrRange::new(outer, &outer[10..15]).unwrap();
    assert_eq!(range.resolve(outer), "brown");
    assert!(!range.is_empty());
}

#[test]
fn str_range_of_an_empty_part_is_empty() {
    let outer = "The quick brown fox";
    let range = StrRange::new(outer, &outer[4..4]).unwrap();
    assert!(range.is_empty());
    assert_eq!(range.range(), 4..4);
    assert_eq!(range.resolve(outer), "");
}

#[test]
fn str_range_covers_the_whole_buffer() {
    let outer = "fox";
    let range = StrRange::new(outer, outer).unwrap();
    assert_eq!(range.range(), 0..3);
}

#[test]
fn str_range_refuses_a_part_that_reaches_past_the_end() {
    let whole = "The quick brown fox";
    let outer = &whole[0..9];
    let inner = &whole[4..15];
    assert!(StrRange::new(outer, inner).is_none());
    assert!(StrRange::new(&whole[4..9], &whole[0..6]).is_none());
}

#[test]
fn str_range_from_addresses() {
    let range = StrRange::from_addresses(1000, 20, 1004, 8).unwrap();
    assert_eq!(range.range(), 4..12);
    assert!(StrRange::from_addresses(1000, 20, 999, 8).is_none());
    assert!(StrRange::from_addresses(1000, 20, 1013, 8).is_none());
    let range = StrRange::from_addresses(1000, 20, 1012, 8).unwrap();
    assert_eq!(range.range(), 12..20);
    let range = StrRange::from_addresses(1000, 0, 1000, 0).unwrap();
    assert!(range.is_empty());
}

#[test]
fn str_range_on_text_with_wide_characters() {
    let outer = "añb";
    let range = StrRange::new(outer, &outer[1..3]).unwrap();
    assert_eq!(range.range(), 1..3);
    assert_eq!(range.resolve(outer), "ñ");
}

#[test]
fn str_range_try_resolve_tests_the_buffer() {
    let outer = "The quick brown fox";
    let range = StrRange::new(outer, &outer[10..15]).unwrap();
    assert_eq!(range.try_resolve(outer), Some("brown"));
    assert_eq!(range.try_resolve("0123456789abcdef"), Some("abcde"));
    assert_eq!(range.try_resolve("too short"), None);
    // Offset 10 lies inside the two bytes of `é`.
    assert_eq!(range.try_resolve("012345678é12345"), None);
}
