use z157::MaybeSlice;

#[test]
fn new() {
    let outer = "The quick brown fox jumps over the lazy dog";
    let ms = MaybeSlice::new(outer, &outer[0..3]).unwrap();
    assert_eq!(ms.range().start, 0);
    assert_eq!(ms.range().end, 3);
    let ms = MaybeSlice::new(outer, &outer[4..12]).unwrap();
    assert_eq!(ms.range().start, 4);
    assert_eq!(ms.range().end, 12);

    let other = "brown";
    assert!(MaybeSlice::new(outer, other).is_none());
}

#[test]
fn index() {
    let outer = "The quick brown fox jumps over the lazy dog";
    let ms = MaybeSlice::new(outer, &outer[0..3]).unwrap();
    let the = ms.index(outer);
    assert_eq!("The", the);
}

#[test]
fn maybe_slice_len_and_is_empty() {
    let outer = "The quick brown fox jumps over the lazy dog";
    let ms = MaybeSlice::new(outer, &outer[4..12]).unwrap();
    assert_eq!(ms.len(), 8);
    assert!(!ms.is_empty());
    let none = MaybeSlice::new(outer, &outer[7..7]).unwrap();
    assert_eq!(none.len(), 0);
    assert!(none.is_empty());
    assert_eq!(none.index(outer), "");
}

#[test]
fn maybe_slice_is_copied_freely() {
    let outer = "The quick brown fox";
    let ms = MaybeSlice::new(outer, &outer[4..9]).unwrap();
    let copy = ms;
    assert_eq!(ms.index(outer), "quick");
    assert_eq!(copy.index(outer), "quick");
}

#[test]
fn maybe_slice_from_addresses() {
    let ms = MaybeSlice::from_addresses(64, 10, 66, 3).unwrap();
    assert_eq!(ms.range(), 2..5);
    assert_eq!(ms.len(), 3);
    assert!(MaybeSlice::from_addresses(64, 10, 63, 3).is_none());
    assert!(MaybeSlice::from_addresses(64, 10, 72, 3).is_none());
}

#[test]
fn maybe_slice_get_tests_the_buffer() {
    let outer = "The quick brown fox";
    let ms = MaybeSlice::new(outer, &outer[4..9]).unwrap();
    assert_eq!(ms.get(outer), Some("quick"));
    assert_eq!(ms.get("abc"), None);
    assert_eq!(ms.get("0123é6789"), Some("é678"));
    // Offset 4 lies inside the two bytes of `é`.
    assert_eq!(ms.get("012é56789"), None);
}
