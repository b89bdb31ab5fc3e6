use sixtyfps_interpreter::slice::Slice;

#[test]
fn slice_covers_what_it_was_made_from() {
    let data = [1u32, 2, 3];
    let x = Slice::from_slice(&data);
    assert_eq!(x.len(), 3);
    assert_eq!(x.get(1), Some(&2));
    assert_eq!(x.get(3), None);
    let back: &[u32] = x.as_slice();
    assert_eq!(back, &[1, 2, 3]);
}

#[test]
fn slices_of_equal_content_give_equal_slices() {
    let a = Slice::from_slice(&[1, 2, 3]);
    let longer = [1, 2, 3, 4];
    let b = Slice::from_slice(&longer[..3]);
    assert_eq!(a.as_slice(), b.as_slice());
    assert_eq!(Slice::from_slice(&longer[..0]).len(), 0);
}

#[test]
fn slice_is_copied_whatever_it_covers() {
    // The elements need not be copyable themselves.
    let texts = [String::from("a"), String::from("b")];
    let x = Slice::from(&texts[..]);
    let y = x;
    let z = x.clone();
    assert_eq!(x.as_slice(), y.as_slice());
    assert_eq!(z.len(), 2);
    assert_eq!(z.get(1).map(|s| s.as_str()), Some("b"));
}
