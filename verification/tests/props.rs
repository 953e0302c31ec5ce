use stroka::MiniStr;

#[test]
fn push_then_pop_restores_content() {
    let mut s = stroka::String::new_str("abcδ");
    assert!(!s.is_alloc());
    s.push('é');
    assert_eq!(s, "abcδé");
    assert_eq!(s.pop(), Some('é'));
    assert_eq!(s, "abcδ");

    let mut h = stroka::String::new_str("123456789単語123456789");
    assert!(h.is_alloc());
    h.push('語');
    assert_eq!(h.pop(), Some('語'));
    assert_eq!(h, "123456789単語123456789");
}

#[test]
fn pop_on_empty_returns_none() {
    let mut s = stroka::String::new();
    assert_eq!(s.pop(), None);
    assert_eq!(s.len(), 0);
}

#[test]
fn insert_str_then_remove_range_restores_content() {
    let original = "aβcd";
    let inserted = "単x";
    let mut s = stroka::String::new_str(original);
    s.insert_str(1, inserted);
    assert_eq!(s, "a単xβcd");
    s.remove_range(1..1 + inserted.len());
    assert_eq!(s, original);

    let heap_original = "123456789単語123456789";
    let mut h = stroka::String::new_str(heap_original);
    h.insert_str(9, inserted);
    h.remove_range(9..9 + inserted.len());
    assert_eq!(h, heap_original);
}

#[test]
fn retain_all_is_identity_and_retain_none_empties() {
    const TEXT: &str = "123456789単語123456789";
    let mut s = stroka::String::new_str(TEXT);
    assert!(s.is_alloc());
    let cap = s.capacity();

    s.retain(|_ch| true);
    assert_eq!(s, TEXT);
    assert!(s.is_alloc());
    assert_eq!(s.capacity(), cap);

    s.retain(|_ch| false);
    assert_eq!(s, "");
    assert!(s.is_empty());
    // emptying by retain never demotes the representation
    assert!(s.is_alloc());
    assert_eq!(s.capacity(), cap);
}

#[test]
fn drain_yields_range_in_order_and_excises_it() {
    let mut s = stroka::String::new_str("ab単語cd");
    let mut d = s.drain(2..8);
    // removal is applied to the owner up front
    assert_eq!(s, "abcd");
    assert_eq!(d.as_str(), "単語");
    assert_eq!(d.next(), Some('単'));
    assert_eq!(d.as_str(), "語");
    assert_eq!(d.next(), Some('語'));
    assert_eq!(d.next(), None);
    assert_eq!(d.as_str(), "");
}

#[test]
fn drain_consumed_from_the_back_yields_reverse_order() {
    let mut s = stroka::String::new_str("ab単語cd");
    let mut d = s.drain(2..8);
    assert_eq!(d.next_back(), Some('語'));
    assert_eq!(d.next_back(), Some('単'));
    assert_eq!(d.next_back(), None);
    assert_eq!(s, "abcd");
}

#[test]
fn drain_dropped_early_still_leaves_range_excised() {
    let mut s = stroka::String::new_str("123456789単語123456789");
    {
        let mut d = s.drain(9..15);
        assert_eq!(d.next(), Some('単'));
        // the rest of the drain is dropped unconsumed
    }
    assert_eq!(s, "123456789123456789");
    assert!(s.is_alloc());
}

#[test]
fn replace_range_with_same_length_keeps_capacity_and_representation() {
    let mut s = stroka::String::new_str("abcdef");
    assert!(!s.is_alloc());
    let cap = s.capacity();
    s.replace_range(1..4, "XYZ");
    assert_eq!(s, "aXYZef");
    assert!(!s.is_alloc());
    assert_eq!(s.capacity(), cap);

    let mut h = stroka::String::new_str("123456789単語123456789");
    assert!(h.is_alloc());
    let cap = h.capacity();
    h.replace_range(0..9, "987654321");
    assert_eq!(h, "987654321単語123456789");
    assert!(h.is_alloc());
    assert_eq!(h.capacity(), cap);
}

#[test]
fn replace_range_with_longer_text_grows_and_may_promote() {
    let mut s = stroka::String::new_str("0123456789");
    assert!(!s.is_alloc());
    s.replace_range(2..4, "abcdefgh");
    assert_eq!(s, "01abcdefgh456789");
    assert!(s.is_alloc());
}

#[test]
fn replace_range_with_shorter_text_shrinks_in_place() {
    let mut s = stroka::String::new_str("0123456789");
    s.replace_range(2..8, "x");
    assert_eq!(s, "01x89");
    assert!(!s.is_alloc());
}

#[test]
fn replace_range_at_the_edges() {
    let mut s = stroka::String::new_str("abcdef");
    s.replace_range(4..6, "##");
    assert_eq!(s, "abcd##");
    s.replace_range(3..3, "!");
    assert_eq!(s, "abc!d##");
    s.replace_range(0..7, "");
    assert_eq!(s, "");
}

#[test]
fn remove_range_at_the_edges() {
    let mut s = stroka::String::new_str("abcdef");
    s.remove_range(3..3);
    assert_eq!(s, "abcdef");
    s.remove_range(4..6);
    assert_eq!(s, "abcd");
    s.remove_range(0..4);
    assert_eq!(s, "");
}

#[test]
fn truncate_beyond_length_does_nothing() {
    let mut s = stroka::String::new_str("abc");
    s.truncate(100);
    assert_eq!(s, "abc");
    assert_eq!(s.len(), 3);
}

#[test]
fn from_utf16_reports_the_unpaired_surrogate() {
    let buf = [0x0061u16, 0xD800, 0x0062];
    let err = stroka::String::from_utf16(&buf).expect_err("lone high surrogate must fail");
    assert_eq!(err.unpaired_surrogate(), 0xD800);

    let buf = [0xDD1Eu16];
    let err = stroka::String::from_utf16(&buf).expect_err("lone low surrogate must fail");
    assert_eq!(err.unpaired_surrogate(), 0xDD1E);
}

#[test]
fn equality_is_independent_of_representation() {
    // build a heap value whose content fits inline
    let mut heap = stroka::String::new_str("test456789012345");
    assert!(heap.is_alloc());
    heap.truncate(4);
    assert!(heap.is_alloc());

    let inline = stroka::String::new_sso("test");
    assert!(!inline.is_alloc());

    assert_eq!(heap, inline);
    assert_eq!(inline, heap);
    assert_eq!(heap, "test");
}

#[test]
fn as_str_returns_the_exact_content() {
    let s = stroka::String::new_str("ab単語cd");
    assert_eq!(s.as_str(), "ab単語cd");
    assert_eq!(s.as_bytes(), "ab単語cd".as_bytes());
}

#[test]
fn shrink_to_fit_keeps_the_content() {
    let mut s = stroka::String::with_capacity(40);
    s.push_str("0123456789abcdefgh");
    assert!(s.capacity() >= 40);
    s.shrink_to_fit();
    assert_eq!(s.capacity(), s.len());
    assert_eq!(s, "0123456789abcdefgh");
}

#[test]
fn default_is_an_empty_inline_string() {
    let s: stroka::String = Default::default();
    assert!(s.is_empty());
    assert!(!s.is_alloc());
}

#[test]
fn assert_range_len_normalizes_a_range() {
    let (start, end, len) = stroka::assert_range_len("ab単語cd", &(2..8));
    assert_eq!(start, 2);
    assert_eq!(end, 8);
    assert_eq!(len, 6);
}

#[test]
fn ministr_reads_a_heap_buffer() {
    let h = stroka::HeapBuffer::from_slice("hello".as_bytes());
    assert_eq!(h.as_str(), "hello");
}

#[test]
fn from_str_checked_accepts_exactly_fitting_text() {
    let ok = stroka::InlineBuffer::from_str_checked("12345678901234").expect("14 bytes fit");
    assert_eq!(ok.len(), 14);
    assert_eq!(ok.as_slice(), "12345678901234".as_bytes());
    let too_long = stroka::InlineBuffer::from_str_checked("123456789012345");
    assert!(matches!(too_long, Err(stroka::Overflow)));
}

#[test]
fn push_str_unchecked_appends_within_capacity() {
    let mut b = stroka::InlineBuffer::from_str_checked("abc").expect("fits");
    b.push_str_unchecked("語");
    assert_eq!(b.as_slice(), "abc語".as_bytes());
    assert_eq!(b.remaining(), 14 - 6);
}

#[test]
fn set_len_shortens_to_a_boundary() {
    let mut s = stroka::String::new_str("ab単語cd");
    s.set_len(5);
    assert_eq!(s, "ab単");
    assert!(!s.is_alloc());
}

#[test]
fn ordering_follows_content() {
    let a = stroka::String::new_str("abc");
    let b = stroka::String::new_str("abd");
    let prefix = stroka::String::new_str("ab");
    assert!(a < b);
    assert!(b > a);
    assert!(prefix < a);
    assert_eq!(a.partial_cmp(&a), Some(core::cmp::Ordering::Equal));

    // ordering, like equality, ignores the representation
    let mut heap = stroka::String::new_str("abc456789012345");
    heap.truncate(3);
    assert!(heap.is_alloc());
    assert_eq!(a.partial_cmp(&heap), Some(core::cmp::Ordering::Equal));
    assert!(prefix < heap);
}

#[test]
fn promotion_is_monotone_under_clear_truncate_and_shrink() {
    let mut s = stroka::String::new_str("123456789単語123456789");
    assert!(s.is_alloc());
    s.truncate(9);
    assert!(s.is_alloc());
    s.clear();
    assert!(s.is_alloc());
    s.shrink_to_fit();
    assert!(s.is_alloc());
    assert_eq!(s.capacity(), 0);
    s.push_str("back");
    assert!(s.is_alloc());
    assert_eq!(s, "back");
}

#[test]
fn inline_buffer_knows_its_char_boundaries() {
    let b = stroka::InlineBuffer::from_str_checked("a単b").expect("fits");
    assert!(b.is_char_boundary(0));
    assert!(b.is_char_boundary(1));
    assert!(!b.is_char_boundary(2));
    assert!(!b.is_char_boundary(3));
    assert!(b.is_char_boundary(4));
    assert!(b.is_char_boundary(5));
    assert!(!b.is_char_boundary(6));
}

#[test]
fn replace_range_heap_edges() {
    let mut h = stroka::String::new_str("123456789単語123456789");
    let l = h.len();
    h.replace_range(l..l, "!");
    assert_eq!(h, "123456789単語123456789!");
    let l = h.len();
    h.replace_range(l - 1..l, "?!");
    assert_eq!(h, "123456789単語123456789?!");
    h.replace_range(0..0, "><");
    assert_eq!(h, "><123456789単語123456789?!");
    let l = h.len();
    h.remove_range(l - 2..l);
    assert_eq!(h, "><123456789単語123456789");
    h.remove_range(0..2);
    assert_eq!(h, "123456789単語123456789");
}
