use fillings::{BitsVec, ReprUsize};

#[derive(Clone, Debug, Eq, PartialEq)]
enum TestEnum {
    Value1,
    Value2,
    Value3,
    Value4,
}

impl ReprUsize for TestEnum {
    fn code_of(self) -> usize {
        self.into_usize()
    }

    fn value_of(code: usize) -> Self {
        Self::from_usize(code)
    }

    fn into_usize(self) -> usize {
        match self {
            TestEnum::Value1 => 0,
            TestEnum::Value2 => 1,
            TestEnum::Value3 => 2,
            TestEnum::Value4 => 3,
        }
    }

    fn from_usize(i: usize) -> Self {
        match i {
            0 => TestEnum::Value1,
            1 => TestEnum::Value2,
            2 => TestEnum::Value3,
            3 => TestEnum::Value4,
            _ => unreachable!(),
        }
    }
}

fn pushed(bits: usize, length: usize, value: u64) -> BitsVec<u64> {
    let mut vec = BitsVec::new(bits);
    for _ in 0..length {
        vec.push(value);
    }
    vec
}

#[test]
fn test_everything_with_enum() {
    let mut vec = BitsVec::with_elements(4, 16, TestEnum::Value4);
    vec.set(0, TestEnum::Value1);
    vec.set(1, TestEnum::Value2);
    vec.set(2, TestEnum::Value3);
    assert_eq!(vec.len(), 16);
    assert_eq!(vec.inner_len(), 1);
    assert_eq!(vec.get(0), TestEnum::Value1);
    assert_eq!(vec.get(1), TestEnum::Value2);
    assert_eq!(vec.get(2), TestEnum::Value3);
    vec.push(TestEnum::Value4);
    for i in 3..vec.len() {
        assert_eq!(vec.get(i), TestEnum::Value4);
    }
}

#[test]
fn enum_at_two_bits() {
    let mut vec = BitsVec::with_elements(2, 16, TestEnum::Value4);
    vec.set(0, TestEnum::Value1);
    vec.set(1, TestEnum::Value2);
    vec.set(2, TestEnum::Value3);
    assert_eq!(vec.len(), 16);
    assert_eq!(vec.get(0), TestEnum::Value1);
    assert_eq!(vec.get(1), TestEnum::Value2);
    assert_eq!(vec.get(2), TestEnum::Value3);
    for i in 3..16 {
        assert_eq!(vec.get(i), TestEnum::Value4);
    }
    vec.push(TestEnum::Value4);
    assert_eq!(vec.len(), 17);
    assert_eq!(vec.get(16), TestEnum::Value4);
}

#[test]
fn three_bit_values_read_back() {
    let mut vec: BitsVec<u8> = BitsVec::new(3);
    for v in 1u8..8 {
        vec.push(v);
    }
    assert_eq!(vec.len(), 7);
    assert_eq!(vec.inner_len(), 1);
    assert_eq!(vec.get(3), 4);
    assert_eq!(vec.get(6), 7);
    for i in 0..7 {
        assert_eq!(vec.get(i), i as u8 + 1);
    }
}

#[test]
fn element_split_across_words() {
    // 21 elements of 3 bits take 63 bits; the 22nd straddles into a second word.
    let mut vec: BitsVec<u64> = BitsVec::new(3);
    for i in 0..21u64 {
        vec.push(i % 8);
    }
    assert_eq!(vec.inner_len(), 1);
    vec.push(5);
    assert_eq!(vec.inner_len(), 2);
    assert_eq!(vec.get(21), 5);
    vec.push(6);
    assert_eq!(vec.get(22), 6);
    for i in 0..21 {
        assert_eq!(vec.get(i), i as u64 % 8);
    }
}

#[test]
fn length_on_and_off_word_boundaries() {
    let mut vec: BitsVec<u64> = BitsVec::new(4);
    for n in 1..=16 {
        vec.push(9);
        assert_eq!(vec.len(), n);
    }
    assert_eq!(vec.inner_len(), 1);
    vec.push(9);
    assert_eq!(vec.len(), 17);
    assert_eq!(vec.inner_len(), 2);

    let mut odd: BitsVec<u64> = BitsVec::new(7);
    for n in 1..=64 {
        odd.push(100);
        assert_eq!(odd.len(), n);
        assert_eq!(odd.inner_len(), (n * 7 + 63) / 64);
    }
}

#[test]
fn set_changes_only_its_index() {
    let mut vec: BitsVec<u64> = BitsVec::new(5);
    for i in 0..40u64 {
        vec.push(i % 32);
    }
    vec.set(12, 31);
    vec.set(25, 0);
    assert_eq!(vec.get(12), 31);
    assert_eq!(vec.get(25), 0);
    for i in 0..40 {
        if i != 12 && i != 25 {
            assert_eq!(vec.get(i), i as u64 % 32);
        }
    }
    assert_eq!(vec.len(), 40);
}

#[test]
fn bulk_fill_equals_pushes() {
    for &(bits, length, value) in &[
        (3usize, 7usize, 5u64),
        (3, 64, 7),
        (3, 1000, 2),
        (7, 1000, 100),
        (13, 333, 8191),
        (4, 16, 9),
        (1, 200, 1),
        (63, 70, (1u64 << 63) - 1),
        (0, 50, 0),
    ] {
        let filled = BitsVec::with_elements(bits, length, value);
        let one_by_one = pushed(bits, length, value);
        assert!(filled == one_by_one);
        assert_eq!(filled.len(), length);
        assert_eq!(filled.inner_len(), one_by_one.inner_len());
        for i in 0..length {
            assert_eq!(filled.get(i), value);
        }
    }
}

#[test]
fn extend_after_existing_elements() {
    let mut vec: BitsVec<u64> = BitsVec::new(6);
    vec.push(1);
    vec.push(2);
    vec.extend_with_element(500, 33);
    assert_eq!(vec.len(), 500);
    assert_eq!(vec.get(0), 1);
    assert_eq!(vec.get(1), 2);
    for i in 2..500 {
        assert_eq!(vec.get(i), 33);
    }
    let mut expected: BitsVec<u64> = BitsVec::new(6);
    expected.push(1);
    expected.push(2);
    for _ in 2..500 {
        expected.push(33);
    }
    assert!(vec == expected);
}

#[test]
fn out_of_bounds_reads_nothing() {
    let empty: BitsVec<u64> = BitsVec::new(5);
    assert_eq!(empty.checked_get(0), None);
    assert!(empty.is_empty());
    let vec = pushed(5, 3, 17);
    assert_eq!(vec.checked_get(3), None);
    assert_eq!(vec.checked_get(2), Some(17));
    assert!(!vec.is_empty());
}

#[test]
fn equality_needs_same_width() {
    let a = pushed(4, 5, 3);
    let b = pushed(5, 5, 3);
    assert!(!(a == b));
    let c = pushed(4, 5, 3);
    assert!(a == c);
    let d = pushed(4, 6, 3);
    assert!(!(a == d));
}

#[test]
fn clear_resets_to_empty() {
    let mut vec = pushed(9, 100, 300);
    vec.clear();
    assert_eq!(vec.len(), 0);
    assert_eq!(vec.inner_len(), 1);
    assert!(vec == BitsVec::new(9));
    vec.push(511);
    assert_eq!(vec.get(0), 511);
}

#[test]
fn capacity_keeps_contents() {
    let mut vec: BitsVec<u64> = BitsVec::with_capacity(10, 1000);
    assert_eq!(vec.len(), 0);
    assert_eq!(vec.inner_len(), 1);
    vec.push(1000);
    vec.reserve(5000);
    assert_eq!(vec.len(), 1);
    assert_eq!(vec.get(0), 1000);
}

#[test]
fn contains_scans_all_elements() {
    let mut vec: BitsVec<u64> = BitsVec::new(6);
    for v in [4u64, 8, 15, 16, 23, 42] {
        vec.push(v);
    }
    assert!(vec.contains(&42));
    assert!(vec.contains(&4));
    assert!(!vec.contains(&5));
    let empty: BitsVec<u64> = BitsVec::new(6);
    assert!(!empty.contains(&0));
}

#[test]
fn iterators_walk_both_ways() {
    let vec = pushed(0, 0, 0);
    let mut none = vec.iter();
    assert_eq!(none.next(), None);

    let mut vec: BitsVec<u64> = BitsVec::new(11);
    for v in [1u64, 2000, 3, 4] {
        vec.push(v);
    }
    let mut it = vec.iter();
    assert_eq!(it.len(), 4);
    assert_eq!(it.size_hint(), (4, Some(4)));
    assert_eq!(it.next(), Some(1));
    assert_eq!(it.next_back(), Some(4));
    assert_eq!(it.len(), 2);
    assert_eq!(it.next(), Some(2000));
    assert_eq!(it.next(), Some(3));
    assert_eq!(it.next(), None);
    assert_eq!(it.next_back(), None);

    let mut owned = vec.into_iter();
    assert_eq!(owned.next_back(), Some(4));
    assert_eq!(owned.next_back(), Some(3));
    assert_eq!(owned.len(), 2);
    assert_eq!(owned.next(), Some(1));
    assert_eq!(owned.next(), Some(2000));
    assert_eq!(owned.next(), None);
}

#[test]
fn built_in_codecs_round_trip() {
    let mut flags: BitsVec<bool> = BitsVec::new(1);
    for i in 0..70 {
        flags.push(i % 3 == 0);
    }
    assert_eq!(flags.inner_len(), 2);
    for i in 0..70 {
        assert_eq!(flags.get(i), i % 3 == 0);
    }

    let mut chars: BitsVec<char> = BitsVec::new(8);
    for c in "packed".chars() {
        chars.push(c);
    }
    assert_eq!(chars.get(0), 'p');
    assert_eq!(chars.get(5), 'd');
    assert_eq!(chars.get(3), 'k');

    let mut wide: BitsVec<u32> = BitsVec::new(20);
    wide.push(1_000_000);
    wide.push(0);
    wide.push(524_287);
    assert_eq!(wide.get(0), 1_000_000);
    assert_eq!(wide.get(1), 0);
    assert_eq!(wide.get(2), 524_287);

    let mut small: BitsVec<i16> = BitsVec::new(12);
    small.push(2047);
    small.push(5);
    assert_eq!(small.get(0), 2047);
    assert_eq!(small.get(1), 5);
}

#[test]
fn codecs_convert_as_stated() {
    assert_eq!(true.into_usize(), 1);
    assert_eq!(false.into_usize(), 0);
    assert!(bool::from_usize(1));
    assert!(!bool::from_usize(0));
    assert_eq!('A'.into_usize(), 65);
    assert_eq!(char::from_usize(97), 'a');
    assert_eq!(char::from_usize(0x141), 'A');
    assert_eq!((-1i8).into_usize(), usize::MAX);
    assert_eq!(i8::from_usize(255), -1);
    assert_eq!(u8::from_usize(300), 44);
}

#[test]
fn decoded_listing_and_copies() {
    let mut vec: BitsVec<u64> = BitsVec::new(3);
    for v in 1u64..8 {
        vec.push(v);
    }
    assert_eq!(vec.to_vec(), vec![1, 2, 3, 4, 5, 6, 7]);
    let copy = vec.clone();
    assert!(copy == vec);
    assert_eq!(copy.inner_len(), 1);
    assert_eq!(copy.to_vec(), vec![1, 2, 3, 4, 5, 6, 7]);
    let empty: BitsVec<bool> = BitsVec::new(1);
    assert!(empty.to_vec().is_empty());
}

#[test]
fn setting_an_element_to_itself_changes_nothing() {
    let mut vec = pushed(5, 30, 19);
    let before = vec.clone();
    let x = vec.get(13);
    vec.set(13, x);
    assert!(vec == before);
}
