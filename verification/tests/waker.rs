use stakker::waker::{
    bitmap_bit, bitmap_place, bitmap_size_exec, bits_of_word, is_drop_bit, waker_place,
    word_bits_exec,
};

#[test]
fn word_geometry() {
    let w = word_bits_exec();
    assert_eq!(w as usize, 8 * std::mem::size_of::<usize>());
    assert_eq!(bitmap_size_exec(), w * w);
}

#[test]
fn drained_bits_come_out_lowest_first() {
    assert_eq!(bits_of_word(0), Vec::<u32>::new());
    assert_eq!(bits_of_word(1), vec![0]);
    assert_eq!(bits_of_word(0b1010_0110), vec![1, 2, 5, 7]);
    assert_eq!(bits_of_word(1u64 << 63 | 1u64 << 40 | 8), vec![3, 40, 63]);
    assert_eq!(bits_of_word(u64::MAX).len(), 64);
}

#[test]
fn place_and_bit_are_inverse() {
    let w = word_bits_exec();
    let size = bitmap_size_exec();
    let base = 3 * size;
    for off in [1u32, 2, w - 1, w, w + 7, size - 1] {
        let (a, b) = bitmap_place(base + off, base);
        assert_eq!(a * w + b, off);
        assert_eq!(bitmap_bit(a, b, base), base + off);
    }
}

#[test]
fn waker_place_splits_the_bit_number() {
    let w = word_bits_exec();
    let size = bitmap_size_exec();
    let bit = 5 * size * w + 3 * size + 17;
    let (base, slot, index) = waker_place(bit);
    assert_eq!(base, bit - 17);
    assert_eq!(slot, 3);
    assert_eq!(index, 5);
    assert!(is_drop_bit(base));
    assert!(!is_drop_bit(bit));
    assert!(is_drop_bit(0));
}
