// Tests for the bitmap and the bit helpers.

use fat32::bitmap::BitMap;
use fat32::bits::Bits;

#[test]
fn basic() {
    let mut b = BitMap::new(31);

    assert_eq!(b.length(), 31);
    assert_eq!(b.empty_bits(), 31);

    // Get:
    for idx in 0..31 {
        assert_eq!(b.get(idx), Ok(false));
    }

    // Get out of range:
    assert_eq!(b.get(32), Err(()));

    // Set all using get next free:
    for _ in 0..31 {
        let idx = b.next_empty_bit();
        assert!(idx.is_ok());

        b.set(idx.unwrap(), true).unwrap();
    }

    // There should be no empty bits now:
    assert_eq!(b.empty_bits(), 0);
    assert_eq!(b.next_empty_bit(), Err(()));

    // Finally, clear them all:
    b.clear_all();
    assert_eq!(b.empty_bits(), 31);
    assert_eq!(b.length(), 31);
}

#[test]
fn get() {
    let a: u8 = 0b1010_0101;

    assert_eq!(true, a.b(7));
    assert_eq!(false, a.b(6));
    assert_eq!(true, a.b(5));
    assert_eq!(false, a.b(4));
    assert_eq!(false, a.b(3));
    assert_eq!(true, a.b(2));
    assert_eq!(false, a.b(1));
    assert_eq!(true, a.b(0));
}

#[test]
fn set() {
    let mut a: u8 = 0b0000000;

    a.set_bit(0, true);
    assert_eq!(a, 1);

    a.set_bit(0, false);
    assert_eq!(a, 0);
}
