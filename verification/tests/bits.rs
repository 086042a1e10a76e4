use primeutils::bits::{
  count_set_bits, count_unset_bits, is_bit_set, is_bit_unset, set_bit, unset_bit, unset_last_bits,
};
use primeutils::bitvector::{clear_slot, count_marked_bytes, fill_ones, is_marked};

#[test]
fn test_bit_tests() {
  assert!(is_bit_set(&0b0000_0100, 2));
  assert!(!is_bit_set(&0b0000_0100, 3));
  assert!(is_bit_set(&0b1000_0000, 7));
  assert!(is_bit_set(&0b0000_0001, 0));
  assert!(is_bit_unset(&0b0000_0100, 3));
  assert!(!is_bit_unset(&0b0000_0100, 2));
  let mut bit: u8 = 0;
  while bit < 8 {
    assert!(is_bit_set(&0xff, bit));
    assert!(is_bit_unset(&0x00, bit));
    bit += 1;
  }
}

#[test]
fn test_set_and_unset_bit() {
  let mut byte: u8 = 0;
  set_bit(&mut byte, 0);
  assert_eq!(byte, 0b0000_0001);
  set_bit(&mut byte, 7);
  assert_eq!(byte, 0b1000_0001);
  set_bit(&mut byte, 7);
  assert_eq!(byte, 0b1000_0001);
  unset_bit(&mut byte, 0);
  assert_eq!(byte, 0b1000_0000);
  unset_bit(&mut byte, 3);
  assert_eq!(byte, 0b1000_0000);
  unset_bit(&mut byte, 7);
  assert_eq!(byte, 0);
}

#[test]
fn test_count_bits() {
  assert_eq!(count_set_bits(&0b1011_0001), 4);
  assert_eq!(count_unset_bits(&0b1011_0001), 4);
  assert_eq!(count_set_bits(&0), 0);
  assert_eq!(count_unset_bits(&0), 8);
  assert_eq!(count_set_bits(&0xff), 8);
  assert_eq!(count_unset_bits(&0xff), 0);
  let mut byte: u8 = 0;
  loop {
    let mut ones: u8 = 0;
    let mut bit: u8 = 0;
    while bit < 8 {
      if is_bit_set(&byte, bit) {
        ones += 1;
      }
      bit += 1;
    }
    assert_eq!(count_set_bits(&byte), ones);
    assert_eq!(count_unset_bits(&byte), 8 - ones);
    if byte == 255 {
      break;
    }
    byte += 1;
  }
}

#[test]
fn test_unset_last_bits() {
  let mut byte: u8 = 0xff;
  unset_last_bits(&mut byte, 0);
  assert_eq!(byte, 0xff);
  unset_last_bits(&mut byte, 1);
  assert_eq!(byte, 0x7f);
  unset_last_bits(&mut byte, 3);
  assert_eq!(byte, 0x1f);
  unset_last_bits(&mut byte, 7);
  assert_eq!(byte, 0x01);
  let mut other: u8 = 0b1010_1010;
  unset_last_bits(&mut other, 4);
  assert_eq!(other, 0b0000_1010);
}

#[test]
fn test_slots_of_a_buffer() {
  let mut buf: Vec<u8> = vec![0; 3];
  fill_ones(&mut buf);
  assert_eq!(buf, vec![0xff, 0xff, 0xff]);
  assert_eq!(count_marked_bytes(&buf, 3), 24);
  clear_slot(&mut buf, 0);
  clear_slot(&mut buf, 9);
  clear_slot(&mut buf, 23);
  assert_eq!(buf, vec![0xfe, 0xfd, 0x7f]);
  assert!(!is_marked(&buf, 9));
  assert!(is_marked(&buf, 10));
  assert_eq!(count_marked_bytes(&buf, 3), 21);
  assert_eq!(count_marked_bytes(&buf, 1), 7);
  assert_eq!(count_marked_bytes(&buf, 0), 0);
}
