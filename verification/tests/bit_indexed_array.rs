use hash_trie::bit_indexed_array::{new_bit_indexed_array, BitIndexedArray};

#[derive(Clone, Debug, Default, Eq, PartialEq)]
struct Zst {}

fn array(bits: u64, values: Vec<usize>) -> BitIndexedArray<u64, usize, Zst> {
    new_bit_indexed_array(bits, values, Zst {}).unwrap()
}

#[test]
fn bit_indexed_array_sizes_differ() {
    let bits_127: u64 = u64::MAX >> 1;
    assert!(array(0, vec![]).len() < array(0b1, vec![0]).len());
    assert!(array(0b1, vec![0]).len() < array(0b11, vec![0, 1]).len());
    let a126: BitIndexedArray<u128, usize, Zst> = new_bit_indexed_array(u128::MAX >> 2, (0..126).collect(), Zst {}).unwrap();
    let a127: BitIndexedArray<u128, usize, Zst> = new_bit_indexed_array(u128::MAX >> 1, (0..127).collect(), Zst {}).unwrap();
    let a128: BitIndexedArray<u128, usize, Zst> = new_bit_indexed_array(u128::MAX, (0..128).collect(), Zst {}).unwrap();
    assert!(a126.len() < a127.len());
    assert!(a127.len() < a128.len());
    assert_eq!(array(bits_127, (0..63).collect()).len(), 63);
}

#[test]
fn bit_indexed_array_insert() {
    let mut bia: BitIndexedArray<u64, i32, Zst> = new_bit_indexed_array(0b101_u64, vec!(13, 42), Zst{}).unwrap();
    bia = bia.inserted(0b10, 3, Zst{}).unwrap();
    assert_eq!(bia.len(), 3);
    assert_eq!(*bia.at_index(0).unwrap(), 13);
    assert_eq!(*bia.at_index(1).unwrap(), 3);
    assert_eq!(*bia.at_index(2).unwrap(), 42);
    assert!(bia.at_index(3).is_err());
    assert_eq!(*bia.at(0b1).unwrap(), 13);
    assert_eq!(*bia.at(0b10).unwrap(), 3);
    assert_eq!(*bia.at(0b100).unwrap(), 42);
    assert!(bia.at(0b1000).is_err());
    println!("Array: {:?}", bia);
}

#[test]
fn bit_indexed_array_insert_reinsert_failure() {
    let bia: BitIndexedArray<u64, i32, Zst> = new_bit_indexed_array(0b101_u64, vec!(13, 42), Zst{}).unwrap();
    assert!(bia.inserted(0b100, 3, Zst{}).is_err());
}

#[test]
fn bit_indexed_array_insert_multibit_failure() {
    let bia: BitIndexedArray<u64, i32, Zst> = new_bit_indexed_array(0b101_u64, vec!(13, 42), Zst{}).unwrap();
    assert!(bia.inserted(0b1010, 3, Zst{}).is_err());
}

#[test]
fn bit_indexed_array_update() {
    let mut bia: BitIndexedArray<u64, i32, Zst> = new_bit_indexed_array(0b1101_u64, vec!(13, 42, 8), Zst{}).unwrap();
    bia = bia.updated(0b1000, 11, Zst{}).unwrap();
    assert_eq!(bia.len(), 3);
    assert_eq!(*bia.at_index(0).unwrap(), 13);
    assert!(bia.at_index(1).is_err());
    assert_eq!(*bia.at_index(2).unwrap(), 42);
    assert_eq!(*bia.at_index(3).unwrap(), 11);
    assert!(bia.at_index(4).is_err());
    assert_eq!(*bia.at(0b1).unwrap(), 13);
    assert!(bia.at(0b10).is_err());
    assert_eq!(*bia.at(0b100).unwrap(), 42);
    assert_eq!(*bia.at(0b1000).unwrap(), 11);
    assert!(bia.at(0b10000).is_err());
    println!("Array: {:?}", bia);
}

#[test]
fn bit_indexed_array_update_absent_failure() {
    let bia: BitIndexedArray<u64, i32, Zst> = new_bit_indexed_array(0b101_u64, vec!(13, 42), Zst{}).unwrap();
    assert!(bia.updated(0b10, 3, Zst{}).is_err());
}

#[test]
fn bit_indexed_array_update_multibit_failure() {
    let bia: BitIndexedArray<u64, i32, Zst> = new_bit_indexed_array(0b101_u64, vec!(13, 42), Zst{}).unwrap();
    assert!(bia.updated(0b101, 3, Zst{}).is_err());
}

#[test]
fn bit_indexed_array_update_index() {
    let mut bia: BitIndexedArray<u64, i32, Zst> = new_bit_indexed_array(0b1101_u64, vec!(13, 42, 8), Zst{}).unwrap();
    bia = bia.updated_index(2, 11, Zst{}).unwrap();
    assert_eq!(bia.len(), 3);
    assert_eq!(*bia.at_index(0).unwrap(), 13);
    assert!(bia.at_index(1).is_err());
    assert_eq!(*bia.at_index(2).unwrap(), 11);
    assert_eq!(*bia.at_index(3).unwrap(), 8);
    assert!(bia.at_index(4).is_err());
    assert_eq!(*bia.at(0b1).unwrap(), 13);
    assert!(bia.at(0b10).is_err());
    assert_eq!(*bia.at(0b100).unwrap(), 11);
    assert_eq!(*bia.at(0b1000).unwrap(), 8);
    assert!(bia.at(0b10000).is_err());
    println!("Array: {:?}", bia);
}

#[test]
fn bit_indexed_array_update_absent_index_failure() {
    let bia: BitIndexedArray<u64, i32, Zst> = new_bit_indexed_array(0b101_u64, vec!(13, 42), Zst{}).unwrap();
    assert!(bia.updated_index(1, 3, Zst{}).is_err());
}

#[test]
fn bit_indexed_array_remove() {
    let mut bia: BitIndexedArray<u64, i32, Zst> = new_bit_indexed_array(0b1101_u64, vec!(13, 42, 8), Zst{}).unwrap();
    bia = bia.removed(0b1000, Zst{}).unwrap();
    assert_eq!(bia.len(), 2);
    assert_eq!(*bia.at_index(0).unwrap(), 13);
    assert!(bia.at_index(1).is_err());
    assert_eq!(*bia.at_index(2).unwrap(), 42);
    assert!(bia.at_index(3).is_err());
    assert!(bia.at_index(4).is_err());
    assert_eq!(*bia.at(0b1).unwrap(), 13);
    assert!(bia.at(0b10).is_err());
    assert_eq!(*bia.at(0b100).unwrap(), 42);
    assert!(bia.at(0b1000).is_err());
    println!("Array: {:?}", bia);
}

#[test]
fn bit_indexed_array_remove_absent_failure() {
    let bia: BitIndexedArray<u64, i32, Zst> = new_bit_indexed_array(0b1101_u64, vec!(13, 42, 8), Zst{}).unwrap();
    assert!(bia.removed(0b10, Zst{}).is_err());
}

#[test]
fn bit_indexed_array_remove_multibit_failure() {
    let bia: BitIndexedArray<u64, i32, Zst> = new_bit_indexed_array(0b1101_u64, vec!(13, 42, 8), Zst{}).unwrap();
    assert!(bia.removed(0b101, Zst{}).is_err());
}

#[test]
fn bit_indexed_array_insert_remove_index() {
    let bia: BitIndexedArray<u64, i32, Zst> = new_bit_indexed_array(0b101_u64, vec!(13, 42), Zst{}).unwrap();
    let ins = bia.inserted_index(1, 3, Zst{}).unwrap();
    assert_eq!(ins.len(), 3);
    assert_eq!(*ins.at_index(1).unwrap(), 3);
    assert_eq!(*ins.at_index(2).unwrap(), 42);
    assert!(bia.inserted_index(0, 3, Zst{}).is_err());
    assert!(bia.inserted_index(64, 3, Zst{}).is_err());
    let rem = ins.removed_index(0, Zst{}).unwrap();
    assert_eq!(rem.len(), 2);
    assert!(rem.at_index(0).is_err());
    assert_eq!(*rem.at_index(1).unwrap(), 3);
    assert_eq!(*rem.at_index(2).unwrap(), 42);
    assert!(rem.removed_index(0, Zst{}).is_err());
}
