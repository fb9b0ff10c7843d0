use hash_trie::flag::Flag;
use hash_trie::traits::{
    AsUsize, BitContains, BitError, BitIndex, BitInsert, BitRemove, CountOnes, LogB, MaskLogB, NthBit,
};

#[test]
fn bit_operations() {
    assert_eq!(0b110110u32.bit_contains(0b100), Ok(true));
    assert_eq!(0b110110u32.bit_contains(0b1000), Ok(false));
    assert_eq!(0b110110u8.bit_index(0b100), Ok(1));
    assert_eq!(0b10010u16.bit_insert(0b100), Ok(0b10110));
    assert_eq!(0b10110u64.bit_remove(0b100), Ok(0b10010));
    assert_eq!(0b10110u128.count_ones_t(), 3);
    assert_eq!(u32::log_b(), 5);
    assert_eq!(u8::log_b(), 3);
    assert_eq!(u128::log_b(), 7);
    assert_eq!(u32::mask_log_b(), 0b11111);
    assert_eq!(u64::mask_log_b(), 0b111111);
    assert_eq!(u32::nth_bit(4), Ok(0b10000));
    assert_eq!(200u8.as_usize(), 200);
    assert_eq!(usize::nth_bit(3), Ok(8));
}

#[test]
fn bit_errors() {
    // A word that is not a single bit.
    assert_eq!(0b1010u32.bit_contains(0b11), Err(BitError::CountNotEqualToOne));
    assert_eq!(0b1010u32.bit_index(0), Err(BitError::CountNotEqualToOne));
    assert_eq!(0b1010u32.bit_insert(0b101), Err(BitError::CountNotEqualToOne));
    assert_eq!(0b1010u32.bit_remove(0), Err(BitError::CountNotEqualToOne));
    // A bit that should be absent is present, or the other way round.
    assert_eq!(0b1010u32.bit_insert(0b10), Err(BitError::Found));
    assert_eq!(0b1010u32.bit_insert(0b1000), Err(BitError::Found));
    assert_eq!(0b1010u32.bit_remove(0b100), Err(BitError::NotFound));
    assert_eq!(0b1010u32.bit_index(0b1), Err(BitError::NotFound));
    // An index past the word.
    assert_eq!(u32::nth_bit(32), Err(BitError::Range));
    assert_eq!(u8::nth_bit(8), Err(BitError::Range));
}

#[test]
fn bit_insert_remove_inverse() {
    for w in [0u32, 0b1010, 0xffff_0000, 0x8000_0001] {
        for i in 0..32 {
            let bit = u32::nth_bit(i).unwrap();
            match w.bit_insert(bit) {
                Ok(inserted) => {
                    assert_eq!(inserted.count_ones_t(), w.count_ones_t() + 1);
                    assert_eq!(inserted.bit_remove(bit), Ok(w));
                },
                Err(e) => {
                    assert_eq!(e, BitError::Found);
                    assert_eq!(w.bit_remove(bit).unwrap().bit_insert(bit), Ok(w));
                },
            }
        }
    }
}

#[test]
fn flags() {
    let hash: u64 = 0b10110_00011_11111;
    let f = Flag::new(hash);
    assert_eq!(f.hash_value(), hash);
    assert_eq!(f.depth(), 0);
    assert_eq!(f.flag(), 1 << 31);
    let f1 = f.next().unwrap();
    assert_eq!(f1.depth(), 1);
    assert_eq!(f1.flag(), 1 << 3);
    let f2 = f1.next().unwrap();
    assert_eq!(f2.flag(), 1 << 22);
    assert!(Flag::new_at_depth(hash, 13).is_none());
    let last = Flag::new_at_depth(hash, 12).unwrap();
    assert_eq!(last.depth(), 12);
    assert!(last.next().is_none());
    assert_eq!(Flag::new_at_depth(u64::MAX, 12).unwrap().flag(), 1 << 15);
}
