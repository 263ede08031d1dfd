use brotli::bit_reader::BitReader;
use brotli::error::BrotliError;
use brotli::huffman_tree::HuffmanTree;

/// Codes 0, 10, 110, 111 for the symbols 7, 8, 9, 10.
const TABLE: [(u16, u16, u8); 5] = [(7, 0b0, 1), (8, 0b10, 2), (0, 0, 0), (9, 0b110, 3), (10, 0b111, 3)];

#[test]
fn symbols_are_read_one_code_at_a_time() {
    let tree = HuffmanTree::new_huffman_tree(&TABLE);
    // In stream order: 0 | 1,0 | 1,1,0 | 1,1,1 | 0,0,0,0,0,0,0
    let data = [0b1101_1010u8, 0b0000_0001];
    let mut reader = BitReader::new(&data);
    assert_eq!(tree.read_symbol(&mut reader), Ok(7));
    assert_eq!(reader.get_pos(), 1);
    assert_eq!(tree.read_symbol(&mut reader), Ok(8));
    assert_eq!(reader.get_pos(), 3);
    assert_eq!(tree.read_symbol(&mut reader), Ok(9));
    assert_eq!(reader.get_pos(), 6);
    assert_eq!(tree.read_symbol(&mut reader), Ok(10));
    assert_eq!(reader.get_pos(), 9);
    for _ in 0..7 {
        assert_eq!(tree.read_symbol(&mut reader), Ok(7));
    }
    assert!(reader.empty());
}

#[test]
fn a_code_that_ends_with_the_stream_is_read() {
    let tree = HuffmanTree::new_huffman_tree(&TABLE);
    // In stream order: 0,0,0,0,0, 1,1,1
    let data = [0b1110_0000u8];
    let mut reader = BitReader::new(&data);
    for _ in 0..5 {
        assert_eq!(tree.read_symbol(&mut reader), Ok(7));
    }
    assert_eq!(tree.read_symbol(&mut reader), Ok(10));
    assert!(reader.empty());
    assert_eq!(tree.read_symbol(&mut reader), Err(BrotliError::HuffmanTreeNotMatch));
    assert!(reader.empty());
}

#[test]
fn a_stream_that_ends_in_a_code_gives_the_bits_back() {
    let tree = HuffmanTree::new_huffman_tree(&TABLE);
    // In stream order: 0,0,0,0,0,0, 1,1
    let data = [0b1100_0000u8];
    let mut reader = BitReader::new(&data);
    for _ in 0..6 {
        assert_eq!(tree.read_symbol(&mut reader), Ok(7));
    }
    let before = reader.remaining_bits();
    assert_eq!(before, 2);
    assert_eq!(tree.read_symbol(&mut reader), Err(BrotliError::HuffmanTreeNotMatch));
    assert_eq!(reader.remaining_bits(), before);
    assert_eq!(reader.get_pos(), 6);
}

#[test]
fn bits_without_a_code_are_a_mismatch() {
    // Only the codes 00 and 010 exist.
    let table = [(1u16, 0b00u16, 2u8), (2, 0b010, 3)];
    let tree = HuffmanTree::new_huffman_tree(&table);
    // In stream order: 0,0 | 0,1,0 | 0,1,1 ...
    let data = [0b1100_1000u8, 0xFF];
    let mut reader = BitReader::new(&data);
    assert_eq!(tree.read_symbol(&mut reader), Ok(1));
    assert_eq!(tree.read_symbol(&mut reader), Ok(2));
    assert_eq!(reader.get_pos(), 5);
    // 0,1,1 steps onto an empty node with its third bit.
    assert_eq!(tree.read_symbol(&mut reader), Err(BrotliError::HuffmanTreeNotMatch));
    assert_eq!(reader.get_pos(), 8);
    // 1 has no code at all.
    assert_eq!(tree.read_symbol(&mut reader), Err(BrotliError::HuffmanTreeNotMatch));
    assert_eq!(reader.get_pos(), 9);
}

#[test]
fn an_empty_table_matches_nothing() {
    let table: [(u16, u16, u8); 3] = [(0, 0, 0); 3];
    let tree = HuffmanTree::new_huffman_tree(&table);
    let data = [0x00u8];
    let mut reader = BitReader::new(&data);
    assert_eq!(tree.read_symbol(&mut reader), Err(BrotliError::HuffmanTreeNotMatch));
    assert_eq!(reader.get_pos(), 1);
    let nothing: [u8; 0] = [];
    let mut reader = BitReader::new(&nothing);
    assert_eq!(tree.read_symbol(&mut reader), Err(BrotliError::HuffmanTreeNotMatch));
    assert_eq!(reader.get_pos(), 0);
}

#[test]
fn a_single_code_tree() {
    let table = [(0u16, 0u16, 0u8), (42, 0b000, 3)];
    let tree = HuffmanTree::new_huffman_tree(&table);
    let data = [0b0100_0000u8];
    let mut reader = BitReader::new(&data);
    assert_eq!(tree.read_symbol(&mut reader), Ok(42));
    assert_eq!(tree.read_symbol(&mut reader), Ok(42));
    assert_eq!(reader.get_pos(), 6);
    assert_eq!(tree.read_symbol(&mut reader), Err(BrotliError::HuffmanTreeNotMatch));
    assert_eq!(reader.get_pos(), 7);
}

#[test]
fn only_the_low_bits_of_a_code_count() {
    let table = [(5u16, 0xFFF1u16, 4u8), (6, 0b0000, 4)];
    let tree = HuffmanTree::new_huffman_tree(&table);
    // In stream order: 0,0,0,1 | 0,0,0,0
    let data = [0b0000_1000u8];
    let mut reader = BitReader::new(&data);
    assert_eq!(tree.read_symbol(&mut reader), Ok(5));
    assert_eq!(tree.read_symbol(&mut reader), Ok(6));
}

#[test]
fn sixteen_bit_codes() {
    let table = [(1u16, 0x8001u16, 16u8), (2, 0x0000, 1)];
    let tree = HuffmanTree::new_huffman_tree(&table);
    // In stream order: 1, fourteen zeros, 1.
    let data = [0x01u8, 0x80];
    let mut reader = BitReader::new(&data);
    assert_eq!(tree.read_symbol(&mut reader), Ok(1));
    assert!(reader.empty());
}

#[test]
fn tables_that_make_a_tree() {
    assert!(brotli::code_table::is_prefix_code(&TABLE));
    let nothing: [(u16, u16, u8); 0] = [];
    assert!(brotli::code_table::is_prefix_code(&nothing));
    assert!(brotli::code_table::is_prefix_code(&[(0, 0, 0), (0, 0, 0)]));
    assert!(brotli::code_table::is_prefix_code(&[(1, 0x8001, 16), (2, 0, 1)]));
    // Bits above a code's length do not count.
    assert!(brotli::code_table::is_prefix_code(&[(5, 0xFFF1, 4), (6, 0, 4)]));
}

#[test]
fn tables_that_collide() {
    // The same code twice.
    assert!(!brotli::code_table::is_prefix_code(&[(1, 0b10, 2), (2, 0b10, 2)]));
    // 1 begins 10, whichever comes first.
    assert!(!brotli::code_table::is_prefix_code(&[(1, 0b1, 1), (2, 0b10, 2)]));
    assert!(!brotli::code_table::is_prefix_code(&[(2, 0b10, 2), (0, 0, 0), (1, 0b1, 1)]));
    // The same low bits under different high bits.
    assert!(!brotli::code_table::is_prefix_code(&[(1, 0x0010, 4), (2, 0, 4)]));
    // 0101 begins 0101_1111_0000_1111.
    assert!(!brotli::code_table::is_prefix_code(&[(1, 0x5F0F, 16), (2, 0b0101, 4)]));
    // A length above 16.
    assert!(!brotli::code_table::is_prefix_code(&[(1, 0, 17)]));
    assert!(!brotli::code_table::is_prefix_code(&[(1, 0, 1), (2, 1, 255)]));
}
