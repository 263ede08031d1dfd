use brotli::bit_reader::BitReader;
use brotli::decoder::{decode_alphabet_code, decode_code_length_codes, decode_symbol_codes};
use brotli::error::BrotliError;
use brotli::{ALPHABET_SIZE_LIMIT, CODE_LENGTH_CODES, CODE_LENGTH_CODE_ORDER, DEFAULT_CODE_LENGTH};

/// A whole stream. The code-length alphabet gives 4 bits to fifteen of its
/// symbols and 5 bits to two; the data alphabet gives `a`, `b`, `c`, `d`
/// the codes 0, 10, 110, 111; the text is `abacabadabacaba`, followed by two
/// 1 bits that fill the last byte.
const TEST_INPUT: [u8; 13] =
    [0x54, 0x55, 0x55, 0x55, 0xFF, 0x87, 0xD3, 0x19, 0x89, 0x59, 0x26, 0x97, 0xC9];

/// The code-length alphabet of `TEST_INPUT` alone.
const HEADER: [u8; 5] = [0x54, 0x55, 0x55, 0x55, 0xFF];

const HEADER_TABLE: [(u16, u16, u8); 18] = [
    (0, 0, 4),
    (1, 1, 4),
    (2, 2, 4),
    (3, 3, 4),
    (4, 4, 4),
    (5, 5, 4),
    (6, 6, 4),
    (7, 7, 4),
    (8, 8, 4),
    (9, 9, 4),
    (10, 10, 4),
    (11, 11, 4),
    (12, 12, 4),
    (13, 30, 5),
    (14, 31, 5),
    (0, 0, 0),
    (16, 13, 4),
    (17, 14, 4),
];

fn coded(table: &[(u16, u16, u8)]) -> Vec<(u16, u16, u8)> {
    let mut out = Vec::new();
    for entry in table {
        if entry.2 != 0 {
            out.push(*entry);
        }
    }
    out
}

#[test]
fn decode() {
    let mut bit_reader = BitReader::new(&TEST_INPUT);
    let code_info = decode_code_length_codes(&mut bit_reader).unwrap();
    assert_eq!(code_info, HEADER_TABLE);
    assert_eq!(bit_reader.get_pos(), 40);
    let alphabet_codes_info = decode_symbol_codes(&mut bit_reader, &code_info).unwrap();
    assert_eq!(
        coded(&alphabet_codes_info),
        vec![(97, 0b0, 1), (98, 0b10, 2), (99, 0b110, 3), (100, 0b111, 3)]
    );
    assert_eq!(bit_reader.get_pos(), 77);
    println!("{}", bit_reader.remaining_bits());
    let symbols = decode_alphabet_code(&mut bit_reader, &alphabet_codes_info).unwrap();
    let text: Vec<u16> = "abacabadabacaba".bytes().map(|b| b as u16).collect();
    assert_eq!(symbols, text);
    assert_eq!(bit_reader.remaining_bits(), 2);
}

#[test]
fn constants() {
    assert_eq!(CODE_LENGTH_CODES, 18);
    assert_eq!(ALPHABET_SIZE_LIMIT, 256);
    assert_eq!(DEFAULT_CODE_LENGTH, 8);
    assert_eq!(CODE_LENGTH_CODE_ORDER, [1, 2, 3, 4, 0, 5, 17, 6, 16, 7, 8, 9, 10, 11, 12, 13, 14, 15]);
}

#[test]
fn code_length_codes_of_a_full_alphabet() {
    let mut reader = BitReader::new(&HEADER);
    let table = decode_code_length_codes(&mut reader).unwrap();
    // The fifteen places that read `01` get 4 bits, the two that read `1111`
    // get 5 bits, and the last place is never read: the space is used up.
    for slot in 0..15 {
        assert_eq!(table[CODE_LENGTH_CODE_ORDER[slot] as usize].2, 4);
    }
    for slot in 15..17 {
        assert_eq!(table[CODE_LENGTH_CODE_ORDER[slot] as usize].2, 5);
    }
    assert_eq!(table[CODE_LENGTH_CODE_ORDER[17] as usize], (0, 0, 0));
    let mut space: i32 = 32;
    for entry in table.iter() {
        if entry.2 != 0 {
            space -= 32 >> entry.2;
        }
    }
    assert_eq!(space, 0);
    assert_eq!(table, HEADER_TABLE);
    assert!(reader.empty());
}

#[test]
fn code_length_codes_skip_leading_places() {
    // Skip 3, then lengths 1, 2, 2 for the symbols 4, 0, 5.
    let data = [0xDFu8, 0x06];
    let mut reader = BitReader::new(&data);
    let table = decode_code_length_codes(&mut reader).unwrap();
    let mut expected = [(0u16, 0u16, 0u8); 18];
    expected[0] = (0, 0b10, 2);
    expected[4] = (4, 0b0, 1);
    expected[5] = (5, 0b11, 2);
    assert_eq!(table, expected);
    assert_eq!(reader.get_pos(), 12);

    // Skip 2, then four times the length 2, for the symbols 3, 4, 0, 5.
    let data = [0x6Eu8, 0xDB];
    let mut reader = BitReader::new(&data);
    let table = decode_code_length_codes(&mut reader).unwrap();
    let mut expected = [(0u16, 0u16, 0u8); 18];
    expected[0] = (0, 0b00, 2);
    expected[3] = (3, 0b01, 2);
    expected[4] = (4, 0b10, 2);
    expected[5] = (5, 0b11, 2);
    assert_eq!(table, expected);
    assert_eq!(reader.get_pos(), 14);
}

#[test]
fn a_single_code_need_not_fill_the_space() {
    // Length 3 for the symbol 1, zero for all others.
    let data = [0x08u8, 0x00, 0x00, 0x00, 0x00];
    let mut reader = BitReader::new(&data);
    let table = decode_code_length_codes(&mut reader).unwrap();
    let mut expected = [(0u16, 0u16, 0u8); 18];
    expected[1] = (1, 0, 3);
    assert_eq!(table, expected);
    assert_eq!(reader.get_pos(), 38);
}

#[test]
fn code_length_codes_without_any_code_are_corrupt() {
    let data = [0u8; 5];
    let mut reader = BitReader::new(&data);
    assert_eq!(decode_code_length_codes(&mut reader), Err(BrotliError::CorruptHistogram));
    assert_eq!(reader.get_pos(), 38);
}

#[test]
fn code_length_codes_that_leave_space_are_corrupt() {
    // Skip 1, then seventeen times the length 5.
    let data = [0xFDu8, 0xFF, 0xFF, 0xFF, 0xFF, 0xFF, 0xFF, 0xFF, 0x3F];
    let mut reader = BitReader::new(&data);
    assert_eq!(decode_code_length_codes(&mut reader), Err(BrotliError::CorruptHistogram));
    assert_eq!(reader.get_pos(), 70);
}

#[test]
fn code_length_codes_that_take_too_much_are_corrupt() {
    // Lengths 1, 2, 1.
    let data = [0xDCu8, 0x0E];
    let mut reader = BitReader::new(&data);
    assert_eq!(decode_code_length_codes(&mut reader), Err(BrotliError::CorruptHistogram));
    assert_eq!(reader.get_pos(), 13);
}

#[test]
fn code_length_codes_need_their_bits() {
    let nothing: [u8; 0] = [];
    let mut reader = BitReader::new(&nothing);
    assert_eq!(decode_code_length_codes(&mut reader), Err(BrotliError::NotEnoughBits));
    assert_eq!(reader.get_pos(), 0);

    let data = [0u8];
    let mut reader = BitReader::new(&data);
    assert_eq!(decode_code_length_codes(&mut reader), Err(BrotliError::NotEnoughBits));
    assert_eq!(reader.get_pos(), 6);
}

fn after_header(data: &[u8]) -> BitReader<'_> {
    let mut reader = BitReader::new(data);
    assert_eq!(decode_code_length_codes(&mut reader), Ok(HEADER_TABLE));
    reader
}

#[test]
fn a_repeat_of_the_previous_length() {
    // Length 2, a repeat of it for 3 symbols, length 0.
    let data = [0x54u8, 0x55, 0x55, 0x55, 0xFF, 0xB4, 0xC0];
    let mut reader = after_header(&data);
    let table = decode_symbol_codes(&mut reader, &HEADER_TABLE).unwrap();
    assert_eq!(coded(&table), vec![(0, 0b00, 2), (1, 0b01, 2), (2, 0b10, 2), (3, 0b11, 2)]);
    assert_eq!(reader.get_pos(), 54);
    assert_eq!(decode_alphabet_code(&mut reader, &table), Ok(vec![3]));
    assert!(reader.empty());
}

#[test]
fn repeats_before_any_length_use_eight() {
    // Four repeats of the previous length that merge into a run of 256,
    // carried out when a repeat of zero follows; that one stays pending.
    let data = [0x54u8, 0x55, 0x55, 0x55, 0xFF, 0xEB, 0xBA, 0x6E, 0x87];
    let mut reader = after_header(&data);
    let table = decode_symbol_codes(&mut reader, &HEADER_TABLE).unwrap();
    for symbol in 0..256 {
        assert_eq!(table[symbol], (symbol as u16, symbol as u16, 8));
    }
    assert_eq!(reader.get_pos(), 71);
    assert_eq!(decode_alphabet_code(&mut reader, &table), Ok(vec![]));
    assert_eq!(reader.get_pos(), 71);
}

#[test]
fn repeats_of_both_kinds_take_turns() {
    // Length 3, 4 zeros, the length 3 six times, 3 zeros, length 3.
    let data = [0x54u8, 0x55, 0x55, 0x55, 0xFF, 0x7C, 0xD9, 0x0F, 0x0C];
    let mut reader = after_header(&data);
    let table = decode_symbol_codes(&mut reader, &HEADER_TABLE).unwrap();
    assert_eq!(
        coded(&table),
        vec![
            (0, 0, 3),
            (5, 1, 3),
            (6, 2, 3),
            (7, 3, 3),
            (8, 4, 3),
            (9, 5, 3),
            (10, 6, 3),
            (14, 7, 3)
        ]
    );
    assert_eq!(reader.get_pos(), 68);
    assert_eq!(decode_alphabet_code(&mut reader, &table), Ok(vec![0]));
    assert_eq!(reader.get_pos(), 71);
}

#[test]
fn a_run_past_the_alphabet_is_corrupt() {
    // Three repeats of zero that merge into a run of 586, then a length.
    let data = [0x54u8, 0x55, 0x55, 0x55, 0xFF, 0xF7, 0xFB, 0x1D, 0xFF];
    let mut reader = after_header(&data);
    assert_eq!(
        decode_symbol_codes(&mut reader, &HEADER_TABLE),
        Err(BrotliError::CorruptHistogram)
    );
    assert_eq!(reader.get_pos(), 65);
}

#[test]
fn a_pending_repeat_at_the_end_of_the_stream_is_dropped() {
    // Lengths 13 and 13, then a repeat of the previous length, and nothing
    // more: the space is not used up.
    let data = [0x54u8, 0x55, 0x55, 0x55, 0xFF, 0xEF, 0x6D];
    let mut reader = after_header(&data);
    assert_eq!(
        decode_symbol_codes(&mut reader, &HEADER_TABLE),
        Err(BrotliError::CorruptHistogram)
    );
    assert!(reader.empty());
}

#[test]
fn lengths_that_end_in_a_code_are_a_mismatch() {
    // Length 1, then four 1 bits of a five-bit code.
    let data = [0x54u8, 0x55, 0x55, 0x55, 0xFF, 0xF8];
    let mut reader = after_header(&data);
    assert_eq!(
        decode_symbol_codes(&mut reader, &HEADER_TABLE),
        Err(BrotliError::HuffmanTreeNotMatch)
    );
    assert_eq!(reader.get_pos(), 44);
}

#[test]
fn a_repeat_needs_its_extra_bits() {
    // Length 0, then a repeat of zero at the very end.
    let data = [0x54u8, 0x55, 0x55, 0x55, 0xFF, 0x70];
    let mut reader = after_header(&data);
    assert_eq!(decode_symbol_codes(&mut reader, &HEADER_TABLE), Err(BrotliError::NotEnoughBits));
    assert_eq!(reader.get_pos(), 48);
}

#[test]
fn oversubscribed_lengths_are_corrupt() {
    // Lengths 1, 2, 1: 16384 + 8192 + 16384 > 32768.
    let data = [0x54u8, 0x55, 0x55, 0x55, 0xFF, 0x48, 0xF8];
    let mut reader = after_header(&data);
    assert_eq!(
        decode_symbol_codes(&mut reader, &HEADER_TABLE),
        Err(BrotliError::CorruptHistogram)
    );
    assert_eq!(reader.get_pos(), 52);
}

#[test]
fn an_empty_stream_has_no_lengths() {
    let nothing: [u8; 0] = [];
    let mut reader = BitReader::new(&nothing);
    assert_eq!(
        decode_symbol_codes(&mut reader, &HEADER_TABLE),
        Err(BrotliError::CorruptHistogram)
    );
}

#[test]
fn a_single_code_alphabet_reads_lengths() {
    let mut single = [(0u16, 0u16, 0u8); 18];
    single[1] = (1, 0, 3);

    let data = [0x00u8];
    let mut reader = BitReader::new(&data);
    let table = decode_symbol_codes(&mut reader, &single).unwrap();
    assert_eq!(coded(&table), vec![(0, 0, 1), (1, 1, 1)]);
    assert_eq!(reader.get_pos(), 6);

    let data = [0x08u8];
    let mut reader = BitReader::new(&data);
    assert_eq!(decode_symbol_codes(&mut reader, &single), Err(BrotliError::HuffmanTreeNotMatch));
    assert_eq!(reader.get_pos(), 4);

    let data = [0x01u8];
    let mut reader = BitReader::new(&data);
    assert_eq!(decode_symbol_codes(&mut reader, &single), Err(BrotliError::HuffmanTreeNotMatch));
    assert_eq!(reader.get_pos(), 1);
}

#[test]
fn a_value_above_seventeen_is_corrupt() {
    let mut odd = [(0u16, 0u16, 0u8); 18];
    odd[0] = (18, 0, 1);
    odd[1] = (1, 1, 1);

    let data = [0x00u8];
    let mut reader = BitReader::new(&data);
    assert_eq!(decode_symbol_codes(&mut reader, &odd), Err(BrotliError::CorruptHistogram));
    assert_eq!(reader.get_pos(), 1);

    let data = [0x03u8];
    let mut reader = BitReader::new(&data);
    let table = decode_symbol_codes(&mut reader, &odd).unwrap();
    assert_eq!(coded(&table), vec![(0, 0, 1), (1, 1, 1)]);
    assert_eq!(reader.get_pos(), 2);
}

#[test]
fn decoding_undoes_encoding() {
    // Lengths 2, 1, 3, 3 give the codes 10, 0, 110, 111.
    let mut table = [(0u16, 0u16, 0u8); 256];
    table[0] = (0, 0b10, 2);
    table[1] = (1, 0b0, 1);
    table[2] = (2, 0b110, 3);
    table[3] = (3, 0b111, 3);
    let symbols: Vec<u16> = vec![3, 1, 0, 2, 2, 1, 1, 0, 3, 3, 0, 1, 2, 1, 1, 0];
    let mut bits: Vec<u8> = Vec::new();
    for s in symbols.iter() {
        let (_, code, len) = table[*s as usize];
        for k in (0..len).rev() {
            bits.push(((code >> k) & 1) as u8);
        }
    }
    assert_eq!(bits.len() % 8, 0);
    let mut data = vec![0u8; bits.len() / 8];
    for (i, b) in bits.iter().enumerate() {
        data[i / 8] |= b << (i % 8);
    }
    let mut reader = BitReader::new(&data);
    assert_eq!(decode_alphabet_code(&mut reader, &table), Ok(symbols));
    assert!(reader.empty());
}

#[test]
fn a_stream_stops_at_bits_without_a_code() {
    let mut table = [(0u16, 0u16, 0u8); 256];
    table[65] = (65, 0b00, 2);
    table[66] = (66, 0b01, 2);
    // In stream order: 0,0 | 0,1 | 1,...
    let data = [0b1111_1000u8];
    let mut reader = BitReader::new(&data);
    assert_eq!(decode_alphabet_code(&mut reader, &table), Ok(vec![65, 66]));
    assert_eq!(reader.get_pos(), 5);
}
