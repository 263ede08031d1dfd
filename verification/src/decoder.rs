use crate::bit_reader::{field_value, lemma_bits_value_bound, BitReader};
use crate::canonical::{
    canonical_codes, canonical_table, code_space, kraft_ok, kraft_sum, lemma_canonical_prefix_free,
    lemma_kraft_sum_update, lemma_kraft_sum_zeros,
};
use crate::code_table::{lengths_fit, prefix_free, CodeEntry};
use crate::error::BrotliError;
use crate::huffman_tree::{decode_one, lemma_decode_one_advances, HuffmanTree, Walk};
use crate::length_state::{lemma_flushed_wf, repeat_step, LengthModel, LengthState};
use crate::{ALPHABET_SIZE_LIMIT, CODE_LENGTH_CODES, CODE_LENGTH_CODE_ORDER};
use vstd::arithmetic::power2::lemma2_to64;
use vstd::prelude::*;

verus! {

/// The symbol whose length stands at place `slot` of the stream.
pub open spec fn slot_symbol(slot: int) -> u8 {
    CODE_LENGTH_CODE_ORDER@[slot]
}

/// The place of the stream at which the length of `symbol` stands.
pub open spec fn symbol_slot(symbol: int) -> int {
    if symbol == 0 {
        4
    } else if symbol <= 4 {
        symbol - 1
    } else if symbol == 5 {
        5
    } else if symbol == 17 {
        6
    } else if symbol == 6 {
        7
    } else if symbol == 16 {
        8
    } else {
        symbol + 2
    }
}

/// Every symbol of the code-length alphabet has one place in the stream.
pub proof fn lemma_slots_are_distinct()
    ensures
        forall|slot: int|
            0 <= slot < 18 ==> 0 <= #[trigger] slot_symbol(slot) < 18 && symbol_slot(
                slot_symbol(slot) as int,
            ) == slot,
{
    assert forall|slot: int| 0 <= slot < 18 implies 0 <= #[trigger] slot_symbol(slot) < 18
        && symbol_slot(slot_symbol(slot) as int) == slot by {
        if slot < 6 {
            if slot < 3 {
            } else {
            }
        } else if slot < 12 {
            if slot < 9 {
            } else {
            }
        } else {
            if slot < 15 {
            } else {
            }
        }
    }
}

/// The length that the next four bits of the stream announce, and the number
/// of those bits that the announcement takes. Read in stream order the
/// patterns are `00` for 0, `1110` for 1, `110` for 2, `01` for 3, `10` for 4
/// and `1111` for 5; `nibble` holds the four bits with the first one lowest.
pub open spec fn length_code(nibble: nat) -> (u8, nat) {
    if nibble % 4 == 0 {
        (0, 2)
    } else if nibble % 4 == 2 {
        (3, 2)
    } else if nibble % 4 == 1 {
        (4, 2)
    } else if nibble % 8 == 3 {
        (2, 3)
    } else if nibble == 7 {
        (1, 4)
    } else {
        (5, 4)
    }
}

/// The state of reading the code-length alphabet's lengths.
pub struct LengthScan {
    /// The length of each of the 18 symbols, zero where none was read yet.
    pub lengths: Seq<u8>,
    /// The code space that is left, out of 32.
    pub space: int,
    /// How many nonzero lengths were read.
    pub num_codes: nat,
    /// The position in the stream.
    pub pos: nat,
    /// The stream ended where four more bits were needed.
    pub starved: bool,
}

/// Reads lengths from place `slot` on, until the last place is done, the
/// code space is used up, or the stream has fewer than four bits left.
pub open spec fn scan_code_lengths(bits: Seq<bool>, slot: nat, s: LengthScan) -> LengthScan
    decreases 18 - slot,
{
    if slot >= 18 || s.space <= 0 {
        s
    } else if s.pos + 4 > bits.len() {
        LengthScan { starved: true, ..s }
    } else {
        let (len, used) = length_code(field_value(bits, s.pos, 4));
        scan_code_lengths(
            bits,
            slot + 1,
            LengthScan {
                lengths: s.lengths.update(slot_symbol(slot as int) as int, len),
                space: s.space - code_space(len as nat, 5),
                num_codes: if len != 0 {
                    s.num_codes + 1
                } else {
                    s.num_codes
                },
                pos: s.pos + used,
                starved: false,
            },
        )
    }
}

/// What decoding a code-length alphabet gives: the lengths or the error,
/// and the position at which the cursor is left.
pub struct LengthsOutcome {
    pub lengths: Result<Seq<u8>, BrotliError>,
    pub end: nat,
}

/// Decodes the lengths of the code-length alphabet from the bits that start
/// at `pos`: two bits tell how many leading places are skipped, then one
/// announcement per place. The lengths must use up the code space exactly,
/// unless there is a single code.
pub open spec fn code_length_outcome(bits: Seq<bool>, pos: nat) -> LengthsOutcome {
    if pos + 2 > bits.len() {
        LengthsOutcome { lengths: Err(BrotliError::NotEnoughBits), end: pos }
    } else {
        let skip = field_value(bits, pos, 2);
        let s = scan_code_lengths(
            bits,
            skip,
            LengthScan {
                lengths: Seq::new(18, |i: int| 0u8),
                space: 32,
                num_codes: 0,
                pos: pos + 2,
                starved: false,
            },
        );
        if s.starved {
            LengthsOutcome { lengths: Err(BrotliError::NotEnoughBits), end: s.pos }
        } else if s.space != 0 && s.num_codes != 1 {
            LengthsOutcome { lengths: Err(BrotliError::CorruptHistogram), end: s.pos }
        } else {
            LengthsOutcome { lengths: Ok(s.lengths), end: s.pos }
        }
    }
}

/// Decodes the code-length alphabet: reads the lengths of its 18 symbols and
/// turns them into a canonical code table. The lengths of a table that is
/// returned respect Kraft's inequality, so its codes do not collide.
pub fn decode_code_length_codes(bit_reader: &mut BitReader) -> (r: Result<
    [CodeEntry; CODE_LENGTH_CODES],
    BrotliError,
>)
    requires
        old(bit_reader).wf(),
    ensures
        final(bit_reader).wf(),
        final(bit_reader).bytes() == old(bit_reader).bytes(),
        final(bit_reader).position() == code_length_outcome(
            old(bit_reader).bits(),
            old(bit_reader).position(),
        ).end,
        match code_length_outcome(old(bit_reader).bits(), old(bit_reader).position()).lengths {
            Ok(lengths) => {
                &&& r is Ok
                &&& r->Ok_0@ == canonical_table(lengths)
                &&& lengths.len() == CODE_LENGTH_CODES
                &&& kraft_ok(lengths, 5)
            },
            Err(e) => r == Err::<[CodeEntry; CODE_LENGTH_CODES], BrotliError>(e),
        },
        r is Ok ==> prefix_free(r->Ok_0@) && lengths_fit(r->Ok_0@),
{
    let ghost bits = bit_reader.bits();
    let ghost start = bit_reader.position();
    let skip: usize = match bit_reader.read_bits(2) {
        Ok(v) => {
            proof {
                lemma_bits_value_bound(old(bit_reader).upcoming(2));
                lemma2_to64();
            }
            v as usize
        },
        Err(e) => {
            return Err(e);
        },
    };
    let mut code_length_code_lengths: [u8; CODE_LENGTH_CODES] = [0;CODE_LENGTH_CODES];
    let mut space: i32 = 32;
    let mut num_codes: u32 = 0;
    let ghost first = LengthScan {
        lengths: Seq::new(18, |i: int| 0u8),
        space: 32,
        num_codes: 0,
        pos: start + 2,
        starved: false,
    };
    proof {
        assert(code_length_code_lengths@ =~= first.lengths);
        lemma_kraft_sum_zeros(first.lengths, 5, 18);
    }

    let mut i: usize = skip;
    while i < CODE_LENGTH_CODES && space > 0
        invariant
            skip <= i <= 18,
            bit_reader.wf(),
            bit_reader.bytes() == old(bit_reader).bytes(),
            bits == bit_reader.bits(),
            start == old(bit_reader).position(),
            start + 2 <= bits.len(),
            skip == field_value(bits, start, 2),
            first == (LengthScan {
                lengths: Seq::new(18, |i: int| 0u8),
                space: 32,
                num_codes: 0,
                pos: start + 2,
                starved: false,
            }),
            num_codes <= i,
            0 <= 32 - space <= 16 * num_codes,
            space == 32 - kraft_sum(code_length_code_lengths@, 5, 18),
            forall|j: int| 0 <= j < 18 ==> (#[trigger] code_length_code_lengths@[j]) <= 5,
            forall|k: int|
                i <= k < 18 ==> code_length_code_lengths@[#[trigger] slot_symbol(k) as int] == 0,
            scan_code_lengths(
                bits,
                i as nat,
                LengthScan {
                    lengths: code_length_code_lengths@,
                    space: space as int,
                    num_codes: num_codes as nat,
                    pos: bit_reader.position(),
                    starved: false,
                },
            ) == scan_code_lengths(bits, skip as nat, first),
        decreases 18 - i,
    {
        let code_len_idx: u8 = CODE_LENGTH_CODE_ORDER[i];
        let code_length_code: u64 = match bit_reader.peek_bits(4) {
            Ok(v) => v,
            Err(e) => {
                return Err(e);
            },
        };
        proof {
            lemma_bits_value_bound(bit_reader.upcoming(4));
            lemma2_to64();
            lemma_slots_are_distinct();
        }
        let (code_length, pos_increment): (u8, usize) = match code_length_code {
            0b0000 | 0b0100 | 0b1000 | 0b1100 => (0, 2),
            0b0111 => (1, 4),
            0b0011 | 0b1011 => (2, 3),
            0b0010 | 0b0110 | 0b1010 | 0b1110 => (3, 2),
            0b0001 | 0b0101 | 0b1001 | 0b1101 => (4, 2),
            _ => (5, 4),
        };
        assert((code_length, pos_increment as nat) == length_code(code_length_code as nat));
        match bit_reader.increase_pos(pos_increment) {
            Ok(_) => {},
            Err(e) => {
                return Err(e);
            },
        }
        proof {
            lemma_kraft_sum_update(
                code_length_code_lengths@,
                5,
                18,
                code_len_idx as int,
                code_length,
            );
            assert(code_len_idx == slot_symbol(i as int));
        }
        code_length_code_lengths[code_len_idx as usize] = code_length;
        if code_length != 0 {
            proof {
                vstd::bits::lemma_u32_shr_is_div(32u32, code_length as u32);
                assert(32u32 >> (code_length as u32) == code_space(code_length as nat, 5));
            }
            space -= (32u32 >> (code_length as u32)) as i32;
            num_codes += 1;
        }
        i += 1;
    }
    if space != 0 && num_codes != 1 {
        return Err(BrotliError::CorruptHistogram);
    }
    proof {
        assert(kraft_ok(code_length_code_lengths@, 5));
        lemma_canonical_prefix_free(code_length_code_lengths@, 5);
    }
    canonical_codes(&code_length_code_lengths, 5)
}

/// How reading the lengths of the data alphabet ends: the state reached or
/// the error, and the position at which the cursor is left.
pub struct RunOutcome {
    pub state: Result<LengthModel, BrotliError>,
    pub end: nat,
}

/// Reads code lengths from `pos` on, in the state `m`, until the stream
/// ends, the code space is used up, or every symbol has a length. Each step
/// decodes one symbol of the code-length alphabet by `table`: a value below
/// 16 is the next length, 16 and 17 are repeat commands followed by their
/// extra bits, and any other value is refused.
pub open spec fn run_lengths(
    table: Seq<CodeEntry>,
    bits: Seq<bool>,
    pos: nat,
    m: LengthModel,
) -> RunOutcome
    decreases bits.len() - pos,
    via run_lengths_terminates
{
    if pos >= bits.len() || m.space <= 0 || m.symbol >= ALPHABET_SIZE_LIMIT {
        RunOutcome { state: Ok(m), end: pos }
    } else {
        match decode_one(table, bits, pos) {
            Walk::Exhausted => RunOutcome {
                state: Err(BrotliError::HuffmanTreeNotMatch),
                end: pos,
            },
            Walk::Unassigned { end } => RunOutcome {
                state: Err(BrotliError::HuffmanTreeNotMatch),
                end,
            },
            Walk::Symbol { symbol, end } => if symbol < 16 {
                match m.with_length(symbol as u8) {
                    None => RunOutcome { state: Err(BrotliError::CorruptHistogram), end },
                    Some(next) => run_lengths(table, bits, end, next),
                }
            } else if symbol <= 17 {
                if m.before_repeat(symbol) is None {
                    RunOutcome { state: Err(BrotliError::CorruptHistogram), end }
                } else if end + repeat_step(symbol) > bits.len() {
                    RunOutcome { state: Err(BrotliError::NotEnoughBits), end }
                } else {
                    run_lengths(
                        table,
                        bits,
                        end + repeat_step(symbol),
                        m.with_repeat(
                            symbol,
                            field_value(bits, end, repeat_step(symbol)),
                        )->Some_0,
                    )
                }
            } else {
                RunOutcome { state: Err(BrotliError::CorruptHistogram), end }
            },
        }
    }
}

#[via_fn]
proof fn run_lengths_terminates(table: Seq<CodeEntry>, bits: Seq<bool>, pos: nat, m: LengthModel) {
    if pos < bits.len() {
        lemma_decode_one_advances(table, bits, pos);
    }
}

/// Decodes the code lengths of the data alphabet from the bits that start
/// at `pos`, with the code-length alphabet `table`. The lengths must use up
/// the code space exactly. A repeat command that is still pending when the
/// reading stops is dropped: its symbols keep the length zero.
pub open spec fn symbol_codes_outcome(table: Seq<CodeEntry>, bits: Seq<bool>, pos: nat) -> LengthsOutcome {
    let run = run_lengths(table, bits, pos, LengthModel::initial());
    match run.state {
        Err(e) => LengthsOutcome { lengths: Err(e), end: run.end },
        Ok(m) => if m.space != 0 {
            LengthsOutcome { lengths: Err(BrotliError::CorruptHistogram), end: run.end }
        } else {
            LengthsOutcome { lengths: Ok(m.lengths), end: run.end }
        },
    }
}

/// Decodes the data alphabet: reads the code length of each of its symbols
/// with the code-length alphabet `code_length_info`, and turns the lengths
/// into a canonical code table. The codes of `code_length_info` must not
/// collide. The lengths of a table that is returned fill the code space
/// exactly, so its codes do not collide.
pub fn decode_symbol_codes(
    bit_reader: &mut BitReader,
    code_length_info: &[CodeEntry; CODE_LENGTH_CODES],
) -> (r: Result<[CodeEntry; ALPHABET_SIZE_LIMIT], BrotliError>)
    requires
        old(bit_reader).wf(),
        lengths_fit(code_length_info@),
        prefix_free(code_length_info@),
    ensures
        final(bit_reader).wf(),
        final(bit_reader).bytes() == old(bit_reader).bytes(),
        final(bit_reader).position() == symbol_codes_outcome(
            code_length_info@,
            old(bit_reader).bits(),
            old(bit_reader).position(),
        ).end,
        match symbol_codes_outcome(
            code_length_info@,
            old(bit_reader).bits(),
            old(bit_reader).position(),
        ).lengths {
            Ok(lengths) => {
                &&& r is Ok
                &&& r->Ok_0@ == canonical_table(lengths)
                &&& lengths.len() == ALPHABET_SIZE_LIMIT
                &&& kraft_ok(lengths, 15)
                &&& kraft_sum(lengths, 15, ALPHABET_SIZE_LIMIT as nat) == 32768
            },
            Err(e) => r == Err::<[CodeEntry; ALPHABET_SIZE_LIMIT], BrotliError>(e),
        },
        r is Ok ==> prefix_free(r->Ok_0@) && lengths_fit(r->Ok_0@),
{
    let tree = HuffmanTree::new_huffman_tree(code_length_info.as_slice());
    let ghost table = code_length_info@;
    let ghost bits = bit_reader.bits();
    let ghost start = bit_reader.position();
    let mut state = LengthState::new();

    while !bit_reader.empty() && state.space() > 0 && state.symbol() < ALPHABET_SIZE_LIMIT
        invariant
            bit_reader.wf(),
            bit_reader.bytes() == old(bit_reader).bytes(),
            bits == bit_reader.bits(),
            bits == old(bit_reader).bits(),
            start == old(bit_reader).position(),
            table == code_length_info@,
            tree.represents(table),
            state.wf(),
            run_lengths(table, bits, bit_reader.position(), state@) == run_lengths(
                table,
                bits,
                start,
                LengthModel::initial(),
            ),
        decreases bit_reader.total_bits() - bit_reader.position(),
    {
        let ghost pos = bit_reader.position();
        let ghost m = state@;
        proof {
            tree.lemma_decodes_table(table, bits, pos);
            lemma_decode_one_advances(table, bits, pos);
            state.lemma_model_wf();
            lemma_flushed_wf(m);
        }
        let code_len: u16 = match tree.read_symbol(bit_reader) {
            Ok(v) => v,
            Err(e) => {
                return Err(e);
            },
        };
        if code_len < 16 {
            match state.push_length(code_len as u8) {
                Ok(_) => {},
                Err(e) => {
                    return Err(e);
                },
            }
        } else if code_len == 16 || code_len == 17 {
            if state.repeat_cmd() != code_len {
                match state.flush_repeat() {
                    Ok(_) => {},
                    Err(e) => {
                        return Err(e);
                    },
                }
            }
            let step: u16 = code_len - 14;
            proof {
                lemma_bits_value_bound(bit_reader.upcoming(step as nat));
                lemma2_to64();
            }
            let extra: u64 = match bit_reader.read_bits(step as u8) {
                Ok(v) => v,
                Err(e) => {
                    return Err(e);
                },
            };
            match state.push_repeat(code_len, extra) {
                Ok(_) => {},
                Err(e) => {
                    return Err(e);
                },
            }
        } else {
            return Err(BrotliError::CorruptHistogram);
        }
    }
    if state.space() != 0 {
        return Err(BrotliError::CorruptHistogram);
    }
    proof {
        state.lemma_model_wf();
        assert(kraft_ok(state@.lengths, 15)) by {
            lemma2_to64();
        }
        lemma_canonical_prefix_free(state@.lengths, 15);
    }
    canonical_codes(state.code_lengths(), 15)
}

/// The symbols of a stream, and the position at which decoding stops.
pub struct StreamOutcome {
    pub symbols: Seq<u16>,
    pub end: nat,
}

/// Decodes symbols by `table` from `pos` on, one after the other, until the
/// stream ends or the next bits spell no code. Bits that run out in the
/// middle of a code are left unread; bits that begin no code are consumed up
/// to the one that shows it.
pub open spec fn decode_stream(table: Seq<CodeEntry>, bits: Seq<bool>, pos: nat) -> StreamOutcome
    decreases bits.len() - pos,
    via decode_stream_terminates
{
    if pos >= bits.len() {
        StreamOutcome { symbols: Seq::empty(), end: pos }
    } else {
        match decode_one(table, bits, pos) {
            Walk::Symbol { symbol, end } => {
                let rest = decode_stream(table, bits, end);
                StreamOutcome { symbols: seq![symbol] + rest.symbols, end: rest.end }
            },
            Walk::Exhausted => StreamOutcome { symbols: Seq::empty(), end: pos },
            Walk::Unassigned { end } => StreamOutcome { symbols: Seq::empty(), end },
        }
    }
}

#[via_fn]
proof fn decode_stream_terminates(table: Seq<CodeEntry>, bits: Seq<bool>, pos: nat) {
    if pos < bits.len() {
        lemma_decode_one_advances(table, bits, pos);
    }
}

/// Decodes the symbol stream: reads symbols with the data alphabet
/// `alphabet_codes_info` until the stream ends or its bits spell no code,
/// which ends the stream without an error. The codes of
/// `alphabet_codes_info` must not collide.
pub fn decode_alphabet_code(
    bit_reader: &mut BitReader,
    alphabet_codes_info: &[CodeEntry; ALPHABET_SIZE_LIMIT],
) -> (r: Result<Vec<u16>, BrotliError>)
    requires
        old(bit_reader).wf(),
        lengths_fit(alphabet_codes_info@),
        prefix_free(alphabet_codes_info@),
    ensures
        final(bit_reader).wf(),
        final(bit_reader).bytes() == old(bit_reader).bytes(),
        r is Ok,
        r->Ok_0@ == decode_stream(
            alphabet_codes_info@,
            old(bit_reader).bits(),
            old(bit_reader).position(),
        ).symbols,
        final(bit_reader).position() == decode_stream(
            alphabet_codes_info@,
            old(bit_reader).bits(),
            old(bit_reader).position(),
        ).end,
{
    let tree = HuffmanTree::new_huffman_tree(alphabet_codes_info.as_slice());
    let ghost table = alphabet_codes_info@;
    let ghost bits = bit_reader.bits();
    let ghost whole = decode_stream(table, bits, bit_reader.position());
    let mut symbols: Vec<u16> = Vec::new();
    while !bit_reader.empty()
        invariant_except_break
            symbols@ + decode_stream(table, bits, bit_reader.position()).symbols
                == whole.symbols,
            decode_stream(table, bits, bit_reader.position()).end == whole.end,
        invariant
            bit_reader.wf(),
            bit_reader.bytes() == old(bit_reader).bytes(),
            bits == bit_reader.bits(),
            tree.represents(table),
        ensures
            symbols@ == whole.symbols,
            bit_reader.position() == whole.end,
        decreases bit_reader.total_bits() - bit_reader.position(),
    {
        let ghost pos = bit_reader.position();
        proof {
            tree.lemma_decodes_table(table, bits, pos);
            lemma_decode_one_advances(table, bits, pos);
        }
        match tree.read_symbol(bit_reader) {
            Ok(symbol) => {
                proof {
                    let rest = decode_stream(table, bits, bit_reader.position());
                    assert(symbols@.push(symbol) + rest.symbols =~= symbols@ + (seq![symbol]
                        + rest.symbols));
                }
                symbols.push(symbol);
            },
            Err(_) => {
                proof {
                    assert(symbols@ + Seq::<u16>::empty() =~= symbols@);
                }
                break ;
            },
        }
    }
    proof {
        assert(symbols@ + Seq::<u16>::empty() =~= symbols@);
    }
    Ok(symbols)
}

} // verus!
