use crate::canonical::{canonical_table, kraft_ok, lemma_canonical_prefix_free};
use crate::code_table::{
    code_owner, entry_bits, has_code, is_coded, prefix_free, under_code, CodeEntry,
};
use crate::decoder::{decode_stream, StreamOutcome};
use crate::huffman_tree::{decode_one, table_walk, Walk};
use vstd::prelude::*;

verus! {

/// The stream that a sequence of symbols makes: the code of each, one after
/// the other. A symbol is named by its place in the table.
pub open spec fn encode(table: Seq<CodeEntry>, symbols: Seq<int>) -> Seq<bool>
    decreases symbols.len(),
{
    if symbols.len() == 0 {
        Seq::empty()
    } else {
        entry_bits(table[symbols[0]]) + encode(table, symbols.drop_first())
    }
}

/// The values that the table gives for a sequence of its places.
pub open spec fn symbol_values(table: Seq<CodeEntry>, symbols: Seq<int>) -> Seq<u16> {
    Seq::new(symbols.len(), |k: int| table[symbols[k]].0)
}

/// Where the bits from `pos` on begin with the code of entry `i`, a walk
/// that has taken `depth` bits of that code goes on to find the entry's
/// symbol.
proof fn lemma_walk_to_code(
    table: Seq<CodeEntry>,
    bits: Seq<bool>,
    pos: nat,
    i: int,
    depth: nat,
)
    requires
        prefix_free(table),
        is_coded(table, i),
        depth <= table[i].2,
        pos + table[i].2 <= bits.len(),
        bits.subrange(pos as int, pos + table[i].2) == entry_bits(table[i]),
    ensures
        table_walk(table, bits, pos, depth) == (Walk::Symbol {
            symbol: table[i].0,
            end: pos + table[i].2 as nat,
        }),
    decreases table[i].2 - depth,
{
    let code = entry_bits(table[i]);
    let path = bits.subrange(pos as int, (pos + depth) as int);
    assert(path =~= code.subrange(0, depth as int));
    assert(path.is_prefix_of(code));
    if has_code(table, path) {
        let j = code_owner(table, path);
        if j != i {
            assert(entry_bits(table[j]).is_prefix_of(entry_bits(table[i])));
        }
    }
    if depth == table[i].2 {
        assert(path =~= code);
        assert(has_code(table, path));
    } else {
        assert(under_code(table, path));
        lemma_walk_to_code(table, bits, pos, i, depth + 1);
    }
}

/// **Decoding undoes encoding.** From a stream that is made of the codes of
/// a sequence of symbols, one after the other, a table whose codes do not
/// collide decodes exactly those symbols, and uses up the stream.
pub proof fn lemma_round_trip(table: Seq<CodeEntry>, symbols: Seq<int>, bits: Seq<bool>, pos: nat)
    requires
        prefix_free(table),
        forall|k: int| 0 <= k < symbols.len() ==> is_coded(table, #[trigger] symbols[k]),
        pos <= bits.len(),
        bits.subrange(pos as int, bits.len() as int) == encode(table, symbols),
    ensures
        decode_stream(table, bits, pos) == (StreamOutcome {
            symbols: symbol_values(table, symbols),
            end: bits.len(),
        }),
    decreases symbols.len(),
{
    if symbols.len() == 0 {
        assert(symbol_values(table, symbols) =~= Seq::<u16>::empty());
        assert(bits.subrange(pos as int, bits.len() as int).len() == 0);
        assert(pos == bits.len());
    } else {
        let i = symbols[0];
        let rest = symbols.drop_first();
        let code = entry_bits(table[i]);
        let tail = bits.subrange(pos as int, bits.len() as int);
        assert(is_coded(table, i));
        assert(tail.len() == code.len() + encode(table, rest).len());
        let next = pos + code.len();
        assert(bits.subrange(pos as int, next as int) =~= code) by {
            assert forall|k: int| 0 <= k < code.len() implies bits.subrange(
                pos as int,
                next as int,
            )[k] == code[k] by {
                assert(tail[k] == code[k]);
            }
        }
        assert(bits.subrange(next as int, bits.len() as int) =~= encode(table, rest)) by {
            assert forall|k: int| 0 <= k < encode(table, rest).len() implies bits.subrange(
                next as int,
                bits.len() as int,
            )[k] == encode(table, rest)[k] by {
                assert(tail[code.len() + k] == encode(table, rest)[k]);
            }
        }
        lemma_walk_to_code(table, bits, pos, i, 0);
        assert forall|k: int| 0 <= k < rest.len() implies is_coded(table, #[trigger] rest[k]) by {
            assert(rest[k] == symbols[k + 1]);
        }
        lemma_round_trip(table, rest, bits, next);
        assert(decode_one(table, bits, pos) == (Walk::Symbol {
            symbol: table[i].0,
            end: next,
        }));
        assert(symbol_values(table, symbols) =~= seq![table[i].0] + symbol_values(table, rest));
    }
}

/// **Canonical codes decode to their symbols.** For code lengths within
/// Kraft's inequality, no canonical code is the beginning of another, and
/// the stream made of the codes of any sequence of coded symbols decodes to
/// that sequence.
pub proof fn lemma_canonical_round_trip(lengths: Seq<u8>, max_len: nat, symbols: Seq<int>)
    requires
        max_len <= 16,
        lengths.len() <= 65536,
        kraft_ok(lengths, max_len),
        forall|k: int|
            0 <= k < symbols.len() ==> 0 <= #[trigger] symbols[k] < lengths.len()
                && lengths[symbols[k]] != 0,
    ensures
        prefix_free(canonical_table(lengths)),
        decode_stream(
            canonical_table(lengths),
            encode(canonical_table(lengths), symbols),
            0,
        ).symbols == Seq::new(symbols.len(), |k: int| symbols[k] as u16),
        decode_stream(
            canonical_table(lengths),
            encode(canonical_table(lengths), symbols),
            0,
        ).end == encode(canonical_table(lengths), symbols).len(),
{
    let table = canonical_table(lengths);
    let bits = encode(table, symbols);
    lemma_canonical_prefix_free(lengths, max_len);
    assert(bits.subrange(0, bits.len() as int) =~= bits);
    assert forall|k: int| 0 <= k < symbols.len() implies is_coded(table, #[trigger] symbols[k]) by {
        assert(table[symbols[k]].2 == lengths[symbols[k]]);
    }
    lemma_round_trip(table, symbols, bits, 0);
    assert(symbol_values(table, symbols) =~= Seq::new(symbols.len(), |k: int| symbols[k] as u16));
}

} // verus!
