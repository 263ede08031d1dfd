use crate::code_table::{
    code_bits, entry_bits, is_coded, lemma_prefix_is_shift, prefix_free, CodeEntry,
};
use crate::error::BrotliError;
use vstd::arithmetic::power2::{
    lemma2_to64, lemma_pow2_adds, lemma_pow2_pos, lemma_pow2_strictly_increases, lemma_pow2_unfold,
    pow2,
};
use vstd::prelude::*;

verus! {

/// How many of the first `n` code lengths equal `len`.
pub open spec fn count_of_length(lengths: Seq<u8>, len: nat, n: nat) -> nat
    decreases n,
{
    if n == 0 {
        0
    } else {
        count_of_length(lengths, len, (n - 1) as nat) + if lengths[n - 1] == len {
            1nat
        } else {
            0nat
        }
    }
}

/// How many symbols have a code of `len` bits. Symbols of length zero carry
/// no code and are not counted.
pub open spec fn coded_count(lengths: Seq<u8>, len: nat) -> nat {
    if len == 0 {
        0
    } else {
        count_of_length(lengths, len, lengths.len())
    }
}

/// The first code of `bits` bits: one past the last code of the length
/// before, with a zero bit appended.
pub open spec fn first_code(lengths: Seq<u8>, bits: nat) -> nat
    decreases bits,
{
    if bits == 0 {
        0
    } else {
        2 * (first_code(lengths, (bits - 1) as nat) + coded_count(lengths, (bits - 1) as nat))
    }
}

/// The code of symbol `i`: codes of one length are handed out in symbol
/// order, starting at the first code of that length.
pub open spec fn canonical_code(lengths: Seq<u8>, i: int) -> nat {
    first_code(lengths, lengths[i] as nat) + count_of_length(lengths, lengths[i] as nat, i as nat)
}

/// The code table that a list of code lengths stands for. A symbol of
/// length zero keeps an all-zero entry.
pub open spec fn canonical_table(lengths: Seq<u8>) -> Seq<CodeEntry> {
    Seq::new(
        lengths.len(),
        |i: int|
            if lengths[i] == 0 {
                (0u16, 0u16, 0u8)
            } else {
                (i as u16, canonical_code(lengths, i) as u16, lengths[i])
            },
    )
}

/// The share of the code space that one code of `len` bits takes up, in
/// units of the space of a code of `max_len` bits.
pub open spec fn code_space(len: nat, max_len: nat) -> nat {
    if len == 0 || len > max_len {
        0
    } else {
        pow2((max_len - len) as nat)
    }
}

/// The code space that the first `n` lengths take up together.
pub open spec fn kraft_sum(lengths: Seq<u8>, max_len: nat, n: nat) -> nat
    decreases n,
{
    if n == 0 {
        0
    } else {
        kraft_sum(lengths, max_len, (n - 1) as nat) + code_space(lengths[n - 1] as nat, max_len)
    }
}

/// No length exceeds `max_len`, and together the lengths do not take up more
/// than the whole code space.
pub open spec fn kraft_ok(lengths: Seq<u8>, max_len: nat) -> bool {
    &&& forall|i: int| 0 <= i < lengths.len() ==> (#[trigger] lengths[i]) <= max_len
    &&& kraft_sum(lengths, max_len, lengths.len()) <= pow2(max_len)
}

/// The space that the codes shorter than `bits` take up among the first `n`
/// symbols, summed length by length.
pub open spec fn space_below(lengths: Seq<u8>, max_len: nat, bits: nat, n: nat) -> nat
    decreases bits,
{
    if bits <= 1 {
        0
    } else {
        space_below(lengths, max_len, (bits - 1) as nat, n) + count_of_length(
            lengths,
            (bits - 1) as nat,
            n,
        ) * pow2((max_len - (bits - 1)) as nat)
    }
}

/// Counts grow with the number of symbols counted.
pub proof fn lemma_count_grows(lengths: Seq<u8>, len: nat, i: nat, n: nat)
    requires
        i <= n,
    ensures
        count_of_length(lengths, len, i) <= count_of_length(lengths, len, n),
    decreases n - i,
{
    if i < n {
        lemma_count_grows(lengths, len, i, (n - 1) as nat);
    }
}

/// The space taken grows with the number of symbols counted.
pub proof fn lemma_kraft_sum_grows(lengths: Seq<u8>, max_len: nat, i: nat, n: nat)
    requires
        i <= n,
    ensures
        kraft_sum(lengths, max_len, i) <= kraft_sum(lengths, max_len, n),
    decreases n - i,
{
    if i < n {
        lemma_kraft_sum_grows(lengths, max_len, i, (n - 1) as nat);
    }
}

/// Changing one length changes the space taken by the difference of the
/// two lengths' shares.
pub proof fn lemma_kraft_sum_update(lengths: Seq<u8>, max_len: nat, n: nat, at: int, len: u8)
    requires
        n <= lengths.len(),
        0 <= at < lengths.len(),
    ensures
        kraft_sum(lengths.update(at, len), max_len, n) == if at < n {
            kraft_sum(lengths, max_len, n) - code_space(lengths[at] as nat, max_len) + code_space(
                len as nat,
                max_len,
            )
        } else {
            kraft_sum(lengths, max_len, n) as int
        },
    decreases n,
{
    if n > 0 {
        lemma_kraft_sum_update(lengths, max_len, (n - 1) as nat, at, len);
    }
}

/// Lengths of zero take up no space.
pub proof fn lemma_kraft_sum_zeros(lengths: Seq<u8>, max_len: nat, n: nat)
    requires
        n <= lengths.len(),
        forall|i: int| 0 <= i < n ==> (#[trigger] lengths[i]) == 0,
    ensures
        kraft_sum(lengths, max_len, n) == 0,
    decreases n,
{
    if n > 0 {
        lemma_kraft_sum_zeros(lengths, max_len, (n - 1) as nat);
    }
}

/// Without symbols no space is taken.
proof fn lemma_space_below_empty(lengths: Seq<u8>, max_len: nat, bits: nat)
    ensures
        space_below(lengths, max_len, bits, 0) == 0,
    decreases bits,
{
    if bits > 1 {
        lemma_space_below_empty(lengths, max_len, (bits - 1) as nat);
        let w = pow2((max_len - (bits - 1)) as nat);
        assert(count_of_length(lengths, (bits - 1) as nat, 0) == 0);
        assert(0 * w == 0) by (nonlinear_arith);
    }
}

/// One more symbol adds its own code space to the space below `bits`, if
/// its code is shorter than `bits`.
proof fn lemma_space_below_next(lengths: Seq<u8>, max_len: nat, bits: nat, n: nat)
    requires
        n > 0,
        bits <= max_len + 1,
    ensures
        space_below(lengths, max_len, bits, n) == space_below(
            lengths,
            max_len,
            bits,
            (n - 1) as nat,
        ) + if 0 < lengths[n - 1] < bits {
            code_space(lengths[n - 1] as nat, max_len)
        } else {
            0
        },
    decreases bits,
{
    if bits > 1 {
        lemma_space_below_next(lengths, max_len, (bits - 1) as nat, n);
        let c = (bits - 1) as nat;
        let w = pow2((max_len - c) as nat);
        let before = count_of_length(lengths, c, (n - 1) as nat);
        if lengths[n - 1] == c {
            assert((before + 1) * w == before * w + w) by (nonlinear_arith);
        }
    }
}

/// Summed symbol by symbol or length by length, the space taken is the same.
proof fn lemma_kraft_by_length(lengths: Seq<u8>, max_len: nat, n: nat)
    requires
        n <= lengths.len(),
        forall|i: int| 0 <= i < lengths.len() ==> (#[trigger] lengths[i]) <= max_len,
    ensures
        kraft_sum(lengths, max_len, n) == space_below(lengths, max_len, max_len + 1, n),
    decreases n,
{
    if n == 0 {
        lemma_space_below_empty(lengths, max_len, max_len + 1);
    } else {
        lemma_kraft_by_length(lengths, max_len, (n - 1) as nat);
        lemma_space_below_next(lengths, max_len, max_len + 1, n);
    }
}

/// The space below a length grows with the length.
proof fn lemma_space_below_grows(lengths: Seq<u8>, max_len: nat, low: nat, high: nat, n: nat)
    requires
        low <= high,
    ensures
        space_below(lengths, max_len, low, n) <= space_below(lengths, max_len, high, n),
    decreases high - low,
{
    if low < high {
        lemma_space_below_grows(lengths, max_len, low, (high - 1) as nat, n);
    }
}

/// The first code of a length, shifted up to `max_len` bits, is the space
/// that all shorter codes take up.
proof fn lemma_first_code_space(lengths: Seq<u8>, max_len: nat, bits: nat)
    requires
        bits <= max_len,
    ensures
        first_code(lengths, bits) * pow2((max_len - bits) as nat) == space_below(
            lengths,
            max_len,
            bits,
            lengths.len(),
        ),
    decreases bits,
{
    let w = pow2((max_len - bits) as nat);
    if bits == 0 {
        assert(0 * w == 0) by (nonlinear_arith);
    } else {
        let prev = (bits - 1) as nat;
        lemma_first_code_space(lengths, max_len, prev);
        let f = first_code(lengths, prev);
        let c = coded_count(lengths, prev);
        lemma_pow2_unfold((max_len - prev) as nat);
        assert(pow2((max_len - prev) as nat) == 2 * w);
        assert(first_code(lengths, bits) == 2 * (f + c));
        assert((2 * (f + c)) * w == f * (2 * w) + c * (2 * w)) by (nonlinear_arith);
        if bits == 1 {
            assert(f == 0);
            assert(c == 0);
            assert((2 * (f + c)) * w == 0) by (nonlinear_arith)
                requires
                    f == 0,
                    c == 0,
            ;
        }
    }
}

/// Where a code sits in the code space: at or after the space of all shorter
/// codes, and its end before the space of all codes up to its own length.
proof fn lemma_code_interval(lengths: Seq<u8>, max_len: nat, i: int)
    requires
        0 <= i < lengths.len(),
        lengths[i] != 0,
        kraft_ok(lengths, max_len),
    ensures
        canonical_code(lengths, i) * code_space(lengths[i] as nat, max_len) >= space_below(
            lengths,
            max_len,
            lengths[i] as nat,
            lengths.len(),
        ),
        (canonical_code(lengths, i) + 1) * code_space(lengths[i] as nat, max_len) <= space_below(
            lengths,
            max_len,
            (lengths[i] + 1) as nat,
            lengths.len(),
        ),
        space_below(lengths, max_len, (lengths[i] + 1) as nat, lengths.len()) <= pow2(max_len),
{
    let len = lengths[i] as nat;
    let n = lengths.len();
    let w = code_space(len, max_len);
    let f = first_code(lengths, len);
    let rank = count_of_length(lengths, len, i as nat);
    let all = count_of_length(lengths, len, n);
    lemma_first_code_space(lengths, max_len, len);
    lemma_count_grows(lengths, len, (i + 1) as nat, n);
    assert(count_of_length(lengths, len, (i + 1) as nat) == rank + 1);
    assert((f + rank) * w == f * w + rank * w) by (nonlinear_arith);
    assert((f + rank + 1) * w <= f * w + all * w) by (nonlinear_arith)
        requires
            rank + 1 <= all,
    ;
    lemma_space_below_grows(lengths, max_len, len + 1, max_len + 1, n);
    lemma_kraft_by_length(lengths, max_len, n);
}

/// Under Kraft's inequality at most `2^len` symbols share the length `len`,
/// and the first code of each length is at most `2^len`.
proof fn lemma_counts_fit(lengths: Seq<u8>, max_len: nat, len: nat)
    requires
        1 <= len <= max_len,
        kraft_ok(lengths, max_len),
    ensures
        first_code(lengths, len) + count_of_length(lengths, len, lengths.len()) <= pow2(len),
{
    let n = lengths.len();
    let f = first_code(lengths, len);
    let c = count_of_length(lengths, len, n);
    let w = pow2((max_len - len) as nat);
    let full = pow2(len);
    lemma_first_code_space(lengths, max_len, len);
    lemma_space_below_grows(lengths, max_len, len + 1, max_len + 1, n);
    lemma_kraft_by_length(lengths, max_len, n);
    lemma_pow2_adds(len, (max_len - len) as nat);
    lemma_pow2_pos((max_len - len) as nat);
    assert(f + c <= full) by (nonlinear_arith)
        requires
            f * w + c * w <= full * w,
            w > 0,
    ;
}

/// **Canonical codes fit their length.** When the lengths respect Kraft's
/// inequality, the code of every symbol is below two to the power of its
/// length.
pub proof fn lemma_canonical_code_fits(lengths: Seq<u8>, max_len: nat, i: int)
    requires
        0 <= i < lengths.len(),
        lengths[i] != 0,
        kraft_ok(lengths, max_len),
    ensures
        canonical_code(lengths, i) < pow2(lengths[i] as nat),
{
    let len = lengths[i] as nat;
    let c = canonical_code(lengths, i);
    let w = pow2((max_len - len) as nat);
    lemma_code_interval(lengths, max_len, i);
    lemma_pow2_adds(len, (max_len - len) as nat);
    lemma_pow2_pos((max_len - len) as nat);
    let full = pow2(len);
    assert(c < full) by (nonlinear_arith)
        requires
            (c + 1) * w <= full * w,
            w > 0,
    ;
}

/// Two different symbols never get codes of which one begins the other.
proof fn lemma_codes_apart(lengths: Seq<u8>, max_len: nat, i: int, j: int)
    requires
        0 <= i < lengths.len(),
        0 <= j < lengths.len(),
        i != j,
        lengths[i] != 0,
        lengths[j] != 0,
        max_len <= 16,
        kraft_ok(lengths, max_len),
    ensures
        !code_bits(canonical_code(lengths, i) as u16, lengths[i] as nat).is_prefix_of(
            code_bits(canonical_code(lengths, j) as u16, lengths[j] as nat),
        ),
{
    let n = lengths.len();
    let li = lengths[i] as nat;
    let lj = lengths[j] as nat;
    let ci = canonical_code(lengths, i);
    let cj = canonical_code(lengths, j);
    lemma_canonical_code_fits(lengths, max_len, i);
    lemma_canonical_code_fits(lengths, max_len, j);
    lemma2_to64();
    if li < 16 {
        lemma_pow2_strictly_increases(li, 16);
    }
    if lj < 16 {
        lemma_pow2_strictly_increases(lj, 16);
    }
    if code_bits(ci as u16, li).is_prefix_of(code_bits(cj as u16, lj)) {
        lemma_prefix_is_shift(ci as u16, li, cj as u16, lj);
        vstd::arithmetic::div_mod::lemma_small_mod(ci, pow2(li));
        vstd::arithmetic::div_mod::lemma_small_mod(cj, pow2(lj));
        if li == lj {
            assert((lj - li) as nat == 0);
            assert(cj / pow2(0) == cj);
            assert(ci == cj);
            if i < j {
                lemma_count_grows(lengths, li, (i + 1) as nat, j as nat);
            } else {
                lemma_count_grows(lengths, li, (j + 1) as nat, i as nat);
            }
            assert(false);
        } else {
            let d = pow2((lj - li) as nat);
            let wj = pow2((max_len - lj) as nat);
            let wi = pow2((max_len - li) as nat);
            lemma_pow2_adds((lj - li) as nat, (max_len - lj) as nat);
            lemma_pow2_pos((lj - li) as nat);
            lemma_pow2_pos((max_len - lj) as nat);
            lemma_code_interval(lengths, max_len, i);
            lemma_code_interval(lengths, max_len, j);
            lemma_space_below_grows(lengths, max_len, li + 1, lj, n);
            assert((ci + 1) * wi <= cj * wj);
            assert((ci + 1) * d <= cj) by (nonlinear_arith)
                requires
                    (ci + 1) * wi <= cj * wj,
                    wi == d * wj,
                    wj > 0,
            ;
            assert(cj / d >= ci + 1) by (nonlinear_arith)
                requires
                    (ci + 1) * d <= cj,
                    d > 0,
            ;
            assert(false);
        }
    }
}

/// **Canonical codes are prefix-free.** For code lengths that respect
/// Kraft's inequality, no code of the canonical table is the beginning of
/// another one.
pub proof fn lemma_canonical_prefix_free(lengths: Seq<u8>, max_len: nat)
    requires
        max_len <= 16,
        kraft_ok(lengths, max_len),
    ensures
        prefix_free(canonical_table(lengths)),
{
    let table = canonical_table(lengths);
    assert forall|i: int, j: int| is_coded(table, i) && is_coded(table, j) && i != j implies !(
    #[trigger] entry_bits(table[i])).is_prefix_of(#[trigger] entry_bits(table[j])) by {
        lemma_codes_apart(lengths, max_len, i, j);
    }
}

/// **Canonical assignment is a function of the lengths.** The same lengths
/// always give the same table.
pub proof fn lemma_canonical_deterministic(first: Seq<u8>, second: Seq<u8>)
    requires
        first == second,
    ensures
        canonical_table(first) == canonical_table(second),
{
}

/// Assigns canonical codes to a list of code lengths: codes of one length
/// are consecutive and go to the symbols in their order, and each length
/// starts where the shorter codes end. Lengths that exceed `max_len`, or
/// that together take up more than the whole code space, are rejected.
pub fn canonical_codes<const N: usize>(lengths: &[u8; N], max_len: u8) -> (r: Result<
    [CodeEntry; N],
    BrotliError,
>)
    requires
        N <= 65536,
        max_len <= 15,
    ensures
        kraft_ok(lengths@, max_len as nat) ==> r is Ok && r->Ok_0@ == canonical_table(lengths@),
        !kraft_ok(lengths@, max_len as nat) ==> r == Err::<[CodeEntry; N], BrotliError>(
            BrotliError::CorruptHistogram,
        ),
{
    let ghost top = max_len as nat;
    let limit: u32 = 1u32 << (max_len as u32);
    proof {
        lemma2_to64();
        if top < 15 {
            lemma_pow2_strictly_increases(top, 15);
        }
        vstd::bits::lemma_u32_shl_is_mul(1u32, max_len as u32);
    }
    let mut used: u32 = 0;
    let mut i: usize = 0;
    while i < N
        invariant
            i <= N,
            N <= 65536,
            max_len <= 15,
            top == max_len as nat,
            limit == pow2(top),
            limit <= 32768,
            used == kraft_sum(lengths@, top, i as nat),
            used <= limit,
            forall|j: int| 0 <= j < i ==> (#[trigger] lengths@[j]) <= max_len,
        decreases N - i,
    {
        let len: u8 = lengths[i];
        if len > max_len {
            return Err(BrotliError::CorruptHistogram);
        }
        if len != 0 {
            let shift: u32 = (max_len - len) as u32;
            proof {
                lemma2_to64();
                if shift < 15 {
                    lemma_pow2_strictly_increases(shift as nat, 15);
                }
                vstd::bits::lemma_u32_shl_is_mul(1u32, shift);
            }
            used += 1u32 << shift;
            if used > limit {
                proof {
                    lemma_kraft_sum_grows(lengths@, top, (i + 1) as nat, N as nat);
                }
                return Err(BrotliError::CorruptHistogram);
            }
        }
        i += 1;
    }
    assert(kraft_ok(lengths@, top));

    let mut bl_count: [u16; 16] = [0;16];
    let mut i: usize = 0;
    while i < N
        invariant
            i <= N,
            max_len <= 15,
            top == max_len as nat,
            kraft_ok(lengths@, top),
            bl_count@[0] == 0,
            forall|c: int| 1 <= c < 16 ==> (#[trigger] bl_count@[c]) == count_of_length(
                lengths@,
                c as nat,
                i as nat,
            ),
        decreases N - i,
    {
        let len: u8 = lengths[i];
        if len != 0 {
            proof {
                lemma_counts_fit(lengths@, top, len as nat);
                lemma_count_grows(lengths@, len as nat, (i + 1) as nat, N as nat);
                lemma2_to64();
                if len < 15 {
                    lemma_pow2_strictly_increases(len as nat, 15);
                }
            }
            bl_count[len as usize] += 1;
        }
        i += 1;
    }

    let mut code: u16 = 0;
    let mut next_code: [u16; 16] = [0;16];
    let mut bits: usize = 1;
    while bits <= max_len as usize
        invariant
            1 <= bits <= max_len + 1,
            max_len <= 15,
            top == max_len as nat,
            kraft_ok(lengths@, top),
            bl_count@[0] == 0,
            forall|c: int| 1 <= c < 16 ==> (#[trigger] bl_count@[c]) == count_of_length(
                lengths@,
                c as nat,
                N as nat,
            ),
            code == first_code(lengths@, (bits - 1) as nat),
            forall|c: int| 1 <= c < bits ==> (#[trigger] next_code@[c]) == first_code(
                lengths@,
                c as nat,
            ),
        decreases max_len + 1 - bits,
    {
        proof {
            lemma_counts_fit(lengths@, top, bits as nat);
            lemma_pow2_unfold(bits as nat);
            lemma2_to64();
            if bits < 15 {
                lemma_pow2_strictly_increases(bits as nat, 15);
            }
            assert(coded_count(lengths@, (bits - 1) as nat) == bl_count@[bits - 1]);
        }
        let sum: u16 = code + bl_count[bits - 1];
        assert(sum << 1 == 2 * sum) by (bit_vector)
            requires
                sum <= 0x4000,
        ;
        code = sum << 1;
        next_code[bits] = code;
        bits += 1;
    }

    let mut table: [CodeEntry; N] = [(0u16, 0u16, 0u8);N];
    let mut symbol: usize = 0;
    while symbol < N
        invariant
            symbol <= N,
            N <= 65536,
            max_len <= 15,
            top == max_len as nat,
            kraft_ok(lengths@, top),
            forall|c: int|
                1 <= c <= max_len ==> (#[trigger] next_code@[c]) == first_code(lengths@, c as nat)
                    + count_of_length(lengths@, c as nat, symbol as nat),
            forall|j: int| 0 <= j < symbol ==> (#[trigger] table@[j]) == canonical_table(lengths@)[j],
            forall|j: int| symbol <= j < N ==> (#[trigger] table@[j]) == (0u16, 0u16, 0u8),
        decreases N - symbol,
    {
        let len: u8 = lengths[symbol];
        if len != 0 {
            proof {
                lemma_canonical_code_fits(lengths@, top, symbol as int);
                lemma2_to64();
                if len < 15 {
                    lemma_pow2_strictly_increases(len as nat, 15);
                }
            }
            let symbol_code: u16 = next_code[len as usize];
            table[symbol] = (symbol as u16, symbol_code, len);
            next_code[len as usize] = symbol_code + 1;
        }
        symbol += 1;
    }
    assert(table@ =~= canonical_table(lengths@));
    Ok(table)
}

} // verus!
