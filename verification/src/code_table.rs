use vstd::arithmetic::div_mod::{lemma_div_denominator, lemma_mod_breakdown};
use vstd::arithmetic::power2::{
    lemma2_to64, lemma_pow2_pos, lemma_pow2_strictly_increases, lemma_pow2_unfold, pow2,
};
use vstd::bits::{lemma_u32_shl_is_mul, lemma_u32_shr_is_div};
use vstd::prelude::*;

verus! {

/// One row of a code table: the symbol, its code, and the code's length in
/// bits. A length of zero marks a symbol that has no code.
pub type CodeEntry = (u16, u16, u8);

/// The low `len` bits of `code`, most significant first: the order in which
/// a code appears in a stream.
pub open spec fn code_bits(code: u16, len: nat) -> Seq<bool> {
    Seq::new(len, |i: int| (code as nat / pow2((len - 1 - i) as nat)) % 2 == 1)
}

/// The bits of an entry's code.
pub open spec fn entry_bits(e: CodeEntry) -> Seq<bool> {
    code_bits(e.1, e.2 as nat)
}

/// Entry `i` of `table` exists and carries a code.
pub open spec fn is_coded(table: Seq<CodeEntry>, i: int) -> bool {
    0 <= i < table.len() && table[i].2 != 0
}

/// No code of the table is the beginning of (or equal to) another one.
pub open spec fn prefix_free(table: Seq<CodeEntry>) -> bool {
    forall|i: int, j: int|
        is_coded(table, i) && is_coded(table, j) && i != j ==> !(#[trigger] entry_bits(
            table[i],
        )).is_prefix_of(#[trigger] entry_bits(table[j]))
}

/// Every code length is at most 16, the width of a code.
pub open spec fn lengths_fit(table: Seq<CodeEntry>) -> bool {
    forall|i: int| 0 <= i < table.len() ==> (#[trigger] table[i]).2 <= 16
}

/// Some entry of the table has exactly the code `path`.
pub open spec fn has_code(table: Seq<CodeEntry>, path: Seq<bool>) -> bool {
    exists|i: int| is_coded(table, i) && #[trigger] entry_bits(table[i]) == path
}

/// An entry of the table whose code is `path`, when there is one.
pub open spec fn code_owner(table: Seq<CodeEntry>, path: Seq<bool>) -> int {
    choose|i: int| is_coded(table, i) && #[trigger] entry_bits(table[i]) == path
}

/// `path` is the beginning of some code of the table, and shorter than it.
pub open spec fn under_code(table: Seq<CodeEntry>, path: Seq<bool>) -> bool {
    exists|i: int|
        is_coded(table, i) && path.len() < table[i].2 && path.is_prefix_of(
            #[trigger] entry_bits(table[i]),
        )
}

/// The number that a run of bits spells when the first bit is the most
/// significant one.
pub open spec fn msb_value(bits: Seq<bool>) -> nat
    decreases bits.len(),
{
    if bits.len() == 0 {
        0
    } else {
        2 * msb_value(bits.drop_last()) + if bits.last() {
            1nat
        } else {
            0nat
        }
    }
}

/// The bits of a code spell the number that its low `len` bits hold.
pub proof fn lemma_code_bits_value(code: u16, len: nat)
    ensures
        msb_value(code_bits(code, len)) == code as nat % pow2(len),
    decreases len,
{
    let bits = code_bits(code, len);
    lemma2_to64();
    if len > 0 {
        let half = (code / 2) as u16;
        let rest = (len - 1) as nat;
        lemma_pow2_unfold(len);
        lemma_pow2_pos(rest);
        assert forall|i: int| 0 <= i < rest implies bits.drop_last()[i] == code_bits(half, rest)[i] by {
            let k = (len - 2 - i) as nat;
            lemma_pow2_unfold(k + 1);
            lemma_pow2_pos(k);
            lemma_div_denominator(code as int, 2, pow2(k) as int);
        }
        assert(bits.drop_last() =~= code_bits(half, rest));
        lemma_code_bits_value(half, rest);
        assert(bits.last() == bits[len - 1]);
        assert((len - 1 - (len - 1)) as nat == 0);
        assert(code as nat / pow2(0) == code as nat);
        assert(bits.last() == (code as nat % 2 == 1));
        lemma_mod_breakdown(code as int, 2, pow2(rest) as int);
    }
}

/// The first `k` bits of a run spell the run's number with the other bits
/// shifted out.
pub proof fn lemma_msb_value_take(bits: Seq<bool>, k: nat)
    requires
        k <= bits.len(),
    ensures
        msb_value(bits.take(k as int)) == msb_value(bits) / pow2((bits.len() - k) as nat),
    decreases bits.len() - k,
{
    lemma2_to64();
    if k == bits.len() {
        assert(bits.take(k as int) =~= bits);
        assert((bits.len() - k) as nat == 0);
        assert(msb_value(bits) / pow2(0) == msb_value(bits));
    } else {
        lemma_msb_value_take(bits, k + 1);
        let longer = bits.take(k + 1 as int);
        assert(longer.drop_last() =~= bits.take(k as int));
        let m = (bits.len() - k - 1) as nat;
        let v = msb_value(bits);
        lemma_pow2_unfold(m + 1);
        lemma_pow2_pos(m);
        lemma_div_denominator(v as int, pow2(m) as int, 2);
        assert(pow2(m) * 2 == pow2(m + 1));
        assert(msb_value(longer) == v / pow2(m));
        assert(msb_value(longer) == 2 * msb_value(longer.drop_last()) + if longer.last() {
            1nat
        } else {
            0nat
        });
        assert(msb_value(bits.take(k as int)) == (v / pow2(m)) / 2);
        assert((bits.len() - k) as nat == m + 1);
        assert((v / pow2(m)) / 2 == v / pow2(m + 1));
    }
}

/// Two runs of bits of one length that spell the same number are the same.
pub proof fn lemma_msb_value_injective(a: Seq<bool>, b: Seq<bool>)
    requires
        a.len() == b.len(),
        msb_value(a) == msb_value(b),
    ensures
        a == b,
    decreases a.len(),
{
    if a.len() > 0 {
        lemma_msb_value_injective(a.drop_last(), b.drop_last());
        assert(a =~= a.drop_last().push(a.last()));
        assert(b =~= b.drop_last().push(b.last()));
    } else {
        assert(a =~= b);
    }
}

/// One code is the beginning of another exactly if it is not longer and its
/// bits are the other's with the extra low bits shifted out.
pub proof fn lemma_prefix_is_shift(short: u16, short_len: nat, long: u16, long_len: nat)
    ensures
        code_bits(short, short_len).is_prefix_of(code_bits(long, long_len)) <==> short_len
            <= long_len && short as nat % pow2(short_len) == (long as nat % pow2(long_len)) / pow2(
            (long_len - short_len) as nat,
        ),
{
    let a = code_bits(short, short_len);
    let b = code_bits(long, long_len);
    lemma_code_bits_value(short, short_len);
    lemma_code_bits_value(long, long_len);
    if short_len <= long_len {
        lemma_msb_value_take(b, short_len);
        assert(b.take(short_len as int) =~= b.subrange(0, short_len as int));
        if msb_value(a) == msb_value(b.take(short_len as int)) {
            lemma_msb_value_injective(a, b.take(short_len as int));
        }
    }
}

/// The low `len` bits of `code`.
fn low_bits(code: u16, len: u8) -> (r: u32)
    requires
        len <= 16,
    ensures
        r == code as nat % pow2(len as nat),
{
    proof {
        lemma2_to64();
        if len < 16 {
            lemma_pow2_strictly_increases(len as nat, 16);
        }
        lemma_u32_shl_is_mul(1u32, len as u32);
    }
    (code as u32) % (1u32 << (len as u32))
}

/// Whether the first code is the beginning of the second one, or equal to it.
fn begins(short: u16, short_len: u8, long: u16, long_len: u8) -> (r: bool)
    requires
        short_len <= 16,
        long_len <= 16,
    ensures
        r == code_bits(short, short_len as nat).is_prefix_of(code_bits(long, long_len as nat)),
{
    proof {
        lemma_prefix_is_shift(short, short_len as nat, long, long_len as nat);
    }
    if short_len > long_len {
        return false;
    }
    let extra: u32 = (long_len - short_len) as u32;
    let long_low: u32 = low_bits(long, long_len);
    proof {
        lemma_u32_shr_is_div(long_low, extra);
    }
    low_bits(short, short_len) == long_low >> extra
}

/// Whether a table can be made into a prefix tree: no length above 16, and
/// no code that is the beginning of another.
pub fn is_prefix_code(table: &[CodeEntry]) -> (ok: bool)
    ensures
        ok == (lengths_fit(table@) && prefix_free(table@)),
{
    let n: usize = table.len();
    let mut k: usize = 0;
    while k < n
        invariant
            k <= n,
            n == table@.len(),
            forall|i: int| 0 <= i < k ==> (#[trigger] table@[i]).2 <= 16,
        decreases n - k,
    {
        if table[k].2 > 16 {
            return false;
        }
        k += 1;
    }
    let mut i: usize = 0;
    while i < n
        invariant
            i <= n,
            n == table@.len(),
            lengths_fit(table@),
            forall|a: int, b: int|
                0 <= a < i && is_coded(table@, a) && is_coded(table@, b) && a != b ==> !(
                #[trigger] entry_bits(table@[a])).is_prefix_of(#[trigger] entry_bits(table@[b])),
        decreases n - i,
    {
        let (_, code, len) = table[i];
        if len != 0 {
            let mut j: usize = 0;
            while j < n
                invariant
                    j <= n,
                    i < n,
                    n == table@.len(),
                    lengths_fit(table@),
                    table@[i as int].1 == code,
                    table@[i as int].2 == len,
                    len != 0,
                    forall|b: int|
                        0 <= b < j && is_coded(table@, b) && i != b ==> !entry_bits(
                            table@[i as int],
                        ).is_prefix_of(#[trigger] entry_bits(table@[b])),
                decreases n - j,
            {
                let (_, other, other_len) = table[j];
                if j != i && other_len != 0 && begins(code, len, other, other_len) {
                    proof {
                        assert(is_coded(table@, i as int) && is_coded(table@, j as int));
                        assert(entry_bits(table@[i as int]).is_prefix_of(
                            entry_bits(table@[j as int]),
                        ));
                    }
                    return false;
                }
                j += 1;
            }
        }
        i += 1;
    }
    true
}

} // verus!
