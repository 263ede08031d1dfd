use crate::canonical::{code_space, kraft_sum, lemma_kraft_sum_update, lemma_kraft_sum_zeros};
use crate::error::BrotliError;
use crate::{ALPHABET_SIZE_LIMIT, DEFAULT_CODE_LENGTH};
use vstd::arithmetic::power2::{lemma2_to64, lemma_pow2_pos, lemma_pow2_strictly_increases, pow2};
use vstd::prelude::*;

verus! {

/// The state of decoding the code lengths of the data alphabet, as plain
/// mathematical values.
pub struct LengthModel {
    /// The next symbol to get a length.
    pub symbol: nat,
    /// The length of every symbol of the alphabet; zero where none was set.
    pub lengths: Seq<u8>,
    /// The code space that is left, out of 32768.
    pub space: int,
    /// The last nonzero length that was read.
    pub prev_len: u8,
    /// The pending repeat command: 16, 17, or 0 for none.
    pub repeat_cmd: u16,
    /// How many symbols the pending repeat covers.
    pub repeat_count: nat,
}

/// The number of extra bits that a repeat command reads: 2 for command 16
/// and 3 for command 17.
pub open spec fn repeat_step(cmd: u16) -> nat {
    (cmd - 14) as nat
}

impl LengthModel {
    /// The state before anything was read.
    pub open spec fn initial() -> LengthModel {
        LengthModel {
            symbol: 0,
            lengths: Seq::new(ALPHABET_SIZE_LIMIT as nat, |i: int| 0u8),
            space: 32768,
            prev_len: DEFAULT_CODE_LENGTH,
            repeat_cmd: 0,
            repeat_count: 0,
        }
    }

    /// The lengths cover the alphabet and are set up to `symbol` only, the
    /// space left is what the lengths leave of 32768, and a pending repeat
    /// covers at least three symbols.
    pub open spec fn wf(self) -> bool {
        &&& self.lengths.len() == ALPHABET_SIZE_LIMIT
        &&& self.symbol <= ALPHABET_SIZE_LIMIT
        &&& forall|j: int| self.symbol <= j < ALPHABET_SIZE_LIMIT ==> #[trigger] self.lengths[j] == 0
        &&& forall|j: int| 0 <= j < ALPHABET_SIZE_LIMIT ==> #[trigger] self.lengths[j] <= 15
        &&& self.space == 32768 - kraft_sum(self.lengths, 15, ALPHABET_SIZE_LIMIT as nat)
        &&& 1 <= self.prev_len <= 15
        &&& (self.repeat_cmd == 0 && self.repeat_count == 0) || ((self.repeat_cmd == 16
            || self.repeat_cmd == 17) && self.repeat_count >= 3)
    }

    /// The lengths with `len` written to the next `count` symbols.
    pub open spec fn filled(self, count: nat, len: u8) -> Seq<u8> {
        Seq::new(
            self.lengths.len(),
            |j: int|
                if self.symbol <= j < self.symbol + count {
                    len
                } else {
                    self.lengths[j]
                },
        )
    }

    /// Carries out the pending repeat, if there is one: a repeat of zero
    /// fills its symbols with length 0 at no cost; a repeat of the previous
    /// length fills them with that length and pays for each. `None` when the
    /// run would pass the end of the alphabet.
    pub open spec fn flushed(self) -> Option<LengthModel> {
        if self.repeat_cmd == 0 || self.repeat_count == 0 {
            Some(self)
        } else if self.symbol + self.repeat_count > ALPHABET_SIZE_LIMIT {
            None
        } else if self.repeat_cmd == 17 {
            Some(
                LengthModel {
                    symbol: self.symbol + self.repeat_count,
                    lengths: self.filled(self.repeat_count, 0),
                    repeat_cmd: 0,
                    repeat_count: 0,
                    ..self
                },
            )
        } else {
            Some(
                LengthModel {
                    symbol: self.symbol + self.repeat_count,
                    lengths: self.filled(self.repeat_count, self.prev_len),
                    space: self.space - self.repeat_count * pow2((15 - self.prev_len) as nat),
                    repeat_cmd: 0,
                    repeat_count: 0,
                    ..self
                },
            )
        }
    }

    /// Gives the next symbol the length `len`, after any pending repeat.
    /// `None` when no symbol is left for it.
    pub open spec fn with_length(self, len: u8) -> Option<LengthModel> {
        match self.flushed() {
            None => None,
            Some(f) => if f.symbol >= ALPHABET_SIZE_LIMIT {
                None
            } else {
                Some(
                    LengthModel {
                        symbol: f.symbol + 1,
                        lengths: f.lengths.update(f.symbol as int, len),
                        space: f.space - code_space(len as nat, 15),
                        prev_len: if len != 0 {
                            len
                        } else {
                            f.prev_len
                        },
                        ..f
                    },
                )
            },
        }
    }

    /// What a repeat command finds pending: a repeat of the other kind is
    /// carried out first, one of the same kind stays to be extended.
    pub open spec fn before_repeat(self, cmd: u16) -> Option<LengthModel> {
        if self.repeat_cmd != cmd {
            self.flushed()
        } else {
            Some(self)
        }
    }

    /// The count of a repeat once a command with the value `new_repeat` has
    /// been added to a pending count of `pending`.
    pub open spec fn merged_count(pending: nat, cmd: u16, new_repeat: nat) -> nat {
        if pending != 0 {
            ((pending - 2) * pow2(repeat_step(cmd)) + new_repeat) as nat
        } else {
            new_repeat
        }
    }

    /// Takes in a repeat command whose extra bits spell `extra`.
    pub open spec fn with_repeat(self, cmd: u16, extra: nat) -> Option<LengthModel> {
        match self.before_repeat(cmd) {
            None => None,
            Some(f) => Some(
                LengthModel {
                    repeat_cmd: cmd,
                    repeat_count: Self::merged_count(f.repeat_count, cmd, extra + 3),
                    ..f
                },
            ),
        }
    }
}

/// No code takes more than half of the code space.
proof fn lemma_kraft_sum_bound(lengths: Seq<u8>, n: nat)
    ensures
        kraft_sum(lengths, 15, n) <= n * 16384,
    decreases n,
{
    if n > 0 {
        lemma_kraft_sum_bound(lengths, (n - 1) as nat);
        let len = lengths[n - 1] as nat;
        lemma2_to64();
        if 0 < len <= 15 && len > 1 {
            lemma_pow2_strictly_increases((15 - len) as nat, 14);
        }
    }
}

/// The space left never falls below what a full alphabet of the most costly
/// codes would leave.
proof fn lemma_space_floor(m: LengthModel)
    requires
        m.wf(),
    ensures
        m.space >= 32768 - 256 * 16384,
        m.space <= 32768,
{
    lemma_kraft_sum_bound(m.lengths, ALPHABET_SIZE_LIMIT as nat);
}

/// Writing one length `count` times to unset symbols takes `count` times its
/// share of the code space.
pub proof fn lemma_filled_space(m: LengthModel, count: nat, len: u8)
    requires
        m.lengths.len() == ALPHABET_SIZE_LIMIT,
        m.symbol + count <= ALPHABET_SIZE_LIMIT,
        forall|j: int| m.symbol <= j < ALPHABET_SIZE_LIMIT ==> #[trigger] m.lengths[j] == 0,
    ensures
        kraft_sum(m.filled(count, len), 15, ALPHABET_SIZE_LIMIT as nat) == kraft_sum(
            m.lengths,
            15,
            ALPHABET_SIZE_LIMIT as nat,
        ) + count * code_space(len as nat, 15),
    decreases count,
{
    let w = code_space(len as nat, 15);
    if count == 0 {
        assert(m.filled(0, len) =~= m.lengths);
        assert(0 * w == 0) by (nonlinear_arith);
    } else {
        let fewer = (count - 1) as nat;
        lemma_filled_space(m, fewer, len);
        let at = m.symbol + fewer;
        assert(m.filled(count, len) =~= m.filled(fewer, len).update(at as int, len));
        lemma_kraft_sum_update(m.filled(fewer, len), 15, ALPHABET_SIZE_LIMIT as nat, at as int, len);
        assert(m.filled(fewer, len)[at as int] == 0);
        assert((fewer + 1) * w == fewer * w + w) by (nonlinear_arith);
    }
}

/// Carrying out a repeat keeps a state well formed.
pub proof fn lemma_flushed_wf(m: LengthModel)
    requires
        m.wf(),
    ensures
        m.flushed() is Some ==> m.flushed()->Some_0.wf() && m.flushed()->Some_0.repeat_cmd == 0
            && m.flushed()->Some_0.repeat_count == 0,
{
    if m.flushed() is Some && m.repeat_cmd != 0 {
        let len = if m.repeat_cmd == 17 {
            0u8
        } else {
            m.prev_len
        };
        lemma_filled_space(m, m.repeat_count, len);
        assert(m.repeat_count * code_space(0, 15) == 0) by (nonlinear_arith)
            requires
                code_space(0, 15) == 0,
        ;
    }
}

/// Taking in a length keeps a state well formed.
pub proof fn lemma_with_length_wf(m: LengthModel, len: u8)
    requires
        m.wf(),
        len <= 15,
    ensures
        m.with_length(len) is Some ==> m.with_length(len)->Some_0.wf(),
{
    lemma_flushed_wf(m);
    if m.with_length(len) is Some {
        let f = m.flushed()->Some_0;
        lemma_kraft_sum_update(f.lengths, 15, ALPHABET_SIZE_LIMIT as nat, f.symbol as int, len);
    }
}

/// Taking in a repeat command keeps a state well formed.
pub proof fn lemma_with_repeat_wf(m: LengthModel, cmd: u16, extra: nat)
    requires
        m.wf(),
        cmd == 16 || cmd == 17,
    ensures
        m.with_repeat(cmd, extra) is Some ==> m.with_repeat(cmd, extra)->Some_0.wf(),
{
    lemma_flushed_wf(m);
    if m.with_repeat(cmd, extra) is Some {
        let f = m.before_repeat(cmd)->Some_0;
        lemma_pow2_pos(repeat_step(cmd));
        if f.repeat_count != 0 {
            assert((f.repeat_count - 2) * pow2(repeat_step(cmd)) >= 0) by (nonlinear_arith)
                requires
                    f.repeat_count >= 3,
                    pow2(repeat_step(cmd)) > 0,
            ;
        }
    }
}

/// **Repeats of one kind merge.** Two repeat commands of the same kind in a
/// row, with the values `a` and then `b`, leave one pending run of
/// `(a - 2) * 2^step + b` symbols, where `step` is the number of extra bits
/// of the command; carried out, the run sets that many symbols.
pub proof fn lemma_repeat_merge(m: LengthModel, cmd: u16, a: nat, b: nat)
    requires
        m.wf(),
        m.repeat_cmd == 0,
        cmd == 16 || cmd == 17,
        a >= 3,
        b >= 3,
    ensures
        m.with_repeat(cmd, (a - 3) as nat) is Some,
        m.with_repeat(cmd, (a - 3) as nat)->Some_0.with_repeat(cmd, (b - 3) as nat) is Some,
        ({
            let merged = m.with_repeat(cmd, (a - 3) as nat)->Some_0.with_repeat(
                cmd,
                (b - 3) as nat,
            )->Some_0;
            let count = (a - 2) * pow2(repeat_step(cmd)) + b;
            &&& merged.repeat_count == count
            &&& merged.symbol == m.symbol
            &&& m.symbol + count <= ALPHABET_SIZE_LIMIT ==> merged.flushed() is Some
                && merged.flushed()->Some_0.symbol == m.symbol + count
        }),
{
    lemma_pow2_pos(repeat_step(cmd));
    assert((a - 2) * pow2(repeat_step(cmd)) >= 0) by (nonlinear_arith)
        requires
            a >= 3,
            pow2(repeat_step(cmd)) > 0,
    ;
}

/// The largest pending count that a state keeps exactly. A run this long
/// passes the end of the alphabet whatever symbol it starts at, so the state
/// need not tell longer runs apart.
pub const RUN_CAP: u32 = 65536;

/// The state of decoding the code lengths of the data alphabet.
pub struct LengthState {
    symbol: usize,
    code_lengths: [u8; ALPHABET_SIZE_LIMIT],
    space: i32,
    prev_code_len: u8,
    repeat_cmd: u16,
    repeat_count: u32,
    pending: Ghost<nat>,
}

impl View for LengthState {
    type V = LengthModel;

    closed spec fn view(&self) -> LengthModel {
        LengthModel {
            symbol: self.symbol as nat,
            lengths: self.code_lengths@,
            space: self.space as int,
            prev_len: self.prev_code_len,
            repeat_cmd: self.repeat_cmd,
            repeat_count: self.pending@,
        }
    }
}

impl LengthState {
    /// The state stands for a well-formed model, and the count it holds is
    /// the pending count, held at `RUN_CAP` where that is larger.
    pub closed spec fn wf(&self) -> bool {
        &&& self@.wf()
        &&& self.repeat_count == if self.pending@ <= RUN_CAP {
            self.pending@
        } else {
            RUN_CAP as nat
        }
    }

    /// The state before anything was read.
    pub fn new() -> (r: Self)
        ensures
            r.wf(),
            r@ == LengthModel::initial(),
    {
        let r = LengthState {
            symbol: 0,
            code_lengths: [0;ALPHABET_SIZE_LIMIT],
            space: 32768,
            prev_code_len: DEFAULT_CODE_LENGTH,
            repeat_cmd: 0,
            repeat_count: 0,
            pending: Ghost(0),
        };
        proof {
            assert(r@.lengths =~= LengthModel::initial().lengths);
            lemma_kraft_sum_zeros(r@.lengths, 15, ALPHABET_SIZE_LIMIT as nat);
        }
        r
    }

    /// A well-formed state stands for a well-formed model.
    pub proof fn lemma_model_wf(&self)
        requires
            self.wf(),
        ensures
            self@.wf(),
    {
    }

    /// The next symbol to get a length.
    pub fn symbol(&self) -> (r: usize)
        ensures
            r == self@.symbol,
    {
        self.symbol
    }

    /// The code space that is left.
    pub fn space(&self) -> (r: i32)
        ensures
            r == self@.space,
    {
        self.space
    }

    /// The pending repeat command: 16, 17, or 0 for none.
    pub fn repeat_cmd(&self) -> (r: u16)
        ensures
            r == self@.repeat_cmd,
    {
        self.repeat_cmd
    }

    /// How many symbols the pending repeat covers; `RUN_CAP` stands for
    /// every count from there on.
    pub fn repeat_count(&self) -> (r: u32)
        requires
            self.wf(),
        ensures
            r == if self@.repeat_count <= RUN_CAP {
                self@.repeat_count
            } else {
                RUN_CAP as nat
            },
    {
        self.repeat_count
    }

    /// The lengths set so far, for every symbol of the alphabet.
    pub fn code_lengths(&self) -> (r: &[u8; ALPHABET_SIZE_LIMIT])
        ensures
            r@ == self@.lengths,
    {
        &self.code_lengths
    }

    /// Carries out the pending repeat, if there is one. A run that would
    /// pass the end of the alphabet is refused and leaves the state as it is.
    pub fn flush_repeat(&mut self) -> (r: Result<(), BrotliError>)
        requires
            old(self).wf(),
        ensures
            final(self).wf(),
            match old(self)@.flushed() {
                Some(m) => r == Ok::<(), BrotliError>(()) && final(self)@ == m,
                None => r == Err::<(), BrotliError>(BrotliError::CorruptHistogram) && final(self)@
                    == old(self)@,
            },
    {
        if self.repeat_cmd == 0 || self.repeat_count == 0 {
            return Ok(());
        }
        if self.repeat_count as usize > ALPHABET_SIZE_LIMIT - self.symbol {
            return Err(BrotliError::CorruptHistogram);
        }
        let ghost before = self@;
        proof {
            lemma_flushed_wf(before);
        }
        let count: usize = self.repeat_count as usize;
        let repeat_code_len: u8 = if self.repeat_cmd == 17 {
            0
        } else {
            let shift: u32 = (15 - self.prev_code_len) as u32;
            proof {
                lemma2_to64();
                if shift < 14 {
                    lemma_pow2_strictly_increases(shift as nat, 14);
                }
                assert(self.repeat_count * pow2(shift as nat) <= 256 * 16384) by (nonlinear_arith)
                    requires
                        self.repeat_count <= 256,
                        pow2(shift as nat) <= 16384,
                ;
                vstd::bits::lemma_u32_shl_is_mul(self.repeat_count, shift);
                lemma_space_floor(before);
            }
            self.space -= (self.repeat_count << shift) as i32;
            self.prev_code_len
        };
        let ghost paid = self.space;
        proof {
            assert(self.code_lengths@ =~= before.filled(0, repeat_code_len));
        }
        let mut done: usize = 0;
        while done < count
            invariant
                done <= count,
                self.symbol == before.symbol + done,
                before.symbol + count <= ALPHABET_SIZE_LIMIT,
                self.code_lengths@ == before.filled(done as nat, repeat_code_len),
                before.lengths.len() == ALPHABET_SIZE_LIMIT,
                self.space == paid,
                self.prev_code_len == before.prev_len,
            decreases count - done,
        {
            self.code_lengths[self.symbol] = repeat_code_len;
            self.symbol += 1;
            done += 1;
            proof {
                assert(self.code_lengths@ =~= before.filled(done as nat, repeat_code_len));
            }
        }
        self.repeat_cmd = 0;
        self.repeat_count = 0;
        self.pending = Ghost(0);
        Ok(())
    }

    /// Gives the next symbol the length `code_len`, after carrying out any
    /// pending repeat. Refused when the repeat is, or when no symbol is left.
    pub fn push_length(&mut self, code_len: u8) -> (r: Result<(), BrotliError>)
        requires
            old(self).wf(),
            code_len <= 15,
        ensures
            final(self).wf(),
            match old(self)@.with_length(code_len) {
                Some(m) => r == Ok::<(), BrotliError>(()) && final(self)@ == m,
                None => r == Err::<(), BrotliError>(BrotliError::CorruptHistogram) && final(self)@
                    == match old(self)@.flushed() {
                    Some(f) => f,
                    None => old(self)@,
                },
            },
    {
        proof {
            lemma_with_length_wf(self@, code_len);
        }
        match self.flush_repeat() {
            Ok(_) => {},
            Err(e) => {
                return Err(e);
            },
        }
        if self.symbol >= ALPHABET_SIZE_LIMIT {
            return Err(BrotliError::CorruptHistogram);
        }
        self.code_lengths[self.symbol] = code_len;
        self.symbol += 1;
        if code_len != 0 {
            self.prev_code_len = code_len;
            proof {
                lemma2_to64();
                vstd::bits::lemma_u32_shr_is_div(32768u32, code_len as u32);
                vstd::arithmetic::power2::lemma_pow2_adds(code_len as nat, (15 - code_len) as nat);
                lemma_pow2_pos(code_len as nat);
                vstd::arithmetic::div_mod::lemma_div_by_multiple(
                    pow2((15 - code_len) as nat) as int,
                    pow2(code_len as nat) as int,
                );
                lemma_space_floor(old(self)@.flushed()->Some_0);
                lemma_space_floor(old(self)@.with_length(code_len)->Some_0);
                assert(32768u32 >> (code_len as u32) == code_space(code_len as nat, 15));
            }
            self.space -= (32768u32 >> (code_len as u32)) as i32;
        }
        Ok(())
    }

    /// Takes in the repeat command `cmd`, whose extra bits spell `extra`. A
    /// pending repeat of the other kind is carried out first; one of the same
    /// kind is extended. Refused when the repeat to carry out is.
    pub fn push_repeat(&mut self, cmd: u16, extra: u64) -> (r: Result<(), BrotliError>)
        requires
            old(self).wf(),
            cmd == 16 || cmd == 17,
            cmd == 16 ==> extra < 4,
            cmd == 17 ==> extra < 8,
        ensures
            final(self).wf(),
            match old(self)@.with_repeat(cmd, extra as nat) {
                Some(m) => r == Ok::<(), BrotliError>(()) && final(self)@ == m,
                None => r == Err::<(), BrotliError>(BrotliError::CorruptHistogram) && final(self)@
                    == old(self)@,
            },
    {
        proof {
            lemma_with_repeat_wf(self@, cmd, extra as nat);
            lemma2_to64();
        }
        if self.repeat_cmd != cmd {
            match self.flush_repeat() {
                Ok(_) => {},
                Err(e) => {
                    return Err(e);
                },
            }
        }
        self.repeat_cmd = cmd;
        let step: u32 = (cmd - 14) as u32;
        let new_repeat: u32 = extra as u32 + 3;
        let ghost pending = self.pending@;
        if self.repeat_count != 0 {
            let kept: u32 = self.repeat_count - 2;
            proof {
                assert(kept * pow2(step as nat) <= 65534 * 8) by (nonlinear_arith)
                    requires
                        kept <= 65534,
                        pow2(step as nat) <= 8,
                ;
                vstd::bits::lemma_u32_shl_is_mul(kept, step);
                assert((pending - 2) * pow2(step as nat) >= kept * pow2(step as nat))
                    by (nonlinear_arith)
                    requires
                        pending - 2 >= kept,
                        pow2(step as nat) >= 0,
                ;
                assert(kept * pow2(step as nat) >= kept * 4) by (nonlinear_arith)
                    requires
                        pow2(step as nat) >= 4,
                        kept >= 0,
                ;
            }
            let merged: u32 = (kept << step) + new_repeat;
            self.repeat_count = if merged > RUN_CAP {
                RUN_CAP
            } else {
                merged
            };
        } else {
            self.repeat_count = new_repeat;
        }
        self.pending = Ghost(LengthModel::merged_count(pending, cmd, new_repeat as nat));
        Ok(())
    }
}

} // verus!
