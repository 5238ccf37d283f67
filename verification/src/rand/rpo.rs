//! A pseudo-random coin over the RPO permutation: it draws the rate elements of
//! the state one by one, permuting the state when they run out.

use vstd::prelude::*;
use crate::felt::{Felt, modulus};
use crate::rescue::{state_seq, STATE_WIDTH};
use crate::rescue::rpo::{Rpo256, rpo_permutation_spec};
use crate::rescue::digest::{RpoDigest, read_felts_spec, ReadFailure, lemma_read_felts_err_stays, out_of_range_message};
use crate::utils::bytes::{le_bytes_spec, le_value, write_u64, write_u8, SliceReader, DeserializationError,
    lemma_le_roundtrip, lemma_le_bytes_len, pow256};

verus! {

/// The first rate element of the state.
pub const RATE_START: usize = 4;
/// One past the last rate element of the state.
pub const RATE_END: usize = 12;

/// One draw from a coin with state `s` at position `c`: the state is permuted
/// first when the rate is used up. Gives the new state, position and value.
pub open spec fn draw_spec(s: Seq<nat>, c: nat) -> (Seq<nat>, nat, nat) {
    if c >= 12 {
        let s2 = rpo_permutation_spec(s);
        (s2, 5, s2[4])
    } else {
        (s, c + 1, s[c as int])
    }
}

/// `n` draws in a row.
pub open spec fn draws_spec(s: Seq<nat>, c: nat, n: nat) -> (Seq<nat>, nat, Seq<nat>)
    decreases n,
{
    if n == 0 {
        (s, c, Seq::empty())
    } else {
        let (s1, c1, vs) = draws_spec(s, c, (n - 1) as nat);
        let (s2, c2, v) = draw_spec(s1, c1);
        (s2, c2, vs.push(v))
    }
}

/// The bytes that fill a buffer of `n` bytes: the low four bytes of each draw,
/// little-endian, cut to `n`.
pub open spec fn fill_spec(draws: Seq<nat>, n: nat) -> Seq<u8> {
    Seq::new(n, |i: int| le_bytes_spec(draws[i / 4] % 0x1_0000_0000, 4)[i % 4])
}

/// The encoding of elements: eight little-endian bytes each.
pub open spec fn felts_bytes(s: Seq<nat>) -> Seq<u8> {
    Seq::new(8 * s.len(), |i: int| le_bytes_spec(s[i / 8], 8)[i % 8])
}

/// The encoding of a coin: its twelve state elements, then its position as a byte.
pub open spec fn coin_bytes(s: Seq<nat>, c: nat) -> Seq<u8> {
    felts_bytes(s).push(c as u8)
}

/// A coin that draws field elements from the rate of an RPO state.
#[derive(Debug, Clone, Copy, PartialEq, Eq)]
pub struct RpoRandomCoin {
    state: [Felt; STATE_WIDTH],
    current: usize,
}

impl RpoRandomCoin {
    /// The state.
    pub closed spec fn state_spec(&self) -> Seq<nat> {
        state_seq(self.state)
    }

    /// The position of the next rate element to draw.
    pub closed spec fn current_spec(&self) -> nat {
        self.current as nat
    }

    /// The position is within the rate or just past it.
    pub closed spec fn wf(&self) -> bool {
        4 <= self.current <= 12
    }

    /// A coin seeded with four elements placed at the start of the rate of a
    /// zero state, which is then permuted.
    pub fn new(seed: [Felt; 4]) -> (r: Self)
        ensures
            r.wf(),
            r.current_spec() == 4,
            r.state_spec() == rpo_permutation_spec(Seq::new(12, |i: int| if 4 <= i < 8 { seed[i - 4]@ } else { 0 })),
    {
        let mut state = [Felt::zero(); STATE_WIDTH];
        let mut i: usize = 0;
        while i < 4
            invariant
                0 <= i <= 4,
                forall|j: int| 0 <= j < 12 ==> #[trigger] state[j]@ == if 4 <= j < 4 + i { seed[j - 4]@ } else { 0 },
            decreases 4 - i,
        {
            seed[i].bound();
            state[RATE_START + i] = state[RATE_START + i].add(seed[i]);
            i = i + 1;
        }
        proof {
            assert(state_seq(state) =~= Seq::new(12, |i: int| if 4 <= i < 8 { seed[i - 4]@ } else { 0 }));
        }
        Rpo256::apply_permutation(&mut state);
        RpoRandomCoin { state, current: RATE_START }
    }

    /// A coin from its state and the position of the next element, which must lie
    /// within the rate.
    pub fn from_parts(state: [Felt; STATE_WIDTH], current: usize) -> (r: Self)
        requires
            4 <= current < 12,
        ensures
            r.wf(),
            r.state_spec() == state_seq(state),
            r.current_spec() == current,
    {
        RpoRandomCoin { state, current }
    }

    /// The state and the position of the next element.
    pub fn into_parts(self) -> (r: ([Felt; STATE_WIDTH], usize))
        ensures
            state_seq(r.0) == self.state_spec(),
            r.1 == self.current_spec(),
    {
        (self.state, self.current)
    }

    /// Draws the next rate element, permuting the state first when the rate is used up.
    pub fn draw_basefield(&mut self) -> (r: Felt)
        requires
            old(self).wf(),
        ensures
            final(self).wf(),
            (final(self).state_spec(), final(self).current_spec(), r@)
                == draw_spec(old(self).state_spec(), old(self).current_spec()),
    {
        if self.current == RATE_END {
            Rpo256::apply_permutation(&mut self.state);
            self.current = RATE_START;
        }
        self.current = self.current + 1;
        self.state[self.current - 1]
    }

    /// Draws a field element.
    pub fn draw_element(&mut self) -> (r: Felt)
        requires
            old(self).wf(),
        ensures
            final(self).wf(),
            (final(self).state_spec(), final(self).current_spec(), r@)
                == draw_spec(old(self).state_spec(), old(self).current_spec()),
    {
        self.draw_basefield()
    }

    /// Draws four field elements.
    pub fn draw_word(&mut self) -> (r: [Felt; 4])
        requires
            old(self).wf(),
        ensures
            final(self).wf(),
            (final(self).state_spec(), final(self).current_spec(), Seq::new(4, |i: int| r[i]@))
                == draws_spec(old(self).state_spec(), old(self).current_spec(), 4),
    {
        let mut out = [Felt::zero(); 4];
        let mut i: usize = 0;
        while i < 4
            invariant
                0 <= i <= 4,
                self.wf(),
                (self.state_spec(), self.current_spec(), Seq::new(i as nat, |j: int| out[j]@))
                    == draws_spec(old(self).state_spec(), old(self).current_spec(), i as nat),
            decreases 4 - i,
        {
            let ghost prev = Seq::new(i as nat, |j: int| out[j]@);
            out[i] = self.draw_basefield();
            proof {
                assert(Seq::new((i + 1) as nat, |j: int| out[j]@) =~= prev.push(out[i as int]@));
            }
            i = i + 1;
        }
        out
    }

    /// Absorbs a digest: adds it to the start of the rate, permutes, and restarts
    /// the draws at the start of the rate.
    pub fn reseed(&mut self, data: RpoDigest)
        requires
            old(self).wf(),
        ensures
            final(self).wf(),
            final(self).current_spec() == 4,
            final(self).state_spec() == rpo_permutation_spec(Seq::new(12, |i: int|
                if 4 <= i < 8 { (old(self).state_spec()[i] + data@[i - 4]) % modulus() } else { old(self).state_spec()[i] })),
    {
        self.current = RATE_START;
        let d = data.as_elements();
        let ghost s0 = state_seq(self.state);
        let mut i: usize = 0;
        while i < 4
            invariant
                0 <= i <= 4,
                d@.len() == 4,
                forall|j: int| 0 <= j < 4 ==> #[trigger] d@[j]@ == data@[j],
                forall|j: int| 0 <= j < 12 ==> #[trigger] self.state[j]@ == if 4 <= j < 4 + i {
                    (s0[j] + data@[j - 4]) % modulus() } else { s0[j] },
                self.current == 4,
            decreases 4 - i,
        {
            self.state[RATE_START + i] = self.state[RATE_START + i].add(d[i]);
            i = i + 1;
        }
        proof {
            assert(state_seq(self.state) =~= Seq::new(12, |i: int|
                if 4 <= i < 8 { (s0[i] + data@[i - 4]) % modulus() } else { s0[i] }));
        }
        Rpo256::apply_permutation(&mut self.state);
    }

    /// The low 32 bits of the next element drawn.
    pub fn next_u32(&mut self) -> (r: u32)
        requires
            old(self).wf(),
        ensures
            final(self).wf(),
            (final(self).state_spec(), final(self).current_spec(), r as nat)
                == ({ let (s, c, v) = draw_spec(old(self).state_spec(), old(self).current_spec()); (s, c, v % 0x1_0000_0000) }),
    {
        let v = self.draw_basefield().as_int();
        assert(v as u32 == v % 0x1_0000_0000) by (bit_vector);
        v as u32
    }

    /// Two draws: the low 32 bits of the first, then of the second as the high half.
    pub fn next_u64(&mut self) -> (r: u64)
        requires
            old(self).wf(),
        ensures
            final(self).wf(),
            ({
                let (s, c, vs) = draws_spec(old(self).state_spec(), old(self).current_spec(), 2);
                &&& final(self).state_spec() == s
                &&& final(self).current_spec() == c
                &&& r == (vs[0] % 0x1_0000_0000) + (vs[1] % 0x1_0000_0000) * 0x1_0000_0000
            }),
    {
        proof {
            lemma_draws_two(self.state_spec(), self.current_spec(), 0);
        }
        let x = self.next_u32() as u64;
        let y = self.next_u32() as u64;
        assert((y << 32u64) | x == x + y * 0x1_0000_0000) by (bit_vector)
            requires
                x < 0x1_0000_0000,
                y < 0x1_0000_0000,
        ;
        (y << 32u64) | x
    }

    /// Fills `dest` with the low four bytes of each draw, little-endian: eight
    /// bytes at a time from two draws, and the last one to seven bytes from one
    /// or two draws.
    pub fn fill_bytes(&mut self, dest: &mut Vec<u8>)
        requires
            old(self).wf(),
        ensures
            final(self).wf(),
            ({
                let n = old(dest)@.len();
                let (s, c, vs) = draws_spec(old(self).state_spec(), old(self).current_spec(), (n + 3) / 4);
                &&& final(self).state_spec() == s
                &&& final(self).current_spec() == c
                &&& final(dest)@ == fill_spec(vs, n)
            }),
    {
        let n = dest.len();
        let ghost s0 = self.state_spec();
        let ghost c0 = self.current_spec();
        let mut out: Vec<u8> = Vec::new();
        let mut k: usize = 0;
        while n - out.len() >= 8
            invariant
                self.wf(),
                out@.len() == 8 * k,
                8 * k <= n,
                ({
                    let (s, c, vs) = draws_spec(s0, c0, 2 * k as nat);
                    &&& self.state_spec() == s
                    &&& self.current_spec() == c
                    &&& out@ == fill_spec(vs, 8 * k as nat)
                }),
            decreases n - out@.len(),
        {
            let ghost vs0 = draws_spec(s0, c0, 2 * k as nat).2;
            let ghost sk = self.state_spec();
            let ghost ck = self.current_spec();
            proof {
                lemma_draws_two(s0, c0, 2 * k as nat);
                lemma_draws_two(sk, ck, 0);
                lemma_draws_step(s0, c0, 2 * k as nat);
                lemma_draws_step(s0, c0, 2 * k as nat + 1);
            }
            let v = self.next_u64();
            let ghost vs = draws_spec(s0, c0, 2 * k as nat + 2).2;
            proof {
                assert(vs.take(2 * k as int) =~= vs0);
                lemma_chunk_bytes(vs, 2 * k as nat, v, le_bytes_spec(v as nat, 8));
                lemma_fill_prefix(vs0, vs, 8 * k as nat);
            }
            let chunk = crate::utils::bytes::u64_to_le_bytes(v);
            let mut j: usize = 0;
            while j < 8
                invariant
                    0 <= j <= 8,
                    out@.len() == 8 * k + j,
                    forall|i: int| 0 <= i < 8 * k ==> #[trigger] out@[i] == fill_spec(vs0, 8 * k as nat)[i],
                    forall|i: int| 0 <= i < j ==> #[trigger] out@[8 * k + i] == chunk@[i],
                decreases 8 - j,
            {
                out.push(chunk[j]);
                j = j + 1;
            }
            proof {
                assert forall|i: int| 0 <= i < 8 * k + 8 implies #[trigger] out@[i] == fill_spec(vs, 8 * k as nat + 8)[i] by {
                    if i < 8 * k {
                        assert(fill_spec(vs0, 8 * k as nat)[i] == fill_spec(vs, 8 * k as nat)[i]);
                    } else {
                        assert(out@[8 * k + (i - 8 * k)] == chunk@[i - 8 * k]);
                    }
                }
                assert(out@ =~= fill_spec(vs, 8 * k as nat + 8));
            }
            k = k + 1;
        }
        let rest = n - out.len();
        let ghost vsk = draws_spec(s0, c0, 2 * k as nat).2;
        let ghost sk = self.state_spec();
        let ghost ck = self.current_spec();
        if rest > 4 {
            proof {
                lemma_draws_two(s0, c0, 2 * k as nat);
                lemma_draws_two(sk, ck, 0);
                lemma_draws_step(s0, c0, 2 * k as nat);
                lemma_draws_step(s0, c0, 2 * k as nat + 1);
            }
            let v = self.next_u64();
            let ghost vs = draws_spec(s0, c0, 2 * k as nat + 2).2;
            proof {
                assert(vs.take(2 * k as int) =~= vsk);
                lemma_chunk_bytes(vs, 2 * k as nat, v, le_bytes_spec(v as nat, 8));
                lemma_fill_prefix(vsk, vs, 8 * k as nat);
            }
            let chunk = crate::utils::bytes::u64_to_le_bytes(v);
            let mut j: usize = 0;
            while j < rest
                invariant
                    0 <= j <= rest,
                    rest < 8,
                    out@.len() == 8 * k + j,
                    forall|i: int| 0 <= i < 8 * k ==> #[trigger] out@[i] == fill_spec(vsk, 8 * k as nat)[i],
                    forall|i: int| 0 <= i < j ==> #[trigger] out@[8 * k + i] == chunk@[i],
                decreases rest - j,
            {
                out.push(chunk[j]);
                j = j + 1;
            }
            proof {
                assert((n + 3) / 4 == 2 * k + 2);
                assert forall|i: int| 0 <= i < n implies #[trigger] out@[i] == fill_spec(vs, n as nat)[i] by {
                    if i < 8 * k {
                        assert(fill_spec(vsk, 8 * k as nat)[i] == fill_spec(vs, 8 * k as nat)[i]);
                    } else {
                        assert(out@[8 * k + (i - 8 * k)] == chunk@[i - 8 * k]);
                        assert(fill_spec(vs, 8 * k as nat + 8)[i] == fill_spec(vs, n as nat)[i]);
                    }
                }
                assert(out@ =~= fill_spec(vs, n as nat));
            }
        } else if rest > 0 {
            proof {
                lemma_draws_step(s0, c0, 2 * k as nat);
            }
            let v = self.next_u32();
            let ghost vs = draws_spec(s0, c0, 2 * k as nat + 1).2;
            proof {
                assert(vs.take(2 * k as int) =~= vsk);
                lemma_fill_prefix(vsk, vs, 8 * k as nat);
            }
            let chunk = crate::utils::bytes::u32_to_le_bytes(v);
            let mut j: usize = 0;
            while j < rest
                invariant
                    0 <= j <= rest,
                    rest <= 4,
                    out@.len() == 8 * k + j,
                    forall|i: int| 0 <= i < 8 * k ==> #[trigger] out@[i] == fill_spec(vsk, 8 * k as nat)[i],
                    forall|i: int| 0 <= i < j ==> #[trigger] out@[8 * k + i] == chunk@[i],
                decreases rest - j,
            {
                out.push(chunk[j]);
                j = j + 1;
            }
            proof {
                assert((n + 3) / 4 == 2 * k + 1);
                assert forall|i: int| 0 <= i < n implies #[trigger] out@[i] == fill_spec(vs, n as nat)[i] by {
                    if i < 8 * k {
                        assert(fill_spec(vsk, 8 * k as nat)[i] == fill_spec(vs, 8 * k as nat)[i]);
                    } else {
                        assert(out@[8 * k + (i - 8 * k)] == chunk@[i - 8 * k]);
                        assert((i / 4) == 2 * k);
                        assert(i % 4 == i - 8 * k);
                    }
                }
                assert(out@ =~= fill_spec(vs, n as nat));
            }
        } else {
            proof {
                assert((n + 3) / 4 == 2 * k);
            }
        }
        *dest = out;
    }

    /// Appends the twelve state elements, eight little-endian bytes each, then
    /// the position as one byte.
    pub fn write_into(&self, target: &mut Vec<u8>)
        requires
            self.wf(),
        ensures
            final(target)@ == old(target)@ + coin_bytes(self.state_spec(), self.current_spec()),
            forall|i: int| 0 <= i < 12 ==> #[trigger] self.state_spec()[i] < modulus(),
    {
        let ghost start = target@;
        let mut i: usize = 0;
        while i < STATE_WIDTH
            invariant
                0 <= i <= 12,
                target@ == start + felts_bytes(self.state_spec().take(i as int)),
                forall|j: int| 0 <= j < i ==> #[trigger] self.state_spec()[j] < modulus(),
            decreases 12 - i,
        {
            let ghost before = target@;
            write_u64(target, self.state[i].as_int());
            proof {
                lemma_le_bytes_len(self.state_spec()[i as int], 8);
                assert(felts_bytes(self.state_spec().take(i + 1)) =~= felts_bytes(self.state_spec().take(i as int))
                    + le_bytes_spec(self.state_spec()[i as int], 8));
            }
            i = i + 1;
        }
        write_u8(target, self.current as u8);
        assert(self.state_spec().take(12) =~= self.state_spec());
        assert(target@ =~= start + coin_bytes(self.state_spec(), self.current_spec()));
    }

    /// The encoding of the coin.
    pub fn to_bytes(&self) -> (r: Vec<u8>)
        requires
            self.wf(),
        ensures
            r@ == coin_bytes(self.state_spec(), self.current_spec()),
            self.state_spec().len() == 12,
            forall|i: int| 0 <= i < 12 ==> #[trigger] self.state_spec()[i] < modulus(),
    {

        let mut r: Vec<u8> = Vec::new();
        self.write_into(&mut r);
        assert(r@ =~= coin_bytes(self.state_spec(), self.current_spec()));
        r
    }

    /// Reads twelve elements, each below the modulus, then a position, which must
    /// lie within the rate.
    pub fn read_from(source: &mut SliceReader) -> (r: Result<Self, DeserializationError>)
        requires
            old(source).wf(),
        ensures
            final(source).wf(),
            final(source).data() == old(source).data(),
            ({
                let data = old(source).data();
                let pos = old(source).position() as int;
                match read_felts_spec(data, pos, 12) {
                    Err(ReadFailure::Eof) => r == Err::<Self, DeserializationError>(DeserializationError::UnexpectedEOF),
                    Err(ReadFailure::OutOfRange) => r matches Err(DeserializationError::InvalidValue(_)),
                    Ok(s) => if pos + 96 >= data.len() {
                        r == Err::<Self, DeserializationError>(DeserializationError::UnexpectedEOF)
                    } else if 4 <= data[pos + 96] < 12 {
                        r matches Ok(c) && c.wf() && c.state_spec() == s && c.current_spec() == data[pos + 96]
                    } else {
                        r matches Err(DeserializationError::InvalidValue(_))
                    },
                }
            }),
    {
        let ghost data = source.data();
        let ghost pos = source.position() as int;
        let mut e = [Felt::zero(); STATE_WIDTH];
        let mut i: usize = 0;
        assert(Seq::new(0, |j: int| e[j]@) =~= Seq::<nat>::empty());
        while i < 12
            invariant
                0 <= i <= 12,
                source.wf(),
                data == old(source).data(),
                pos == old(source).position() as int,
                source.data() == data,
                source.position() == pos + 8 * i,
                read_felts_spec(data, pos, i as nat) == Ok::<Seq<nat>, ReadFailure>(Seq::new(i as nat, |j: int| e[j]@)),
            decreases 12 - i,
        {
            let ghost prev = Seq::new(i as nat, |j: int| e[j]@);
            let v = match source.read_u64() {
                Ok(v) => v,
                Err(err) => {
                    assert(read_felts_spec(data, pos, (i + 1) as nat) == Err::<Seq<nat>, ReadFailure>(ReadFailure::Eof));
                    proof { lemma_read_felts_err_stays(data, pos, (i + 1) as nat, 12); }
                    return Err(err);
                },
            };
            if v >= crate::felt::MODULUS {
                assert(read_felts_spec(data, pos, (i + 1) as nat) == Err::<Seq<nat>, ReadFailure>(ReadFailure::OutOfRange));
                proof { lemma_read_felts_err_stays(data, pos, (i + 1) as nat, 12); }
                return Err(DeserializationError::InvalidValue(out_of_range_message()));
            }
            e[i] = Felt::new(v);
            proof {
                assert(Seq::new((i + 1) as nat, |j: int| e[j]@) =~= prev.push(v as nat));
            }
            i = i + 1;
        }
        let current = match source.read_u8() {
            Ok(b) => b as usize,
            Err(err) => return Err(err),
        };
        if current < RATE_START || current >= RATE_END {
            return Err(DeserializationError::InvalidValue(current_range_message()));
        }
        let c = RpoRandomCoin { state: e, current };
        assert(c.state_spec() =~= Seq::new(12, |j: int| e[j]@));
        Ok(c)
    }

    /// Reads a coin from the start of `bytes`.
    pub fn read_from_bytes(bytes: &[u8]) -> (r: Result<Self, DeserializationError>)
        ensures
            forall|s: Seq<nat>, c: nat| #![trigger coin_bytes(s, c)]
                bytes@ == coin_bytes(s, c) && s.len() == 12 && 4 <= c < 12
                && (forall|i: int| 0 <= i < 12 ==> #[trigger] s[i] < modulus())
                ==> (r matches Ok(coin) && coin.state_spec() == s && coin.current_spec() == c),
    {
        let mut reader = SliceReader::new(bytes);
        let r = Self::read_from(&mut reader);
        proof {
            assert forall|s: Seq<nat>, c: nat| #![trigger coin_bytes(s, c)]
                bytes@ == coin_bytes(s, c) && s.len() == 12 && 4 <= c < 12
                && (forall|i: int| 0 <= i < 12 ==> #[trigger] s[i] < modulus())
                implies (r matches Ok(coin) && coin.state_spec() == s && coin.current_spec() == c) by {
                lemma_read_coin_bytes(s, c);
            }
        }
        r
    }
}

/// The message of a decoding error for a position outside the rate.
fn current_range_message() -> (r: String)
    ensures
        r@ == "current value outside of valid range"@,
{
    "current value outside of valid range".to_owned()
}

/// One more draw appends one value.
proof fn lemma_draws_step(s: Seq<nat>, c: nat, n: nat)
    ensures
        draws_spec(s, c, n + 1).2 == draws_spec(s, c, n).2.push(
            draw_spec(draws_spec(s, c, n).0, draws_spec(s, c, n).1).2),
        draws_spec(s, c, n).2.len() == n,
    decreases n,
{
    if n > 0 {
        lemma_draws_step(s, c, (n - 1) as nat);
    }
}

/// The values of two draws in a row from the state after `n` draws.
proof fn lemma_draws_two(s: Seq<nat>, c: nat, n: nat)
    ensures
        ({
            let (s1, c1, v1) = draw_spec(draws_spec(s, c, n).0, draws_spec(s, c, n).1);
            let (s2, c2, v2) = draw_spec(s1, c1);
            &&& draws_spec(s, c, n + 2).0 == s2
            &&& draws_spec(s, c, n + 2).1 == c2
            &&& draws_spec(s, c, n + 2).2[n as int] == v1
            &&& draws_spec(s, c, n + 2).2[(n + 1) as int] == v2
        }),
{
    lemma_draws_step(s, c, n);
    lemma_draws_step(s, c, n + 1);
}

/// Eight bytes of the value built from draws `2k` and `2k + 1` are those the
/// fill takes from them.
proof fn lemma_chunk_bytes(vs: Seq<nat>, k2: nat, v: u64, chunk: Seq<u8>)
    requires
        vs.len() >= k2 + 2,
        k2 % 2 == 0,
        v == (vs[k2 as int] % 0x1_0000_0000) + (vs[(k2 + 1) as int] % 0x1_0000_0000) * 0x1_0000_0000,
        chunk == le_bytes_spec(v as nat, 8),
    ensures
        forall|i: int| 0 <= i < 8 ==> #[trigger] chunk[i] == fill_spec(vs, 4 * k2 + 8)[4 * k2 + i],
{
    let lo = vs[k2 as int] % 0x1_0000_0000;
    let hi = vs[(k2 + 1) as int] % 0x1_0000_0000;
    assert(pow256(4) == 0x1_0000_0000) by {
        reveal_with_fuel(pow256, 5);
    }
    crate::utils::bytes::lemma_le_bytes_concat(lo, hi, 4, 4);
    lemma_le_bytes_len(lo, 4);
    lemma_le_bytes_len(hi, 4);
    assert(chunk == le_bytes_spec(lo, 4) + le_bytes_spec(hi, 4));
    assert forall|i: int| 0 <= i < 8 implies #[trigger] chunk[i] == fill_spec(vs, 4 * k2 + 8)[4 * k2 + i] by {
        assert((4 * k2 + i) / 4 == k2 + i / 4);
        assert((4 * k2 + i) % 4 == i % 4);
        if i < 4 {
            assert(chunk[i] == le_bytes_spec(lo, 4)[i]);
        } else {
            assert(chunk[i] == le_bytes_spec(hi, 4)[i - 4]);
            assert(i % 4 == i - 4);
        }
    }
}

/// Filling more bytes from more draws keeps the bytes already filled.
proof fn lemma_fill_prefix(a: Seq<nat>, b: Seq<nat>, n: nat)
    requires
        a.len() <= b.len(),
        a == b.take(a.len() as int),
        n <= 4 * a.len(),
    ensures
        forall|i: int| 0 <= i < n ==> #[trigger] fill_spec(a, n)[i] == fill_spec(b, n)[i],
{
    assert forall|i: int| 0 <= i < n implies #[trigger] fill_spec(a, n)[i] == fill_spec(b, n)[i] by {
        assert(i / 4 < a.len());
        assert(a[i / 4] == b[i / 4]);
    }
}

/// The law of the coin's encoding: reading the bytes of a coin gives the coin back.
pub proof fn lemma_read_coin_bytes(s: Seq<nat>, c: nat)
    requires
        s.len() == 12,
        4 <= c < 12,
        forall|i: int| 0 <= i < 12 ==> #[trigger] s[i] < modulus(),
    ensures
        read_felts_spec(coin_bytes(s, c), 0, 12) == Ok::<Seq<nat>, ReadFailure>(s),
        coin_bytes(s, c).len() == 97,
        coin_bytes(s, c)[96] == c,
{
    let data = coin_bytes(s, c);
    assert forall|k: nat| k <= 12 implies #[trigger] read_felts_spec(data, 0, k) == Ok::<Seq<nat>, ReadFailure>(s.take(k as int)) by {
        lemma_read_prefix(s, c, k);
    }
    assert(s.take(12) =~= s);
    assert((c as u8) == c);
}

/// Reading `k` elements of a coin's encoding gives its first `k` state elements.
proof fn lemma_read_prefix(s: Seq<nat>, c: nat, k: nat)
    requires
        s.len() == 12,
        k <= 12,
        forall|i: int| 0 <= i < 12 ==> #[trigger] s[i] < modulus(),
    ensures
        read_felts_spec(coin_bytes(s, c), 0, k) == Ok::<Seq<nat>, ReadFailure>(s.take(k as int)),
    decreases k,
{
    let data = coin_bytes(s, c);
    if k == 0 {
        assert(s.take(0) =~= Seq::<nat>::empty());
    } else {
        let k1 = (k - 1) as nat;
        lemma_read_prefix(s, c, k1);
        let p = 8 * k1;
        let v = s[k1 as int];
        lemma_le_bytes_len(v, 8);
        assert(data.subrange(p as int, (p + 8) as int) =~= le_bytes_spec(v, 8)) by {
            assert forall|j: int| 0 <= j < 8 implies #[trigger] data.subrange(p as int, (p + 8) as int)[j] == le_bytes_spec(v, 8)[j] by {
                assert((p + j) / 8 == k1);
                assert((p + j) % 8 == j);
            }
        }
        assert(v < pow256(8)) by {
            crate::felt::lemma_modulus_below_pow256_8();
        }
        lemma_le_roundtrip(v, 8);
        assert(s.take(k as int) =~= s.take(k1 as int).push(v));
    }
}

} // verus!
