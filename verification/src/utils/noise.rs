//! A random noise generator: four independent `splitmix64` streams advanced
//! in lock step, one per lane of a 256-bit state.

use vstd::prelude::*;

verus! {

/// The increment that each lane adds to its state per draw.
pub const GOLDEN_GAMMA: u64 = 0x9e3779b97f4a7c15;

/// The first multiplier of the output mix.
pub const MIX_MUL_1: u64 = 0xbf58476d1ce4e5b9;

/// The second multiplier of the output mix.
pub const MIX_MUL_2: u64 = 0x94d049bb133111eb;

/// `a + b` modulo 2^64.
pub open spec fn wrap_add(a: u64, b: u64) -> u64 {
    ((a + b) % 0x1_0000_0000_0000_0000) as u64
}

/// `a * b` modulo 2^64.
pub open spec fn wrap_mul(a: u64, b: u64) -> u64 {
    ((a * b) % 0x1_0000_0000_0000_0000) as u64
}

/// The `splitmix64` output function of a lane state.
pub open spec fn mix(z: u64) -> u64 {
    let z1 = wrap_mul(z ^ (z >> 30u64), MIX_MUL_1);
    let z2 = wrap_mul(z1 ^ (z1 >> 27u64), MIX_MUL_2);
    z2 ^ (z2 >> 31u64)
}

/// The state after one draw: every lane advanced by the golden gamma.
pub open spec fn advance(s: Seq<u64>) -> Seq<u64> {
    s.map_values(|z: u64| wrap_add(z, GOLDEN_GAMMA))
}

/// The four words that one draw from state `s` returns: the mix of each
/// advanced lane.
pub open spec fn draw(s: Seq<u64>) -> Seq<u64> {
    advance(s).map_values(|z: u64| mix(z))
}

/// The state after `k` draws from `s`.
pub open spec fn state_after(s: Seq<u64>, k: nat) -> Seq<u64>
    decreases k,
{
    if k == 0 {
        s
    } else {
        advance(state_after(s, (k - 1) as nat))
    }
}

/// Byte `j` (0 is the least significant) of a word.
pub open spec fn le_byte(w: u64, j: int) -> u8 {
    (w >> ((8 * j) as u64)) as u8
}

/// Half `h` of a word as a signed 32-bit integer: 0 is the low half, 1 the
/// high half.
pub open spec fn half_word(w: u64, h: int) -> i32 {
    if h == 0 {
        w as u32 as i32
    } else {
        (w >> 32u64) as i32
    }
}

/// Byte `k` of the stream that filling draws from state `s`: each draw gives
/// 32 bytes, its four words in lane order, each word least significant
/// byte first.
pub open spec fn stream_byte(s: Seq<u64>, k: int) -> u8 {
    le_byte(draw(state_after(s, (k / 32) as nat))[(k % 32) / 8], k % 8)
}

/// Integer `k` of the stream that filling draws from state `s`: each draw
/// gives 8 integers, the low and then the high half of each word in lane
/// order.
pub open spec fn stream_i32(s: Seq<u64>, k: int) -> i32 {
    half_word(draw(state_after(s, (k / 8) as nat))[(k % 8) / 2], k % 2)
}

/// The number of draws that a buffer of `len` items needs at `per_draw`
/// items per draw.
pub open spec fn draws_needed(len: int, per_draw: int) -> int {
    (len + per_draw - 1) / per_draw
}

/// The generator: four 64-bit lane states.
#[derive(Clone)]
pub struct Noise {
    state: [u64; 4],
}

impl View for Noise {
    type V = Seq<u64>;

    closed spec fn view(&self) -> Seq<u64> {
        self.state@
    }
}

/// The product of two words split into 32-bit halves: the high halves'
/// product is a multiple of 2^64, so modulo 2^64 the product is the low
/// halves' product plus the cross products shifted up by 32. This is what
/// lets a multiplier of 32-bit halves produce 64-bit wrapping products.
pub proof fn lemma_split_product(a: int, b: int, a_hi: int, a_lo: int, b_hi: int, b_lo: int)
    requires
        a == a_hi * 0x1_0000_0000 + a_lo,
        b == b_hi * 0x1_0000_0000 + b_lo,
    ensures
        (a * b) % 0x1_0000_0000_0000_0000 == (a_lo * b_lo + ((a_lo * b_hi + a_hi * b_lo)
            % 0x1_0000_0000_0000_0000) * 0x1_0000_0000 % 0x1_0000_0000_0000_0000)
            % 0x1_0000_0000_0000_0000,
{
    let m: int = 0x1_0000_0000_0000_0000;
    let cross = a_lo * b_hi + a_hi * b_lo;
    assert(a * b == m * (a_hi * b_hi) + (cross * 0x1_0000_0000 + a_lo * b_lo)) by (nonlinear_arith)
        requires
            a == a_hi * 0x1_0000_0000 + a_lo,
            b == b_hi * 0x1_0000_0000 + b_lo,
            cross == a_lo * b_hi + a_hi * b_lo,
            m == 0x1_0000_0000_0000_0000,
    ;
    vstd::arithmetic::div_mod::lemma_mod_multiples_vanish(
        a_hi * b_hi,
        cross * 0x1_0000_0000 + a_lo * b_lo,
        m,
    );
    vstd::arithmetic::div_mod::lemma_mul_mod_noop_left(cross, 0x1_0000_0000, m);
    vstd::arithmetic::div_mod::lemma_add_mod_noop_right(a_lo * b_lo, cross * 0x1_0000_0000, m);
}

/// The low 64 bits of `a * b`, formed from 32-bit halves as a 64-bit lane
/// multiplier without a full 64-bit product does it: the low halves'
/// product plus the cross products shifted up by 32; the high halves'
/// product falls entirely above bit 64.
fn mul_wrapping(a: u64, b: u64) -> (r: u64)
    ensures
        r == wrap_mul(a, b),
{
    let a_lo = a & 0xffff_ffff;
    let b_lo = b & 0xffff_ffff;
    let a_hi = a >> 32u64;
    let b_hi = b >> 32u64;
    assert(a_lo <= 0xffff_ffff && a_hi <= 0xffff_ffff && a == a_hi * 0x1_0000_0000 + a_lo)
        by (bit_vector)
        requires
            a_lo == a & 0xffff_ffff,
            a_hi == a >> 32u64,
    ;
    assert(b_lo <= 0xffff_ffff && b_hi <= 0xffff_ffff && b == b_hi * 0x1_0000_0000 + b_lo)
        by (bit_vector)
        requires
            b_lo == b & 0xffff_ffff,
            b_hi == b >> 32u64,
    ;
    proof {
        vstd::arithmetic::mul::lemma_mul_upper_bound(
            a_lo as int,
            0xffff_ffff,
            b_lo as int,
            0xffff_ffff,
        );
        vstd::arithmetic::mul::lemma_mul_upper_bound(
            a_lo as int,
            0xffff_ffff,
            b_hi as int,
            0xffff_ffff,
        );
        vstd::arithmetic::mul::lemma_mul_upper_bound(
            a_hi as int,
            0xffff_ffff,
            b_lo as int,
            0xffff_ffff,
        );
    }
    let low = a_lo * b_lo;
    let cross = (a_lo * b_hi).wrapping_add(a_hi * b_lo);
    let shifted = cross << 32u64;
    assert(shifted == (cross * 0x1_0000_0000) % 0x1_0000_0000_0000_0000) by (bit_vector)
        requires
            shifted == cross << 32u64,
    ;
    let r = low.wrapping_add(shifted);
    proof {
        lemma_split_product(a as int, b as int, a_hi as int, a_lo as int, b_hi as int, b_lo as int);
    }
    r
}

/// The `splitmix64` output function.
fn mix_word(z: u64) -> (r: u64)
    ensures
        r == mix(z),
{
    let z1 = mul_wrapping(z ^ (z >> 30u64), MIX_MUL_1);
    let z2 = mul_wrapping(z1 ^ (z1 >> 27u64), MIX_MUL_2);
    z2 ^ (z2 >> 31u64)
}

/// One lane advanced by the golden gamma, modulo 2^64.
fn advance_lane(z: u64) -> (r: u64)
    ensures
        r == wrap_add(z, GOLDEN_GAMMA),
{
    let r = z.wrapping_add(GOLDEN_GAMMA);
    proof {
        let m: int = 0x1_0000_0000_0000_0000;
        if z + GOLDEN_GAMMA > u64::MAX {
            vstd::arithmetic::div_mod::lemma_fundamental_div_mod_converse(
                z + GOLDEN_GAMMA,
                m,
                1,
                z + GOLDEN_GAMMA - m,
            );
        } else {
            vstd::arithmetic::div_mod::lemma_small_mod((z + GOLDEN_GAMMA) as nat, m as nat);
        }
    }
    r
}

#[verifier::external_type_specification]
#[verifier::external_body]
pub struct ExOsError(rand::rand_core::OsError);

/// One 64-bit word from the operating system's random source, through
/// `TryRngCore::try_next_u64` of `rand`'s `OsRng`, or the error that the
/// source reported: the draw that seeds lane `lane` of a generator. The
/// source does not read the lane; it names the draw, so that the words of
/// different lanes are different draws. Which word comes back, and whether
/// the source fails, is not stated: both depend on the operating system.
#[verifier::external_body]
fn os_random_word(lane: usize) -> Result<u64, rand::rand_core::OsError> {
    let _ = lane;
    rand::TryRngCore::try_next_u64(&mut rand::rngs::OsRng)
}

/// `w` is a word that the operating system's random source can hand out in
/// the draw for lane `lane`.
pub closed spec fn is_os_random_word(lane: int, w: u64) -> bool {
    call_ensures(os_random_word, (lane as usize,), Ok::<u64, rand::rand_core::OsError>(w))
}

/// The operating system's random source can report an error in the draw
/// for some lane.
pub closed spec fn os_random_can_fail() -> bool {
    exists|lane: usize, err: rand::rand_core::OsError|
        call_ensures(os_random_word, (lane,), Err::<u64, rand::rand_core::OsError>(err))
}

/// Why a generator could not be seeded.
#[derive(Debug, Clone, Copy, PartialEq, Eq, Structural)]
pub enum SeedError {
    /// The operating system's random source reported an error.
    OsRandomUnavailable,
}

impl Noise {
    /// A generator whose four lanes start at the given states.
    pub fn from_state(lanes: [u64; 4]) -> (noise: Noise)
        ensures
            noise@ == lanes@,
    {
        Noise { state: lanes }
    }

    /// The current state of the four lanes.
    pub fn state(&self) -> (lanes: [u64; 4])
        ensures
            lanes@ == self@,
    {
        self.state
    }

    /// A generator whose four lanes start at four words drawn from `source`,
    /// lane 0 first, or `None` as soon as a draw fails.
    pub fn from_source<E, S: Fn() -> Result<u64, E>>(source: S) -> (r: Option<Noise>)
        requires
            call_requires(source, ()),
        ensures
            match r {
                Some(noise) => noise@.len() == 4 && forall|i: int|
                    0 <= i < 4 ==> call_ensures(source, (), Ok::<u64, E>(#[trigger] noise@[i])),
                None => exists|e: E| call_ensures(source, (), Err::<u64, E>(e)),
            },
    {
        let mut lanes = [0u64; 4];
        let mut i: usize = 0;
        while i < 4
            invariant
                i <= 4,
                call_requires(source, ()),
                forall|j: int| 0 <= j < i ==> call_ensures(source, (), Ok::<u64, E>(#[trigger] lanes@[j])),
            decreases 4 - i,
        {
            let drawn = source();
            match drawn {
                Ok(word) => {
                    lanes[i] = word;
                },
                Err(e) => {
                    assert(call_ensures(source, (), Err::<u64, E>(e)));
                    return None;
                },
            }
            i += 1;
        }
        Some(Noise::from_state(lanes))
    }

    /// A generator whose lane `i` starts at the word of the draw
    /// `source(i)`, the four draws made in lane order, or `None` as soon as a
    /// draw fails.
    pub fn from_lane_source<E, S: Fn(usize) -> Result<u64, E>>(source: S) -> (r: Option<Noise>)
        requires
            forall|lane: usize| call_requires(source, (lane,)),
        ensures
            match r {
                Some(noise) => noise@.len() == 4 && forall|i: int|
                    0 <= i < 4 ==> call_ensures(source, (i as usize,), Ok::<u64, E>(#[trigger] noise@[i])),
                None => exists|lane: usize, e: E|
                    lane < 4 && call_ensures(source, (lane,), Err::<u64, E>(e)),
            },
    {
        let mut lanes = [0u64; 4];
        let mut i: usize = 0;
        while i < 4
            invariant
                i <= 4,
                forall|lane: usize| call_requires(source, (lane,)),
                forall|j: int|
                    0 <= j < i ==> call_ensures(source, (j as usize,), Ok::<u64, E>(#[trigger] lanes@[j])),
            decreases 4 - i,
        {
            let drawn = source(i);
            match drawn {
                Ok(word) => {
                    lanes[i] = word;
                },
                Err(e) => {
                    assert(call_ensures(source, (i,), Err::<u64, E>(e)));
                    return None;
                },
            }
            i += 1;
        }
        Some(Noise::from_state(lanes))
    }

    /// A generator seeded from the operating system's random source: lane
    /// `i` starts at the word of its own draw `i` through
    /// `TryRngCore::try_next_u64` of `OsRng`, four separate draws in lane
    /// order; or `SeedError::OsRandomUnavailable` when a draw reports an
    /// error.
    pub fn init() -> (r: Result<Noise, SeedError>)
        ensures
            match r {
                Ok(noise) => noise@.len() == 4 && forall|i: int|
                    0 <= i < 4 ==> is_os_random_word(i, #[trigger] noise@[i]),
                Err(e) => e == SeedError::OsRandomUnavailable && os_random_can_fail(),
            },
    {
        match Noise::from_lane_source(os_random_word) {
            Some(noise) => Ok(noise),
            None => Err(SeedError::OsRandomUnavailable),
        }
    }

    /// A generator seeded from one 64-bit seed: lane 0 starts at the seed,
    /// lanes 1 to 3 at the seed times the golden gamma and the two mix
    /// multipliers, modulo 2^64.
    pub fn with_seed(seed: u64) -> (noise: Noise)
        ensures
            noise@ == seq![
                seed,
                wrap_mul(seed, GOLDEN_GAMMA),
                wrap_mul(seed, MIX_MUL_1),
                wrap_mul(seed, MIX_MUL_2),
            ],
    {
        let noise = Noise {
            state: [
                seed,
                mul_wrapping(seed, GOLDEN_GAMMA),
                mul_wrapping(seed, MIX_MUL_1),
                mul_wrapping(seed, MIX_MUL_2),
            ],
        };
        assert(noise@ =~= seq![
            seed,
            wrap_mul(seed, GOLDEN_GAMMA),
            wrap_mul(seed, MIX_MUL_1),
            wrap_mul(seed, MIX_MUL_2),
        ]);
        noise
    }

    /// Advances every lane by one draw and returns the updated state, lane 0
    /// first.
    pub fn next_state(&mut self) -> (out: [u64; 4])
        ensures
            final(self)@ == advance(old(self)@),
            out@ == advance(old(self)@),
    {
        let s0 = advance_lane(self.state[0]);
        let s1 = advance_lane(self.state[1]);
        let s2 = advance_lane(self.state[2]);
        let s3 = advance_lane(self.state[3]);
        self.state = [s0, s1, s2, s3];
        assert(self@ =~= advance(old(self)@));
        self.state
    }

    /// Advances every lane by one draw and returns the four output words:
    /// the mix of each updated lane, lane 0 first.
    fn draw_words(&mut self) -> (out: [u64; 4])
        ensures
            final(self)@ == advance(old(self)@),
            out@ == draw(old(self)@),
    {
        let s = self.next_state();
        let out = [mix_word(s[0]), mix_word(s[1]), mix_word(s[2]), mix_word(s[3])];
        assert(out@ =~= draw(old(self)@));
        out
    }

    /// Advances every lane by one draw and returns the four output words as a
    /// tuple: the mix of each updated lane, lane 0 first.
    pub fn next_u64s(&mut self) -> (out: (u64, u64, u64, u64))
        ensures
            final(self)@ == advance(old(self)@),
            out.0 == draw(old(self)@)[0],
            out.1 == draw(old(self)@)[1],
            out.2 == draw(old(self)@)[2],
            out.3 == draw(old(self)@)[3],
    {
        let w = self.draw_words();
        (w[0], w[1], w[2], w[3])
    }

    /// Draws once and tells whether the exclusive-or of the four words lies
    /// below `threshold`: a coin that comes up `true` with probability
    /// `threshold / 2^64`.
    pub fn bool_below(&mut self, threshold: u64) -> (b: bool)
        ensures
            final(self)@ == advance(old(self)@),
            b == (((draw(old(self)@)[0] ^ draw(old(self)@)[2]) ^ (draw(old(self)@)[1]
                ^ draw(old(self)@)[3])) < threshold),
    {
        let w = self.draw_words();
        let x = (w[0] ^ w[2]) ^ (w[1] ^ w[3]);
        x < threshold
    }
}

/// Item `j` of draw `d`, at `per_draw` items per draw, is item
/// `per_draw * d + j` of the stream, and its position within any sub-block
/// of `sub` items (a divisor of `per_draw`) is that of `j`.
proof fn lemma_block_position(d: int, j: int, per_draw: int, sub: int)
    requires
        d >= 0,
        0 <= j < per_draw,
        sub > 0,
        per_draw % sub == 0,
    ensures
        (per_draw * d + j) / per_draw == d,
        (per_draw * d + j) % per_draw == j,
        (per_draw * d + j) % sub == j % sub,
{
    let k = per_draw * d + j;
    assert(k == d * per_draw + j) by {
        vstd::arithmetic::mul::lemma_mul_is_commutative(per_draw, d);
    }
    vstd::arithmetic::div_mod::lemma_fundamental_div_mod_converse(k, per_draw, d, j);
    let q = per_draw / sub;
    vstd::arithmetic::div_mod::lemma_fundamental_div_mod(per_draw, sub);
    assert(per_draw * d == sub * (q * d)) by {
        vstd::arithmetic::mul::lemma_mul_is_associative(sub, q, d);
    }
    vstd::arithmetic::div_mod::lemma_mod_multiples_vanish(q * d, j, sub);
}

/// A buffer of `len` items filled `per_draw` at a time has taken `draws`
/// draws when the last one covered its end.
proof fn lemma_draw_count(len: int, per_draw: int, draws: int)
    requires
        per_draw > 0,
        len >= 0,
        per_draw * draws >= len,
        per_draw * draws < len + per_draw,
    ensures
        draws == draws_needed(len, per_draw),
{
    assert(draws >= 0) by (nonlinear_arith)
        requires
            per_draw > 0,
            len >= 0,
            per_draw * draws < len + per_draw,
            per_draw * draws >= len,
    ;
    let r = len + per_draw - 1 - per_draw * draws;
    assert(len + per_draw - 1 == draws * per_draw + r) by {
        vstd::arithmetic::mul::lemma_mul_is_commutative(per_draw, draws);
    }
    vstd::arithmetic::div_mod::lemma_fundamental_div_mod_converse(
        len + per_draw - 1,
        per_draw,
        draws,
        r,
    );
}

impl Noise {
    /// Fills `buf` with random bytes: byte `k` is byte `k` of the stream of
    /// draws from the current state (32 bytes per draw, each word least
    /// significant byte first), and the generator advances by one draw per
    /// 32 bytes or part of them.
    pub fn fill_bytes(&mut self, buf: &mut [u8])
        ensures
            final(buf)@.len() == old(buf)@.len(),
            forall|k: int|
                0 <= k < old(buf)@.len() ==> #[trigger] final(buf)@[k] == stream_byte(old(self)@, k),
            final(self)@ == state_after(old(self)@, draws_needed(old(buf)@.len() as int, 32) as nat),
    {
        let len = buf.len();
        let ghost s0 = self@;
        let mut pos: usize = 0;
        let mut draws: usize = 0;
        while pos < len
            invariant
                buf@.len() == len,
                pos <= len,
                32 * draws <= len ==> pos == 32 * draws,
                32 * draws > len ==> pos == len,
                32 * draws < len + 32,
                self@ == state_after(s0, draws as nat),
                forall|k: int| 0 <= k < pos ==> #[trigger] buf@[k] == stream_byte(s0, k),
            decreases len - pos,
        {
            let out = self.draw_words();
            let take: usize = if len - pos < 32 {
                len - pos
            } else {
                32
            };
            let mut j: usize = 0;
            while j < take
                invariant
                    buf@.len() == len,
                    j <= take <= 32,
                    pos + take <= len,
                    pos == 32 * draws,
                    out@ == draw(state_after(s0, draws as nat)),
                    forall|k: int| 0 <= k < pos + j ==> #[trigger] buf@[k] == stream_byte(s0, k),
                decreases take - j,
            {
                let w = out[j / 8];
                buf[pos + j] = (w >> ((8 * (j % 8)) as u64)) as u8;
                proof {
                    lemma_block_position(draws as int, j as int, 32, 8);
                }
                j += 1;
            }
            pos = pos + take;
            draws = draws + 1;
        }
        proof {
            lemma_draw_count(len as int, 32, draws as int);
        }
    }

    /// Fills `buf` with random 32-bit integers: integer `k` is integer `k` of
    /// the stream of draws from the current state (8 per draw, the low and
    /// then the high half of each word), and the generator advances by one
    /// draw per 8 integers or part of them.
    pub fn fill_i32(&mut self, buf: &mut [i32])
        ensures
            final(buf)@.len() == old(buf)@.len(),
            forall|k: int|
                0 <= k < old(buf)@.len() ==> #[trigger] final(buf)@[k] == stream_i32(old(self)@, k),
            final(self)@ == state_after(old(self)@, draws_needed(old(buf)@.len() as int, 8) as nat),
    {
        let len = buf.len();
        let ghost s0 = self@;
        let mut pos: usize = 0;
        let mut draws: usize = 0;
        while pos < len
            invariant
                buf@.len() == len,
                pos <= len,
                8 * draws <= len ==> pos == 8 * draws,
                8 * draws > len ==> pos == len,
                8 * draws < len + 8,
                self@ == state_after(s0, draws as nat),
                forall|k: int| 0 <= k < pos ==> #[trigger] buf@[k] == stream_i32(s0, k),
            decreases len - pos,
        {
            let out = self.draw_words();
            let take: usize = if len - pos < 8 {
                len - pos
            } else {
                8
            };
            let mut j: usize = 0;
            while j < take
                invariant
                    buf@.len() == len,
                    j <= take <= 8,
                    pos + take <= len,
                    pos == 8 * draws,
                    out@ == draw(state_after(s0, draws as nat)),
                    forall|k: int| 0 <= k < pos + j ==> #[trigger] buf@[k] == stream_i32(s0, k),
                decreases take - j,
            {
                let w = out[j / 2];
                buf[pos + j] = if j % 2 == 0 {
                    w as u32 as i32
                } else {
                    (w >> 32u64) as i32
                };
                proof {
                    lemma_block_position(draws as int, j as int, 8, 2);
                }
                j += 1;
            }
            pos = pos + take;
            draws = draws + 1;
        }
        proof {
            lemma_draw_count(len as int, 8, draws as int);
        }
    }
}

/// Draws compose: `a` draws followed by `b` more leave the state that
/// `a + b` draws leave.
pub proof fn lemma_state_after_compose(s: Seq<u64>, a: nat, b: nat)
    ensures
        state_after(state_after(s, a), b) == state_after(s, a + b),
    decreases b,
{
    if b > 0 {
        lemma_state_after_compose(s, a, (b - 1) as nat);
        assert(state_after(s, a + b) == advance(state_after(s, (a + b - 1) as nat)));
    }
}

/// Each lane is a counter: after `k` draws it holds its start plus `k`
/// times the golden gamma, modulo 2^64.
pub proof fn lemma_state_after_closed_form(s: Seq<u64>, k: nat, lane: int)
    requires
        0 <= lane < s.len(),
    ensures
        state_after(s, k).len() == s.len(),
        state_after(s, k)[lane] == ((s[lane] + k * GOLDEN_GAMMA) % 0x1_0000_0000_0000_0000) as u64,
    decreases k,
{
    let m: int = 0x1_0000_0000_0000_0000;
    if k == 0 {
        vstd::arithmetic::div_mod::lemma_small_mod(s[lane] as nat, m as nat);
    } else {
        lemma_state_after_closed_form(s, (k - 1) as nat, lane);
        let prev: int = s[lane] + (k - 1) * GOLDEN_GAMMA;
        vstd::arithmetic::div_mod::lemma_add_mod_noop(prev, GOLDEN_GAMMA as int, m);
        vstd::arithmetic::div_mod::lemma_small_mod(GOLDEN_GAMMA as nat, m as nat);
        vstd::arithmetic::div_mod::lemma_mod_bound(prev, m);
        vstd::arithmetic::div_mod::lemma_mod_twice(prev, m);
        assert(prev + GOLDEN_GAMMA == s[lane] + k * GOLDEN_GAMMA) by (nonlinear_arith)
            requires
                prev == s[lane] + (k - 1) * GOLDEN_GAMMA,
        ;
    }
}

/// The byte stream resumes where it stopped: after `d` whole draws, the
/// stream from the new state is the old stream with its first `32 * d`
/// bytes removed. So filling a buffer in pieces whose lengths (but for the
/// last) are multiples of 32 gives the bytes one fill of the whole gives.
pub proof fn lemma_byte_stream_resumes(s: Seq<u64>, d: nat, k: int)
    requires
        k >= 0,
    ensures
        stream_byte(state_after(s, d), k) == stream_byte(s, 32 * d + k),
{
    let q = k / 32;
    let r = k % 32;
    vstd::arithmetic::div_mod::lemma_fundamental_div_mod(k, 32);
    lemma_block_position(d + q, r, 32, 8);
    lemma_block_position(q, r, 32, 8);
    assert(32 * d + k == 32 * (d + q) + r);
    lemma_state_after_compose(s, d, q as nat);
}

/// The integer stream resumes where it stopped: after `d` whole draws, the
/// stream from the new state is the old stream with its first `8 * d`
/// integers removed.
pub proof fn lemma_i32_stream_resumes(s: Seq<u64>, d: nat, k: int)
    requires
        k >= 0,
    ensures
        stream_i32(state_after(s, d), k) == stream_i32(s, 8 * d + k),
{
    let q = k / 8;
    let r = k % 8;
    vstd::arithmetic::div_mod::lemma_fundamental_div_mod(k, 8);
    lemma_block_position(d + q, r, 8, 2);
    lemma_block_position(q, r, 8, 2);
    assert(8 * d + k == 8 * (d + q) + r);
    lemma_state_after_compose(s, d, q as nat);
}

/// The halves of a word are its bytes four at a time, least significant
/// first.
proof fn lemma_half_word_bytes(w: u64, h: int)
    requires
        h == 0 || h == 1,
    ensures
        half_word(w, h) as u32 == le_byte(w, 4 * h) as u32 + 0x100 * le_byte(w, 4 * h + 1) as u32
            + 0x1_0000 * le_byte(w, 4 * h + 2) as u32 + 0x100_0000 * le_byte(w, 4 * h + 3) as u32,
{
    if h == 0 {
        assert(w as u32 as i32 as u32 == (w >> 0u64) as u8 as u32 + 0x100 * (w >> 8u64) as u8 as u32
            + 0x1_0000 * (w >> 16u64) as u8 as u32 + 0x100_0000 * (w >> 24u64) as u8 as u32)
            by (bit_vector);
    } else {
        assert((w >> 32u64) as i32 as u32 == (w >> 32u64) as u8 as u32 + 0x100 * (w >> 40u64) as u8
            as u32 + 0x1_0000 * (w >> 48u64) as u8 as u32 + 0x100_0000 * (w >> 56u64) as u8 as u32)
            by (bit_vector);
    }
}

/// The integers that `fill_i32` draws are the bytes that `fill_bytes` draws
/// from the same state, read four at a time, least significant first:
/// integer `k` is made of bytes `4k` to `4k + 3`.
pub proof fn lemma_i32_stream_is_byte_stream(s: Seq<u64>, k: int)
    requires
        k >= 0,
    ensures
        stream_i32(s, k) as u32 == stream_byte(s, 4 * k) as u32 + 0x100 * stream_byte(s, 4 * k + 1)
            as u32 + 0x1_0000 * stream_byte(s, 4 * k + 2) as u32 + 0x100_0000 * stream_byte(
            s,
            4 * k + 3,
        ) as u32,
{
    let q = k / 8;
    let r = k % 8;
    vstd::arithmetic::div_mod::lemma_fundamental_div_mod(k, 8);
    let word = draw(state_after(s, q as nat))[r / 2];
    assert forall|b: int| 0 <= b < 4 implies #[trigger] stream_byte(s, 4 * k + b) == le_byte(
        word,
        4 * (r % 2) + b,
    ) by {
        assert(4 * k + b == 32 * q + (4 * r + b));
        lemma_block_position(q, 4 * r + b, 32, 8);
        assert((4 * r + b) / 8 == r / 2 && (4 * r + b) % 8 == 4 * (r % 2) + b) by {
            assert(0 <= r < 8);
            assert(0 <= b < 4);
        }
    }
    lemma_half_word_bytes(word, r % 2);
    assert(stream_byte(s, 4 * k + 0) == le_byte(word, 4 * (r % 2) + 0));
    assert(stream_byte(s, 4 * k + 1) == le_byte(word, 4 * (r % 2) + 1));
    assert(stream_byte(s, 4 * k + 2) == le_byte(word, 4 * (r % 2) + 2));
    assert(stream_byte(s, 4 * k + 3) == le_byte(word, 4 * (r % 2) + 3));
}

/// The four lanes are independent `splitmix64` generators: word `l` of
/// draw `k` is the mix of lane `l`'s start plus `k + 1` times the golden
/// gamma, modulo 2^64, whatever the other lanes hold.
pub proof fn lemma_lanes_are_splitmix64(s: Seq<u64>, k: nat, lane: int)
    requires
        0 <= lane < s.len(),
    ensures
        draw(state_after(s, k))[lane] == mix(
            ((s[lane] + (k + 1) * GOLDEN_GAMMA) % 0x1_0000_0000_0000_0000) as u64,
        ),
{
    lemma_state_after_closed_form(s, k + 1, lane);
    lemma_state_after_closed_form(s, k, lane);
    assert(state_after(s, k + 1) == advance(state_after(s, k)));
}

/// The splitmix64 steps in plain arithmetic modulo 2^64 (products, as in
/// seeding, taken modulo 2^64 too): a lane advances by
/// `0x9e3779b97f4a7c15`, and its output is the state with its bits folded
/// down by 30, 27 and 31 places and multiplied by `0xbf58476d1ce4e5b9` and
/// `0x94d049bb133111eb` in between.
pub proof fn lemma_splitmix64_steps(z: u64)
    ensures
        forall|a: u64, b: u64| #[trigger] wrap_mul(a, b) == ((a * b) % 0x1_0000_0000_0000_0000int) as u64,
        wrap_add(z, GOLDEN_GAMMA) == ((z + 0x9e3779b97f4a7c15int) % 0x1_0000_0000_0000_0000int) as u64,
        mix(z) == ({
            let z1 = (((z ^ (z >> 30u64)) * 0xbf58476d1ce4e5b9int) % 0x1_0000_0000_0000_0000int) as u64;
            let z2 = (((z1 ^ (z1 >> 27u64)) * 0x94d049bb133111ebint) % 0x1_0000_0000_0000_0000int) as u64;
            z2 ^ (z2 >> 31u64)
        }),
{
}

/// A buffer of `len` items taken `per_draw` at a time needs the fewest
/// draws that cover it: enough for `len` items, and one fewer would not be.
pub proof fn lemma_draws_needed_covers(len: int, per_draw: int)
    requires
        len >= 0,
        per_draw > 0,
    ensures
        draws_needed(len, per_draw) >= 0,
        per_draw * draws_needed(len, per_draw) >= len,
        per_draw * (draws_needed(len, per_draw) - 1) < len,
{
    let d = draws_needed(len, per_draw);
    let t = len + per_draw - 1;
    vstd::arithmetic::div_mod::lemma_fundamental_div_mod(t, per_draw);
    vstd::arithmetic::div_mod::lemma_div_pos_is_pos(t, per_draw);
    vstd::arithmetic::mul::lemma_mul_is_distributive_sub(per_draw, d, 1);
}

} // verus!
