use vstd::arithmetic::power2::{lemma2_to64, lemma_pow2_pos, lemma_pow2_unfold, pow2};
use vstd::bits::lemma_u32_shl_is_mul;
use vstd::prelude::*;

use crate::error::DecodeError;
use crate::huffman::SSSSTable;

verus! {

/// Every element of `s` is a single bit.
pub open spec fn all_bits(s: Seq<u8>) -> bool {
    forall|i: int| 0 <= i < s.len() ==> #[trigger] s[i] <= 1
}

/// Unsigned value of a bit sequence, most significant bit first.
pub open spec fn bits_value(b: Seq<u8>) -> int
    decreases b.len(),
{
    if b.len() == 0 {
        0
    } else {
        2 * bits_value(b.drop_last()) + b.last()
    }
}

/// The `n` bits at `pos` behind a sentinel 1: the form in which Huffman codes are stored.
pub open spec fn code_prefix(bits: Seq<u8>, pos: int, n: nat) -> int {
    pow2(n) + bits_value(bits.subrange(pos, pos + n))
}

/// Signed difference that `s` magnitude bits `b` encode: a leading 1 gives the value
/// itself, a leading 0 the negative value `v + 1 - 2^s`.
pub open spec fn category_difference(s: nat, b: Seq<u8>) -> int {
    if b[0] == 1 {
        bits_value(b)
    } else {
        bits_value(b) + 1 - pow2(s)
    }
}

/// Searches `t` for the code made of the first `seed + j + 1` bits at `pos`, then longer
/// ones, up to `seed + max` bits; gives the length of the first code found.
pub open spec fn find_code(
    t: Map<u32, u8>,
    bits: Seq<u8>,
    pos: int,
    seed: nat,
    j: nat,
    max: nat,
) -> Result<nat, DecodeError>
    decreases max - j,
{
    if j >= max {
        Err(DecodeError::BadHuffmanCode)
    } else if pos + seed + j + 1 > bits.len() {
        Err(DecodeError::OutOfBits)
    } else if t.contains_key(code_prefix(bits, pos, seed + j + 1) as u32) {
        Ok(seed + j + 1)
    } else {
        find_code(t, bits, pos, seed, j + 1, max)
    }
}

/// Difference decoded at `pos` with table `t` whose codes are `min` to `max` bits long,
/// and the position after it.
pub open spec fn decode_difference(
    t: Map<u32, u8>,
    min: nat,
    max: nat,
    bits: Seq<u8>,
    pos: int,
) -> Result<(int, int), DecodeError> {
    let seed = (min - 1) as nat;
    if pos + seed > bits.len() {
        Err(DecodeError::OutOfBits)
    } else {
        match find_code(t, bits, pos, seed, 0, max) {
            Err(e) => Err(e),
            Ok(n) => {
                let s = t[code_prefix(bits, pos, n) as u32];
                if s == 16 {
                    Ok((32768, pos + n))
                } else if s == 0 {
                    Ok((0, pos + n))
                } else if s > 16 {
                    Err(DecodeError::BadCategory)
                } else if pos + n + s > bits.len() {
                    Err(DecodeError::OutOfBits)
                } else {
                    Ok((category_difference(s as nat, bits.subrange(pos + n, pos + n + s)), pos + n + s))
                }
            },
        }
    }
}

/// Decoding a difference fails only for want of bits, for want of a matching code, or on a
/// category above 16.
pub open spec fn is_entropy_error(e: DecodeError) -> bool {
    e == DecodeError::OutOfBits || e == DecodeError::BadHuffmanCode || e == DecodeError::BadCategory
}

/// The code search fails only for want of bits or of a matching code.
pub proof fn lemma_find_code_errors(t: Map<u32, u8>, bits: Seq<u8>, pos: int, seed: nat, j: nat, max: nat)
    ensures
        find_code(t, bits, pos, seed, j, max) matches Err(e) ==> is_entropy_error(e),
    decreases max - j,
{
    if j < max {
        lemma_find_code_errors(t, bits, pos, seed, j + 1, max);
    }
}

/// A bit sequence read from left to right, never rewound.
pub struct BitCursor {
    pub bits: Vec<u8>,
    pub pos: usize,
}

impl BitCursor {
    /// The position lies within the bits.
    pub open spec fn wf(&self) -> bool {
        self.pos <= self.bits@.len()
    }

    /// A cursor at the first of `bits`.
    pub fn new(bits: Vec<u8>) -> (r: Self)
        ensures
            r.bits@ == bits@,
            r.pos == 0,
    {
        BitCursor { bits, pos: 0 }
    }

    /// Index of the next bit to be read.
    pub fn position(&self) -> (r: usize)
        ensures
            r == self.pos,
    {
        self.pos
    }

    /// Reads the next bit, or gives `None` at the end.
    pub fn next_bit(&mut self) -> (r: Option<u8>)
        requires
            old(self).wf(),
        ensures
            final(self).bits@ == old(self).bits@,
            final(self).wf(),
            old(self).pos < old(self).bits@.len() ==> r == Some(old(self).bits@[old(self).pos as int])
                && final(self).pos == old(self).pos + 1,
            old(self).pos >= old(self).bits@.len() ==> r is None && final(self).pos == old(self).pos,
    {
        if self.pos < self.bits.len() {
            let b = self.bits[self.pos];
            self.pos = self.pos + 1;
            Some(b)
        } else {
            None
        }
    }
}

/// A sequence of bits has a value below `2^len`.
pub proof fn lemma_bits_value_bounds(b: Seq<u8>)
    requires
        all_bits(b),
    ensures
        0 <= bits_value(b) < pow2(b.len()),
    decreases b.len(),
{
    lemma_pow2_pos(0);
    if b.len() > 0 {
        lemma_bits_value_bounds(b.drop_last());
        lemma_pow2_unfold(b.len());
    }
}

/// One more bit read extends the code prefix by that bit.
proof fn lemma_code_prefix_step(bits: Seq<u8>, pos: int, n: nat)
    requires
        0 <= pos,
        pos + n + 1 <= bits.len(),
    ensures
        code_prefix(bits, pos, n + 1) == 2 * code_prefix(bits, pos, n) + bits[pos + n],
{
    lemma_pow2_unfold(n + 1);
    assert(bits.subrange(pos, pos + n + 1).drop_last() =~= bits.subrange(pos, pos + n));
}

/// A code prefix of `n` bits lies in `[2^n, 2^(n+1))`.
proof fn lemma_code_prefix_bounds(bits: Seq<u8>, pos: int, n: nat)
    requires
        all_bits(bits),
        0 <= pos,
        pos + n <= bits.len(),
    ensures
        pow2(n) <= code_prefix(bits, pos, n) < pow2(n + 1),
        0 <= bits_value(bits.subrange(pos, pos + n)) < pow2(n),
{
    let sub = bits.subrange(pos, pos + n);
    assert(all_bits(sub)) by {
        assert forall|i: int| 0 <= i < sub.len() implies #[trigger] sub[i] <= 1 by {
            assert(sub[i] == bits[pos + i]);
        }
    }
    lemma_bits_value_bounds(sub);
    lemma_pow2_unfold(n + 1);
}

/// One more bit read extends the value of a bit run by that bit.
proof fn lemma_bits_value_step(bits: Seq<u8>, pos: int, k: nat)
    requires
        0 <= pos,
        pos + k + 1 <= bits.len(),
    ensures
        bits_value(bits.subrange(pos, pos + k + 1)) == 2 * bits_value(bits.subrange(pos, pos + k))
            + bits[pos + k],
{
    assert(bits.subrange(pos, pos + k + 1).drop_last() =~= bits.subrange(pos, pos + k));
}

/// Decodes one sample difference: a Huffman code gives the magnitude category SSSS, and
/// SSSS further bits give the difference (category 16 stands for 32768 alone).
pub fn get_huffmaned_value(ssss_table: &SSSSTable, image_bits: &mut BitCursor) -> (r: Result<
    i32,
    DecodeError,
>)
    requires
        ssss_table.wf(),
        old(image_bits).wf(),
        all_bits(old(image_bits).bits@),
    ensures
        final(image_bits).bits@ == old(image_bits).bits@,
        final(image_bits).wf(),
        r matches Ok(d) ==> -0x8000 <= d <= 0x8000,
        r == Err::<i32, DecodeError>(DecodeError::OutOfBits) ==> final(image_bits).pos == old(image_bits).bits@.len(),
        r == Err::<i32, DecodeError>(DecodeError::BadHuffmanCode) ==> final(image_bits).pos == old(image_bits).pos
            + ssss_table.min_code_length - 1 + ssss_table.max_code_length,
        r is Err ==> final(image_bits).pos <= old(image_bits).pos + ssss_table.min_code_length - 1
            + ssss_table.max_code_length || final(image_bits).pos == old(image_bits).bits@.len(),
        match r {
            Ok(d) => decode_difference(
                ssss_table.table@,
                ssss_table.min_code_length as nat,
                ssss_table.max_code_length as nat,
                old(image_bits).bits@,
                old(image_bits).pos as int,
            ) == Ok::<(int, int), DecodeError>((d as int, final(image_bits).pos as int)),
            Err(e) => decode_difference(
                ssss_table.table@,
                ssss_table.min_code_length as nat,
                ssss_table.max_code_length as nat,
                old(image_bits).bits@,
                old(image_bits).pos as int,
            ) == Err::<(int, int), DecodeError>(e),
        },
{
    let ghost start = image_bits.pos as int;
    let ghost bits = image_bits.bits@;
    let ghost t = ssss_table.table@;
    let ghost min = ssss_table.min_code_length as nat;
    let ghost max = ssss_table.max_code_length as nat;
    proof {
        assert(pow2(0) == 1) by { lemma2_to64(); }
        assert(bits.subrange(start, start) =~= Seq::<u8>::empty());
    }
    let mut guess: u32 = 1;
    let seed: usize = ssss_table.min_code_length - 1;
    let mut i: usize = 0;
    while i < seed
        invariant
            i <= seed,
            seed == min - 1,
            1 <= min <= 16,
            image_bits.bits@ == bits,
            bits == old(image_bits).bits@,
            start == old(image_bits).pos,
            t == ssss_table.table@,
            min == ssss_table.min_code_length,
            max == ssss_table.max_code_length,
            image_bits.wf(),
            all_bits(bits),
            image_bits.pos == start + i,
            0 <= start,
            guess == code_prefix(bits, start, i as nat),
        decreases seed - i,
    {
        match image_bits.next_bit() {
            Some(b) => {
                proof {
                    lemma_code_prefix_step(bits, start, i as nat);
                    lemma_code_prefix_bounds(bits, start, (i + 1) as nat);
                    assert(pow2(17) == 0x20000) by { lemma2_to64(); }
                    vstd::arithmetic::power2::lemma_pow2_strictly_increases((i + 2) as nat, 17);
                }
                guess = guess * 2 + b as u32;
            },
            None => {
                return Err(DecodeError::OutOfBits);
            },
        }
        i = i + 1;
    }
    let max_len: usize = ssss_table.max_code_length;
    let mut j: usize = 0;
    let mut found: Option<u8> = None;
    while j < max_len && found.is_none()
        invariant
            j <= max_len,
            max_len == max,
            seed == min - 1,
            1 <= min <= max <= 16,
            image_bits.bits@ == bits,
            bits == old(image_bits).bits@,
            start == old(image_bits).pos,
            t == ssss_table.table@,
            min == ssss_table.min_code_length,
            max == ssss_table.max_code_length,
            image_bits.wf(),
            all_bits(bits),
            0 <= start,
            start + seed <= bits.len(),
            found is None ==> image_bits.pos == start + seed + j,
            found is None ==> guess == code_prefix(bits, start, (seed + j) as nat),
            found is None ==> find_code(t, bits, start, seed as nat, 0, max) == find_code(
                t,
                bits,
                start,
                seed as nat,
                j as nat,
                max,
            ),
            found matches Some(v) ==> j >= 1 && find_code(t, bits, start, seed as nat, 0, max) == Ok::<
                nat,
                DecodeError,
            >((seed + j) as nat) && image_bits.pos == start + seed + j && v == t[code_prefix(
                bits,
                start,
                (seed + j) as nat,
            ) as u32],
        decreases max_len - j,
    {
        match image_bits.next_bit() {
            Some(b) => {
                proof {
                    lemma_code_prefix_step(bits, start, (seed + j) as nat);
                    lemma_code_prefix_bounds(bits, start, (seed + j + 1) as nat);
                    assert(pow2(32) == 0x1_0000_0000) by { lemma2_to64(); }
                    if seed + j + 2 < 32 {
                        vstd::arithmetic::power2::lemma_pow2_strictly_increases((seed + j + 2) as nat, 32);
                    }
                }
                guess = guess * 2 + b as u32;
                match ssss_table.table.get(&guess) {
                    Some(v) => {
                        found = Some(*v);
                    },
                    None => {},
                }
            },
            None => {
                return Err(DecodeError::OutOfBits);
            },
        }
        j = j + 1;
    }
    let ssss: u8 = match found {
        Some(v) => v,
        None => {
            return Err(DecodeError::BadHuffmanCode);
        },
    };
    if ssss == 16 {
        return Ok(32768);
    }
    if ssss == 0 {
        return Ok(0);
    }
    if ssss > 16 {
        return Err(DecodeError::BadCategory);
    }
    let ghost p = image_bits.pos as int;
    let ghost n = (seed + j) as nat;
    let first_bit: u8 = match image_bits.next_bit() {
        Some(b) => b,
        None => {
            return Err(DecodeError::OutOfBits);
        },
    };
    proof {
        assert(bits.subrange(p, p) =~= Seq::<u8>::empty());
        lemma_bits_value_step(bits, p, 0);
    }
    let mut pixel_diff: u32 = first_bit as u32;
    let mut k: usize = 1;
    while k < ssss as usize
        invariant
            1 <= k <= ssss,
            1 <= ssss <= 15,
            image_bits.bits@ == bits,
            bits == old(image_bits).bits@,
            start == old(image_bits).pos,
            t == ssss_table.table@,
            min == ssss_table.min_code_length,
            max == ssss_table.max_code_length,
            image_bits.wf(),
            all_bits(bits),
            0 <= p,
            seed == min - 1,
            1 <= min <= max <= 16,
            start + seed <= bits.len(),
            p == start + n,
            find_code(t, bits, start, seed as nat, 0, max) == Ok::<nat, DecodeError>(n),
            ssss == t[code_prefix(bits, start, n) as u32],
            image_bits.pos == p + k,
            pixel_diff == bits_value(bits.subrange(p, p + k)),
        decreases ssss - k,
    {
        match image_bits.next_bit() {
            Some(b) => {
                proof {
                    lemma_bits_value_step(bits, p, k as nat);
                    lemma_code_prefix_bounds(bits, p, (k + 1) as nat);
                    assert(pow2(17) == 0x20000) by { lemma2_to64(); }
                    vstd::arithmetic::power2::lemma_pow2_strictly_increases((k + 1) as nat, 17);
                }
                pixel_diff = pixel_diff * 2 + b as u32;
            },
            None => {
                return Err(DecodeError::OutOfBits);
            },
        }
        k = k + 1;
    }
    proof {
        lemma_code_prefix_bounds(bits, p, ssss as nat);
        assert(bits.subrange(p, p + ssss as int)[0] == first_bit);
        assert(pow2(16) == 0x10000) by { lemma2_to64(); }
        if ssss < 16 {
            vstd::arithmetic::power2::lemma_pow2_strictly_increases(ssss as nat, 16);
        }
        lemma_u32_shl_is_mul(1, ssss as u32);
        assert(1 * pow2(ssss as nat) == pow2(ssss as nat));
        assert(pixel_diff < pow2(ssss as nat));
        assert(pow2(15) == 0x8000) by { lemma2_to64(); }
        if ssss < 15 {
            vstd::arithmetic::power2::lemma_pow2_strictly_increases(ssss as nat, 15);
        }
    }
    let full: u32 = 1u32 << (ssss as u32);
    if first_bit == 0 {
        Ok(-((full - (pixel_diff + 1)) as i32))
    } else {
        Ok(pixel_diff as i32)
    }
}

/// The `n` low bits of `v`, most significant first.
pub open spec fn msb_bits(v: int, n: nat) -> Seq<u8> {
    Seq::new(n, |i: int| ((v / (pow2((n - 1 - i) as nat) as int)) % 2) as u8)
}

/// Magnitude bits that send the difference `d` in category `s`: `d` itself when positive,
/// `d + 2^s - 1` otherwise, on `s` bits.
pub open spec fn magnitude_bits(s: nat, d: int) -> Seq<u8> {
    msb_bits(if d > 0 { d } else { d + pow2(s) - 1 }, s)
}

/// The bits of a value below `2^n` give the value back.
pub proof fn lemma_msb_bits_value(v: int, n: nat)
    requires
        0 <= v < pow2(n),
    ensures
        bits_value(msb_bits(v, n)) == v,
    decreases n,
{
    if n == 0 {
        assert(pow2(0) == 1) by { lemma2_to64(); }
    } else {
        lemma_pow2_unfold(n);
        let h = v / 2;
        lemma_msb_bits_value(h, (n - 1) as nat);
        assert forall|i: int| 0 <= i < n - 1 implies ((v / (pow2((n - 1 - i) as nat) as int)) % 2) as u8
            == #[trigger] msb_bits(h, (n - 1) as nat)[i] by {
            let k = (n - 2 - i) as nat;
            lemma_pow2_unfold(k + 1);
            lemma_pow2_pos(k);
            vstd::arithmetic::div_mod::lemma_div_denominator(v, 2, pow2(k) as int);
        }
        assert(msb_bits(v, n).drop_last() =~= msb_bits(h, (n - 1) as nat));
        assert(pow2(0) == 1) by { lemma2_to64(); }
        assert(msb_bits(v, n)[n - 1] == ((v / (pow2(0) as int)) % 2) as u8);
        assert(v / 1 == v);
        assert(msb_bits(v, n).last() == (v % 2) as u8);
    }
}

/// The first of the `s` bits of `v < 2^s` is 1 exactly when `v >= 2^(s - 1)`.
proof fn lemma_msb_bits_first(v: int, s: nat)
    requires
        1 <= s,
        0 <= v < pow2(s),
    ensures
        msb_bits(v, s)[0] == 1 <==> v >= pow2((s - 1) as nat),
{
    lemma_pow2_unfold(s);
    lemma_pow2_pos((s - 1) as nat);
    let q = v / (pow2((s - 1) as nat) as int);
    vstd::arithmetic::div_mod::lemma_fundamental_div_mod(v, pow2((s - 1) as nat) as int);
    vstd::arithmetic::div_mod::lemma_mod_bound(v, pow2((s - 1) as nat) as int);
    assert(0 <= q < 2) by (nonlinear_arith)
        requires
            v == pow2((s - 1) as nat) * q + v % (pow2((s - 1) as nat) as int),
            0 <= v % (pow2((s - 1) as nat) as int) < pow2((s - 1) as nat),
            0 <= v < 2 * pow2((s - 1) as nat),
    ;
    assert(q == 1 <==> v >= pow2((s - 1) as nat)) by (nonlinear_arith)
        requires
            v == pow2((s - 1) as nat) * q + v % (pow2((s - 1) as nat) as int),
            0 <= v % (pow2((s - 1) as nat) as int) < pow2((s - 1) as nat),
            0 <= q < 2,
    ;
}

/// Sending a difference with the magnitude-bit rule and decoding it gives the difference
/// back, for every category from 1 to 15 and every difference it holds.
pub proof fn lemma_difference_round_trip(s: nat, d: int)
    requires
        1 <= s <= 15,
        pow2((s - 1) as nat) <= d < pow2(s) || -pow2(s) < d <= -pow2((s - 1) as nat),
    ensures
        magnitude_bits(s, d).len() == s,
        all_bits(magnitude_bits(s, d)),
        category_difference(s, magnitude_bits(s, d)) == d,
{
    lemma_pow2_unfold(s);
    let v = if d > 0 { d } else { d + pow2(s) - 1 };
    lemma_msb_bits_value(v, s);
    lemma_msb_bits_first(v, s);
    assert forall|i: int| 0 <= i < s implies #[trigger] magnitude_bits(s, d)[i] <= 1 by {
        lemma_pow2_pos((s - 1 - i) as nat);
        vstd::arithmetic::div_mod::lemma_mod_bound(v / (pow2((s - 1 - i) as nat) as int), 2);
    }
}

/// A code that maps to category 16 stands for the difference 32768 and is followed by no
/// magnitude bits.
pub proof fn lemma_escape_category(t: Map<u32, u8>, min: nat, max: nat, bits: Seq<u8>, pos: int, n: nat)
    requires
        pos + min - 1 <= bits.len(),
        find_code(t, bits, pos, (min - 1) as nat, 0, max) == Ok::<nat, DecodeError>(n),
        t[code_prefix(bits, pos, n) as u32] == 16,
    ensures
        decode_difference(t, min, max, bits, pos) == Ok::<(int, int), DecodeError>((32768, pos + n)),
{
}

} // verus!
