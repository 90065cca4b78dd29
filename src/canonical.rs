use vstd::arithmetic::power2::{lemma_pow2_adds, lemma_pow2_pos, pow2};
use vstd::prelude::*;

use crate::entropy::{
    code_prefix, decode_difference, find_code, lemma_difference_round_trip, lemma_msb_bits_value,
    magnitude_bits, msb_bits,
};
use crate::error::DecodeError;
use crate::huffman::{
    advance, canonical_table, code_length, first_code, length_bounds, lemma_padded_bounds,
    lemma_state_bounds, lemma_stored_code_length, row_entries, state_before, stored_code, symbol_rows,
    table_through,
};

verus! {

/// The canonical derivation never leaves the code space: each row's codes fit its length,
/// and a row that uses the last code of its length is the last row with symbols.
pub open spec fn fits_code_space(rows: Seq<Seq<u8>>) -> bool {
    forall|r: int|
        0 <= r < 16 && #[trigger] rows[r].len() > 0 ==> {
            &&& first_code(rows, r as nat) + rows[r].len() <= pow2((r + 1) as nat)
            &&& first_code(rows, r as nat) + rows[r].len() == pow2((r + 1) as nat) ==> forall|q: int|
                r < q < 16 ==> #[trigger] rows[q].len() == 0
        }
}

/// The bits of code `a` (sentinel excluded) begin the bits of code `b`.
pub open spec fn is_code_prefix(a: u32, b: u32) -> bool {
    &&& code_length(a) <= code_length(b)
    &&& (b as int) / (pow2((code_length(b) - code_length(a)) as nat) as int) == a as int
}

/// Value of a stored code, the sentinel removed.
pub open spec fn code_value(k: u32) -> int {
    k - pow2(code_length(k) as nat)
}

/// First position, among the 2^16 codes of 16 bits, of those that begin with code `k`.
pub open spec fn code_start(k: u32) -> int {
    code_value(k) * pow2((16 - code_length(k)) as nat)
}

/// Position just past the 16-bit codes that begin with code `k`.
pub open spec fn code_end(k: u32) -> int {
    (code_value(k) + 1) * pow2((16 - code_length(k)) as nat)
}

/// Distinct codes of `m` cover disjoint ranges of 16-bit codes.
pub open spec fn disjoint_codes(m: Map<u32, u8>) -> bool {
    forall|a: u32, b: u32|
        #[trigger] m.contains_key(a) && #[trigger] m.contains_key(b) && a != b ==> code_end(a) <= code_start(b)
            || code_end(b) <= code_start(a)
}

/// Every key of `m` is a code of 1 to `max` bits.
pub open spec fn codes_up_to(m: Map<u32, u8>, max: int) -> bool {
    forall|k: u32| #[trigger] m.contains_key(k) ==> 1 <= code_length(k) <= max && 0 <= code_value(k) < pow2(
        code_length(k) as nat,
    )
}

/// Position of the running code before row `r`, among the 16-bit codes.
pub open spec fn state_position(rows: Seq<Seq<u8>>, r: nat) -> int {
    state_before(rows, r).0 * pow2((16 - state_before(rows, r).1) as nat)
}

/// Inside the code space the tree walk counts up by one.
proof fn lemma_advance_counts(f: int, len: nat, j: nat)
    requires
        f + j < pow2(len),
    ensures
        advance(f, len, j) == f + j,
    decreases j,
{
    if j > 0 {
        lemma_advance_counts(f, len, (j - 1) as nat);
    }
}

/// The stored code of `v` on `len` bits has length `len` and value `v`.
proof fn lemma_stored_code_fields(v: int, len: nat)
    requires
        1 <= len <= 16,
        0 <= v < pow2(len),
    ensures
        code_length(stored_code(v, len) as u32) == len,
        code_value(stored_code(v, len) as u32) == v,
{
    lemma_stored_code_length(v, len);
}

/// Entering one row of symbols at fresh positions keeps the codes disjoint.
proof fn lemma_row_disjoint(m: Map<u32, u8>, f: int, len: nat, syms: Seq<u8>)
    requires
        1 <= len <= 16,
        0 <= f,
        f + syms.len() <= pow2(len),
        disjoint_codes(m),
        codes_up_to(m, len - 1),
        forall|k: u32| #[trigger] m.contains_key(k) ==> code_end(k) <= f * pow2((16 - len) as nat),
    ensures
        disjoint_codes(row_entries(m, f, len, syms)),
        codes_up_to(row_entries(m, f, len, syms), len as int),
        forall|k: u32| #[trigger]
            row_entries(m, f, len, syms).contains_key(k) ==> code_end(k) <= (f + syms.len()) * pow2(
                (16 - len) as nat,
            ),
    decreases syms.len(),
{
    let p = pow2((16 - len) as nat);
    lemma_pow2_pos((16 - len) as nat);
    if syms.len() == 0 {
        assert forall|k: u32| #[trigger] m.contains_key(k) implies code_end(k) <= (f + syms.len()) * p by {}
    } else {
        let j = (syms.len() - 1) as nat;
        let prev = row_entries(m, f, len, syms.drop_last());
        lemma_row_disjoint(m, f, len, syms.drop_last());
        lemma_advance_counts(f, len, j);
        let key = stored_code(f + j, len) as u32;
        lemma_stored_code_fields(f + j, len);
        assert(code_start(key) == (f + j) * p);
        assert(code_end(key) == (f + j) * p + p) by (nonlinear_arith)
            requires
                code_end(key) == (code_value(key) + 1) * p,
                code_value(key) == f + j,
        ;
        assert((f + j) * p + p == (f + syms.len()) * p) by (nonlinear_arith)
            requires
                j + 1 == syms.len(),
        ;
        let next = row_entries(m, f, len, syms);
        assert(next == prev.insert(key, syms[j as int]));
        assert forall|a: u32, b: u32|
            #[trigger] next.contains_key(a) && #[trigger] next.contains_key(b) && a != b implies code_end(a)
                <= code_start(b) || code_end(b) <= code_start(a) by {
            if a != key && b != key {
                assert(prev.contains_key(a) && prev.contains_key(b));
            }
        }
        assert forall|k: u32| #[trigger] next.contains_key(k) implies code_end(k) <= (f + syms.len()) * p by {
            if k != key {
                assert(prev.contains_key(k));
            }
        }
    }
}

/// Codes of the rows before `r` are disjoint; unless no later row holds symbols, they all
/// lie before the running code.
proof fn lemma_rows_disjoint(rows: Seq<Seq<u8>>, r: nat)
    requires
        rows.len() == 16,
        fits_code_space(rows),
        r <= 16,
    ensures
        disjoint_codes(table_through(rows, r)),
        codes_up_to(table_through(rows, r), r as int),
        (forall|q: int| r <= q < 16 ==> #[trigger] rows[q].len() == 0) || (forall|k: u32| #[trigger]
            table_through(rows, r).contains_key(k) ==> code_end(k) <= state_position(rows, r)),
    decreases r,
{
    if r > 0 {
        let q = (r - 1) as nat;
        lemma_rows_disjoint(rows, q);
        let st = state_before(rows, q);
        lemma_state_bounds(rows, q);
        if rows[q as int].len() > 0 {
            let f = first_code(rows, q);
            let k = rows[q as int].len();
            let p = pow2((16 - r) as nat);
            lemma_padded_bounds(st.0, st.1, r);
            lemma_pow2_adds((r - st.1) as nat, (16 - r) as nat);
            assert(f * p == state_position(rows, q)) by (nonlinear_arith)
                requires
                    f == st.0 * pow2((r - st.1) as nat),
                    pow2((r - st.1) as nat) * p == pow2((16 - st.1) as nat),
                    state_position(rows, q) == st.0 * pow2((16 - st.1) as nat),
            ;
            assert(!(forall|q2: int| q <= q2 < 16 ==> #[trigger] rows[q2].len() == 0));
            lemma_row_disjoint(table_through(rows, q), f, r, rows[q as int]);
            if f + k < pow2(r) {
                lemma_advance_counts(f, r, k);
                assert(state_before(rows, r) == (f + k, r));
            } else {
                assert(forall|q2: int| q < q2 < 16 ==> #[trigger] rows[q2].len() == 0);
            }
        }
    } else {
        assert(table_through(rows, 0) == Map::<u32, u8>::empty());
    }
}

/// Codes that cover disjoint ranges are not prefixes of one another.
proof fn lemma_disjoint_not_prefix(a: u32, b: u32)
    requires
        1 <= code_length(a) <= 16,
        1 <= code_length(b) <= 16,
        0 <= code_value(a) < pow2(code_length(a) as nat),
        0 <= code_value(b) < pow2(code_length(b) as nat),
        code_end(a) <= code_start(b) || code_end(b) <= code_start(a),
    ensures
        !is_code_prefix(a, b),
{
    if is_code_prefix(a, b) {
        let la = code_length(a) as nat;
        let lb = code_length(b) as nat;
        let d = (lb - la) as nat;
        let va = code_value(a);
        let vb = code_value(b);
        let pd = pow2(d) as int;
        let pb = pow2((16 - lb) as nat) as int;
        lemma_pow2_pos(d);
        lemma_pow2_pos((16 - lb) as nat);
        lemma_pow2_adds(la, d);
        lemma_pow2_adds(d, (16 - lb) as nat);
        let rem = vb % pd;
        vstd::arithmetic::div_mod::lemma_fundamental_div_mod(vb, pd);
        vstd::arithmetic::div_mod::lemma_mod_bound(vb, pd);
        let x = pow2(la) + vb / pd;
        assert((b as int) == pd * x + rem) by (nonlinear_arith)
            requires
                (b as int) == pow2(lb) + vb,
                pow2(lb) == pow2(la) * pd,
                vb == pd * (vb / pd) + rem,
                x == pow2(la) + vb / pd,
        ;
        vstd::arithmetic::div_mod::lemma_div_multiples_vanish_fancy(x, rem, pd);
        assert(va == vb / pd);
        assert(code_start(b) == vb * pb);
        assert(code_start(a) == va * (pd * pb));
        assert(code_end(a) == (va + 1) * (pd * pb));
        assert(code_end(b) == (vb + 1) * pb);
        assert(false) by (nonlinear_arith)
            requires
                vb == pd * va + rem,
                0 <= rem < pd,
                pb > 0,
                code_start(b) == vb * pb,
                code_start(a) == va * (pd * pb),
                code_end(a) == (va + 1) * (pd * pb),
                code_end(b) == (vb + 1) * pb,
                code_end(a) <= code_start(b) || code_end(b) <= code_start(a),
        ;
    }
}

/// A canonical table is prefix free: when the derivation stays within the code space, no
/// code of the table begins another.
pub proof fn lemma_canonical_prefix_free(lengths: [[Option<u8>; 16]; 16])
    requires
        fits_code_space(symbol_rows(lengths)),
    ensures
        forall|a: u32, b: u32|
            #[trigger] canonical_table(lengths).contains_key(a) && #[trigger] canonical_table(
                lengths,
            ).contains_key(b) && a != b ==> !is_code_prefix(a, b),
{
    let rows = symbol_rows(lengths);
    let t = canonical_table(lengths);
    lemma_rows_disjoint(rows, 16);
    assert forall|a: u32, b: u32|
        #[trigger] t.contains_key(a) && #[trigger] t.contains_key(b) && a != b implies !is_code_prefix(a, b) by {
        lemma_disjoint_not_prefix(a, b);
    }
}

/// Building a table is a function of the code-length table: two results that meet the
/// builder's contract are the same table with the same shortest and longest lengths.
pub proof fn lemma_build_deterministic(
    lengths: [[Option<u8>; 16]; 16],
    t1: Map<u32, u8>,
    min1: usize,
    max1: usize,
    t2: Map<u32, u8>,
    min2: usize,
    max2: usize,
)
    requires
        t1 == canonical_table(lengths),
        length_bounds(t1, min1, max1),
        t2 == canonical_table(lengths),
        length_bounds(t2, min2, max2),
    ensures
        t1 == t2,
        min1 == min2,
        max1 == max2,
{
    if exists|k: u32| t1.contains_key(k) {
        let a1 = choose|k: u32| t1.contains_key(k) && code_length(k) == min1;
        let a2 = choose|k: u32| t2.contains_key(k) && code_length(k) == min2;
        let b1 = choose|k: u32| t1.contains_key(k) && code_length(k) == max1;
        let b2 = choose|k: u32| t2.contains_key(k) && code_length(k) == max2;
        assert(t1.contains_key(a2) && t2.contains_key(a1) && t1.contains_key(b2) && t2.contains_key(b1));
    }
}

/// Kraft sum of the rows before `r`, in units of `2^-16`: each symbol of row `q` (codes of
/// `q + 1` bits) counts `2^(15 - q)`.
pub open spec fn kraft_sum(rows: Seq<Seq<u8>>, r: nat) -> int
    decreases r,
{
    if r == 0 {
        0
    } else {
        kraft_sum(rows, (r - 1) as nat) + rows[r - 1].len() * pow2((16 - r) as nat)
    }
}

/// Kraft sums grow with the rows counted.
proof fn lemma_kraft_grows(rows: Seq<Seq<u8>>, q: nat, r: nat)
    requires
        q <= r,
    ensures
        kraft_sum(rows, q) <= kraft_sum(rows, r),
    decreases r - q,
{
    if q < r {
        lemma_kraft_grows(rows, q, (r - 1) as nat);
        lemma_pow2_pos((16 - r) as nat);
        assert(rows[r - 1].len() * pow2((16 - r) as nat) >= 0) by (nonlinear_arith);
    }
}

/// A row with symbols at or after row `r` adds to the Kraft sum of all rows.
proof fn lemma_kraft_later_row(rows: Seq<Seq<u8>>, r: nat, q: nat)
    requires
        r <= q < 16,
        rows[q as int].len() > 0,
    ensures
        kraft_sum(rows, 16) >= kraft_sum(rows, r) + 1,
{
    lemma_kraft_grows(rows, r, q);
    lemma_kraft_grows(rows, q + 1, 16);
    lemma_pow2_pos((15 - q) as nat);
    assert(rows[q as int].len() * pow2((15 - q) as nat) >= 1) by (nonlinear_arith)
        requires
            rows[q as int].len() >= 1,
            pow2((15 - q) as nat) >= 1,
    ;
}

/// Under the Kraft inequality the running code sits at the Kraft sum of the rows before
/// it, unless no later row holds symbols.
proof fn lemma_kraft_state(rows: Seq<Seq<u8>>, r: nat)
    requires
        rows.len() == 16,
        kraft_sum(rows, 16) <= pow2(16),
        r <= 16,
    ensures
        (forall|q: int| r <= q < 16 ==> #[trigger] rows[q].len() == 0) || state_position(rows, r)
            == kraft_sum(rows, r),
    decreases r,
{
    if r == 0 {
        assert(state_before(rows, 0) == (0int, 0nat));
        assert(0 * pow2(16) == 0);
    } else {
        let q = (r - 1) as nat;
        lemma_kraft_state(rows, q);
        let st = state_before(rows, q);
        lemma_state_bounds(rows, q);
        let k = rows[q as int].len();
        if k > 0 {
            assert(!(forall|q2: int| q <= q2 < 16 ==> #[trigger] rows[q2].len() == 0));
            let f = first_code(rows, q);
            let p = pow2((16 - r) as nat);
            lemma_padded_bounds(st.0, st.1, r);
            lemma_pow2_adds((r - st.1) as nat, (16 - r) as nat);
            lemma_pow2_adds(r, (16 - r) as nat);
            lemma_pow2_pos((16 - r) as nat);
            assert(f * p == state_position(rows, q)) by (nonlinear_arith)
                requires
                    f == st.0 * pow2((r - st.1) as nat),
                    pow2((r - st.1) as nat) * p == pow2((16 - st.1) as nat),
                    state_position(rows, q) == st.0 * pow2((16 - st.1) as nat),
            ;
            assert(kraft_sum(rows, r) == (f + k) * p) by (nonlinear_arith)
                requires
                    kraft_sum(rows, r) == kraft_sum(rows, q) + k * p,
                    kraft_sum(rows, q) == f * p,
            ;
            lemma_kraft_grows(rows, r, 16);
            assert(f + k <= pow2(r)) by (nonlinear_arith)
                requires
                    (f + k) * p <= pow2(r) * p,
                    p > 0,
            ;
            if f + k < pow2(r) {
                lemma_advance_counts(f, r, k);
                assert(state_before(rows, r) == (f + k, r));
            } else {
                assert forall|q2: int| r <= q2 < 16 implies #[trigger] rows[q2].len() == 0 by {
                    if rows[q2].len() > 0 {
                        lemma_kraft_later_row(rows, r, q2 as nat);
                    }
                }
            }
        }
    }
}

/// Code lengths that meet the Kraft inequality keep the canonical derivation within the
/// code space.
pub proof fn lemma_kraft_fits(rows: Seq<Seq<u8>>)
    requires
        rows.len() == 16,
        kraft_sum(rows, 16) <= pow2(16),
    ensures
        fits_code_space(rows),
{
    assert forall|r: int| 0 <= r < 16 && #[trigger] rows[r].len() > 0 implies {
        &&& first_code(rows, r as nat) + rows[r].len() <= pow2((r + 1) as nat)
        &&& first_code(rows, r as nat) + rows[r].len() == pow2((r + 1) as nat) ==> forall|q: int|
            r < q < 16 ==> #[trigger] rows[q].len() == 0
    } by {
        lemma_kraft_state(rows, r as nat);
        lemma_kraft_state(rows, (r + 1) as nat);
        assert(!(forall|q2: int| r <= q2 < 16 ==> #[trigger] rows[q2].len() == 0));
        let st = state_before(rows, r as nat);
        lemma_state_bounds(rows, r as nat);
        let l = (r + 1) as nat;
        let f = first_code(rows, r as nat);
        let k = rows[r].len();
        let p = pow2((16 - l) as nat);
        lemma_padded_bounds(st.0, st.1, l);
        lemma_pow2_adds((l - st.1) as nat, (16 - l) as nat);
        lemma_pow2_adds(l, (16 - l) as nat);
        lemma_pow2_pos((16 - l) as nat);
        assert(f * p == state_position(rows, r as nat)) by (nonlinear_arith)
            requires
                f == st.0 * pow2((l - st.1) as nat),
                pow2((l - st.1) as nat) * p == pow2((16 - st.1) as nat),
                state_position(rows, r as nat) == st.0 * pow2((16 - st.1) as nat),
        ;
        assert(kraft_sum(rows, l) == (f + k) * p) by (nonlinear_arith)
            requires
                kraft_sum(rows, l) == kraft_sum(rows, r as nat) + k * p,
                kraft_sum(rows, r as nat) == f * p,
        ;
        lemma_kraft_grows(rows, l, 16);
        assert(f + k <= pow2(l)) by (nonlinear_arith)
            requires
                (f + k) * p <= pow2(l) * p,
                p > 0,
        ;
        if f + k == pow2(l) {
            assert forall|q: int| r < q < 16 implies #[trigger] rows[q].len() == 0 by {
                if rows[q].len() > 0 {
                    lemma_kraft_later_row(rows, l, q as nat);
                }
            }
        }
    }
}

/// A canonical table built from code lengths that meet the Kraft inequality is prefix
/// free: no code of the table begins another.
pub proof fn lemma_kraft_prefix_free(lengths: [[Option<u8>; 16]; 16])
    requires
        kraft_sum(symbol_rows(lengths), 16) <= pow2(16),
    ensures
        forall|a: u32, b: u32|
            #[trigger] canonical_table(lengths).contains_key(a) && #[trigger] canonical_table(
                lengths,
            ).contains_key(b) && a != b ==> !is_code_prefix(a, b),
{
    lemma_kraft_fits(symbol_rows(lengths));
    lemma_canonical_prefix_free(lengths);
}

/// The first `l` of the `n` bits of `v` are the bits of `v / 2^(n - l)`.
proof fn lemma_msb_bits_take(v: int, n: nat, l: nat)
    requires
        l <= n,
        0 <= v,
    ensures
        msb_bits(v, n).take(l as int) =~= msb_bits(v / (pow2((n - l) as nat) as int), l),
{
    let d = (n - l) as nat;
    lemma_pow2_pos(d);
    assert forall|i: int| 0 <= i < l implies #[trigger] msb_bits(v, n).take(l as int)[i] == msb_bits(
        v / (pow2(d) as int),
        l,
    )[i] by {
        let e = (l - 1 - i) as nat;
        lemma_pow2_pos(e);
        lemma_pow2_adds(d, e);
        vstd::arithmetic::div_mod::lemma_div_denominator(v, pow2(d) as int, pow2(e) as int);
        assert((n - 1 - i) as nat == d + e);
    }
}

/// Reading `l` bits of a sent code of `n` bits gives the code's first `l` bits.
proof fn lemma_code_prefix_of_sent(bits: Seq<u8>, pos: int, k: u32, l: nat)
    requires
        1 <= code_length(k) <= 16,
        0 <= code_value(k) < pow2(code_length(k) as nat),
        0 <= pos,
        pos + code_length(k) <= bits.len(),
        bits.subrange(pos, pos + code_length(k)) == msb_bits(code_value(k), code_length(k) as nat),
        1 <= l <= code_length(k),
    ensures
        code_length(code_prefix(bits, pos, l) as u32) == l,
        code_prefix(bits, pos, l) < 0x20000,
        l < code_length(k) ==> is_code_prefix(code_prefix(bits, pos, l) as u32, k),
        l == code_length(k) ==> code_prefix(bits, pos, l) as u32 == k,
{
    let n = code_length(k) as nat;
    let v = code_value(k);
    let d = (n - l) as nat;
    let pd = pow2(d) as int;
    lemma_pow2_pos(d);
    lemma_msb_bits_take(v, n, l);
    assert(bits.subrange(pos, pos + l) =~= msb_bits(v, n).take(l as int));
    let w = v / pd;
    lemma_pow2_adds(l, d);
    vstd::arithmetic::div_mod::lemma_fundamental_div_mod(v, pd);
    vstd::arithmetic::div_mod::lemma_mod_bound(v, pd);
    assert(0 <= w < pow2(l)) by (nonlinear_arith)
        requires
            v == pd * w + v % pd,
            0 <= v % pd < pd,
            0 <= v < pow2(l) * pd,
            pd > 0,
    ;
    lemma_msb_bits_value(w, l);
    assert(code_prefix(bits, pos, l) == stored_code(w, l));
    lemma_stored_code_length(w, l);
    if l < n {
        let a = code_prefix(bits, pos, l) as u32;
        let rem = v % pd;
        assert((k as int) == pd * (pow2(l) + w) + rem) by (nonlinear_arith)
            requires
                (k as int) == pow2(n) + v,
                pow2(n) == pow2(l) * pd,
                v == pd * w + rem,
        ;
        vstd::arithmetic::div_mod::lemma_div_multiples_vanish_fancy(pow2(l) + w, rem, pd);
        assert(is_code_prefix(a, k));
    } else {
        assert(pow2(0) == 1) by { vstd::arithmetic::power2::lemma2_to64(); }
        assert(d == 0);
        assert(pd == 1);
        assert(v / 1 == v);
        assert(w == v);
    }
}

/// On a canonical table from code lengths that meet the Kraft inequality, the code search
/// at `pos` stops at the code `k` sent there, after exactly its bits.
proof fn lemma_search_finds_sent_code(
    lengths: [[Option<u8>; 16]; 16],
    min: usize,
    max: usize,
    bits: Seq<u8>,
    pos: int,
    k: u32,
    j: nat,
)
    requires
        kraft_sum(symbol_rows(lengths), 16) <= pow2(16),
        length_bounds(canonical_table(lengths), min, max),
        canonical_table(lengths).contains_key(k),
        0 <= pos,
        pos + code_length(k) <= bits.len(),
        bits.subrange(pos, pos + code_length(k)) == msb_bits(code_value(k), code_length(k) as nat),
        min - 1 + j < code_length(k),
    ensures
        find_code(canonical_table(lengths), bits, pos, (min - 1) as nat, j, max as nat) == Ok::<
            nat,
            DecodeError,
        >(code_length(k) as nat),
        code_prefix(bits, pos, code_length(k) as nat) as u32 == k,
    decreases code_length(k) - j,
{
    let t = canonical_table(lengths);
    let rows = symbol_rows(lengths);
    lemma_kraft_fits(rows);
    lemma_rows_disjoint(rows, 16);
    lemma_kraft_prefix_free(lengths);
    let l = (min - 1 + j + 1) as nat;
    lemma_code_prefix_of_sent(bits, pos, k, l);
    lemma_code_prefix_of_sent(bits, pos, k, code_length(k) as nat);
    if l < code_length(k) {
        let a = code_prefix(bits, pos, l) as u32;
        if t.contains_key(a) {
            assert(a != k);
            assert(!is_code_prefix(a, k));
        }
        lemma_search_finds_sent_code(lengths, min, max, bits, pos, k, j + 1);
    }
}

/// Sending a difference `d` of category `s` (1 to 15) as the code of `s` in a canonical table
/// from code lengths that meet the Kraft inequality, followed by its magnitude bits, decodes
/// back to `d` after exactly those bits.
pub proof fn lemma_decode_round_trip(
    lengths: [[Option<u8>; 16]; 16],
    min: usize,
    max: usize,
    bits: Seq<u8>,
    pos: int,
    k: u32,
    s: nat,
    d: int,
)
    requires
        kraft_sum(symbol_rows(lengths), 16) <= pow2(16),
        length_bounds(canonical_table(lengths), min, max),
        canonical_table(lengths).contains_key(k),
        canonical_table(lengths)[k] == s,
        1 <= s <= 15,
        pow2((s - 1) as nat) <= d < pow2(s) || -pow2(s) < d <= -pow2((s - 1) as nat),
        0 <= pos,
        pos + code_length(k) + s <= bits.len(),
        bits.subrange(pos, pos + code_length(k)) == msb_bits(code_value(k), code_length(k) as nat),
        bits.subrange(pos + code_length(k), pos + code_length(k) + s) == magnitude_bits(s, d),
    ensures
        decode_difference(canonical_table(lengths), min as nat, max as nat, bits, pos) == Ok::<
            (int, int),
            DecodeError,
        >((d, pos + code_length(k) + s)),
{
    lemma_kraft_fits(symbol_rows(lengths));
    lemma_rows_disjoint(symbol_rows(lengths), 16);
    lemma_search_finds_sent_code(lengths, min, max, bits, pos, k, 0);
    lemma_difference_round_trip(s, d);
}

/// A code of category 16 in a canonical table from code lengths that meet the Kraft
/// inequality decodes to 32768 after exactly the code's bits.
pub proof fn lemma_escape_reads_code_only(
    lengths: [[Option<u8>; 16]; 16],
    min: usize,
    max: usize,
    bits: Seq<u8>,
    pos: int,
    k: u32,
)
    requires
        kraft_sum(symbol_rows(lengths), 16) <= pow2(16),
        length_bounds(canonical_table(lengths), min, max),
        canonical_table(lengths).contains_key(k),
        canonical_table(lengths)[k] == 16,
        0 <= pos,
        pos + code_length(k) <= bits.len(),
        bits.subrange(pos, pos + code_length(k)) == msb_bits(code_value(k), code_length(k) as nat),
    ensures
        decode_difference(canonical_table(lengths), min as nat, max as nat, bits, pos) == Ok::<
            (int, int),
            DecodeError,
        >((32768, pos + code_length(k))),
{
    lemma_kraft_fits(symbol_rows(lengths));
    lemma_rows_disjoint(symbol_rows(lengths), 16);
    lemma_search_finds_sent_code(lengths, min, max, bits, pos, k, 0);
}

} // verus!
