use vstd::arithmetic::power2::{lemma2_to64, lemma_pow2_pos, lemma_pow2_unfold, pow2, lemma_pow2_adds};
use vstd::bits::lemma_u32_shl_is_mul;
use vstd::prelude::*;
use std::collections::HashMap;

verus! {

/// Number of significant bits in `n`: the position of its highest set bit, counted from one.
pub open spec fn bit_len(n: nat) -> nat
    decreases n,
{
    if n == 0 {
        0
    } else {
        1 + bit_len(n / 2)
    }
}

/// A value below `2^k` needs at most `k` bits.
pub proof fn lemma_bit_len_at_most(n: nat, k: nat)
    requires
        n < pow2(k),
    ensures
        bit_len(n) <= k,
    decreases k,
{
    if k > 0 && n > 0 {
        lemma_pow2_unfold(k);
        lemma_bit_len_at_most(n / 2, (k - 1) as nat);
    } else if n > 0 {
        assert(pow2(0) == 1) by { lemma2_to64(); }
    }
}

/// A value in `[2^(k-1), 2^k)` needs exactly `k` bits.
pub proof fn lemma_bit_len_exact(n: nat, k: nat)
    requires
        k >= 1,
        pow2((k - 1) as nat) <= n < pow2(k),
    ensures
        bit_len(n) == k,
    decreases k,
{
    lemma_pow2_unfold(k);
    if k == 1 {
        assert(pow2(0) == 1) by { lemma2_to64(); }
        assert(n == 1);
        assert(bit_len(0) == 0);
    } else {
        lemma_pow2_unfold((k - 1) as nat);
        lemma_bit_len_exact(n / 2, (k - 1) as nat);
    }
}

/// Number of bits that `numb` occupies once its leading zeros are dropped.
pub fn number_of_used_bits(numb: &u32) -> (r: usize)
    ensures
        r == bit_len(*numb as nat),
        r <= 32,
{
    proof {
        assert(pow2(32) == 0x1_0000_0000) by { lemma2_to64(); }
        lemma_bit_len_at_most(*numb as nat, 32);
    }
    let mut v: u32 = *numb;
    let mut n: usize = 0;
    while v > 0
        invariant
            n + bit_len(v as nat) == bit_len(*numb as nat),
            n <= 32,
            bit_len(*numb as nat) <= 32,
        decreases v,
    {
        v = v / 2;
        n = n + 1;
    }
    n
}


/// A Huffman table of one DHT segment: codes, in stored form, mapped to magnitude
/// categories, with the shortest and longest code length.
pub struct SSSSTable {
    /// Table class: 0 for a DC or lossless table, 1 for an AC table.
    pub t_c: u8,
    /// Destination identifier under which the table is registered.
    pub t_h: u8,
    pub table: HashMap<u32, u8>,
    pub min_code_length: usize,
    pub max_code_length: usize,
}

impl SSSSTable {
    /// The code lengths are those of a table that holds at least one code.
    pub open spec fn wf(&self) -> bool {
        1 <= self.min_code_length <= self.max_code_length <= 16
    }
}

/// Bits of a stored code, the leading sentinel 1 excluded.
pub open spec fn code_length(key: u32) -> int {
    bit_len(key as nat) - 1
}

/// Stored form of a code of `len` bits whose value is `c`: the bits behind a sentinel 1.
pub open spec fn stored_code(c: int, len: nat) -> int {
    pow2(len) + c
}

/// Symbols of one row of a code-length table, in order, holes skipped.
pub open spec fn row_symbols(row: Seq<Option<u8>>) -> Seq<u8>
    decreases row.len(),
{
    if row.len() == 0 {
        Seq::empty()
    } else {
        let rest = row_symbols(row.drop_last());
        match row.last() {
            Some(v) => rest.push(v),
            None => rest,
        }
    }
}

/// Row `r` (codes of `r + 1` bits) of a code-length table, as a sequence of symbols.
pub open spec fn symbol_rows(lengths: [[Option<u8>; 16]; 16]) -> Seq<Seq<u8>> {
    Seq::new(16, |r: int| row_symbols(lengths@[r]@))
}

/// The code that follows a code of value `c` among the codes of `len` bits: the tree walk
/// moves to the next leaf on the right, or, from the rightmost leaf, back to the
/// leftmost leaf under the root's right branch.
pub open spec fn next_code(c: int, len: nat) -> int {
    if c + 1 < pow2(len) {
        c + 1
    } else {
        pow2((len - 1) as nat) as int
    }
}

/// `n` steps of `next_code` from `c`.
pub open spec fn advance(c: int, len: nat, n: nat) -> int
    decreases n,
{
    if n == 0 {
        c
    } else {
        next_code(advance(c, len, (n - 1) as nat), len)
    }
}

/// Value and length of the running code when row `r` is reached: the code one past the
/// last code assigned so far.
pub open spec fn state_before(rows: Seq<Seq<u8>>, r: nat) -> (int, nat)
    decreases r,
{
    if r == 0 {
        (0, 0)
    } else {
        let prev = state_before(rows, (r - 1) as nat);
        if rows[r - 1].len() == 0 {
            prev
        } else {
            (advance(prev.0 * pow2((r - prev.1) as nat), r, rows[r - 1].len()), r)
        }
    }
}

/// Value of the first code given to row `r`: the running code, padded to `r + 1` bits.
pub open spec fn first_code(rows: Seq<Seq<u8>>, r: nat) -> int {
    let st = state_before(rows, r);
    st.0 * pow2((r + 1 - st.1) as nat)
}

/// `m` with the symbols of one row entered in order, the `j`-th under `advance(first, len, j)`.
pub open spec fn row_entries(m: Map<u32, u8>, first: int, len: nat, syms: Seq<u8>) -> Map<u32, u8>
    decreases syms.len(),
{
    if syms.len() == 0 {
        m
    } else {
        let j = (syms.len() - 1) as nat;
        row_entries(m, first, len, syms.drop_last()).insert(
            stored_code(advance(first, len, j), len) as u32,
            syms[j as int],
        )
    }
}

/// The table after rows `0..r` have been entered.
pub open spec fn table_through(rows: Seq<Seq<u8>>, r: nat) -> Map<u32, u8>
    decreases r,
{
    if r == 0 {
        Map::empty()
    } else {
        row_entries(
            table_through(rows, (r - 1) as nat),
            first_code(rows, (r - 1) as nat),
            r,
            rows[r - 1],
        )
    }
}

/// The code-to-symbol table that canonical assignment gives for a code-length table.
pub open spec fn canonical_table(lengths: [[Option<u8>; 16]; 16]) -> Map<u32, u8> {
    table_through(symbol_rows(lengths), 16)
}

/// `min` and `max` are the shortest and longest code lengths of `t`; both are 0 for an
/// empty table.
pub open spec fn length_bounds(t: Map<u32, u8>, min: usize, max: usize) -> bool {
    &&& forall|k: u32| t.contains_key(k) ==> min <= code_length(k) <= max
    &&& (exists|k: u32| t.contains_key(k)) ==> {
        &&& exists|k: u32| t.contains_key(k) && code_length(k) == min
        &&& exists|k: u32| t.contains_key(k) && code_length(k) == max
    }
    &&& (forall|k: u32| !t.contains_key(k)) ==> min == 0 && max == 0
}

/// The stored form of a code of `len` bits has `len + 1` bits.
pub proof fn lemma_stored_code_length(c: int, len: nat)
    requires
        len <= 16,
        0 <= c < pow2(len),
    ensures
        bit_len(stored_code(c, len) as nat) == len + 1,
        0 < stored_code(c, len) < 0x20000,
{
    lemma_pow2_unfold(len + 1);
    assert(pow2(17) == 0x20000) by { lemma2_to64(); }
    if len + 1 < 17 {
        vstd::arithmetic::power2::lemma_pow2_strictly_increases(len + 1, 17);
    }
    lemma_pow2_pos(len);
    lemma_bit_len_exact(stored_code(c, len) as nat, len + 1);
}

/// Every code of `len` bits that the tree walk reaches stays below `2^len`.
pub proof fn lemma_advance_bounds(c: int, len: nat, n: nat)
    requires
        len >= 1,
        0 <= c < pow2(len),
    ensures
        0 <= advance(c, len, n) < pow2(len),
    decreases n,
{
    if n > 0 {
        lemma_advance_bounds(c, len, (n - 1) as nat);
        lemma_pow2_unfold(len);
        lemma_pow2_pos((len - 1) as nat);
    }
}

/// The running code always fits its length, and that length never passes the row count.
pub proof fn lemma_state_bounds(rows: Seq<Seq<u8>>, r: nat)
    ensures
        state_before(rows, r).1 <= r,
        0 <= state_before(rows, r).0 < pow2(state_before(rows, r).1),
    decreases r,
{
    lemma_pow2_pos(0);
    if r > 0 {
        lemma_state_bounds(rows, (r - 1) as nat);
        let prev = state_before(rows, (r - 1) as nat);
        if rows[r - 1].len() > 0 {
            lemma_padded_bounds(prev.0, prev.1, r);
            lemma_advance_bounds(prev.0 * pow2((r - prev.1) as nat), r, rows[r - 1].len());
        }
    }
}

/// Padding a code of `l` bits with zeros to `len` bits keeps it below `2^len`.
pub proof fn lemma_padded_bounds(c: int, l: nat, len: nat)
    requires
        l <= len,
        0 <= c < pow2(l),
    ensures
        0 <= c * pow2((len - l) as nat) < pow2(len),
{
    let d = (len - l) as nat;
    lemma_pow2_adds(l, d);
    lemma_pow2_pos(d);
    assert(c * pow2(d) < pow2(l) * pow2(d)) by (nonlinear_arith)
        requires
            c < pow2(l),
            pow2(d) > 0,
    ;
    assert(0 <= c * pow2(d)) by (nonlinear_arith)
        requires
            c >= 0,
    ;
}

/// Symbols of `row`, in order, holes skipped.
fn row_symbols_of(row: &[Option<u8>; 16]) -> (r: Vec<u8>)
    ensures
        r@ == row_symbols(row@),
        r@.len() <= 16,
{
    let mut values: Vec<u8> = Vec::new();
    let mut i: usize = 0;
    while i < 16
        invariant
            i <= 16,
            values@ == row_symbols(row@.take(i as int)),
            values@.len() <= i,
        decreases 16 - i,
    {
        assert(row@.take(i + 1).drop_last() =~= row@.take(i as int));
        match row[i] {
            Some(v) => values.push(v),
            None => {},
        }
        i = i + 1;
    }
    assert(row@.take(16) =~= row@);
    values
}

/// Pads a stored code of `l` bits with zeros on the right until it has `len` bits.
fn shift_to_length(code: u32, len: usize, Ghost(c): Ghost<int>, Ghost(l): Ghost<nat>) -> (r: u32)
    requires
        1 <= len <= 16,
        l <= len,
        0 <= c < pow2(l),
        code == stored_code(c, l),
    ensures
        r == stored_code(c * pow2((len - l) as nat), len as nat),
{
    proof {
        lemma_stored_code_length(c, l);
    }
    let used = number_of_used_bits(&code);
    let shift = len - (used - 1);
    proof {
        let d = shift as nat;
        lemma_pow2_adds(l, d);
        lemma_padded_bounds(c, l, len as nat);
        assert(code * pow2(d) == pow2(len as nat) + c * pow2(d)) by (nonlinear_arith)
            requires
                code == pow2(l) + c,
                pow2(l) * pow2(d) == pow2(len as nat),
        ;
        assert(pow2(17) == 0x20000) by { lemma2_to64(); }
        vstd::arithmetic::power2::lemma_pow2_strictly_increases(len as nat, 17);
        lemma_u32_shl_is_mul(code, shift as u32);
    }
    code << (shift as u32)
}

/// `bit_len(n) <= 1` exactly for `n <= 1`.
proof fn lemma_bit_len_at_most_one(n: nat)
    ensures
        bit_len(n) <= 1 <==> n <= 1,
{
    if n >= 2 {
        assert(bit_len(n / 2) >= 1);
    } else if n == 1 {
        assert(bit_len(0) == 0);
    }
}

/// Moves a stored code of `len` bits to the next code of the same length: trailing 1 bits
/// are dropped until a 0 bit has been dropped or only the sentinel is left, a 1 bit is
/// appended, and zeros pad the code back to `len` bits.
fn next_code_of_length(code: u32, len: usize, Ghost(c): Ghost<int>) -> (r: u32)
    requires
        1 <= len <= 16,
        0 <= c < pow2(len as nat),
        code == stored_code(c, len as nat),
    ensures
        r == stored_code(next_code(c, len as nat), len as nat),
{
    let ghost s = code as int;
    let ghost l = len as nat;
    let mut code = code;
    let ghost mut t: nat = 0;
    proof {
        lemma_pow2_unfold(l + 1);
        assert(pow2(0) == 1) by { lemma2_to64(); }
    }
    let mut removed: u32 = 0;
    loop
        invariant_except_break
            pow2((l - t) as nat) <= code < pow2((l - t + 1) as nat),
            s == code * pow2(t) + pow2(t) - 1,
        invariant
            1 <= len <= 16,
            s == stored_code(c, l),
            0 <= c < pow2(l),
            l == len,
            t < l,
        ensures
            pow2((l - t - 1) as nat) <= code < pow2((l - t) as nat),
            removed == 0 ==> s == code * pow2(t + 1) + pow2(t) - 1,
            removed != 0 ==> code <= 1 && s == code * pow2(t + 1) + pow2(t + 1) - 1,
        decreases l - t,
    {
        removed = code % 2;
        code = code / 2;
        proof {
            lemma_pow2_unfold((l - t) as nat);
            lemma_pow2_unfold((l - t + 1) as nat);
            lemma_pow2_unfold(t + 1);
            lemma_bit_len_at_most_one(code as nat);
            assert(s == code * pow2(t + 1) + removed * pow2(t) + pow2(t) - 1) by (nonlinear_arith)
                requires
                    s == (2 * code + removed) * pow2(t) + pow2(t) - 1,
                    pow2(t + 1) == 2 * pow2(t),
            ;
            if removed != 0 {
                assert(removed == 1);
                assert(removed * pow2(t) == pow2(t));
            }
        }
        if removed == 0 || number_of_used_bits(&code) <= 1 {
            break;
        }
        proof {
            assert(pow2(1) == 2) by { lemma2_to64(); }
            t = t + 1;
        }
    }
    let ghost q = code as int;
    proof {
        assert(pow2(17) == 0x20000) by { lemma2_to64(); }
        vstd::arithmetic::power2::lemma_pow2_strictly_increases((l - t) as nat, 17);
    }
    code = code * 2 + 1;
    proof {
        lemma_pow2_unfold((l - t) as nat);
        lemma_pow2_unfold((l - t + 1) as nat);
        lemma_bit_len_exact(code as nat, (l - t + 1) as nat);
    }
    let used = number_of_used_bits(&code);
    let shift = len - (used - 1);
    proof {
        let d = shift as nat;
        assert(d == t);
        lemma_pow2_adds((l - t + 1) as nat, d);
        lemma_pow2_pos(d);
        assert(code * pow2(d) < pow2((l - t + 1) as nat) * pow2(d)) by (nonlinear_arith)
            requires
                code < pow2((l - t + 1) as nat),
                pow2(d) > 0,
        ;
        assert(pow2(17) == 0x20000) by { lemma2_to64(); }
        if l + 1 < 17 {
            vstd::arithmetic::power2::lemma_pow2_strictly_increases(l + 1, 17);
        }
        lemma_u32_shl_is_mul(code, shift as u32);
        assert(code * pow2(d) == 2 * q * pow2(d) + pow2(d)) by (nonlinear_arith)
            requires
                code == 2 * q + 1,
        ;
        lemma_pow2_unfold(d + 1);
        assert(2 * q * pow2(d) == q * pow2(d + 1)) by (nonlinear_arith)
            requires
                pow2(d + 1) == 2 * pow2(d),
        ;
        if removed != 0 {
            // only the sentinel was left: the walk wraps to the right half
            if l - t - 1 > 0 {
                lemma_pow2_unfold((l - t - 1) as nat);
                lemma_pow2_pos((l - t - 2) as nat);
            }
            assert(t + 1 == l);
            assert(c + 1 == pow2(l));
        }
    }
    code << (shift as u32)
}

/// Builds the canonical Huffman table of a code-length table: row `r` lists, in order,
/// the symbols that get codes of `r + 1` bits. Returns the table, keyed by the stored
/// form of each code, with its shortest and longest code length.
pub fn make_ssss_table(code_lengths: [[Option<u8>; 16]; 16]) -> (r: (HashMap<u32, u8>, usize, usize))
    ensures
        r.0@ == canonical_table(code_lengths),
        length_bounds(r.0@, r.1, r.2),
{
    let ghost rows = symbol_rows(code_lengths);
    let mut code: u32 = 1;
    let mut table: HashMap<u32, u8> = HashMap::new();
    let mut min_code_length: usize = 0;
    let mut max_code_length: usize = 0;
    let mut index: usize = 0;
    proof {
        assert(pow2(0) == 1) by { lemma2_to64(); }
    }
    while index < 16
        invariant
            index <= 16,
            rows == symbol_rows(code_lengths),
            code == stored_code(state_before(rows, index as nat).0, state_before(rows, index as nat).1),
            table@ == table_through(rows, index as nat),
            forall|k: u32| table@.contains_key(k) ==> 1 <= code_length(k) <= index,
            length_bounds(table@, min_code_length, max_code_length),
        decreases 16 - index,
    {
        let values = row_symbols_of(&code_lengths[index]);
        let ghost st = state_before(rows, index as nat);
        let ghost first = first_code(rows, index as nat);
        let ghost start = table@;
        proof {
            assert(values@ == rows[index as int]);
            lemma_state_bounds(rows, index as nat);
        }
        if values.len() > 0 {
            let len: usize = index + 1;
            let ghost l = len as nat;
            proof {
                lemma_padded_bounds(st.0, st.1, l);
            }
            let mut n: usize = 0;
            while n <= values.len()
                invariant
                    1 <= len <= 16,
                    len == index + 1,
                    index < 16,
                    l == len,
                    values@.len() <= 16,
                    values@ == rows[index as int],
                    values@.len() > 0,
                    n <= values@.len() + 1,
                    0 <= st.0 < pow2(st.1),
                    st.1 <= index,
                    first == st.0 * pow2((l - st.1) as nat),
                    0 <= first < pow2(l),
                    n == 0 ==> code == stored_code(st.0, st.1),
                    n > 0 ==> code == stored_code(advance(first, l, (n - 1) as nat), l),
                    table@ == row_entries(
                        start,
                        first,
                        l,
                        values@.take(if n <= values@.len() { n as int } else { values@.len() as int }),
                    ),
                    forall|k: u32| start.contains_key(k) ==> table@.contains_key(k),
                    forall|k: u32| table@.contains_key(k) ==> start.contains_key(k) || code_length(k) == l,
                    n > 0 ==> table@.contains_key(stored_code(first, l) as u32),
                decreases values@.len() + 1 - n,
            {
                if n == 0 {
                    code = shift_to_length(code, len, Ghost(st.0), Ghost(st.1));
                } else {
                    proof {
                        lemma_advance_bounds(first, l, (n - 1) as nat);
                        vstd::arithmetic::power2::lemma_pow2_strictly_increases(0, l);
                    }
                    code = shift_to_length(code, len, Ghost(advance(first, l, (n - 1) as nat)), Ghost(l));
                    proof {
                        let a = advance(first, l, (n - 1) as nat);
                        assert(pow2(0) == 1) by { lemma2_to64(); }
                        assert(a * pow2(0) == a) by (nonlinear_arith)
                            requires
                                pow2(0) == 1,
                        ;
                        assert((l - l) as nat == 0);
                    }
                    code = next_code_of_length(code, len, Ghost(advance(first, l, (n - 1) as nat)));
                }
                proof {
                    lemma_advance_bounds(first, l, n as nat);
                    lemma_stored_code_length(advance(first, l, n as nat), l);
                }
                if n < values.len() {
                    table.insert(code, values[n]);
                    assert(values@.take(n + 1).drop_last() =~= values@.take(n as int));
                }
                n = n + 1;
            }
            assert(values@.take(values@.len() as int) =~= values@);
            if min_code_length == 0 {
                min_code_length = len;
            }
            max_code_length = len;
            proof {
                lemma_stored_code_length(first, l);
                let fk = stored_code(first, l) as u32;
                assert(code_length(fk) == l);
                assert(table@.contains_key(fk));
                if exists|k: u32| start.contains_key(k) {
                    let w = choose|k: u32| start.contains_key(k) && code_length(k) == min_code_length;
                    assert(table@.contains_key(w));
                }
            }
        }
        index = index + 1;
    }
    (table, min_code_length, max_code_length)
}

} // verus!
