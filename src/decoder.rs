use vstd::arithmetic::power2::{lemma2_to64, lemma_pow2_pos, lemma_pow2_strictly_increases, pow2};
use vstd::prelude::*;
use std::collections::HashMap;

use crate::entropy::{
    all_bits, decode_difference, get_huffmaned_value, is_entropy_error, lemma_find_code_errors, BitCursor,
};
use crate::error::DecodeError;
use crate::headers::{
    is_jpeg, starts_with_soi, Component, FrameHeader, HeaderParameter, ScanHeader, DHT, EOI, SOF3, SOS,
};
use crate::canonical::lemma_build_deterministic;
use crate::huffman::{canonical_table, length_bounds, make_ssss_table, symbol_rows, SSSSTable};
use crate::predict::{make_prediciton, predicted_value, reconstruct, reconstructed_value, samples_fit};

verus! {

/// Data bytes of an entropy-coded segment that starts at `i`, and where the segment ends.
/// A 0xFF byte followed by 0x00 is one data byte 0xFF, the 0x00 being stuffing; a 0xFF
/// followed by any other byte starts a marker, which ends the segment; the end of the
/// bytes ends it too, a last lone 0xFF then counting as data.
pub open spec fn destuffed(bytes: Seq<u8>, i: int) -> (Seq<u8>, int)
    decreases bytes.len() - i,
{
    if i >= bytes.len() {
        (Seq::empty(), bytes.len() as int)
    } else if bytes[i] < 0xFF {
        let rest = destuffed(bytes, i + 1);
        (seq![bytes[i]] + rest.0, rest.1)
    } else if i + 1 >= bytes.len() {
        (seq![0xFFu8], bytes.len() as int)
    } else if bytes[i + 1] == 0 {
        let rest = destuffed(bytes, i + 2);
        (seq![0xFFu8] + rest.0, rest.1)
    } else {
        (Seq::empty(), i)
    }
}

/// The eight bits of a byte, most significant first.
pub open spec fn byte_bits(b: u8) -> Seq<u8> {
    seq![
        (b >> 7u8) & 1u8,
        (b >> 6u8) & 1u8,
        (b >> 5u8) & 1u8,
        (b >> 4u8) & 1u8,
        (b >> 3u8) & 1u8,
        (b >> 2u8) & 1u8,
        (b >> 1u8) & 1u8,
        b & 1u8,
    ]
}

/// The bits of a byte sequence, each byte most significant bit first.
pub open spec fn expand_bits(data: Seq<u8>) -> Seq<u8>
    decreases data.len(),
{
    if data.len() == 0 {
        Seq::empty()
    } else {
        expand_bits(data.drop_last()) + byte_bits(data.last())
    }
}

/// What decoding uses of a frame header.
pub struct FrameModel {
    pub p_: u8,
    pub y_: u16,
    pub x_: u16,
    pub components: Seq<Component>,
}

/// What decoding uses of a scan header.
pub struct ScanModel {
    pub head_params: Seq<HeaderParameter>,
    pub s_s: u8,
    pub a_l_p_t: u8,
}

/// What decoding uses of a Huffman table.
pub struct TableModel {
    pub table: Map<u32, u8>,
    pub min_code_length: usize,
    pub max_code_length: usize,
}

impl TableModel {
    /// The code lengths are those of a table that holds at least one code.
    pub open spec fn wf(self) -> bool {
        1 <= self.min_code_length <= self.max_code_length <= 16
    }
}

/// Model of a frame header.
pub open spec fn frame_view(f: FrameHeader) -> FrameModel {
    FrameModel { p_: f.p_, y_: f.y_, x_: f.x_, components: f.components@ }
}

/// Model of the frame header, if there is one.
pub open spec fn frame_opt_view(f: Option<FrameHeader>) -> Option<FrameModel> {
    match f {
        Some(f) => Some(frame_view(f)),
        None => None,
    }
}

/// Model of a scan header.
pub open spec fn scan_view(s: ScanHeader) -> ScanModel {
    ScanModel { head_params: s.head_params@, s_s: s.s_s, a_l_p_t: s.a_l_p_t }
}

/// Model of a Huffman table.
pub open spec fn table_view(t: SSSSTable) -> TableModel {
    TableModel { table: t.table@, min_code_length: t.min_code_length, max_code_length: t.max_code_length }
}

/// The registered tables, each by its model.
pub open spec fn tables_view(m: Map<usize, SSSSTable>) -> Map<usize, TableModel> {
    Map::new(|k: usize| m.contains_key(k), |k: usize| table_view(m[k]))
}

/// Table selector of each of the `count` interleaved components: that of the scan
/// component in the same place, the scan listing its components in the order in which
/// their samples interleave.
pub open spec fn component_selectors(count: nat, params: Seq<HeaderParameter>) -> Seq<Option<u8>> {
    Seq::new(count, |i: int| if i < params.len() { Some(params[i].t_d) } else { None })
}

/// Every component has a selector naming a registered table that holds codes.
pub open spec fn tables_ready(ids: Seq<Option<u8>>, tables: Map<usize, TableModel>) -> bool {
    forall|i: int|
        0 <= i < ids.len() ==> #[trigger] ids[i] is Some && tables.contains_key(ids[i]->0 as usize)
            && tables[ids[i]->0 as usize].wf()
}

/// The frame describes an image that can be decoded: a precision of 2 to 16 bits, a point
/// transform below it, at least one component, and a sample count that fits a `usize`.
pub open spec fn frame_ok(frame: FrameModel, scan: ScanModel) -> bool {
    &&& 2 <= frame.p_ <= 16
    &&& scan.a_l_p_t < frame.p_
    &&& frame.components.len() >= 1
    &&& frame.x_ * frame.y_ * frame.components.len() <= usize::MAX
}

/// The first `n` samples that the bits decode to, with the bit position after them: each
/// sample is its prediction plus the difference decoded with its component's table,
/// modulo `2^p`.
pub open spec fn decode_run(
    tables: Map<usize, TableModel>,
    ids: Seq<Option<u8>>,
    width: nat,
    p: nat,
    pt: nat,
    predictor: u8,
    bits: Seq<u8>,
    n: nat,
) -> Result<(Seq<u32>, int), DecodeError>
    decreases n,
{
    if n == 0 {
        Ok((Seq::empty(), 0))
    } else {
        match decode_run(tables, ids, width, p, pt, predictor, bits, (n - 1) as nat) {
            Err(e) => Err(e),
            Ok(st) => {
                let img = st.0;
                let t = tables[ids[(img.len() % ids.len()) as int]->0 as usize];
                match decode_difference(
                    t.table,
                    t.min_code_length as nat,
                    t.max_code_length as nat,
                    bits,
                    st.1,
                ) {
                    Err(e) => Err(e),
                    Ok(d) => Ok(
                        (
                            img.push(
                                reconstructed_value(
                                    predicted_value(img, ids.len(), width, p, pt, predictor),
                                    d.0,
                                    p,
                                ) as u32,
                            ),
                            d.1,
                        ),
                    ),
                }
            },
        }
    }
}

/// Samples of a whole scan: `width * height` pixels of each component.
pub open spec fn decoded_scan(
    tables: Map<usize, TableModel>,
    frame: FrameModel,
    scan: ScanModel,
    bits: Seq<u8>,
) -> Result<(Seq<u32>, int), DecodeError> {
    let ids = component_selectors(frame.components.len(), scan.head_params);
    decode_run(
        tables,
        ids,
        frame.x_ as nat,
        frame.p_ as nat,
        scan.a_l_p_t as nat,
        scan.s_s,
        bits,
        (frame.x_ * frame.y_ * ids.len()) as nat,
    )
}

/// Samples of the scan `scan` whose entropy-coded segment starts at `start`, with frame
/// `frame` and tables `tables`, and the read position after the segment.
pub open spec fn scan_outcome(
    bytes: Seq<u8>,
    start: int,
    frame: Option<FrameModel>,
    tables: Map<usize, TableModel>,
    scan: ScanModel,
) -> Result<(Seq<u32>, int), DecodeError> {
    match frame {
        None => Err(DecodeError::MissingFrame),
        Some(frame) => if !frame_ok(frame, scan) {
            Err(DecodeError::BadHeader)
        } else if !tables_ready(component_selectors(frame.components.len(), scan.head_params), tables) {
            Err(DecodeError::MissingTable)
        } else {
            let seg = destuffed(bytes, start);
            match decoded_scan(tables, frame, scan, expand_bits(seg.0)) {
                Ok(st) => Ok((st.0, seg.1)),
                Err(e) => Err(e),
            }
        },
    }
}

/// The result `r`, the samples `raw` and the read position `end` are those of
/// `scan_outcome`.
pub open spec fn scan_decoded(
    bytes: Seq<u8>,
    start: int,
    frame: Option<FrameModel>,
    tables: Map<usize, TableModel>,
    scan: ScanModel,
    r: Result<(), DecodeError>,
    raw: Seq<u32>,
    end: int,
) -> bool {
    match scan_outcome(bytes, start, frame, tables, scan) {
        Ok(out) => r is Ok && raw == out.0 && end == out.1,
        Err(e) => r == Err::<(), DecodeError>(e),
    }
}

/// Decoding a well-formed scan twice gives the same samples: the outcome of a scan is
/// fixed by the bytes, the read position, the frame header, the tables and the scan header.
pub proof fn lemma_scan_decoding_deterministic(
    bytes: Seq<u8>,
    start: int,
    frame: Option<FrameModel>,
    tables: Map<usize, TableModel>,
    scan: ScanModel,
    r1: Result<(), DecodeError>,
    raw1: Seq<u32>,
    end1: int,
    r2: Result<(), DecodeError>,
    raw2: Seq<u32>,
    end2: int,
)
    requires
        scan_decoded(bytes, start, frame, tables, scan, r1, raw1, end1),
        scan_decoded(bytes, start, frame, tables, scan, r2, raw2, end2),
    ensures
        r1 is Ok <==> r2 is Ok,
        r1 is Err ==> r1 == r2,
        r1 is Ok ==> raw1 == raw2 && end1 == end2,
{
}

/// A failure stays a failure when more samples are asked for.
pub proof fn lemma_decode_run_error_persists(
    tables: Map<usize, TableModel>,
    ids: Seq<Option<u8>>,
    width: nat,
    p: nat,
    pt: nat,
    predictor: u8,
    bits: Seq<u8>,
    m: nat,
    n: nat,
)
    requires
        m <= n,
        decode_run(tables, ids, width, p, pt, predictor, bits, m) is Err,
    ensures
        decode_run(tables, ids, width, p, pt, predictor, bits, n) == decode_run(
            tables,
            ids,
            width,
            p,
            pt,
            predictor,
            bits,
            m,
        ),
    decreases n - m,
{
    if m < n {
        lemma_decode_run_error_persists(tables, ids, width, p, pt, predictor, bits, m, (n - 1) as nat);
    }
}

/// A run fails only as the decoding of one difference fails.
pub proof fn lemma_decode_run_errors(
    tables: Map<usize, TableModel>,
    ids: Seq<Option<u8>>,
    width: nat,
    p: nat,
    pt: nat,
    predictor: u8,
    bits: Seq<u8>,
    n: nat,
)
    ensures
        decode_run(tables, ids, width, p, pt, predictor, bits, n) matches Err(e) ==> is_entropy_error(e),
    decreases n,
{
    if n > 0 {
        lemma_decode_run_errors(tables, ids, width, p, pt, predictor, bits, (n - 1) as nat);
        let prev = decode_run(tables, ids, width, p, pt, predictor, bits, (n - 1) as nat);
        if let Ok(st) = prev {
            let t = tables[ids[(st.0.len() % ids.len()) as int]->0 as usize];
            lemma_find_code_errors(t.table, bits, st.1, (t.min_code_length - 1) as nat, 0, t.max_code_length as nat);
        }
    }
}

/// Samples of a successful run.
pub open spec fn run_samples(run: Result<(Seq<u32>, int), DecodeError>) -> Seq<u32> {
    match run {
        Ok((samples, _)) => samples,
        Err(_) => Seq::empty(),
    }
}

/// Bit position after a successful run.
pub open spec fn run_position(run: Result<(Seq<u32>, int), DecodeError>) -> int {
    match run {
        Ok((_, pos)) => pos,
        Err(_) => 0,
    }
}

/// Difference of a successful decoding.
pub open spec fn decoded_difference(d: Result<(int, int), DecodeError>) -> int {
    match d {
        Ok((diff, _)) => diff,
        Err(_) => 0,
    }
}

/// A successful run of `n` samples holds `n` samples.
pub proof fn lemma_decode_run_len(
    tables: Map<usize, TableModel>,
    ids: Seq<Option<u8>>,
    width: nat,
    p: nat,
    pt: nat,
    predictor: u8,
    bits: Seq<u8>,
    n: nat,
)
    requires
        decode_run(tables, ids, width, p, pt, predictor, bits, n) is Ok,
    ensures
        run_samples(decode_run(tables, ids, width, p, pt, predictor, bits, n)).len() == n,
    decreases n,
{
    if n > 0 {
        lemma_decode_run_len(tables, ids, width, p, pt, predictor, bits, (n - 1) as nat);
    }
}

/// Every stored sample of a decoded run is its prediction plus its decoded difference,
/// modulo `2^p`: the prediction from the samples before it, the difference decoded with
/// its component's table where the samples before it left the bits.
pub proof fn lemma_samples_wrap(
    tables: Map<usize, TableModel>,
    ids: Seq<Option<u8>>,
    width: nat,
    p: nat,
    pt: nat,
    predictor: u8,
    bits: Seq<u8>,
    n: nat,
    i: nat,
)
    requires
        i < n,
        decode_run(tables, ids, width, p, pt, predictor, bits, n) is Ok,
    ensures
        ({
            let before = decode_run(tables, ids, width, p, pt, predictor, bits, i);
            let t = tables[ids[(i % ids.len()) as int]->0 as usize];
            let d = decode_difference(
                t.table,
                t.min_code_length as nat,
                t.max_code_length as nat,
                bits,
                run_position(before),
            );
            &&& before is Ok
            &&& d is Ok
            &&& run_samples(decode_run(tables, ids, width, p, pt, predictor, bits, n))[i as int]
                == reconstructed_value(
                predicted_value(run_samples(before), ids.len(), width, p, pt, predictor),
                decoded_difference(d),
                p,
            ) as u32
        }),
    decreases n,
{
    let prev = decode_run(tables, ids, width, p, pt, predictor, bits, (n - 1) as nat);
    assert(prev is Ok);
    lemma_decode_run_len(tables, ids, width, p, pt, predictor, bits, (n - 1) as nat);
    if i < n - 1 {
        lemma_samples_wrap(tables, ids, width, p, pt, predictor, bits, (n - 1) as nat, i);
    }
}

/// A decoded scan holds `x * y` samples of each component, each below `2^p`.
pub proof fn lemma_scan_samples(tables: Map<usize, TableModel>, frame: FrameModel, scan: ScanModel, bits: Seq<u8>)
    requires
        frame_ok(frame, scan),
        decoded_scan(tables, frame, scan, bits) is Ok,
    ensures
        run_samples(decoded_scan(tables, frame, scan, bits)).len() == frame.x_ * frame.y_
            * frame.components.len(),
        samples_fit(run_samples(decoded_scan(tables, frame, scan, bits)), frame.p_ as nat),
{
    let ids = component_selectors(frame.components.len(), scan.head_params);
    let n = (frame.x_ * frame.y_ * ids.len()) as nat;
    let p = frame.p_ as nat;
    let samples = run_samples(decoded_scan(tables, frame, scan, bits));
    lemma_decode_run_len(tables, ids, frame.x_ as nat, p, scan.a_l_p_t as nat, scan.s_s, bits, n);
    lemma_pow2_pos(p);
    assert(pow2(16) == 0x10000) by { lemma2_to64(); }
    if p < 16 {
        lemma_pow2_strictly_increases(p, 16);
    }
    assert forall|i: int| 0 <= i < samples.len() implies #[trigger] samples[i] < pow2(p) by {
        lemma_samples_wrap(tables, ids, frame.x_ as nat, p, scan.a_l_p_t as nat, scan.s_s, bits, n, i as nat);
        let before = decode_run(tables, ids, frame.x_ as nat, p, scan.a_l_p_t as nat, scan.s_s, bits, i as nat);
        let t = tables[ids[(i % ids.len() as int)]->0 as usize];
        let d = decode_difference(t.table, t.min_code_length as nat, t.max_code_length as nat, bits, run_position(before));
        let v = predicted_value(run_samples(before), ids.len(), frame.x_ as nat, p, scan.a_l_p_t as nat, scan.s_s)
            + decoded_difference(d);
        vstd::arithmetic::div_mod::lemma_mod_bound(v, pow2(p) as int);
    }
}

/// Registered table of each of `count` components, or `MissingTable` when a component has
/// none.
fn component_tables(
    count: usize,
    params: &Vec<HeaderParameter>,
    tables: &HashMap<usize, SSSSTable>,
) -> (r: Result<Vec<usize>, DecodeError>)
    ensures
        match r {
            Ok(ids) => tables_ready(component_selectors(count as nat, params@), tables_view(tables@))
                && ids@.len() == count && forall|i: int|
                0 <= i < ids@.len() ==> #[trigger] ids@[i] == component_selectors(count as nat, params@)[i]->0 as usize,
            Err(e) => e == DecodeError::MissingTable && !tables_ready(
                component_selectors(count as nat, params@),
                tables_view(tables@),
            ),
        },
{
    let ghost sel = component_selectors(count as nat, params@);
    let ghost tv = tables_view(tables@);
    let mut ids: Vec<usize> = Vec::new();
    let mut i: usize = 0;
    while i < count
        invariant
            i <= count,
            sel == component_selectors(count as nat, params@),
            tv == tables_view(tables@),
            ids@.len() == i,
            forall|j: int| 0 <= j < i ==> #[trigger] sel[j] is Some && tv.contains_key(sel[j]->0 as usize)
                && tv[sel[j]->0 as usize].wf() && ids@[j] == sel[j]->0 as usize,
        decreases count - i,
    {
        if i >= params.len() {
            assert(!tables_ready(sel, tv) && sel[i as int] is None);
            return Err(DecodeError::MissingTable);
        }
        let t: u8 = params[i].t_d;
        match tables.get(&(t as usize)) {
            Some(table) => {
                if table.min_code_length < 1 || table.min_code_length > table.max_code_length
                    || table.max_code_length > 16 {
                    assert(!tables_ready(sel, tv) && sel[i as int] == Some(t));
                    return Err(DecodeError::MissingTable);
                }
            },
            None => {
                assert(!tables_ready(sel, tv) && sel[i as int] == Some(t));
                return Err(DecodeError::MissingTable);
            },
        }
        ids.push(t as usize);
        i = i + 1;
    }
    Ok(ids)
}

/// Reads the scan header whose length field is at the read position: the scan components
/// with their table selectors, the predictor selector and the point transform.
pub fn parse_scan_header(image: &mut Jpeg) -> (r: Result<ScanHeader, DecodeError>)
    requires
        old(image).read_index <= old(image).encoded_image@.len(),
    ensures
        same_but_position(*final(image), *old(image)),
        final(image).read_index <= final(image).encoded_image@.len(),
        ({
            let b = old(image).encoded_image@;
            let i = old(image).read_index as int;
            if scan_header_truncated(b, i) {
                r == Err::<ScanHeader, DecodeError>(DecodeError::Truncated)
            } else {
                &&& final(image).read_index == i + 6 + 2 * b[i + 2]
                &&& match r {
                    Ok(scan) => scan_header_at(b, i, scan),
                    Err(_) => false,
                }
            }
        }),
{
    let ghost b = image.encoded_image@;
    let ghost i = image.read_index as int;
    let len = image.encoded_image.len();
    if len - image.read_index < 3 {
        return Err(DecodeError::Truncated);
    }
    let n_s: usize = image.encoded_image[image.read_index + 2] as usize;
    if len - image.read_index < 6 || len - image.read_index - 6 < 2 * n_s {
        return Err(DecodeError::Truncated);
    }
    let _l_s: u16 = image.bytes_to_int_two_consumed();
    let _n_s: u8 = image.byte_to_int_one_consumed();
    let mut head_params: Vec<HeaderParameter> = Vec::new();
    let mut k: usize = 0;
    while k < n_s
        invariant
            k <= n_s,
            n_s == b[i + 2],
            i + 6 + 2 * n_s <= b.len(),
            image.encoded_image@ == b,
            image.read_index == i + 3 + 2 * k,
            same_but_position(*image, *old(image)),
            head_params@ == Seq::new(k as nat, |j: int| scan_component(b, i + 3 + 2 * j)),
        decreases n_s - k,
    {
        let c_s: u8 = image.byte_to_int_one_consumed();
        let t_d_a: u8 = image.byte_to_int_one_consumed();
        head_params.push(HeaderParameter { c_s, t_d: t_d_a >> 4u8, t_a: t_d_a & 0xFu8 });
        k = k + 1;
        assert(head_params@ =~= Seq::new(k as nat, |j: int| scan_component(b, i + 3 + 2 * j)));
    }
    let s_s: u8 = image.byte_to_int_one_consumed();
    let s_e: u8 = image.byte_to_int_one_consumed();
    let a_h_l: u8 = image.byte_to_int_one_consumed();
    Ok(ScanHeader { head_params, s_s, s_e, a_h: a_h_l >> 4u8, a_l_p_t: a_h_l & 0xFu8 })
}

/// A lossless JPEG image being decoded: the encoded bytes with a read position, the frame
/// header and Huffman tables met so far, and the samples decoded.
pub struct Jpeg {
    pub encoded_image: Vec<u8>,
    pub read_index: usize,
    pub frame_header: Option<FrameHeader>,
    pub ssss_tables: HashMap<usize, SSSSTable>,
    pub raw_image: Vec<u32>,
}

/// Big-endian 16-bit value of the two bytes at `i`.
pub open spec fn be16(bytes: Seq<u8>, i: int) -> int {
    bytes[i] * 256 + bytes[i + 1]
}

/// The fields other than the read position are the same.
pub open spec fn same_but_position(a: Jpeg, b: Jpeg) -> bool {
    &&& a.encoded_image@ == b.encoded_image@
    &&& a.frame_header == b.frame_header
    &&& a.ssss_tables@ == b.ssss_tables@
    &&& a.raw_image@ == b.raw_image@
}

/// Component record of a frame header at `at`: identifier, packed sampling factors,
/// quantization table selector.
pub open spec fn frame_component(bytes: Seq<u8>, at: int) -> Component {
    Component { c_: bytes[at], h_: bytes[at + 1] >> 4u8, v_: bytes[at + 1] & 0xFu8, t_q: bytes[at + 2] }
}

/// Component record of a scan header at `at`: selector and packed table selectors.
pub open spec fn scan_component(bytes: Seq<u8>, at: int) -> HeaderParameter {
    HeaderParameter { c_s: bytes[at], t_d: bytes[at + 1] >> 4u8, t_a: bytes[at + 1] & 0xFu8 }
}

/// Number of symbols with codes of `r + 1` bits in the DHT segment whose length field is
/// at `at`.
pub open spec fn dht_count(bytes: Seq<u8>, at: int, r: int) -> int {
    bytes[at + 3 + r] as int
}

/// Number of symbols of the rows before row `r`.
pub open spec fn dht_offset(bytes: Seq<u8>, at: int, r: nat) -> int
    decreases r,
{
    if r == 0 {
        0
    } else {
        dht_offset(bytes, at, (r - 1) as nat) + dht_count(bytes, at, r - 1)
    }
}

/// `cl` holds the symbols of the DHT segment at `at`, row by row, each row filled from the
/// left.
pub open spec fn dht_code_lengths(bytes: Seq<u8>, at: int, cl: [[Option<u8>; 16]; 16]) -> bool {
    forall|r: int, k: int|
        0 <= r < 16 && 0 <= k < 16 ==> #[trigger] cl@[r]@[k] == if k < dht_count(bytes, at, r) {
            Some(bytes[at + 19 + dht_offset(bytes, at, r as nat) + k])
        } else {
            None
        }
}

/// Every row of the DHT segment at `at` holds at most 16 symbols.
pub open spec fn dht_counts_ok(bytes: Seq<u8>, at: int) -> bool {
    forall|r: int| 0 <= r < 16 ==> #[trigger] dht_count(bytes, at, r) <= 16
}

/// `scan` is the scan header whose length field is at `at`.
pub open spec fn scan_header_at(bytes: Seq<u8>, at: int, scan: ScanHeader) -> bool {
    let ns = bytes[at + 2] as int;
    let tail = at + 3 + 2 * ns;
    &&& scan.head_params@ == Seq::new(ns as nat, |j: int| scan_component(bytes, at + 3 + 2 * j))
    &&& scan.s_s == bytes[tail]
    &&& scan.s_e == bytes[tail + 1]
    &&& scan.a_h == bytes[tail + 2] >> 4u8
    &&& scan.a_l_p_t == bytes[tail + 2] & 0xFu8
}

/// Model of the scan header whose length field is at `at`.
pub open spec fn scan_model_at(bytes: Seq<u8>, at: int) -> ScanModel {
    let ns = bytes[at + 2] as int;
    let tail = at + 3 + 2 * ns;
    ScanModel {
        head_params: Seq::new(ns as nat, |j: int| scan_component(bytes, at + 3 + 2 * j)),
        s_s: bytes[tail],
        a_l_p_t: bytes[tail + 2] & 0xFu8,
    }
}

/// The scan header at `at` runs past the end of the bytes.
pub open spec fn scan_header_truncated(bytes: Seq<u8>, at: int) -> bool {
    at + 3 > bytes.len() || at + 6 + 2 * bytes[at + 2] > bytes.len()
}

/// Why the DHT segment whose length field is at `at` cannot be read, if it cannot.
pub open spec fn dht_error(bytes: Seq<u8>, at: int) -> Option<DecodeError> {
    if at + 19 > bytes.len() {
        Some(DecodeError::Truncated)
    } else if !dht_counts_ok(bytes, at) {
        Some(DecodeError::BadHeader)
    } else if at + 19 + dht_offset(bytes, at, 16) > bytes.len() {
        Some(DecodeError::Truncated)
    } else {
        None
    }
}

/// The canonical table that the DHT segment at `at` defines, with its length bounds.
pub open spec fn dht_table_model(bytes: Seq<u8>, at: int) -> TableModel {
    let cl = choose|cl: [[Option<u8>; 16]; 16]| dht_code_lengths(bytes, at, cl);
    let t = canonical_table(cl);
    let bounds = choose|b: (usize, usize)| length_bounds(t, b.0, b.1);
    TableModel { table: t, min_code_length: bounds.0, max_code_length: bounds.1 }
}

/// A code-length table read from a DHT segment, with the bounds of its canonical table,
/// gives that segment's table model.
proof fn lemma_dht_table_model(
    bytes: Seq<u8>,
    at: int,
    cl: [[Option<u8>; 16]; 16],
    min: usize,
    max: usize,
)
    requires
        dht_code_lengths(bytes, at, cl),
        length_bounds(canonical_table(cl), min, max),
    ensures
        dht_table_model(bytes, at) == (TableModel {
            table: canonical_table(cl),
            min_code_length: min,
            max_code_length: max,
        }),
{
    let cl2 = choose|cl: [[Option<u8>; 16]; 16]| dht_code_lengths(bytes, at, cl);
    assert(dht_code_lengths(bytes, at, cl2));
    assert forall|r: int| 0 <= r < 16 implies #[trigger] symbol_rows(cl)[r] == symbol_rows(cl2)[r] by {
        assert(cl@[r]@ =~= cl2@[r]@);
    }
    assert(symbol_rows(cl) =~= symbol_rows(cl2));
    let t = canonical_table(cl);
    assert(t == canonical_table(cl2));
    let bb = choose|b: (usize, usize)| length_bounds(t, b.0, b.1);
    assert(length_bounds(t, (min, max).0, (min, max).1));
    lemma_build_deterministic(cl, t, bb.0, bb.1, t, min, max);
}

/// Model of the frame header whose marker is at `i`.
pub open spec fn frame_model_at(bytes: Seq<u8>, i: int) -> FrameModel {
    FrameModel {
        p_: bytes[i + 4],
        y_: be16(bytes, i + 5) as u16,
        x_: be16(bytes, i + 7) as u16,
        components: Seq::new(bytes[i + 9] as nat, |j: int| frame_component(bytes, i + 10 + 3 * j)),
    }
}

/// The frame header whose marker is at `i` runs past the end of the bytes.
pub open spec fn frame_truncated(bytes: Seq<u8>, i: int) -> bool {
    i + 10 > bytes.len() || i + 10 + 3 * bytes[i + 9] > bytes.len()
}

/// What the marker walk knows: the read position, the frame, the tables and the samples.
pub struct WalkState {
    pub pos: int,
    pub frame: Option<FrameModel>,
    pub tables: Map<usize, TableModel>,
    pub raw: Seq<u32>,
}

/// The walk state of an image.
pub open spec fn state_of(j: Jpeg) -> WalkState {
    WalkState {
        pos: j.read_index as int,
        frame: frame_opt_view(j.frame_header),
        tables: tables_view(j.ssss_tables@),
        raw: j.raw_image@,
    }
}

/// Result and final state of the marker walk from `s`, for at most `fuel` steps: a frame
/// header replaces the frame, a DHT segment registers its table, a scan replaces the
/// samples, the end-of-image marker stops the walk, any other marker is refused, and any
/// other byte is stepped over. An error leaves the state of the step that failed.
pub open spec fn walk(bytes: Seq<u8>, s: WalkState, fuel: nat) -> (Result<(), DecodeError>, WalkState)
    decreases fuel,
{
    if fuel == 0 || s.pos + 1 >= bytes.len() {
        (Ok(()), s)
    } else {
        let m = be16(bytes, s.pos);
        let at = s.pos + 2;
        if m == SOF3 {
            if frame_truncated(bytes, s.pos) {
                (Err(DecodeError::Truncated), s)
            } else {
                walk(
                    bytes,
                    WalkState {
                        pos: s.pos + 10 + 3 * bytes[s.pos + 9],
                        frame: Some(frame_model_at(bytes, s.pos)),
                        tables: s.tables,
                        raw: s.raw,
                    },
                    (fuel - 1) as nat,
                )
            }
        } else if m == DHT {
            match dht_error(bytes, at) {
                Some(e) => (Err(e), s),
                None => walk(
                    bytes,
                    WalkState {
                        pos: at + 19 + dht_offset(bytes, at, 16),
                        frame: s.frame,
                        tables: s.tables.insert((bytes[at + 2] & 0xFu8) as usize, dht_table_model(bytes, at)),
                        raw: s.raw,
                    },
                    (fuel - 1) as nat,
                ),
            }
        } else if m == SOS {
            if scan_header_truncated(bytes, at) {
                (Err(DecodeError::Truncated), s)
            } else {
                match scan_outcome(bytes, at + 6 + 2 * bytes[at + 2], s.frame, s.tables, scan_model_at(bytes, at)) {
                    Err(e) => (Err(e), s),
                    Ok(out) => walk(
                        bytes,
                        WalkState { pos: out.1, frame: s.frame, tables: s.tables, raw: out.0 },
                        (fuel - 1) as nat,
                    ),
                }
            }
        } else if m == EOI {
            (Ok(()), s)
        } else if m > 0xFF00 {
            (Err(DecodeError::UnsupportedMarker(m as u16)), s)
        } else {
            walk(
                bytes,
                WalkState { pos: s.pos + 1, frame: s.frame, tables: s.tables, raw: s.raw },
                (fuel - 1) as nat,
            )
        }
    }
}

/// Row offsets grow with the row.
pub proof fn lemma_dht_offset_grows(bytes: Seq<u8>, at: int, q: nat, r: nat)
    requires
        q <= r,
    ensures
        dht_offset(bytes, at, q) <= dht_offset(bytes, at, r),
    decreases r - q,
{
    if q < r {
        lemma_dht_offset_grows(bytes, at, q, (r - 1) as nat);
    }
}

/// The segment ends between its start and the end of the bytes.
pub proof fn lemma_destuffed_end(bytes: Seq<u8>, i: int)
    requires
        0 <= i <= bytes.len(),
    ensures
        i <= destuffed(bytes, i).1 <= bytes.len(),
    decreases bytes.len() - i,
{
    if i < bytes.len() {
        if bytes[i] < 0xFF {
            lemma_destuffed_end(bytes, i + 1);
        } else if i + 1 < bytes.len() && bytes[i + 1] == 0 {
            lemma_destuffed_end(bytes, i + 2);
        }
    }
}

/// Every element of an expanded byte sequence is a single bit.
pub proof fn lemma_expand_bits_are_bits(data: Seq<u8>)
    ensures
        all_bits(expand_bits(data)),
    decreases data.len(),
{
    if data.len() > 0 {
        lemma_expand_bits_are_bits(data.drop_last());
        let b = data.last();
        assert(((b >> 7u8) & 1u8) <= 1u8 && ((b >> 6u8) & 1u8) <= 1u8 && ((b >> 5u8) & 1u8) <= 1u8
            && ((b >> 4u8) & 1u8) <= 1u8 && ((b >> 3u8) & 1u8) <= 1u8 && ((b >> 2u8) & 1u8) <= 1u8
            && ((b >> 1u8) & 1u8) <= 1u8 && (b & 1u8) <= 1u8) by (bit_vector);
        let e = expand_bits(data);
        assert forall|i: int| 0 <= i < e.len() implies #[trigger] e[i] <= 1 by {
            let front = expand_bits(data.drop_last());
            if i >= front.len() {
                assert(e[i] == byte_bits(b)[i - front.len()]);
            } else {
                assert(e[i] == front[i]);
            }
        }
    }
}

impl Jpeg {
    /// An image over the bytes `encoded_image`, read from just after the start-of-image
    /// marker; `NotJpeg` when the bytes do not begin with that marker.
    pub fn from_encoded_vec(encoded_image: Vec<u8>) -> (r: Result<Self, DecodeError>)
        ensures
            match r {
                Ok(image) => {
                    &&& starts_with_soi(encoded_image@)
                    &&& image.encoded_image@ == encoded_image@
                    &&& image.read_index == 2
                    &&& image.frame_header is None
                    &&& image.ssss_tables@ == Map::<usize, SSSSTable>::empty()
                    &&& image.raw_image@ == Seq::<u32>::empty()
                },
                Err(e) => e == DecodeError::NotJpeg && !starts_with_soi(encoded_image@),
            },
    {
        if !is_jpeg(encoded_image.as_slice()) {
            return Err(DecodeError::NotJpeg);
        }
        Ok(Jpeg {
            encoded_image,
            read_index: 2,
            frame_header: None,
            ssss_tables: HashMap::new(),
            raw_image: Vec::new(),
        })
    }

    /// Walks the markers from the read position: a lossless frame header is read, each
    /// DHT segment registers a table, each scan is decoded into `raw_image`; the walk stops
    /// at the end-of-image marker or at the end of the bytes. Any other marker is refused.
    pub fn decode(&mut self) -> (r: Result<(), DecodeError>)
        requires
            old(self).read_index <= old(self).encoded_image@.len(),
        ensures
            final(self).encoded_image@ == old(self).encoded_image@,
            final(self).read_index <= final(self).encoded_image@.len(),
            ({
                let out = walk(
                    old(self).encoded_image@,
                    state_of(*old(self)),
                    (old(self).encoded_image@.len() - old(self).read_index) as nat,
                );
                &&& r == out.0
                &&& r is Ok ==> state_of(*final(self)) == out.1
            }),
    {
        let ghost b = self.encoded_image@;
        let ghost total = walk(b, state_of(*self), (b.len() - self.read_index) as nat);
        let ghost mut fuel: nat = (b.len() - self.read_index) as nat;
        let len: usize = self.encoded_image.len();
        while len - self.read_index > 1
            invariant
                len == self.encoded_image@.len(),
                self.encoded_image@ == b,
                b == old(self).encoded_image@,
                self.read_index <= len,
                fuel >= len - self.read_index,
                total == walk(old(self).encoded_image@, state_of(*old(self)), (b.len() - old(self).read_index) as nat),
                walk(b, state_of(*self), fuel) == total,
            decreases len - self.read_index,
        {
            let ghost before = state_of(*self);
            let ghost i = self.read_index as int;
            let marker: u16 = self.bytes_to_int_two_peeked();
            if marker == SOF3 {
                match self.parse_frame_header(marker) {
                    Ok(()) => {
                        proof {
                            assert(be16(b, i + 5) < 0x10000 && be16(b, i + 7) < 0x10000);
                            assert(self.frame_header->0.components@ =~= frame_model_at(b, i).components);
                            assert(state_of(*self) == WalkState {
                                pos: i + 10 + 3 * b[i + 9],
                                frame: Some(frame_model_at(b, i)),
                                tables: before.tables,
                                raw: before.raw,
                            });
                        }
                    },
                    Err(e) => {
                        return Err(e);
                    },
                }
            } else if marker == DHT {
                match self.make_ssss_tables() {
                    Ok(()) => {},
                    Err(e) => {
                        return Err(e);
                    },
                }
            } else if marker == SOS {
                match self.read_scan() {
                    Ok(()) => {},
                    Err(e) => {
                        return Err(e);
                    },
                }
            } else if marker == EOI {
                return Ok(());
            } else if marker > 0xFF00 {
                return Err(DecodeError::UnsupportedMarker(marker));
            } else {
                self.read_index = self.read_index + 1;
            }
            proof {
                fuel = (fuel - 1) as nat;
            }
        }
        Ok(())
    }

    /// Big-endian 16-bit value at the read position; the position stays.
    pub fn bytes_to_int_two_peeked(&self) -> (r: u16)
        requires
            self.read_index + 2 <= self.encoded_image.len(),
        ensures
            r == be16(self.encoded_image@, self.read_index as int),
    {
        (self.encoded_image[self.read_index] as u16) * 256 + self.encoded_image[self.read_index + 1] as u16
    }

    /// Big-endian 16-bit value at the read position, which moves past it.
    pub fn bytes_to_int_two_consumed(&mut self) -> (r: u16)
        requires
            old(self).read_index + 2 <= old(self).encoded_image.len(),
        ensures
            r == be16(old(self).encoded_image@, old(self).read_index as int),
            final(self).read_index == old(self).read_index + 2,
            same_but_position(*final(self), *old(self)),
    {
        let answer = self.bytes_to_int_two_peeked();
        self.read_index = self.read_index + 2;
        answer
    }

    /// Byte at the read position, which moves past it.
    pub fn byte_to_int_one_consumed(&mut self) -> (r: u8)
        requires
            old(self).read_index + 1 <= old(self).encoded_image.len(),
        ensures
            r == old(self).encoded_image@[old(self).read_index as int],
            final(self).read_index == old(self).read_index + 1,
            same_but_position(*final(self), *old(self)),
    {
        let answer = self.encoded_image[self.read_index];
        self.read_index = self.read_index + 1;
        answer
    }

    /// Moves the read position past a two-byte marker.
    pub fn found_marker(&mut self)
        requires
            old(self).read_index + 2 <= old(self).encoded_image.len(),
        ensures
            final(self).read_index == old(self).read_index + 2,
            same_but_position(*final(self), *old(self)),
    {
        self.read_index = self.read_index + 2;
    }

    /// Reads the frame header whose marker `marker` is at the read position: length,
    /// precision, height, width and the components.
    pub fn parse_frame_header(&mut self, marker: u16) -> (r: Result<(), DecodeError>)
        requires
            old(self).read_index <= old(self).encoded_image@.len(),
        ensures
            final(self).encoded_image@ == old(self).encoded_image@,
            final(self).ssss_tables@ == old(self).ssss_tables@,
            final(self).raw_image@ == old(self).raw_image@,
            final(self).read_index <= final(self).encoded_image@.len(),
            r is Err ==> final(self).frame_header == old(self).frame_header && final(self).read_index
                == old(self).read_index,
            ({
                let b = old(self).encoded_image@;
                let i = old(self).read_index as int;
                if i + 10 > b.len() || i + 10 + 3 * b[i + 9] > b.len() {
                    r == Err::<(), DecodeError>(DecodeError::Truncated)
                } else {
                    &&& r is Ok
                    &&& final(self).read_index == i + 10 + 3 * b[i + 9]
                    &&& final(self).frame_header is Some
                    &&& final(self).frame_header->0.marker == marker
                    &&& final(self).frame_header->0.p_ == b[i + 4]
                    &&& final(self).frame_header->0.y_ == be16(b, i + 5)
                    &&& final(self).frame_header->0.x_ == be16(b, i + 7)
                    &&& final(self).frame_header->0.components@ == Seq::new(
                        b[i + 9] as nat,
                        |j: int| frame_component(b, i + 10 + 3 * j),
                    )
                }
            }),
    {
        let ghost b = self.encoded_image@;
        let ghost i = self.read_index as int;
        let len = self.encoded_image.len();
        if len - self.read_index < 10 {
            return Err(DecodeError::Truncated);
        }
        let n_f: usize = self.encoded_image[self.read_index + 9] as usize;
        if len - self.read_index - 10 < 3 * n_f {
            return Err(DecodeError::Truncated);
        }
        self.found_marker();
        let _l_f: u16 = self.bytes_to_int_two_consumed();
        let p_: u8 = self.byte_to_int_one_consumed();
        let y_: u16 = self.bytes_to_int_two_consumed();
        let x_: u16 = self.bytes_to_int_two_consumed();
        let _n_f: u8 = self.byte_to_int_one_consumed();
        let mut components: Vec<Component> = Vec::new();
        let mut k: usize = 0;
        while k < n_f
            invariant
                k <= n_f,
                n_f == b[i + 9],
                i + 10 + 3 * n_f <= b.len(),
                self.encoded_image@ == b,
                self.read_index == i + 10 + 3 * k,
                same_but_position(*self, *old(self)),
                components@ == Seq::new(k as nat, |j: int| frame_component(b, i + 10 + 3 * j)),
            decreases n_f - k,
        {
            let c_: u8 = self.byte_to_int_one_consumed();
            let h_v: u8 = self.byte_to_int_one_consumed();
            let t_q: u8 = self.byte_to_int_one_consumed();
            components.push(Component { c_, h_: h_v >> 4u8, v_: h_v & 0xFu8, t_q });
            k = k + 1;
            assert(components@ =~= Seq::new(k as nat, |j: int| frame_component(b, i + 10 + 3 * j)));
        }
        self.frame_header = Some(FrameHeader { marker, p_, y_, x_, components });
        Ok(())
    }

    /// Reads a DHT segment whose length field is at the read position: the table class
    /// and identifier and, row by row, the symbols of each code length.
    pub fn parse_huffman_info(&mut self) -> (r: Result<(u8, u8, [[Option<u8>; 16]; 16]), DecodeError>)
        requires
            old(self).read_index <= old(self).encoded_image@.len(),
        ensures
            same_but_position(*final(self), *old(self)),
            final(self).read_index <= final(self).encoded_image@.len(),
            ({
                let b = old(self).encoded_image@;
                let i = old(self).read_index as int;
                if let Some(e) = dht_error(b, i) {
                    r == Err::<(u8, u8, [[Option<u8>; 16]; 16]), DecodeError>(e)
                } else {
                    &&& final(self).read_index == i + 19 + dht_offset(b, i, 16)
                    &&& match r {
                        Ok(v) => v.0 == b[i + 2] >> 4u8 && v.1 == b[i + 2] & 0xFu8 && dht_code_lengths(
                            b,
                            i,
                            v.2,
                        ),
                        Err(_) => false,
                    }
                }
            }),
    {
        let ghost b = self.encoded_image@;
        let ghost i = self.read_index as int;
        let len = self.encoded_image.len();
        if len - self.read_index < 19 {
            return Err(DecodeError::Truncated);
        }
        let mut total: usize = 0;
        let mut r: usize = 0;
        while r < 16
            invariant
                r <= 16,
                len == b.len(),
                i + 19 <= b.len(),
                self.encoded_image@ == b,
                self.read_index == i,
                total == dht_offset(b, i, r as nat),
                total <= 16 * r,
                forall|q: int| 0 <= q < r ==> #[trigger] dht_count(b, i, q) <= 16,
            decreases 16 - r,
        {
            let l_i: usize = self.encoded_image[self.read_index + 3 + r] as usize;
            if l_i > 16 {
                assert(dht_count(b, i, r as int) > 16);
                assert(!dht_counts_ok(b, i));
                return Err(DecodeError::BadHeader);
            }
            total = total + l_i;
            r = r + 1;
        }
        if len - self.read_index - 19 < total {
            return Err(DecodeError::Truncated);
        }
        let _l_h: u16 = self.bytes_to_int_two_consumed();
        let t_c_h: u8 = self.byte_to_int_one_consumed();
        let t_c: u8 = t_c_h >> 4u8;
        let t_h: u8 = t_c_h & 0xFu8;
        let mut code_lengths: [[Option<u8>; 16]; 16] = [[None; 16]; 16];
        let mut row: usize = 0;
        let mut symbol_index: usize = self.read_index + 16;
        while row < 16
            invariant
                row <= 16,
                len == b.len(),
                i + 19 <= b.len(),
                self.encoded_image@ == b,
                self.read_index == i + 3,
                same_but_position(*self, *old(self)),
                dht_counts_ok(b, i),
                i + 19 + dht_offset(b, i, 16) <= b.len(),
                symbol_index == i + 19 + dht_offset(b, i, row as nat),
                forall|q: int, k: int|
                    0 <= q < 16 && 0 <= k < 16 ==> #[trigger] code_lengths@[q]@[k] == if q < row && k
                        < dht_count(b, i, q) {
                        Some(b[i + 19 + dht_offset(b, i, q as nat) + k])
                    } else {
                        None
                    },
            decreases 16 - row,
        {
            proof {
                lemma_dht_offset_grows(b, i, (row + 1) as nat, 16);
            }
            let count: usize = self.encoded_image[self.read_index + row] as usize;
            let mut line: [Option<u8>; 16] = [None; 16];
            let mut k: usize = 0;
            while k < count
                invariant
                    k <= count,
                    count == dht_count(b, i, row as int),
                    count <= 16,
                    row < 16,
                    len == b.len(),
                    self.encoded_image@ == b,
                    symbol_index + count <= b.len(),
                    symbol_index == i + 19 + dht_offset(b, i, row as nat),
                    forall|j: int|
                        0 <= j < 16 ==> #[trigger] line@[j] == if j < k {
                            Some(b[symbol_index + j])
                        } else {
                            None
                        },
                decreases count - k,
            {
                line[k] = Some(self.encoded_image[symbol_index + k]);
                k = k + 1;
            }
            code_lengths[row] = line;
            symbol_index = symbol_index + count;
            row = row + 1;
        }
        self.read_index = symbol_index;
        Ok((t_c, t_h, code_lengths))
    }

    /// Reads the DHT segment whose marker is at the read position and registers the
    /// canonical Huffman table it defines under its identifier, replacing any table
    /// registered there before.
    pub fn make_ssss_tables(&mut self) -> (r: Result<(), DecodeError>)
        requires
            old(self).read_index + 2 <= old(self).encoded_image.len(),
        ensures
            final(self).encoded_image@ == old(self).encoded_image@,
            final(self).frame_header == old(self).frame_header,
            final(self).raw_image@ == old(self).raw_image@,
            final(self).read_index <= final(self).encoded_image@.len(),
            r is Ok ==> final(self).read_index > old(self).read_index,
            ({
                let b = old(self).encoded_image@;
                let at = old(self).read_index + 2;
                let id = (b[at + 2] & 0xFu8) as usize;
                if let Some(e) = dht_error(b, at) {
                    r == Err::<(), DecodeError>(e) && final(self).ssss_tables@ == old(self).ssss_tables@
                } else {
                    &&& r is Ok
                    &&& final(self).read_index == at + 19 + dht_offset(b, at, 16)
                    &&& tables_view(final(self).ssss_tables@) == tables_view(old(self).ssss_tables@).insert(
                        id,
                        dht_table_model(b, at),
                    )
                    &&& final(self).ssss_tables@.remove(id) == old(self).ssss_tables@.remove(id)
                    &&& final(self).ssss_tables@.contains_key(id)
                    &&& final(self).ssss_tables@[id].t_c == b[at + 2] >> 4u8
                    &&& final(self).ssss_tables@[id].t_h == b[at + 2] & 0xFu8
                    &&& exists|cl: [[Option<u8>; 16]; 16]|
                        dht_code_lengths(b, at, cl) && #[trigger] canonical_table(cl)
                            == final(self).ssss_tables@[id].table@
                    &&& length_bounds(
                        final(self).ssss_tables@[id].table@,
                        final(self).ssss_tables@[id].min_code_length,
                        final(self).ssss_tables@[id].max_code_length,
                    )
                }
            }),
    {
        self.found_marker();
        let (t_c, t_h, code_lengths) = match self.parse_huffman_info() {
            Ok(v) => v,
            Err(e) => {
                return Err(e);
            },
        };
        let (table, min_code_length, max_code_length) = make_ssss_table(code_lengths);
        let ssss_table = SSSSTable { t_c, t_h, table, min_code_length, max_code_length };
        self.ssss_tables.insert(t_h as usize, ssss_table);
        proof {
            let b = old(self).encoded_image@;
            let at = old(self).read_index + 2;
            lemma_dht_offset_grows(b, at, 0, 16);
            let id = (b[at + 2] & 0xFu8) as usize;
            assert(self.ssss_tables@.remove(id) =~= old(self).ssss_tables@.remove(id));
            lemma_dht_table_model(b, at, code_lengths, min_code_length, max_code_length);
            assert(tables_view(self.ssss_tables@) =~= tables_view(old(self).ssss_tables@).insert(
                id,
                dht_table_model(b, at),
            ));
            assert(canonical_table(code_lengths) == self.ssss_tables@[id].table@);
        }
        Ok(())
    }

    /// Reads the scan header whose marker is at the read position and decodes the scan
    /// that follows it.
    pub fn read_scan(&mut self) -> (r: Result<(), DecodeError>)
        requires
            old(self).read_index + 2 <= old(self).encoded_image.len(),
        ensures
            final(self).encoded_image@ == old(self).encoded_image@,
            final(self).frame_header == old(self).frame_header,
            final(self).ssss_tables@ == old(self).ssss_tables@,
            final(self).read_index <= final(self).encoded_image@.len(),
            r is Ok ==> final(self).read_index > old(self).read_index,
            !(r matches Err(DecodeError::UnsupportedMarker(_))),
            ({
                let b = old(self).encoded_image@;
                let at = old(self).read_index + 2;
                if scan_header_truncated(b, at) {
                    r == Err::<(), DecodeError>(DecodeError::Truncated)
                } else {
                    scan_decoded(
                        b,
                        at + 6 + 2 * b[at + 2],
                        frame_opt_view(old(self).frame_header),
                        tables_view(old(self).ssss_tables@),
                        scan_model_at(b, at),
                        r,
                        final(self).raw_image@,
                        final(self).read_index as int,
                    )
                }
            }),
    {
        self.found_marker();
        let scan_header = match parse_scan_header(self) {
            Ok(s) => s,
            Err(e) => {
                return Err(e);
            },
        };
        let ghost scan = scan_header;
        let ghost after = *self;
        let r = self.decode_image(scan_header);
        proof {
            if let Some(frame) = old(self).frame_header {
                lemma_decode_run_errors(
                    tables_view(old(self).ssss_tables@),
                    component_selectors(frame.components@.len(), scan.head_params@),
                    frame.x_ as nat,
                    frame.p_ as nat,
                    scan.a_l_p_t as nat,
                    scan.s_s,
                    expand_bits(destuffed(after.encoded_image@, after.read_index as int).0),
                    (frame.x_ * frame.y_ * frame.components@.len()) as nat,
                );
            }
            lemma_destuffed_end(after.encoded_image@, after.read_index as int);
            assert(scan_view(scan) == scan_model_at(old(self).encoded_image@, old(self).read_index + 2));
        }
        r
    }

    /// Removes the byte stuffing from the entropy-coded segment at the read position and
    /// returns its bits; the read position moves to the marker that ends the segment, or to
    /// the end of the bytes.
    pub fn get_image_data_without_stuffed_zero_bytes(&mut self) -> (r: Vec<u8>)
        requires
            old(self).read_index <= old(self).encoded_image@.len(),
        ensures
            r@ == expand_bits(destuffed(old(self).encoded_image@, old(self).read_index as int).0),
            all_bits(r@),
            final(self).read_index == destuffed(old(self).encoded_image@, old(self).read_index as int).1,
            final(self).encoded_image@ == old(self).encoded_image@,
            final(self).frame_header == old(self).frame_header,
            final(self).ssss_tables@ == old(self).ssss_tables@,
            final(self).raw_image@ == old(self).raw_image@,
    {
        let ghost bytes = self.encoded_image@;
        let ghost start = self.read_index as int;
        let len: usize = self.encoded_image.len();
        let mut image_data: Vec<u8> = Vec::with_capacity(len - self.read_index);
        let mut i: usize = self.read_index;
        let mut at_marker: bool = false;
        while i < len && !at_marker
            invariant
                bytes == self.encoded_image@,
                len == bytes.len(),
                start <= i <= len,
                !at_marker ==> image_data@ + destuffed(bytes, i as int).0 == destuffed(bytes, start).0,
                !at_marker ==> destuffed(bytes, i as int).1 == destuffed(bytes, start).1,
                at_marker ==> image_data@ == destuffed(bytes, start).0,
                at_marker ==> i == destuffed(bytes, start).1,
            decreases len - i + if at_marker { 0int } else { 1int },
        {
            let this_byte: u8 = self.encoded_image[i];
            if this_byte < 0xFF {
                image_data.push(this_byte);
                i = i + 1;
            } else if i + 1 >= len {
                image_data.push(this_byte);
                i = i + 1;
            } else if self.encoded_image[i + 1] == 0 {
                // a stuffed zero byte follows the data byte 0xFF and is dropped
                image_data.push(this_byte);
                i = i + 2;
            } else {
                // 0xFF begins the marker that ends the segment
                at_marker = true;
            }
            proof {
                assert(image_data@ + destuffed(bytes, i as int).0 =~= destuffed(bytes, start).0 || at_marker);
            }
        }
        if !at_marker {
            assert(destuffed(bytes, i as int).0 =~= Seq::<u8>::empty());
            assert(image_data@ =~= image_data@ + destuffed(bytes, i as int).0);
        }
        self.read_index = i;
        let mut bits: Vec<u8> = Vec::new();
        let mut k: usize = 0;
        while k < image_data.len()
            invariant
                k <= image_data@.len(),
                bits@ == expand_bits(image_data@.take(k as int)),
            decreases image_data@.len() - k,
        {
            let b: u8 = image_data[k];
            bits.push((b >> 7u8) & 1u8);
            bits.push((b >> 6u8) & 1u8);
            bits.push((b >> 5u8) & 1u8);
            bits.push((b >> 4u8) & 1u8);
            bits.push((b >> 3u8) & 1u8);
            bits.push((b >> 2u8) & 1u8);
            bits.push((b >> 1u8) & 1u8);
            bits.push(b & 1u8);
            proof {
                assert(image_data@.take(k + 1).drop_last() =~= image_data@.take(k as int));
                assert(bits@ =~= expand_bits(image_data@.take(k + 1)));
            }
            k = k + 1;
        }
        assert(image_data@.take(image_data@.len() as int) =~= image_data@);
        proof {
            lemma_expand_bits_are_bits(image_data@);
        }
        bits
    }

    /// Decodes the scan whose entropy-coded segment starts at the read position into
    /// `raw_image`, with the frame header and Huffman tables met before; the read position
    /// moves to the end of the segment.
    pub fn decode_image(&mut self, scan_header: ScanHeader) -> (r: Result<(), DecodeError>)
        requires
            old(self).read_index <= old(self).encoded_image@.len(),
        ensures
            final(self).encoded_image@ == old(self).encoded_image@,
            final(self).frame_header == old(self).frame_header,
            final(self).ssss_tables@ == old(self).ssss_tables@,
            final(self).read_index <= final(self).encoded_image@.len(),
            old(self).frame_header matches Some(frame) ==> (r is Ok ==> samples_fit(
                final(self).raw_image@,
                frame.p_ as nat,
            )),
            scan_decoded(
                old(self).encoded_image@,
                old(self).read_index as int,
                frame_opt_view(old(self).frame_header),
                tables_view(old(self).ssss_tables@),
                scan_view(scan_header),
                r,
                final(self).raw_image@,
                final(self).read_index as int,
            ),
    {
        let (p_, width, height, component_count, ids) = match &self.frame_header {
            None => {
                return Err(DecodeError::MissingFrame);
            },
            Some(frame) => {
                let count = frame.components.len();
                if frame.p_ < 2 || frame.p_ > 16 || scan_header.a_l_p_t >= frame.p_ || count < 1 {
                    return Err(DecodeError::BadHeader);
                }
                let pixels: usize = match (frame.x_ as usize).checked_mul(frame.y_ as usize) {
                    Some(v) => v,
                    None => {
                        assert(frame.x_ * frame.y_ * count > usize::MAX) by (nonlinear_arith)
                            requires
                                frame.x_ * frame.y_ > usize::MAX,
                                count >= 1,
                        ;
                        return Err(DecodeError::BadHeader);
                    },
                };
                if pixels.checked_mul(count).is_none() {
                    return Err(DecodeError::BadHeader);
                }
                let ids = match component_tables(count, &scan_header.head_params, &self.ssss_tables) {
                    Ok(ids) => ids,
                    Err(e) => {
                        return Err(e);
                    },
                };
                (frame.p_, frame.x_ as usize, frame.y_ as usize, count, ids)
            },
        };
        let ghost frame = frame_view(self.frame_header->0);
        let ghost sel = component_selectors(frame.components.len(), scan_header.head_params@);
        let ghost tables = tables_view(self.ssss_tables@);
        let total: usize = width * height * component_count;
        let p_t: u8 = scan_header.a_l_p_t;
        let predictor: u8 = scan_header.s_s;
        let image_bits = self.get_image_data_without_stuffed_zero_bytes();
        let ghost bits = image_bits@;
        let mut cursor = BitCursor::new(image_bits);
        // every sample takes at least one bit, so the bits bound what a header may claim
        let capacity: usize = if total < cursor.bits.len() { total } else { cursor.bits.len() };
        let mut raw_image: Vec<u32> = Vec::with_capacity(capacity);
        proof {
            assert(sel.len() == component_count);
            assert(total > 0 ==> width >= 1) by (nonlinear_arith)
                requires
                    total == width * height * component_count,
                    width >= 0,
                    height >= 0,
                    component_count >= 1,
            ;
            lemma_destuffed_end(old(self).encoded_image@, old(self).read_index as int);
        }
        while raw_image.len() < total
            invariant
                total == width * height * component_count,
                total > 0 ==> width >= 1,
                old(self).frame_header is Some,
                frame == frame_view(old(self).frame_header->0),
                width == frame.x_,
                height == frame.y_,
                p_ == frame.p_,
                p_t == scan_header.a_l_p_t,
                predictor == scan_header.s_s,
                sel == component_selectors(frame.components.len(), scan_header.head_params@),
                bits == expand_bits(destuffed(old(self).encoded_image@, old(self).read_index as int).0),
                1 <= component_count,
                self.encoded_image@ == old(self).encoded_image@,
                self.frame_header == old(self).frame_header,
                self.ssss_tables@ == old(self).ssss_tables@,
                self.read_index == destuffed(old(self).encoded_image@, old(self).read_index as int).1,
                self.read_index <= self.encoded_image@.len(),
                sel.len() == component_count,
                ids@.len() == component_count,
                forall|i: int| 0 <= i < ids@.len() ==> #[trigger] ids@[i] == sel[i]->0 as usize,
                tables_ready(sel, tables),
                tables == tables_view(self.ssss_tables@),
                2 <= p_ <= 16,
                p_t < p_,
                cursor.bits@ == bits,
                cursor.wf(),
                all_bits(bits),
                raw_image@.len() <= total,
                samples_fit(raw_image@, p_ as nat),
                decode_run(tables, sel, width as nat, p_ as nat, p_t as nat, predictor, bits, raw_image@.len() as nat)
                    == Ok::<(Seq<u32>, int), DecodeError>((raw_image@, cursor.pos as int)),
            decreases total - raw_image@.len(),
        {
            let ghost n = raw_image@.len() as nat;
            let component = raw_image.len() % component_count;
            proof {
                assert(pow2(16) == 0x10000) by { lemma2_to64(); }
                if p_ < 16 {
                    lemma_pow2_strictly_increases(p_ as nat, 16);
                }
                assert(samples_fit(raw_image@, 16));
            }
            let p_x = make_prediciton(&raw_image, component_count, width, p_, p_t, predictor);
            proof {
                assert(tables.contains_key(ids@[component as int]));
            }
            let table = match self.ssss_tables.get(&ids[component]) {
                Some(t) => t,
                None => {
                    return Err(DecodeError::MissingTable);
                },
            };
            let pixel_delta = match get_huffmaned_value(table, &mut cursor) {
                Ok(d) => d,
                Err(e) => {
                    proof {
                        lemma_decode_run_error_persists(
                            tables, sel, width as nat, p_ as nat, p_t as nat, predictor, bits, n + 1, total as nat,
                        );
                    }
                    return Err(e);
                },
            };
            let value = reconstruct(p_x, pixel_delta, p_);
            raw_image.push(value);
        }
        self.raw_image = raw_image;
        Ok(())
    }
}

} // verus!
