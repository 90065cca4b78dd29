use vstd::prelude::*;

verus! {

/// One image component of a frame header.
pub struct Component {
    /// Component identifier.
    pub c_: u8,
    /// Horizontal sampling factor.
    pub h_: u8,
    /// Vertical sampling factor.
    pub v_: u8,
    /// Quantization table selector; unused in lossless mode.
    pub t_q: u8,
}

/// Frame header (SOF): sample precision, image size and components, in header order.
pub struct FrameHeader {
    pub marker: u16,
    /// Sample precision in bits.
    pub p_: u8,
    /// Number of lines.
    pub y_: u16,
    /// Number of samples per line.
    pub x_: u16,
    pub components: Vec<Component>,
}

/// One component of a scan header, with its table selectors.
pub struct HeaderParameter {
    /// Scan component selector: the identifier of a frame component.
    pub c_s: u8,
    /// DC (in lossless mode: Huffman) table selector.
    pub t_d: u8,
    /// AC table selector; unused in lossless mode.
    pub t_a: u8,
}

/// Scan header (SOS): the components of the scan, in header order, and the predictor
/// selection and point transform.
pub struct ScanHeader {
    pub head_params: Vec<HeaderParameter>,
    /// Predictor selector.
    pub s_s: u8,
    /// End of spectral selection; unused in lossless mode.
    pub s_e: u8,
    /// Successive approximation high bits; unused in lossless mode.
    pub a_h: u8,
    /// Point transform.
    pub a_l_p_t: u8,
}

/// Start-of-frame marker of the lossless Huffman process.
pub const SOF3: u16 = 0xFFC3;

/// Define-Huffman-tables marker.
pub const DHT: u16 = 0xFFC4;

/// End-of-image marker.
pub const EOI: u16 = 0xFFD9;

/// Start-of-scan marker.
pub const SOS: u16 = 0xFFDA;

/// Start-of-image marker.
pub const SOI: u16 = 0xFFD8;

/// `bytes` begins with the start-of-image marker.
pub open spec fn starts_with_soi(bytes: Seq<u8>) -> bool {
    bytes.len() >= 2 && bytes[0] == 0xFF && bytes[1] == 0xD8
}

/// Whether `bytes` begins with the start-of-image marker.
pub fn is_jpeg(bytes: &[u8]) -> (r: bool)
    ensures
        r == starts_with_soi(bytes@),
{
    if bytes.len() < 2 {
        return false;
    }
    let marker: u16 = (bytes[0] as u16) * 256 + bytes[1] as u16;
    marker == SOI
}

} // verus!
