use vstd::arithmetic::power2::{lemma2_to64, lemma_pow2_strictly_increases, pow2};
use vstd::arithmetic::div_mod::lemma_fundamental_div_mod;
use vstd::bits::lemma_u32_shl_is_mul;
use vstd::prelude::*;

verus! {

/// Every sample is below `2^p`.
pub open spec fn samples_fit(img: Seq<u32>, p: nat) -> bool {
    forall|i: int| 0 <= i < img.len() ==> #[trigger] img[i] < pow2(p)
}

/// Position in the sample buffer of component `comp` of the pixel at column `x`, row `y`.
pub open spec fn sample_index(x: int, y: int, width: int, count: int, comp: int) -> int {
    x * count + y * width * count + comp
}

/// Predicted value for the sample that follows `img`: the origin constant `2^(p - pt - 1)`
/// at the first pixel, the sample above on the first column, the sample to the left on the
/// first row, and elsewhere the predictor that `predictor` selects from the left (A),
/// upper (B) and upper-left (C) samples of the same component.
pub open spec fn predicted_value(img: Seq<u32>, count: nat, width: nat, p: nat, pt: nat, predictor: u8) -> int {
    let idx = img.len() as int;
    let comp = idx % count as int;
    let x = (idx / count as int) % width as int;
    let y = (idx / count as int) / width as int;
    let a = img[sample_index(x - 1, y, width as int, count as int, comp)] as int;
    let b = img[sample_index(x, y - 1, width as int, count as int, comp)] as int;
    let c = img[sample_index(x - 1, y - 1, width as int, count as int, comp)] as int;
    let origin = pow2((p - pt - 1) as nat) as int;
    if x == 0 && y == 0 {
        origin
    } else if x == 0 {
        b
    } else if y == 0 {
        a
    } else if predictor == 0 {
        0
    } else if predictor == 1 {
        a
    } else if predictor == 2 {
        b
    } else if predictor == 3 {
        c
    } else if predictor == 4 {
        a + b - c
    } else if predictor == 5 {
        a + (b - c) / 2
    } else if predictor == 6 {
        b + (a - c) / 2
    } else if predictor == 7 {
        (a + b) / 2
    } else {
        origin
    }
}

/// Sample value that a prediction and a decoded difference give: their sum modulo `2^p`.
pub open spec fn reconstructed_value(predicted: int, difference: int, p: nat) -> int {
    (predicted + difference) % (pow2(p) as int)
}

/// Where the next sample of an image lies, with read access to the samples before it.
pub struct ContextContext<'a> {
    pub component: usize,
    pub x_position: usize,
    pub y_position: usize,
    pub width: usize,
    pub component_count: usize,
    /// Point transform.
    pub p_t: u8,
    /// Sample precision.
    pub p_: u8,
    pub img: &'a Vec<u32>,
}

impl<'a> ContextContext<'a> {
    /// The context describes the sample at the end of `img`, whose samples all fit 16 bits.
    pub open spec fn wf(&self) -> bool {
        &&& 1 <= self.component_count
        &&& 1 <= self.width
        &&& self.component < self.component_count
        &&& self.x_position < self.width
        &&& self.img@.len() == sample_index(
            self.x_position as int,
            self.y_position as int,
            self.width as int,
            self.component_count as int,
            self.component as int,
        )
        &&& self.img@.len() <= usize::MAX
        &&& self.p_t < self.p_ <= 16
        &&& samples_fit(self.img@, 16)
    }

    /// Sample to the left.
    pub fn r_a(&self) -> (r: i32)
        requires
            self.wf(),
            self.x_position >= 1,
        ensures
            r == self.img@[sample_index(
                self.x_position - 1,
                self.y_position as int,
                self.width as int,
                self.component_count as int,
                self.component as int,
            )],
    {
        proof {
            self.lemma_neighbours_written();
        }
        self.img[(self.x_position - 1) * self.component_count + self.y_position * self.width
            * self.component_count + self.component] as i32
    }

    /// Sample above.
    pub fn r_b(&self) -> (r: i32)
        requires
            self.wf(),
            self.y_position >= 1,
        ensures
            r == self.img@[sample_index(
                self.x_position as int,
                self.y_position - 1,
                self.width as int,
                self.component_count as int,
                self.component as int,
            )],
    {
        proof {
            self.lemma_neighbours_written();
        }
        self.img[self.x_position * self.component_count + (self.y_position - 1) * self.width
            * self.component_count + self.component] as i32
    }

    /// Sample above and to the left.
    pub fn r_c(&self) -> (r: i32)
        requires
            self.wf(),
            self.x_position >= 1,
            self.y_position >= 1,
        ensures
            r == self.img@[sample_index(
                self.x_position - 1,
                self.y_position - 1,
                self.width as int,
                self.component_count as int,
                self.component as int,
            )],
    {
        proof {
            self.lemma_neighbours_written();
        }
        self.img[(self.x_position - 1) * self.component_count + (self.y_position - 1) * self.width
            * self.component_count + self.component] as i32
    }

    /// The origin constant `2^(P - Pt - 1)`.
    pub fn r_ix(&self) -> (r: i32)
        requires
            self.wf(),
        ensures
            r == pow2((self.p_ - self.p_t - 1) as nat),
            0 < r < 0x10000,
    {
        let shift: u32 = (self.p_ - self.p_t - 1) as u32;
        proof {
            assert(pow2(16) == 0x10000) by { lemma2_to64(); }
            if shift < 16 {
                lemma_pow2_strictly_increases(shift as nat, 16);
            }
            lemma_u32_shl_is_mul(1, shift);
            assert(1 * pow2(shift as nat) == pow2(shift as nat));
            vstd::arithmetic::power2::lemma_pow2_pos(shift as nat);
        }
        (1u32 << shift) as i32
    }

    /// The left, upper and upper-left neighbours that exist lie before the current sample,
    /// and every sample fits an `i32`.
    proof fn lemma_neighbours_written(&self)
        requires
            self.wf(),
        ensures
            self.x_position >= 1 ==> 0 <= sample_index(
                self.x_position - 1,
                self.y_position as int,
                self.width as int,
                self.component_count as int,
                self.component as int,
            ) < self.img@.len(),
            self.y_position >= 1 ==> 0 <= sample_index(
                self.x_position as int,
                self.y_position - 1,
                self.width as int,
                self.component_count as int,
                self.component as int,
            ) < self.img@.len(),
            self.x_position >= 1 && self.y_position >= 1 ==> 0 <= sample_index(
                self.x_position - 1,
                self.y_position - 1,
                self.width as int,
                self.component_count as int,
                self.component as int,
            ) < self.img@.len(),
            forall|i: int| 0 <= i < self.img@.len() ==> self.img@[i] < 0x10000,
            0 <= self.x_position * self.component_count <= self.img@.len(),
            self.x_position >= 1 ==> 0 <= (self.x_position - 1) * self.component_count
                <= self.x_position * self.component_count,
            0 <= self.y_position * self.width <= self.y_position * self.width * self.component_count,
            0 <= self.y_position * self.width * self.component_count <= self.img@.len(),
            self.y_position >= 1 ==> 0 <= (self.y_position - 1) * self.width <= (self.y_position - 1)
                * self.width * self.component_count <= self.y_position * self.width * self.component_count,
    {
        let x = self.x_position as int;
        let y = self.y_position as int;
        let w = self.width as int;
        let n = self.component_count as int;
        let k = self.component as int;
        assert(0 <= y * w * n) by (nonlinear_arith)
            requires
                y >= 0,
                w >= 0,
                n >= 0,
        ;
        assert(0 <= x * n) by (nonlinear_arith)
            requires
                x >= 0,
                n >= 0,
        ;
        assert(y * w <= y * w * n) by (nonlinear_arith)
            requires
                y >= 0,
                w >= 0,
                n >= 1,
        ;
        assert(y >= 1 ==> 0 <= (y - 1) * w <= (y - 1) * w * n) by (nonlinear_arith)
            requires
                w >= 0,
                n >= 1,
        ;
        assert((x - 1) * n == x * n - n) by (nonlinear_arith);
        assert((y - 1) * w * n == y * w * n - w * n) by (nonlinear_arith);
        assert(x * n < w * n) by (nonlinear_arith)
            requires
                x < w,
                n >= 1,
        ;
        assert(pow2(16) == 0x10000) by { lemma2_to64(); }
    }
}

/// Half of `d`, rounded towards negative infinity (an arithmetic shift right by one).
fn half_floor(d: i32) -> (r: i32)
    requires
        -0x20000 <= d <= 0x20000,
    ensures
        r == d as int / 2,
{
    if d >= 0 {
        d / 2
    } else {
        -((1 - d) / 2)
    }
}

/// Predicted value for the sample that `context` describes, with `predictor` the scan's
/// predictor selector; the borders use the origin constant, the sample above and the
/// sample to the left instead.
pub fn predict(context: ContextContext, predictor: u8) -> (r: i32)
    requires
        context.wf(),
    ensures
        r == predicted_value(
            context.img@,
            context.component_count as nat,
            context.width as nat,
            context.p_ as nat,
            context.p_t as nat,
            predictor,
        ),
        -0x10000 <= r <= 0x20000,
{
    let ghost img = context.img@;
    let ghost n = context.component_count as int;
    let ghost w = context.width as int;
    proof {
        let idx = img.len() as int;
        let x = context.x_position as int;
        let y = context.y_position as int;
        let k = context.component as int;
        assert(idx == (y * w + x) * n + k) by (nonlinear_arith)
            requires
                idx == x * n + y * w * n + k,
        ;
        lemma_fundamental_div_mod(idx, n);
        vstd::arithmetic::div_mod::lemma_fundamental_div_mod_converse(idx, n, y * w + x, k);
        assert(0 <= y * w) by (nonlinear_arith)
            requires
                y >= 0,
                w >= 0,
        ;
        vstd::arithmetic::div_mod::lemma_fundamental_div_mod_converse(y * w + x, w, y, x);
        context.lemma_neighbours_written();
    }
    let mut predictor = predictor;
    if context.x_position == 0 {
        if context.y_position == 0 {
            predictor = 8;
        } else {
            predictor = 2;
        }
    } else if context.y_position == 0 {
        predictor = 1;
    }
    match predictor {
        0 => 0,
        1 => context.r_a(),
        2 => context.r_b(),
        3 => context.r_c(),
        4 => context.r_a() + context.r_b() - context.r_c(),
        5 => context.r_a() + half_floor(context.r_b() - context.r_c()),
        6 => context.r_b() + half_floor(context.r_a() - context.r_c()),
        7 => (context.r_a() + context.r_b()) / 2,
        _ => context.r_ix(),
    }
}

/// Predicted value for the sample that follows `raw_image`, an image of `component_count`
/// interleaved components and `width` pixels per row, with precision `p_` and point
/// transform `p_t`.
pub fn make_prediciton(
    raw_image: &Vec<u32>,
    component_count: usize,
    width: usize,
    p_: u8,
    p_t: u8,
    predictor: u8,
) -> (r: i32)
    requires
        component_count >= 1,
        width >= 1,
        p_t < p_ <= 16,
        samples_fit(raw_image@, 16),
    ensures
        r == predicted_value(raw_image@, component_count as nat, width as nat, p_ as nat, p_t as nat, predictor),
        -0x10000 <= r <= 0x20000,
{
    let idx = raw_image.len();
    let component = idx % component_count;
    let context = ContextContext {
        component,
        x_position: (idx / component_count) % width,
        y_position: (idx / component_count) / width,
        width,
        component_count,
        p_t,
        p_,
        img: raw_image,
    };
    proof {
        let n = component_count as int;
        let w = width as int;
        let q = idx as int / n;
        lemma_fundamental_div_mod(idx as int, n);
        lemma_fundamental_div_mod(q, w);
        let x = q % w;
        let y = q / w;
        assert(idx as int == x * n + y * w * n + component as int) by (nonlinear_arith)
            requires
                idx as int == n * q + component as int,
                q == w * y + x,
        ;
    }
    predict(context, predictor)
}

/// Sample value from a prediction and a decoded difference: their sum modulo `2^p_`.
pub fn reconstruct(predicted: i32, difference: i32, p_: u8) -> (r: u32)
    requires
        1 <= p_ <= 16,
        -0x40000 <= predicted <= 0x40000,
        -0x10000 <= difference <= 0x10000,
    ensures
        r == reconstructed_value(predicted as int, difference as int, p_ as nat),
        r < pow2(p_ as nat),
{
    proof {
        assert(pow2(16) == 0x10000) by { lemma2_to64(); }
        if p_ < 16 {
            lemma_pow2_strictly_increases(p_ as nat, 16);
        }
        lemma_u32_shl_is_mul(1, p_ as u32);
        assert(1 * pow2(p_ as nat) == pow2(p_ as nat));
        vstd::arithmetic::power2::lemma_pow2_pos(p_ as nat);
    }
    let modulus: i32 = (1u32 << (p_ as u32)) as i32;
    let sum: i32 = predicted + difference;
    match sum.checked_rem_euclid(modulus) {
        Some(v) => {
            proof {
                vstd::arithmetic::div_mod::lemma_mod_bound(sum as int, modulus as int);
            }
            v as u32
        },
        None => 0,
    }
}

/// At the first pixel the prediction is the origin constant `2^(p - pt - 1)` whatever the
/// predictor selector; on the first column it is the sample directly above, on the first
/// row the sample directly to the left.
pub proof fn lemma_border_predictions(img: Seq<u32>, count: nat, width: nat, p: nat, pt: nat, predictor: u8)
    requires
        count >= 1,
        width >= 1,
    ensures
        ({
            let idx = img.len() as int;
            let x = (idx / count as int) % width as int;
            let y = (idx / count as int) / width as int;
            &&& x == 0 && y == 0 ==> predicted_value(img, count, width, p, pt, predictor) == pow2(
                (p - pt - 1) as nat,
            )
            &&& x == 0 && y > 0 ==> idx >= width * count && predicted_value(
                img,
                count,
                width,
                p,
                pt,
                predictor,
            ) == img[idx - width * count]
            &&& x > 0 && y == 0 ==> idx >= count && predicted_value(img, count, width, p, pt, predictor)
                == img[idx - count]
        }),
{
    let idx = img.len() as int;
    let n = count as int;
    let w = width as int;
    let q = idx / n;
    let k = idx % n;
    let x = q % w;
    let y = q / w;
    lemma_fundamental_div_mod(idx, n);
    lemma_fundamental_div_mod(q, w);
    vstd::arithmetic::div_mod::lemma_mod_bound(idx, n);
    vstd::arithmetic::div_mod::lemma_mod_bound(q, w);
    assert(q >= 0) by {
        vstd::arithmetic::div_mod::lemma_div_pos_is_pos(idx, n);
    }
    assert(y >= 0) by {
        vstd::arithmetic::div_mod::lemma_div_pos_is_pos(q, w);
    }
    assert(idx == x * n + y * w * n + k) by (nonlinear_arith)
        requires
            idx == n * q + k,
            q == w * y + x,
    ;
    assert(sample_index(x, y - 1, w, n, k) == idx - w * n) by (nonlinear_arith)
        requires
            idx == x * n + y * w * n + k,
    ;
    assert(sample_index(x - 1, y, w, n, k) == idx - n) by (nonlinear_arith)
        requires
            idx == x * n + y * w * n + k,
    ;
    assert(y > 0 ==> idx >= w * n) by (nonlinear_arith)
        requires
            idx == x * n + y * w * n + k,
            x >= 0,
            k >= 0,
            n >= 1,
            w >= 1,
    ;
    assert(x > 0 ==> idx >= n) by (nonlinear_arith)
        requires
            idx == x * n + y * w * n + k,
            y >= 0,
            k >= 0,
            n >= 1,
            w >= 1,
    ;
}

} // verus!
