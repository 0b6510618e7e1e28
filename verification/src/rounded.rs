//! anti-aliased rounded rectangle edges in 1/16 pixel fixed point

use vstd::prelude::*;

use crate::geometry::PhysicalRect;

verus! {

/// a color whose channels are already multiplied by its alpha
#[derive(Clone, Copy, Debug, Default, PartialEq, Eq, Structural)]
pub struct PremultipliedRgbaColor {
    pub red: u8,
    pub green: u8,
    pub blue: u8,
    pub alpha: u8,
}

/// corner radii in whole pixels
#[derive(Clone, Copy, Debug, PartialEq, Eq, Structural)]
pub struct Radii {
    pub top_left: i32,
    pub top_right: i32,
    pub bottom_right: i32,
    pub bottom_left: i32,
}

/// the largest radius the fixed-point arithmetic squares without overflow
pub const MAX_RADIUS: i32 = 4095;

impl Radii {
    pub fn is_zero(self) -> (zero: bool)
        ensures
            zero == (self.top_left == 0 && self.top_right == 0 && self.bottom_right == 0
                && self.bottom_left == 0),
    {
        self.top_left == 0 && self.top_right == 0 && self.bottom_right == 0 && self.bottom_left == 0
    }

    /// every radius is non-negative and small enough to square in fixed point
    pub open spec fn in_range(self) -> bool {
        &&& 0 <= self.top_left <= MAX_RADIUS
        &&& 0 <= self.top_right <= MAX_RADIUS
        &&& 0 <= self.bottom_right <= MAX_RADIUS
        &&& 0 <= self.bottom_left <= MAX_RADIUS
    }
}

/// a length in sixteenths of a pixel
#[derive(Clone, Copy, Debug, PartialEq, Eq, Structural)]
pub struct Shifted(pub u32);

/// one pixel in fixed point
pub const ONE: u32 = 16;

/// the square root rounded down, found by halving the range that holds it
fn isqrt_u32(value: u32) -> (root: u32)
    ensures
        root * root <= value,
        value < (root + 1) * (root + 1),
{
    let mut low: u64 = 0;
    let mut high: u64 = 0x1_0000;
    while high - low > 1
        invariant
            low < high <= 0x1_0000,
            low * low <= value,
            value < high * high,
        decreases high - low,
    {
        let middle = low + (high - low) / 2;
        assert(middle * middle <= 0x1_0000 * 0x1_0000) by (nonlinear_arith)
            requires
                middle <= 0x1_0000,
        ;
        if middle * middle <= value as u64 {
            low = middle;
        } else {
            high = middle;
        }
    }
    low as u32
}

/// whole pixels in fixed point, negative ones taken as zero, wrapping past `u32`
pub open spec fn fixed(value: i32) -> u32 {
    (if value < 0 { 0 } else { value as int * 16 % 0x1_0000_0000 }) as u32
}

impl Shifted {
    /// whole pixels, negative ones taken as zero, wrapping past the range of `u32`
    pub fn new(value: i32) -> (shifted: Self)
        ensures
            shifted.0 == fixed(value),
            shifted.0 <= u32::MAX - 15,
            0 <= value < 0x0800_0000 ==> shifted.0 == value * 16,
    {
        let pixels = if value < 0 { 0u32 } else { value as u32 };
        assert(pixels << 4u32 == (pixels as int * 16) % 0x1_0000_0000) by (bit_vector);
        assert(pixels << 4u32 <= 0xffff_fff0u32) by (bit_vector);
        Shifted(pixels << 4u32)
    }

    /// whole pixels, rounded down
    pub fn floor(self) -> (pixels: u32)
        ensures
            pixels == self.0 / 16,
    {
        let value = self.0;
        assert(value >> 4u32 == value / 16) by (bit_vector);
        self.0 >> 4u32
    }

    /// whole pixels, rounded up
    pub fn ceil(self) -> (pixels: u32)
        requires
            self.0 <= u32::MAX - 15,
        ensures
            pixels == (self.0 + 15) / 16,
    {
        let value = self.0 + (ONE - 1);
        assert(value >> 4u32 == value / 16) by (bit_vector);
        value >> 4u32
    }

    pub fn saturating_sub(self, other: Self) -> (difference: Self)
        ensures
            difference.0 == (if self.0 >= other.0 { self.0 - other.0 } else { 0 }),
    {
        Shifted(self.0.saturating_sub(other.0))
    }

    /// the square root of a fixed-point square, rounded down
    pub fn sqrt(self) -> (root: Self)
        ensures
            root.0 * root.0 <= self.0,
            self.0 < (root.0 + 1) * (root.0 + 1),
    {
        Shifted(isqrt_u32(self.0))
    }
}

/// the integer square root of a non-negative value, rounded down
pub open spec fn root(value: int) -> int {
    choose|r: int| #[trigger] is_root(value, r)
}

/// `r` is the rounded-down square root of `value`
pub open spec fn is_root(value: int, r: int) -> bool {
    0 <= r && r * r <= value && value < (r + 1) * (r + 1)
}

/// the difference of two values, or zero where the second is larger
pub open spec fn sat_sub(a: int, b: int) -> int {
    if a >= b { a - b } else { 0 }
}

/// a value has exactly one rounded-down square root
proof fn lemma_root(value: int, r: int)
    requires
        0 <= r,
        r * r <= value,
        value < (r + 1) * (r + 1),
    ensures
        root(value) == r,
{
    assert(is_root(value, r));
    let c = root(value);
    assert(is_root(value, c));
    lemma_root_monotone(value, value, c, r);
    lemma_root_monotone(value, value, r, c);
}

/// every non-negative value has a rounded-down square root
proof fn lemma_root_exists(value: int)
    requires
        0 <= value,
    ensures
        is_root(value, root(value)),
    decreases value,
{
    if value == 0 {
        assert(is_root(0, 0));
    } else {
        lemma_root_exists(value - 1);
        let r = root(value - 1);
        if value < (r + 1) * (r + 1) {
            assert(is_root(value, r));
        } else {
            assert((r + 1) * (r + 1) == value);
            assert(value < (r + 2) * (r + 2)) by (nonlinear_arith)
                requires
                    (r + 1) * (r + 1) == value,
                    r >= 0,
            ;
            assert(is_root(value, r + 1));
        }
    }
}

/// a root below the root of a larger square is no larger
proof fn lemma_root_monotone(a: int, b: int, ra: int, rb: int)
    requires
        0 <= a <= b,
        0 <= ra,
        0 <= rb,
        ra * ra <= a,
        b < (rb + 1) * (rb + 1),
    ensures
        ra <= rb,
{
    if ra > rb {
        assert((rb + 1) * (rb + 1) <= ra * ra) by (nonlinear_arith)
            requires
                ra >= rb + 1,
                rb >= 0,
        ;
    }
}

/// where the outer edge of a corner of `radius` pixels starts and ends on the row
/// `y` pixels above the corner's base, in fixed point
pub open spec fn outer_edges_at(radius: int, y: int) -> (int, int) {
    let r = radius * 16;
    let height = r - y * 16;
    (
        r - root(sat_sub(r * r, (height - 16) * (height - 16))),
        r - root(sat_sub(r * r, height * height)),
    )
}

/// the outer edge of a corner starts no later than it ends, within the corner
pub proof fn lemma_outer_edges_ordered(radius: int, y: int)
    requires
        0 <= y < radius <= MAX_RADIUS,
    ensures
        0 <= outer_edges_at(radius, y).0 <= outer_edges_at(radius, y).1 <= radius * 16,
{
    let r = radius * 16;
    let height = r - y * 16;
    assert(16 <= height <= r);
    assert(height * height <= r * r) by (nonlinear_arith)
        requires
            0 <= height <= r,
    ;
    assert((height - 16) * (height - 16) <= height * height) by (nonlinear_arith)
        requires
            16 <= height,
    ;
    assert(0 <= (height - 16) * (height - 16)) by (nonlinear_arith);
    let a = sat_sub(r * r, (height - 16) * (height - 16));
    let b = sat_sub(r * r, height * height);
    lemma_root_exists(a);
    lemma_root_exists(b);
    assert(r * r < (r + 1) * (r + 1)) by (nonlinear_arith)
        requires
            r >= 0,
    ;
    lemma_root_monotone(b, a, root(b), root(a));
    lemma_root_monotone(a, r * r, root(a), r);
}

/// where the outer edge of a corner of `radius` pixels starts and ends on the row
/// `y` pixels above the corner's base
pub fn outer_edges(radius: i32, y: i32) -> (edges: (Shifted, Shifted))
    requires
        0 <= y < radius <= MAX_RADIUS,
    ensures
        edges.0.0 == outer_edges_at(radius as int, y as int).0,
        edges.1.0 == outer_edges_at(radius as int, y as int).1,
        edges.0.0 <= edges.1.0 <= radius * 16,
{
    let r = Shifted::new(radius);
    let y = Shifted(r.0 - Shifted::new(y).0);
    proof {
        assert(r.0 * r.0 <= 0x1_0000_0000 - 1) by (nonlinear_arith)
            requires
                r.0 <= 4095 * 16,
        ;
        assert(16 <= y.0 <= r.0);
        assert(y.0 * y.0 <= r.0 * r.0) by (nonlinear_arith)
            requires
                y.0 <= r.0,
        ;
        assert((y.0 - 16) * (y.0 - 16) <= y.0 * y.0) by (nonlinear_arith)
            requires
                16 <= y.0,
        ;
    }
    let squared = r.0 * r.0;
    let below = Shifted(squared).saturating_sub(Shifted(y.0 * y.0)).sqrt();
    let above = Shifted(squared).saturating_sub(Shifted((y.0 - ONE) * (y.0 - ONE))).sqrt();
    proof {
        let a = if squared >= y.0 * y.0 { squared - y.0 * y.0 } else { 0 };
        let b = if squared >= (y.0 - 16) * (y.0 - 16) { squared - (y.0 - 16) * (y.0 - 16) } else { 0 };
        lemma_root_monotone(a, b, below.0 as int, above.0 as int);
        assert(r.0 * r.0 < (r.0 + 1) * (r.0 + 1)) by (nonlinear_arith)
            requires
                r.0 >= 0,
        ;
        lemma_root_monotone(b, squared as int, above.0 as int, r.0 as int);
        lemma_root(a, below.0 as int);
        lemma_root(b, above.0 as int);
    }
    let x2 = Shifted(r.0 - below.0);
    let x1 = Shifted(r.0 - above.0);
    (x1, x2)
}

/// coverage of pixel `x` by an edge that crosses from `start` to `end`, out of 255
pub open spec fn edge_value(start: Shifted, end: Shifted, x: i32) -> int {
    if start == end {
        255
    } else {
        min_255(
            (((ONE + fixed(x) - start.0) * 256) % 0x1_0000_0000) / (ONE + end.0 - start.0) as int,
        )
    }
}

/// coverage of pixel `x` by an edge that crosses from `start` to `end`, out of 255
pub fn edge_coverage(start: Shifted, end: Shifted, x: i32) -> (coverage: u32)
    requires
        start.0 <= end.0,
        end.0 + ONE <= u32::MAX,
        ONE + fixed(x) >= start.0,
        ONE + fixed(x) <= u32::MAX,
    ensures
        coverage == edge_value(start, end, x),
        coverage <= 255,
{
    if start.0 == end.0 {
        return 255;
    }
    let numerator = ONE + Shifted::new(x).0 - start.0;
    assert(numerator << 8u32 == (numerator as int * 256) % 0x1_0000_0000) by (bit_vector);
    let value = (numerator << 8u32) / (ONE + end.0 - start.0);
    if value < 255 {
        value
    } else {
        255
    }
}

/// the smaller of a value and 255
pub open spec fn min_255(value: int) -> int {
    if value < 255 {
        value
    } else {
        255
    }
}

/// blends one channel: `amount` of 255 parts of `second`, the rest of `first`
pub open spec fn blend_channel(amount: int, first: u8, second: u8) -> int {
    ((255 - amount) * first + amount * second) / 255
}

proof fn lemma_blend_channel_bounds(amount: int, first: u8, second: u8)
    requires
        0 <= amount <= 255,
    ensures
        0 <= blend_channel(amount, first, second) <= 255,
        blend_channel(0, first, second) == first,
        blend_channel(255, first, second) == second,
{
    assert(0 <= (255 - amount) * first + amount * second <= 255 * 255) by (nonlinear_arith)
        requires
            0 <= amount <= 255,
            0 <= first <= 255,
            0 <= second <= 255,
    ;
    assert((255 - 0) * first + 0 * second == 255 * first);
    assert((255 - 255) * first + 255 * second == 255 * second);
    assert((255 * first as int) / 255 == first) by (nonlinear_arith);
    assert((255 * second as int) / 255 == second) by (nonlinear_arith);
}

/// blends two premultiplied colors: `amount` of 255 parts of `second`, the rest of `first`
pub fn interpolate(amount: u32, first: PremultipliedRgbaColor, second: PremultipliedRgbaColor) -> (blended: PremultipliedRgbaColor)
    requires
        amount <= 255,
    ensures
        blended.alpha == blend_channel(amount as int, first.alpha, second.alpha),
        blended.red == blend_channel(amount as int, first.red, second.red),
        blended.green == blend_channel(amount as int, first.green, second.green),
        blended.blue == blend_channel(amount as int, first.blue, second.blue),
{
    proof {
        lemma_blend_channel_bounds(amount as int, first.alpha, second.alpha);
        lemma_blend_channel_bounds(amount as int, first.red, second.red);
        lemma_blend_channel_bounds(amount as int, first.green, second.green);
        lemma_blend_channel_bounds(amount as int, first.blue, second.blue);
        assert(amount * 255 <= 255 * 255) by (nonlinear_arith)
            requires
                amount <= 255,
        ;
    }
    let inverse = 255 - amount;
    proof {
        assert(inverse * first.alpha as u32 + amount * second.alpha as u32 <= 255 * 255) by (nonlinear_arith)
            requires
                inverse + amount == 255,
                first.alpha <= 255,
                second.alpha <= 255,
        ;
        assert(inverse * first.red as u32 + amount * second.red as u32 <= 255 * 255) by (nonlinear_arith)
            requires
                inverse + amount == 255,
                first.red <= 255,
                second.red <= 255,
        ;
        assert(inverse * first.green as u32 + amount * second.green as u32 <= 255 * 255) by (nonlinear_arith)
            requires
                inverse + amount == 255,
                first.green <= 255,
                second.green <= 255,
        ;
        assert(inverse * first.blue as u32 + amount * second.blue as u32 <= 255 * 255) by (nonlinear_arith)
            requires
                inverse + amount == 255,
                first.blue <= 255,
                second.blue <= 255,
        ;
    }
    PremultipliedRgbaColor {
        alpha: ((inverse * first.alpha as u32 + amount * second.alpha as u32) / 255) as u8,
        red: ((inverse * first.red as u32 + amount * second.red as u32) / 255) as u8,
        green: ((inverse * first.green as u32 + amount * second.green as u32) / 255) as u8,
        blue: ((inverse * first.blue as u32 + amount * second.blue as u32) / 255) as u8,
    }
}

/// interpolating with no amount gives the first color and with all of it the second
pub proof fn law_interpolate_ends(first: PremultipliedRgbaColor, second: PremultipliedRgbaColor)
    ensures
        blend_channel(0, first.alpha, second.alpha) == first.alpha,
        blend_channel(0, first.red, second.red) == first.red,
        blend_channel(0, first.green, second.green) == first.green,
        blend_channel(0, first.blue, second.blue) == first.blue,
        blend_channel(255, first.alpha, second.alpha) == second.alpha,
        blend_channel(255, first.red, second.red) == second.red,
        blend_channel(255, first.green, second.green) == second.green,
        blend_channel(255, first.blue, second.blue) == second.blue,
{
    lemma_blend_channel_bounds(0, first.alpha, second.alpha);
    lemma_blend_channel_bounds(0, first.red, second.red);
    lemma_blend_channel_bounds(0, first.green, second.green);
    lemma_blend_channel_bounds(0, first.blue, second.blue);
}


/// where the inner edge of a corner of `radius` pixels with a border of
/// `border` sixteenths starts and ends on the row `y` pixels above the corner's
/// base, in fixed point
pub open spec fn inner_edges_at(radius: int, y: int, border: int) -> (int, int) {
    let r = radius * 16;
    let height = r - y * 16;
    let inner = sat_sub(r, border);
    (
        r - root(sat_sub(inner * inner, (height - 16) * (height - 16))),
        r - root(sat_sub(inner * inner, height * height)),
    )
}

/// where the outer and inner edges of a bordered corner start and end on a row
pub fn calculate_edges(radius: i32, y: i32, border: Shifted) -> (edges: (Shifted, Shifted, Shifted, Shifted))
    requires
        0 <= y < radius <= MAX_RADIUS,
    ensures
        edges.0.0 == outer_edges_at(radius as int, y as int).0,
        edges.1.0 == outer_edges_at(radius as int, y as int).1,
        edges.2.0 == inner_edges_at(radius as int, y as int, border.0 as int).0,
        edges.3.0 == inner_edges_at(radius as int, y as int, border.0 as int).1,
        edges.0.0 <= edges.1.0 <= radius * 16,
        edges.2.0 <= radius * 16,
        edges.3.0 <= radius * 16,
{
    let (x1, x2) = outer_edges(radius, y);
    let r = Shifted::new(radius);
    let y = Shifted(r.0 - Shifted::new(y).0);
    let inner = r.saturating_sub(border);
    proof {
        assert(inner.0 * inner.0 <= 0x1_0000_0000 - 1) by (nonlinear_arith)
            requires
                inner.0 <= 4095 * 16,
        ;
        assert(y.0 * y.0 <= 0x1_0000_0000 - 1) by (nonlinear_arith)
            requires
                y.0 <= 4095 * 16,
        ;
        assert((y.0 - 16) * (y.0 - 16) <= 0x1_0000_0000 - 1) by (nonlinear_arith)
            requires
                16 <= y.0 <= 4095 * 16,
        ;
    }
    let squared = inner.0 * inner.0;
    let below = Shifted(squared).saturating_sub(Shifted(y.0 * y.0)).sqrt();
    let above = Shifted(squared).saturating_sub(Shifted((y.0 - ONE) * (y.0 - ONE))).sqrt();
    proof {
        let a = if squared >= y.0 * y.0 { squared - y.0 * y.0 } else { 0 };
        let b = if squared >= (y.0 - 16) * (y.0 - 16) { squared - (y.0 - 16) * (y.0 - 16) } else { 0 };
        assert(inner.0 * inner.0 < (r.0 + 1) * (r.0 + 1)) by (nonlinear_arith)
            requires
                0 <= inner.0 <= r.0,
        ;
        lemma_root_monotone(a, squared as int, below.0 as int, r.0 as int);
        lemma_root_monotone(b, squared as int, above.0 as int, r.0 as int);
        lemma_root(a, below.0 as int);
        lemma_root(b, above.0 as int);
    }
    let x4 = Shifted(r.0 - below.0);
    let x3 = Shifted(r.0 - above.0);
    (x1, x2, x3, x4)
}

/// the edges of the left corner, outer then inner, that row `top` rows below the
/// top and `bottom` rows above the bottom crosses; none gives the border
pub open spec fn left_edges(top: int, bottom: int, upper: i32, lower: i32, border: int) -> Seq<int> {
    if top < upper {
        seq![
            outer_edges_at(upper as int, top).0,
            outer_edges_at(upper as int, top).1,
            inner_edges_at(upper as int, top, border).0,
            inner_edges_at(upper as int, top, border).1,
        ]
    } else if bottom < lower {
        seq![
            outer_edges_at(lower as int, bottom).0,
            outer_edges_at(lower as int, bottom).1,
            inner_edges_at(lower as int, bottom, border).0,
            inner_edges_at(lower as int, bottom, border).1,
        ]
    } else {
        seq![0, 0, border, border]
    }
}

/// the eight edges a row of a bordered rounded rectangle crosses, from the
/// left of the row's drawn span: outer and inner edge of the left corner, then
/// inner and outer edge of the right corner
pub open spec fn row_edges(
    top: int,
    bottom: int,
    radii: Radii,
    border: int,
    left_clip: int,
    right_end: int,
) -> Seq<int> {
    let left = left_edges(top, bottom, radii.top_left, radii.bottom_left, border);
    let right = left_edges(top, bottom, radii.top_right, radii.bottom_right, border);
    seq![
        sat_sub(left[0], left_clip),
        sat_sub(left[1], left_clip),
        sat_sub(left[2], left_clip),
        sat_sub(left[3], left_clip),
        sat_sub(right_end, right[3]),
        sat_sub(right_end, right[2]),
        sat_sub(right_end, right[1]),
        sat_sub(right_end, right[0]),
    ]
}

/// the radii with left and right swapped, as seen in a mirror
pub open spec fn mirrored(radii: Radii) -> Radii {
    Radii {
        top_left: radii.top_right,
        top_right: radii.top_left,
        bottom_right: radii.bottom_left,
        bottom_left: radii.bottom_right,
    }
}

/// the edges of a corner a row crosses lie at or right of the corner's outer side
proof fn lemma_left_edges_nonnegative(top: int, bottom: int, upper: i32, lower: i32, border: int)
    requires
        0 <= top,
        0 <= bottom,
        0 <= upper <= MAX_RADIUS,
        0 <= lower <= MAX_RADIUS,
        0 <= border,
    ensures
        left_edges(top, bottom, upper, lower, border)[0] >= 0,
        left_edges(top, bottom, upper, lower, border)[1] >= 0,
        left_edges(top, bottom, upper, lower, border)[2] >= 0,
        left_edges(top, bottom, upper, lower, border)[3] >= 0,
{
    if top < upper {
        lemma_outer_edges_ordered(upper as int, top);
        lemma_inner_edges_nonnegative(upper as int, top, border);
    } else if bottom < lower {
        lemma_outer_edges_ordered(lower as int, bottom);
        lemma_inner_edges_nonnegative(lower as int, bottom, border);
    }
}

/// the inner edge of a corner lies at or right of the corner's outer side
proof fn lemma_inner_edges_nonnegative(radius: int, y: int, border: int)
    requires
        0 <= y < radius <= MAX_RADIUS,
        0 <= border,
    ensures
        inner_edges_at(radius, y, border).0 >= 0,
        inner_edges_at(radius, y, border).1 >= 0,
{
    let r = radius * 16;
    let height = r - y * 16;
    let inner = sat_sub(r, border);
    assert(0 <= inner <= r);
    assert(0 <= (height - 16) * (height - 16)) by (nonlinear_arith);
    assert(0 <= height * height) by (nonlinear_arith);
    assert(0 <= inner * inner) by (nonlinear_arith);
    assert(inner * inner < (inner + 1) * (inner + 1)) by (nonlinear_arith)
        requires
            inner >= 0,
    ;
    let a = sat_sub(inner * inner, (height - 16) * (height - 16));
    let b = sat_sub(inner * inner, height * height);
    lemma_root_exists(a);
    lemma_root_exists(b);
    lemma_root_monotone(a, inner * inner, root(a), inner);
    lemma_root_monotone(b, inner * inner, root(b), inner);
}

/// the four left edges of a row come from the left radii alone and the four
/// right edges from the right radii alone: where both left corners are square
/// the left edges are the rectangle's left side and the border's inner side,
/// and where both right corners are square the right edges are the border's
/// inner side and the row's end, whatever the other corners are
pub proof fn law_row_edges_follow_their_own_radii(
    top: int,
    bottom: int,
    radii: Radii,
    border: int,
    left_clip: int,
    right_end: int,
)
    requires
        0 <= top,
        0 <= bottom,
        0 <= border,
        0 <= left_clip,
        0 <= right_end,
    ensures
        radii.top_left == 0 && radii.bottom_left == 0 ==> {
            &&& row_edges(top, bottom, radii, border, left_clip, right_end)[0] == 0
            &&& row_edges(top, bottom, radii, border, left_clip, right_end)[1] == 0
            &&& row_edges(top, bottom, radii, border, left_clip, right_end)[2] == sat_sub(border, left_clip)
            &&& row_edges(top, bottom, radii, border, left_clip, right_end)[3] == sat_sub(border, left_clip)
        },
        radii.top_right == 0 && radii.bottom_right == 0 ==> {
            &&& row_edges(top, bottom, radii, border, left_clip, right_end)[4] == sat_sub(right_end, border)
            &&& row_edges(top, bottom, radii, border, left_clip, right_end)[5] == sat_sub(right_end, border)
            &&& row_edges(top, bottom, radii, border, left_clip, right_end)[6] == right_end
            &&& row_edges(top, bottom, radii, border, left_clip, right_end)[7] == right_end
        },
{
}

/// the right edges of a row are the left edges of the mirrored rectangle
/// measured back from the row's end: the innermost right edge mirrors the
/// innermost left edge and the outermost the outermost
pub proof fn law_right_edges_mirror_left_edges(top: int, bottom: int, radii: Radii, border: int, left_clip: int, right_end: int)
    requires
        0 <= top,
        0 <= bottom,
        radii.in_range(),
        0 <= border,
    ensures
        ({
            let edges = row_edges(top, bottom, radii, border, left_clip, right_end);
            let mirror = row_edges(top, bottom, mirrored(radii), border, 0, right_end);
            &&& edges[4] == sat_sub(right_end, mirror[3])
            &&& edges[5] == sat_sub(right_end, mirror[2])
            &&& edges[6] == sat_sub(right_end, mirror[1])
            &&& edges[7] == sat_sub(right_end, mirror[0])
        }),
{
    lemma_left_edges_nonnegative(top, bottom, radii.top_right, radii.bottom_right, border);
}

/// the edges of the corner a row crosses, as `calculate_edges` gives them
fn corner_edges_for(top: i32, bottom: i32, upper: i32, lower: i32, border: Shifted) -> (edges: (Shifted, Shifted, Shifted, Shifted))
    requires
        0 <= top,
        0 <= bottom,
        0 <= upper <= MAX_RADIUS,
        0 <= lower <= MAX_RADIUS,
    ensures
        seq![edges.0.0 as int, edges.1.0 as int, edges.2.0 as int, edges.3.0 as int] == left_edges(
            top as int,
            bottom as int,
            upper,
            lower,
            border.0 as int,
        ),
{
    if top < upper {
        calculate_edges(upper, top, border)
    } else if bottom < lower {
        calculate_edges(lower, bottom, border)
    } else {
        (Shifted(0), Shifted(0), border, border)
    }
}

/// the rows a bordered rounded rectangle's row lies from its top and bottom,
/// its border in fixed point, and the eight edges it crosses, drawn from `span`
/// with the rectangle extending `clips` (left, right, top, bottom) pixels past it
/// and the row `width` pixels wide
pub fn line_edges(
    span: PhysicalRect,
    line: i32,
    radii: Radii,
    border_width: i32,
    clips: [i32; 4],
    width: usize,
) -> (edges: (i32, Shifted, [Shifted; 8]))
    requires
        radii.in_range(),
        i32::MIN <= line - span.y <= i32::MAX,
        i32::MIN <= span.y + span.height <= i32::MAX,
        i32::MIN <= span.y + span.height - line <= i32::MAX,
        i32::MIN <= span.y + span.height - line + clips[3] <= i32::MAX,
        0 <= line - span.y + clips[2] <= i32::MAX,
        0 <= span.y + span.height - line + clips[3] - 1 <= i32::MAX,
        width <= i32::MAX,
        i32::MIN <= width + clips[1] <= i32::MAX,
    ensures
        ({
            let top = line - span.y + clips[2];
            let bottom = span.y + span.height - line + clips[3] - 1;
            &&& edges.0 == if top <= bottom { top } else { bottom }
            &&& edges.1.0 == fixed(border_width)
            &&& forall|k: int| 0 <= k < 8 ==> (#[trigger] edges.2[k]).0 == row_edges(
                top,
                bottom,
                radii,
                fixed(border_width) as int,
                fixed(clips[0]) as int,
                fixed((width + clips[1]) as i32) as int,
            )[k]
        }),
{
    let left_clip = clips[0];
    let right_clip = clips[1];
    let top_clip = clips[2];
    let bottom_clip = clips[3];
    let y1 = line - span.y + top_clip;
    let y2 = span.y + span.height - line + bottom_clip - 1;
    let y = if y1 <= y2 { y1 } else { y2 };
    let border = Shifted::new(border_width);
    let (x1, x2, x3, x4) = corner_edges_for(y1, y2, radii.top_left, radii.bottom_left, border);
    let (x8, x7, x6, x5) = corner_edges_for(y1, y2, radii.top_right, radii.bottom_right, border);
    let end = Shifted::new(width as i32 + right_clip);
    let left = Shifted::new(left_clip);
    let edges = [
        x1.saturating_sub(left),
        x2.saturating_sub(left),
        x3.saturating_sub(left),
        x4.saturating_sub(left),
        end.saturating_sub(x5),
        end.saturating_sub(x6),
        end.saturating_sub(x7),
        end.saturating_sub(x8),
    ];
    proof {
        let lefts = seq![x1.0 as int, x2.0 as int, x3.0 as int, x4.0 as int];
        let rights = seq![x8.0 as int, x7.0 as int, x6.0 as int, x5.0 as int];
        assert(lefts[0] == x1.0 && lefts[3] == x4.0);
        assert(rights[0] == x8.0 && rights[3] == x5.0);
    }
    (y, border, edges)
}

/// the horizontal extent of a rounded rectangle on one row, in fixed point from
/// the rectangle's left edge
#[derive(Clone, Copy, Debug, PartialEq, Eq, Structural)]
pub struct RoundedLine {
    pub x: i32,
    pub width: i32,
    pub left_start: Shifted,
    pub left_end: Shifted,
    pub right_start: Shifted,
    pub right_end: Shifted,
}

/// a sum clamped into the range of `i32`
pub open spec fn saturating_add_i32(a: i32, b: int) -> i32 {
    crate::geometry::clamp_i32(a + b)
}

fn saturating_add(a: i32, b: u32) -> (sum: i32)
    requires
        b <= i32::MAX,
    ensures
        sum == saturating_add_i32(a, b as int),
{
    let wide = a as i64 + b as i64;
    if wide > i32::MAX as i64 {
        i32::MAX
    } else {
        wide as i32
    }
}

/// the edges of the corner that a row `top` pixels below the top and `bottom`
/// above the bottom of a rectangle crosses, or none
pub open spec fn corner_edges(top: int, bottom: int, upper: i32, lower: i32) -> (int, int) {
    if top < upper {
        outer_edges_at(upper as int, top)
    } else if bottom < lower {
        outer_edges_at(lower as int, bottom)
    } else {
        (0, 0)
    }
}

/// the extent on row `line` of `area` with corners of `radii`, or `None` when
/// the row misses the area
pub open spec fn rounded_line(area: PhysicalRect, radii: Radii, line: int) -> Option<RoundedLine> {
    let top = line - area.y;
    let bottom = area.height - top - 1;
    if area.width <= 0 || area.height <= 0 || top < 0 || top >= area.height {
        None
    } else {
        let (left_start, left_end) = corner_edges(top, bottom, radii.top_left, radii.bottom_left);
        let (right_start, right_end) = corner_edges(top, bottom, radii.top_right, radii.bottom_right);
        let width = fixed(area.width);
        Some(
            RoundedLine {
                x: area.x,
                width: area.width,
                left_start: Shifted(left_start as u32),
                left_end: Shifted(left_end as u32),
                right_start: Shifted(sat_sub(width as int, right_end) as u32),
                right_end: Shifted(sat_sub(width as int, right_start) as u32),
            },
        )
    }
}

/// with square corners every column of a row the rectangle crosses is fully
/// covered, and no other column is
pub proof fn law_square_corners_cover_whole_columns(area: PhysicalRect, line: int, x: i32)
    requires
        area.width <= 0x0800_0000,
        rounded_line(area, Radii { top_left: 0, top_right: 0, bottom_right: 0, bottom_left: 0 }, line) is Some,
    ensures
        rounded_line(area, Radii { top_left: 0, top_right: 0, bottom_right: 0, bottom_left: 0 }, line)->0.coverage_at(x)
            == if 0 <= x < area.width { 255int } else { 0int },
{
    let rounded = rounded_line(area, Radii { top_left: 0, top_right: 0, bottom_right: 0, bottom_left: 0 }, line)->0;
    assert(rounded.left_end.0 == 0);
    assert(rounded.right_start.0 == area.width * 16);
    if 0 <= x < area.width {
        assert(fixed(x) == x * 16);
    }
}

/// each side of a row follows its own corners: where both right corners are
/// square the row's right edge is the rectangle's right side, so every column
/// from the end of the left edge to the right side is fully covered and the row
/// is visible up to the right side; where both left corners are square the left
/// edge is the rectangle's left side; whatever the other corners are
pub proof fn law_sides_follow_their_own_radii(area: PhysicalRect, radii: Radii, line: int, x: i32)
    requires
        radii.in_range(),
        area.width <= 0x0800_0000,
        rounded_line(area, radii, line) is Some,
    ensures
        ({
            let rounded = rounded_line(area, radii, line)->0;
            &&& radii.top_right == 0 && radii.bottom_right == 0 ==> {
                &&& rounded.right_start.0 == area.width * 16
                &&& rounded.right_end.0 == area.width * 16
                &&& rounded.last_visible() == saturating_add_i32(area.x, area.width as int)
                &&& rounded.last_full() == saturating_add_i32(area.x, area.width as int)
                &&& (0 <= x < area.width && x * 16 >= rounded.left_end.0 ==> rounded.coverage_at(x) == 255)
            }
            &&& radii.top_left == 0 && radii.bottom_left == 0 ==> {
                &&& rounded.left_start.0 == 0
                &&& rounded.left_end.0 == 0
                &&& rounded.first_visible() == area.x
                &&& rounded.first_full() == area.x
                &&& (0 <= x < area.width && x * 16 < rounded.right_start.0 ==> rounded.coverage_at(x) == 255)
            }
        }),
{
    let rounded = rounded_line(area, radii, line)->0;
    lemma_rounded_line_wf(area, radii, line);
    assert(fixed(area.width) == area.width * 16);
    if 0 <= x < area.width {
        assert(fixed(x) == x * 16);
    }
}

/// the right edges of a row are the left edges of the mirrored rectangle's row
/// measured back from the right side: the right edge ends where the mirrored
/// left edge starts and starts where it ends
pub proof fn law_right_edges_mirror_left_edges_of_row(area: PhysicalRect, radii: Radii, line: int)
    requires
        radii.in_range(),
        rounded_line(area, radii, line) is Some,
    ensures
        rounded_line(area, mirrored(radii), line) is Some,
        rounded_line(area, radii, line)->0.right_start.0 == sat_sub(
            fixed(area.width) as int,
            rounded_line(area, mirrored(radii), line)->0.left_end.0 as int,
        ),
        rounded_line(area, radii, line)->0.right_end.0 == sat_sub(
            fixed(area.width) as int,
            rounded_line(area, mirrored(radii), line)->0.left_start.0 as int,
        ),
{
    let top = line - area.y;
    let bottom = area.height - top - 1;
    if top < radii.top_right {
        lemma_outer_edges_ordered(radii.top_right as int, top);
    } else if bottom < radii.bottom_right {
        lemma_outer_edges_ordered(radii.bottom_right as int, bottom);
    }
}

/// a row of a rectangle whose corners fit its fixed point is well formed
pub proof fn lemma_rounded_line_wf(area: PhysicalRect, radii: Radii, line: int)
    requires
        radii.in_range(),
        area.width <= 0x0800_0000,
        rounded_line(area, radii, line) is Some,
    ensures
        rounded_line(area, radii, line)->0.wf(),
        rounded_line(area, radii, line)->0.right_end.0 <= area.width * 16,
        rounded_line(area, radii, line)->0.width == area.width,
        rounded_line(area, radii, line)->0.x == area.x,
{
    let top = line - area.y;
    let bottom = area.height - top - 1;
    if top < radii.top_left {
        lemma_outer_edges_ordered(radii.top_left as int, top);
    } else if bottom < radii.bottom_left {
        lemma_outer_edges_ordered(radii.bottom_left as int, bottom);
    }
    if top < radii.top_right {
        lemma_outer_edges_ordered(radii.top_right as int, top);
    } else if bottom < radii.bottom_right {
        lemma_outer_edges_ordered(radii.bottom_right as int, bottom);
    }
    assert(fixed(area.width) == area.width * 16);
}

/// the coverage of a column of a well-formed row is between none and full
pub proof fn lemma_coverage_in_range(rounded: RoundedLine, x: i32)
    requires
        rounded.wf(),
    ensures
        0 <= rounded.coverage_at(x) <= 255,
{
    let left_denominator = (ONE + rounded.left_end.0 - rounded.left_start.0) as int;
    let right_denominator = (ONE + rounded.right_end.0 - rounded.right_start.0) as int;
    assert(left_denominator > 0);
    assert(right_denominator > 0);
    let left_numerator = (((ONE + fixed(x) - rounded.left_start.0) * 256) % 0x1_0000_0000);
    let right_numerator = (((ONE + fixed(x) - rounded.right_start.0) * 256) % 0x1_0000_0000);
    assert(left_numerator >= 0);
    assert(right_numerator >= 0);
    assert(left_numerator / left_denominator >= 0) by (nonlinear_arith)
        requires
            left_numerator >= 0,
            left_denominator > 0,
    ;
    assert(right_numerator / right_denominator >= 0) by (nonlinear_arith)
        requires
            right_numerator >= 0,
            right_denominator > 0,
    ;
}

/// a column between the first and last visible ones admits coverage
pub proof fn lemma_visible_admits(rounded: RoundedLine, x: i32)
    requires
        rounded.wf(),
        rounded.width <= 0x0800_0000,
        rounded.right_end.0 <= rounded.width * 16,
        rounded.first_visible() <= x < rounded.last_visible(),
    ensures
        rounded.admits(x),
{
}

impl RoundedLine {
    /// the edges are ordered and small enough to round up
    pub open spec fn wf(self) -> bool {
        &&& self.width > 0
        &&& self.left_start.0 <= self.left_end.0 <= MAX_RADIUS * 16
        &&& self.right_start.0 <= self.right_end.0 <= u32::MAX - 15
    }

    /// the extent on row `line` of `area` with corners of `radii`, or `None`
    /// when the row misses the area
    pub fn new(area: PhysicalRect, radii: Radii, line: i32) -> (rounded: Option<Self>)
        requires
            radii.in_range(),
            i32::MIN <= line - area.y <= i32::MAX,
        ensures
            rounded == rounded_line(area, radii, line as int),
            rounded is None <== (area.width <= 0 || area.height <= 0 || line - area.y < 0
                || line - area.y >= area.height),
            rounded matches Some(r) ==> {
                &&& r.wf()
                &&& r.x == area.x
                &&& r.width == area.width
                &&& r.right_end.0 <= fixed(area.width)
                &&& area.width > 0 && area.height > 0 && 0 <= line - area.y < area.height
            },
            area.width > 0 && area.height > 0 && 0 <= line - area.y < area.height ==> rounded is Some,
    {
        if area.width <= 0 || area.height <= 0 {
            return None;
        }
        let top = line - area.y;
        if top < 0 || top >= area.height {
            return None;
        }
        let bottom = area.height - top - 1;
        let (left_start, left_end) = if top < radii.top_left {
            outer_edges(radii.top_left, top)
        } else if bottom < radii.bottom_left {
            outer_edges(radii.bottom_left, bottom)
        } else {
            (Shifted(0), Shifted(0))
        };
        let (right_start, right_end) = if top < radii.top_right {
            outer_edges(radii.top_right, top)
        } else if bottom < radii.bottom_right {
            outer_edges(radii.bottom_right, bottom)
        } else {
            (Shifted(0), Shifted(0))
        };
        let width = Shifted::new(area.width);
        Some(
            RoundedLine {
                x: area.x,
                width: area.width,
                left_start,
                left_end,
                right_start: width.saturating_sub(right_end),
                right_end: width.saturating_sub(right_start),
            },
        )
    }

    /// the first column with any coverage
    pub open spec fn first_visible(self) -> i32 {
        saturating_add_i32(self.x, (self.left_start.0 / 16) as int)
    }

    /// the column after the last with any coverage
    pub open spec fn last_visible(self) -> i32 {
        saturating_add_i32(
            self.x,
            if (self.right_end.0 + 15) / 16 <= self.width { ((self.right_end.0 + 15) / 16) as int } else { self.width as int },
        )
    }

    /// the first column of full coverage
    pub open spec fn first_full(self) -> i32 {
        saturating_add_i32(self.x, ((self.left_end.0 + 15) / 16) as int)
    }

    /// the column after the last of full coverage
    pub open spec fn last_full(self) -> i32 {
        saturating_add_i32(
            self.x,
            if self.right_start.0 / 16 <= self.width { (self.right_start.0 / 16) as int } else { self.width as int },
        )
    }

    /// the first column with any coverage
    pub fn visible_start(self) -> (column: i32)
        requires
            self.wf(),
        ensures
            column == self.first_visible(),
    {
        saturating_add(self.x, self.left_start.floor())
    }

    /// the column after the last with any coverage
    pub fn visible_end(self) -> (column: i32)
        requires
            self.wf(),
        ensures
            column == self.last_visible(),
    {
        let end = self.right_end.ceil();
        let width = self.width as u32;
        saturating_add(self.x, if end <= width { end } else { width })
    }

    /// the first column of full coverage
    pub fn full_start(self) -> (column: i32)
        requires
            self.wf(),
        ensures
            column == self.first_full(),
    {
        saturating_add(self.x, self.left_end.ceil())
    }

    /// the column after the last of full coverage
    pub fn full_end(self) -> (column: i32)
        requires
            self.wf(),
        ensures
            column == self.last_full(),
    {
        let end = self.right_start.floor();
        let width = self.width as u32;
        saturating_add(self.x, if end <= width { end } else { width })
    }

    /// coverage out of 255 of the column `x` pixels right of the rectangle's left edge
    pub open spec fn coverage_at(self, x: i32) -> int {
        if x < 0 || x >= self.width {
            0
        } else {
            let left = if fixed(x) < self.left_end.0 {
                edge_value(self.left_start, self.left_end, x)
            } else {
                255
            };
            let right = if fixed(x) >= self.right_start.0 {
                255 - edge_value(self.right_start, self.right_end, x)
            } else {
                255
            };
            if left <= right { left } else { right }
        }
    }

    /// column `x` is one whose coverage the fixed-point arithmetic can compute
    pub open spec fn admits(self, x: i32) -> bool {
        &&& i32::MIN <= x - self.x <= i32::MAX
        &&& 0 <= x - self.x < self.width ==> x - self.x < 0x0800_0000
        &&& 0 <= x - self.x < self.width && (x - self.x) * 16 < self.left_end.0 ==> (x - self.x)
            * 16 + 16 >= self.left_start.0
        &&& 0 <= x - self.x < self.width && (x - self.x) * 16 >= self.right_start.0
            ==> self.right_end.0 + 16 <= u32::MAX
    }

    /// coverage of column `x` out of 255
    ///
    /// columns outside the rectangle have none; columns between the inner ends
    /// of both edges are fully covered
    pub fn coverage(self, x: i32) -> (coverage: u8)
        requires
            self.wf(),
            self.admits(x),
        ensures
            coverage == self.coverage_at((x - self.x) as i32),
            x - self.x < 0 || x - self.x >= self.width ==> coverage == 0,
            0 <= x - self.x < self.width && (x - self.x) * 16 >= self.left_end.0 && (x - self.x) * 16
                < self.right_start.0 ==> coverage == 255,
    {
        let x = x - self.x;
        if x < 0 || x >= self.width {
            return 0;
        }
        let shifted = Shifted::new(x);
        let mut coverage: u32 = 255;
        if shifted.0 < self.left_end.0 {
            let edge = edge_coverage(self.left_start, self.left_end, x);
            if edge < coverage {
                coverage = edge;
            }
        }
        if shifted.0 >= self.right_start.0 {
            let edge = 255 - edge_coverage(self.right_start, self.right_end, x);
            if edge < coverage {
                coverage = edge;
            }
        }
        coverage as u8
    }
}

/// a bordered rounded rectangle prepared for drawing rows
pub struct RoundedRectangle {
    pub radii: Radii,
    pub border_width: i32,
    pub border_color: PremultipliedRgbaColor,
    pub inner_color: PremultipliedRgbaColor,
    pub left_clip: i32,
    pub right_clip: i32,
    pub top_clip: i32,
    pub bottom_clip: i32,
}

/// a rounded rectangle with a gradient border prepared for drawing rows
pub struct RoundedGradient {
    pub radii: Radii,
    pub border_width: i32,
    pub inner_color: PremultipliedRgbaColor,
    pub left_clip: i32,
    pub right_clip: i32,
    pub top_clip: i32,
    pub bottom_clip: i32,
}

} // verus!
