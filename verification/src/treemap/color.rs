//! Colours of the treemap: by extension, by depth, by age.

use std::time::SystemTime;
use vstd::prelude::*;
use vstd::string::StringSliceAdditionalSpecFns;
use crate::clock::{now, secs_apart, secs_between};
use crate::paths::bytes_eq;

verus! {

/// An RGBA colour.
pub type Color = [u8; 4];

/// The two ends of a cushion gradient.
pub type GradientPair = (Color, Color);

#[derive(Debug, Clone, Copy, PartialEq, Eq, Structural)]
pub enum ColorMode {
    Extension,
    Depth,
    Age,
}

/// Number of colours in the palette.
pub const PALETTE_LEN: usize = 10;

/// The curated palette: an even hue spread at medium lightness and
/// saturation (sky blue, teal, mint, lime, amber, tangerine, coral, pink,
/// lavender, periwinkle).
pub open spec fn palette(i: int) -> GradientPair {
    if i == 0 {
        ([76u8, 134u8, 196u8, 255u8], [128u8, 176u8, 224u8, 255u8])
    } else if i == 1 {
        ([60u8, 162u8, 162u8, 255u8], [120u8, 200u8, 200u8, 255u8])
    } else if i == 2 {
        ([84u8, 174u8, 132u8, 255u8], [136u8, 208u8, 176u8, 255u8])
    } else if i == 3 {
        ([148u8, 184u8, 96u8, 255u8], [188u8, 216u8, 144u8, 255u8])
    } else if i == 4 {
        ([212u8, 168u8, 80u8, 255u8], [240u8, 200u8, 128u8, 255u8])
    } else if i == 5 {
        ([218u8, 138u8, 84u8, 255u8], [240u8, 176u8, 132u8, 255u8])
    } else if i == 6 {
        ([212u8, 110u8, 110u8, 255u8], [240u8, 152u8, 152u8, 255u8])
    } else if i == 7 {
        ([212u8, 116u8, 168u8, 255u8], [240u8, 156u8, 196u8, 255u8])
    } else if i == 8 {
        ([170u8, 132u8, 212u8, 255u8], [204u8, 172u8, 232u8, 255u8])
    } else {
        ([116u8, 132u8, 208u8, 255u8], [156u8, 172u8, 232u8, 255u8])
    }
}

/// Entry `i` of the palette.
pub fn palette_pair(i: usize) -> (r: GradientPair)
    requires
        i < PALETTE_LEN,
    ensures
        r == palette(i as int),
{
    if i == 0 {
        ([76, 134, 196, 255], [128, 176, 224, 255])
    } else if i == 1 {
        ([60, 162, 162, 255], [120, 200, 200, 255])
    } else if i == 2 {
        ([84, 174, 132, 255], [136, 208, 176, 255])
    } else if i == 3 {
        ([148, 184, 96, 255], [188, 216, 144, 255])
    } else if i == 4 {
        ([212, 168, 80, 255], [240, 200, 128, 255])
    } else if i == 5 {
        ([218, 138, 84, 255], [240, 176, 132, 255])
    } else if i == 6 {
        ([212, 110, 110, 255], [240, 152, 152, 255])
    } else if i == 7 {
        ([212, 116, 168, 255], [240, 156, 196, 255])
    } else if i == 8 {
        ([170, 132, 212, 255], [204, 172, 232, 255])
    } else {
        ([116, 132, 208, 255], [156, 172, 232, 255])
    }
}

/// Neutral cool gray, for files with no extension.
pub open spec fn slate_pair() -> GradientPair {
    ([71u8, 85u8, 105u8, 255u8], [148u8, 163u8, 184u8, 255u8])
}

/// Dark, subtle colour for free space: it should not draw attention.
pub open spec fn free_space_pair() -> GradientPair {
    ([20u8, 22u8, 28u8, 255u8], [28u8, 30u8, 36u8, 255u8])
}

/// Warm muted tone for skipped space, so that what could not be seen stands out.
pub open spec fn skipped_pair() -> GradientPair {
    ([60u8, 50u8, 38u8, 255u8], [88u8, 70u8, 50u8, 255u8])
}

/// The djb2 hash of `b` in `usize` arithmetic: start at 5381, and for
/// each byte multiply by 33 and add the byte, wrapping.
pub open spec fn djb2(b: Seq<u8>) -> usize
    decreases b.len(),
{
    if b.len() == 0 {
        5381
    } else {
        djb2(b.drop_last()).wrapping_mul(33).wrapping_add(b.last() as usize)
    }
}

/// The gradient of an extension: the neutral gray for none, the two
/// reserved names for free and skipped space, otherwise the palette entry
/// that the hash of its bytes selects.
pub open spec fn extension_gradient(ext: Seq<u8>) -> GradientPair {
    if ext.len() == 0 {
        slate_pair()
    } else if ext == "__free_space__".spec_bytes() {
        free_space_pair()
    } else if ext == "__skipped__".spec_bytes() {
        skipped_pair()
    } else {
        palette((djb2(ext) % PALETTE_LEN) as int)
    }
}

fn simple_hash(s: &str) -> (h: usize)
    ensures
        h == djb2(s.spec_bytes()),
{
    let b = s.as_bytes();
    let mut h: usize = 5381;
    let mut i: usize = 0;
    while i < b.len()
        invariant
            i <= b@.len(),
            h == djb2(b@.take(i as int)),
        decreases b@.len() - i,
    {
        assert(b@.take(i + 1).drop_last() =~= b@.take(i as int));
        h = h.wrapping_mul(33).wrapping_add(b[i] as usize);
        i = i + 1;
    }
    assert(b@.take(b@.len() as int) =~= b@);
    h
}

/// The gradient for files with extension `ext`.
pub fn extension_color(ext: &str) -> (r: GradientPair)
    ensures
        r == extension_gradient(ext.spec_bytes()),
{
    let b = ext.as_bytes();
    if b.len() == 0 {
        return ([71, 85, 105, 255], [148, 163, 184, 255]);
    }
    if bytes_eq(b, "__free_space__".as_bytes()) {
        return ([20, 22, 28, 255], [28, 30, 36, 255]);
    }
    if bytes_eq(b, "__skipped__".as_bytes()) {
        return ([60, 50, 38, 255], [88, 70, 50, 255]);
    }
    let hash = simple_hash(ext);
    palette_pair(hash % PALETTE_LEN)
}


/// Seconds in a (365-day) year: files at least this old get the coolest tone.
pub const ONE_YEAR_SECS: u64 = 31536000;

/// One channel of the age gradient: from `warm` for a file modified now
/// to `cool` for one a year old or older, linear in the age in between
/// and rounded down.
pub open spec fn age_channel(warm: int, cool: int, age_secs: u64) -> u8 {
    let t = if age_secs < ONE_YEAR_SECS {
        age_secs as int
    } else {
        ONE_YEAR_SECS as int
    };
    (warm + (cool - warm) * t / (ONE_YEAR_SECS as int)) as u8
}

/// The gradient of a file `age_secs` old: warm pinks when recent, cool
/// indigos when a year old or older.
pub open spec fn age_gradient(age_secs: u64) -> GradientPair {
    (
        [
            age_channel(219, 49, age_secs),
            age_channel(39, 46, age_secs),
            age_channel(119, 129, age_secs),
            255u8,
        ],
        [
            age_channel(244, 79, age_secs),
            age_channel(114, 70, age_secs),
            age_channel(182, 229, age_secs),
            255u8,
        ],
    )
}

/// One channel moves from `warm` towards `cool` as the age grows, and
/// stays between the two.
pub proof fn lemma_age_channel_monotone(warm: int, cool: int, a1: u64, a2: u64)
    requires
        0 <= warm <= 255,
        0 <= cool <= 255,
        a1 <= a2,
    ensures
        cool <= warm ==> age_channel(warm, cool, a2) <= age_channel(warm, cool, a1),
        warm <= cool ==> age_channel(warm, cool, a1) <= age_channel(warm, cool, a2),
        a1 >= ONE_YEAR_SECS ==> age_channel(warm, cool, a1) == cool,
        a1 == 0 ==> age_channel(warm, cool, a1) == warm,
{
    let y = ONE_YEAR_SECS as int;
    let t1: int = if a1 < ONE_YEAR_SECS { a1 as int } else { y };
    let t2: int = if a2 < ONE_YEAR_SECS { a2 as int } else { y };
    let d = cool - warm;
    assert(0 <= t1 <= t2 <= y);
    lemma_channel_range(warm, cool, t1);
    lemma_channel_range(warm, cool, t2);
    if d >= 0 {
        assert(d * t1 <= d * t2) by (nonlinear_arith)
            requires
                d >= 0,
                t1 <= t2,
        ;
        vstd::arithmetic::div_mod::lemma_div_is_ordered(d * t1, d * t2, y);
        if d == 0 {
            assert(d * t1 == 0 && d * t2 == 0) by (nonlinear_arith)
                requires
                    d == 0,
            ;
        }
    } else {
        assert(d * t2 <= d * t1) by (nonlinear_arith)
            requires
                d < 0,
                t1 <= t2,
        ;
        vstd::arithmetic::div_mod::lemma_div_is_ordered(d * t2, d * t1, y);
    }
    if a1 == 0 {
        assert(d * t1 == 0) by (nonlinear_arith)
            requires
                t1 == 0,
        ;
        assert(0int / y == 0);
    }
    if a1 >= ONE_YEAR_SECS {
        vstd::arithmetic::div_mod::lemma_div_multiples_vanish(d, y);
        assert(d * t1 == d * y);
    }
}

/// Between the ends of the year the channel lies between `warm` and
/// `cool`.
proof fn lemma_channel_range(warm: int, cool: int, t: int)
    requires
        0 <= warm <= 255,
        0 <= cool <= 255,
        0 <= t <= ONE_YEAR_SECS,
    ensures
        0 <= warm + (cool - warm) * t / (ONE_YEAR_SECS as int) <= 255,
{
    let y = ONE_YEAR_SECS as int;
    let d = cool - warm;
    vstd::arithmetic::div_mod::lemma_div_multiples_vanish(d, y);
    assert(0int / y == 0);
    if d >= 0 {
        assert(0 <= d * t <= d * y) by (nonlinear_arith)
            requires
                d >= 0,
                0 <= t <= y,
        ;
        vstd::arithmetic::div_mod::lemma_div_is_ordered(d * t, d * y, y);
        vstd::arithmetic::div_mod::lemma_div_is_ordered(0, d * t, y);
    } else {
        assert(d * y <= d * t <= 0) by (nonlinear_arith)
            requires
                d < 0,
                0 <= t <= y,
        ;
        vstd::arithmetic::div_mod::lemma_div_is_ordered(d * y, d * t, y);
        vstd::arithmetic::div_mod::lemma_div_is_ordered(d * t, 0, y);
    }
}

/// Older files are less red and more blue, in both ends of the gradient;
/// alpha stays opaque; from a year on every file gets the coolest pair.
pub proof fn lemma_age_gradient_cools(a1: u64, a2: u64)
    requires
        a1 <= a2,
    ensures
        age_gradient(a2).0[0] <= age_gradient(a1).0[0],
        age_gradient(a2).1[0] <= age_gradient(a1).1[0],
        age_gradient(a1).0[2] <= age_gradient(a2).0[2],
        age_gradient(a1).1[2] <= age_gradient(a2).1[2],
        age_gradient(a1).0[3] == 255 && age_gradient(a1).1[3] == 255,
        a1 >= ONE_YEAR_SECS ==> age_gradient(a1) == ([49u8, 46, 129, 255], [79u8, 70, 229, 255]),
{
    lemma_age_channel_monotone(219, 49, a1, a2);
    lemma_age_channel_monotone(39, 46, a1, a2);
    lemma_age_channel_monotone(119, 129, a1, a2);
    lemma_age_channel_monotone(244, 79, a1, a2);
    lemma_age_channel_monotone(114, 70, a1, a2);
    lemma_age_channel_monotone(182, 229, a1, a2);
    if a1 >= ONE_YEAR_SECS {
        assert(age_gradient(a1).0 =~= [49u8, 46, 129, 255]);
        assert(age_gradient(a1).1 =~= [79u8, 70, 229, 255]);
    }
}

/// Rounding a negative quotient down is the negated quotient rounded up.
proof fn lemma_floor_of_negative(x: int, y: int)
    requires
        x >= 0,
        y > 0,
    ensures
        (-x) / y == -((x + y - 1) / y),
{
    let q = (x + y - 1) / y;
    let r = (x + y - 1) % y;
    vstd::arithmetic::div_mod::lemma_fundamental_div_mod(x + y - 1, y);
    vstd::arithmetic::div_mod::lemma_mod_pos_bound(x + y - 1, y);
    assert(-x == (-q) * y + (y - 1 - r)) by (nonlinear_arith)
        requires
            x + y - 1 == y * q + r,
    ;
    vstd::arithmetic::div_mod::lemma_fundamental_div_mod_converse(-x, y, -q, y - 1 - r);
}

fn lerp_channel(warm: u64, cool: u64, age_secs: u64) -> (c: u8)
    requires
        warm <= 255,
        cool <= 255,
    ensures
        c == age_channel(warm as int, cool as int, age_secs),
{
    let t = if age_secs < ONE_YEAR_SECS {
        age_secs
    } else {
        ONE_YEAR_SECS
    };
    let y = ONE_YEAR_SECS;
    if cool >= warm {
        assert((cool - warm) * t <= 255 * y) by (nonlinear_arith)
            requires
                cool - warm <= 255,
                t <= y,
        ;
        let v = warm + (cool - warm) * t / y;
        v as u8
    } else {
        let d = warm - cool;
        assert(d * t <= d * y) by (nonlinear_arith)
            requires
                t <= y,
        ;
        assert(d * t <= 255 * y) by (nonlinear_arith)
            requires
                d <= 255,
                t <= y,
        ;
        let q = (d * t + y - 1) / y;
        proof {
            vstd::arithmetic::div_mod::lemma_div_is_ordered((d * t + y - 1) as int, d * y + y - 1, y as int);
            vstd::arithmetic::div_mod::lemma_fundamental_div_mod_converse(d * y + y - 1, y as int, d as int, y - 1);
            lemma_floor_of_negative(d * t, y as int);
            assert((cool - warm) * t == -(d * t)) by (nonlinear_arith)
                requires
                    d == warm - cool,
            ;
        }
        let v = warm - q;
        v as u8
    }
}

/// The gradient of a file that is `age_secs` seconds old.
pub fn age_color_at(age_secs: u64) -> (r: GradientPair)
    ensures
        r == age_gradient(age_secs),
{
    let start = [
        lerp_channel(219, 49, age_secs),
        lerp_channel(39, 46, age_secs),
        lerp_channel(119, 129, age_secs),
        255,
    ];
    let end = [
        lerp_channel(244, 79, age_secs),
        lerp_channel(114, 70, age_secs),
        lerp_channel(182, 229, age_secs),
        255,
    ];
    (start, end)
}

/// The gradient of a file last modified at `modified`, by its age now:
/// the gradient of the seconds from `modified` to the clock's reading.
pub fn age_color(modified: SystemTime) -> (r: GradientPair)
    ensures
        exists|at: SystemTime| r == age_gradient(secs_apart(at, modified)),
{
    let t = now();
    let age_secs = secs_between(t, modified);
    age_color_at(age_secs)
}
} // verus!
