//! Nearest-color search over a palette under a chosen distance metric.
//!
//! Distances are computed by the `color_art` crate in the selected color
//! space.  A distance is non-negative, so its IEEE 754 bit pattern is an
//! order-preserving 64-bit integer; comparisons are made on that integer,
//! which keeps the search itself free of floating point.

use vstd::prelude::*;
use vstd::string::StringExecFns;
use crate::error::Error;
use crate::text::lower_seq;
use crate::text::lower_str;

verus! {

/// The color space in which distances between two colors are measured.
#[derive(Clone, Copy, Debug, PartialEq, Eq, Structural)]
pub enum Metric {
    /// Euclidean distance between RGB triples.
    Rgb,
    /// Euclidean distance in CMYK space.
    Cmyk,
    /// Euclidean distance in CIELAB space, a perceptual color space.
    Lab,
}

/// The distance between two 24-bit RGB colors under a metric, as the bit
/// pattern of the non-negative IEEE 754 distance; it depends on the metric
/// and the two colors alone, and ordering bit patterns of non-negative
/// floats orders the distances.
pub uninterp spec fn dist_of(m: Metric, a: u32, b: u32) -> u64;

/// Relies on `color_art::distance_with`: the Euclidean distance between
/// the two colors in the chosen color space, a non-negative function of
/// its arguments alone; zero when the colors are equal.  Also relies on
/// `color_art::Color::from_num`, which accepts every 24-bit value, and on
/// `f64::to_bits`, which maps non-negative floats to `u64` preserving
/// their order.
#[verifier::external_body]
fn distance_bits(m: Metric, a: u32, b: u32) -> (r: u64)
    requires
        a < 0x1000000,
        b < 0x1000000,
    ensures
        r == dist_of(m, a, b),
        a == b ==> r == 0,
{
    let ca = color_art::Color::from_num(a).unwrap();
    let cb = color_art::Color::from_num(b).unwrap();
    let space = match m {
        Metric::Rgb => color_art::ColorSpace::RGB,
        Metric::Cmyk => color_art::ColorSpace::CMYK,
        Metric::Lab => color_art::ColorSpace::Lab,
    };
    color_art::distance_with(&ca, &cb, space).to_bits()
}

/// Find the palette entry nearest to `color` under `metric`.
///
/// Returns the index and the value of the first palette entry whose
/// distance to `color` is minimal; on a tie the lower index wins.  When
/// `color` itself is in the palette, the returned entry is at distance
/// zero and stands no later than the first occurrence of `color`.
pub fn find_nearest_color(color: u32, palette: &Vec<u32>, metric: Metric) -> (res: (usize, u32))
    requires
        palette@.len() > 0,
        color < 0x1000000,
        forall|j: int| 0 <= j < palette@.len() ==> #[trigger] palette@[j] < 0x1000000,
    ensures
        res.0 < palette@.len(),
        res.1 == palette@[res.0 as int],
        forall|j: int|
            0 <= j < palette@.len()
                ==> dist_of(metric, palette@[res.0 as int], color) <= dist_of(
                metric,
                #[trigger] palette@[j],
                color,
            ),
        forall|j: int|
            0 <= j < res.0 as int
                ==> dist_of(metric, #[trigger] palette@[j], color) > dist_of(
                metric,
                palette@[res.0 as int],
                color,
            ),
        forall|k: int|
            0 <= k < palette@.len() && #[trigger] palette@[k] == color
                ==> dist_of(metric, palette@[res.0 as int], color) == 0 && res.0 <= k,
{
    let mut best: usize = 0;
    let mut best_d: u64 = distance_bits(metric, palette[0], color);
    let mut i: usize = 1;
    while i < palette.len()
        invariant
            color < 0x1000000,
            forall|j: int| 0 <= j < palette@.len() ==> #[trigger] palette@[j] < 0x1000000,
            0 < i <= palette@.len(),
            best < i,
            best_d == dist_of(metric, palette@[best as int], color),
            palette@[best as int] == color ==> best_d == 0,
            forall|j: int| 0 <= j < i ==> best_d <= dist_of(metric, #[trigger] palette@[j], color),
            forall|j: int| 0 <= j < best ==> dist_of(metric, #[trigger] palette@[j], color) > best_d,
            forall|k: int| 0 <= k < i && #[trigger] palette@[k] == color ==> best_d == 0 && best <= k,
        decreases palette@.len() - i,
    {
        let d = distance_bits(metric, palette[i], color);
        if d < best_d {
            best = i;
            best_d = d;
        }
        i = i + 1;
    }
    (best, palette[best])
}

/// Parse a metric identifier, case-insensitively: `rgb`, `cmyk` or `lab`.
/// Any other identifier is a configuration error, refused before any
/// color computation.
pub fn parse_metric(s: &str) -> (r: Result<Metric, Error>)
    ensures
        r == Ok::<Metric, Error>(Metric::Rgb) <==> lower_seq(s@) == "rgb"@,
        r == Ok::<Metric, Error>(Metric::Cmyk) <==> lower_seq(s@) == "cmyk"@,
        r == Ok::<Metric, Error>(Metric::Lab) <==> lower_seq(s@) == "lab"@,
        r == Err::<Metric, Error>(Error::MetricConfiguration) <==> lower_seq(s@) != "rgb"@
            && lower_seq(s@) != "cmyk"@ && lower_seq(s@) != "lab"@,
{
    proof {
        reveal_strlit("rgb");
        reveal_strlit("cmyk");
        reveal_strlit("lab");
        assert("rgb"@ != "cmyk"@ && "rgb"@ != "lab"@ && "cmyk"@ != "lab"@) by {
            assert("rgb"@.len() == 3 && "cmyk"@.len() == 4 && "lab"@.len() == 3);
            assert("rgb"@[0] == 'r' && "lab"@[0] == 'l');
        }
    }
    let l = lower_str(s);
    if l == String::from_str("rgb") {
        Ok(Metric::Rgb)
    } else if l == String::from_str("cmyk") {
        Ok(Metric::Cmyk)
    } else if l == String::from_str("lab") {
        Ok(Metric::Lab)
    } else {
        Err(Error::MetricConfiguration)
    }
}

} // verus!
