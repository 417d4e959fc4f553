//! Small shared helpers: the random axis pick used by the hierarchy
//! builder, duration formatting for progress display, and the message
//! type the rendering pipeline sends per finished pixel.

use vstd::prelude::*;

verus! {

use crate::vec3::Vec3;
use vstd::string::StringExecFns;

/// Relies on rand's `Rng::gen_range` over the inclusive range
/// `min..=max`: the sampled value lies within the bounds, and the
/// range is non-empty so the call cannot panic.
#[verifier::external_body]
pub fn random_i32_with_range(min: i32, max: i32) -> (r: i32)
    requires
        min <= max,
    ensures
        min <= r <= max,
{
    rand::Rng::gen_range(&mut rand::thread_rng(), min..=max)
}

/// One finished pixel travelling from a worker to the aggregator.
#[derive(Clone, Copy, PartialEq, Eq, Structural, Debug)]
pub struct PixelInfo {
    pub u: usize,
    pub v: usize,
    pub color: Vec3,
}

/// The decimal digit character for `0 <= d <= 9`.
pub open spec fn digit_char(d: int) -> char {
    if d == 0 {
        '0'
    } else if d == 1 {
        '1'
    } else if d == 2 {
        '2'
    } else if d == 3 {
        '3'
    } else if d == 4 {
        '4'
    } else if d == 5 {
        '5'
    } else if d == 6 {
        '6'
    } else if d == 7 {
        '7'
    } else if d == 8 {
        '8'
    } else {
        '9'
    }
}

/// The decimal digits of a non-negative number, most significant
/// first.
pub open spec fn dec_spec(n: int) -> Seq<char>
    decreases n,
{
    if n < 0 {
        Seq::empty()
    } else if n < 10 {
        seq![digit_char(n)]
    } else {
        dec_spec(n / 10) + seq![digit_char(n % 10)]
    }
}

/// The digits of `n` padded with a leading zero below ten, as printed
/// by a two-digit zero-padded format.
pub open spec fn pad2_spec(n: int) -> Seq<char> {
    if 0 <= n < 10 {
        seq!['0'] + dec_spec(n)
    } else {
        dec_spec(n)
    }
}

fn digit_str(d: u64) -> (r: &'static str)
    requires
        d <= 9,
    ensures
        r@ =~= seq![digit_char(d as int)],
{
    proof {
        reveal_strlit("0");
        reveal_strlit("1");
        reveal_strlit("2");
        reveal_strlit("3");
        reveal_strlit("4");
        reveal_strlit("5");
        reveal_strlit("6");
        reveal_strlit("7");
        reveal_strlit("8");
        reveal_strlit("9");
    }
    match d {
        0 => "0",
        1 => "1",
        2 => "2",
        3 => "3",
        4 => "4",
        5 => "5",
        6 => "6",
        7 => "7",
        8 => "8",
        _ => "9",
    }
}

/// The decimal digits of `n`.
pub fn dec_str_u64(n: u64) -> (r: String)
    ensures
        r@ == dec_spec(n as int),
    decreases n,
{
    if n < 10 {
        let mut s = String::new();
        s.append(digit_str(n));
        proof {
            assert(s@ =~= dec_spec(n as int));
        }
        s
    } else {
        let mut s = dec_str_u64(n / 10);
        s.append(digit_str(n % 10));
        proof {
            assert(s@ =~= dec_spec(n as int));
        }
        s
    }
}

/// Writes a number of seconds as `HH:MM:SS`, each part zero-padded to
/// two digits (and growing beyond two digits like a zero-padded
/// format would, for implausibly long runs).
pub fn format_duration_hhmmss(seconds: u64) -> (r: String)
    ensures
        r@ == pad2_spec((seconds / 3600) as int) + seq![':'] + pad2_spec(
            ((seconds % 3600) / 60) as int,
        ) + seq![':'] + pad2_spec((seconds % 60) as int),
{
    let hours = seconds / 3600;
    let minutes = (seconds % 3600) / 60;
    let secs = seconds % 60;
    proof {
        reveal_strlit(":");
    }
    let mut s = pad2(hours);
    s.append(":");
    let m = pad2(minutes);
    s.append(m.as_str());
    s.append(":");
    let e = pad2(secs);
    s.append(e.as_str());
    s
}

/// Two-digit zero-padded decimal.
fn pad2(n: u64) -> (r: String)
    ensures
        r@ == pad2_spec(n as int),
{
    proof {
        reveal_strlit("0");
    }
    if n < 10 {
        let mut s = String::new();
        s.append("0");
        let d = dec_str_u64(n);
        s.append(d.as_str());
        s
    } else {
        dec_str_u64(n)
    }
}

} // verus!
