//! Grouping of consecutive strain peaks into fixed-size local sections.

use vstd::prelude::*;
use vstd::arithmetic::div_mod::lemma_fundamental_div_mod_converse;

verus! {

/// Duration in milliseconds covered by one raw strain peak.
pub const PEAK_SECTION_LEN_MS: u64 = 400;

/// Duration in milliseconds of one short local section.
pub const SHORT_SECTION_MS: u64 = 15000;

/// Duration in milliseconds of one minute-long local section.
pub const MINUTE_MS: u64 = 60000;

/// The integer nearest to `num / den`, a half rounded up.
pub open spec fn spec_rounded_ratio(num: int, den: int) -> int {
    (2 * num + den) / (2 * den)
}

/// Rounds `num / den` to the nearest integer, a half rounded away from zero.
pub fn rounded_ratio(num: u64, den: u64) -> (r: u64)
    requires
        den > 0,
    ensures
        r == spec_rounded_ratio(num as int, den as int),
        2 * r * den <= 2 * num + den,
        2 * num + den < 2 * (r + 1) * den,
{
    let q = num / den;
    let rem = num % den;
    let up: bool = rem >= den - rem;
    proof {
        let n = num as int;
        let d = den as int;
        let qi = q as int;
        assert(n == d * qi + rem) by {
            vstd::arithmetic::div_mod::lemma_fundamental_div_mod(n, d);
        }
        if up {
            assert(d >= 2);
            assert(2 * qi <= n) by (nonlinear_arith)
                requires n == d * qi + rem, d >= 2, qi >= 0, rem >= 0;
        }
    }
    let r: u64 = if up { q + 1 } else { q };
    proof {
        let n = num as int;
        let d = den as int;
        let qi = q as int;
        let ri = rem as int;
        assert(n == d * qi + ri) by {
            vstd::arithmetic::div_mod::lemma_fundamental_div_mod(n, d);
        }
        assert(0 <= ri < d);
        let ro = r as int;
        if up {
            let s = 2 * ri + d - 2 * d;
            assert(2 * n + d == (qi + 1) * (2 * d) + s) by (nonlinear_arith)
                requires n == d * qi + ri, s == 2 * ri + d - 2 * d;
            lemma_fundamental_div_mod_converse(2 * n + d, 2 * d, qi + 1, s);
            assert(2 * ro * d <= 2 * n + d < 2 * (ro + 1) * d) by (nonlinear_arith)
                requires 2 * n + d == ro * (2 * d) + s, 0 <= s < 2 * d;
        } else {
            let s = 2 * ri + d;
            assert(2 * n + d == qi * (2 * d) + s) by (nonlinear_arith)
                requires n == d * qi + ri, s == 2 * ri + d;
            lemma_fundamental_div_mod_converse(2 * n + d, 2 * d, qi, s);
            assert(2 * ro * d <= 2 * n + d < 2 * (ro + 1) * d) by (nonlinear_arith)
                requires 2 * n + d == ro * (2 * d) + s, 0 <= s < 2 * d;
        }
    }
    r
}

/// The smaller of two lengths.
pub open spec fn min_len(a: int, b: int) -> int {
    if a < b {
        a
    } else {
        b
    }
}

/// Number of sections of `per` peaks needed to hold `len` peaks.
pub open spec fn section_count(len: int, per: int) -> int {
    (len + per - 1) / per
}

/// First peak index of section `k`.
pub open spec fn section_start(k: int, per: int) -> int {
    k * per
}

/// One past the last peak index of section `k`, cut off at `len`.
pub open spec fn section_end(k: int, per: int, len: int) -> int {
    if (k + 1) * per < len {
        (k + 1) * per
    } else {
        len
    }
}

/// `s` lists, in order, the half-open peak ranges of the sections of `per`
/// peaks that split the first `len` peaks.
pub open spec fn is_section_split(s: Seq<(usize, usize)>, len: int, per: int) -> bool {
    &&& s.len() == section_count(len, per)
    &&& forall|k: int|
        0 <= k < s.len() ==> {
            &&& (#[trigger] s[k]).0 == section_start(k, per)
            &&& s[k].1 == section_end(k, per, len)
        }
}

/// Splits the peaks that both strain series have (the shorter length) into
/// consecutive sections of `per` peaks; the last one may be shorter. Each
/// pair is the half-open range `start..end` of one section.
pub fn section_bounds(len_aim: usize, len_speed: usize, per: usize) -> (out: Vec<(usize, usize)>)
    requires
        per > 0,
        (if len_aim < len_speed { len_aim as int } else { len_speed as int }) + per - 1 <= usize::MAX,
    ensures
        is_section_split(out@, min_len(len_aim as int, len_speed as int), per as int),
        out@.len() == ((if len_aim < len_speed { len_aim as int } else { len_speed as int }) + per - 1) / (per as int),
        forall|k: int|
            0 <= k < out@.len() ==> {
                &&& (#[trigger] out@[k]).0 == k * (per as int)
                &&& out@[k].1 == (if (k + 1) * (per as int) < (if len_aim < len_speed { len_aim as int } else { len_speed as int }) {
                    (k + 1) * (per as int)
                } else {
                    (if len_aim < len_speed { len_aim as int } else { len_speed as int })
                })
            },
        out@.len() == 0 <==> (if len_aim < len_speed { len_aim as int } else { len_speed as int }) == 0,
        out@.len() > 0 ==> out@[0].0 == 0 && out@[out@.len() - 1].1 == (if len_aim < len_speed { len_aim as int } else { len_speed as int }),
        forall|k: int| 0 <= k < out@.len() ==> (#[trigger] out@[k]).0 < out@[k].1 <= (if len_aim < len_speed { len_aim as int } else { len_speed as int }),
{
    let len: usize = if len_aim < len_speed {
        len_aim
    } else {
        len_speed
    };
    let mut out: Vec<(usize, usize)> = Vec::new();
    let mut start: usize = 0;
    assert(out.len() * per == 0) by (nonlinear_arith)
        requires out.len() == 0;
    while start < len
        invariant
            per > 0,
            len + per - 1 <= usize::MAX,
            start == out.len() * per,
            start - per < len,
            forall|k: int|
                0 <= k < out.len() ==> {
                    &&& (#[trigger] out@[k]).0 == section_start(k, per as int)
                    &&& out@[k].1 == section_end(k, per as int, len as int)
                },
        decreases len + per - start,
    {
        let next: usize = start + per;
        let end: usize = if next < len {
            next
        } else {
            len
        };
        let ghost k = out.len() as int;
        proof {
            assert((k + 1) * per == k * per + per) by (nonlinear_arith);
        }
        out.push((start, end));
        start = next;
    }
    proof {
        let k = out.len() as int;
        let p = per as int;
        let l = len as int;
        let r = l + p - 1 - k * p;
        assert(l + p - 1 == k * p + r);
        lemma_fundamental_div_mod_converse(l + p - 1, p, k, r);
        assert forall|j: int| 0 <= j < out@.len() implies (#[trigger] out@[j]).0 < out@[j].1 <= l by {
            lemma_sections_tile(l, p, j);
        }
        if k > 0 {
            lemma_sections_tile(l, p, 0);
            lemma_sections_tile(l, p, k - 1);
        }
        if k == 0 {
            assert(l == 0) by (nonlinear_arith)
                requires l + p - 1 == k * p + r, r < p, k == 0, l >= 0;
        } else {
            assert(l > 0) by (nonlinear_arith)
                requires k > 0, out@[0].0 < out@[0].1 <= l;
        }
    }
    out
}

/// Number of raw peaks grouped into one section of `section_ms`
/// milliseconds: the section length over the peak length, rounded.
pub fn peaks_per_section(section_ms: u64) -> (per: usize)
    requires
        section_ms <= usize::MAX,
    ensures
        per == spec_rounded_ratio(section_ms as int, PEAK_SECTION_LEN_MS as int),
{
    let r = rounded_ratio(section_ms, PEAK_SECTION_LEN_MS);
    proof {
        assert(r <= section_ms) by (nonlinear_arith)
            requires 2 * r * 400 <= 2 * section_ms + 400;
    }
    r as usize
}

/// Peak ranges of the 15-second local sections (38 peaks each) that the
/// two strain series share.
pub fn sections_per_15s(len_aim: usize, len_speed: usize) -> (out: Vec<(usize, usize)>)
    requires
        (if len_aim < len_speed { len_aim as int } else { len_speed as int }) + 37 <= usize::MAX,
    ensures
        is_section_split(out@, min_len(len_aim as int, len_speed as int), 38),
        out@.len() == ((if len_aim < len_speed { len_aim as int } else { len_speed as int }) + 38 - 1) / 38,
        forall|k: int|
            0 <= k < out@.len() ==> {
                &&& (#[trigger] out@[k]).0 == k * 38
                &&& out@[k].1 == (if (k + 1) * 38 < (if len_aim < len_speed { len_aim as int } else { len_speed as int }) {
                    (k + 1) * 38
                } else {
                    (if len_aim < len_speed { len_aim as int } else { len_speed as int })
                })
            },
        out@.len() == 0 <==> (if len_aim < len_speed { len_aim as int } else { len_speed as int }) == 0,
        out@.len() > 0 ==> out@[0].0 == 0 && out@[out@.len() - 1].1 == (if len_aim < len_speed { len_aim as int } else { len_speed as int }),
        forall|k: int| 0 <= k < out@.len() ==> (#[trigger] out@[k]).0 < out@[k].1 <= (if len_aim < len_speed { len_aim as int } else { len_speed as int }),
{
    let per = peaks_per_section(SHORT_SECTION_MS);
    proof {
        lemma_fundamental_div_mod_converse(30400int, 800int, 38int, 0int);
    }
    section_bounds(len_aim, len_speed, per)
}

/// Peak ranges of the one-minute local sections (150 peaks each) that the
/// two strain series share.
pub fn sections_per_minute(len_aim: usize, len_speed: usize) -> (out: Vec<(usize, usize)>)
    requires
        (if len_aim < len_speed { len_aim as int } else { len_speed as int }) + 149 <= usize::MAX,
    ensures
        is_section_split(out@, min_len(len_aim as int, len_speed as int), 150),
        out@.len() == ((if len_aim < len_speed { len_aim as int } else { len_speed as int }) + 150 - 1) / 150,
        forall|k: int|
            0 <= k < out@.len() ==> {
                &&& (#[trigger] out@[k]).0 == k * 150
                &&& out@[k].1 == (if (k + 1) * 150 < (if len_aim < len_speed { len_aim as int } else { len_speed as int }) {
                    (k + 1) * 150
                } else {
                    (if len_aim < len_speed { len_aim as int } else { len_speed as int })
                })
            },
        out@.len() == 0 <==> (if len_aim < len_speed { len_aim as int } else { len_speed as int }) == 0,
        out@.len() > 0 ==> out@[0].0 == 0 && out@[out@.len() - 1].1 == (if len_aim < len_speed { len_aim as int } else { len_speed as int }),
        forall|k: int| 0 <= k < out@.len() ==> (#[trigger] out@[k]).0 < out@[k].1 <= (if len_aim < len_speed { len_aim as int } else { len_speed as int }),
{
    let per = peaks_per_section(MINUTE_MS);
    proof {
        lemma_fundamental_div_mod_converse(120400int, 800int, 150int, 400int);
    }
    section_bounds(len_aim, len_speed, per)
}

/// A split only reads peaks that both series have: every section lies
/// within the shorter length, and the split of two series is the split of
/// both cut to that length.
pub proof fn lemma_split_within_shorter(s: Seq<(usize, usize)>, len_aim: int, len_speed: int, per: int)
    requires
        per > 0,
        0 <= len_aim,
        0 <= len_speed,
        is_section_split(s, min_len(len_aim, len_speed), per),
    ensures
        forall|k: int|
            0 <= k < s.len() ==> (#[trigger] s[k]).0 <= s[k].1 <= min_len(len_aim, len_speed),
        is_section_split(
            s,
            min_len(min_len(len_aim, len_speed), min_len(len_aim, len_speed)),
            per,
        ),
{
    let len = min_len(len_aim, len_speed);
    assert forall|k: int| 0 <= k < s.len() implies (#[trigger] s[k]).0 <= s[k].1 <= len by {
        lemma_sections_tile(len, per, k);
    }
}

/// `min_len` is the shorter of the two lengths: no longer than either and
/// equal to one of them.
pub proof fn lemma_min_len_is_shorter(a: int, b: int)
    ensures
        min_len(a, b) <= a,
        min_len(a, b) <= b,
        min_len(a, b) == a || min_len(a, b) == b,
{
}

/// Every peak below `len` lies in exactly the section `i / per`, and that
/// section exists.
pub proof fn lemma_peak_in_section(len: int, per: int, i: int)
    requires
        per > 0,
        0 <= i < len,
    ensures
        0 <= i / per < section_count(len, per),
        section_start(i / per, per) <= i < section_end(i / per, per, len),
        forall|k: int|
            0 <= k < section_count(len, per) && #[trigger] section_start(k, per) <= i
                < section_end(k, per, len) ==> k == i / per,
{
    let q = i / per;
    let r = i % per;
    vstd::arithmetic::div_mod::lemma_fundamental_div_mod(i, per);
    assert(0 <= r < per);
    assert(q >= 0) by (nonlinear_arith)
        requires i == per * q + r, 0 <= r < per, i >= 0, per > 0;
    assert(q * per <= i < (q + 1) * per) by (nonlinear_arith)
        requires i == per * q + r, 0 <= r < per;
    // q < ceil(len / per)
    let c = section_count(len, per);
    let cr = (len + per - 1) % per;
    vstd::arithmetic::div_mod::lemma_fundamental_div_mod(len + per - 1, per);
    assert(0 <= cr < per);
    assert(q < c) by (nonlinear_arith)
        requires
            len + per - 1 == per * c + cr,
            0 <= cr < per,
            q * per <= i,
            i < len,
            per > 0,
    ;
    assert forall|k: int|
        0 <= k < section_count(len, per) && #[trigger] section_start(k, per) <= i
            < section_end(k, per, len) implies k == q by {
        assert(k * per <= i < (k + 1) * per);
        if k < q {
            assert((k + 1) * per <= q * per) by (nonlinear_arith)
                requires k + 1 <= q, per > 0;
        } else if k > q {
            assert((q + 1) * per <= k * per) by (nonlinear_arith)
                requires q + 1 <= k, per > 0;
        }
    }
}

/// The sections tile the peaks: each is non-empty, holds at most `per`
/// peaks, every section but the last holds exactly `per` peaks and ends
/// where the next one starts, the first starts at peak 0 and the last ends
/// at `len`.
pub proof fn lemma_sections_tile(len: int, per: int, k: int)
    requires
        per > 0,
        len >= 0,
        0 <= k < section_count(len, per),
    ensures
        k == 0 ==> section_start(k, per) == 0,
        section_start(k, per) < section_end(k, per, len),
        section_end(k, per, len) - section_start(k, per) <= per,
        k + 1 < section_count(len, per) ==> section_end(k, per, len) == section_start(k, per) + per
            && section_end(k, per, len) == section_start(k + 1, per),
        k + 1 == section_count(len, per) ==> section_end(k, per, len) == len,
{
    let c = section_count(len, per);
    let cr = (len + per - 1) % per;
    vstd::arithmetic::div_mod::lemma_fundamental_div_mod(len + per - 1, per);
    assert(0 <= cr < per);
    assert((k + 1) * per == k * per + per) by (nonlinear_arith);
    assert(k * per < len) by (nonlinear_arith)
        requires len + per - 1 == per * c + cr, 0 <= cr < per, k + 1 <= c, per > 0;
    if k + 1 < c {
        assert((k + 1) * per < len) by (nonlinear_arith)
            requires len + per - 1 == per * c + cr, 0 <= cr < per, k + 2 <= c, per > 0;
    }
    if k + 1 == c {
        assert((k + 1) * per >= len) by (nonlinear_arith)
            requires len + per - 1 == per * c + cr, 0 <= cr < per, k + 1 == c;
    }
}

} // verus!
