//! The coordinate string grammars.
//!
//! A full coordinate string is first split into a latitude part and a
//! longitude part by one of three combined patterns, tried in a fixed
//! priority order: a hemisphere-letter split (`N…E…` with an optional single
//! space at the split point), a comma split, and a single-space split. Each
//! part is then matched against seven single-axis patterns, again in a fixed
//! priority order; a pattern captures a hemisphere or sign token and up to
//! four numeric groups standing for degrees, minutes, seconds and hundredths
//! of a second, whose weighted sum is the axis value in degrees.
//!
//! The executable parser keeps at most [`FRAC_DIGITS_KEPT`] fractional digits
//! of any one numeric group; the spec value of a match is stated both exactly
//! and with that truncation applied.

use vstd::prelude::*;

use crate::angle::{Angle, DEGREE_BOUND, UNITS_PER_DEGREE_TOP};
use crate::rational::{lemma_pow10_adds, lemma_pow10_mono, lemma_pow10_values,
    lemma_rat_eq_trans_aux, pow10, pow10_u64, rat, rat_add, rat_div, rat_int, rat_mul, rat_eq,
    rat_wf, Rat};

verus! {

broadcast use crate::rational::lemma_pow10_pos;

/// How many fractional digits of one numeric group the parser keeps.
pub const FRAC_DIGITS_KEPT: u64 = 12;

/// Whether `c` is a decimal digit.
pub open spec fn is_digit(c: char) -> bool {
    48 <= c as u32 && c as u32 <= 57
}

/// The value of a digit character.
pub open spec fn digit_val(c: char) -> int {
    c as u32 - 48
}

/// Whether every character of `s` is a decimal digit.
pub open spec fn all_digits(s: Seq<char>) -> bool {
    forall|i: int| 0 <= i < s.len() ==> is_digit(#[trigger] s[i])
}

/// The number denoted by a digit run, most significant digit first.
pub open spec fn digits_val(s: Seq<char>) -> int
    decreases s.len(),
{
    if s.len() == 0 {
        0
    } else {
        10 * digits_val(s.drop_last()) + digit_val(s.last())
    }
}

/// A digit run denotes a value in `[0, 10^len)`.
pub proof fn lemma_digits_val_bounds(s: Seq<char>)
    requires
        all_digits(s),
    ensures
        0 <= digits_val(s) < pow10(s.len()),
    decreases s.len(),
{
    if s.len() > 0 {
        assert(all_digits(s.drop_last()));
        lemma_digits_val_bounds(s.drop_last());
        assert(is_digit(s.last()));
        assert(pow10(s.len()) == 10 * pow10((s.len() - 1) as nat));
    }
}

/// One captured numeric group: an integer digit run and a (possibly empty)
/// fractional digit run, denoting `ip.fp`.
pub ghost struct Dec {
    pub ip: Seq<char>,
    pub fp: Seq<char>,
}

/// The group scaled to an integer: `value * 10^(fp.len())`.
pub open spec fn dec_mant(g: Dec) -> int {
    digits_val(g.ip) * pow10(g.fp.len()) + digits_val(g.fp)
}

/// The exact value of the group.
pub open spec fn dec_rat(g: Dec) -> Rat {
    Rat { n: dec_mant(g), d: pow10(g.fp.len()) as int }
}

/// The group with its fraction cut to at most `cap` digits.
pub open spec fn dec_trunc(g: Dec, cap: nat) -> Dec {
    if g.fp.len() <= cap {
        g
    } else {
        Dec { ip: g.ip, fp: g.fp.take(cap as int) }
    }
}

/// The capture of one single-axis pattern: a sign and the numeric groups,
/// weighted 1, 1/60, 1/3600 and 1/360000 degrees respectively.
pub ghost struct AxisGroups {
    pub sign: int,
    pub deg: Dec,
    pub min: Option<Dec>,
    pub sec: Option<Dec>,
    pub csec: Option<Dec>,
}

/// The contribution of an optional group with the given weight denominator.
pub open spec fn opt_term(g: Option<Dec>, ratio: int) -> Rat {
    match g {
        Option::None => rat_int(0),
        Option::Some(d) => rat_div(dec_rat(d), rat_int(ratio)),
    }
}

/// The exact axis value in degrees: the signed weighted sum of the groups.
pub open spec fn axis_value(g: AxisGroups) -> Rat {
    rat_mul(
        rat_int(g.sign),
        rat_add(
            dec_rat(g.deg),
            rat_add(opt_term(g.min, 60), rat_add(opt_term(g.sec, 3600), opt_term(g.csec, 360000))),
        ),
    )
}

pub open spec fn opt_trunc(g: Option<Dec>, cap: nat) -> Option<Dec> {
    match g {
        Option::None => Option::None,
        Option::Some(d) => Option::Some(dec_trunc(d, cap)),
    }
}

/// The capture with every fraction cut to at most `cap` digits.
pub open spec fn axis_trunc(g: AxisGroups, cap: nat) -> AxisGroups {
    AxisGroups {
        sign: g.sign,
        deg: dec_trunc(g.deg, cap),
        min: opt_trunc(g.min, cap),
        sec: opt_trunc(g.sec, cap),
        csec: opt_trunc(g.csec, cap),
    }
}

/// Whether every fraction of the capture already has at most `cap` digits.
pub open spec fn axis_short(g: AxisGroups, cap: nat) -> bool {
    &&& g.deg.fp.len() <= cap
    &&& (g.min is Some ==> g.min->Some_0.fp.len() <= cap)
    &&& (g.sec is Some ==> g.sec->Some_0.fp.len() <= cap)
    &&& (g.csec is Some ==> g.csec->Some_0.fp.len() <= cap)
}

/// Truncation does not change a capture whose fractions are short enough.
pub proof fn lemma_axis_trunc_id(g: AxisGroups, cap: nat)
    requires
        axis_short(g, cap),
    ensures
        axis_trunc(g, cap) == g,
{
}

/// Hemisphere letters accepted by the single-axis patterns.
pub open spec fn is_hemi(c: char) -> bool {
    c == 'N' || c == 'S' || c == 'E' || c == 'W'
}

/// The sign a hemisphere or sign token denotes.
pub open spec fn token_sign(c: char) -> int {
    if c == 'S' || c == 'W' || c == '-' {
        -1
    } else {
        1
    }
}

/// Degree-group rule shared by most patterns: two digits, or three whose
/// first is `0` or `1`.
pub open spec fn deg_prefix_ok(t: Seq<char>, dl: int) -> bool {
    dl == 2 || (dl == 3 && (t[1] == '0' || t[1] == '1'))
}

/// Hemisphere, degrees, then minutes with a fraction: `Hdd[d]mm.f*`.
pub open spec fn p1_at(t: Seq<char>, dl: int) -> bool {
    &&& t.len() >= dl + 4
    &&& is_hemi(t[0])
    &&& all_digits(t.subrange(1, 1 + dl))
    &&& deg_prefix_ok(t, dl)
    &&& all_digits(t.subrange(1 + dl, 3 + dl))
    &&& t[3 + dl] == '.'
    &&& all_digits(t.skip(4 + dl))
}

pub open spec fn p1_match(t: Seq<char>) -> bool {
    p1_at(t, 3) || p1_at(t, 2)
}

pub open spec fn p1_groups(t: Seq<char>) -> AxisGroups {
    let dl: int = if p1_at(t, 3) {
        3
    } else {
        2
    };
    AxisGroups {
        sign: token_sign(t[0]),
        deg: Dec { ip: t.subrange(1, 1 + dl), fp: Seq::empty() },
        min: Option::Some(Dec { ip: t.subrange(1 + dl, 3 + dl), fp: t.skip(4 + dl) }),
        sec: Option::None,
        csec: Option::None,
    }
}

/// Hemisphere, degrees, minutes, then seconds with a fraction:
/// `Hdd[d]mmss.f*`.
pub open spec fn p2_at(t: Seq<char>, dl: int) -> bool {
    &&& t.len() >= dl + 6
    &&& is_hemi(t[0])
    &&& all_digits(t.subrange(1, 1 + dl))
    &&& deg_prefix_ok(t, dl)
    &&& all_digits(t.subrange(1 + dl, 3 + dl))
    &&& all_digits(t.subrange(3 + dl, 5 + dl))
    &&& t[5 + dl] == '.'
    &&& all_digits(t.skip(6 + dl))
}

pub open spec fn p2_match(t: Seq<char>) -> bool {
    p2_at(t, 3) || p2_at(t, 2)
}

pub open spec fn p2_groups(t: Seq<char>) -> AxisGroups {
    let dl: int = if p2_at(t, 3) {
        3
    } else {
        2
    };
    AxisGroups {
        sign: token_sign(t[0]),
        deg: Dec { ip: t.subrange(1, 1 + dl), fp: Seq::empty() },
        min: Option::Some(Dec { ip: t.subrange(1 + dl, 3 + dl), fp: Seq::empty() }),
        sec: Option::Some(Dec { ip: t.subrange(3 + dl, 5 + dl), fp: t.skip(6 + dl) }),
        csec: Option::None,
    }
}

/// Hemisphere then four two-digit groups (degrees possibly three digits):
/// `Hdd[d]mmsscc`.
pub open spec fn p3_at(t: Seq<char>, dl: int) -> bool {
    &&& t.len() == dl + 7
    &&& is_hemi(t[0])
    &&& deg_prefix_ok(t, dl)
    &&& all_digits(t.subrange(1, 1 + dl))
    &&& all_digits(t.subrange(1 + dl, 3 + dl))
    &&& all_digits(t.subrange(3 + dl, 5 + dl))
    &&& all_digits(t.subrange(5 + dl, 7 + dl))
}

pub open spec fn p3_match(t: Seq<char>) -> bool {
    p3_at(t, 3) || p3_at(t, 2)
}

pub open spec fn p3_groups(t: Seq<char>) -> AxisGroups {
    let dl: int = if p3_at(t, 3) {
        3
    } else {
        2
    };
    AxisGroups {
        sign: token_sign(t[0]),
        deg: Dec { ip: t.subrange(1, 1 + dl), fp: Seq::empty() },
        min: Option::Some(Dec { ip: t.subrange(1 + dl, 3 + dl), fp: Seq::empty() }),
        sec: Option::Some(Dec { ip: t.subrange(3 + dl, 5 + dl), fp: Seq::empty() }),
        csec: Option::Some(Dec { ip: t.subrange(5 + dl, 7 + dl), fp: Seq::empty() }),
    }
}

/// Hemisphere, degrees, minutes, seconds: `Hdd[d]mmss`.
pub open spec fn p4_at(t: Seq<char>, dl: int) -> bool {
    &&& t.len() == dl + 5
    &&& is_hemi(t[0])
    &&& deg_prefix_ok(t, dl)
    &&& all_digits(t.subrange(1, 1 + dl))
    &&& all_digits(t.subrange(1 + dl, 3 + dl))
    &&& all_digits(t.subrange(3 + dl, 5 + dl))
}

pub open spec fn p4_match(t: Seq<char>) -> bool {
    p4_at(t, 3) || p4_at(t, 2)
}

pub open spec fn p4_groups(t: Seq<char>) -> AxisGroups {
    let dl: int = if p4_at(t, 3) {
        3
    } else {
        2
    };
    AxisGroups {
        sign: token_sign(t[0]),
        deg: Dec { ip: t.subrange(1, 1 + dl), fp: Seq::empty() },
        min: Option::Some(Dec { ip: t.subrange(1 + dl, 3 + dl), fp: Seq::empty() }),
        sec: Option::Some(Dec { ip: t.subrange(3 + dl, 5 + dl), fp: Seq::empty() }),
        csec: Option::None,
    }
}

/// Dotted form: `Hddd.mm.ss.fff`.
pub open spec fn p5_match(t: Seq<char>) -> bool {
    &&& t.len() == 14
    &&& is_hemi(t[0])
    &&& all_digits(t.subrange(1, 4))
    &&& t[4] == '.'
    &&& all_digits(t.subrange(5, 7))
    &&& t[7] == '.'
    &&& all_digits(t.subrange(8, 10))
    &&& t[10] == '.'
    &&& all_digits(t.subrange(11, 14))
}

pub open spec fn p5_groups(t: Seq<char>) -> AxisGroups {
    AxisGroups {
        sign: token_sign(t[0]),
        deg: Dec { ip: t.subrange(1, 4), fp: Seq::empty() },
        min: Option::Some(Dec { ip: t.subrange(5, 7), fp: Seq::empty() }),
        sec: Option::Some(Dec { ip: t.subrange(8, 10), fp: t.subrange(11, 14) }),
        csec: Option::None,
    }
}

/// Spaced form: `H dd[d] mm.f*`.
pub open spec fn p6_at(t: Seq<char>, dl: int) -> bool {
    &&& t.len() >= dl + 6
    &&& is_hemi(t[0])
    &&& t[1] == ' '
    &&& all_digits(t.subrange(2, 2 + dl))
    &&& (dl == 2 || (dl == 3 && (t[2] == '0' || t[2] == '1')))
    &&& t[2 + dl] == ' '
    &&& all_digits(t.subrange(3 + dl, 5 + dl))
    &&& t[5 + dl] == '.'
    &&& all_digits(t.skip(6 + dl))
}

pub open spec fn p6_match(t: Seq<char>) -> bool {
    p6_at(t, 3) || p6_at(t, 2)
}

pub open spec fn p6_groups(t: Seq<char>) -> AxisGroups {
    let dl: int = if p6_at(t, 3) {
        3
    } else {
        2
    };
    AxisGroups {
        sign: token_sign(t[0]),
        deg: Dec { ip: t.subrange(2, 2 + dl), fp: Seq::empty() },
        min: Option::Some(Dec { ip: t.subrange(3 + dl, 5 + dl), fp: t.skip(6 + dl) }),
        sec: Option::None,
        csec: Option::None,
    }
}

/// Signed decimal degrees: `[+-]?dd[d].f*`.
pub open spec fn p7_sign_len(t: Seq<char>) -> int {
    if t.len() >= 1 && (t[0] == '+' || t[0] == '-') {
        1
    } else {
        0
    }
}

pub open spec fn p7_at(t: Seq<char>, il: int) -> bool {
    let sl = p7_sign_len(t);
    &&& t.len() >= sl + il + 1
    &&& all_digits(t.subrange(sl, sl + il))
    &&& t[sl + il] == '.'
    &&& all_digits(t.skip(sl + il + 1))
}

pub open spec fn p7_match(t: Seq<char>) -> bool {
    p7_at(t, 3) || p7_at(t, 2)
}

pub open spec fn p7_groups(t: Seq<char>) -> AxisGroups {
    let sl = p7_sign_len(t);
    let il: int = if p7_at(t, 3) {
        3
    } else {
        2
    };
    AxisGroups {
        sign: if sl == 1 {
            token_sign(t[0])
        } else {
            1
        },
        deg: Dec { ip: t.subrange(sl, sl + il), fp: t.skip(sl + il + 1) },
        min: Option::None,
        sec: Option::None,
        csec: Option::None,
    }
}

/// The single-axis grammar: the patterns in priority order, first match wins.
pub open spec fn axis_match(t: Seq<char>) -> Option<AxisGroups> {
    if p1_match(t) {
        Option::Some(p1_groups(t))
    } else if p2_match(t) {
        Option::Some(p2_groups(t))
    } else if p3_match(t) {
        Option::Some(p3_groups(t))
    } else if p4_match(t) {
        Option::Some(p4_groups(t))
    } else if p5_match(t) {
        Option::Some(p5_groups(t))
    } else if p6_match(t) {
        Option::Some(p6_groups(t))
    } else if p7_match(t) {
        Option::Some(p7_groups(t))
    } else {
        Option::None
    }
}

/// Whether `s` is free of line breaks (the combined patterns cannot cross
/// one).
pub open spec fn no_newline(s: Seq<char>) -> bool {
    forall|i: int| 0 <= i < s.len() ==> (#[trigger] s[i]) != '\n'
}

pub open spec fn is_ew(c: char) -> bool {
    c == 'E' || c == 'W'
}

/// The first position from `t` on where the longitude part can start: either
/// directly at an `E`/`W`, or right after a single space followed by one.
pub open spec fn ew_split(s: Seq<char>, t: int) -> Option<int>
    decreases s.len() - t,
{
    if t < 0 || t >= s.len() {
        Option::None
    } else if is_ew(s[t]) || (s[t] == ' ' && t + 1 < s.len() && is_ew(s[t + 1])) {
        Option::Some(t)
    } else {
        ew_split(s, t + 1)
    }
}

/// The first position from `t` on holding character `c`.
pub open spec fn first_at(s: Seq<char>, c: char, t: int) -> Option<int>
    decreases s.len() - t,
{
    if t < 0 || t >= s.len() {
        Option::None
    } else if s[t] == c {
        Option::Some(t)
    } else {
        first_at(s, c, t + 1)
    }
}

/// How many times `c` occurs in `s`.
pub open spec fn count_char(s: Seq<char>, c: char) -> int
    decreases s.len(),
{
    if s.len() == 0 {
        0
    } else {
        count_char(s.drop_last(), c) + if s.last() == c {
            1int
        } else {
            0int
        }
    }
}

/// Hemisphere-pair split: `N…E…` and the like, with an optional single space
/// at the split point.
pub open spec fn combined_hemi(s: Seq<char>) -> Option<(Seq<char>, Seq<char>)> {
    if s.len() >= 1 && (s[0] == 'N' || s[0] == 'S') && no_newline(s) {
        match ew_split(s, 1) {
            Option::None => Option::None,
            Option::Some(t) => if s[t] == ' ' {
                Option::Some((s.take(t), s.skip(t + 1)))
            } else {
                Option::Some((s.take(t), s.skip(t)))
            },
        }
    } else {
        Option::None
    }
}

/// Comma split, at the first comma.
pub open spec fn combined_comma(s: Seq<char>) -> Option<(Seq<char>, Seq<char>)> {
    if no_newline(s) {
        match first_at(s, ',', 0) {
            Option::None => Option::None,
            Option::Some(p) => Option::Some((s.take(p), s.skip(p + 1))),
        }
    } else {
        Option::None
    }
}

/// Split at a space, when the string holds exactly one.
pub open spec fn combined_space(s: Seq<char>) -> Option<(Seq<char>, Seq<char>)> {
    if count_char(s, ' ') == 1 {
        match first_at(s, ' ', 0) {
            Option::None => Option::None,
            Option::Some(p) => Option::Some((s.take(p), s.skip(p + 1))),
        }
    } else {
        Option::None
    }
}

/// The combined grammar: the three splits in priority order, first match
/// wins; the two parts are the latitude and the longitude substrings.
pub open spec fn combined_match(s: Seq<char>) -> Option<(Seq<char>, Seq<char>)> {
    if combined_hemi(s) is Some {
        combined_hemi(s)
    } else if combined_comma(s) is Some {
        combined_comma(s)
    } else {
        combined_space(s)
    }
}

/// Collects the characters of a string.
pub fn str_chars(s: &str) -> (v: Vec<char>)
    ensures
        v@ == s@,
{
    let n: usize = s.unicode_len();
    let mut v: Vec<char> = Vec::new();
    let mut i: usize = 0;
    while i < n
        invariant
            i <= n,
            n == s@.len(),
            v@ == s@.take(i as int),
        decreases n - i,
    {
        let c = s.get_char(i);
        v.push(c);
        proof {
            assert(v@ =~= s@.take(i + 1));
        }
        i = i + 1;
    }
    proof {
        assert(v@ =~= s@);
    }
    v
}

/// Whether the characters at `[a, b)` are all decimal digits.
fn all_digits_in(v: &Vec<char>, a: usize, b: usize) -> (r: bool)
    requires
        a <= b && b <= v.len(),
    ensures
        r == all_digits(v@.subrange(a as int, b as int)),
{
    let ghost t = v@.subrange(a as int, b as int);
    let mut i: usize = a;
    while i < b
        invariant
            a <= i <= b <= v.len(),
            t == v@.subrange(a as int, b as int),
            forall|j: int| 0 <= j < i - a ==> is_digit(#[trigger] t[j]),
        decreases b - i,
    {
        let u: u32 = v[i] as u32;
        if u < 48 || u > 57 {
            proof {
                assert(t[i - a] == v@[i as int]);
                assert(!is_digit(t[i - a]));
            }
            return false;
        }
        proof {
            assert(t[i - a] == v@[i as int]);
        }
        i = i + 1;
    }
    true
}

/// The number denoted by the digit run at `[a, b)`.
fn digits_value(v: &Vec<char>, a: usize, b: usize) -> (r: u64)
    requires
        a <= b && b <= v.len(),
        b - a <= 14,
        all_digits(v@.subrange(a as int, b as int)),
    ensures
        r == digits_val(v@.subrange(a as int, b as int)),
        r < pow10((b - a) as nat),
{
    let ghost t = v@.subrange(a as int, b as int);
    proof {
        lemma_pow10_values();
        lemma_digits_val_bounds(t);
        assert(t.subrange(0, 0) =~= Seq::<char>::empty());
    }
    let mut r: u64 = 0;
    let mut i: usize = a;
    while i < b
        invariant
            a <= i <= b <= v.len(),
            b - a <= 14,
            t == v@.subrange(a as int, b as int),
            all_digits(t),
            r == digits_val(t.subrange(0, i - a)),
            r < pow10((i - a) as nat),
        decreases b - i,
    {
        proof {
            lemma_pow10_values();
            lemma_pow10_mono((i - a + 1) as nat, 14);
            assert(t.subrange(0, i - a + 1).drop_last() =~= t.subrange(0, i - a));
            assert(t.subrange(0, i - a + 1).last() == t[i - a]);
            assert(t[i - a] == v@[i as int]);
            assert(is_digit(t[i - a]));
            assert(pow10((i - a + 1) as nat) == 10 * pow10((i - a) as nat));
        }
        let d: u32 = (v[i] as u32) - 48;
        r = r * 10 + (d as u64);
        i = i + 1;
    }
    proof {
        assert(t.subrange(0, (b - a) as int) =~= t);
    }
    r
}

/// One parsed numeric group: the (truncated) scaled mantissa and how many
/// fractional digits it kept.
struct RawDec {
    mant: u64,
    flen: u64,
}

/// How a [`RawDec`] stands for a captured group `g` with at most `ipmax`
/// integer digits.
spec fn raw_dec_rep(r: RawDec, g: Dec, ipmax: int) -> bool {
    &&& all_digits(g.ip)
    &&& all_digits(g.fp)
    &&& g.ip.len() <= ipmax
    &&& r.flen == dec_trunc(g, FRAC_DIGITS_KEPT as nat).fp.len()
    &&& r.flen <= FRAC_DIGITS_KEPT
    &&& r.mant == dec_mant(dec_trunc(g, FRAC_DIGITS_KEPT as nat))
    &&& r.mant < pow10(ipmax as nat) * pow10(r.flen as nat)
}

/// One parsed single-axis capture.
struct RawAxis {
    neg: bool,
    deg: RawDec,
    min: Option<RawDec>,
    sec: Option<RawDec>,
    csec: Option<RawDec>,
}

spec fn opt_raw_rep(r: Option<RawDec>, g: Option<Dec>, ipmax: int) -> bool {
    match (r, g) {
        (Option::None, Option::None) => true,
        (Option::Some(rd), Option::Some(gd)) => raw_dec_rep(rd, gd, ipmax),
        _ => false,
    }
}

/// How a [`RawAxis`] stands for a captured [`AxisGroups`].
spec fn raw_rep(r: RawAxis, g: AxisGroups) -> bool {
    &&& g.sign == (if r.neg {
        -1int
    } else {
        1int
    })
    &&& raw_dec_rep(r.deg, g.deg, 3)
    &&& opt_raw_rep(r.min, g.min, 2)
    &&& opt_raw_rep(r.sec, g.sec, 2)
    &&& opt_raw_rep(r.csec, g.csec, 2)
    &&& (r.csec matches Option::Some(rd) ==> rd.flen == 0)
}

/// Reads the group with integer digits at `[c, d)` and fractional digits at
/// `[e, b)`, keeping at most [`FRAC_DIGITS_KEPT`] of the fraction.
fn read_group(v: &Vec<char>, c: usize, d: usize, e: usize, b: usize, Ghost(g): Ghost<Dec>) -> (r:
    RawDec)
    requires
        c <= d && d <= e && e <= b && b <= v.len(),
        d - c <= 3,
        g.ip == v@.subrange(c as int, d as int),
        g.fp == v@.subrange(e as int, b as int),
        all_digits(g.ip),
        all_digits(g.fp),
    ensures
        raw_dec_rep(r, g, (d - c) as int),
        raw_dec_rep(r, g, 3),
{
    proof {
        lemma_pow10_values();
    }
    let flen_full: usize = b - e;
    let flen: usize = if flen_full > 12 {
        12
    } else {
        flen_full
    };
    let ghost tg = dec_trunc(g, FRAC_DIGITS_KEPT as nat);
    proof {
        if g.fp.len() <= FRAC_DIGITS_KEPT {
            assert(tg == g);
        } else {
            assert(tg.fp =~= v@.subrange(e as int, e + flen));
        }
        assert(tg.fp =~= v@.subrange(e as int, e + flen));
        assert(all_digits(tg.fp));
        assert(tg.ip == g.ip);
    }
    let ipv: u64 = digits_value(v, c, d);
    let fv: u64 = digits_value(v, e, e + flen);
    proof {
        lemma_pow10_mono((d - c) as nat, 3);
        lemma_pow10_mono(flen as nat, 12);
        assert(ipv * pow10(flen as nat) + fv < pow10((d - c) as nat) * pow10(flen as nat)) by (
        nonlinear_arith)
            requires
                0 <= ipv < pow10((d - c) as nat),
                0 <= fv < pow10(flen as nat),
                pow10(flen as nat) >= 1,
        ;
        assert(pow10((d - c) as nat) * pow10(flen as nat) <= pow10(3) * pow10(12)) by (
        nonlinear_arith)
            requires
                pow10((d - c) as nat) <= pow10(3),
                pow10(flen as nat) <= pow10(12),
                pow10((d - c) as nat) >= 1,
                pow10(flen as nat) >= 1,
        ;
        assert(pow10(3) * pow10(12) == pow10(15)) by {
            lemma_pow10_adds(3, 12);
        }
        lemma_pow10_values();
        assert(pow10(15) == 1000000000000000);
    }
    let mant: u64 = ipv * pow10_u64(flen as u64) + fv;
    proof {
        assert(dec_mant(tg) == digits_val(tg.ip) * pow10(tg.fp.len()) + digits_val(tg.fp));
        assert(tg.fp.len() == flen);
        assert(digits_val(tg.ip) == ipv);
        assert(digits_val(tg.fp) == fv);
        lemma_pow10_mono((d - c) as nat, 3);
        assert(mant < pow10(3) * pow10(flen as nat)) by (nonlinear_arith)
            requires
                mant < pow10((d - c) as nat) * pow10(flen as nat),
                pow10((d - c) as nat) <= pow10(3),
                pow10(flen as nat) >= 1,
        ;
    }
    RawDec { mant, flen: flen as u64 }
}

/// The scaled contribution of one group: `mant * factor` at the finest scale,
/// where `factor * (ratio * 10^flen) == UNITS_PER_DEGREE_TOP`.
proof fn lemma_group_scaled(d: Dec, ratio: int, factor: int)
    requires
        ratio > 0,
        factor > 0,
        factor * (ratio * pow10(d.fp.len())) == UNITS_PER_DEGREE_TOP as int,
    ensures
        rat_wf(opt_term(Option::Some(d), ratio)),
        rat_eq(
            opt_term(Option::Some(d), ratio),
            rat(dec_mant(d) * factor, UNITS_PER_DEGREE_TOP as int),
        ),
        rat_wf(dec_rat(d)),
        ratio == 1 ==> rat_eq(dec_rat(d), rat(dec_mant(d) * factor, UNITS_PER_DEGREE_TOP as int)),
{
    let p = pow10(d.fp.len()) as int;
    assert(p >= 1);
    assert(p * ratio > 0) by (nonlinear_arith)
        requires
            p >= 1,
            ratio > 0,
    ;
    let lhs = opt_term(Option::Some(d), ratio);
    assert(lhs == rat(dec_mant(d) * 1, p * ratio));
    assert(dec_mant(d) * 1 == dec_mant(d));
    assert(lhs == Rat { n: dec_mant(d), d: p * ratio });
    assert(dec_mant(d) * (UNITS_PER_DEGREE_TOP as int) == (dec_mant(d) * factor) * (p * ratio)) by (
    nonlinear_arith)
        requires
            factor * (ratio * p) == UNITS_PER_DEGREE_TOP as int,
    ;
    if ratio == 1 {
        assert(dec_rat(d) == Rat { n: dec_mant(d), d: p });
        assert(dec_mant(d) * (UNITS_PER_DEGREE_TOP as int) == (dec_mant(d) * factor) * p) by (
        nonlinear_arith)
            requires
                factor * (ratio * p) == UNITS_PER_DEGREE_TOP as int,
                ratio == 1,
        ;
    }
}

/// Adding two rationals that both equal `n / k` forms keeps the common
/// denominator.
proof fn lemma_rat_add_same_den(a: Rat, b: Rat, na: int, nb: int, k: int)
    requires
        a.d > 0,
        b.d > 0,
        k > 0,
        rat_eq(a, Rat { n: na, d: k }),
        rat_eq(b, Rat { n: nb, d: k }),
    ensures
        rat_add(a, b).d > 0,
        rat_eq(rat_add(a, b), Rat { n: na + nb, d: k }),
{
    assert(a.d * b.d > 0) by (nonlinear_arith)
        requires
            a.d > 0,
            b.d > 0,
    ;
    assert((a.n * b.d + b.n * a.d) * k == (na + nb) * (a.d * b.d)) by (nonlinear_arith)
        requires
            a.n * k == na * a.d,
            b.n * k == nb * b.d,
    ;
}

/// Turns a parsed capture into the canonical angle it denotes: the weighted
/// sum of the groups, brought to the finest scale and normalized.
fn axis_to_angle(r: &RawAxis, Ghost(g): Ghost<AxisGroups>) -> (ang: Angle)
    requires
        raw_rep(*r, g),
    ensures
        ang.inv(),
        rat_wf(axis_value(axis_trunc(g, FRAC_DIGITS_KEPT as nat))),
        rat_eq(ang.value(), axis_value(axis_trunc(g, FRAC_DIGITS_KEPT as nat))),
{
    proof {
        lemma_pow10_values();
    }
    let ghost tg = axis_trunc(g, FRAC_DIGITS_KEPT as nat);
    let ghost top = UNITS_PER_DEGREE_TOP as int;

    // Degrees: weight 1, factor 36 * 10^(14 - flen).
    let degf: u64 = 36 * pow10_u64(14 - r.deg.flen);
    proof {
        lemma_pow10_mono((14 - r.deg.flen) as nat, 14);
        lemma_pow10_adds(r.deg.flen as nat, (14 - r.deg.flen) as nat);
    }
    let deg_t: u64 = {
        proof {
            assert(r.deg.mant * degf < 3_600_000_000_000_000_000) by (nonlinear_arith)
                requires
                    r.deg.mant < pow10(3) * pow10(r.deg.flen as nat),
                    pow10(3) == 1000,
                    degf == 36 * pow10((14 - r.deg.flen) as nat),
                    pow10(r.deg.flen as nat) * pow10((14 - r.deg.flen) as nat) == pow10(14),
                    pow10(14) == 100000000000000,
            ;
            assert((degf as int) * (1 * pow10(tg.deg.fp.len())) == top) by (nonlinear_arith)
                requires
                    degf == 36 * pow10((14 - r.deg.flen) as nat),
                    tg.deg.fp.len() == r.deg.flen,
                    pow10(r.deg.flen as nat) * pow10((14 - r.deg.flen) as nat) == pow10(14),
                    pow10(14) == 100000000000000,
                    top == 3_600_000_000_000_000,
            ;
            lemma_group_scaled(tg.deg, 1, degf as int);
        }
        r.deg.mant * degf
    };

    // Minutes: weight 1/60, factor 6 * 10^(13 - flen).
    let min_t: u64 = match &r.min {
        Option::Some(m) => {
            let mf: u64 = 6 * pow10_u64(13 - m.flen);
            proof {
                lemma_pow10_mono((13 - m.flen) as nat, 13);
                lemma_pow10_adds(m.flen as nat, (13 - m.flen) as nat);
                assert(m.mant * mf < 6_000_000_000_000_000) by (nonlinear_arith)
                    requires
                        m.mant < pow10(2) * pow10(m.flen as nat),
                        pow10(2) == 100,
                        mf == 6 * pow10((13 - m.flen) as nat),
                        pow10(m.flen as nat) * pow10((13 - m.flen) as nat) == pow10(13),
                        pow10(13) == 10000000000000,
                ;
                assert((mf as int) * (60 * pow10(tg.min->Some_0.fp.len())) == top) by (
                nonlinear_arith)
                    requires
                        mf == 6 * pow10((13 - m.flen) as nat),
                        tg.min->Some_0.fp.len() == m.flen,
                        pow10(m.flen as nat) * pow10((13 - m.flen) as nat) == pow10(13),
                        pow10(13) == 10000000000000,
                        top == 3_600_000_000_000_000,
                ;
                lemma_group_scaled(tg.min->Some_0, 60, mf as int);
            }
            m.mant * mf
        },
        Option::None => 0,
    };

    // Seconds: weight 1/3600, factor 10^(12 - flen).
    let sec_t: u64 = match &r.sec {
        Option::Some(m) => {
            let sf: u64 = pow10_u64(12 - m.flen);
            proof {
                lemma_pow10_mono((12 - m.flen) as nat, 12);
                lemma_pow10_adds(m.flen as nat, (12 - m.flen) as nat);
                assert(m.mant * sf < 100_000_000_000_000) by (nonlinear_arith)
                    requires
                        m.mant < pow10(2) * pow10(m.flen as nat),
                        pow10(2) == 100,
                        sf == pow10((12 - m.flen) as nat),
                        pow10(m.flen as nat) * pow10((12 - m.flen) as nat) == pow10(12),
                        pow10(12) == 1000000000000,
                ;
                assert((sf as int) * (3600 * pow10(tg.sec->Some_0.fp.len())) == top) by (
                nonlinear_arith)
                    requires
                        sf == pow10((12 - m.flen) as nat),
                        tg.sec->Some_0.fp.len() == m.flen,
                        pow10(m.flen as nat) * pow10((12 - m.flen) as nat) == pow10(12),
                        pow10(12) == 1000000000000,
                        top == 3_600_000_000_000_000,
                ;
                lemma_group_scaled(tg.sec->Some_0, 3600, sf as int);
            }
            m.mant * sf
        },
        Option::None => 0,
    };

    // Hundredths of a second: weight 1/360000, factor 10^10.
    let csec_t: u64 = match &r.csec {
        Option::Some(m) => {
            proof {
                assert(tg.csec->Some_0.fp.len() == 0);
                assert((10_000_000_000int) * (360000 * pow10(tg.csec->Some_0.fp.len())) == top);
                lemma_group_scaled(tg.csec->Some_0, 360000, 10_000_000_000int);
                assert(m.mant < 100 * pow10(0));
            }
            m.mant * 10_000_000_000
        },
        Option::None => 0,
    };

    let total: u64 = deg_t + min_t + sec_t + csec_t;
    proof {
        assert(total < DEGREE_BOUND * UNITS_PER_DEGREE_TOP);
        // The three lesser terms and the degree term, summed over the common
        // denominator.
        let ghost t_min = opt_term(tg.min, 60);
        let ghost t_sec = opt_term(tg.sec, 3600);
        let ghost t_csec = opt_term(tg.csec, 360000);
        if r.min is None {
            assert(g.min is None);
            assert(t_min == rat_int(0));
            assert(min_t == 0);
            assert(rat_eq(t_min, Rat { n: min_t as int, d: top })) by {
                assert(t_min.n == 0 && t_min.d == 1);
                assert(t_min.n * top == 0) by (nonlinear_arith)
                    requires
                        t_min.n == 0,
                ;
            }
        }
        if r.sec is None {
            assert(g.sec is None);
            assert(t_sec == rat_int(0));
            assert(sec_t == 0);
            assert(rat_eq(t_sec, Rat { n: sec_t as int, d: top })) by {
                assert(t_sec.n == 0 && t_sec.d == 1);
                assert(t_sec.n * top == 0) by (nonlinear_arith)
                    requires
                        t_sec.n == 0,
                ;
            }
        }
        if r.csec is None {
            assert(g.csec is None);
            assert(t_csec == rat_int(0));
            assert(csec_t == 0);
            assert(rat_eq(t_csec, Rat { n: csec_t as int, d: top })) by {
                assert(t_csec.n == 0 && t_csec.d == 1);
                assert(t_csec.n * top == 0) by (nonlinear_arith)
                    requires
                        t_csec.n == 0,
                ;
            }
        }
        lemma_rat_add_same_den(t_sec, t_csec, sec_t as int, csec_t as int, top);
        lemma_rat_add_same_den(
            t_min,
            rat_add(t_sec, t_csec),
            min_t as int,
            sec_t + csec_t,
            top,
        );
        lemma_rat_add_same_den(
            dec_rat(tg.deg),
            rat_add(t_min, rat_add(t_sec, t_csec)),
            deg_t as int,
            min_t + sec_t + csec_t,
            top,
        );
        lemma_rat_sign(
            rat_add(dec_rat(tg.deg), rat_add(t_min, rat_add(t_sec, t_csec))),
            tg.sign,
            total as int,
            top,
        );
    }
    let ang = Angle::from_top_units(r.neg, total);
    proof {
        let ghost signed: int = if r.neg {
            -(total as int)
        } else {
            total as int
        };
        assert(tg.sign * total == signed);
        assert(rat(signed, top) == Rat { n: signed, d: top });
        lemma_rat_eq_trans_aux(ang.value(), Rat { n: signed, d: top }, axis_value(tg));
    }
    ang
}

/// Checks `p1_at` at `[a, b)` with degree length `dl`.
fn p1_at_check(v: &Vec<char>, a: usize, b: usize, dl: usize) -> (r: bool)
    requires
        a <= b && b <= v.len(),
        dl == 2 || dl == 3,
    ensures
        r == p1_at(v@.subrange(a as int, b as int), dl as int),
{
    let ghost t = v@.subrange(a as int, b as int);
    if b - a < dl + 4 {
        return false;
    }
    let c0 = v[a];
    if !(c0 == 'N' || c0 == 'S' || c0 == 'E' || c0 == 'W') {
        return false;
    }
    if dl == 3 && !(v[a + 1] == '0' || v[a + 1] == '1') {
        return false;
    }
    proof {
        assert(t.subrange(1, 1 + dl as int) =~= v@.subrange(a + 1, a + 1 + dl));
        assert(t.subrange(1 + dl as int, 3 + dl as int) =~= v@.subrange(a + 1 + dl, a + 3 + dl));
        assert(t.skip(4 + dl as int) =~= v@.subrange(a + 4 + dl, b as int));
    }
    if !all_digits_in(v, a + 1, a + 1 + dl) {
        return false;
    }
    if !all_digits_in(v, a + 1 + dl, a + 3 + dl) {
        return false;
    }
    if v[a + 3 + dl] != '.' {
        return false;
    }
    if !all_digits_in(v, a + 4 + dl, b) {
        return false;
    }
    true
}

/// Checks `p2_at` at `[a, b)` with degree length `dl`.
fn p2_at_check(v: &Vec<char>, a: usize, b: usize, dl: usize) -> (r: bool)
    requires
        a <= b && b <= v.len(),
        dl == 2 || dl == 3,
    ensures
        r == p2_at(v@.subrange(a as int, b as int), dl as int),
{
    let ghost t = v@.subrange(a as int, b as int);
    if b - a < dl + 6 {
        return false;
    }
    let c0 = v[a];
    if !(c0 == 'N' || c0 == 'S' || c0 == 'E' || c0 == 'W') {
        return false;
    }
    if dl == 3 && !(v[a + 1] == '0' || v[a + 1] == '1') {
        return false;
    }
    proof {
        assert(t.subrange(1, 1 + dl as int) =~= v@.subrange(a + 1, a + 1 + dl));
        assert(t.subrange(1 + dl as int, 3 + dl as int) =~= v@.subrange(a + 1 + dl, a + 3 + dl));
        assert(t.subrange(3 + dl as int, 5 + dl as int) =~= v@.subrange(a + 3 + dl, a + 5 + dl));
        assert(t.skip(6 + dl as int) =~= v@.subrange(a + 6 + dl, b as int));
    }
    if !all_digits_in(v, a + 1, a + 1 + dl) {
        return false;
    }
    if !all_digits_in(v, a + 1 + dl, a + 3 + dl) {
        return false;
    }
    if !all_digits_in(v, a + 3 + dl, a + 5 + dl) {
        return false;
    }
    if v[a + 5 + dl] != '.' {
        return false;
    }
    if !all_digits_in(v, a + 6 + dl, b) {
        return false;
    }
    true
}

/// Checks `p3_at` at `[a, b)` with degree length `dl`.
fn p3_at_check(v: &Vec<char>, a: usize, b: usize, dl: usize) -> (r: bool)
    requires
        a <= b && b <= v.len(),
        dl == 2 || dl == 3,
    ensures
        r == p3_at(v@.subrange(a as int, b as int), dl as int),
{
    let ghost t = v@.subrange(a as int, b as int);
    if b - a != dl + 7 {
        return false;
    }
    let c0 = v[a];
    if !(c0 == 'N' || c0 == 'S' || c0 == 'E' || c0 == 'W') {
        return false;
    }
    if dl == 3 && !(v[a + 1] == '0' || v[a + 1] == '1') {
        return false;
    }
    proof {
        assert(t.subrange(1, 1 + dl as int) =~= v@.subrange(a + 1, a + 1 + dl));
        assert(t.subrange(1 + dl as int, 3 + dl as int) =~= v@.subrange(a + 1 + dl, a + 3 + dl));
        assert(t.subrange(3 + dl as int, 5 + dl as int) =~= v@.subrange(a + 3 + dl, a + 5 + dl));
        assert(t.subrange(5 + dl as int, 7 + dl as int) =~= v@.subrange(a + 5 + dl, a + 7 + dl));
    }
    if !all_digits_in(v, a + 1, a + 1 + dl) {
        return false;
    }
    if !all_digits_in(v, a + 1 + dl, a + 3 + dl) {
        return false;
    }
    if !all_digits_in(v, a + 3 + dl, a + 5 + dl) {
        return false;
    }
    if !all_digits_in(v, a + 5 + dl, a + 7 + dl) {
        return false;
    }
    true
}

/// Checks `p4_at` at `[a, b)` with degree length `dl`.
fn p4_at_check(v: &Vec<char>, a: usize, b: usize, dl: usize) -> (r: bool)
    requires
        a <= b && b <= v.len(),
        dl == 2 || dl == 3,
    ensures
        r == p4_at(v@.subrange(a as int, b as int), dl as int),
{
    let ghost t = v@.subrange(a as int, b as int);
    if b - a != dl + 5 {
        return false;
    }
    let c0 = v[a];
    if !(c0 == 'N' || c0 == 'S' || c0 == 'E' || c0 == 'W') {
        return false;
    }
    if dl == 3 && !(v[a + 1] == '0' || v[a + 1] == '1') {
        return false;
    }
    proof {
        assert(t.subrange(1, 1 + dl as int) =~= v@.subrange(a + 1, a + 1 + dl));
        assert(t.subrange(1 + dl as int, 3 + dl as int) =~= v@.subrange(a + 1 + dl, a + 3 + dl));
        assert(t.subrange(3 + dl as int, 5 + dl as int) =~= v@.subrange(a + 3 + dl, a + 5 + dl));
    }
    if !all_digits_in(v, a + 1, a + 1 + dl) {
        return false;
    }
    if !all_digits_in(v, a + 1 + dl, a + 3 + dl) {
        return false;
    }
    if !all_digits_in(v, a + 3 + dl, a + 5 + dl) {
        return false;
    }
    true
}

/// Checks `p5_match` at `[a, b)`.
fn p5_check(v: &Vec<char>, a: usize, b: usize) -> (r: bool)
    requires
        a <= b && b <= v.len(),
    ensures
        r == p5_match(v@.subrange(a as int, b as int)),
{
    let ghost t = v@.subrange(a as int, b as int);
    if b - a != 14 {
        return false;
    }
    let c0 = v[a];
    if !(c0 == 'N' || c0 == 'S' || c0 == 'E' || c0 == 'W') {
        return false;
    }
    proof {
        assert(t.subrange(1, 4) =~= v@.subrange(a + 1, a + 4));
        assert(t.subrange(5, 7) =~= v@.subrange(a + 5, a + 7));
        assert(t.subrange(8, 10) =~= v@.subrange(a + 8, a + 10));
        assert(t.subrange(11, 14) =~= v@.subrange(a + 11, a + 14));
    }
    if !all_digits_in(v, a + 1, a + 4) {
        return false;
    }
    if v[a + 4] != '.' {
        return false;
    }
    if !all_digits_in(v, a + 5, a + 7) {
        return false;
    }
    if v[a + 7] != '.' {
        return false;
    }
    if !all_digits_in(v, a + 8, a + 10) {
        return false;
    }
    if v[a + 10] != '.' {
        return false;
    }
    if !all_digits_in(v, a + 11, a + 14) {
        return false;
    }
    true
}

/// Checks `p6_at` at `[a, b)` with degree length `dl`.
fn p6_at_check(v: &Vec<char>, a: usize, b: usize, dl: usize) -> (r: bool)
    requires
        a <= b && b <= v.len(),
        dl == 2 || dl == 3,
    ensures
        r == p6_at(v@.subrange(a as int, b as int), dl as int),
{
    let ghost t = v@.subrange(a as int, b as int);
    if b - a < dl + 6 {
        return false;
    }
    let c0 = v[a];
    if !(c0 == 'N' || c0 == 'S' || c0 == 'E' || c0 == 'W') {
        return false;
    }
    if v[a + 1] != ' ' {
        return false;
    }
    if dl == 3 && !(v[a + 2] == '0' || v[a + 2] == '1') {
        return false;
    }
    proof {
        assert(t.subrange(2, 2 + dl as int) =~= v@.subrange(a + 2, a + 2 + dl));
        assert(t.subrange(3 + dl as int, 5 + dl as int) =~= v@.subrange(a + 3 + dl, a + 5 + dl));
        assert(t.skip(6 + dl as int) =~= v@.subrange(a + 6 + dl, b as int));
    }
    if !all_digits_in(v, a + 2, a + 2 + dl) {
        return false;
    }
    if v[a + 2 + dl] != ' ' {
        return false;
    }
    if !all_digits_in(v, a + 3 + dl, a + 5 + dl) {
        return false;
    }
    if v[a + 5 + dl] != '.' {
        return false;
    }
    if !all_digits_in(v, a + 6 + dl, b) {
        return false;
    }
    true
}

/// Checks `p7_at` at `[a, b)` with integer length `il`.
fn p7_at_check(v: &Vec<char>, a: usize, b: usize, il: usize) -> (r: bool)
    requires
        a <= b && b <= v.len(),
        il == 2 || il == 3,
    ensures
        r == p7_at(v@.subrange(a as int, b as int), il as int),
{
    let ghost t = v@.subrange(a as int, b as int);
    let sl: usize = if b - a >= 1 && (v[a] == '+' || v[a] == '-') {
        1
    } else {
        0
    };
    proof {
        assert(sl as int == p7_sign_len(t));
    }
    if b - a < sl + il + 1 {
        return false;
    }
    proof {
        assert(t.subrange(sl as int, (sl + il) as int) =~= v@.subrange(a + sl, a + sl + il));
        assert(t.skip((sl + il + 1) as int) =~= v@.subrange(a + sl + il + 1, b as int));
    }
    if !all_digits_in(v, a + sl, a + sl + il) {
        return false;
    }
    if v[a + sl + il] != '.' {
        return false;
    }
    if !all_digits_in(v, a + sl + il + 1, b) {
        return false;
    }
    true
}

/// Matches the characters at `[a, b)` against the single-axis grammar and
/// returns the denoted angle: the patterns are tried in priority order and
/// the first structural match wins.
#[verifier::rlimit(100)]
pub(crate) fn parse_axis(v: &Vec<char>, a: usize, b: usize) -> (res: Option<Angle>)
    requires
        a <= b && b <= v.len(),
    ensures
        ({
            let t = v@.subrange(a as int, b as int);
            &&& (res is Some <==> axis_match(t) is Some)
            &&& (axis_match(t) matches Option::Some(g) ==> {
                &&& res->Some_0.inv()
                &&& rat_wf(axis_value(axis_trunc(g, FRAC_DIGITS_KEPT as nat)))
                &&& rat_eq(res->Some_0.value(), axis_value(axis_trunc(g, FRAC_DIGITS_KEPT as nat)))
                &&& (axis_short(g, FRAC_DIGITS_KEPT as nat) ==> rat_eq(
                    res->Some_0.value(),
                    axis_value(g),
                ))
            })
        }),
{
    let ghost t = v@.subrange(a as int, b as int);
    let res: Option<Angle> = if p1_at_check(v, a, b, 3) || p1_at_check(v, a, b, 2) {
        let dl: usize = if p1_at_check(v, a, b, 3) {
            3
        } else {
            2
        };
        let ghost g = p1_groups(t);
        let neg = v[a] == 'S' || v[a] == 'W';
        proof {
            assert(t[0] == v@[a as int]);
            assert(g.deg.ip =~= v@.subrange(a + 1, a + 1 + dl));
            assert(g.deg.fp =~= v@.subrange(a + 1 + dl, a + 1 + dl));
            assert(g.min->Some_0.ip =~= v@.subrange(a + 1 + dl, a + 3 + dl));
            assert(g.min->Some_0.fp =~= v@.subrange(a + 4 + dl, b as int));
        }
        let deg = read_group(v, a + 1, a + 1 + dl, a + 1 + dl, a + 1 + dl, Ghost(g.deg));
        let min = read_group(v, a + 1 + dl, a + 3 + dl, a + 4 + dl, b, Ghost(g.min->Some_0));
        let raw = RawAxis {
            neg,
            deg,
            min: Option::Some(min),
            sec: Option::None,
            csec: Option::None,
        };
        proof {
            assert(raw_rep(raw, g));
        }
        Option::Some(axis_to_angle(&raw, Ghost(g)))
    } else if p2_at_check(v, a, b, 3) || p2_at_check(v, a, b, 2) {
        let dl: usize = if p2_at_check(v, a, b, 3) {
            3
        } else {
            2
        };
        let ghost g = p2_groups(t);
        let neg = v[a] == 'S' || v[a] == 'W';
        proof {
            assert(t[0] == v@[a as int]);
            assert(g.deg.ip =~= v@.subrange(a + 1, a + 1 + dl));
            assert(g.deg.fp =~= v@.subrange(a + 1 + dl, a + 1 + dl));
            assert(g.min->Some_0.ip =~= v@.subrange(a + 1 + dl, a + 3 + dl));
            assert(g.min->Some_0.fp =~= v@.subrange(a + 3 + dl, a + 3 + dl));
            assert(g.sec->Some_0.ip =~= v@.subrange(a + 3 + dl, a + 5 + dl));
            assert(g.sec->Some_0.fp =~= v@.subrange(a + 6 + dl, b as int));
        }
        let deg = read_group(v, a + 1, a + 1 + dl, a + 1 + dl, a + 1 + dl, Ghost(g.deg));
        let min = read_group(
            v,
            a + 1 + dl,
            a + 3 + dl,
            a + 3 + dl,
            a + 3 + dl,
            Ghost(g.min->Some_0),
        );
        let sec = read_group(v, a + 3 + dl, a + 5 + dl, a + 6 + dl, b, Ghost(g.sec->Some_0));
        let raw = RawAxis {
            neg,
            deg,
            min: Option::Some(min),
            sec: Option::Some(sec),
            csec: Option::None,
        };
        proof {
            assert(raw_rep(raw, g));
        }
        Option::Some(axis_to_angle(&raw, Ghost(g)))
    } else if p3_at_check(v, a, b, 3) || p3_at_check(v, a, b, 2) {
        let dl: usize = if p3_at_check(v, a, b, 3) {
            3
        } else {
            2
        };
        let ghost g = p3_groups(t);
        let neg = v[a] == 'S' || v[a] == 'W';
        proof {
            assert(t[0] == v@[a as int]);
            assert(g.deg.ip =~= v@.subrange(a + 1, a + 1 + dl));
            assert(g.deg.fp =~= v@.subrange(a + 1 + dl, a + 1 + dl));
            assert(g.min->Some_0.ip =~= v@.subrange(a + 1 + dl, a + 3 + dl));
            assert(g.min->Some_0.fp =~= v@.subrange(a + 3 + dl, a + 3 + dl));
            assert(g.sec->Some_0.ip =~= v@.subrange(a + 3 + dl, a + 5 + dl));
            assert(g.sec->Some_0.fp =~= v@.subrange(a + 5 + dl, a + 5 + dl));
            assert(g.csec->Some_0.ip =~= v@.subrange(a + 5 + dl, a + 7 + dl));
            assert(g.csec->Some_0.fp =~= v@.subrange(a + 7 + dl, a + 7 + dl));
        }
        let deg = read_group(v, a + 1, a + 1 + dl, a + 1 + dl, a + 1 + dl, Ghost(g.deg));
        let min = read_group(
            v,
            a + 1 + dl,
            a + 3 + dl,
            a + 3 + dl,
            a + 3 + dl,
            Ghost(g.min->Some_0),
        );
        let sec = read_group(
            v,
            a + 3 + dl,
            a + 5 + dl,
            a + 5 + dl,
            a + 5 + dl,
            Ghost(g.sec->Some_0),
        );
        let csec = read_group(
            v,
            a + 5 + dl,
            a + 7 + dl,
            a + 7 + dl,
            a + 7 + dl,
            Ghost(g.csec->Some_0),
        );
        let raw = RawAxis {
            neg,
            deg,
            min: Option::Some(min),
            sec: Option::Some(sec),
            csec: Option::Some(csec),
        };
        proof {
            assert(raw_rep(raw, g));
        }
        Option::Some(axis_to_angle(&raw, Ghost(g)))
    } else if p4_at_check(v, a, b, 3) || p4_at_check(v, a, b, 2) {
        let dl: usize = if p4_at_check(v, a, b, 3) {
            3
        } else {
            2
        };
        let ghost g = p4_groups(t);
        let neg = v[a] == 'S' || v[a] == 'W';
        proof {
            assert(t[0] == v@[a as int]);
            assert(g.deg.ip =~= v@.subrange(a + 1, a + 1 + dl));
            assert(g.deg.fp =~= v@.subrange(a + 1 + dl, a + 1 + dl));
            assert(g.min->Some_0.ip =~= v@.subrange(a + 1 + dl, a + 3 + dl));
            assert(g.min->Some_0.fp =~= v@.subrange(a + 3 + dl, a + 3 + dl));
            assert(g.sec->Some_0.ip =~= v@.subrange(a + 3 + dl, a + 5 + dl));
            assert(g.sec->Some_0.fp =~= v@.subrange(a + 5 + dl, a + 5 + dl));
        }
        let deg = read_group(v, a + 1, a + 1 + dl, a + 1 + dl, a + 1 + dl, Ghost(g.deg));
        let min = read_group(
            v,
            a + 1 + dl,
            a + 3 + dl,
            a + 3 + dl,
            a + 3 + dl,
            Ghost(g.min->Some_0),
        );
        let sec = read_group(
            v,
            a + 3 + dl,
            a + 5 + dl,
            a + 5 + dl,
            a + 5 + dl,
            Ghost(g.sec->Some_0),
        );
        let raw = RawAxis {
            neg,
            deg,
            min: Option::Some(min),
            sec: Option::Some(sec),
            csec: Option::None,
        };
        proof {
            assert(raw_rep(raw, g));
        }
        Option::Some(axis_to_angle(&raw, Ghost(g)))
    } else if p5_check(v, a, b) {
        let ghost g = p5_groups(t);
        let neg = v[a] == 'S' || v[a] == 'W';
        proof {
            assert(t[0] == v@[a as int]);
            assert(g.deg.ip =~= v@.subrange(a + 1, a + 4));
            assert(g.deg.fp =~= v@.subrange(a + 4, a + 4));
            assert(g.min->Some_0.ip =~= v@.subrange(a + 5, a + 7));
            assert(g.min->Some_0.fp =~= v@.subrange(a + 7, a + 7));
            assert(g.sec->Some_0.ip =~= v@.subrange(a + 8, a + 10));
            assert(g.sec->Some_0.fp =~= v@.subrange(a + 11, a + 14));
        }
        let deg = read_group(v, a + 1, a + 4, a + 4, a + 4, Ghost(g.deg));
        let min = read_group(v, a + 5, a + 7, a + 7, a + 7, Ghost(g.min->Some_0));
        let sec = read_group(v, a + 8, a + 10, a + 11, a + 14, Ghost(g.sec->Some_0));
        let raw = RawAxis {
            neg,
            deg,
            min: Option::Some(min),
            sec: Option::Some(sec),
            csec: Option::None,
        };
        proof {
            assert(raw_rep(raw, g));
        }
        Option::Some(axis_to_angle(&raw, Ghost(g)))
    } else if p6_at_check(v, a, b, 3) || p6_at_check(v, a, b, 2) {
        let dl: usize = if p6_at_check(v, a, b, 3) {
            3
        } else {
            2
        };
        let ghost g = p6_groups(t);
        let neg = v[a] == 'S' || v[a] == 'W';
        proof {
            assert(t[0] == v@[a as int]);
            assert(g.deg.ip =~= v@.subrange(a + 2, a + 2 + dl));
            assert(g.deg.fp =~= v@.subrange(a + 2 + dl, a + 2 + dl));
            assert(g.min->Some_0.ip =~= v@.subrange(a + 3 + dl, a + 5 + dl));
            assert(g.min->Some_0.fp =~= v@.subrange(a + 6 + dl, b as int));
        }
        let deg = read_group(v, a + 2, a + 2 + dl, a + 2 + dl, a + 2 + dl, Ghost(g.deg));
        let min = read_group(v, a + 3 + dl, a + 5 + dl, a + 6 + dl, b, Ghost(g.min->Some_0));
        let raw = RawAxis {
            neg,
            deg,
            min: Option::Some(min),
            sec: Option::None,
            csec: Option::None,
        };
        proof {
            assert(raw_rep(raw, g));
        }
        Option::Some(axis_to_angle(&raw, Ghost(g)))
    } else if p7_at_check(v, a, b, 3) || p7_at_check(v, a, b, 2) {
        let il: usize = if p7_at_check(v, a, b, 3) {
            3
        } else {
            2
        };
        let ghost g = p7_groups(t);
        let sl: usize = if v[a] == '+' || v[a] == '-' {
            1
        } else {
            0
        };
        let neg = sl == 1 && v[a] == '-';
        proof {
            assert(t[0] == v@[a as int]);
            assert(sl as int == p7_sign_len(t));
            assert(g.deg.ip =~= v@.subrange(a + sl, a + sl + il));
            assert(g.deg.fp =~= v@.subrange(a + sl + il + 1, b as int));
        }
        let deg = read_group(v, a + sl, a + sl + il, a + sl + il + 1, b, Ghost(g.deg));
        let raw = RawAxis {
            neg,
            deg,
            min: Option::None,
            sec: Option::None,
            csec: Option::None,
        };
        proof {
            assert(raw_rep(raw, g));
        }
        Option::Some(axis_to_angle(&raw, Ghost(g)))
    } else {
        Option::None
    };
    proof {
        if axis_match(t) is Some {
            let g = axis_match(t)->Some_0;
            if axis_short(g, FRAC_DIGITS_KEPT as nat) {
                lemma_axis_trunc_id(g, FRAC_DIGITS_KEPT as nat);
            }
        }
    }
    res
}

/// Whether the characters hold a line break.
fn has_newline(v: &Vec<char>) -> (r: bool)
    ensures
        r == !no_newline(v@),
{
    let mut i: usize = 0;
    while i < v.len()
        invariant
            i <= v.len(),
            forall|j: int| 0 <= j < i ==> (#[trigger] v@[j]) != '\n',
        decreases v.len() - i,
    {
        if v[i] == '\n' {
            return true;
        }
        i = i + 1;
    }
    false
}

/// Finds the hemisphere-pair split position, scanning from position 1.
fn find_ew_split(v: &Vec<char>) -> (r: Option<usize>)
    ensures
        ({
            let m = ew_split(v@, 1);
            &&& (r is Some <==> m is Some)
            &&& (r is Some ==> r->Some_0 as int == m->Some_0 && r->Some_0 < v.len())
        }),
{
    let n = v.len();
    let mut t: usize = 1;
    while t < n
        invariant
            1 <= t,
            n == v.len(),
            ew_split(v@, 1) == ew_split(v@, t as int),
        decreases n - t,
    {
        let c = v[t];
        if c == 'E' || c == 'W' {
            return Option::Some(t);
        }
        if c == ' ' && t + 1 < n {
            let c2 = v[t + 1];
            if c2 == 'E' || c2 == 'W' {
                return Option::Some(t);
            }
        }
        t = t + 1;
    }
    Option::None
}

/// Finds the first position from `from` on holding `c`.
fn find_char_from(v: &Vec<char>, c: char, from: usize) -> (r: Option<usize>)
    ensures
        ({
            let m = first_at(v@, c, from as int);
            &&& (r is Some <==> m is Some)
            &&& (r is Some ==> r->Some_0 as int == m->Some_0 && r->Some_0 < v.len())
        }),
{
    let n = v.len();
    let mut t: usize = from;
    while t < n
        invariant
            from <= t,
            n == v.len(),
            first_at(v@, c, from as int) == first_at(v@, c, t as int),
        decreases n - t,
    {
        if v[t] == c {
            return Option::Some(t);
        }
        t = t + 1;
    }
    Option::None
}

/// Counts the occurrences of `c`.
fn count_char_in(v: &Vec<char>, c: char) -> (r: usize)
    ensures
        r == count_char(v@, c),
{
    let mut cnt: usize = 0;
    let mut i: usize = 0;
    while i < v.len()
        invariant
            i <= v.len(),
            cnt <= i,
            cnt == count_char(v@.subrange(0, i as int), c),
        decreases v.len() - i,
    {
        proof {
            assert(v@.subrange(0, i + 1).drop_last() =~= v@.subrange(0, i as int));
            assert(v@.subrange(0, i + 1).last() == v@[i as int]);
        }
        if v[i] == c {
            cnt = cnt + 1;
        }
        i = i + 1;
    }
    proof {
        assert(v@.subrange(0, v.len() as int) =~= v@);
    }
    cnt
}

/// Splits a full coordinate string into its latitude part `[r.0, r.1)` and
/// longitude part `[r.2, r.3)`, by the combined grammar.
pub(crate) fn split_combined(v: &Vec<char>) -> (r: Option<(usize, usize, usize, usize)>)
    ensures
        ({
            let m = combined_match(v@);
            &&& (r is Some <==> m is Some)
            &&& (r matches Option::Some(q) ==> {
                &&& q.0 <= q.1 <= v.len()
                &&& q.2 <= q.3 <= v.len()
                &&& m->Some_0.0 == v@.subrange(q.0 as int, q.1 as int)
                &&& m->Some_0.1 == v@.subrange(q.2 as int, q.3 as int)
            })
        }),
{
    let n = v.len();
    // Hemisphere pair, tried first.
    if n >= 1 && (v[0] == 'N' || v[0] == 'S') && !has_newline(v) {
        match find_ew_split(v) {
            Option::Some(t) => {
                let q = if v[t] == ' ' {
                    (0usize, t, t + 1, n)
                } else {
                    (0usize, t, t, n)
                };
                proof {
                    assert(v@.take(t as int) =~= v@.subrange(0, t as int));
                    assert(v@.skip(t as int) =~= v@.subrange(t as int, n as int));
                    assert(v@.skip(t + 1) =~= v@.subrange(t + 1, n as int));
                }
                return Option::Some(q);
            },
            Option::None => {
                proof {
                    assert(combined_hemi(v@) is None);
                }
            },
        }
    }
    // Comma split.
    if !has_newline(v) {
        match find_char_from(v, ',', 0) {
            Option::Some(p) => {
                proof {
                    assert(v@.take(p as int) =~= v@.subrange(0, p as int));
                    assert(v@.skip(p + 1) =~= v@.subrange(p + 1, n as int));
                }
                return Option::Some((0usize, p, p + 1, n));
            },
            Option::None => {},
        }
    }
    // Single-space split.
    if count_char_in(v, ' ') == 1 {
        match find_char_from(v, ' ', 0) {
            Option::Some(p) => {
                proof {
                    assert(v@.take(p as int) =~= v@.subrange(0, p as int));
                    assert(v@.skip(p + 1) =~= v@.subrange(p + 1, n as int));
                }
                return Option::Some((0usize, p, p + 1, n));
            },
            Option::None => {},
        }
    }
    Option::None
}

/// Multiplying by a sign of `1` or `-1` signs the numerator.
proof fn lemma_rat_sign(v: Rat, s: int, n: int, k: int)
    requires
        v.d > 0,
        k > 0,
        s == 1 || s == -1,
        rat_eq(v, Rat { n: n, d: k }),
    ensures
        rat_mul(rat_int(s), v).d > 0,
        rat_eq(rat_mul(rat_int(s), v), Rat { n: s * n, d: k }),
{
    assert(rat_mul(rat_int(s), v) == Rat { n: s * v.n, d: 1 * v.d });
    assert((s * v.n) * k == (s * n) * (1 * v.d)) by (nonlinear_arith)
        requires
            v.n * k == n * v.d,
            s == 1 || s == -1,
    ;
}

} // verus!
