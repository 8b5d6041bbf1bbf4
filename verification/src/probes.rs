//! The metric probes.  Each turns plain sampled values into one
//! renderable block; the system reads that produce those values (the
//! load-average query, the per-core temperature lookup, the clock)
//! happen outside the library.
//!
//! Scaled-integer models: a load average is carried in thousandths of
//! a unit, a raw core temperature in the platform's tenth-of-a-Kelvin
//! encoding (Celsius tenths are `raw - 2731`).

use vstd::prelude::*;
use vstd::arithmetic::div_mod::lemma_fundamental_div_mod;
use vstd::arithmetic::div_mod::lemma_multiply_divide_lt;
use crate::color::color;
use crate::color::color_text;
use crate::color::red_text;
use crate::color::white_text;
use crate::fmt::all_digits;
use crate::fmt::dec_digits;
use crate::fmt::dec_string;
use crate::fmt::digit_char;
use crate::fmt::is_digit;
use crate::fmt::lemma_dec_digits_shape;
use crate::fmt::pad2;
use crate::fmt::pad2_string;
use crate::fmt::pad4;
use crate::fmt::pad4_string;
use crate::model::wf_block;
use crate::model::wf_text;
use crate::model::I3BarBlock;

verus! {

/// The 1-minute load average, in thousandths, above which the load
/// block turns red (strictly greater than 4.000 triggers).
pub const LOAD_RED_OVER: u32 = 4000;

// ------------------------------------------------------------------
// Load-average probe
// ------------------------------------------------------------------

/// A load value in thousandths, rounded to hundredths (nearest, ties
/// up), as displayed with two decimals.
pub open spec fn round_hundredths(l: nat) -> nat {
    (l + 5) / 10
}

/// A count of hundredths rendered as `digits.dd`.
pub open spec fn hundredths_text(h: nat) -> Seq<char> {
    dec_digits(h / 100) + seq!['.'] + pad2(h % 100)
}

/// One load figure's rendering: thousandths rounded to hundredths,
/// two decimals.
pub open spec fn load_text(l: nat) -> Seq<char> {
    hundredths_text(round_hundredths(l))
}

/// The load block's text: the three figures, colon separated, in
/// 1-, 5-, 15-minute order.
pub open spec fn loadavg_text(l1: nat, l5: nat, l15: nat) -> Seq<char> {
    load_text(l1) + seq![':'] + load_text(l5) + seq![':'] + load_text(l15)
}

/// True of every character a load or temperature text is built from.
spec fn plain_char(c: char) -> bool {
    c != '"' && c != '\\' && c as int >= 32
}

proof fn lemma_digit_chars_plain()
    ensures
        forall|x: int| plain_char(#[trigger] digit_char(x)),
{
}

proof fn lemma_hundredths_text_wf(h: nat)
    ensures
        wf_text(hundredths_text(h)),
        hundredths_text(h).len() >= 4,
{
    lemma_dec_digits_shape(h / 100);
    assert forall|i: int| 0 <= i < hundredths_text(h).len() implies plain_char(
        #[trigger] hundredths_text(h)[i],
    ) by {
        let s = hundredths_text(h);
        let d = dec_digits(h / 100);
        if i < d.len() {
            assert(s[i] == d[i]);
        } else if i == d.len() {
            assert(s[i] == '.');
        } else {
            assert(s[i] == pad2(h % 100)[i - d.len() - 1]);
        }
    }
}

/// Renders one load figure.
fn load_field_string(l: u32) -> (r: String)
    ensures
        r@ == load_text(l as nat),
{
    proof {
        reveal_strlit(".");
    }
    let h: u64 = ((l as u64) + 5) / 10;
    let mut s = dec_string(h / 100);
    s.append(".");
    s.append(pad2_string(h % 100).as_str());
    proof {
        assert(s@ =~= hundredths_text(round_hundredths(l as nat)));
    }
    s
}

/// The load-average probe.  Takes the three figures in thousandths
/// (1-, 5-, 15-minute), renders them with two decimals each, and turns
/// the block red exactly when the 1-minute figure is strictly above
/// 4.000.
pub fn i3b_loadavg(l1: u32, l5: u32, l15: u32) -> (r: I3BarBlock)
    ensures
        r.full_text@ == loadavg_text(l1 as nat, l5 as nat, l15 as nat),
        r.full_text@.len() > 0,
        r.color@ == if l1 > LOAD_RED_OVER { red_text() } else { white_text() },
        (r.color@ == red_text()) <==> l1 > LOAD_RED_OVER,
        wf_block(r),
{
    proof {
        reveal_strlit(":");
        crate::color::lemma_red_ne_white();
    }
    let mut ft = load_field_string(l1);
    ft.append(":");
    ft.append(load_field_string(l5).as_str());
    ft.append(":");
    ft.append(load_field_string(l15).as_str());
    let col = if l1 > LOAD_RED_OVER {
        color(0xff, 0x00, 0x00)
    } else {
        color(0xff, 0xff, 0xff)
    };
    let r = I3BarBlock { full_text: ft, color: col.to_string() };
    proof {
        assert(r.full_text@ =~= loadavg_text(l1 as nat, l5 as nat, l15 as nat));
        lemma_loadavg_text_wf(l1 as nat, l5 as nat, l15 as nat);
        lemma_color_text_wf(col.r as nat, col.g as nat, col.b as nat);
    }
    r
}

proof fn lemma_loadavg_text_wf(l1: nat, l5: nat, l15: nat)
    ensures
        wf_text(loadavg_text(l1, l5, l15)),
{
    lemma_hundredths_text_wf(round_hundredths(l1));
    lemma_hundredths_text_wf(round_hundredths(l5));
    lemma_hundredths_text_wf(round_hundredths(l15));
    let s = loadavg_text(l1, l5, l15);
    let a = load_text(l1);
    let b = load_text(l5);
    let c = load_text(l15);
    assert forall|i: int| 0 <= i < s.len() implies plain_char(#[trigger] s[i]) by {
        if i < a.len() {
            assert(s[i] == a[i]);
        } else if i == a.len() {
            assert(s[i] == ':');
        } else if i < a.len() + 1 + b.len() {
            assert(s[i] == b[i - a.len() - 1]);
        } else if i == a.len() + 1 + b.len() {
            assert(s[i] == ':');
        } else {
            assert(s[i] == c[i - a.len() - 1 - b.len() - 1]);
        }
    }
}

proof fn lemma_color_text_wf(r: nat, g: nat, b: nat)
    ensures
        wf_text(color_text(r, g, b)),
{
    assert forall|i: int| 0 <= i < color_text(r, g, b).len() implies plain_char(
        #[trigger] color_text(r, g, b)[i],
    ) by {
        let s = color_text(r, g, b);
        assert(s.len() == 7);
        assert(s[0] == '#');
    }
}

// ------------------------------------------------------------------
// Pattern law for the load text
// ------------------------------------------------------------------

/// `s` matches `\d+\.\d{2}`: one or more digits, a dot, exactly two
/// digits.
pub open spec fn is_fixed2_text(s: Seq<char>) -> bool {
    &&& s.len() >= 4
    &&& all_digits(s.subrange(0, s.len() - 3))
    &&& s[s.len() - 3] == '.'
    &&& is_digit(s[s.len() - 2])
    &&& is_digit(s[s.len() - 1])
}

/// `s` matches `\d+\.\d{2}:\d+\.\d{2}:\d+\.\d{2}`.
pub open spec fn is_loadavg_shape(s: Seq<char>) -> bool {
    exists|a: Seq<char>, b: Seq<char>, c: Seq<char>|
        {
            &&& s == a + seq![':'] + b + seq![':'] + c
            &&& #[trigger] is_fixed2_text(a)
            &&& #[trigger] is_fixed2_text(b)
            &&& #[trigger] is_fixed2_text(c)
        }
}

proof fn lemma_load_text_fixed2(l: nat)
    ensures
        is_fixed2_text(load_text(l)),
{
    let h = round_hundredths(l);
    let s = load_text(l);
    let d = dec_digits(h / 100);
    lemma_dec_digits_shape(h / 100);
    assert(s.len() == d.len() + 3);
    assert(s.subrange(0, s.len() - 3) =~= d);
    assert(s[s.len() - 3] == '.');
    assert(s[s.len() - 2] == pad2(h % 100)[0]);
    assert(s[s.len() - 1] == pad2(h % 100)[1]);
}

/// The load block's text always matches the pattern
/// `\d+\.\d{2}:\d+\.\d{2}:\d+\.\d{2}`, whatever the three figures are.
pub proof fn lemma_loadavg_text_shape(l1: nat, l5: nat, l15: nat)
    ensures
        is_loadavg_shape(loadavg_text(l1, l5, l15)),
{
    lemma_load_text_fixed2(l1);
    lemma_load_text_fixed2(l5);
    lemma_load_text_fixed2(l15);
    let a = load_text(l1);
    let b = load_text(l5);
    let c = load_text(l15);
    assert(loadavg_text(l1, l5, l15) == a + seq![':'] + b + seq![':'] + c);
}

// ------------------------------------------------------------------
// Temperature probe
// ------------------------------------------------------------------

/// The sum of the raw per-core readings.
pub open spec fn sum_raws(s: Seq<i32>) -> int
    decreases s.len(),
{
    if s.len() == 0 {
        0
    } else {
        sum_raws(s.drop_last()) + s.last()
    }
}

/// The mean core temperature in Celsius tenths is this value divided
/// by the core count: the summed readings with the platform's offset
/// of 2731 tenths removed per core.
pub open spec fn temp_numer(s: Seq<i32>) -> int {
    sum_raws(s) - 2731 * s.len()
}

/// Division rounded to the nearest integer, ties upward.
pub open spec fn round_div(a: nat, n: nat) -> nat
    recommends
        n >= 1,
{
    (2 * a + n) / (2 * n)
}

/// The mean core temperature in Celsius tenths, rounded to the
/// nearest tenth (ties away from zero).
pub open spec fn temp_tenths(s: Seq<i32>) -> int
    recommends
        s.len() >= 1,
{
    let m = temp_numer(s);
    if m >= 0 {
        round_div(m as nat, s.len()) as int
    } else {
        -(round_div((-m) as nat, s.len()) as int)
    }
}

/// A count of Celsius tenths rendered as `digits.d`.
pub open spec fn tenths_text(t: nat) -> Seq<char> {
    dec_digits(t / 10) + seq!['.'] + seq![digit_char((t % 10) as int)]
}

/// Celsius tenths with a sign: negative values get a leading minus.
pub open spec fn signed_tenths_text(t: int) -> Seq<char> {
    if t < 0 {
        seq!['-'] + tenths_text((-t) as nat)
    } else {
        tenths_text(t as nat)
    }
}

/// The temperature unit suffix: a space and the degree-Celsius sign.
pub open spec fn degc_text() -> Seq<char> {
    seq![' ', '°', 'C']
}

/// The temperature block's text.  With no cores detected the reading
/// degrades to zero rather than dividing by zero.
pub open spec fn temp_text(s: Seq<i32>) -> Seq<char> {
    if s.len() == 0 {
        tenths_text(0) + degc_text()
    } else {
        signed_tenths_text(temp_tenths(s)) + degc_text()
    }
}

/// The temperature block is red exactly when the mean reaches 55.0
/// degrees: `temp_numer / len >= 550`, stated multiplied out.
pub open spec fn temp_red(s: Seq<i32>) -> bool {
    s.len() >= 1 && temp_numer(s) >= 550 * s.len()
}

/// Renders a count of tenths as `digits.d`.
fn tenths_string(t: u64) -> (r: String)
    ensures
        r@ == tenths_text(t as nat),
{
    proof {
        reveal_strlit(".");
    }
    let mut s = dec_string(t / 10);
    s.append(".");
    s.append(crate::fmt::digit_string(t % 10).as_str());
    proof {
        assert(s@ =~= tenths_text(t as nat));
    }
    s
}

/// The unit suffix as a string.
fn degc_string() -> (r: &'static str)
    ensures
        r@ == degc_text(),
{
    proof {
        reveal_strlit(" °C");
        assert(" °C"@ =~= degc_text());
    }
    " °C"
}

proof fn lemma_tenths_text_wf(t: nat)
    ensures
        wf_text(tenths_text(t)),
{
    lemma_dec_digits_shape(t / 10);
    assert forall|i: int| 0 <= i < tenths_text(t).len() implies plain_char(
        #[trigger] tenths_text(t)[i],
    ) by {
        let s = tenths_text(t);
        let d = dec_digits(t / 10);
        if i < d.len() {
            assert(s[i] == d[i]);
        } else if i == d.len() {
            assert(s[i] == '.');
        } else {
            assert(s[i] == digit_char((t % 10) as int));
        }
    }
}

proof fn lemma_temp_text_wf(s: Seq<i32>)
    ensures
        wf_text(temp_text(s)),
{
    let txt = temp_text(s);
    let body = if s.len() == 0 {
        tenths_text(0)
    } else {
        signed_tenths_text(temp_tenths(s))
    };
    let t = temp_tenths(s);
    if s.len() == 0 {
        lemma_tenths_text_wf(0);
    } else if t < 0 {
        lemma_tenths_text_wf((-t) as nat);
    } else {
        lemma_tenths_text_wf(t as nat);
    }
    assert(txt == body + degc_text());
    assert forall|i: int| 0 <= i < txt.len() implies plain_char(#[trigger] txt[i]) by {
        if i < body.len() {
            assert(txt[i] == body[i]);
            if s.len() != 0 && t < 0 {
                if i == 0 {
                    assert(body[0] == '-');
                } else {
                    assert(body[i] == tenths_text((-t) as nat)[i - 1]);
                }
            }
        } else {
            assert(txt[i] == degc_text()[i - body.len()]);
            assert(' ' as int == 32 && '°' as int == 176 && 'C' as int == 67);
        }
    }
}

/// The CPU-temperature probe.  Takes the raw per-core readings (in the
/// platform's tenth-of-a-Kelvin encoding), averages them, and renders
/// the mean with one decimal and the degree-Celsius suffix.  The block
/// is red exactly when the mean reaches 55.0 degrees.  With no cores
/// detected the reading degrades to `0.0` and stays white.
pub fn i3b_bsd_coretemp(raws: &Vec<i32>) -> (r: I3BarBlock)
    ensures
        r.full_text@ == temp_text(raws@),
        r.full_text@.len() > 0,
        r.color@ == if temp_red(raws@) { red_text() } else { white_text() },
        (r.color@ == red_text()) <==> temp_red(raws@),
        wf_block(r),
{
    proof {
        crate::color::lemma_red_ne_white();
        lemma_temp_text_wf(raws@);
    }
    let n = raws.len();
    if n == 0 {
        let mut ft = tenths_string(0);
        ft.append(degc_string());
        let col = color(0xff, 0xff, 0xff);
        let r = I3BarBlock { full_text: ft, color: col.to_string() };
        proof {
            lemma_color_text_wf(0xff, 0xff, 0xff);
        }
        return r;
    }
    let mut sum: i128 = 0;
    let mut i: usize = 0;
    while i < n
        invariant
            i <= n,
            n == raws@.len(),
            sum == sum_raws(raws@.take(i as int)),
            -(0x8000_0000i128 as int) * (i as int) <= sum <= 0x7fff_ffffi128 as int * (i as int),
        decreases n - i,
    {
        proof {
            assert(raws@.take(i + 1).drop_last() =~= raws@.take(i as int));
            assert(raws@.take(i + 1).last() == raws@[i as int]);
        }
        sum = sum + (raws[i] as i128);
        i += 1;
    }
    proof {
        assert(raws@.take(n as int) =~= raws@);
    }
    proof {
        assert(n <= usize::MAX);
    }
    let m: i128 = sum - 2731 * (n as i128);
    let red = m >= 550 * (n as i128);
    let neg = m < 0;
    let a: u128 = if neg {
        (-m) as u128
    } else {
        m as u128
    };
    let nn: u128 = n as u128;
    proof {
        // |temp_numer| <= n * (2^31 + 2731), so the rounding arithmetic
        // below stays far inside u128.
        assert(a <= nn * 2147486379);
    }
    let t128: u128 = (2 * a + nn) / (2 * nn);
    proof {
        assert(2 * a + nn < (2 * nn) * 2147486380) by {
            assert(2 * a + nn <= 2 * (nn * 2147486379) + nn);
        };
        lemma_multiply_divide_lt((2 * a + nn) as int, (2 * nn) as int, 2147486380int);
        assert(t128 < 2147486380);
    }
    let t: u64 = t128 as u64;
    let mut ft = if neg && t > 0 {
        proof {
            reveal_strlit("-");
        }
        let mut s = String::from_str("-");
        s.append(tenths_string(t).as_str());
        proof {
            assert(s@ =~= seq!['-'] + tenths_text(t as nat));
        }
        s
    } else {
        tenths_string(t)
    };
    proof {
        let tt = temp_tenths(raws@);
        if neg {
            assert(tt == -(round_div((-(m as int)) as nat, n as nat) as int));
            assert(round_div((-(m as int)) as nat, n as nat) == t as nat);
        } else {
            assert(tt == round_div(m as nat, n as nat) as int);
            assert(round_div(m as nat, n as nat) == t as nat);
        }
        assert(ft@ == signed_tenths_text(tt));
    }
    ft.append(degc_string());
    let col = if red {
        color(0xff, 0x00, 0x00)
    } else {
        color(0xff, 0xff, 0xff)
    };
    let r = I3BarBlock { full_text: ft, color: col.to_string() };
    proof {
        assert(red == temp_red(raws@));
        lemma_color_text_wf(col.r as nat, col.g as nat, col.b as nat);
    }
    r
}

/// The displayed mean is the true mean of the converted readings
/// rounded to the nearest tenth: the displayed tenths `t` satisfy
/// `|t - temp_numer/len| <= 1/2`, stated multiplied out.
pub proof fn lemma_temp_mean_rounds(s: Seq<i32>)
    requires
        s.len() >= 1,
    ensures
        -(s.len() as int) <= 2 * (temp_tenths(s) * s.len() - temp_numer(s)) <= s.len() as int,
{
    let n = s.len() as int;
    let m = temp_numer(s);
    if m >= 0 {
        let a = m;
        let q = (2 * a + n) / (2 * n);
        lemma_fundamental_div_mod(2 * a + n, 2 * n);
        let r = (2 * a + n) % (2 * n);
        assert(2 * a + n == (2 * n) * q + r);
        assert(0 <= r < 2 * n);
        assert(temp_tenths(s) == q);
        assert(2 * (q * n) == 2 * a + n - r) by {
            assert((2 * n) * q == 2 * (q * n)) by (nonlinear_arith);
        };
    } else {
        let a = -m;
        let q = (2 * a + n) / (2 * n);
        lemma_fundamental_div_mod(2 * a + n, 2 * n);
        let r = (2 * a + n) % (2 * n);
        assert(2 * a + n == (2 * n) * q + r);
        assert(0 <= r < 2 * n);
        assert(temp_tenths(s) == -q);
        assert(2 * (q * n) == 2 * a + n - r) by {
            assert((2 * n) * q == 2 * (q * n)) by (nonlinear_arith);
        };
        assert(2 * ((-q) * n) == -(2 * a + n - r)) by {
            assert((-q) * n == -(q * n)) by (nonlinear_arith);
        };
    }
}

// ------------------------------------------------------------------
// Clock probe
// ------------------------------------------------------------------

/// One wall-clock instant, as plain calendar fields.
pub struct ClockInstant {
    pub year: u16,
    pub month: u8,
    pub day: u8,
    pub hour: u8,
    pub minute: u8,
    pub second: u8,
}

impl ClockInstant {
    /// The fields fit the `YYYY-MM-DD HH:MM:SS` rendering.
    pub open spec fn wf(self) -> bool {
        &&& self.year <= 9999
        &&& 1 <= self.month <= 12
        &&& 1 <= self.day <= 31
        &&& self.hour <= 23
        &&& self.minute <= 59
        &&& self.second <= 59
    }

    /// Builds an instant, accepting exactly the field values the
    /// rendering is defined for.
    pub fn new(year: u16, month: u8, day: u8, hour: u8, minute: u8, second: u8) -> (r: Option<
        ClockInstant,
    >)
        ensures
            match r {
                Some(t) => t.wf() && t.year == year && t.month == month && t.day == day && t.hour
                    == hour && t.minute == minute && t.second == second,
                None => !(ClockInstant { year, month, day, hour, minute, second }).wf(),
            },
    {
        if year <= 9999 && 1 <= month && month <= 12 && 1 <= day && day <= 31 && hour <= 23
            && minute <= 59 && second <= 59 {
            Some(ClockInstant { year, month, day, hour, minute, second })
        } else {
            None
        }
    }
}

/// The clock block's text: `YYYY-MM-DD HH:MM:SS`, zero padded,
/// 24-hour clock.
pub open spec fn clock_text(t: ClockInstant) -> Seq<char> {
    pad4(t.year as nat) + seq!['-'] + pad2(t.month as nat) + seq!['-'] + pad2(t.day as nat)
        + seq![' '] + pad2(t.hour as nat) + seq![':'] + pad2(t.minute as nat) + seq![':'] + pad2(
        t.second as nat,
    )
}

proof fn lemma_clock_text_wf(t: ClockInstant)
    ensures
        wf_text(clock_text(t)),
        clock_text(t).len() == 19,
{
    let s = clock_text(t);
    lemma_digit_chars_plain();
    assert forall|i: int| 0 <= i < s.len() implies plain_char(#[trigger] s[i]) by {
        assert(s.len() == 19);
        if i == 4 || i == 7 {
            assert(s[i] == '-');
        } else if i == 10 {
            assert(s[i] == ' ');
        } else if i == 13 || i == 16 {
            assert(s[i] == ':');
        } else if i <= 3 {
            assert(s[i] == pad4(t.year as nat)[i]);
        } else if i <= 6 {
            assert(s[i] == pad2(t.month as nat)[i - 5]);
        } else if i <= 9 {
            assert(s[i] == pad2(t.day as nat)[i - 8]);
        } else if i <= 12 {
            assert(s[i] == pad2(t.hour as nat)[i - 11]);
        } else if i <= 15 {
            assert(s[i] == pad2(t.minute as nat)[i - 14]);
        } else {
            assert(s[i] == pad2(t.second as nat)[i - 17]);
        }
    }
}

/// The clock probe.  Renders the instant as `YYYY-MM-DD HH:MM:SS`;
/// the clock block is always white.
pub fn i3b_clock(t: &ClockInstant) -> (r: I3BarBlock)
    requires
        t.wf(),
    ensures
        r.full_text@ == clock_text(*t),
        r.full_text@.len() > 0,
        r.color@ == white_text(),
        wf_block(r),
{
    proof {
        reveal_strlit("-");
        reveal_strlit(" ");
        reveal_strlit(":");
    }
    let mut ft = pad4_string(t.year as u64);
    ft.append("-");
    ft.append(pad2_string(t.month as u64).as_str());
    ft.append("-");
    ft.append(pad2_string(t.day as u64).as_str());
    ft.append(" ");
    ft.append(pad2_string(t.hour as u64).as_str());
    ft.append(":");
    ft.append(pad2_string(t.minute as u64).as_str());
    ft.append(":");
    ft.append(pad2_string(t.second as u64).as_str());
    let col = color(0xff, 0xff, 0xff);
    let r = I3BarBlock { full_text: ft, color: col.to_string() };
    proof {
        assert(r.full_text@ =~= clock_text(*t));
        lemma_clock_text_wf(*t);
        lemma_color_text_wf(0xff, 0xff, 0xff);
    }
    r
}

// ------------------------------------------------------------------
// Per-tick payload assembly
// ------------------------------------------------------------------

/// The per-tick payload of the temperature-equipped variant, in the
/// protocol's fixed, significant order: temperature, load average,
/// clock.
pub fn tick_blocks(raws: &Vec<i32>, l1: u32, l5: u32, l15: u32, t: &ClockInstant) -> (v: Vec<
    I3BarBlock,
>)
    requires
        t.wf(),
    ensures
        v@.len() == 3,
        v@[0].full_text@ == temp_text(raws@),
        v@[0].color@ == (if temp_red(raws@) { red_text() } else { white_text() }),
        v@[1].full_text@ == loadavg_text(l1 as nat, l5 as nat, l15 as nat),
        v@[1].color@ == (if l1 > LOAD_RED_OVER { red_text() } else { white_text() }),
        v@[2].full_text@ == clock_text(*t),
        v@[2].color@ == white_text(),
        crate::model::wf_blocks(v@),
{
    let mut v: Vec<I3BarBlock> = Vec::new();
    v.push(i3b_bsd_coretemp(raws));
    v.push(i3b_loadavg(l1, l5, l15));
    v.push(i3b_clock(t));
    proof {
        assert forall|i: int| 0 <= i < v@.len() implies wf_block(#[trigger] v@[i]) by {
            assert(v@[0] == v@[i] || v@[1] == v@[i] || v@[2] == v@[i]);
        }
    }
    v
}

/// The per-tick payload of the variant without the temperature probe,
/// in the same significant order: load average, clock.
pub fn tick_blocks_basic(l1: u32, l5: u32, l15: u32, t: &ClockInstant) -> (v: Vec<I3BarBlock>)
    requires
        t.wf(),
    ensures
        v@.len() == 2,
        v@[0].full_text@ == loadavg_text(l1 as nat, l5 as nat, l15 as nat),
        v@[0].color@ == (if l1 > LOAD_RED_OVER { red_text() } else { white_text() }),
        v@[1].full_text@ == clock_text(*t),
        v@[1].color@ == white_text(),
        crate::model::wf_blocks(v@),
{
    let mut v: Vec<I3BarBlock> = Vec::new();
    v.push(i3b_loadavg(l1, l5, l15));
    v.push(i3b_clock(t));
    proof {
        assert forall|i: int| 0 <= i < v@.len() implies wf_block(#[trigger] v@[i]) by {
            assert(v@[0] == v@[i] || v@[1] == v@[i]);
        }
    }
    v
}

} // verus!
