use vstd::prelude::*;

use crate::performance::InstrumentReport;
use crate::types::{InstrumentType, Side};
use vstd::string::StringExecFns;

verus! {

/// Calls `String::push`, which appends the character `c` to `out`.
#[verifier::external_body]
fn append_char(out: &mut String, c: char)
    ensures
        final(out)@ == old(out)@.push(c),
{
    out.push(c);
}

/// The decimal digit `d` as a character.
pub open spec fn digit_char(d: int) -> char {
    (48 + d) as char
}

/// `n` in decimal, without leading zeros.
pub open spec fn decimal(n: nat) -> Seq<char>
    decreases n,
{
    if n < 10 {
        seq![digit_char(n as int)]
    } else {
        decimal(n / 10).push(digit_char((n % 10) as int))
    }
}

/// The lowest `width` decimal digits of `n`, zeros included.
pub open spec fn padded(n: nat, width: nat) -> Seq<char>
    decreases width,
{
    if width == 0 {
        Seq::empty()
    } else {
        padded(n / 10, (width - 1) as nat).push(digit_char((n % 10) as int))
    }
}

pub open spec fn pow10(n: nat) -> nat
    decreases n,
{
    if n == 0 {
        1
    } else {
        10 * pow10((n - 1) as nat)
    }
}

/// A fixed-point value `v` counted in units of `1 / (unit * 10^places)`,
/// written with `places` decimals: the magnitude is rounded to the nearest
/// `1 / 10^places` (halves away from zero), and a negative value keeps its
/// minus sign even when it rounds to zero.
pub open spec fn fixed_text(v: int, unit: nat, places: nat) -> Seq<char> {
    let a: nat = if v < 0 {
        (-v) as nat
    } else {
        v as nat
    };
    let q: nat = (a + unit / 2) / unit;
    let sign = if v < 0 {
        seq!['-']
    } else {
        Seq::empty()
    };
    sign + decimal(q / pow10(places)) + seq!['.'] + padded(q % pow10(places), places)
}

/// The name of an instrument type.
pub open spec fn kind_name(t: InstrumentType) -> Seq<char> {
    match t {
        InstrumentType::Spot => "Spot"@,
        InstrumentType::Perp => "Perp"@,
        InstrumentType::Option => "Option"@,
    }
}

/// The name of a side.
pub open spec fn side_name(s: Side) -> Seq<char> {
    match s {
        Side::Buy => "Buy"@,
        Side::Sell => "Sell"@,
    }
}

/// Units of a price (ticks) at four decimals.
pub const PRICE_UNIT: u128 = 1;

/// Units of a fixed-point price (ticks scaled by `FIXED_ONE`) at four decimals.
pub const FIXED_PRICE_UNIT: u128 = 100_000_000;

/// Units of a fixed-point figure (basis points or a ratio) at two decimals.
pub const FIXED_UNIT: u128 = 1_000_000;

/// Units of a fixed-point ratio, read as a percentage, at two decimals.
pub const PERCENT_UNIT: u128 = 10_000;

/// `text` followed by the section of one instrument's report.
pub open spec fn section_after(text: Seq<char>, r: InstrumentReport) -> Seq<char> {
    text + "### "@ + r.instrument.symbol@ + "\n\n"@ + "- Instrument Type: "@ + kind_name(
        r.instrument.instrument_type,
    ) + "\n"@ + "- Side: "@ + side_name(r.side) + "\n"@ + "- Decision Price: "@ + fixed_text(
        r.decision_price as int,
        PRICE_UNIT as nat,
        4,
    ) + "\n"@ + "- Avg Execution Price: "@ + fixed_text(
        r.avg_execution_price as int,
        FIXED_PRICE_UNIT as nat,
        4,
    ) + "\n"@ + "- Implementation Shortfall (bps): "@ + fixed_text(
        r.implementation_shortfall_bps as int,
        FIXED_UNIT as nat,
        2,
    ) + "\n"@ + "- VWAP Comparison (bps): "@ + fixed_text(r.vwap_bps as int, FIXED_UNIT as nat, 2)
        + "\n"@ + "- Fill Rate: "@ + fixed_text(r.fill_rate as int, PERCENT_UNIT as nat, 2)
        + "%\n"@ + "- Maker Ratio: "@ + fixed_text(r.maker_ratio as int, FIXED_UNIT as nat, 2)
        + "\n"@ + "- Taker Ratio: "@ + fixed_text(r.taker_ratio as int, FIXED_UNIT as nat, 2)
        + "\n"@ + "- Adverse Selection 1s (bps): "@ + fixed_text(
        r.adverse_1s_bps as int,
        FIXED_UNIT as nat,
        2,
    ) + "\n"@ + "- Adverse Selection 5s (bps): "@ + fixed_text(
        r.adverse_5s_bps as int,
        FIXED_UNIT as nat,
        2,
    ) + "\n"@ + "- Adverse Selection 30s (bps): "@ + fixed_text(
        r.adverse_30s_bps as int,
        FIXED_UNIT as nat,
        2,
    ) + "\n\n"@
}

/// The Markdown report of a list of instrument reports: a title, then one
/// section per instrument, in order.
pub open spec fn report_text(reports: Seq<InstrumentReport>) -> Seq<char>
    decreases reports.len(),
{
    if reports.len() == 0 {
        "# Performance Report\n\n"@ + "## Summary\n\n"@
    } else {
        section_after(report_text(reports.drop_last()), reports.last())
    }
}

fn digit(d: u128) -> (c: char)
    requires
        d < 10,
    ensures
        c == digit_char(d as int),
{
    ((48 + d) as u8) as char
}

fn push_decimal(out: &mut String, n: u128)
    ensures
        final(out)@ == old(out)@ + decimal(n as nat),
    decreases n,
{
    if n >= 10 {
        push_decimal(out, n / 10);
    }
    append_char(out, digit(n % 10));
    proof {
        if n >= 10 {
            assert((old(out)@ + decimal((n / 10) as nat)).push(digit_char((n % 10) as int))
                =~= old(out)@ + decimal(n as nat));
        } else {
            assert(old(out)@.push(digit_char(n as int)) =~= old(out)@ + decimal(n as nat));
        }
    }
}

fn push_padded(out: &mut String, n: u128, width: u32)
    ensures
        final(out)@ == old(out)@ + padded(n as nat, width as nat),
    decreases width,
{
    if width > 0 {
        push_padded(out, n / 10, width - 1);
        append_char(out, digit(n % 10));
        assert((old(out)@ + padded((n / 10) as nat, (width - 1) as nat)).push(
            digit_char((n % 10) as int),
        ) =~= old(out)@ + padded(n as nat, width as nat));
    } else {
        assert(old(out)@ + padded(n as nat, 0) =~= old(out)@);
    }
}

fn pow10_of(n: u32) -> (r: u128)
    requires
        n <= 10,
    ensures
        r == pow10(n as nat),
{
    proof {
        reveal_with_fuel(pow10, 11);
        assert(pow10(10) == 10_000_000_000);
        lemma_pow10_monotone(0, 10);
    }
    let mut r: u128 = 1;
    let mut i: u32 = 0;
    while i < n
        invariant
            i <= n <= 10,
            r == pow10(i as nat),
            pow10(10) == 10_000_000_000,
        decreases n - i,
    {
        proof {
            lemma_pow10_monotone(i as nat + 1, 10);
        }
        r = r * 10;
        i = i + 1;
    }
    r
}

proof fn lemma_pow10_monotone(a: nat, b: nat)
    requires
        a <= b,
    ensures
        pow10(a) <= pow10(b),
    decreases b,
{
    if a < b {
        lemma_pow10_monotone(a, (b - 1) as nat);
    }
}

/// Appends `v` written with `places` decimals (see `fixed_text`).
fn push_fixed(out: &mut String, v: i128, unit: u128, places: u32)
    requires
        unit > 0,
        unit <= 1_000_000_000_000,
        places <= 10,
    ensures
        final(out)@ == old(out)@ + fixed_text(v as int, unit as nat, places as nat),
{
    let a: u128 = if v < 0 {
        ((-(v + 1)) as u128) + 1
    } else {
        v as u128
    };
    let q: u128 = (a + unit / 2) / unit;
    let p: u128 = pow10_of(places);
    proof {
        lemma_pow10_monotone(0, places as nat);
    }
    if v < 0 {
        append_char(out, '-');
    }
    let ghost signed = out@;
    push_decimal(out, q / p);
    append_char(out, '.');
    push_padded(out, q % p, places);
    proof {
        let sign = if v < 0 {
            seq!['-']
        } else {
            Seq::<char>::empty()
        };
        assert(signed =~= old(out)@ + sign);
        assert(out@ =~= old(out)@ + fixed_text(v as int, unit as nat, places as nat));
    }
}

fn push_kind_name(out: &mut String, t: InstrumentType)
    ensures
        final(out)@ == old(out)@ + kind_name(t),
{
    match t {
        InstrumentType::Spot => out.append("Spot"),
        InstrumentType::Perp => out.append("Perp"),
        InstrumentType::Option => out.append("Option"),
    }
}

fn push_side_name(out: &mut String, s: Side)
    ensures
        final(out)@ == old(out)@ + side_name(s),
{
    match s {
        Side::Buy => out.append("Buy"),
        Side::Sell => out.append("Sell"),
    }
}

/// Appends the section of one instrument's report.
fn push_section(out: &mut String, r: &InstrumentReport)
    ensures
        final(out)@ == section_after(old(out)@, *r),
{
    out.append("### ");
    out.append(r.instrument.symbol.as_str());
    out.append("\n\n");
    out.append("- Instrument Type: ");
    push_kind_name(out, r.instrument.instrument_type);
    out.append("\n");
    out.append("- Side: ");
    push_side_name(out, r.side);
    out.append("\n");
    out.append("- Decision Price: ");
    push_fixed(out, r.decision_price as i128, PRICE_UNIT, 4);
    out.append("\n");
    out.append("- Avg Execution Price: ");
    push_fixed(out, r.avg_execution_price, FIXED_PRICE_UNIT, 4);
    out.append("\n");
    out.append("- Implementation Shortfall (bps): ");
    push_fixed(out, r.implementation_shortfall_bps, FIXED_UNIT, 2);
    out.append("\n");
    out.append("- VWAP Comparison (bps): ");
    push_fixed(out, r.vwap_bps, FIXED_UNIT, 2);
    out.append("\n");
    out.append("- Fill Rate: ");
    push_fixed(out, r.fill_rate, PERCENT_UNIT, 2);
    out.append("%\n");
    out.append("- Maker Ratio: ");
    push_fixed(out, r.maker_ratio, FIXED_UNIT, 2);
    out.append("\n");
    out.append("- Taker Ratio: ");
    push_fixed(out, r.taker_ratio, FIXED_UNIT, 2);
    out.append("\n");
    out.append("- Adverse Selection 1s (bps): ");
    push_fixed(out, r.adverse_1s_bps, FIXED_UNIT, 2);
    out.append("\n");
    out.append("- Adverse Selection 5s (bps): ");
    push_fixed(out, r.adverse_5s_bps, FIXED_UNIT, 2);
    out.append("\n");
    out.append("- Adverse Selection 30s (bps): ");
    push_fixed(out, r.adverse_30s_bps, FIXED_UNIT, 2);
    out.append("\n\n");
}

/// The Markdown performance report of the given instrument reports.
pub fn render_markdown_report(reports: &[InstrumentReport]) -> (r: String)
    ensures
        r@ == report_text(reports@),
{
    let mut out = String::new();
    out.append("# Performance Report\n\n");
    out.append("## Summary\n\n");
    assert(out@ =~= report_text(reports@.take(0)));
    let mut i: usize = 0;
    while i < reports.len()
        invariant
            i <= reports@.len(),
            out@ == report_text(reports@.take(i as int)),
        decreases reports@.len() - i,
    {
        push_section(&mut out, &reports[i]);
        assert(reports@.take(i as int + 1).drop_last() =~= reports@.take(i as int));
        i = i + 1;
    }
    assert(reports@.take(i as int) =~= reports@);
    out
}

} // verus!
