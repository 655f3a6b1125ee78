use hft_execution::performance::InstrumentReport;
use hft_execution::report::render_markdown_report;
use hft_execution::types::{InstrumentId, InstrumentType, Side};

fn report(symbol: &str, instrument_type: InstrumentType, side: Side) -> InstrumentReport {
    InstrumentReport {
        instrument: InstrumentId { symbol: symbol.to_string(), instrument_type },
        side,
        decision_price: 10_005,
        avg_execution_price: 10_003 * 100_000_000 + 50_000_000,
        implementation_shortfall_bps: -150_000_000,
        vwap_bps: 2_345_678,
        fill_rate: 75_000_000,
        maker_ratio: 66_666_666,
        taker_ratio: 33_333_334,
        adverse_1s_bps: -400_000,
        adverse_5s_bps: 0,
        adverse_30s_bps: 12_345_000_000,
    }
}

#[test]
fn an_empty_report_has_only_its_title() {
    assert_eq!(render_markdown_report(&[]), "# Performance Report\n\n## Summary\n\n");
}

#[test]
fn a_section_lists_every_figure_rounded() {
    let text = render_markdown_report(&[report("BTC-USD", InstrumentType::Spot, Side::Buy)]);
    let expected = "# Performance Report\n\n## Summary\n\n\
### BTC-USD\n\n\
- Instrument Type: Spot\n\
- Side: Buy\n\
- Decision Price: 1.0005\n\
- Avg Execution Price: 1.0004\n\
- Implementation Shortfall (bps): -1.50\n\
- VWAP Comparison (bps): 0.02\n\
- Fill Rate: 75.00%\n\
- Maker Ratio: 0.67\n\
- Taker Ratio: 0.33\n\
- Adverse Selection 1s (bps): -0.00\n\
- Adverse Selection 5s (bps): 0.00\n\
- Adverse Selection 30s (bps): 123.45\n\n";
    assert_eq!(text, expected);
}

#[test]
fn sections_follow_in_order() {
    let mut second = report("ETH-PERP", InstrumentType::Option, Side::Sell);
    second.decision_price = 123_456_789;
    let text = render_markdown_report(&[report("A", InstrumentType::Perp, Side::Buy), second]);
    let a = text.find("### A\n").unwrap();
    let b = text.find("### ETH-PERP\n").unwrap();
    assert!(a < b);
    assert!(text.contains("- Instrument Type: Perp\n"));
    assert!(text.contains("- Instrument Type: Option\n- Side: Sell\n- Decision Price: 12345.6789\n"));
    assert!(text.ends_with("- Adverse Selection 30s (bps): 123.45\n\n"));
}
