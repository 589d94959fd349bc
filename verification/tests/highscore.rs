use moving_tower::highscore::{load, parse, render};

#[test]
fn render_writes_the_shortest_text() {
    assert_eq!(render(0), b"0".to_vec());
    assert_eq!(render(30_000_000), b"30".to_vec());
    assert_eq!(render(1), b"0.000001".to_vec());
    assert_eq!(render(59_260), b"0.05926".to_vec());
    assert_eq!(render(500_000), b"0.5".to_vec());
    assert_eq!(render(1_000_000), b"1".to_vec());
    assert_eq!(render(1_100_000), b"1.1".to_vec());
    assert_eq!(render(123_456_789), b"123.456789".to_vec());
    assert_eq!(render(123_456_780), b"123.45678".to_vec());
    assert_eq!(render(10_000_000_500_000), b"10000000.5".to_vec());
    assert_eq!(render(100_000_000_000_000), b"100000000".to_vec());
    assert_eq!(render(u64::MAX), b"18446744073709.551615".to_vec());
}

#[test]
fn render_writes_what_formatting_a_number_writes() {
    // scores that binary floating point holds exactly
    for (units, points) in [
        (0u64, 0.0f64),
        (30_000_000, 30.0),
        (500_000, 0.5),
        (12_250_000, 12.25),
        (7_125_000, 7.125),
        (1_000_000_000_000, 1_000_000.0),
        (4_015_625, 4.015625),
    ] {
        assert_eq!(render(units), format!("{}", points).into_bytes());
    }
}

#[test]
fn parse_reads_points_with_or_without_a_fraction() {
    assert_eq!(parse(b"0"), Some(0));
    assert_eq!(parse(b"12"), Some(12_000_000));
    assert_eq!(parse(b"30"), Some(30_000_000));
    assert_eq!(parse(b"30.000000"), Some(30_000_000));
    assert_eq!(parse(b"59.26"), Some(59_260_000));
    assert_eq!(parse(b"5."), Some(5_000_000));
    assert_eq!(parse(b".5"), Some(500_000));
    assert_eq!(parse(b"0.000001"), Some(1));
    assert_eq!(parse(b"007.5"), Some(7_500_000));
    assert_eq!(parse(b"1234567.9"), Some(1_234_567_900_000));
}

#[test]
fn parse_reads_a_plus_sign() {
    assert_eq!(parse(b"+1"), Some(1_000_000));
    assert_eq!(parse(b"+5"), Some(5_000_000));
    assert_eq!(parse(b"+.5"), Some(500_000));
    assert_eq!(parse(b"+0.25e1"), Some(2_500_000));
}

#[test]
fn parse_reads_an_exponent() {
    assert_eq!(parse(b"1e5"), Some(100_000_000_000));
    assert_eq!(parse(b"1E5"), Some(100_000_000_000));
    assert_eq!(parse(b"1e+5"), Some(100_000_000_000));
    assert_eq!(parse(b"1e0"), Some(1_000_000));
    assert_eq!(parse(b"1e-0"), Some(1_000_000));
    assert_eq!(parse(b"1e-3"), Some(1_000));
    assert_eq!(parse(b"1e-6"), Some(1));
    assert_eq!(parse(b"1e-7"), Some(0));
    assert_eq!(parse(b"1.5e3"), Some(1_500_000_000));
    assert_eq!(parse(b"12.345678e-2"), Some(123_456));
    assert_eq!(parse(b".5e1"), Some(5_000_000));
    assert_eq!(parse(b"5.e1"), Some(50_000_000));
    assert_eq!(parse(b"123456789e-9"), Some(123_456));
    assert_eq!(parse(b"0.000000001e9"), Some(1_000_000));
    assert_eq!(parse(b"1e007"), Some(10_000_000_000_000));
}

#[test]
fn parse_with_exponents_out_of_reach() {
    assert_eq!(parse(b"0e99999999999999999999999999999999999999"), Some(0));
    assert_eq!(parse(b"0.000e+99999999999999999999999999999999999999"), Some(0));
    assert_eq!(parse(b"1e99999999999999999999999999999999999999"), None);
    assert_eq!(parse(b"1e-99999999999999999999999999999999999999"), Some(0));
    assert_eq!(parse(b"987654321e-99999999999999999999999999999999999999"), Some(0));
    assert_eq!(parse(b"1e13"), Some(10_000_000_000_000_000_000));
    assert_eq!(parse(b"1e14"), None);
    assert_eq!(parse(b"1e19"), None);
    assert_eq!(parse(b"1e20"), None);
    assert_eq!(parse(b"0.00000000000000000001e33"), Some(10_000_000_000_000_000_000));
    assert_eq!(parse(b"0.00000000000000000001e34"), None);
    assert_eq!(parse(b"100000000000000000000e-20"), Some(1_000_000));
    assert_eq!(parse(b"100000000000000000000e-7"), Some(10_000_000_000_000_000_000));
    assert_eq!(parse(b"100000000000000000000e-6"), None);
}

#[test]
fn parse_passes_over_digits_after_the_sixth() {
    assert_eq!(parse(b"0.0000019"), Some(1));
    assert_eq!(parse(b"3.14159265358979"), Some(3_141_592));
    assert_eq!(parse(b"1.9999999999"), Some(1_999_999));
    assert_eq!(parse(b"19999999999e-10"), Some(1_999_999));
}

#[test]
fn parse_refuses_what_is_no_highscore() {
    assert_eq!(parse(b""), None);
    assert_eq!(parse(b"."), None);
    assert_eq!(parse(b"+"), None);
    assert_eq!(parse(b"+."), None);
    assert_eq!(parse(b"e5"), None);
    assert_eq!(parse(b".e5"), None);
    assert_eq!(parse(b"1e"), None);
    assert_eq!(parse(b"1e+"), None);
    assert_eq!(parse(b"1e-"), None);
    assert_eq!(parse(b"1e5.0"), None);
    assert_eq!(parse(b"1e5e5"), None);
    assert_eq!(parse(b"1e+-5"), None);
    assert_eq!(parse(b"++1"), None);
    assert_eq!(parse(b"1+"), None);
    assert_eq!(parse(b"-1"), None);
    assert_eq!(parse(b"-0"), None);
    assert_eq!(parse(b"12.3a"), None);
    assert_eq!(parse(b"12.3456789x"), None);
    assert_eq!(parse(b" 1"), None);
    assert_eq!(parse(b"1\n"), None);
    assert_eq!(parse(b"1.5\n"), None);
    assert_eq!(parse(b"1.2.3"), None);
    assert_eq!(parse(b"1,5"), None);
    assert_eq!(parse(b"abc"), None);
    assert_eq!(parse(b"inf"), None);
    assert_eq!(parse(b"+infinity"), None);
    assert_eq!(parse(b"NaN"), None);
}

#[test]
fn parse_refuses_what_does_not_fit() {
    assert_eq!(parse(b"18446744073709.551615"), Some(u64::MAX));
    assert_eq!(parse(b"18446744073709.5516159"), Some(u64::MAX));
    assert_eq!(parse(b"18446744073709.551616"), None);
    assert_eq!(parse(b"18446744073709"), Some(18_446_744_073_709_000_000));
    assert_eq!(parse(b"18446744073710"), None);
    assert_eq!(parse(b"99999999999999999999999999999999999999"), None);
    assert_eq!(parse(b"99999999999999999999999999999999999999.5"), None);
    assert_eq!(parse(b"000000000000000000000000000000000000001"), Some(1_000_000));
}

#[test]
fn parse_reads_what_a_number_parser_reads() {
    // texts whose value binary floating point holds exactly
    for text in [
        "0", "30", "30.000000", ".5", "+1", "1e5", "1E2", "2.5e-1", "+.125e+3", "5.", "12.25",
        "0.015625e2", "1024e-10", "4e0",
    ] {
        let points: f64 = text.parse().unwrap();
        let units = (points * 1_000_000.0).floor() as u64;
        assert_eq!(parse(text.as_bytes()), Some(units), "{}", text);
    }
    // and what it refuses, the sign and the words apart
    for text in ["", ".", "+", "e5", "1e", "1e+", "1.2.3", " 1", "1 ", "1_000", "0x10", "1f"] {
        assert!(text.parse::<f64>().is_err(), "{}", text);
        assert_eq!(parse(text.as_bytes()), None, "{}", text);
    }
}

#[test]
fn what_is_rendered_parses_back() {
    let scores = [
        0,
        1,
        9,
        10,
        100,
        999_999,
        1_000_000,
        1_000_001,
        1_100_000,
        59_260,
        30_000_000,
        123_456_789,
        4_294_967_296,
        9_007_199_254_740_993,
        u64::MAX - 1,
        u64::MAX,
    ];
    for score in scores {
        assert_eq!(parse(&render(score)), Some(score));
        assert_eq!(load(Some(&render(score))), score);
    }
}

#[test]
fn load_without_a_store_is_nothing() {
    assert_eq!(load(None), 0);
}

#[test]
fn load_of_what_is_no_highscore_is_nothing() {
    assert_eq!(load(Some(b"")), 0);
    assert_eq!(load(Some(b"high")), 0);
    assert_eq!(load(Some(b"12.5\n")), 0);
    assert_eq!(load(Some(b"-3")), 0);
    assert_eq!(load(Some(b"18446744073710")), 0);
}

#[test]
fn load_reads_a_highscore() {
    assert_eq!(load(Some(b"12.5")), 12_500_000);
    assert_eq!(load(Some(b"0")), 0);
    assert_eq!(load(Some(b".5")), 500_000);
    assert_eq!(load(Some(b"+5")), 5_000_000);
    assert_eq!(load(Some(b"1e5")), 100_000_000_000);
}
