use structio::num::atof::{parse_float, scan, FloatFormat};
use structio::num::atoi::{parse_i64, parse_u64};
use structio::num::dtoa::{write_f32, write_f64};
use structio::num::zmij::to_bcd8;
use structio::ErrorCode;

/// Xorshift64, so the randomized tests draw a fixed sequence.
fn xorshift(seed: u64) -> impl FnMut() -> u64 {
    let mut state = seed;
    move || {
        state ^= state << 13;
        state ^= state >> 7;
        state ^= state << 17;
        state
    }
}

fn pf64(s: &str) -> f64 {
    let (bits, end) = parse_float(s.as_bytes(), 0, FloatFormat::binary64()).unwrap();
    assert_eq!(end, s.len(), "did not consume all of {s:?}");
    match bits {
        Some(b) => f64::from_bits(b),
        None => s.parse::<f64>().unwrap(),
    }
}

fn pf32(s: &str) -> f32 {
    let (bits, end) = parse_float(s.as_bytes(), 0, FloatFormat::binary32()).unwrap();
    assert_eq!(end, s.len(), "did not consume all of {s:?}");
    match bits {
        Some(b) => f32::from_bits(b as u32),
        None => s.parse::<f32>().unwrap(),
    }
}

fn wf64(v: f64) -> String {
    let mut out = Vec::new();
    assert!(write_f64(v.to_bits(), &mut out), "no text for {v:e}");
    String::from_utf8(out).unwrap()
}

fn wf32(v: f32) -> String {
    let mut out = Vec::new();
    assert!(write_f32(v.to_bits(), &mut out), "no text for {v:e}");
    String::from_utf8(out).unwrap()
}

#[test]
fn integers() {
    assert_eq!(parse_u64(b"0", 0).unwrap().0, 0);
    assert_eq!(parse_u64(b"18446744073709551615", 0).unwrap().0, u64::MAX);
    assert!(parse_u64(b"18446744073709551616", 0).is_err());
    assert!(parse_u64(b"01", 0).is_err());
    assert_eq!(parse_i64(b"-9223372036854775808", 0).unwrap().0, i64::MIN);
    assert!(parse_i64(b"-9223372036854775809", 0).is_err());
    assert_eq!(parse_u64(b"123456789012345678", 0).unwrap().0, 123456789012345678);
}

/// Every terminator a JSON number can meet, plus bytes whose high bit is set.
const TERMINATORS: [&[u8]; 10] = [b"", b",", b"}", b"]", b" ", b"\n", b"\"", b":", b"\xB5", b"\xFF"];

#[test]
fn integers_of_every_length_against_every_terminator() {
    for len in 1..=20usize {
        let mut cases = vec![
            "1".to_owned() + &"0".repeat(len - 1),
            "9".repeat(len),
            (1..=len).map(|k| char::from(b'0' + (k % 10) as u8)).collect(),
        ];
        cases.retain(|s| !s.starts_with('0'));

        for text in cases {
            let expected: Option<u64> = text.parse().ok();
            for term in TERMINATORS {
                for pad in [0usize, 8] {
                    let mut buf = text.clone().into_bytes();
                    buf.extend_from_slice(term);
                    buf.extend(std::iter::repeat(b' ').take(pad));

                    let got = parse_u64(&buf, 0);
                    match expected {
                        Some(v) => {
                            let (value, i) = got.unwrap();
                            assert_eq!(value, v, "{text:?} + {term:?} + {pad} spaces");
                            assert_eq!(i, text.len(), "stopped in the wrong place");
                        }
                        None => assert!(got.is_err(), "{text:?} is past u64::MAX"),
                    }
                }
            }
        }
    }
}

#[test]
fn integers_agree_with_the_standard_library() {
    let mut next = xorshift(0x5EED_1234_ABCD_0001);
    for _ in 0..200_000 {
        let raw = next();
        let width = 1 + (next() % 20) as u32;
        let v = raw % 10u64.checked_pow(width).unwrap_or(u64::MAX).max(1);
        let text = v.to_string();

        let mut buf = text.clone().into_bytes();
        buf.extend_from_slice(b",\"rest\":0");

        let (got, i) = parse_u64(&buf, 0).unwrap();
        assert_eq!(got, v, "parsing {text:?}");
        assert_eq!(i, text.len());

        if v <= i64::MAX as u64 {
            let neg = format!("-{text},");
            let (got, i) = parse_i64(neg.as_bytes(), 0).unwrap();
            assert_eq!(got, -(v as i64));
            assert_eq!(i, neg.len() - 1);
        }
    }
}

#[test]
fn float_parse_matches_std() {
    let cases = [
        "0",
        "-0",
        "1",
        "-1",
        "3.14",
        "0.1",
        "1e300",
        "1e-300",
        "1e308",
        "1e309",
        "1e-400",
        "2.2250738585072011e-308",
        "2.2250738585072014e-308",
        "1.7976931348623157e308",
        "4.9406564584124654e-324",
        "9007199254740993",
        "123456789012345678901234567890",
        "0.000000000000000000000000000001",
        "1.000000000000000000000000000001",
        "7.8459735791271921e+65",
        "3.7208862073259515e-64",
    ];
    for c in cases {
        let ours = pf64(c);
        let theirs: f64 = c.parse().unwrap();
        assert_eq!(ours.to_bits(), theirs.to_bits(), "f64 {c}: {ours:e} vs {theirs:e}");
        let ours = pf32(c);
        let theirs: f32 = c.parse().unwrap();
        assert_eq!(ours.to_bits(), theirs.to_bits(), "f32 {c}");
    }
}

#[test]
fn float_parse_fuzz_against_std() {
    let mut next = xorshift(0x1357_9BDF_2468_ACE0);

    for _ in 0..200_000 {
        let digits = next() % 1_000_000_000_000_000_000;
        let exp = (next() % 120) as i64 - 60;
        let s = format!("{digits}e{exp}");
        let ours = pf64(&s);
        let theirs: f64 = s.parse().unwrap();
        assert_eq!(ours.to_bits(), theirs.to_bits(), "{s}");

        let ours = pf32(&s);
        let theirs: f32 = s.parse().unwrap();
        assert_eq!(ours.to_bits(), theirs.to_bits(), "f32 {s}");
    }
}

#[test]
fn to_bcd8_boundaries() {
    for (v, digits, end) in [
        (0u32, "00000000", 0),
        (1, "00000001", 8),
        (10, "00000010", 7),
        (99_999_999, "99999999", 8),
        (10_000_000, "10000000", 1),
        (12_345_678, "12345678", 8),
        (90_000_000, "90000000", 1),
        (1_020_000, "01020000", 4),
    ] {
        let (bcd, got_end) = to_bcd8(v);
        let got: Vec<u8> = bcd.to_le_bytes().iter().map(|b| b + b'0').collect();
        assert_eq!(core::str::from_utf8(&got).unwrap(), digits, "v={v}");
        assert_eq!(got_end, end, "v={v}");
    }
}

#[test]
fn scan_splits_a_number_into_its_parts() {
    let (d, end) = scan(b"-12.50e3,", 0).unwrap();
    assert_eq!(end, 8);
    assert!(d.negative);
    assert_eq!(d.mantissa, 1250);
    assert_eq!(d.exp10, 1);
    assert!(!d.truncated);
}

#[test]
fn scan_refuses_malformed_numbers() {
    assert_eq!(scan(b"x", 0), Err(ErrorCode::ExpectedNumber));
    assert_eq!(scan(b"-", 0), Err(ErrorCode::ExpectedNumber));
    assert_eq!(scan(b"01", 0), Err(ErrorCode::InvalidNumber));
    assert_eq!(scan(b"1.", 0), Err(ErrorCode::InvalidNumber));
    assert_eq!(scan(b"1e", 0), Err(ErrorCode::InvalidNumber));
    assert_eq!(scan(b"1e+", 0), Err(ErrorCode::InvalidNumber));
}

#[test]
fn scan_keeps_nineteen_significant_digits() {
    let (d, end) = scan(b"0.000123456789012345678901234", 0).unwrap();
    assert_eq!(end, 29);
    assert_eq!(d.mantissa, 1234567890123456789);
    assert_eq!(d.exp10, -22);
    assert!(d.truncated);
}

#[test]
#[allow(clippy::approx_constant)]
fn float_format_matches_glaze() {
    assert_eq!(wf64(5.0), "5");
    assert_eq!(wf64(3.14), "3.14");
    assert_eq!(wf64(0.1), "0.1");
    assert_eq!(wf64(1e300), "1E300");
    assert_eq!(wf64(1e-300), "1E-300");
    assert_eq!(wf64(1e16), "1E16");
    assert_eq!(wf64(1e17), "1E17");
    assert_eq!(wf64(1e-4), "0.0001");
    assert_eq!(wf64(1e-5), "1E-5");
    assert_eq!(wf64(123456789012345680.0), "1.2345678901234568E17");
    assert_eq!(wf64(0.0), "0");
    assert_eq!(wf64(-0.0), "-0");
    assert_eq!(wf64(1.0 / 3.0), "0.3333333333333333");
    assert_eq!(wf64(2.5e-9), "2.5E-9");
    assert_eq!(wf64(100.0), "100");
    assert_eq!(wf64(1e21), "1E21");
    assert_eq!(wf32(5.0), "5");
    assert_eq!(wf32(3.14), "3.14");
    assert_eq!(wf32(1e30), "1E30");
    assert_eq!(wf32(1e-30), "1E-30");

    assert_eq!(wf32(1e5), "100000");
    assert_eq!(wf32(1e6), "1000000");
    assert_eq!(wf32(1e7), "1E7");
    assert_eq!(wf32(1e8), "1E8");
    assert_eq!(wf32(1234567.0), "1234567");
    assert_eq!(wf32(12345678.0), "1.2345678E7");
    assert_eq!(wf32(1e-3), "0.001");
    assert_eq!(wf32(1e-4), "0.0001");
    assert_eq!(wf32(1e-5), "1E-5");
    assert_eq!(wf32(0.5), "0.5");
    assert_eq!(wf32(-0.0), "-0");
    assert_eq!(wf32(f32::MAX), "3.4028235E38");
    assert_eq!(wf32(f32::MIN_POSITIVE), "1.1754944E-38");
    assert_eq!(wf32(1e-45), "1E-45");

    let mut b = Vec::new();
    assert!(!write_f64(f64::NAN.to_bits(), &mut b));
    assert!(!write_f64(f64::INFINITY.to_bits(), &mut b));
    assert!(!write_f64(f64::NEG_INFINITY.to_bits(), &mut b));
    assert!(!write_f32(f32::NAN.to_bits(), &mut b));
    assert!(!write_f32(f32::INFINITY.to_bits(), &mut b));
    assert!(!write_f32(f32::NEG_INFINITY.to_bits(), &mut b));
    assert!(b.is_empty());
}

#[test]
fn float_edge_paths_match_glaze() {
    assert_eq!(wf64(f64::from_bits(1)), "5E-324");
    assert_eq!(wf64(f64::from_bits(2)), "1E-323");
    assert_eq!(wf64(f64::from_bits(3)), "1.5E-323");
    assert_eq!(wf64(f64::from_bits(5)), "2.5E-323");
    assert_eq!(wf64(f64::from_bits(0x8_0000_0000_0000)), "1.1125369292536007E-308");
    assert_eq!(wf64(f64::from_bits(0xf_ffff_ffff_ffff)), "2.225073858507201E-308");
    assert_eq!(wf64(f64::from_bits(0x0f_4240)), "4.940656E-318");
    assert_eq!(wf32(f32::from_bits(1)), "1E-45");
    assert_eq!(wf32(f32::from_bits(2)), "3E-45");
    assert_eq!(wf32(f32::from_bits(0x40_0000)), "5.877472E-39");
    assert_eq!(wf32(f32::from_bits(0x7f_ffff)), "1.1754942E-38");
    assert_eq!(wf32(f32::from_bits(0x0f_4240)), "1.401298E-39");

    assert_eq!(wf64(1.0), "1");
    assert_eq!(wf64(2.0), "2");
    assert_eq!(wf64(f64::MIN_POSITIVE), "2.2250738585072014E-308");
    assert_eq!(wf64(f64::MAX), "1.7976931348623157E308");
}

/// The standard library's `{:e}` digits, normalized.
fn std_digits(s: &str) -> (String, i32) {
    let (mantissa, exp) = s.split_once('e').unwrap();
    let digits: String = mantissa.chars().filter(|c| c.is_ascii_digit()).collect();
    let digits = digits.trim_end_matches('0');
    let digits = if digits.is_empty() { "0" } else { digits };
    (digits.to_string(), exp.parse().unwrap())
}

/// Our output read back in the same normalized form.
fn our_digits(s: &str) -> (String, i32) {
    let (mantissa, exp) = match s.split_once('E') {
        Some((m, e)) => (m, e.parse::<i32>().unwrap()),
        None => (s, 0),
    };
    let neg_point = mantissa.find('.');
    let raw: String = mantissa.chars().filter(|c| c.is_ascii_digit()).collect();
    let int_len = neg_point.map_or(raw.len(), |p| mantissa[..p].chars().filter(|c| c.is_ascii_digit()).count());
    let trimmed = raw.trim_start_matches('0');
    let leading_zeros = raw.len() - trimmed.len();
    let trimmed = trimmed.trim_end_matches('0');
    let trimmed = if trimmed.is_empty() { "0" } else { trimmed };
    let sci = exp + int_len as i32 - 1 - leading_zeros as i32;
    (trimmed.to_string(), sci)
}

/// 1 where the two differ only by a tie-break, which must go to the even
/// digit; any other difference fails.
fn compare(want: &(String, i32), got: &(String, i32)) -> u64 {
    assert_eq!(got.1, want.1, "exponent differs: got {got:?} want {want:?}");
    assert_eq!(got.0.len(), want.0.len(), "digit count differs: got {got:?} want {want:?}");
    if got.0 == want.0 {
        return 0;
    }
    let a: u64 = got.0.parse().unwrap();
    let b: u64 = want.0.parse().unwrap();
    assert_eq!(a.abs_diff(b), 1, "not a tie-break: got {got:?} want {want:?}");
    assert_eq!(a % 2, 0, "tie should have resolved to an even digit: {got:?}");
    1
}

#[test]
fn float_output_is_shortest() {
    let mut next = xorshift(0x5DEE_CE66_D1CE_4005);
    let mut ties = 0u64;
    for _ in 0..500_000 {
        let bits = next();
        let v = f64::from_bits(bits);
        if v.is_finite() && v != 0.0 {
            ties += compare(&std_digits(&format!("{:e}", v.abs())), &our_digits(&wf64(v.abs())));
        }
        let f = f32::from_bits(bits as u32);
        if f.is_finite() && f != 0.0 {
            ties += compare(&std_digits(&format!("{:e}", f.abs())), &our_digits(&wf32(f.abs())));
        }
    }
    assert!(ties < 20_000, "{ties} tie-breaks is too many to be plausible");
}

#[test]
fn float_roundtrip_fuzz() {
    let mut next = xorshift(0x243F_6A88_85A3_08D3);
    for _ in 0..300_000 {
        let bits = next();
        let v = f64::from_bits(bits);
        if !v.is_finite() {
            continue;
        }
        let s = wf64(v);
        let via_std: f64 = s.parse().unwrap();
        assert_eq!(via_std.to_bits(), v.to_bits(), "write {v:e} -> {s}");
        let via_us = pf64(&s);
        assert_eq!(via_us.to_bits(), v.to_bits(), "reparse {s}");

        let f = f32::from_bits(bits as u32);
        if f.is_finite() {
            let s = wf32(f);
            let via_std: f32 = s.parse().unwrap();
            assert_eq!(via_std.to_bits(), f.to_bits(), "write f32 {f:e} -> {s}");
            let via_us = pf32(&s);
            assert_eq!(via_us.to_bits(), f.to_bits(), "reparse f32 {s}");
        }
    }
}
