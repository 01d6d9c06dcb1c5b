use http_compression::natural::{Natural, Relation};
use http_compression::quality::{parse_quality, Quality, ONE};

fn parse(text: &str) -> Option<Quality> {
    let text: Vec<char> = text.chars().collect();
    parse_quality(&text)
}

fn quality_of(value: f32) -> Quality {
    if value.is_nan() {
        return Quality::NotANumber;
    }
    let bits = (value.to_bits() & 0x7fff_ffff) as i32;
    if value.is_sign_negative() {
        Quality::Number(-bits)
    } else {
        Quality::Number(bits)
    }
}

fn agrees(text: &str) {
    let expected = text.parse::<f32>().ok().map(quality_of);
    assert_eq!(parse(text), expected, "{text}");
}

#[test]
fn ordinary_numbers() {
    assert_eq!(parse("1"), Some(Quality::Number(ONE)));
    assert_eq!(parse("1.0"), Some(Quality::Number(ONE)));
    assert_eq!(parse("0.5"), Some(Quality::Number(0x3f00_0000)));
    assert_eq!(parse("0"), Some(Quality::Number(0)));
    assert_eq!(parse("-0"), Some(Quality::Number(0)));
    assert_eq!(parse("-2"), Some(Quality::Number(-0x4000_0000)));
    for n in 0..=1000 {
        agrees(&format!("{}.{:03}", n / 1000, n % 1000));
        agrees(&format!("{}", n));
        agrees(&format!(".{:03}", n));
    }
}

#[test]
fn texts_that_are_no_numbers() {
    for text in [
        "", "+", "-", ".", "+.", "e5", ".e5", "1e", "1e+", "1e-", "1.2.3", "1x", " 1", "1 ", "--1",
        "+-1", "0x1", "1_0", "one", "infin", "nano", "in", "1e5.0", "1e 5", "\u{661}",
    ] {
        assert_eq!(parse(text), None, "{text}");
        agrees(text);
    }
}

#[test]
fn names_of_special_values() {
    for text in [
        "inf", "INF", "Infinity", "+inf", "-infinity", "-INF", "nan", "NaN", "+nan", "-NAN",
    ] {
        agrees(text);
    }
    assert_eq!(parse("inf"), Some(Quality::Number(0x7f80_0000)));
    assert_eq!(parse("nan"), Some(Quality::NotANumber));
}

#[test]
fn forms_of_numbers() {
    for text in [
        "1.", ".5", "+.5", "-.5e0", "5e-1", "5E-1", "50e-2", "0.005e2", "0.005e+2", "00000.5",
        "1e0", "1e1", "1e10", "1e38", "1e39", "1e40", "1e41", "1e-37", "1e-38", "1e-39", "1e-44",
        "1e-45", "1e-46", "1e-47", "1e-60", "0e99999999999999999999999999999999999",
        "1e99999999999999999999999999999999999", "1e-99999999999999999999999999999999999",
        "-1e99999999999999999999999999999999999",
    ] {
        agrees(text);
    }
}

#[test]
fn ties_go_to_even() {
    for text in [
        "16777217",
        "16777219",
        "16777217.0000000000000000000000000000000000000000001",
        "16777216.9999999999999999999999999999999999999999999",
        "1.000000059604644775390625",
        "1.0000000596046447753906250000000000001",
        "1.000000178813934326171875",
        "340282356779733661637539395458142568447",
        "340282356779733661637539395458142568448",
        "340282356779733661637539395458142568449",
        "340282346638528859811704183484516925440",
        "7.00649232162408535461864791644958065640130970938257885878534141944895541342930300743319094181060791015625e-46",
        "7.00649232162408535461864791644958065640130970938257885878534141944895541342930300743319094181060791015624e-46",
        "7.00649232162408535461864791644958065640130970938257885878534141944895541342930300743319094181060791015626e-46",
        "1.1754942807573642918278299103576651e-38",
        "1.17549428075736429e-38",
        "1.17549435e-38",
    ] {
        agrees(text);
    }
}

#[test]
fn long_numbers() {
    let zeros = "0".repeat(2000);
    agrees(&format!("0.{zeros}1"));
    agrees(&format!("0.{zeros}1e2000"));
    agrees(&format!("1{zeros}e-2000"));
    agrees(&format!("1{zeros}"));
    agrees(&format!("0.3{zeros}1"));
    agrees(&"3".repeat(500));
    agrees(&format!("0.{}", "3".repeat(500)));
}

#[test]
fn scattered_numbers() {
    let mut seed: u64 = 12345;
    let mut next = |bound: u64| {
        seed = seed
            .wrapping_mul(6364136223846793005)
            .wrapping_add(1442695040888963407);
        (seed >> 33) % bound
    };
    for _ in 0..3000 {
        let whole = next(1 << 30);
        let fraction = next(1 << 30);
        let exponent = next(110) as i64 - 60;
        agrees(&format!("{whole}.{fraction}e{exponent}"));
    }
    for _ in 0..2000 {
        // Numbers that are written from single-precision values, and midpoints
        // between neighbours
        let bits = (next(0x7f80) << 16 | next(1 << 16)) as u32;
        let value = f32::from_bits(bits);
        agrees(&format!("{value}"));
        agrees(&format!("{value:e}"));
        let above = f32::from_bits(bits + 1);
        if above.is_finite() {
            let middle = (value as f64 + above as f64) / 2.0;
            agrees(&format!("{middle}"));
        }
    }
}

#[test]
fn comparisons() {
    let half = Quality::Number(0x3f00_0000);
    let one = Quality::one();
    assert!(one.exceeds(half));
    assert!(!half.exceeds(one));
    assert!(!one.exceeds(one));
    assert!(one.equals(one));
    assert!(!one.equals(half));
    assert!(Quality::Number(0).is_zero());
    assert!(!one.is_zero());
    let none = Quality::NotANumber;
    assert!(!none.is_zero());
    assert!(!none.equals(none));
    assert!(!none.exceeds(one));
    assert!(!one.exceeds(none));
}

#[test]
fn rounding_keeps_order() {
    let mut last = -1;
    for n in 0..2000 {
        match parse(&format!("0.{:07}", n)) {
            Some(Quality::Number(rank)) => {
                assert!(last <= rank);
                last = rank;
            }
            other => panic!("{other:?}"),
        }
    }
}

#[test]
fn large_numbers() {
    let mut a = Natural::new(0xffff_ffff);
    let mut b = a.copy();
    assert_eq!(a.relation(&b), Relation::Equal);
    a.multiply_add(0xffff_ffff, 0xffff_ffff);
    assert_eq!(a.relation(&b), Relation::Greater);
    assert_eq!(b.relation(&a), Relation::Less);
    // (2^32 - 1)(2^32 - 1) + 2^32 - 1 == (2^32 - 1) * 2^32
    b.shift(32);
    assert_eq!(a.relation(&b), Relation::Equal);
    b.shift(17);
    for _ in 0..17 {
        assert_eq!(a.relation(&b), Relation::Less);
        a.multiply_add(2, 0);
    }
    assert_eq!(a.relation(&b), Relation::Equal);
    a.multiply_add(1, 1);
    assert_eq!(a.relation(&b), Relation::Greater);
}
