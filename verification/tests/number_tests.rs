//! Number engine tests.

use apecrunch::number::Number;

#[test]
fn test_number_round_denom() {
    let fract1 = Number::from_str("3/8").unwrap();
    let fract2 = Number::from_str("1/4").unwrap();

    let fract3 = Number::round_denom(fract1, &vec!['4']);

    assert_eq!(fract2, fract3);
}

#[test]
fn test_number_simplify() {
    let fract1 = Number::from_str("1/4").unwrap();
    let fract2 = Number::from_str("3/16")
        .unwrap()
        .add(&Number::from_str("1/16").unwrap());

    assert_eq!(fract1, fract2);
}

// The lossless fraction literal reads back as exactly the same number.
#[test]
fn test_fraction_literal_round_trip() {
    for s in ["0", "7", "2/3", "-5/4", "0.125", "1/3"] {
        let n = Number::from_str(s).unwrap();
        let lit = n.fraction_literal();
        let back = Number::from_fraction_literal(&lit).unwrap();
        assert_eq!(n, back);
    }

    let inf = Number::from_str("1/0").unwrap();
    assert_eq!(inf.fraction_literal(), "inf");
    assert_eq!(Number::from_fraction_literal("inf").unwrap(), inf);

    let nan = Number::from_str("0/0").unwrap();
    assert_eq!(nan.fraction_literal(), "NaN");
    assert_eq!(Number::from_fraction_literal("NaN").unwrap(), nan);
}
