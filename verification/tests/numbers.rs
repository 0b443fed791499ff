use rust_db_logic::bytes::Relation;
use rust_db_logic::number::{
    compare_numbers, key_of_bits, magnitude_to_bits, number_to_bits, Double, Number,
};

fn relation_of(a: f64, b: f64) -> Relation {
    if a < b {
        Relation::Less
    } else if a > b {
        Relation::Greater
    } else {
        Relation::Equal
    }
}

#[test]
fn the_projection_of_an_integer_is_the_nearest_double() {
    let two_53 = 1i64 << 53;
    for n in [
        0i64,
        1,
        -1,
        2,
        3,
        1023,
        1 << 52,
        (1 << 52) + 1,
        two_53 - 1,
        two_53,
        two_53 + 1,
        two_53 + 2,
        two_53 + 3,
        two_53 + 5,
        two_53 + 6,
        -(two_53 + 1),
        -(two_53 + 3),
        123456789012345678,
        -987654321098765432,
        i64::MAX,
        i64::MAX - 511,
        i64::MAX - 512,
        i64::MAX - 1024,
        i64::MIN,
        i64::MIN + 1,
    ] {
        assert_eq!(number_to_bits(&Number::Int(n)), (n as f64).to_bits(), "for {}", n);
    }
}

#[test]
fn the_projection_of_an_unsigned_integer_is_the_nearest_double() {
    for n in [
        0u64,
        1,
        u64::MAX,
        u64::MAX - 1023,
        u64::MAX - 1024,
        u64::MAX - 2047,
        (1 << 63) + 1024,
        (1 << 63) + 1025,
        (1 << 63) + 3072,
        (1 << 54) + 2,
        (1 << 54) + 6,
    ] {
        assert_eq!(number_to_bits(&Number::UInt(n)), (n as f64).to_bits(), "for {}", n);
    }
}

#[test]
fn the_projection_agrees_with_the_machine_on_many_integers() {
    let mut state: u64 = 0x9e37_79b9_7f4a_7c15;
    for _ in 0..20000 {
        state = state.wrapping_mul(6364136223846793005).wrapping_add(1442695040888963407);
        let shift = (state >> 58) as u32;
        let n = state >> shift;
        assert_eq!(number_to_bits(&Number::UInt(n)), (n as f64).to_bits(), "for {}", n);
        let signed = (state as i64) >> (shift % 60);
        assert_eq!(number_to_bits(&Number::Int(signed)), (signed as f64).to_bits(), "for {}", signed);
        if n > 0 {
            assert_eq!(magnitude_to_bits(n), (n as f64).to_bits());
        }
    }
}

#[test]
fn finite_doubles_are_ordered_as_their_keys() {
    let samples: [f64; 14] = [
        -1e308, -2.5, -1.0, -5e-324, -0.0, 0.0, 5e-324, 1e-300, 0.5, 1.0, 1.5, 2.0, 1e18, 1e308,
    ];
    for a in samples {
        for b in samples {
            let ka = key_of_bits(a.to_bits());
            let kb = key_of_bits(b.to_bits());
            let by_keys = if ka < kb {
                Relation::Less
            } else if ka > kb {
                Relation::Greater
            } else {
                Relation::Equal
            };
            assert_eq!(by_keys, relation_of(a, b), "for {} and {}", a, b);
        }
    }
}

#[test]
fn numbers_compare_as_their_doubles_do() {
    let integers = [i64::MIN, -3, 0, 1, 2, (1 << 53) + 1, i64::MAX];
    let doubles: [f64; 8] = [-9.3e18, -2.5, -0.0, 0.5, 1.0, 2.0, 9007199254740992.0, 9.3e18];
    for a in integers {
        for b in integers {
            assert_eq!(
                compare_numbers(&Number::Int(a), &Number::Int(b)),
                relation_of(a as f64, b as f64)
            );
        }
        for d in doubles {
            let number = Number::Float(Double::new(d.to_bits(), Vec::new()));
            assert_eq!(compare_numbers(&Number::Int(a), &number), relation_of(a as f64, d));
            assert_eq!(compare_numbers(&number, &Number::Int(a)), relation_of(d, a as f64));
        }
    }
}

#[test]
fn only_an_exponent_of_all_ones_is_not_finite() {
    assert!(Double::new(1.0f64.to_bits(), Vec::new()).is_finite());
    assert!(Double::new(f64::MAX.to_bits(), Vec::new()).is_finite());
    assert!(Double::new((-0.0f64).to_bits(), Vec::new()).is_finite());
    assert!(!Double::new(f64::INFINITY.to_bits(), Vec::new()).is_finite());
    assert!(!Double::new(f64::NEG_INFINITY.to_bits(), Vec::new()).is_finite());
    assert!(!Double::new(f64::NAN.to_bits(), Vec::new()).is_finite());
}

#[test]
fn numbers_are_the_same_by_what_they_stand_for() {
    assert!(Number::Int(5).same(&Number::UInt(5)));
    assert!(Number::UInt(5).same(&Number::Int(5)));
    assert!(!Number::Int(-1).same(&Number::UInt(u64::MAX)));
    assert!(!Number::Int(1).same(&Number::Float(Double::new(1.0f64.to_bits(), b"1.0".to_vec()))));
    let a = Number::Float(Double::new(1.0f64.to_bits(), b"1.0".to_vec()));
    assert!(a.same(&a.duplicate()));
}
