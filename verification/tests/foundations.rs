use hypercube::clock::capped_micros;
use hypercube::cube::InputRow;
use hypercube::number::{Arithmetic, Double, Term};
use hypercube::table::Table;
use hypercube::text::{
    is_ascii_alphanumeric, is_before, is_blank, is_control, is_white_space, letters, push_decimal,
    push_hex, push_signed_decimal, push_zero_padded, same_text,
};

fn d(x: f64) -> Double {
    Double::from_bits(x.to_bits())
}

fn samples() -> Vec<f64> {
    vec![
        0.0,
        -0.0,
        1.0,
        -1.0,
        f64::MIN_POSITIVE,
        -f64::MIN_POSITIVE,
        5e-324,
        -5e-324,
        f64::MAX,
        f64::MIN,
        f64::INFINITY,
        f64::NEG_INFINITY,
        f64::NAN,
        -f64::NAN,
        0.1,
        -2.5,
    ]
}

#[test]
fn bit_patterns_are_judged_as_numbers() {
    for x in samples() {
        assert_eq!(d(x).is_nan(), x.is_nan());
        assert_eq!(d(x).is_finite(), x.is_finite());
        assert_eq!(d(x).absolute().to_bits(), x.abs().to_bits());
        assert_eq!(d(x).negated().to_bits(), (-x).to_bits());
        for y in samples() {
            assert_eq!(d(x).is_below(d(y)), x < y, "{x} {y}");
            assert_eq!(d(x).is_at_most(d(y)), x <= y, "{x} {y}");
            assert_eq!(d(x).equals(d(y)), x == y, "{x} {y}");
            assert_eq!(
                d(x).is_totally_below(d(y)),
                x.total_cmp(&y).is_lt(),
                "{x} {y}"
            );
        }
        assert_eq!(d(x).at_least(d(1.0)), d(x.max(1.0)));
    }
}

#[test]
fn character_classes_are_those_of_unicode() {
    for c in '\0'..=char::MAX {
        assert_eq!(is_white_space(c), c.is_whitespace(), "{c:?}");
        assert_eq!(is_control(c), c.is_control(), "{c:?}");
        assert_eq!(is_ascii_alphanumeric(c), c.is_ascii_alphanumeric(), "{c:?}");
    }
}

#[test]
fn texts_are_compared_as_strings() {
    let words = ["", " ", "a", "ab", "b", "\u{e9}", "\u{1f600}", "\u{ffff}", "A"];
    for left in words {
        assert_eq!(is_blank(left), left.trim().is_empty());
        assert_eq!(letters(left), left.chars().collect::<Vec<char>>());
        for right in words {
            assert_eq!(same_text(left, right), left == right);
            assert_eq!(is_before(left, right), left < right, "{left} {right}");
        }
    }
}

#[test]
fn numbers_are_written_in_full() {
    for n in [0u64, 7, 10, 4_096, u64::MAX] {
        let mut text = String::from("n=");
        push_decimal(&mut text, n);
        assert_eq!(text, format!("n={n}"));
        let mut text = String::new();
        push_zero_padded(&mut text, n, 4);
        assert_eq!(text, format!("{n:04}"));
        let mut text = String::new();
        push_hex(&mut text, n, 16);
        assert_eq!(text, format!("{n:016x}"));
    }
    for n in [0i64, -1, i64::MIN, i64::MAX] {
        let mut text = String::new();
        push_signed_decimal(&mut text, n);
        assert_eq!(text, format!("{n}"));
    }
}

#[test]
fn tables_keep_their_keys_in_order() {
    let mut table: Table<u32> = Table::new();
    for (key, value) in [("m", 1), ("a", 2), ("z", 3), ("m", 4)] {
        table.insert(key.to_owned(), value);
    }
    let keys: Vec<&str> = (0..table.len()).map(|i| table.key_at(i).as_str()).collect();
    assert_eq!(keys, vec!["a", "m", "z"]);
    assert_eq!(table.get("m"), Some(&4));
    assert_eq!(table.get("b"), None);
    let kept = table.selected(&vec![true, false, true]);
    assert_eq!(kept.len(), 2);
    assert_eq!(kept.get("m"), None);
    assert_eq!(table.clone(), table);
}

struct Counting;

impl Arithmetic for Counting {
    fn plus(&self, x: Double, _: Double) -> Double {
        x
    }

    fn minus(&self, x: Double, _: Double) -> Double {
        x
    }

    fn times(&self, x: Double, _: Double) -> Double {
        x
    }

    fn over(&self, x: Double, _: Double) -> Double {
        x
    }

    fn root(&self, x: Double) -> Double {
        x
    }

    fn exponential(&self, x: Double) -> Double {
        x
    }

    fn logarithm(&self, x: Double) -> Double {
        x
    }

    fn sine(&self, x: Double) -> Double {
        x
    }

    fn cosine(&self, x: Double) -> Double {
        x
    }

    fn nearest(&self, n: u64) -> Double {
        Double::from_bits(n)
    }
}

#[test]
fn terms_use_the_given_arithmetic() {
    let three = Term::integer(&Counting, 3);
    assert_eq!(three.value.to_bits(), 3);
    let kept = three.plus(&Counting, Term::constant(&Counting, 9));
    assert_eq!(kept.value.to_bits(), 3);
}

#[test]
fn durations_are_capped() {
    assert_eq!(capped_micros(7), 7);
    assert_eq!(capped_micros(u128::MAX), u64::MAX);
}

#[test]
fn numbers_are_equal_by_value() {
    assert_eq!(d(0.0), d(-0.0));
    assert_ne!(d(f64::NAN), d(f64::NAN));
    assert_eq!(d(f64::INFINITY), d(f64::INFINITY));
    assert_ne!(d(1.0), d(1.0 + f64::EPSILON));
    let row = |x: f64| InputRow::new("A", 1).with_field("x", d(x));
    assert_eq!(row(0.0), row(-0.0));
    assert_ne!(row(f64::NAN), row(f64::NAN));
}
