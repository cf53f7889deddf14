use cadmpeg_codec_build123d::list::{copied, sort_stable};
use cadmpeg_codec_build123d::assign::Candidate;
use cadmpeg_codec_build123d::program::{CountKey, Program};
use cadmpeg_codec_build123d::scalar::Scalar;
use cadmpeg_codec_build123d::text::{decimal, join, precedes};

fn s(value: f64) -> Scalar {
    Scalar { bits: value.to_bits() }
}

const SAMPLES: [f64; 12] = [
    f64::NAN,
    -f64::NAN,
    f64::INFINITY,
    f64::NEG_INFINITY,
    0.0,
    -0.0,
    1.0,
    -1.0,
    1.5,
    f64::MIN_POSITIVE,
    f64::MAX,
    5e-324,
];

#[test]
fn patterns_order_as_the_numbers_they_stand_for() {
    for a in SAMPLES {
        assert_eq!(s(a).is_nan(), a.is_nan());
        assert_eq!(s(a).is_finite(), a.is_finite());
        assert_eq!(s(a).abs(), s(a.abs()));
        assert_eq!(s(a).neg(), s(-a));
        for b in SAMPLES {
            assert_eq!(s(a).lt(s(b)), a < b);
            assert_eq!(s(a).le(s(b)), a <= b);
            assert_eq!(s(a).total_lt(s(b)), a.total_cmp(&b).is_lt());
            let least = f64::from_bits(s(a).min(s(b)).bits);
            let most = f64::from_bits(s(a).max(s(b)).bits);
            assert!(least == a.min(b) || (least.is_nan() && a.min(b).is_nan()));
            assert!(most == a.max(b) || (most.is_nan() && a.max(b).is_nan()));
        }
    }
}

#[test]
fn counts_are_written_in_decimal() {
    assert_eq!(decimal(0), "0");
    assert_eq!(decimal(9), "9");
    assert_eq!(decimal(10), "10");
    assert_eq!(decimal(90210), "90210");
    assert_eq!(decimal(usize::MAX), format!("{}", usize::MAX));
}

#[test]
fn pieces_are_joined_with_a_separator_between() {
    let pieces = vec!["a".to_owned(), "".to_owned(), "b".to_owned()];
    assert_eq!(join(&pieces, ", "), "a, , b");
    assert_eq!(join(&vec![], ", "), "");
    assert_eq!(join(&vec!["x".to_owned()], ", "), "x");
}

#[test]
fn texts_order_by_their_bytes() {
    let texts = ["", "a", "aa", "ab", "b", "Z", "\u{e9}", "\u{10348}", "\u{ffee}"];
    for a in texts {
        for b in texts {
            assert_eq!(precedes(a, b), a < b);
        }
    }
}

#[test]
fn equal_items_keep_their_order() {
    let items: Vec<Candidate> = [2.0, 1.0, 2.0, f64::NAN, 1.0, -0.0, 0.0]
        .iter()
        .enumerate()
        .map(|(ring, cost)| Candidate { cost: s(*cost), ring, surface: 0 })
        .collect();
    let order: Vec<usize> = sort_stable(&items).into_iter().map(|item| item.ring).collect();
    assert_eq!(order, vec![5, 6, 1, 4, 0, 2, 3]);
    assert_eq!(copied(&order), order);
}

#[test]
fn a_program_collects_lines_notes_and_counts() {
    let mut program = Program::new();
    program.push("top");
    program.body("inner");
    program.body("");
    program.count(CountKey::Extrudes);
    program.count(CountKey::Extrudes);
    program.count(CountKey::Sketches);
    assert_eq!(program.text(), "top\n    inner\n");
    assert_eq!(
        program.counts.entries(),
        vec![("extrudes".to_owned(), 2), ("sketches".to_owned(), 1)]
    );
}
