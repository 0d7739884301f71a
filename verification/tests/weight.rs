use launchr::weight::{weigh, Weight};

/// The same computation in floating point.
fn by_float(score: i32, weight: f32) -> i32 {
    let score = score as f32;
    (if score >= 0.0 { score * weight } else { score / weight }) as i32
}

fn weights() -> Vec<(Weight, f32)> {
    vec![
        (Weight::name(), 1.0),
        (Weight::generic_name(), 0.65),
        (Weight::executable(), 0.6),
        (Weight::keywords(), 0.45),
        (Weight::comment(), 0.35),
    ]
}

#[test]
fn a_lower_weight_is_worth_less_whatever_the_sign() {
    // Multiplying would have made the smaller weight the larger number.
    assert!(weigh(-31, Weight::keywords()) > weigh(-31, Weight::comment()));
    assert!(weigh(80, Weight::keywords()) > weigh(80, Weight::comment()));
    assert_eq!(weigh(0, Weight::keywords()), 0);
}

#[test]
fn weighing_agrees_with_single_precision() {
    for (weight, float) in weights() {
        for score in -70_000..70_000 {
            assert_eq!(weigh(score, weight), by_float(score, float), "{score} by {float}");
        }
    }
}

#[test]
fn weighing_large_scores_agrees_with_single_precision() {
    for (weight, float) in weights() {
        for power in 16..31 {
            for step in [-129i64, -65, -64, -3, -2, -1, 0, 1, 2, 3, 63, 64, 65, 127, 129] {
                for sign in [1i64, -1] {
                    let score = (sign * ((1i64 << power) + step)) as i32;
                    assert_eq!(weigh(score, weight), by_float(score, float), "{score} by {float}");
                }
            }
        }
        for score in [i32::MAX, i32::MAX - 64, i32::MIN, i32::MIN + 1, 751_619_276, -751_619_277] {
            assert_eq!(weigh(score, weight), by_float(score, float), "{score} by {float}");
        }
    }
}

#[test]
fn a_full_weight_keeps_a_score() {
    for score in [-16_777_216, -31, 0, 7, 16_777_216] {
        assert_eq!(weigh(score, Weight::name()), score);
    }
}

#[test]
fn weighed_scores_are_exact() {
    assert_eq!(weigh(80, Weight::comment()), 28);
    assert_eq!(weigh(80, Weight::keywords()), 36);
    assert_eq!(weigh(-31, Weight::comment()), -88);
    assert_eq!(weigh(-31, Weight::keywords()), -68);
}
