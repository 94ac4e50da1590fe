use openrank_core::et::{is_converged, iteration, normalise_scores};
use openrank_core::single::{abs, is_positive, is_zero, le, lt};
use openrank_core::trust::OutboundLocalTrust;

fn bits(x: f32) -> u32 {
    x.to_bits()
}

const VALUES: [f32; 7] = [0.1, 0.2, 1.0, 3.0, 1e-30, 7.0e20, 0.7];

#[test]
fn sums_and_quotients_match_native_single_precision() {
    for a in VALUES {
        for b in VALUES {
            let sum = (0.0f32 + a) + b;
            let r = normalise_scores(&vec![bits(a), bits(b)]);
            assert_eq!(r, vec![bits(a / sum), bits(b / sum)]);
        }
    }
    assert_ne!(normalise_scores(&vec![bits(3.0)]), vec![bits(3.0)]);
}

#[test]
fn products_match_native_single_precision() {
    for v in VALUES {
        for w in VALUES {
            let mut row = OutboundLocalTrust::new();
            row.insert(1, bits(v));
            let next = iteration(&vec![Some(row), None], &vec![0, 0], &vec![bits(w), 0]);
            let expected = 0.5f32 * 0.0 + (0.0f32 + v * w) * 0.5;
            assert_eq!(next[1], bits(expected));
        }
    }
}

#[test]
fn differences_match_native_single_precision() {
    for a in [0.5f32, 0.25, 0.0, 0.011, 0.3] {
        for b in [0.5f32, 0.495, 0.26, 0.009, 0.31] {
            let (ok, count) = is_converged(&vec![bits(a)], &vec![bits(b)]);
            assert_eq!(ok, (b - a).abs() < 0.01);
            assert_eq!(count, if ok { 0 } else { 1 });
        }
    }
}

#[test]
fn comparisons_match_native_single_precision() {
    let xs = [0.1f32, 0.2, 1.0, -3.0, -2.5, 0.0, -0.0, f32::INFINITY, f32::NEG_INFINITY, f32::NAN];
    for a in xs {
        for b in xs {
            assert_eq!(lt(bits(a), bits(b)), a < b);
            assert_eq!(le(bits(a), bits(b)), a <= b);
        }
        assert_eq!(abs(bits(a)), bits(a.abs()));
        assert_eq!(is_zero(bits(a)), a == 0.0);
        assert_eq!(is_positive(bits(a)), a > 0.0);
    }
}
