use bosing::iir::{fallback_filter, specialized_filter};
use bosing::scalar::{Additive, Scalar};

/// A plain `f64` sample for running the filters on floating point data.
#[derive(Debug, Clone, Copy, PartialEq)]
struct F(f64);

// The library states its contracts over the `spec_*` functions of the traits;
// outside Verus they are plain methods, given here the meaning of the
// operation they describe.
impl Additive for F {
    fn spec_zero() -> Self {
        F(0.0)
    }
    fn spec_plus(self, rhs: Self) -> Self {
        F(self.0 + rhs.0)
    }
    fn spec_minus(self, rhs: Self) -> Self {
        F(self.0 - rhs.0)
    }
    fn lemma_zero_arith() {}
    fn zero() -> Self {
        F(0.0)
    }
    fn plus(self, rhs: Self) -> Self {
        F(self.0 + rhs.0)
    }
    fn minus(self, rhs: Self) -> Self {
        F(self.0 - rhs.0)
    }
}

impl Scalar for F {
    fn spec_times(self, rhs: Self) -> Self {
        F(self.0 * rhs.0)
    }
    fn spec_negate(self) -> Self {
        F(-self.0)
    }
    fn lemma_times_zero(_c: Self) {}
    fn times(self, rhs: Self) -> Self {
        F(self.0 * rhs.0)
    }
    fn negate(self) -> Self {
        F(-self.0)
    }
}

fn get_test_case() -> (Vec<Vec<F>>, Vec<Vec<F>>, Vec<Vec<F>>) {
    // Generated using scipy.signal.sosfilt
    let signal = vec![vec![F(1.0); 10]; 2];
    let sos = vec![
        vec![
            0.41745636685930126,
            -0.8124669318632639,
            0.39511212971824017,
            1.0,
            -1.9517167839624654,
            0.9518873960332694,
        ],
        vec![
            1.0,
            -1.998900504749875,
            0.9989006046949026,
            1.0,
            -1.9990955877237742,
            0.9990956472206675,
        ],
    ];
    let sos = sos.into_iter().map(|r| r.into_iter().map(F).collect()).collect();
    let arr1d: Vec<F> = vec![
        0.41745636685930126,
        0.419827471396848,
        0.4221187550258305,
        0.4243336840250656,
        0.4264755709173414,
        0.42854758130187326,
        0.43055274038309926,
        0.4324939392093115,
        0.4343739406340189,
        0.4361953850123652,
    ]
    .into_iter()
    .map(F)
    .collect();
    let expected = vec![arr1d.clone(), arr1d];
    (signal, sos, expected)
}

#[test]
fn test_specialized_filter() {
    let (mut signal, sos, expected) = get_test_case();
    specialized_filter::<_, 2>(&mut signal, &sos).unwrap();
    assert_eq!(signal, expected);
}

#[test]
fn test_fallback_filter() {
    let (mut signal, sos, expected) = get_test_case();
    fallback_filter(&mut signal, &sos).unwrap();
    assert_eq!(signal, expected);
}
