use ndreduce::array::ArrayRef;
use ndreduce::element::{Additive, Dividing, MomentOps, Multiplicative, Subtractive};

// A double-precision element for the capability traits, as a host
// application would supply one.
#[derive(Clone, Copy, PartialEq, Debug)]
struct F64(f64);

impl Additive for F64 {
    fn zero() -> F64 {
        F64(0.0)
    }
    fn add(self, o: F64) -> F64 {
        F64(self.0 + o.0)
    }
}

impl Multiplicative for F64 {
    fn one() -> F64 {
        F64(1.0)
    }
    fn mul(self, o: F64) -> F64 {
        F64(self.0 * o.0)
    }
}

impl Subtractive for F64 {
    fn sub(self, o: F64) -> F64 {
        F64(self.0 - o.0)
    }
}

impl Dividing for F64 {
    fn div(self, o: F64) -> F64 {
        F64(self.0 / o.0)
    }
    fn from_count(n: usize) -> Option<F64> {
        Some(F64(n as f64))
    }
}

impl MomentOps for F64 {
    fn fma(self, b: F64, c: F64) -> F64 {
        F64(self.0.mul_add(b.0, c.0))
    }
    fn sqrt(self) -> F64 {
        F64(self.0.sqrt())
    }
    fn le(self, o: F64) -> bool {
        self.0 <= o.0
    }
}

fn f64_arr(vals: &[f64], shape: Vec<usize>) -> ArrayRef<F64> {
    let data: Vec<F64> = vals.iter().map(|v| F64(*v)).collect();
    ArrayRef::from_vec(data, shape)
}

#[test]
fn float_sum_and_mean() {
    let a = f64_arr(&[1.0, 2.0, 3.0, 4.0], vec![2, 2]);
    assert_eq!(a.sum().0, 10.0);
    assert_eq!(a.mean().unwrap().unwrap().0, 2.5);
}

#[test]
fn float_product() {
    let a = f64_arr(&[1.0, 2.0, 3.0, 4.0], vec![2, 2]);
    assert_eq!(a.product().0, 24.0);
}

#[test]
fn float_sample_variance_known_sequence() {
    let a = f64_arr(&[1.0, -4.32, 1.14, 0.32], vec![4]);
    let var = a.var(F64(1.0)).unwrap().0;
    assert!((var - 6.7331).abs() < 1e-4);
}

#[test]
fn float_sample_stddev_known_sequence() {
    let a = f64_arr(&[1.0, -4.32, 1.14, 0.32], vec![4]);
    let sd = a.stddev(F64(1.0)).unwrap().0;
    assert!((sd - 2.59483).abs() < 1e-4);
}

#[test]
fn float_population_variance() {
    let a = f64_arr(&[1.0, 2.0, 3.0, 4.0], vec![4]);
    assert_eq!(a.var(F64(0.0)).unwrap().0, 1.25);
}

#[test]
fn float_stddev_is_sqrt_of_var() {
    let a = f64_arr(&[2.0, 4.0, 4.0, 4.0, 5.0, 5.0, 7.0, 9.0], vec![8]);
    for ddof in [0.0, 1.0] {
        let v = a.var(F64(ddof)).unwrap().0;
        let s = a.stddev(F64(ddof)).unwrap().0;
        assert_eq!(s, v.sqrt());
    }
}

#[test]
fn float_var_axis_example() {
    let a = f64_arr(&[1.0, 2.0, 3.0, 4.0, 5.0, 6.0], vec![3, 2]);
    let v = a.var_axis(0, F64(1.0)).unwrap();
    assert_eq!(v.data[0].0, 4.0);
    assert_eq!(v.data[1].0, 4.0);
}

#[test]
fn float_diff_of_cubics() {
    let a = f64_arr(&[1.0, 8.0, 27.0, 64.0], vec![4]);
    let d = a.diff(1, 0).unwrap();
    assert_eq!(d.data.iter().map(|x| x.0).collect::<Vec<f64>>(), vec![7.0, 19.0, 37.0]);
}

#[test]
fn float_cumprod() {
    let a = f64_arr(&[1.0, 2.0, 3.0], vec![3]);
    let c = a.cumprod(0).unwrap();
    assert_eq!(c.data.iter().map(|x| x.0).collect::<Vec<f64>>(), vec![1.0, 2.0, 6.0]);
}
