use ds_util::bits::{is_nan, is_percentile, order_key_of, HUNDRED_BITS, NAN_BITS};
use ds_util::stats::{number_pairs_of, numbers_of, sorted_numbers};

fn bits(values: &[f64]) -> Vec<u64> {
    values.iter().map(|v| v.to_bits()).collect()
}

fn sample() -> Vec<f64> {
    let mut v = vec![
        0.0,
        -0.0,
        1.0,
        -1.0,
        f64::INFINITY,
        f64::NEG_INFINITY,
        f64::MAX,
        f64::MIN,
        f64::MIN_POSITIVE,
        -f64::MIN_POSITIVE,
        5e-324,
        -5e-324,
        f64::EPSILON,
        100.0,
        99.99999999999999,
        100.00000000000001,
        3.5,
        2.25e10,
        -7.125e-3,
        0.1,
        0.30000000000000004,
    ];
    let mut x: u64 = 0x9e3779b97f4a7c15;
    for _ in 0..200 {
        x ^= x << 13;
        x ^= x >> 7;
        x ^= x << 17;
        let f = f64::from_bits(x);
        if !f.is_nan() {
            v.push(f);
        }
    }
    v
}

#[test]
fn nan_is_told_from_the_bits() {
    for v in sample() {
        assert!(!is_nan(v.to_bits()), "{:?}", v);
    }
    assert!(is_nan(NAN_BITS));
    assert!(is_nan(f64::NAN.to_bits()));
    assert!(is_nan((-f64::NAN).to_bits()));
    assert!(is_nan(0x7ff0_0000_0000_0001));
    assert!(is_nan(0xfff0_0000_0000_0001));
    assert!(is_nan(0x7fff_ffff_ffff_ffff));
    assert!(!is_nan(0x7ff0_0000_0000_0000));
    assert!(!is_nan(0xfff0_0000_0000_0000));
    assert!(!is_nan(0));
}

#[test]
fn nan_test_agrees_with_the_numbers() {
    let mut x: u64 = 1;
    for _ in 0..100_000 {
        x = x.wrapping_mul(6364136223846793005).wrapping_add(1442695040888963407);
        assert_eq!(is_nan(x), f64::from_bits(x).is_nan());
        let y = x | 0x7ff0_0000_0000_0000;
        assert_eq!(is_nan(y), f64::from_bits(y).is_nan());
    }
}

#[test]
fn keys_order_like_the_numbers() {
    let v = sample();
    for a in &v {
        for b in &v {
            let (ka, kb) = (order_key_of(a.to_bits()), order_key_of(b.to_bits()));
            assert_eq!(a.partial_cmp(b), Some(ka.cmp(&kb)), "{:?} {:?}", a, b);
        }
    }
}

#[test]
fn keys_of_the_zeros_and_the_ends() {
    assert_eq!(order_key_of(0.0f64.to_bits()), 0);
    assert_eq!(order_key_of((-0.0f64).to_bits()), 0);
    assert_eq!(order_key_of(5e-324f64.to_bits()), 1);
    assert_eq!(order_key_of((-5e-324f64).to_bits()), -1);
    assert_eq!(order_key_of(u64::MAX), -i64::MAX);
    assert_eq!(order_key_of(0x7fff_ffff_ffff_ffff), i64::MAX);
}

#[test]
fn hundred_bits_are_one_hundred() {
    assert_eq!(f64::from_bits(HUNDRED_BITS), 100.0);
}

#[test]
fn percentiles_range_from_zero_to_one_hundred() {
    for p in [0.0, -0.0, 1e-300, 50.0, 99.9, 100.0] {
        assert!(is_percentile(f64::to_bits(p)), "{:?}", p);
    }
    for p in [-1e-300, -1.0, 100.00000000000001, 101.0, f64::INFINITY, f64::NEG_INFINITY, f64::NAN]
    {
        assert!(!is_percentile(f64::to_bits(p)), "{:?}", p);
    }
    for p in sample() {
        assert_eq!(is_percentile(p.to_bits()), (0.0..=100.0).contains(&p), "{:?}", p);
    }
}

#[test]
fn numbers_leave_out_what_is_not_a_number() {
    let v = bits(&[1.0, f64::NAN, 2.0, f64::NAN, f64::INFINITY]);
    assert_eq!(numbers_of(&v), bits(&[1.0, 2.0, f64::INFINITY]));
    assert_eq!(numbers_of(&bits(&[f64::NAN, f64::NAN])), Vec::<u64>::new());
    assert_eq!(numbers_of(&Vec::new()), Vec::<u64>::new());
    assert_eq!(numbers_of(&bits(&[3.0, 1.0])), bits(&[3.0, 1.0]));
}

#[test]
fn pairs_need_a_number_on_both_sides() {
    let x = bits(&[1.0, f64::NAN, 3.0, 4.0, 5.0]);
    let y = bits(&[10.0, 20.0, f64::NAN, 40.0]);
    assert_eq!(
        number_pairs_of(&x, &y),
        vec![(1.0f64.to_bits(), 10.0f64.to_bits()), (4.0f64.to_bits(), 40.0f64.to_bits())]
    );
    assert_eq!(number_pairs_of(&y, &x).len(), 2);
    assert_eq!(number_pairs_of(&x, &Vec::new()), vec![]);
}

#[test]
fn sorted_numbers_ascend() {
    let v = bits(&[3.0, f64::NAN, -1.0, 2.0, f64::NEG_INFINITY, 0.5]);
    assert_eq!(sorted_numbers(&v), bits(&[f64::NEG_INFINITY, -1.0, 0.5, 2.0, 3.0]));
    assert_eq!(sorted_numbers(&bits(&[f64::NAN])), Vec::<u64>::new());
    assert_eq!(sorted_numbers(&Vec::new()), Vec::<u64>::new());
    assert_eq!(sorted_numbers(&bits(&[7.0])), bits(&[7.0]));
}

#[test]
fn sorted_numbers_keep_equal_numbers_in_their_order() {
    let v = bits(&[0.0, -0.0, 1.0, -0.0, 0.0, -1.0]);
    assert_eq!(sorted_numbers(&v), bits(&[-1.0, 0.0, -0.0, -0.0, 0.0, 1.0]));
}

#[test]
fn sorted_numbers_agree_with_the_sort_of_the_numbers() {
    let mut v = sample();
    v.push(f64::NAN);
    v.insert(3, f64::NAN);
    let ours = sorted_numbers(&bits(&v));
    let mut theirs: Vec<f64> = v.iter().copied().filter(|x| !x.is_nan()).collect();
    theirs.sort_by(|a, b| a.partial_cmp(b).unwrap());
    assert_eq!(ours, bits(&theirs));
}

#[test]
fn median_of_an_odd_sample_is_its_middle_number() {
    let v = bits(&[9.0, 1.0, 5.0, 3.0, 7.0]);
    let sorted = sorted_numbers(&v);
    assert_eq!(sorted.len(), 5);
    assert_eq!(f64::from_bits(sorted[(sorted.len() - 1) / 2]), 5.0);
}

#[test]
fn sample_without_numbers_is_empty() {
    assert!(sorted_numbers(&Vec::new()).is_empty());
    assert!(sorted_numbers(&bits(&[f64::NAN, f64::NAN])).is_empty());
    assert!(numbers_of(&bits(&[f64::NAN])).is_empty());
    assert!(number_pairs_of(&bits(&[f64::NAN, 1.0]), &bits(&[1.0, f64::NAN])).is_empty());
}

#[test]
fn mean_of_one_two_three_from_the_numbers() {
    let valid = numbers_of(&bits(&[1.0, f64::NAN, 2.0, 3.0]));
    let mut mean = 0.0;
    for (i, b) in valid.iter().enumerate() {
        mean += (f64::from_bits(*b) - mean) / (i + 1) as f64;
    }
    assert_eq!(mean, 2.0);
}
