use lib_nltk::internals::InternalError;
use lib_nltk::probability::{
    discount, generate, nonzero_prob, DerivedProbDist, FreqDist, ProbDistI, Probability,
    UniformProbDist,
};

fn words(list: &[&str]) -> Vec<String> {
    list.iter().map(|w| w.to_string()) .collect()
}

#[test]
fn it_works() {
    let result = 2 + 2;
    assert_eq!(result, 4);
}

#[test]
fn freq_dist_counts_batch() {
    // feeding a batch records one outcome per sample
    let samples = words(&["apple", "banana", "apple", "apple", "pineapple"]);
    let f: FreqDist<String> = FreqDist::from_samples(&samples);
    assert_eq!(f.N(), 5);
    assert_eq!(f.B(), 3);
    assert_eq!(f.count(&"apple".to_string()), 3);
    assert_eq!(f.count(&"banana".to_string()), 1);
    assert_eq!(f.count(&"pineapple".to_string()), 1);
    assert_eq!(f.count(&"mango".to_string()), 0);
    let mut entries = f.list();
    entries.sort();
    assert_eq!(
        entries,
        vec![
            ("apple".to_string(), 3),
            ("banana".to_string(), 1),
            ("pineapple".to_string(), 1)
        ]
    );
}

#[test]
fn freq_dist_incremental_add() {
    let mut f: FreqDist<String> = FreqDist::new();
    f.add("a".to_string());
    f.add("b".to_string());
    f.add("a".to_string());
    assert_eq!(f.N(), 3);
    assert_eq!(f.B(), 2);
    assert_eq!(f.count(&"a".to_string()), 2);
    let mut keys = f.list_keys();
    keys.sort();
    assert_eq!(keys, vec!["a".to_string(), "b".to_string()]);
}

#[test]
fn hapaxes_are_exactly_the_singletons() {
    // a sample is a hapax exactly when its count is one
    let samples = words(&["apple", "banana", "apple", "apple", "pineapple"]);
    let f: FreqDist<String> = FreqDist::from_samples(&samples);
    let mut h = f.hapaxes();
    h.sort();
    assert_eq!(h, vec!["banana".to_string(), "pineapple".to_string()]);
    for w in h {
        assert_eq!(f.count(&w), 1);
    }
    assert_eq!(f.count(&"apple".to_string()), 3);
}

#[test]
fn freq_is_count_over_total() {
    let samples = words(&["apple", "banana", "apple", "apple", "pineapple"]);
    let f: FreqDist<String> = FreqDist::from_samples(&samples);
    let p = f.freq(&"apple".to_string());
    assert_eq!((p.num, p.den), (3, 5));
    let q = f.freq(&"mango".to_string());
    assert_eq!(q.num, 0);
    let empty: FreqDist<String> = FreqDist::new();
    let z = empty.freq(&"apple".to_string());
    assert_eq!((z.num, z.den), (0, 1));
}

#[test]
fn max_attains_the_greatest_count() {
    let samples = words(&["apple", "banana", "apple", "apple", "pineapple"]);
    let f: FreqDist<String> = FreqDist::from_samples(&samples);
    assert_eq!(f.max(), Some("apple".to_string()));
    let empty: FreqDist<String> = FreqDist::new();
    assert_eq!(empty.max(), None);
}

#[test]
fn r_nr_lists_the_bins_with_a_given_frequency() {
    let samples = words(&["apple", "banana", "apple", "apple", "pineapple"]);
    let f: FreqDist<String> = FreqDist::from_samples(&samples);
    let mut once = f.r_Nr(1);
    once.sort();
    assert_eq!(
        once,
        vec![("banana".to_string(), 1), ("pineapple".to_string(), 1)]
    );
    assert_eq!(f.r_Nr(3), vec![("apple".to_string(), 3)]);
    assert_eq!(f.r_Nr(2), vec![]);
}

#[test]
fn uniform_prob_is_one_over_support_size() {
    // probability 1/4 inside the support, 0 outside
    let support = words(&["a", "b", "c", "d"]);
    let d = UniformProbDist::new(&support);
    let p = d.prob(&"a".to_string());
    assert_eq!((p.num, p.den), (1, 4));
    assert_eq!(p.num as f64 / p.den as f64, 0.25);
    let z = d.prob(&"z".to_string());
    assert_eq!(z.num, 0);
    assert_eq!(z.num as f64 / z.den as f64, 0.0);
}

#[test]
fn uniform_probabilities_sum_to_one() {
    let support = words(&["a", "b", "c"]);
    let d = UniformProbDist::new(&support);
    let mut sum = 0.0_f64;
    for s in d.samples() {
        let p = d.prob(&s);
        sum += p.num as f64 / p.den as f64;
    }
    assert!((sum - 1.0).abs() < 1e-6);
}

#[test]
fn uniform_collapses_duplicates() {
    let support = words(&["a", "b", "a", "c", "b"]);
    let d = UniformProbDist::new(&support);
    assert_eq!(d.samples(), words(&["a", "b", "c"]));
    let p = d.prob(&"a".to_string());
    assert_eq!((p.num, p.den), (1, 3));
}

#[test]
fn uniform_max_is_a_support_member() {
    let support = words(&["a", "b"]);
    let d = UniformProbDist::new(&support);
    let m = d.max().unwrap();
    assert!(support.contains(&m));
    let empty = UniformProbDist::new(&Vec::<String>::new());
    assert_eq!(empty.max(), None);
}

#[test]
fn nonzero_prob_signals_zero_probability() {
    // the log-probability of a sample is defined exactly when its
    // probability is nonzero
    let support = words(&["a", "b", "c", "d"]);
    let d = UniformProbDist::new(&support);
    let p = nonzero_prob(&d, &"a".to_string()).unwrap();
    assert_eq!((p.num, p.den), (1, 4));
    let lp = (p.num as f64).log2() - (p.den as f64).log2();
    assert!((lp - (0.25_f64).log2()).abs() < 1e-12);
    assert!(nonzero_prob(&d, &"z".to_string()).is_none());
}

#[test]
fn discount_defaults_to_zero() {
    let support = words(&["a", "b"]);
    let d = UniformProbDist::new(&support);
    let r = discount(&d);
    assert_eq!((r.num, r.den), (0, 1));
}

#[test]
fn derived_prob_matches_empirical_frequencies() {
    let samples = words(&["apple", "banana", "apple", "apple", "pineapple"]);
    let f: FreqDist<String> = FreqDist::from_samples(&samples);
    let d = DerivedProbDist::new(&f).unwrap();
    let p = d.prob(&"apple".to_string());
    assert_eq!((p.num, p.den), (3, 5));
    let q = d.prob(&"mango".to_string());
    assert_eq!(q.num, 0);
    let mut sum = 0.0_f64;
    for s in d.samples() {
        let p = d.prob(&s);
        sum += p.num as f64 / p.den as f64;
    }
    assert!((sum - 1.0).abs() < 1e-6);
    assert_eq!(d.max(), Some("apple".to_string()));
}

#[test]
fn derived_prob_refuses_zero_observations() {
    let empty: FreqDist<String> = FreqDist::new();
    assert_eq!(
        DerivedProbDist::new(&empty).err(),
        Some(InternalError::ValueError)
    );
}

#[test]
fn generate_picks_by_cumulative_probability() {
    let support = words(&["a", "b", "c", "d"]);
    let d = UniformProbDist::new(&support);
    // a draw of zero lands on the first sample
    let first = generate(&d, Probability { num: 0, den: 1 }, 0).unwrap();
    assert_eq!(first, "a".to_string());
    // a draw of one half is reached exactly at the second quarter
    let mid = generate(&d, Probability { num: 1, den: 2 }, 0).unwrap();
    assert_eq!(mid, "b".to_string());
    // a draw just past one half lands in the third quarter
    let past = generate(&d, Probability { num: 5, den: 8 }, 0).unwrap();
    assert_eq!(past, "c".to_string());
    // an empty support has no sample to give
    let empty = UniformProbDist::new(&Vec::<String>::new());
    assert_eq!(generate(&empty, Probability { num: 0, den: 1 }, 7), None);
}

#[test]
fn generate_matches_the_distribution_shape() {
    // over many draws from a uniform distribution of size k, each
    // sample's empirical frequency converges to 1/k
    let support = words(&["a", "b", "c", "d"]);
    let d = UniformProbDist::new(&support);
    let mut counts = [0_u64; 4];
    let mut x: u64 = 0x853c49e6748fea9b;
    let n = 100_000;
    for _ in 0..n {
        // a fixed linear congruential source keeps the test deterministic
        x = x
            .wrapping_mul(6364136223846793005)
            .wrapping_add(1442695040888963407);
        let num = x >> 33;
        let draw = Probability {
            num,
            den: 1 << 31,
        };
        let s = generate(&d, draw, (x & 0xffff) as usize).unwrap();
        let i = support.iter().position(|w| *w == s).unwrap();
        counts[i] += 1;
    }
    for c in counts {
        let freq = c as f64 / n as f64;
        assert!((freq - 0.25).abs() < 0.01, "frequency {} strays from 1/4", freq);
    }
}

#[test]
fn probability_zero_helpers() {
    let z = Probability::zero();
    assert_eq!((z.num, z.den), (0, 1));
    assert!(z.is_zero());
    assert!(!Probability { num: 1, den: 2 }.is_zero());
}

#[test]
fn internal_error_messages() {
    assert_eq!(InternalError::ReadError.message(), "Unexpected Read Error");
    assert_eq!(InternalError::ValueError.message(), "Invalid string!");
}
