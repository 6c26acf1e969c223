use linalg::integer::Integer;

#[test]
fn factorial() {
    assert_eq!(0u64.factorial(), 1);
    assert_eq!(1u64.factorial(), 1);
    assert_eq!(2u64.factorial(), 2);
    assert_eq!(3u64.factorial(), 6);
    assert_eq!(4u64.factorial(), 24);
    assert_eq!(10u64.factorial(), 3628800);
}

#[test]
fn permutations() {
    assert_eq!(Integer::permutations(6u64, 3), 6 * 5 * 4);
    assert_eq!(Integer::permutations(6u64, 6), 6 * 5 * 4 * 3 * 2 * 1);
}

#[test]
fn combinations() {
    assert_eq!(Integer::combinations(6u64, 2), 15);
    assert_eq!(Integer::combinations(6u64, 6), 1);
    for n in 0u64..10 {
        assert_eq!(Integer::combinations(n, 0), 1);
        assert_eq!(Integer::combinations(n, 1), n);
        for k in 0..=n {
            assert_eq!(Integer::combinations(n, k), Integer::combinations(n, n - k));
        }
    }
}

#[test]
fn binomial() {
    assert_eq!(Integer::binomial(4u64, 5, 1), 4 + 5);
    assert_eq!(Integer::binomial(4u64, 5, 2), (4 + 5) * (4 + 5));
    assert_eq!(
        Integer::binomial(4u64, 5, 7),
        (4 + 5) * (4 + 5) * (4 + 5) * (4 + 5) * (4 + 5) * (4 + 5) * (4 + 5)
    );
}

#[test]
fn phi() {
    assert_eq!(Integer::phi(710u64), 280);
}

#[test]
fn mod_exp() {
    assert_eq!(11u64.mod_exp(13, 53), 52);
    assert_eq!(1u64.mod_exp(1337, 53), 1);
}

#[test]
fn power() {
    assert_eq!(2u64.power(10), 1024);
    assert_eq!(3u64.power(0), 1);
    assert_eq!(0u64.power(0), 1);
    assert_eq!(0u64.power(5), 0);
    assert_eq!(7u64.power(1), 7);
}

#[test]
fn factors() {
    assert_eq!(12u64.factors(), vec![2, 2, 3]);
    assert_eq!(710u64.factors(), vec![2, 5, 71]);
    assert_eq!(13u64.factors(), vec![13]);
    assert_eq!(1u64.factors(), vec![1]);
}

#[test]
fn is_prime() {
    assert!(13u64.is_prime());
    assert!(!12u64.is_prime());
    assert!(2u64.is_prime());
    assert!(97u64.is_prime());
    assert!(!91u64.is_prime());
}

#[test]
fn is_coprime() {
    assert!(8u64.is_coprime(9));
    assert!(!8u64.is_coprime(10));
    assert!(7u64.is_coprime(13));
}
