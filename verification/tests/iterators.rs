use cs_course::generator::{fib_generator, collatz_conjecture};
use cs_course::iters::{find, fib, range, Endpoint};
use cs_course::adaptors::{ItemSource, MyIterTools, VecSource};
use cs_course::divisors::divisors;
use cs_course::pythagorean::pythagorean;

#[test]
fn fibonacci_generator() {
    let mut g = fib_generator(0, 1);
    let mut got = Vec::new();
    for _ in 0..8 {
        got.push(g.next().unwrap());
    }
    assert_eq!(got, vec![0, 1, 1, 2, 3, 5, 8, 13]);
    let mut h = fib_generator(3, 4);
    assert_eq!(h.next(), Some(3));
    assert_eq!(h.next(), Some(4));
    assert_eq!(h.next(), Some(7));
    assert_eq!(h.next(), Some(11));
}

#[test]
fn collatz_generator() {
    let mut g = collatz_conjecture(6);
    let mut got = Vec::new();
    while let Some(v) = g.next() {
        got.push(v);
    }
    assert_eq!(got, vec![6, 3, 10, 5, 16, 8, 4, 2, 1]);
    assert_eq!(g.next(), None);
    let mut z = collatz_conjecture(0);
    assert_eq!(z.next(), None);
    let mut one = collatz_conjecture(1);
    assert_eq!(one.next(), Some(1));
    assert_eq!(one.next(), None);
}

#[test]
fn find_positions() {
    let base = [1, 2, 1, 2, 1];
    let mut it = find(&[1, 2, 1][..], &base[..]);
    assert_eq!(it.next(), Some(0));
    assert_eq!(it.next(), Some(2));
    assert_eq!(it.next(), None);
    let text: Vec<char> = "abcabc".chars().collect();
    let q: Vec<char> = "bc".chars().collect();
    let mut it2 = find(&q[..], &text[..]);
    assert_eq!(it2.next(), Some(1));
    assert_eq!(it2.next(), Some(4));
    assert_eq!(it2.next(), None);
}

#[test]
fn generic_fib() {
    let mut it = fib(1u64, 1u64);
    let got: Vec<u64> = (0..6).map(|_| it.next().unwrap()).collect();
    assert_eq!(got, vec![1, 1, 2, 3, 5, 8]);
    let mut it2 = fib(-1i32, 3i32);
    assert_eq!(it2.next(), Some(-1));
    assert_eq!(it2.next(), Some(3));
    assert_eq!(it2.next(), Some(2));
}

fn collect_range(left: Endpoint, right: Endpoint, step: isize) -> Vec<isize> {
    let mut it = range(left, right, step);
    let mut out = Vec::new();
    while let Some(v) = it.next() {
        out.push(v);
    }
    out
}

#[test]
fn ranges() {
    assert_eq!(collect_range(Endpoint::Inclusive(0), Endpoint::Exclusive(5), 2), vec![0, 2, 4]);
    assert_eq!(collect_range(Endpoint::Exclusive(0), Endpoint::Inclusive(5), 2), vec![1, 3, 5]);
    assert_eq!(collect_range(Endpoint::Inclusive(5), Endpoint::Inclusive(0), -2), vec![5, 3, 1]);
    assert_eq!(collect_range(Endpoint::Exclusive(5), Endpoint::Exclusive(0), -1), vec![4, 3, 2, 1]);
    assert_eq!(collect_range(Endpoint::Inclusive(0), Endpoint::Inclusive(3), 0), Vec::<isize>::new());
}

#[test]
fn adaptors_unique() {
    let v = VecSource::new(vec![1, 2, 2, 3, 1, 4]).my_unique().collect_vec();
    assert_eq!(v, vec![1, 2, 3, 4]);
}

#[test]
fn adaptors_chain_enumerate_zip() {
    let c = VecSource::new(vec![1, 2]).my_chain(VecSource::new(vec![3])).collect_vec();
    assert_eq!(c, vec![1, 2, 3]);
    let e = VecSource::new(vec!['a', 'b']).my_enumerate().collect_vec();
    assert_eq!(e, vec![(0, 'a'), (1, 'b')]);
    let z = VecSource::new(vec![1, 2, 3]).my_zip(VecSource::new(vec!["x", "y"])).collect_vec();
    assert_eq!(z, vec![(1, "x"), (2, "y")]);
}

#[test]
fn adaptors_fold_and_next() {
    let total = VecSource::new(vec![1i64, 2, 3, 4]).my_fold(0i64, |x, acc| x + acc);
    assert_eq!(total, 10);
    let s = VecSource::new(vec!["a", "b", "c"]).my_fold(String::new(), |x, acc| acc + x);
    assert_eq!(s, "abc".to_string());
    let mut src = VecSource::new(vec![7, 8]);
    assert_eq!(src.next(), Some(7));
    assert_eq!(src.next(), Some(8));
    assert_eq!(src.next(), None);
}

#[test]
fn divisors_in_order() {
    assert_eq!(divisors(12).collect_vec(), vec![1, 2, 3, 4, 6, 12]);
    assert_eq!(divisors(1).collect_vec(), vec![1]);
    assert_eq!(divisors(36).collect_vec(), vec![1, 2, 3, 4, 6, 9, 12, 18, 36]);
    assert_eq!(divisors(97).collect_vec(), vec![1, 97]);
    assert_eq!(divisors(10).collect_vec(), vec![1, 2, 5, 10]);
}

#[test]
fn divisors_of_a_large_number() {
    let n: u64 = 600_851_475_143;
    let d = divisors(n).collect_vec();
    assert_eq!(d, vec![
        1,
        71,
        839,
        1471,
        6857,
        59569,
        104441,
        486847,
        1234169,
        5753023,
        10086647,
        87625999,
        408464633,
        716151937,
        8462696833,
        600851475143
    ]);
}

#[test]
fn pythagorean_triples() {
    let mut p = pythagorean();
    let got: Vec<(u64, u64, u64)> = (0..6).map(|_| p.next().unwrap()).collect();
    assert_eq!(got, vec![(3, 4, 5), (5, 12, 13), (8, 15, 17), (7, 24, 25), (20, 21, 29), (12, 35, 37)]);
}

#[test]
fn pythagorean_same_hypotenuse_in_order_of_the_smaller_side() {
    let mut p = pythagorean();
    let mut with_65 = Vec::new();
    loop {
        let t = p.next().unwrap();
        if t.2 > 65 {
            break;
        }
        if t.2 == 65 {
            with_65.push(t);
        }
    }
    assert_eq!(with_65, vec![(16, 63, 65), (33, 56, 65)]);
}
