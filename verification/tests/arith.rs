//! The bit-serial adder, the multiplier and the Gray code, against plain
//! machine arithmetic.

use boole::{adder, gray_code, multiplier};
use rand::Rng;

#[test]
fn small() {
    let range = 0..3;

    for a in range.clone() {
        for b in range.clone() {
            println!("{a}, {b}");
            assert!(a + b == adder(a, b));
            assert!(a * b == multiplier(a, b));
        }
    }
}

#[test]
fn math_rand() {
    let mut rng = rand::rng();

    for _ in 0..10000 {
        let a: u32 = rng.random();
        let b: u32 = rng.random();

        println!("{a}, {b}");
        assert!(a.wrapping_add(b) == adder(a, b));
        assert!(a.wrapping_mul(b) == multiplier(a, b));
    }
}

#[test]
fn subject() {
    let results = [0, 1, 3, 2, 6, 7, 5, 4, 12];

    for i in 0..9 {
        println!("{i}, {}", gray_code(i));
        assert!(gray_code(i) == results[i as usize]);
    }
}

#[test]
fn gray_test() {
    let results = [0, 1, 3, 2, 6, 7, 5, 4, 12];

    for i in 0..9 {
        println!("{i}, {}", gray_code(i));
        assert!(gray_code(i) == results[i as usize]);
    }
}

#[test]
fn adder_test() {
    let mut rng = rand::rng();

    for _ in 0..100000 {
        let a: u32 = rng.random();
        let b = rng.random();
        let c = a.wrapping_add(b);

        assert!(c == adder(a, b));
    }
}
