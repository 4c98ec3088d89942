use std::time::Instant;
use toybox::fib::{__fib, __grid_traveler, fib, fib_threaded, fib_with_fresh_memo, grid_traveler};
use std::collections::HashMap;

#[test]
fn test_fib_threaded() {
    let test_start = Instant::now();
    let tests = [
        (80, 23416728348467685),
        (90, 2880067194370816120),
        (140, 81055900096023504197206408605),
        (141, 131151201344081895336534324866),
        (154, 68330027629092351019822533679447),
    ];
    for (n, expected) in &tests {
        let start = Instant::now();
        let result = fib_threaded(*n);
        let duration = start.elapsed();
        println!("fib_threaded({}) = {}, expected = {}, elapsed time: {:?}", n, result, expected, duration);
        assert_eq!(result, *expected);
    }
    let duration = test_start.elapsed();
    println!("All tests took {:?}\n", duration);
}

#[test]
fn test_fib() {
    let test_start = Instant::now();
    let tests = [
        (80, 23416728348467685),
        (90, 2880067194370816120),
        (140, 81055900096023504197206408605),
        (141, 131151201344081895336534324866),
        (154, 68330027629092351019822533679447),
    ];
    for (n, expected) in &tests {
        let start = Instant::now();
        let result = fib(*n);
        let duration = start.elapsed();
        println!("fib({}) = {}, expected = {}, elapsed time: {:?}", n, result.unwrap(), expected, duration);
        assert_eq!(result.unwrap(), *expected);
    }
    let duration = test_start.elapsed();
    println!("All tests took {:?}\n", duration);
}

#[test]
fn test_grid_traveler() {
    let test_start = Instant::now();
    let tests = [
        ((1, 1), 1),
        ((2, 3), 3),
        ((3, 2), 3),
        ((3, 3), 6),
        ((18, 18), 2333606220),
    ];
    for ((m, n), expected) in &tests {
        let start = Instant::now();
        let result = grid_traveler(*m, *n);
        let duration = start.elapsed();
        println!("grid_traveler({}, {}) = {}, expected = {}, elapsed time: {:?}", m, n, result, expected, duration);
        assert_eq!(result, *expected);
    }
    let duration = test_start.elapsed();
    println!("All tests took {:?}\n", duration);
}

#[test]
fn fib_refuses_zero() {
    assert_eq!(fib(0), Err("n must be at least 1"));
}

#[test]
fn fib_small_values() {
    assert_eq!(fib(1), Ok(1));
    assert_eq!(fib(2), Ok(1));
    assert_eq!(fib(3), Ok(2));
    assert_eq!(fib(10), Ok(55));
}

#[test]
fn fib_largest_that_fits() {
    assert_eq!(fib(186), Ok(332825110087067562321196029789634457848));
    assert_eq!(fib_threaded(186), 332825110087067562321196029789634457848);
}

#[test]
fn fib_threaded_small_values() {
    assert_eq!(fib_threaded(0), 1);
    assert_eq!(fib_threaded(1), 1);
    assert_eq!(fib_threaded(2), 1);
    assert_eq!(fib_threaded(3), 2);
    assert_eq!(fib_threaded(12), 144);
}

#[test]
fn fib_threaded_agrees_with_fib() {
    for n in 1..=100u16 {
        assert_eq!(fib_threaded(n), fib(n).unwrap());
    }
}

#[test]
fn fresh_memo_values() {
    assert_eq!(fib_with_fresh_memo(1), 1);
    assert_eq!(fib_with_fresh_memo(2), 1);
    assert_eq!(fib_with_fresh_memo(20), 6765);
}

#[test]
fn memo_is_filled() {
    let mut hm: HashMap<u16, u128> = HashMap::new();
    hm.insert(1, 1);
    hm.insert(2, 1);
    assert_eq!(__fib(30, &mut hm), 832040);
    assert_eq!(hm.get(&29), Some(&514229));
    assert_eq!(hm.get(&30), Some(&832040));
}

#[test]
fn grid_traveler_edges() {
    assert_eq!(grid_traveler(0, 5), 0);
    assert_eq!(grid_traveler(5, 0), 0);
    assert_eq!(grid_traveler(1, 7), 1);
    assert_eq!(grid_traveler(7, 1), 1);
}

#[test]
fn grid_traveler_is_symmetric() {
    for m in 0..12u16 {
        for n in 0..12u16 {
            assert_eq!(grid_traveler(m, n), grid_traveler(n, m));
        }
    }
    assert_eq!(grid_traveler(4, 5), 35);
}

#[test]
fn memo_hit_leaves_the_memo() {
    let mut hm: HashMap<u16, u128> = HashMap::new();
    hm.insert(1, 1);
    hm.insert(2, 1);
    hm.insert(7, 13);
    let before = hm.clone();
    assert_eq!(__fib(7, &mut hm), 13);
    assert_eq!(hm, before);
}

#[test]
fn memo_adds_only_needed_keys() {
    let mut hm: HashMap<u16, u128> = HashMap::new();
    hm.insert(1, 1);
    hm.insert(2, 1);
    __fib(6, &mut hm);
    let mut keys: Vec<u16> = hm.keys().copied().collect();
    keys.sort();
    assert_eq!(keys, vec![1, 2, 3, 4, 5, 6]);
}

#[test]
fn grid_memo_keeps_entries() {
    let mut hm: HashMap<u32, u128> = HashMap::new();
    assert_eq!(__grid_traveler(3, 4, &mut hm), 10);
    let before = hm.clone();
    assert_eq!(__grid_traveler(4, 3, &mut hm), 10);
    for (k, v) in before.iter() {
        assert_eq!(hm.get(k), Some(v));
    }
    assert!(hm.keys().all(|k| k / 65536 >= 1 && k % 65536 >= 1));
}

#[test]
fn memo_hit_from_any_table() {
    let mut hm: HashMap<u16, u128> = HashMap::new();
    hm.insert(40, 7);
    assert_eq!(__fib(40, &mut hm), 7);
    assert_eq!(hm.len(), 1);
    let mut g: HashMap<u32, u128> = HashMap::new();
    g.insert(3 * 65536 + 5, 99);
    assert_eq!(__grid_traveler(5, 3, &mut g), 99);
    assert_eq!(__grid_traveler(3, 5, &mut g), 99);
    assert_eq!(g.len(), 1);
}
