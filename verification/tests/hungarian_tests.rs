//! The matcher against brute force on small matrices, and its mandatory
//! column handling.

use caobab::hungarian::hungarian_algorithm;
use caobab::matrix::Matrix;

/// Build a matrix from a row-major table.
fn matrix_of(n: usize, entries: &[u16]) -> Matrix {
    assert_eq!(entries.len(), n * n);
    let mut m = Matrix::zeroes(n);
    for x in 0..n {
        for y in 0..n {
            m.set(x, y, entries[x * n + y]);
        }
    }
    m
}

/// The best total weight over all bijections, by brute force.
fn brute_force_best(n: usize, entries: &[u16]) -> u32 {
    let mut perm: Vec<usize> = (0..n).collect();
    let mut best: u32 = 0;
    permute(&mut perm, 0, &mut |p: &Vec<usize>| {
        let mut s: u32 = 0;
        for x in 0..n {
            s += entries[x * n + p[x]] as u32;
        }
        if s > best {
            best = s;
        }
    });
    best
}

fn permute(perm: &mut Vec<usize>, k: usize, visit: &mut dyn FnMut(&Vec<usize>)) {
    if k == perm.len() {
        visit(perm);
        return;
    }
    for i in k..perm.len() {
        perm.swap(k, i);
        permute(perm, k + 1, visit);
        perm.swap(k, i);
    }
}

#[test]
fn test_hungarian_matches_brute_force() {
    let cases: Vec<(usize, Vec<u16>)> = vec![
        (2, vec![7, 3, 2, 9]),
        (3, vec![5, 9, 1, 10, 3, 2, 8, 7, 4]),
        (4, vec![3, 8, 2, 9, 7, 1, 6, 4, 5, 5, 5, 5, 9, 2, 8, 1]),
        (4, vec![0, 0, 0, 1, 0, 0, 1, 0, 0, 1, 0, 0, 1, 0, 0, 0]),
        (5, vec![
            12, 7, 9, 7, 9, 8, 9, 6, 6, 6, 7, 17, 12, 14, 9, 15, 14, 6, 6, 10, 4, 10, 7, 10, 9,
        ]),
    ];
    for (n, entries) in cases.iter() {
        let w = matrix_of(*n, entries);
        let dummy = vec![false; *n];
        let mandatory = vec![false; *n];
        let (sigma, score) =
            hungarian_algorithm(&w, &dummy, &mandatory).expect("a matching must exist");
        // sigma is a permutation
        let mut seen = vec![false; *n];
        for x in 0..*n {
            assert!(sigma[x] < *n);
            assert!(!seen[sigma[x]]);
            seen[sigma[x]] = true;
        }
        // the score is the sum over sigma and is maximal
        let mut s: u32 = 0;
        for x in 0..*n {
            s += entries[x * *n + sigma[x]] as u32;
        }
        assert_eq!(s, score);
        assert_eq!(score, brute_force_best(*n, entries));
    }
}

#[test]
fn test_hungarian_keeps_dummies_off_mandatory() {
    // Two rows, one dummy; the mandatory column must take the real row even
    // though the dummy is indifferent.
    let w = matrix_of(2, &[0, 0, 0, 0]);
    let dummy = vec![false, true];
    let mandatory = vec![true, false];
    let (sigma, score) = hungarian_algorithm(&w, &dummy, &mandatory).expect("matchable");
    assert_eq!(sigma[0], 0);
    assert_eq!(sigma[1], 1);
    assert_eq!(score, 0);
}

#[test]
fn test_hungarian_mandatory_unsatisfiable() {
    // Every row is a dummy, but a column demands a real participant.
    let w = matrix_of(2, &[0, 0, 0, 0]);
    let dummy = vec![true, true];
    let mandatory = vec![true, false];
    assert!(hungarian_algorithm(&w, &dummy, &mandatory).is_none());
}

#[test]
fn test_hungarian_empty() {
    let w = Matrix::zeroes(0);
    let dummy: Vec<bool> = vec![];
    let mandatory: Vec<bool> = vec![];
    let (sigma, score) = hungarian_algorithm(&w, &dummy, &mandatory).expect("trivial");
    assert_eq!(sigma.len(), 0);
    assert_eq!(score, 0);
}

#[test]
fn test_matrix_accessors() {
    let mut m = Matrix::zeroes(3);
    assert_eq!(m.dim(), (3, 3));
    assert_eq!(m.at(1, 2), 0);
    m.set(1, 2, 77);
    assert_eq!(m.at(1, 2), 77);
    assert_eq!(m.at(2, 1), 0);
}
