use keccak_circuit::word_parts::{get_rotate_count, rotate, rotate_rev, target_part_sizes,
    WordParts};

fn check_partition(part_size: usize, rot: usize, normalize: bool) {
    let w = WordParts::new(part_size, rot, normalize);
    // every bit position 0..63 appears exactly once, in order after the turn
    let flat: Vec<usize> = w.parts.iter().flat_map(|p| p.bits.iter().copied()).collect();
    let expected: Vec<usize> = (0..64).collect();
    assert_eq!(flat, expected, "partition failed for ({}, {}, {})", part_size, rot, normalize);
    // the part holding bit position 0 comes first
    assert_eq!(w.parts[0].bits[0], 0);
    // the last ceil(rot/part_size) parts hold exactly the rotated-over bits
    let k = get_rotate_count(rot, part_size);
    assert!(k <= w.parts.len());
    let tail_len: usize = w.parts[w.parts.len() - k..].iter().map(|p| p.bits.len()).sum();
    assert_eq!(tail_len, rot, "seam failed for ({}, {}, {})", part_size, rot, normalize);
    // no part exceeds the requested granularity
    assert!(w.parts.iter().all(|p| 1 <= p.bits.len() && p.bits.len() <= part_size));
    // the part count: uniform chunks plus at most one seam split, or the
    // two-run minimum
    let expected_count = if normalize {
        64 / part_size + usize::from(64 % part_size != 0) + usize::from(rot % part_size != 0)
    } else {
        get_rotate_count(rot, part_size) + get_rotate_count(64 - rot, part_size)
    };
    assert_eq!(w.parts.len(), expected_count, "count failed for ({}, {}, {})", part_size, rot,
        normalize);
}

#[test]
fn test_word_parts_partition_normalize() {
    for &ps in &[1usize, 3, 5, 8, 11, 16, 21, 32, 63, 64] {
        for &rot in &[0usize, 1, 5, 8, 31, 62, 63] {
            check_partition(ps, rot, true);
        }
    }
}

#[test]
fn test_word_parts_partition_two_runs() {
    for &ps in &[1usize, 3, 5, 8, 11, 16, 21, 32, 63, 64] {
        for &rot in &[0usize, 1, 5, 8, 31, 62, 63] {
            check_partition(ps, rot, false);
        }
    }
}

#[test]
fn test_word_parts_single_part() {
    let w = WordParts::new(64, 0, true);
    assert_eq!(w.parts.len(), 1);
    assert_eq!(w.parts[0].bits, (0..64).collect::<Vec<usize>>());
}

#[test]
fn test_target_part_sizes_exact() {
    assert_eq!(target_part_sizes(8), vec![8usize; 8]);
    assert_eq!(target_part_sizes(5), vec![5, 5, 5, 5, 5, 5, 5, 5, 5, 5, 5, 5, 4]);
    assert_eq!(target_part_sizes(64), vec![64]);
}

#[test]
fn test_get_rotate_count_exact() {
    assert_eq!(get_rotate_count(0, 8), 0);
    assert_eq!(get_rotate_count(1, 8), 1);
    assert_eq!(get_rotate_count(8, 8), 1);
    assert_eq!(get_rotate_count(9, 8), 2);
    assert_eq!(get_rotate_count(63, 8), 8);
}

#[test]
fn test_rotating_parts_matches_bit_rotation() {
    // turning the split by get_rotate_count parts rotates the bit list
    for &(ps, rot, norm) in &[(8usize, 5usize, true), (8, 5, false), (11, 62, true),
        (64, 63, false), (3, 0, true)] {
        let w = WordParts::new(ps, rot, norm);
        let turned = rotate(w.parts, rot, ps);
        let flat: Vec<usize> = turned.iter().flat_map(|p| p.bits.iter().copied()).collect();
        let expected: Vec<usize> = (0..64)
            .map(|j| if j >= rot { j - rot } else { j + 64 - rot })
            .collect();
        assert_eq!(flat, expected, "bit rotation failed for ({}, {}, {})", ps, rot, norm);
    }
}

#[test]
fn test_rotate_and_rotate_rev() {
    let parts: Vec<u32> = vec![10, 20, 30, 40, 50];
    // count 9, part size 8: rotate by ceil(9/8) = 2 parts
    let r = rotate(parts.clone(), 9, 8);
    assert_eq!(r, vec![40, 50, 10, 20, 30]);
    let l = rotate_rev(r, 9, 8);
    assert_eq!(l, parts);
}
