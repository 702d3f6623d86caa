use raytracer::perlin::{generate_perm, Lattice};

fn identity() -> Vec<u8> {
    (0..=255u8).collect()
}

#[test]
fn generated_table_is_a_permutation() {
    let t = generate_perm();
    assert_eq!(t.len(), 256);
    let mut s = t.clone();
    s.sort();
    assert_eq!(s, identity());
}

#[test]
fn new_lattice_tables_are_shuffled_permutations() {
    let l = Lattice::new();
    for t in [&l.perm_x, &l.perm_y, &l.perm_z] {
        let mut s = t.clone();
        s.sort();
        assert_eq!(s, identity());
    }
    // Three untouched tables would all be the identity.
    assert!(l.perm_x != identity() || l.perm_y != identity() || l.perm_z != identity());
}

#[test]
fn from_tables_rejects_wrong_lengths() {
    assert!(Lattice::from_tables(vec![0; 255], identity(), identity()).is_none());
    assert!(Lattice::from_tables(identity(), vec![0; 257], identity()).is_none());
    assert!(Lattice::from_tables(identity(), identity(), Vec::new()).is_none());
    assert!(Lattice::from_tables(identity(), identity(), identity()).is_some());
}

#[test]
fn corner_hashes_coordinates_through_tables() {
    let l = Lattice::from_tables(identity(), identity(), identity()).unwrap();
    assert_eq!(l.corner(1, 2, 4), 1 ^ 2 ^ 4);
    assert_eq!(l.corner(-1, 0, 0), 255);
    assert_eq!(l.corner(256, 0, 0), 0);
    assert_eq!(l.corner(-256, 3, 0), 3);
    assert_eq!(l.corner(i32::MIN, 0, 7), 7);
    assert_eq!(l.corner(i32::MAX, 0, 0), 255);
    let rev: Vec<u8> = (0..=255u8).rev().collect();
    let l2 = Lattice::from_tables(rev, identity(), identity()).unwrap();
    assert_eq!(l2.corner(0, 5, 0), 255 ^ 5);
    assert_eq!(l2.corner(-1, 0, 0), 0);
}

#[test]
fn corner_is_deterministic_for_fixed_lattice() {
    let l = Lattice::new();
    for (i, j, k) in [(0, 0, 0), (-3, 17, 255), (1000, -1000, 7)] {
        assert_eq!(l.corner(i, j, k), l.corner(i, j, k));
        assert_eq!(l.corner(i, j, k), l.corner(i + 256, j - 512, k + 768));
    }
}

#[test]
fn cell_lists_the_eight_corners() {
    let l = Lattice::new();
    for (i, j, k) in [(0, 0, 0), (-1, 254, 255), (i32::MAX, i32::MIN, 3)] {
        let c = l.cell(i, j, k);
        assert_eq!(c.len(), 8);
        for di in 0..2i32 {
            for dj in 0..2i32 {
                for dk in 0..2i32 {
                    let expected = l.corner(i.wrapping_add(di), j.wrapping_add(dj), k.wrapping_add(dk));
                    assert_eq!(c[(4 * di + 2 * dj + dk) as usize], expected);
                }
            }
        }
    }
}
