use raytracer::sampler::int_sqrt;
use raytracer::sampler::is_perfect_square;
use raytracer::sampler::radical_inverse;
use raytracer::sampler::Hammersley;
use raytracer::sampler::Jittered;
use raytracer::sampler::MultiJittered;
use raytracer::sampler::NRooks;
use raytracer::sampler::Random;
use raytracer::sampler::Regular;
use raytracer::sampler::Samples;
use raytracer::sampler::NUM_SETS;

fn is_perm_of_range(s: &[usize], n: usize) -> bool {
    let mut sorted: Vec<usize> = s.to_vec();
    sorted.sort();
    sorted.len() == n && sorted.iter().enumerate().all(|(i, &v)| i == v)
}

#[test]
fn int_sqrt_exact_values() {
    assert_eq!(int_sqrt(0), 0);
    assert_eq!(int_sqrt(1), 1);
    assert_eq!(int_sqrt(3), 1);
    assert_eq!(int_sqrt(4), 2);
    assert_eq!(int_sqrt(15), 3);
    assert_eq!(int_sqrt(16), 4);
    assert_eq!(int_sqrt(17), 4);
    assert_eq!(int_sqrt(256), 16);
    assert_eq!(int_sqrt(1_000_000), 1000);
}

#[test]
fn perfect_squares_recognised() {
    assert!(is_perfect_square(0));
    assert!(is_perfect_square(1));
    assert!(is_perfect_square(4));
    assert!(is_perfect_square(16));
    assert!(is_perfect_square(256));
    assert!(!is_perfect_square(2));
    assert!(!is_perfect_square(3));
    assert!(!is_perfect_square(15));
    assert!(!is_perfect_square(17));
    assert!(!is_perfect_square(255));
}

#[test]
fn regular_pattern_is_the_grid() {
    let g = Regular::new(16);
    assert_eq!(g.num_samples(), 16);
    assert_eq!(g.num_sets(), 1);
    let p = g.square_pattern();
    assert_eq!(p.len(), 16);
    for (k, &(x, y)) in p.iter().enumerate() {
        assert_eq!(x, k / 4);
        assert_eq!(y, k % 4);
    }
    assert_eq!(&p[..5], &[(0, 0), (0, 1), (0, 2), (0, 3), (1, 0)]);
}

#[test]
fn jittered_cells_match_regular() {
    let g = Jittered::new(25);
    assert_eq!(g.num_samples(), 25);
    assert_eq!(g.num_sets(), NUM_SETS);
    let p = g.square_pattern();
    assert_eq!(p.len(), 25);
    for (k, &(x, y)) in p.iter().enumerate() {
        assert_eq!(x, k / 5);
        assert_eq!(y, k % 5);
    }
}

#[test]
fn single_sample_generators() {
    let g = Regular::new(1);
    assert_eq!(g.num_samples(), 1);
    assert_eq!(g.square_pattern(), vec![(0, 0)]);
    let m = MultiJittered::new(1);
    let (xs, ys) = m.subcell_pattern();
    assert_eq!(xs, vec![0]);
    assert_eq!(ys, vec![0]);
}

#[test]
fn random_generator_counts() {
    let g = Random::new(42);
    assert_eq!(g.num_samples(), 42);
    assert_eq!(g.num_sets(), NUM_SETS);
    assert_eq!(NUM_SETS, 83);
}

#[test]
fn rook_pattern_uses_every_row_and_column() {
    let g = NRooks::new(7);
    assert_eq!(g.num_samples(), 7);
    assert_eq!(g.num_sets(), NUM_SETS);
    for _ in 0..10 {
        let (rows, cols) = g.rook_pattern();
        assert!(is_perm_of_range(&rows, 7));
        assert!(is_perm_of_range(&cols, 7));
    }
}

#[test]
fn multi_jittered_pattern_structure() {
    let g = MultiJittered::new(16);
    assert_eq!(g.num_samples(), 16);
    assert_eq!(g.num_sets(), NUM_SETS);
    for _ in 0..10 {
        let (xs, ys) = g.subcell_pattern();
        // rook condition on the fine grid
        assert!(is_perm_of_range(&xs, 16));
        assert!(is_perm_of_range(&ys, 16));
        // one sample per coarse cell
        for k in 0..16 {
            assert_eq!(xs[k] / 4, k / 4);
            assert_eq!(ys[k] / 4, k % 4);
        }
    }
}

#[test]
fn radical_inverse_exact_values() {
    assert_eq!(radical_inverse(0), (0, 1));
    assert_eq!(radical_inverse(1), (0, 2));
    assert_eq!(radical_inverse(2), (2, 4));
    assert_eq!(radical_inverse(3), (0, 4));
    assert_eq!(radical_inverse(4), (6, 8));
    assert_eq!(radical_inverse(5), (2, 8));
    assert_eq!(radical_inverse(6), (4, 8));
    assert_eq!(radical_inverse(7), (0, 8));
}

#[test]
fn radical_inverse_is_a_proper_fraction() {
    for j in 0..2000u64 {
        let (num, den) = radical_inverse(j);
        assert!(num < den);
        let x = num as f64 / den as f64;
        assert!((0.0..1.0).contains(&x));
    }
}

#[test]
fn hammersley_pattern_values() {
    let g = Hammersley::new(4);
    assert_eq!(g.num_samples(), 4);
    assert_eq!(g.num_sets(), 1);
    let p = g.radical_pattern();
    assert_eq!(p, vec![(0, 1), (0, 2), (2, 4), (0, 4)]);
    // the second coordinate of sample 2 is exactly one half
    assert_eq!(p[2].0 as f64 / p[2].1 as f64, 0.5);
}

#[test]
fn samples_container_hands_out_whole_sets() {
    let sets = vec![vec![10u32, 11, 12], vec![20, 21, 22], vec![30, 31, 32], vec![40, 41, 42]];
    let mut samples = Samples::new(3, sets.clone());
    assert_eq!(samples.num_samples(), 3);
    for _ in 0..25 {
        let s = samples.get_next().clone();
        assert_eq!(s.len(), 3);
        assert!(sets.contains(&s));
    }
}

#[test]
fn samples_rotation_before_first_reshuffle() {
    let sets = vec![vec![1u8], vec![2], vec![3]];
    let mut samples = Samples::new(1, sets);
    // the cursor advances before reading, so the first rotation visits
    // the second and third stored sets
    assert_eq!(samples.get_next(), &vec![2u8]);
    assert_eq!(samples.get_next(), &vec![3u8]);
}

#[test]
fn samples_single_set_never_changes() {
    let mut samples = Samples::new(2, vec![vec![7u8, 8]]);
    for _ in 0..10 {
        assert_eq!(samples.get_next(), &vec![7u8, 8]);
    }
}

#[test]
fn samples_of_point_pairs() {
    // a container of floating-point sample points, as a renderer uses it
    let set: Vec<(f64, f64)> = vec![(0.25, 0.75), (0.5, 0.5)];
    let mut samples = Samples::new(2, vec![set.clone(), set.clone()]);
    let s = samples.get_next();
    assert_eq!(s[0], (0.25, 0.75));
    assert_eq!(s[1], (0.5, 0.5));
}
