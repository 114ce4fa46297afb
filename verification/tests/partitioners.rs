//! Tests of the geometric partitioners and the composition layer.

use coupe::error::Error;
use coupe::geometry::Point2D;
use coupe::multi_jagged::is_prime;
use coupe::partition::Partition;
use coupe::multi_jagged::multi_jagged;
use coupe::multi_jagged::partition_scheme;
use coupe::multi_jagged::prime_factors;
use coupe::multi_jagged::split_at_many;
use coupe::pid::Pid;
use coupe::pid::PidMinter;
use coupe::recursive_bisection::rcb;
use coupe::recursive_bisection::rib;
use coupe::hilbert_curve::hilbert_curve_partition;
use coupe::z_curve::z_curve_partition;
use coupe::Compose;
use coupe::ImprovePartition;
use coupe::InitialPartition;
use coupe::KMeans;
use coupe::Rcb;

fn pts(v: &[(i64, i64)]) -> Vec<Point2D> {
    v.iter().map(|&(x, y)| Point2D { x, y }).collect()
}

fn unit_weights(n: usize) -> Vec<u64> {
    vec![1u64; n]
}

fn distinct_count(ids: &[Pid]) -> usize {
    let mut seen: Vec<Pid> = Vec::new();
    for &p in ids {
        if !seen.contains(&p) {
            seen.push(p);
        }
    }
    seen.len()
}

#[test]
fn test_is_prime() {
    assert!(!is_prime(0));
    assert!(!is_prime(1));
    assert!(is_prime(2));
    assert!(is_prime(3));
    assert!(!is_prime(4));
    assert!(is_prime(5));
    assert!(!is_prime(6));
    assert!(is_prime(7));
    assert!(!is_prime(8));
    assert!(!is_prime(9));
    assert!(!is_prime(10));
    assert!(is_prime(11));
    assert!(!is_prime(12));
    assert!(is_prime(13));
}

#[test]
fn test_prime_factors() {
    assert_eq!(
        prime_factors(2 * 3 * 3 * 5 * 7 * 11 * 13 * 17),
        vec![2, 3, 3, 5, 7, 11, 13, 17]
    );
}

#[test]
fn test_split_at_mut_many() {
    let array: Vec<i32> = vec![0, 1, 2, 3, 4, 5, 6, 7, 8, 9, 10, 11, 12];

    let sub_arrays = split_at_many(&array, &vec![1, 3, 6, 9, 11]);

    assert_eq!(
        sub_arrays,
        vec![
            vec![0],
            vec![1, 2],
            vec![3, 4, 5],
            vec![6, 7, 8],
            vec![9, 10],
            vec![11, 12],
        ]
    );
}

#[test]
fn partition_scheme_multiplies_to_the_part_count() {
    let s = partition_scheme(12, 2);
    assert!(s.len() <= 2);
    assert_eq!(s.iter().product::<usize>(), 12);
    let s = partition_scheme(9, 4);
    assert_eq!(s, vec![3, 3]);
    let s = partition_scheme(1, 3);
    assert_eq!(s.iter().product::<usize>(), 1);
    let s = partition_scheme(30, 2);
    assert!(s.len() <= 2);
    assert_eq!(s.iter().product::<usize>(), 30);
}

#[test]
fn four_corner_square_rcb_two_levels() {
    let points = pts(&[(1, 1), (-1, 1), (1, -1), (-1, -1)]);
    let weights = unit_weights(4);
    let mut minter = PidMinter::new();
    let partition = rcb(&points, &weights, 2, &mut minter);
    for i in 0..4 {
        for j in 0..4 {
            if i != j {
                assert_ne!(partition[i], partition[j]);
            }
        }
    }
}

#[test]
fn tall_rectangle_rib_one_level() {
    // The inertia axis is vertical, so the first cut is horizontal.
    let points = pts(&[(1, 10), (-1, 10), (1, -10), (-1, -10)]);
    let weights = unit_weights(4);
    let mut minter = PidMinter::new();
    let partition = rib(&points, &weights, 1, &mut minter);
    assert_eq!(partition[0], partition[1]);
    assert_eq!(partition[2], partition[3]);
    assert_ne!(partition[1], partition[2]);
}

#[test]
fn grid_multi_jagged_nine_parts() {
    let points = pts(&[
        (0, 0),
        (1, 0),
        (2, 0),
        (0, 1),
        (1, 1),
        (2, 1),
        (0, 2),
        (1, 2),
        (2, 2),
    ]);
    let weights = unit_weights(9);
    let mut minter = PidMinter::new();
    let partition = multi_jagged(&points, &weights, 9, 4, &mut minter);
    for i in 0..9 {
        for j in 0..9 {
            if i != j {
                assert_ne!(partition[i], partition[j]);
            }
        }
    }
}

#[test]
fn corner_clusters_hilbert_four_parts() {
    let points = pts(&[
        (0, 0),
        (1, 1),
        (0, 10),
        (1, 9),
        (9, 1),
        (10, 0),
        (10, 10),
        (9, 9),
    ]);
    let weights = unit_weights(8);
    let mut minter = PidMinter::new();
    let partition = hilbert_curve_partition(&points, &weights, 4, 5, &mut minter);
    assert_eq!(partition[0], partition[1]);
    assert_eq!(partition[2], partition[3]);
    assert_eq!(partition[4], partition[5]);
    assert_eq!(partition[6], partition[7]);
    assert_eq!(distinct_count(&partition), 4);
}

#[test]
fn corner_clusters_z_curve_four_parts() {
    let points = pts(&[
        (0, 0),
        (1, 1),
        (0, 10),
        (1, 9),
        (9, 1),
        (10, 0),
        (10, 10),
        (9, 9),
    ]);
    let weights = unit_weights(8);
    let mut minter = PidMinter::new();
    let partition = z_curve_partition(&points, &weights, 4, 5, &mut minter);
    assert_eq!(partition[0], partition[1]);
    assert_eq!(partition[2], partition[3]);
    assert_eq!(partition[4], partition[5]);
    assert_eq!(partition[6], partition[7]);
}

#[test]
fn rcb_part_count_stays_under_two_to_the_iterations() {
    let points = pts(&[(0, 0), (3, 1), (7, 2), (1, 5), (6, 6), (2, 7), (5, 3), (4, 4)]);
    let weights = unit_weights(8);
    let mut minter = PidMinter::new();
    let partition = rcb(&points, &weights, 2, &mut minter);
    assert_eq!(partition.len(), 8);
    assert!(distinct_count(&partition) <= 4);
}

#[test]
fn uniform_weights_rcb_equal_part_sizes() {
    // Eight points, uniform weights, four parts: every part holds two.
    let points = pts(&[(0, 0), (1, 1), (2, 0), (3, 1), (4, 0), (5, 1), (6, 0), (7, 1)]);
    let weights = unit_weights(8);
    let mut minter = PidMinter::new();
    let partition = rcb(&points, &weights, 2, &mut minter);
    let mut seen: Vec<(Pid, usize)> = Vec::new();
    for &p in &partition {
        match seen.iter_mut().find(|e| e.0 == p) {
            Some(e) => e.1 += 1,
            None => seen.push((p, 1)),
        }
    }
    for &(_, size) in &seen {
        assert_eq!(size, 2);
    }
}

#[test]
fn kmeans_recovers_three_rows() {
    let mut minter = PidMinter::new();
    let p1 = minter.fresh();
    let p2 = minter.fresh();
    let p3 = minter.fresh();

    let points = pts(&[
        (0, 0),
        (1, 0),
        (2, 0),
        (0, 5),
        (1, 5),
        (2, 5),
        (0, 10),
        (1, 10),
        (2, 10),
    ]);
    let weights = unit_weights(9);

    // An unbalanced initial labelling: one point, seven points, one point.
    let mut partition = vec![p1, p2, p2, p2, p2, p2, p2, p2, p3];

    let k_means = KMeans {
        num_partitions: 3,
        delta_threshold: 0,
        ..Default::default()
    };
    let outcome = k_means.improve_partition(&points, &weights, &mut partition);
    assert!(outcome.is_ok());

    assert_eq!(partition[0], partition[1]);
    assert_eq!(partition[0], partition[2]);
    assert_eq!(partition[3], partition[4]);
    assert_eq!(partition[3], partition[5]);
    assert_eq!(partition[6], partition[7]);
    assert_eq!(partition[6], partition[8]);
}

#[test]
fn composition_is_the_improver_after_the_partitioner() {
    let points = pts(&[(1, 1), (-1, 1), (1, -1), (-1, -1), (0, 0), (2, 2)]);
    let weights = unit_weights(6);

    // Composed run.
    let composed = Rcb { num_iter: 1 }.compose(KMeans {
        num_partitions: 2,
        delta_threshold: 0,
        ..Default::default()
    });
    let mut m1 = PidMinter::new();
    let ids_composed = composed.partition(&points, &weights, &mut m1);

    // The two stages by hand, from the same fresh minter state.
    let mut m2 = PidMinter::new();
    let mut ids_manual = Rcb { num_iter: 1 }.partition(&points, &weights, &mut m2);
    let improver = KMeans {
        num_partitions: 2,
        delta_threshold: 0,
        ..Default::default()
    };
    let _ = improver.improve_partition(&points, &weights, &mut ids_manual);

    assert_eq!(ids_composed, ids_manual);
}

#[test]
fn pid_minting_is_collision_free() {
    let mut minter = PidMinter::new();
    let mut all: Vec<Pid> = Vec::new();
    for _ in 0..100 {
        all.push(minter.fresh());
    }
    for i in 0..all.len() {
        for j in 0..all.len() {
            if i != j {
                assert_ne!(all[i], all[j]);
            }
        }
    }
}

#[test]
fn validate_inputs_rejects_only_bad_inputs() {
    let points = pts(&[(0, 0), (1, 1)]);
    let weights = unit_weights(2);
    assert!(coupe::validate_inputs(&points, &weights, 2).is_ok());
    assert_eq!(
        coupe::validate_inputs(&points, &weights, 0),
        Err(Error::InvalidInput)
    );
    let short_weights = unit_weights(1);
    assert_eq!(
        coupe::validate_inputs(&points, &short_weights, 2),
        Err(Error::InvalidInput)
    );
    let far = pts(&[(0, 0), (0x7FFF_FFFF_FFFF, 0)]);
    assert_eq!(
        coupe::validate_inputs(&far, &weights, 2),
        Err(Error::InvalidInput)
    );
}

#[test]
fn z_curve_uniform_weights_equal_part_sizes() {
    // Eight points, uniform weights, four parts dividing the count:
    // every run of the ordering holds exactly two points.
    let points = pts(&[(0, 0), (7, 3), (2, 1), (5, 6), (1, 7), (6, 0), (3, 4), (4, 2)]);
    let weights = unit_weights(8);
    let mut minter = PidMinter::new();
    let partition = z_curve_partition(&points, &weights, 4, 5, &mut minter);
    let mut seen: Vec<(Pid, usize)> = Vec::new();
    for &p in &partition {
        match seen.iter_mut().find(|e| e.0 == p) {
            Some(e) => e.1 += 1,
            None => seen.push((p, 1)),
        }
    }
    assert_eq!(seen.len(), 4);
    for &(_, size) in &seen {
        assert_eq!(size, 2);
    }
}

#[test]
fn hilbert_order_is_invariant_under_rescaling() {
    // The same cloud, with each axis rescaled affinely: the curve orders
    // both the same way, so the partitions pair the same indices.
    let base = pts(&[(0, 0), (1, 1), (0, 10), (1, 9), (9, 1), (10, 0), (10, 10), (9, 9)]);
    let scaled: Vec<Point2D> = base
        .iter()
        .map(|p| Point2D { x: 3 * p.x + 7, y: 2 * p.y - 5 })
        .collect();
    let weights = unit_weights(8);
    let mut m1 = PidMinter::new();
    let a = hilbert_curve_partition(&base, &weights, 4, 5, &mut m1);
    let mut m2 = PidMinter::new();
    let b = hilbert_curve_partition(&scaled, &weights, 4, 5, &mut m2);
    assert_eq!(a, b);
}

#[test]
fn z_order_is_invariant_under_translation() {
    let base = pts(&[(0, 0), (1, 1), (0, 10), (1, 9), (9, 1), (10, 0), (10, 10), (9, 9)]);
    let moved: Vec<Point2D> = base
        .iter()
        .map(|p| Point2D { x: p.x - 100, y: p.y + 41 })
        .collect();
    let weights = unit_weights(8);
    let mut m1 = PidMinter::new();
    let a = z_curve_partition(&base, &weights, 4, 5, &mut m1);
    let mut m2 = PidMinter::new();
    let b = z_curve_partition(&moved, &weights, 4, 5, &mut m2);
    assert_eq!(a, b);
}

#[test]
fn multi_jagged_part_count_is_bounded_by_the_request() {
    let points = pts(&[(0, 0), (3, 1), (7, 2), (1, 5), (6, 6), (2, 7), (5, 3), (4, 4), (8, 8)]);
    let weights = unit_weights(9);
    let mut minter = PidMinter::new();
    let partition = multi_jagged(&points, &weights, 6, 2, &mut minter);
    assert!(distinct_count(&partition) <= 6);
}

#[test]
fn partition_bundles_points_weights_and_ids() {
    let points = pts(&[(0, 0), (1, 1)]);
    let weights = unit_weights(2);
    let mut minter = PidMinter::new();
    let a = minter.fresh();
    let b = minter.fresh();
    let mut part = Partition::new(points.clone(), weights.clone(), vec![a, b]);
    assert_eq!(part.ids(), &vec![a, b]);
    assert_eq!(part.points(), &points);
    assert_eq!(part.weights(), &weights);
    part.set_ids(vec![a, a]);
    assert_eq!(part.ids(), &vec![a, a]);
}
