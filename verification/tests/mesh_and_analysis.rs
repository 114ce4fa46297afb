//! Tests of the Medit mesh format, the analysis helpers and the graph
//! refiners.

use coupe::analysis::aspect_ratios;
use coupe::analysis::imbalance_max_diff;
use coupe::analysis::imbalance_relative_diff;
use coupe::analysis::weights;
use coupe::error::Error;
use coupe::geometry::Point2D;
use coupe::graph::adjacency_matrix;
use coupe::graph::cut_size;
use coupe::graph::Adjacency;
use coupe::hilbert_curve::encode;
use coupe::medit::f64_bits;
use coupe::medit::Decimal;
use coupe::medit::Mesh;
use coupe::k_means::balanced_k_means;
use coupe::k_means::balanced_k_means_with_initial_partition;
use coupe::k_means::BalancedKmeansSettings;
use coupe::medit::ElementType;
use coupe::pid::Pid;
use coupe::pid::PidMinter;
use coupe::scotch::check_single_criterion;
use coupe::ImprovePartition;
use coupe::refine::fiduccia_mattheyses;
use coupe::refine::kernighan_lin;
use coupe::refine::FiducciaMattheyses;
use coupe::refine::KernighanLin;
use coupe::z_curve::ZCurveQuadtree;

fn pts(v: &[(i64, i64)]) -> Vec<Point2D> {
    v.iter().map(|&(x, y)| Point2D { x, y }).collect()
}

fn lookup(parts: &[(Pid, u64)], p: Pid) -> u64 {
    parts.iter().find(|e| e.0 == p).expect("part missing").1
}

#[test]
fn test_reorder() {
    let points = pts(&[
        (0, 0),
        (20, 10),
        (0, 10),
        (20, 0),
        (14, 7),
        (4, 7),
        (14, 2),
        (4, 2),
    ]);
    let weights: Vec<u64> = points.iter().map(|_| 1).collect();

    let qt = ZCurveQuadtree::new(points, weights);
    let (reordered, _weights) = qt.reorder();

    assert_eq!(reordered[0], Point2D { x: 0, y: 0 });
    assert_eq!(reordered[1], Point2D { x: 4, y: 2 });
    assert_eq!(reordered[2], Point2D { x: 14, y: 2 });
    assert_eq!(reordered[3], Point2D { x: 20, y: 0 });
    assert_eq!(reordered[4], Point2D { x: 4, y: 7 });
    assert_eq!(reordered[5], Point2D { x: 0, y: 10 });
    assert_eq!(reordered[6], Point2D { x: 14, y: 7 });
    assert_eq!(reordered[7], Point2D { x: 20, y: 10 });
}

#[test]
fn test_weights() {
    let mut minter = PidMinter::new();
    let id_pool: Vec<Pid> = (0..3).map(|_| minter.fresh()).collect();
    let w: Vec<u64> = vec![1, 2, 3, 2, 1];
    let ids = vec![id_pool[0], id_pool[2], id_pool[0], id_pool[1], id_pool[0]];

    let part_weights = weights(&w, &ids);

    assert_eq!(lookup(&part_weights, id_pool[0]), 5);
    assert_eq!(lookup(&part_weights, id_pool[1]), 2);
    assert_eq!(lookup(&part_weights, id_pool[2]), 2);
}

#[test]
fn test_imbalance_max_diff() {
    let mut minter = PidMinter::new();
    let id_pool: Vec<Pid> = (0..3).map(|_| minter.fresh()).collect();
    let w: Vec<u64> = vec![1, 2, 3, 2, 1];
    let ids = vec![id_pool[0], id_pool[2], id_pool[0], id_pool[1], id_pool[0]];

    let max_diff = imbalance_max_diff(&w, &ids);
    assert_eq!(max_diff, 3);
}

#[test]
fn relative_imbalance_carries_the_total() {
    let mut minter = PidMinter::new();
    let id_pool: Vec<Pid> = (0..3).map(|_| minter.fresh()).collect();
    let w: Vec<u64> = vec![1, 2, 3, 2, 1];
    let ids = vec![id_pool[0], id_pool[2], id_pool[0], id_pool[1], id_pool[0]];

    let (diff, total) = imbalance_relative_diff(&w, &ids);
    assert_eq!(diff, 3);
    assert_eq!(total, 9);
}

#[test]
fn test_aspect_ratios() {
    let mut minter = PidMinter::new();
    let id1 = minter.fresh();
    let id2 = minter.fresh();

    let ids = vec![id1, id1, id1, id1, id2, id2, id2, id2];
    let points = pts(&[
        // first rectangle
        (0, 0),
        (0, 8),
        (2, 0),
        (2, 8),
        // second rectangle
        (-1, 1),
        (1, -1),
        (1, 1),
        (-1, -1),
    ]);

    let ratios = aspect_ratios(&ids, &points);

    for (id, long, short) in ratios {
        if id == id1 {
            assert_eq!(long, 4 * short);
        } else if id == id2 {
            assert_eq!(long, short);
        } else {
            unreachable!();
        }
    }
}

#[test]
fn test_serialize() {
    let input = "MeshVersionFormatted 2
Dimension 3

Vertices
\t4
 2.3 0 1 0
 1231 2 3.14 0
 -21.2 21 0.0001 0
 -0.2 -0.2 -0.2 0

Triangles
\t2
 1 2 3 0
 2 3 4 0

End";
    let bytes: Vec<u8> = input.as_bytes().to_vec();
    let mesh = Mesh::parse_ascii(&bytes).unwrap();
    let output = mesh.to_ascii();
    assert_eq!(input.as_bytes(), &output[..]);
}

#[test]
fn parse_rejects_malformed_meshes() {
    let garbage: Vec<u8> = b"MeshVersionFormatted 2 Dimension 5 End".to_vec();
    assert!(matches!(Mesh::parse_ascii(&garbage), Err(Error::ExternalFailure)));
    let empty: Vec<u8> = Vec::new();
    assert!(matches!(Mesh::parse_ascii(&empty), Err(Error::ExternalFailure)));
}

#[test]
fn double_bits_match_the_hardware() {
    let cases: Vec<(bool, u64, u32, f64)> = vec![
        (false, 23, 1, 2.3),
        (false, 0, 0, 0.0),
        (false, 1, 0, 1.0),
        (false, 1231, 0, 1231.0),
        (false, 314, 2, 3.14),
        (true, 212, 1, -21.2),
        (false, 1, 4, 0.0001),
        (true, 2, 1, -0.2),
        (false, 1, 17, 0.00000000000000001),
    ];
    for (neg, mantissa, scale, value) in cases {
        let d = Decimal { neg, mantissa, scale };
        assert_eq!(f64_bits(d), value.to_bits(), "for {value}");
    }
}

#[test]
fn binary_mesh_image_is_exact() {
    // One node at (2.3, 0.5), reference 7, one edge block referencing it
    // twice.
    let mesh = Mesh {
        dimension: 2,
        coordinates: vec![
            Decimal { neg: false, mantissa: 23, scale: 1 },
            Decimal { neg: false, mantissa: 5, scale: 1 },
        ],
        node_refs: vec![7],
        topology: vec![(coupe::medit::ElementType::Edge, vec![0, 0], vec![-1])],
    };
    let out = mesh.write_to();
    let mut expected: Vec<u8> = Vec::new();
    expected.extend_from_slice(&1i32.to_le_bytes());
    expected.extend_from_slice(&4i32.to_le_bytes());
    expected.extend_from_slice(&3i32.to_le_bytes());
    expected.extend_from_slice(&24i64.to_le_bytes());
    expected.extend_from_slice(&2i32.to_le_bytes());
    expected.extend_from_slice(&4i32.to_le_bytes());
    let bitpos1: i64 = 24 + 8 * 1 * 3;
    expected.extend_from_slice(&bitpos1.to_le_bytes());
    expected.extend_from_slice(&1i64.to_le_bytes());
    expected.extend_from_slice(&2.3f64.to_le_bytes());
    expected.extend_from_slice(&0.5f64.to_le_bytes());
    expected.extend_from_slice(&7i64.to_le_bytes());
    expected.extend_from_slice(&5i32.to_le_bytes());
    let bitpos2: i64 = bitpos1 + 8 * 1 * 3;
    expected.extend_from_slice(&bitpos2.to_le_bytes());
    expected.extend_from_slice(&1i64.to_le_bytes());
    expected.extend_from_slice(&1i64.to_le_bytes());
    expected.extend_from_slice(&1i64.to_le_bytes());
    expected.extend_from_slice(&(-1i64).to_le_bytes());
    expected.extend_from_slice(&54i32.to_le_bytes());
    assert_eq!(out, expected);
}

#[test]
fn hilbert_encoding_of_the_unit_square() {
    assert_eq!(encode(0, 0, 1), 0);
    assert_eq!(encode(0, 1, 1), 1);
    assert_eq!(encode(1, 1, 1), 2);
    assert_eq!(encode(1, 0, 1), 3);
}

fn path_graph_of_six() -> Adjacency {
    Adjacency {
        xadj: vec![0, 1, 3, 5, 7, 9, 10],
        adjncy: vec![1, 0, 2, 1, 3, 2, 4, 3, 5, 4],
        eweights: vec![1; 10],
    }
}

#[test]
fn kernighan_lin_on_an_optimal_path_is_idempotent() {
    let adj = path_graph_of_six();
    let mut minter = PidMinter::new();
    let a = minter.fresh();
    let b = minter.fresh();
    let mut ids = vec![a, a, a, b, b, b];
    let w: Vec<u64> = vec![1; 6];
    let config = KernighanLin {
        max_passes: 4,
        max_flips_per_pass: 6,
        max_imbalance_per_flip: 2,
        max_bad_move_in_a_row: 1,
    };
    kernighan_lin(&adj, &w, &mut ids, &config);
    assert_eq!(cut_size(&adj, &ids), 1);
    assert_eq!(ids, vec![a, a, a, b, b, b]);
}

#[test]
fn fiduccia_mattheyses_never_increases_the_cut() {
    let adj = path_graph_of_six();
    let mut minter = PidMinter::new();
    let a = minter.fresh();
    let b = minter.fresh();
    // An interleaved labelling with a large cut.
    let mut ids = vec![a, b, a, b, a, b];
    let w: Vec<u64> = vec![1; 6];
    let before = cut_size(&adj, &ids);
    let config = FiducciaMattheyses {
        max_passes: 8,
        max_flips_per_pass: 6,
        max_imbalance_per_flip: 4,
        max_bad_move_in_a_row: 2,
    };
    fiduccia_mattheyses(&adj, &w, &mut ids, &config);
    let after = cut_size(&adj, &ids);
    assert!(after <= before);
    for &p in &ids {
        assert!(p == a || p == b);
    }
}

#[test]
fn adjacency_from_shared_nodes() {
    // Two triangles sharing the edge {1, 2}, a third sharing only node 0
    // with the first.
    let elements: Vec<Vec<usize>> = vec![vec![0, 1, 2], vec![1, 2, 3], vec![0, 4, 5]];
    let adj = adjacency_matrix(&elements, 2);
    assert_eq!(adj.xadj, vec![0, 1, 2, 2]);
    assert_eq!(adj.adjncy, vec![1, 0]);
    let mut minter = PidMinter::new();
    let a = minter.fresh();
    let b = minter.fresh();
    let same = vec![a, a, b];
    assert_eq!(cut_size(&adj, &same), 0);
    let split = vec![a, b, b];
    assert_eq!(cut_size(&adj, &split), 1);
}

#[test]
fn balanced_k_means_reports_non_convergence() {
    let points = pts(&[(0, 0), (10, 0)]);
    let w: Vec<u64> = vec![1, 3];
    let mut minter = PidMinter::new();
    let a = minter.fresh();
    let b = minter.fresh();
    let mut ids = vec![a, b];
    let settings = BalancedKmeansSettings {
        num_partitions: 2,
        imbalance_tol: 1,
        delta_threshold: 1,
        max_iter: 5,
        max_balance_iter: 3,
        erode: false,
        hilbert: true,
        mbr_early_break: false,
    };
    // The two parts can never weigh within one unit of each other.
    let r = balanced_k_means_with_initial_partition(&points, &w, &settings, &mut ids);
    assert_eq!(r, Err(Error::NotConverged));
}

#[test]
fn seeded_k_means_balances_two_clusters() {
    let points = pts(&[(0, 0), (1, 0), (100, 0), (101, 0)]);
    let w: Vec<u64> = vec![1; 4];
    let mut minter = PidMinter::new();
    let settings = BalancedKmeansSettings {
        num_partitions: 2,
        imbalance_tol: 1,
        delta_threshold: 1,
        max_iter: 50,
        max_balance_iter: 5,
        erode: false,
        hilbert: false,
        mbr_early_break: false,
    };
    let (ids, r) = balanced_k_means(&points, &w, &settings, &mut minter);
    assert!(r.is_ok());
    assert_eq!(ids.len(), 4);
    assert_eq!(ids[0], ids[1]);
    assert_eq!(ids[2], ids[3]);
    assert_ne!(ids[0], ids[2]);
}

#[test]
fn sorting_orders_indices_by_key() {
    let keys: Vec<u64> = vec![3, 1, 2, 1];
    let perm = coupe::sort::sort_indices_by_key(&keys);
    assert_eq!(perm, vec![1, 3, 2, 0]);
}

#[test]
fn element_codes_match_the_format() {
    assert_eq!(ElementType::Vertex.code(), 4);
    assert_eq!(ElementType::Edge.code(), 5);
    assert_eq!(ElementType::Triangle.code(), 6);
    assert_eq!(ElementType::Quadrangle.code(), 7);
    assert_eq!(ElementType::Quadrilateral.code(), 7);
    assert_eq!(ElementType::Tetrahedron.code(), 8);
    assert_eq!(ElementType::Hexahedron.code(), 9);
}

#[test]
fn apply_overwrites_main_element_references() {
    let input = "MeshVersionFormatted 2
Dimension 3

Vertices
\t4
 2.3 0 1 0
 1231 2 3.14 0
 -21.2 21 0.0001 0
 -0.2 -0.2 -0.2 0

Triangles
\t2
 1 2 3 0
 2 3 4 0

End";
    let bytes: Vec<u8> = input.as_bytes().to_vec();
    let mut mesh = Mesh::parse_ascii(&bytes).unwrap();
    coupe::medit::apply(&mut mesh, &vec![5, 6]);
    assert_eq!(mesh.topology[0].2, vec![5, 6]);
}

#[test]
fn solver_bridge_rejects_multi_criteria_weights() {
    assert!(check_single_criterion(1).is_ok());
    assert_eq!(
        check_single_criterion(2),
        Err(Error::UnsupportedCombination)
    );
    let standard = coupe::scotch::Standard { part_count: 4 };
    assert_eq!(standard.part_count, 4);
}

#[test]
fn kernighan_lin_strictly_improves_an_interleaved_path() {
    let adj = path_graph_of_six();
    let mut minter = PidMinter::new();
    let a = minter.fresh();
    let b = minter.fresh();
    // Swapping vertices 1 and 3 of [A,B,A,B,B,A] lowers the cut.
    let mut ids = vec![a, b, a, b, b, a];
    let w: Vec<u64> = vec![1; 6];
    let before = cut_size(&adj, &ids);
    let config = KernighanLin {
        max_passes: 4,
        max_flips_per_pass: 6,
        max_imbalance_per_flip: 6,
        max_bad_move_in_a_row: 2,
    };
    kernighan_lin(&adj, &w, &mut ids, &config);
    assert!(cut_size(&adj, &ids) < before);
}

#[test]
fn parse_accepts_only_canonical_spellings() {
    // A trailing fractional zero is not the canonical spelling of 1.5.
    let non_canonical = "MeshVersionFormatted 2
Dimension 2

Vertices
\t1
 1.50 0 0

End";
    assert!(matches!(
        Mesh::parse_ascii(&non_canonical.as_bytes().to_vec()),
        Err(Error::ExternalFailure)
    ));
    // The same mesh, spelled canonically, parses and echoes exactly.
    let canonical = "MeshVersionFormatted 2
Dimension 2

Vertices
\t1
 1.5 0 0

End";
    let mesh = Mesh::parse_ascii(&canonical.as_bytes().to_vec()).unwrap();
    assert_eq!(mesh.to_ascii(), canonical.as_bytes().to_vec());
}

#[test]
fn apply_stops_when_the_weights_run_out() {
    let input = "MeshVersionFormatted 2
Dimension 3

Vertices
\t4
 0 0 0 0
 1 0 0 0
 0 1 0 0
 0 0 1 0

Triangles
\t2
 1 2 3 8
 2 3 4 9

End";
    let bytes: Vec<u8> = input.as_bytes().to_vec();
    let mut mesh = Mesh::parse_ascii(&bytes).unwrap();
    coupe::medit::apply(&mut mesh, &vec![5]);
    assert_eq!(mesh.topology[0].2, vec![5, 9]);
}

#[test]
fn kmeans_outcome_follows_the_relative_imbalance() {
    let points = pts(&[(0, 0), (10, 0)]);
    let w: Vec<u64> = vec![1, 3];
    let mut minter = PidMinter::new();
    let a = minter.fresh();
    let b = minter.fresh();
    let mut ids = vec![a, b];
    // The two parts differ by half the total weight: within a 60 percent
    // tolerance, not within a 10 percent one.
    let lenient = coupe::KMeans {
        num_partitions: 2,
        imbalance_tol: 60,
        delta_threshold: 1,
        max_iter: 5,
        max_balance_iter: 3,
        erode: false,
        hilbert: true,
        mbr_early_break: false,
    };
    assert!(lenient.improve_partition(&points, &w, &mut ids).is_ok());
    let strict = coupe::KMeans { imbalance_tol: 10, ..lenient };
    let mut ids2 = vec![a, b];
    assert!(strict.improve_partition(&points, &w, &mut ids2).is_err());
}
