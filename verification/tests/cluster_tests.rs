use std::collections::BTreeSet;

use geocluster::{
    cluster, dbscan, extract_clusters, optics, range_query, Algorithm, ClusterError, Label,
    OpticsEntry, Point, MAX_COORD,
};

/// Radians to fixed-point coordinate units (1e-8 radian per unit).
fn rad(r: f64) -> i64 {
    (r * 1e8).round() as i64
}

fn pts(coords: &[(f64, f64)]) -> Vec<Point> {
    coords
        .iter()
        .map(|&(a, b)| Point { x: rad(a), y: rad(b) })
        .collect()
}

/// The partition of the point set induced by a labeling: the set of clusters,
/// each cluster the set of member coordinates; noise points are left out.
fn partition_of(points: &[Point], labels: &[Label]) -> BTreeSet<BTreeSet<(i64, i64)>> {
    let mut groups: std::collections::BTreeMap<usize, BTreeSet<(i64, i64)>> =
        std::collections::BTreeMap::new();
    for (p, l) in points.iter().zip(labels.iter()) {
        if let Label::Cluster(k) = l {
            groups.entry(*k).or_default().insert((p.x, p.y));
        }
    }
    groups.into_values().collect()
}

fn noise_of(points: &[Point], labels: &[Label]) -> BTreeSet<(i64, i64)> {
    points
        .iter()
        .zip(labels.iter())
        .filter(|(_, l)| matches!(l, Label::Noise))
        .map(|(p, _)| (p.x, p.y))
        .collect()
}

const P7: [(f64, f64); 4] = [(0.0, 0.0), (0.0, 0.0001), (0.0, 0.0002), (5.0, 5.0)];
const P7_EPS: i64 = 25_000; // 0.00025 radian, covers the first three points only

#[test]
fn three_near_points_cluster_and_far_point_is_noise() {
    let points = pts(&P7);
    let labels = dbscan(&points, P7_EPS, 2).unwrap();
    assert_eq!(
        labels,
        vec![
            Label::Cluster(0),
            Label::Cluster(0),
            Label::Cluster(0),
            Label::Noise
        ]
    );
}

#[test]
fn empty_input_yields_empty_labeling() {
    let points: Vec<Point> = Vec::new();
    assert_eq!(dbscan(&points, 1000, 2).unwrap(), Vec::new());
    assert_eq!(optics(&points, 1000, 2).unwrap(), Vec::new());
    assert_eq!(cluster(&points, 1000, 2, Algorithm::Optics).unwrap(), Vec::new());
}

#[test]
fn negative_radius_is_rejected() {
    let points = pts(&P7);
    assert_eq!(dbscan(&points, -1, 2), Err(ClusterError::InvalidParameter));
    assert_eq!(optics(&points, -1, 2), Err(ClusterError::InvalidParameter));
    assert_eq!(
        cluster(&points, -1, 2, Algorithm::Dbscan),
        Err(ClusterError::InvalidParameter)
    );
    assert_eq!(
        cluster(&points, -1, 2, Algorithm::Optics),
        Err(ClusterError::InvalidParameter)
    );
}

#[test]
fn zero_min_pts_is_rejected() {
    let points = pts(&P7);
    assert_eq!(dbscan(&points, P7_EPS, 0), Err(ClusterError::InvalidParameter));
    assert_eq!(optics(&points, P7_EPS, 0), Err(ClusterError::InvalidParameter));
}

#[test]
fn out_of_range_coordinate_is_rejected() {
    let mut points = pts(&P7);
    points.push(Point { x: MAX_COORD + 1, y: 0 });
    assert_eq!(
        dbscan(&points, P7_EPS, 2),
        Err(ClusterError::NonFiniteCoordinate)
    );
    assert_eq!(
        cluster(&points, P7_EPS, 2, Algorithm::Optics),
        Err(ClusterError::NonFiniteCoordinate)
    );
}

#[test]
fn repeated_runs_are_identical() {
    let points = pts(&P7);
    assert_eq!(dbscan(&points, P7_EPS, 2), dbscan(&points, P7_EPS, 2));
    assert_eq!(optics(&points, P7_EPS, 2), optics(&points, P7_EPS, 2));
    assert_eq!(
        cluster(&points, P7_EPS, 2, Algorithm::Optics),
        cluster(&points, P7_EPS, 2, Algorithm::Optics)
    );
}

#[test]
fn permuting_the_input_keeps_the_partition() {
    let points = pts(&P7);
    let permuted = pts(&[P7[3], P7[1], P7[2], P7[0]]);
    let labels = dbscan(&points, P7_EPS, 2).unwrap();
    let labels_p = dbscan(&permuted, P7_EPS, 2).unwrap();
    assert_eq!(
        partition_of(&points, &labels),
        partition_of(&permuted, &labels_p)
    );
    assert_eq!(noise_of(&points, &labels), noise_of(&permuted, &labels_p));
}

#[test]
fn extraction_at_query_radius_matches_direct_run() {
    let points = pts(&P7);
    let direct = dbscan(&points, P7_EPS, 2).unwrap();
    let walked = cluster(&points, P7_EPS, 2, Algorithm::Optics).unwrap();
    assert_eq!(
        partition_of(&points, &direct),
        partition_of(&points, &walked)
    );
    assert_eq!(noise_of(&points, &direct), noise_of(&points, &walked));
}

#[test]
fn finite_core_distances_stay_within_the_radius() {
    let points = pts(&P7);
    let ordering = optics(&points, P7_EPS, 2).unwrap();
    for e in &ordering {
        if let Some(d) = e.core_sq {
            assert!(d <= (P7_EPS as u64) * (P7_EPS as u64));
        }
    }
}

#[test]
fn ordering_lists_every_point_exactly_once() {
    let points = pts(&P7);
    let ordering = optics(&points, P7_EPS, 2).unwrap();
    let mut indices: Vec<usize> = ordering.iter().map(|e| e.index).collect();
    indices.sort();
    assert_eq!(indices, vec![0, 1, 2, 3]);
}

#[test]
fn min_pts_one_leaves_no_noise() {
    let points = pts(&P7);
    let labels = dbscan(&points, P7_EPS, 1).unwrap();
    assert!(labels.iter().all(|l| matches!(l, Label::Cluster(_))));
    // the far point stands alone in a cluster of its own
    assert_eq!(labels[3], Label::Cluster(1));
}

#[test]
fn zero_radius_groups_only_coincident_points() {
    let points = vec![
        Point { x: 7, y: 9 },
        Point { x: 7, y: 9 },
        Point { x: 8, y: 9 },
    ];
    let labels = dbscan(&points, 0, 2).unwrap();
    assert_eq!(
        labels,
        vec![Label::Cluster(0), Label::Cluster(0), Label::Noise]
    );
}

#[test]
fn sparse_point_out_of_reach_is_noise() {
    // the middle point has one neighbor too few and no core point near it
    let points = vec![
        Point { x: 0, y: 0 },
        Point { x: 0, y: 1000 },
        Point { x: 0, y: 2000 },
        Point { x: 0, y: 50_000 },
    ];
    let labels = dbscan(&points, 1500, 3).unwrap();
    assert_eq!(labels[3], Label::Noise);
}

#[test]
fn range_query_returns_ascending_neighborhood() {
    let points = pts(&P7);
    assert_eq!(range_query(&points, 0, P7_EPS), vec![0, 1, 2]);
    assert_eq!(range_query(&points, 3, P7_EPS), vec![3]);
    assert_eq!(range_query(&points, 1, 10_000), vec![0, 1, 2]);
}

#[test]
fn extraction_walk_opens_joins_and_drops() {
    let entries = vec![
        OpticsEntry { index: 2, core_sq: Some(4), reach_sq: None },
        OpticsEntry { index: 0, core_sq: Some(9), reach_sq: Some(9) },
        OpticsEntry { index: 1, core_sq: None, reach_sq: Some(400) },
        OpticsEntry { index: 3, core_sq: Some(1), reach_sq: Some(400) },
    ];
    // threshold 10: squared threshold 100
    let labels = extract_clusters(&entries, 10, 5);
    assert_eq!(
        labels,
        vec![
            Label::Cluster(0),
            Label::Noise,
            Label::Cluster(0),
            Label::Cluster(1),
            Label::Noise
        ]
    );
}

#[test]
fn provisional_noise_is_reclaimed_by_a_later_cluster() {
    // the first point is visited first and provisionally noise; the cluster
    // grown from the second point reaches it and claims it as a border point
    let points = vec![
        Point { x: 0, y: 30 },
        Point { x: 0, y: 40 },
        Point { x: 0, y: 50 },
        Point { x: 0, y: 60 },
    ];
    let labels = dbscan(&points, 10, 3).unwrap();
    assert_eq!(
        labels,
        vec![
            Label::Cluster(0),
            Label::Cluster(0),
            Label::Cluster(0),
            Label::Cluster(0)
        ]
    );
}

#[test]
fn expansion_chains_through_consecutive_core_points() {
    let points = vec![
        Point { x: 0, y: 0 },
        Point { x: 0, y: 10 },
        Point { x: 0, y: 20 },
        Point { x: 0, y: 30 },
        Point { x: 0, y: 40 },
    ];
    let labels = dbscan(&points, 10, 3).unwrap();
    assert!(labels.iter().all(|l| *l == Label::Cluster(0)));
}

#[test]
fn relabeling_renumbers_by_first_appearance() {
    let labels = vec![
        Label::Cluster(5),
        Label::Noise,
        Label::Cluster(2),
        Label::Cluster(5),
    ];
    assert_eq!(
        geocluster::relabel_dense(&labels),
        vec![
            Label::Cluster(0),
            Label::Noise,
            Label::Cluster(1),
            Label::Cluster(0)
        ]
    );
}

#[test]
fn relabeling_is_the_identity_on_engine_output() {
    let points = pts(&P7);
    let labels = dbscan(&points, P7_EPS, 2).unwrap();
    assert_eq!(geocluster::relabel_dense(&labels), labels);
}
