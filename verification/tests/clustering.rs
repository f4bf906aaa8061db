use my_kmeans_lib::assign::assign_points;
use my_kmeans_lib::cluster::{cluster, places, seed_centroids, InsufficientDataError};
use my_kmeans_lib::dataset::DataSet;
use my_kmeans_lib::fixed::NOT_A_NUMBER;
use my_kmeans_lib::update::{has_converged, mean_of_cluster};

fn two_groups() -> Vec<[i64; 3]> {
    vec![
        [0, 0, 0],
        [100_000, 0, 0],
        [9_000_000, 9_000_000, 9_000_000],
        [9_100_000, 9_100_000, 9_100_000],
    ]
}

fn two_groups_data() -> DataSet {
    let rows = vec![
        vec![0, 0, 0],
        vec![100_000, 0, 0],
        vec![9_000_000, 9_000_000, 9_000_000],
        vec![9_100_000, 9_100_000, 9_100_000],
    ];
    DataSet::from_rows(&rows, None).unwrap()
}

#[test]
fn test_kmeans_basic() {
    let ds = two_groups_data();
    let labels = ds.kmeans3d(2, 20).unwrap();
    assert_eq!(labels.len(), 4);
}

#[test]
fn labels_are_as_many_as_points_and_name_clusters() {
    let mut points: Vec<[i64; 3]> = Vec::new();
    for i in 0..40i64 {
        points.push([i * 1_000_000, (i % 7) * 500_000, -(i % 3) * 250_000]);
    }
    for k in 1..=40usize {
        for cap in [0usize, 1, 2, 5, 50] {
            let labels = cluster(&points, k, cap).unwrap();
            assert_eq!(labels.len(), points.len());
            assert!(labels.iter().all(|&l| l < k));
        }
    }
}

#[test]
fn more_clusters_than_points_is_an_error() {
    let points = two_groups();
    assert_eq!(cluster(&points, 5, 20), Err(InsufficientDataError { points: 4, clusters: 5 }));
    assert_eq!(cluster(&points, usize::MAX, 0), Err(InsufficientDataError { points: 4, clusters: usize::MAX }));
    let ds = two_groups_data();
    assert_eq!(ds.kmeans3d(5, 20), Err(InsufficientDataError { points: 4, clusters: 5 }));
    let none: Vec<[i64; 3]> = Vec::new();
    assert_eq!(cluster(&none, 1, 20), Err(InsufficientDataError { points: 0, clusters: 1 }));
}

#[test]
fn no_cluster_is_an_error() {
    let points = two_groups();
    assert_eq!(cluster(&points, 0, 20), Err(InsufficientDataError { points: 4, clusters: 0 }));
    assert_eq!(cluster(&points, 0, 0), Err(InsufficientDataError { points: 4, clusters: 0 }));
    let ds = two_groups_data();
    assert_eq!(ds.kmeans3d(0, 20), Err(InsufficientDataError { points: 4, clusters: 0 }));
    let none: Vec<[i64; 3]> = Vec::new();
    assert_eq!(cluster(&none, 0, 20), Err(InsufficientDataError { points: 0, clusters: 0 }));
}

#[test]
fn as_many_clusters_as_points() {
    let points = two_groups();
    for cap in [0usize, 1, 20] {
        let mut labels = cluster(&points, 4, cap).unwrap();
        labels.sort();
        assert_eq!(labels, vec![0, 1, 2, 3]);
    }
}

#[test]
fn two_groups_stay_apart() {
    let points = two_groups();
    for cap in [2usize, 3, 20, 50] {
        let labels = cluster(&points, 2, cap).unwrap();
        assert_eq!(labels.len(), 4);
        assert_eq!(labels[0], labels[1]);
        assert_eq!(labels[2], labels[3]);
        assert_ne!(labels[0], labels[2]);
    }
}

#[test]
fn two_groups_stay_apart_whatever_the_seeding() {
    let ds = two_groups_data();
    for _ in 0..300 {
        let labels = ds.kmeans3d(2, 20).unwrap();
        assert_eq!(labels.len(), 4);
        assert!(labels.iter().all(|&l| l < 2));
        assert_eq!(labels[0], labels[1]);
        assert_eq!(labels[2], labels[3]);
        assert_ne!(labels[0], labels[2]);
    }
}

#[test]
fn no_iteration_still_labels_by_the_seeding() {
    let points = two_groups();
    for cap in [0usize, 1] {
        for _ in 0..100 {
            let labels = cluster(&points, 2, cap).unwrap();
            assert_eq!(labels.len(), 4);
            assert!(labels.iter().all(|&l| l < 2));
            // the two seeds are two of the points, each nearest to itself
            let mut found = false;
            for a in 0..4 {
                for b in 0..4 {
                    if a != b && assign_points(&points, &vec![points[a], points[b]]) == labels {
                        found = true;
                    }
                }
            }
            assert!(found);
        }
    }
    let ds = two_groups_data();
    assert_eq!(ds.kmeans3d(1, 0), Ok(vec![0, 0, 0, 0]));
}

#[test]
fn seeding_is_drawn_at_random() {
    let points = two_groups();
    let mut first_seed_was_first_point = 0;
    let runs = 400;
    for _ in 0..runs {
        let labels = cluster(&points, 4, 0).unwrap();
        if labels == vec![0, 1, 2, 3] {
            first_seed_was_first_point += 1;
        }
    }
    assert!(first_seed_was_first_point < runs);
}

#[test]
fn a_cluster_without_points_is_seeded_anew() {
    let points = vec![[5, 5, 5], [5, 5, 5], [5, 5, 5]];
    for _ in 0..50 {
        let labels = cluster(&points, 2, 10).unwrap();
        assert_eq!(labels, vec![0, 0, 0]);
    }
}

#[test]
fn rows_that_are_not_numbers_go_to_the_first_cluster() {
    let rows = vec![
        vec![0, 0, 0],
        vec![NOT_A_NUMBER, 0, 0],
        vec![100_000, 0, 0],
        vec![0, 0, NOT_A_NUMBER],
    ];
    let ds = DataSet::from_rows(&rows, None).unwrap();
    for _ in 0..50 {
        let labels = ds.kmeans3d(2, 0).unwrap();
        assert_eq!(labels.len(), 4);
        assert_eq!(labels[1], 0);
        assert_eq!(labels[3], 0);
    }
}

#[test]
fn only_the_first_three_columns_count() {
    let rows = vec![
        vec![0, 0, 0, 9_000_000],
        vec![100_000, 0, 0, -9_000_000],
        vec![9_000_000, 9_000_000, 9_000_000, 0],
        vec![9_100_000, 9_100_000, 9_100_000, NOT_A_NUMBER],
    ];
    let ds = DataSet::from_rows(&rows, None).unwrap();
    for _ in 0..50 {
        let labels = ds.kmeans3d(2, 20).unwrap();
        assert_eq!(labels[0], labels[1]);
        assert_eq!(labels[2], labels[3]);
        assert_ne!(labels[0], labels[2]);
    }
}

#[test]
fn places_and_seeds() {
    assert_eq!(places(0), Vec::<usize>::new());
    assert_eq!(places(4), vec![0, 1, 2, 3]);
    let points = two_groups();
    let order = vec![2, 0, 3, 1];
    assert_eq!(seed_centroids(&points, &order, 2), vec![points[2], points[0]]);
    assert_eq!(seed_centroids(&points, &order, 0), Vec::<[i64; 3]>::new());
    assert_eq!(seed_centroids(&points, &order, 4), vec![points[2], points[0], points[3], points[1]]);
}

#[test]
fn an_equilibrium_is_kept() {
    let points = two_groups();
    // each centroid is the mean of the points nearest to it
    let centroids = vec![[50_000, 0, 0], [9_050_000, 9_050_000, 9_050_000]];
    let labels = assign_points(&points, &centroids);
    assert_eq!(labels, vec![0, 0, 1, 1]);
    let next = vec![
        mean_of_cluster(&points, &labels, 0).unwrap(),
        mean_of_cluster(&points, &labels, 1).unwrap(),
    ];
    assert_eq!(next, centroids);
    assert!(has_converged(&centroids, &next));
    assert_eq!(assign_points(&points, &next), labels);
}

#[test]
fn one_cluster_holds_everything() {
    let points = two_groups();
    for cap in [0usize, 1, 2, 50] {
        assert_eq!(cluster(&points, 1, cap), Ok(vec![0, 0, 0, 0]));
    }
}
