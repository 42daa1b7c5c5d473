use traffic_analyzer::dbscan::{
    cluster_kind, cluster_name, group_by_cluster, palette_index, PointType, Proximity, NOISE,
};

fn line(points: &[f64], eps: f64) -> Proximity {
    let mut p = Proximity::new();
    for i in 0..points.len() {
        let flags = (0..=i).map(|j| (points[i] - points[j]).abs() <= eps).collect();
        assert!(p.push(flags));
    }
    p
}

fn textbook(points: &[f64], eps: f64, min_points: usize) -> Vec<i32> {
    let region = |i: usize| -> Vec<usize> {
        (0..points.len()).filter(|&j| (points[i] - points[j]).abs() <= eps).collect()
    };
    let mut labels = vec![-99; points.len()];
    let mut cluster = 0;
    for p in 0..points.len() {
        if labels[p] != -99 {
            continue;
        }
        let mut seeds = region(p);
        if seeds.len() < min_points {
            labels[p] = -1;
            continue;
        }
        labels[p] = cluster;
        let mut at = 0;
        while at < seeds.len() {
            let q = seeds[at];
            at += 1;
            if labels[q] == -1 {
                labels[q] = cluster;
            }
            if labels[q] != -99 {
                continue;
            }
            labels[q] = cluster;
            let next = region(q);
            if next.len() >= min_points {
                for n in next {
                    if !seeds.contains(&n) {
                        seeds.push(n);
                    }
                }
            }
        }
        cluster += 1;
    }
    labels
}

#[test]
fn two_clusters_and_noise() {
    let points = [0.0, 1.0, 2.0, 10.0, 11.0, 12.0, 50.0];
    let p = line(&points, 1.0);
    let labels = p.dbscan(3);
    assert_eq!(labels, [0, 0, 0, 1, 1, 1, NOISE]);
    assert_eq!(
        p.point_types(&labels, 3),
        [
            PointType::Border,
            PointType::Core,
            PointType::Border,
            PointType::Border,
            PointType::Core,
            PointType::Border,
            PointType::Noise,
        ]
    );
}

#[test]
fn a_border_point_goes_to_the_lowest_cluster() {
    let points = [0.0, 0.5, 1.0, 2.0, 3.0, 3.5, 4.0];
    assert_eq!(line(&points, 1.0).dbscan(4), textbook(&points, 1.0, 4));
}

#[test]
fn agrees_with_the_textbook_algorithm() {
    let mut seed: u64 = 12345;
    for _ in 0..200 {
        let mut points = Vec::new();
        for _ in 0..25 {
            seed = seed.wrapping_mul(6364136223846793005).wrapping_add(1442695040888963407);
            points.push(((seed >> 33) % 400) as f64 / 10.0);
        }
        for min_points in 2..6 {
            assert_eq!(line(&points, 1.5).dbscan(min_points), textbook(&points, 1.5, min_points));
        }
    }
}

#[test]
fn noise_is_what_no_core_point_is_near() {
    let points = [0.0, 1.0, 2.0, 3.0, 9.0];
    let p = line(&points, 1.0);
    let labels = p.dbscan(3);
    for i in 0..points.len() {
        let near_core = p.region_query(i).iter().any(|&j| p.region_query(j).len() >= 3);
        assert_eq!(labels[i] == NOISE, !near_core);
    }
}

#[test]
fn cluster_numbers_have_no_gaps() {
    let points: Vec<f64> = (0..40).map(|i| (i / 4 * 10 + i % 4) as f64).collect();
    let labels = line(&points, 1.0).dbscan(2);
    let highest = *labels.iter().max().unwrap();
    assert_eq!(highest, 9);
    for c in 0..=highest {
        assert!(labels.contains(&c));
    }
}

#[test]
fn rows_of_the_wrong_length_are_refused() {
    let mut p = Proximity::new();
    assert!(!p.push(vec![true, true]));
    assert!(p.push(vec![true]));
    assert!(!p.push(vec![true]));
    assert!(p.push(vec![false, true]));
    assert_eq!(p.len(), 2);
    assert_eq!(p.region_query(0), [0]);
}

#[test]
fn no_points_make_no_clusters() {
    assert!(Proximity::new().dbscan(4).is_empty());
}

#[test]
fn groups_are_in_the_order_of_their_labels() {
    let groups = group_by_cluster(&vec![1, -1, 0, 1, -1]);
    let listed: Vec<(i32, Vec<usize>)> =
        groups.into_iter().map(|g| (g.cluster, g.members)).collect();
    assert_eq!(listed, [(-1, vec![1, 4]), (0, vec![2]), (1, vec![0, 3])]);
    assert!(group_by_cluster(&vec![]).is_empty());
}

#[test]
fn names_of_labels() {
    assert_eq!((cluster_kind(-1), cluster_kind(3)), ("noise", "cluster"));
    assert_eq!(cluster_name(-1), "noise");
    assert_eq!(cluster_name(12), "cluster 12");
    assert_eq!(palette_index(-1, 8), None);
    assert_eq!(palette_index(7, 8), Some(7));
    assert_eq!(palette_index(8, 8), Some(0));
    assert_eq!(PointType::Noise.as_str(), "noise");
    assert_eq!(PointType::Core.as_str(), "core");
    assert_eq!(PointType::Border.as_str(), "border");
}
