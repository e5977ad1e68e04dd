use palette::clusterer::cluster;
use palette::{ColorCluster, Colors, Rgb};

#[test]
fn test_recalculate_centroid_mean_rounds_half_up() {
    // The mean of (0,0,0) and (255,255,255) is 127.5 per channel; the
    // library's convention rounds halves up, so the centroid is 128.
    let mut cluster = ColorCluster::new(Rgb(7, 7, 7));
    cluster.add(Rgb(0, 0, 0));
    cluster.add(Rgb(255, 255, 255));
    cluster.recalculate_centroid();
    assert_eq!(cluster.centroid, Rgb(128, 128, 128));
}

#[test]
fn test_recalculate_centroid_exact_mean() {
    let mut cluster = ColorCluster::new(Rgb(0, 0, 0));
    cluster.add(Rgb(10, 20, 30));
    cluster.add(Rgb(20, 40, 60));
    cluster.add(Rgb(30, 60, 90));
    cluster.recalculate_centroid();
    assert_eq!(cluster.centroid, Rgb(20, 40, 60));
}

#[test]
fn test_recalculate_centroid_empty_keeps_centroid() {
    let mut cluster = ColorCluster::new(Rgb(9, 8, 7));
    cluster.recalculate_centroid();
    assert_eq!(cluster.centroid, Rgb(9, 8, 7));
    assert_eq!(cluster.len(), 0);
}

#[test]
fn test_distance_sq() {
    let cluster = ColorCluster::new(Rgb(0, 0, 0));
    assert_eq!(cluster.distance_sq(&Rgb(3, 4, 0)), 25);
    assert_eq!(cluster.distance_sq(&Rgb(0, 0, 0)), 0);
    let far = ColorCluster::new(Rgb(255, 255, 255));
    assert_eq!(far.distance_sq(&Rgb(0, 0, 0)), 3 * 255 * 255);
}

fn cluster_with_members(centroid: Rgb, members: &[Rgb]) -> ColorCluster {
    let mut c = ColorCluster::new(centroid);
    for m in members {
        c.add(*m);
    }
    c
}

#[test]
fn test_sort_orders_by_population() {
    let mut colors = Colors::new();
    colors.add(cluster_with_members(Rgb(1, 1, 1), &[Rgb(1, 1, 1)]));
    colors.add(cluster_with_members(
        Rgb(2, 2, 2),
        &[Rgb(2, 2, 2), Rgb(2, 2, 2), Rgb(2, 2, 2)],
    ));
    colors.add(cluster_with_members(Rgb(3, 3, 3), &[Rgb(3, 3, 3), Rgb(3, 3, 3)]));
    colors.sort();
    let ranked = colors.get_colors();
    assert_eq!(ranked, vec![Rgb(2, 2, 2), Rgb(3, 3, 3), Rgb(1, 1, 1)]);
}

#[test]
fn test_sort_is_stable_on_ties() {
    let mut colors = Colors::new();
    colors.add(cluster_with_members(Rgb(1, 1, 1), &[Rgb(1, 1, 1)]));
    colors.add(cluster_with_members(Rgb(2, 2, 2), &[Rgb(2, 2, 2)]));
    colors.add(cluster_with_members(
        Rgb(3, 3, 3),
        &[Rgb(3, 3, 3), Rgb(3, 3, 3)],
    ));
    colors.sort();
    // The two one-member clusters tie and keep their insertion order.
    assert_eq!(
        colors.get_colors(),
        vec![Rgb(3, 3, 3), Rgb(1, 1, 1), Rgb(2, 2, 2)]
    );
}

#[test]
fn test_resort_of_sorted_keeps_order() {
    let mut colors = Colors::new();
    colors.add(cluster_with_members(Rgb(9, 0, 0), &[Rgb(9, 0, 0), Rgb(9, 0, 1)]));
    colors.add(cluster_with_members(Rgb(0, 9, 0), &[Rgb(0, 9, 0)]));
    colors.add(cluster_with_members(Rgb(0, 0, 9), &[Rgb(0, 0, 9)]));
    colors.sort();
    let once = colors.get_colors();
    colors.sort();
    let twice = colors.get_colors();
    assert_eq!(once, twice);
}

#[test]
fn test_cluster_member_counts_sum_to_pixel_count() {
    let pixels = vec![
        Rgb(250, 10, 10),
        Rgb(240, 20, 15),
        Rgb(10, 250, 10),
        Rgb(15, 240, 20),
        Rgb(10, 10, 250),
        Rgb(20, 15, 240),
        Rgb(128, 128, 128),
    ];
    let clusters = cluster(&pixels, 3);
    assert!(!clusters.is_empty());
    assert!(clusters.len() <= 3);
    let total: usize = clusters.iter().map(|c| c.len()).sum();
    assert_eq!(total, pixels.len());
    for c in &clusters {
        assert!(c.len() >= 1);
    }
}

#[test]
fn test_cluster_uniform_pixels_exact_centroids() {
    let color = Rgb(31, 63, 127);
    let pixels = vec![color; 12];
    let clusters = cluster(&pixels, 2);
    let total: usize = clusters.iter().map(|c| c.len()).sum();
    assert_eq!(total, 12);
    for c in &clusters {
        assert_eq!(c.centroid, color);
    }
}

#[test]
fn test_nearest_index_tie_breaks_low() {
    let cents = vec![Rgb(10, 10, 10), Rgb(10, 10, 10), Rgb(200, 200, 200)];
    let idx = palette::clusterer::nearest_index(&cents, &Rgb(10, 10, 10));
    assert_eq!(idx, 0);
}

#[test]
fn test_cluster_k_exceeds_distinct_colors() {
    // More clusters requested than distinct colors exist: empty clusters
    // are dropped, no pixel is lost.
    let pixels = vec![Rgb(0, 0, 0), Rgb(255, 255, 255)];
    let clusters = cluster(&pixels, 5);
    assert!(!clusters.is_empty());
    assert!(clusters.len() <= 5);
    let total: usize = clusters.iter().map(|c| c.len()).sum();
    assert_eq!(total, 2);
}
