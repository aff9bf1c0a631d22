use customer_segmentation::clustering::{
    cluster_summary, distance, init_centers, kmeans_cluster, ClusterError,
};
use customer_segmentation::record::{Customer, Date, SCALE};

fn mock_customer() -> Customer {
    Customer {
        id: 1,
        income: Some(50000 * SCALE),
        year_birth: 1990,
        education: "Graduation".to_string(),
        marital_status: "Single".to_string(),
        mntwines: 100 * SCALE,
        mntfruits: 50 * SCALE,
        mntmeatproducts: 80 * SCALE,
        mntfishproducts: 40 * SCALE,
        mntsweetproducts: 30 * SCALE,
        mntgoldprods: 20 * SCALE,
        recency: 10 * SCALE,
        dt_customer: Date { year: 2020, month: 1, day: 1 },
        num_web_purchases: 5,
        num_catalog_purchases: 3,
        num_store_purchases: 2,
        kidhome: 1,
        teenhome: 2,
        acceptedcmp1: 0,
        acceptedcmp2: 1,
        acceptedcmp3: 0,
        acceptedcmp4: 0,
        acceptedcmp5: 0,
        response: 0,
    }
}

#[test]
fn test_distance() {
    let a = vec![1 * SCALE, 2 * SCALE, 3 * SCALE];
    let b = vec![4 * SCALE, 5 * SCALE, 6 * SCALE];
    assert_eq!(distance(&a, &b), distance(&b, &a));
}

#[test]
fn test_clustering() {
    let data: Vec<Customer> = (0..10)
        .map(|m| {
            let mut c = mock_customer();
            c.id = m as u32;
            c.income = Some((50000 + m as u64 * 1000) * SCALE);
            c
        })
        .collect();
    let result = kmeans_cluster(&data, 2, 5).unwrap();
    assert_eq!(result.len(), 10);
    for &cluster in &result {
        assert!(cluster < 2);
    }
}

#[test]
fn distance_exact_value() {
    let a = vec![0u64, 0];
    let b = vec![3u64, 4];
    assert_eq!(distance(&a, &b), 25);
}

#[test]
fn distance_to_self_is_zero() {
    let a = vec![7u64, 11, 13];
    assert_eq!(distance(&a, &a), 0);
}

#[test]
fn empty_dataset_is_rejected() {
    let data: Vec<Customer> = Vec::new();
    assert_eq!(kmeans_cluster(&data, 1, 1), Err(ClusterError::EmptyDataset));
}

#[test]
fn zero_k_is_rejected() {
    let data = vec![mock_customer()];
    assert_eq!(kmeans_cluster(&data, 0, 1), Err(ClusterError::InvalidK));
}

#[test]
fn k_above_record_count_is_rejected() {
    let data = vec![mock_customer(), mock_customer()];
    assert_eq!(kmeans_cluster(&data, 3, 1), Err(ClusterError::InvalidK));
}

#[test]
fn k_above_distinct_count_is_rejected() {
    // three records, but only one distinct feature vector
    let data = vec![mock_customer(), mock_customer(), mock_customer()];
    assert_eq!(kmeans_cluster(&data, 2, 1), Err(ClusterError::DegenerateInit));
}

#[test]
fn k_equal_to_distinct_count_succeeds() {
    let data: Vec<Customer> = (0..3)
        .map(|m| {
            let mut c = mock_customer();
            c.income = Some((10000 + m as u64 * 5000) * SCALE);
            c
        })
        .collect();
    // every record is its own singleton center: distance zero to itself,
    // positive to the two others, so record order equals cluster order
    // up to the random numbering of the centers.
    let result = kmeans_cluster(&data, 3, 1).unwrap();
    assert_eq!(result.len(), 3);
    let mut seen = vec![false; 3];
    for &cluster in &result {
        assert!(cluster < 3);
        seen[cluster] = true;
    }
    assert!(seen.iter().all(|&s| s));
}

#[test]
fn single_center_assigns_everything_to_zero() {
    let data: Vec<Customer> = (0..4)
        .map(|m| {
            let mut c = mock_customer();
            c.income = Some((1000 + m as u64 * 111) * SCALE);
            c
        })
        .collect();
    // with k = 1 the one center is nearest for every record, whatever
    // the iteration count, zero included
    let result = kmeans_cluster(&data, 1, 0).unwrap();
    assert_eq!(result, vec![0, 0, 0, 0]);
    let result = kmeans_cluster(&data, 1, 3).unwrap();
    assert_eq!(result, vec![0, 0, 0, 0]);
}

#[test]
fn init_centers_are_distinct_rows_of_the_data() {
    let rows = vec![vec![1u64, 2], vec![3u64, 4], vec![1u64, 2], vec![5u64, 6]];
    let centers = init_centers(&rows, 3, 2).unwrap();
    assert_eq!(centers.len(), 3);
    for c in &centers {
        assert!(rows.contains(c));
    }
    for p in 0..3 {
        for q in (p + 1)..3 {
            assert_ne!(centers[p], centers[q]);
        }
    }
}

#[test]
fn init_centers_rejects_too_few_distinct_rows() {
    let rows = vec![vec![1u64, 2], vec![1u64, 2], vec![1u64, 2]];
    assert_eq!(init_centers(&rows, 2, 2), Err(ClusterError::DegenerateInit));
}

#[test]
fn summary_means_are_exact() {
    let rows = vec![vec![2u64, 4], vec![4u64, 8]];
    let assignments = vec![0usize, 0usize];
    let summaries = cluster_summary(&rows, &assignments, 1, 2);
    assert_eq!(summaries.len(), 1);
    assert_eq!(summaries[0].count, 2);
    assert_eq!(summaries[0].means, vec![3, 6]);
}

#[test]
fn empty_cluster_reports_zero_means() {
    let rows = vec![vec![2u64, 4], vec![4u64, 8]];
    let assignments = vec![0usize, 0usize];
    let summaries = cluster_summary(&rows, &assignments, 2, 2);
    assert_eq!(summaries.len(), 2);
    assert_eq!(summaries[1].count, 0);
    assert_eq!(summaries[1].means, vec![0, 0]);
}
