use aether::topology::{clusters, cpu_layout};

fn layout(cores: &[(u64, u32)]) -> (String, String, String) {
    cpu_layout(&cores.to_vec())
}

#[test]
fn three_clusters_slowest_first() {
    let cores = [
        (1_800_000, 0), (1_800_000, 1), (1_800_000, 2), (1_800_000, 3),
        (2_400_000, 4), (2_400_000, 5), (2_400_000, 6), (3_000_000, 7),
    ];
    let (big, little, topo) = layout(&cores);
    assert_eq!(topo, "4+3+1");
    assert_eq!(little, "0,1,2,3");
    assert_eq!(big, "4,5,6,7");
}

#[test]
fn clusters_sorted_by_frequency_not_by_number() {
    let cores = [(2_000, 0), (1_000, 1), (3_000, 2), (1_000, 3), (2_000, 4)];
    assert_eq!(clusters(&cores.to_vec()), vec![(1_000, 2), (2_000, 2), (3_000, 1)]);
    let (big, little, topo) = layout(&cores);
    assert_eq!(topo, "2+2+1");
    assert_eq!(little, "1,3");
    assert_eq!(big, "0,2,4");
}

#[test]
fn one_frequency_is_big_and_little() {
    let (big, little, topo) = layout(&[(1_000, 0), (1_000, 1)]);
    assert_eq!(topo, "2");
    assert_eq!(little, "0,1");
    assert_eq!(big, "0,1");
}

#[test]
fn no_cores_known() {
    let (big, little, topo) = layout(&[]);
    assert_eq!((big.as_str(), little.as_str(), topo.as_str()), ("?", "?", "?"));
}
