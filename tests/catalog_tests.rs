use photo_sync::catalog::{
    calc_diff, fill_gaps, fill_ymd_gaps, CatalogNode, DatePartition, DistStoreError, RemotePeer,
};

fn img(b: u8) -> Vec<u8> {
    vec![b]
}

fn peers(ps: &[u8]) -> Vec<Vec<u8>> {
    ps.iter().map(|p| vec![*p]).collect()
}

/// A day's entries with each peer list as a set.
fn as_sets(day: Option<Vec<(Vec<u8>, Vec<Vec<u8>>)>>) -> Option<Vec<(Vec<u8>, std::collections::BTreeSet<Vec<u8>>)>> {
    day.map(|es| es.into_iter().map(|(o, ps)| (o, ps.into_iter().collect())).collect())
}

#[test]
fn test_calc_diff() {
    let loc = vec![(1, vec![0])];
    let rem = vec![(1, vec![0])];
    let res = calc_diff(&loc, &rem);
    assert_eq!(res, (vec![], vec![], vec![]));

    let loc = vec![(1, vec![0]), (2, vec![0])];
    let rem = vec![(1, vec![0])];
    let res = calc_diff(&loc, &rem);
    assert_eq!(res, (vec![], vec![2], vec![]));

    let loc = vec![(2, vec![0])];
    let rem = vec![(1, vec![0]), (2, vec![0]), (3, vec![0])];
    let res = calc_diff(&loc, &rem);
    assert_eq!(res, (vec![1, 3], vec![], vec![]));

    let loc = vec![(1, vec![0])];
    let rem = vec![(1, vec![1])];
    let res = calc_diff(&loc, &rem);
    assert_eq!(res, (vec![], vec![], vec![1]));
}

#[test]
fn calc_diff_mixed() {
    let loc = vec![(1, vec![0]), (3, vec![1]), (4, vec![2]), (6, vec![0])];
    let rem = vec![(2, vec![0]), (3, vec![1]), (4, vec![3]), (5, vec![0])];
    let res = calc_diff(&loc, &rem);
    assert_eq!(res, (vec![2, 5], vec![1, 6], vec![4]));
    let res = calc_diff(&[], &[]);
    assert_eq!(res, (vec![], vec![], vec![]));
}

#[test]
fn test_synchronization() {
    let mut peer1 = CatalogNode::test_new("s1");
    let mut peer2 = CatalogNode::test_new("s2");

    peer1.propose(20210711, &vec![(img(0), peers(&[0]))]).unwrap();

    // The second peer does not know of the new entries yet
    assert_eq!(0, peer2.get_years_checksums().unwrap().len());

    peer1.sync_with_peer(&mut peer2).unwrap();

    assert_eq!(1, peer2.get_years_checksums().unwrap().len());
    assert_eq!(Some(vec![(img(0), peers(&[0]))]), peer2.get_data(20210711).unwrap());

    peer2.propose(20210711, &vec![(img(1), peers(&[0]))]).unwrap();

    peer1.sync_with_peer(&mut peer2).unwrap();

    assert_eq!(
        Some(vec![(img(0), peers(&[0])), (img(1), peers(&[0]))]),
        peer1.get_data(20210711).unwrap()
    );
}

#[test]
fn sync_converges_both_ways() {
    let mut a = CatalogNode::test_new("a");
    let mut b = CatalogNode::test_new("b");
    a.propose(20200101, &vec![(img(1), peers(&[1]))]).unwrap();
    a.propose(20210505, &vec![(img(2), peers(&[1]))]).unwrap();
    a.propose(20210506, &vec![(img(3), peers(&[1]))]).unwrap();
    b.propose(20210505, &vec![(img(2), peers(&[2])), (img(4), peers(&[2]))]).unwrap();
    b.propose(20210601, &vec![(img(5), peers(&[2]))]).unwrap();
    b.propose(20230101, &vec![(img(6), peers(&[2]))]).unwrap();

    a.sync_with_peer(&mut b).unwrap();

    for ymd in [20200101u32, 20210505, 20210506, 20210601, 20230101, 20240101] {
        assert_eq!(as_sets(a.get_data(ymd).unwrap()), as_sets(b.get_data(ymd).unwrap()));
    }
    assert_eq!(
        a.get_data(20210505).unwrap(),
        Some(vec![(img(2), peers(&[1, 2])), (img(4), peers(&[2]))])
    );
    assert_eq!(
        b.get_data(20210505).unwrap(),
        Some(vec![(img(2), peers(&[2, 1])), (img(4), peers(&[2]))])
    );
    assert_eq!(a.get_years_checksums().unwrap(), b.get_years_checksums().unwrap());
    assert_eq!(a.get_months_checksum(2021).unwrap(), b.get_months_checksum(2021).unwrap());
    assert_eq!(a.get_days_checksum(202105).unwrap(), b.get_days_checksum(202105).unwrap());
}

#[test]
fn node_identity_is_name_bytes() {
    let node = CatalogNode::test_new("node-1");
    assert_eq!(node.id(), b"node-1".to_vec());
    assert_eq!(RemotePeer::id(&node), b"node-1".to_vec());
}

#[test]
fn propose_returns_day_digest() {
    let mut node = CatalogNode::test_new("n");
    let d = node.propose(20220101, &vec![(img(0), peers(&[0]))]).unwrap();
    assert_eq!(node.get_days_checksum(202201).unwrap(), vec![(20220101, d.clone())]);
    let again = node.propose(20220101, &vec![(img(0), peers(&[0]))]).unwrap();
    assert_eq!(d, again);
    assert_eq!(node.get_existing_days_in_range(20220101, 20220131).unwrap(), vec![20220101]);
}

#[test]
fn error_variants_are_distinct() {
    assert_ne!(DistStoreError::SyncInProcess, DistStoreError::PeerFailure);
}

#[test]
fn sync_exchanges_differing_days_of_shared_months() {
    let mut a = CatalogNode::test_new("a");
    let mut b = CatalogNode::test_new("b");
    a.propose(20210711, &vec![(img(0), peers(&[1]))]).unwrap();
    b.propose(20210711, &vec![(img(1), peers(&[2]))]).unwrap();
    a.propose(20210712, &vec![(img(2), peers(&[1]))]).unwrap();
    b.propose(20210801, &vec![(img(3), peers(&[2]))]).unwrap();

    a.sync_with_peer(&mut b).unwrap();

    let both = Some(vec![(img(0), peers(&[1])), (img(1), peers(&[2]))]);
    assert_eq!(a.get_data(20210711).unwrap(), both);
    assert_eq!(b.get_data(20210711).unwrap(), both);
    assert_eq!(b.get_data(20210712).unwrap(), Some(vec![(img(2), peers(&[1]))]));
    assert_eq!(a.get_data(20210801).unwrap(), Some(vec![(img(3), peers(&[2]))]));
    assert_eq!(a.get_years_checksums().unwrap(), b.get_years_checksums().unwrap());
}

#[test]
fn sync_with_nothing_on_either_side() {
    let mut a = CatalogNode::test_new("a");
    let mut b = CatalogNode::test_new("b");
    a.sync_with_peer(&mut b).unwrap();
    assert!(a.get_years_checksums().unwrap().is_empty());
    assert!(b.get_years_checksums().unwrap().is_empty());
}

#[test]
fn fills_copy_only_what_they_are_given() {
    let mut a = CatalogNode::test_new("a");
    let mut b = CatalogNode::test_new("b");
    a.propose(20210711, &vec![(img(0), peers(&[1]))]).unwrap();
    a.propose(20220101, &vec![(img(1), peers(&[1]))]).unwrap();
    assert_eq!(fill_ymd_gaps(&a, &mut b, vec![]), Ok(()));
    assert_eq!(fill_gaps(&a, &mut b, vec![], DatePartition::Year), Ok(()));
    assert_eq!(fill_gaps(&a, &mut b, vec![429497, 500000], DatePartition::Year), Ok(()));
    assert!(b.get_years_checksums().unwrap().is_empty());
    assert_eq!(fill_gaps(&a, &mut b, vec![2021], DatePartition::Year), Ok(()));
    assert_eq!(b.get_data(20210711).unwrap(), Some(vec![(img(0), peers(&[1]))]));
    assert_eq!(b.get_data(20220101).unwrap(), None);
    assert_eq!(fill_ymd_gaps(&a, &mut b, vec![20220101, 20230101]), Ok(()));
    assert_eq!(b.get_data(20220101).unwrap(), Some(vec![(img(1), peers(&[1]))]));
}
