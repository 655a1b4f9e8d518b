use photo_sync::local_storage::LocalStorage;

fn img(b: u8) -> Vec<u8> {
    vec![b]
}

fn peers(ps: &[u8]) -> Vec<Vec<u8>> {
    ps.iter().map(|p| vec![*p]).collect()
}

#[test]
fn test_add_photo_idempotency() {
    let mut sut: LocalStorage = LocalStorage::test_new();

    sut.add_photos_to_day(20220101, &vec![(img(0), peers(&[0]))]);
    let years_checksum_1 = sut.get_years_checksums();
    let months_checksum_1 = sut.get_months_checksum(2022);
    let days_checksum_1 = sut.get_days_checksum(202201);
    let photos_1 = sut.get_photos(20220101);

    sut.add_photos_to_day(20220101, &vec![(img(0), peers(&[0]))]);
    let years_checksum_2 = sut.get_years_checksums();
    let months_checksum_2 = sut.get_months_checksum(2022);
    let days_checksum_2 = sut.get_days_checksum(202201);
    let photos_2 = sut.get_photos(20220101);

    assert_eq!(years_checksum_1, years_checksum_2);
    assert_eq!(months_checksum_1, months_checksum_2);
    assert_eq!(days_checksum_1, days_checksum_2);
    assert_eq!(photos_1, photos_2);
}

#[test]
fn test_add_photo_merge_peers() {
    let mut sut: LocalStorage = LocalStorage::test_new();

    sut.add_photos_to_day(20220101, &vec![(img(0), peers(&[0]))]);
    let day_photos = sut.get_photos(20220101).unwrap();
    assert_eq!(peers(&[0]), day_photos[0].1);

    // The same object with another peer
    sut.add_photos_to_day(20220101, &vec![(img(0), peers(&[1]))]);
    let day_photos = sut.get_photos(20220101).unwrap();
    assert_eq!(peers(&[0, 1]), day_photos[0].1);
}

#[test]
fn test_add_photo_same_day() {
    let mut sut: LocalStorage = LocalStorage::test_new();

    sut.add_photos_to_day(20220101, &vec![(img(0), peers(&[0]))]);
    let years_checksum_1 = sut.get_years_checksums();
    let months_checksum_1 = sut.get_months_checksum(2022);
    let days_checksum_1 = sut.get_days_checksum(202201);
    let photos_1 = sut.get_photos(20220101);
    assert_eq!(1, photos_1.unwrap().len());

    sut.add_photos_to_day(20220101, &vec![(img(1), peers(&[0]))]);
    let years_checksum_2 = sut.get_years_checksums();
    let months_checksum_2 = sut.get_months_checksum(2022);
    let days_checksum_2 = sut.get_days_checksum(202201);
    let photos_2 = sut.get_photos(20220101);
    assert_eq!(2, photos_2.unwrap().len());

    assert_ne!(years_checksum_1, years_checksum_2);
    assert_ne!(months_checksum_1, months_checksum_2);
    assert_ne!(days_checksum_1, days_checksum_2);
}

#[test]
fn test_add_photo_another_month_day() {
    let mut sut: LocalStorage = LocalStorage::test_new();

    sut.add_photos_to_day(20220101, &vec![(img(0), peers(&[0]))]);
    let years_checksum_1 = sut.get_years_checksums();
    let months_checksum_1 = sut.get_months_checksum(2022);
    let days_1_checksum_1 = sut.get_days_checksum(202201);
    let photos_20220101_1 = sut.get_photos(20220101);

    sut.add_photos_to_day(20220201, &vec![(img(1), peers(&[0]))]);
    let years_checksum_2 = sut.get_years_checksums();
    let months_checksum_2 = sut.get_months_checksum(2022);
    let days_1_checksum_2 = sut.get_days_checksum(202201);
    let days_2_checksum_2 = sut.get_days_checksum(202202);
    let photos_20220101_2 = sut.get_photos(20220101);
    let photos_20220201_2 = sut.get_photos(20220201);

    assert_ne!(years_checksum_1, years_checksum_2);
    assert_ne!(months_checksum_1, months_checksum_2);
    assert_eq!(days_1_checksum_1, days_1_checksum_2);
    assert_ne!(days_1_checksum_1, days_2_checksum_2);
    assert_eq!(photos_20220101_1, photos_20220101_2);
    assert_ne!(photos_20220101_1, photos_20220201_2);
}

#[test]
fn test_checksums_do_not_depend_on_order() {
    let (years_1, months_1, days_1) = {
        let mut sut: LocalStorage = LocalStorage::test_new();
        sut.add_photos_to_day(20220101, &vec![(img(0), peers(&[0]))]);
        sut.add_photos_to_day(20220101, &vec![(img(1), peers(&[0]))]);
        sut.add_photos_to_day(20220102, &vec![(img(0), peers(&[0]))]);
        sut.add_photos_to_day(20220201, &vec![(img(0), peers(&[0]))]);
        (
            sut.get_years_checksums(),
            sut.get_months_checksum(2022),
            sut.get_days_checksum(202201),
        )
    };

    let (years_2, months_2, days_2) = {
        let mut sut: LocalStorage = LocalStorage::test_new();
        sut.add_photos_to_day(20220201, &vec![(img(0), peers(&[0]))]);
        sut.add_photos_to_day(20220102, &vec![(img(0), peers(&[0]))]);
        sut.add_photos_to_day(20220101, &vec![(img(1), peers(&[0]))]);
        sut.add_photos_to_day(20220101, &vec![(img(0), peers(&[0]))]);
        (
            sut.get_years_checksums(),
            sut.get_months_checksum(2022),
            sut.get_days_checksum(202201),
        )
    };

    assert_eq!(years_1, years_2);
    assert_eq!(months_1, months_2);
    assert_eq!(days_1, days_2);
}

#[test]
fn fresh_storage_is_empty() {
    let sut = LocalStorage::test_new();
    assert!(sut.get_years_checksums().is_empty());
    assert!(sut.get_months_checksum(2022).is_empty());
    assert!(sut.get_days_checksum(202201).is_empty());
    assert!(sut.get_existing_days_in_range(0, u32::MAX).is_empty());
    assert_eq!(sut.get_photos(20220101), None);
}

#[test]
fn first_addition_creates_every_tier() {
    let mut sut = LocalStorage::test_new();
    let day = sut.add_photos_to_day(20220101, &vec![(img(0), peers(&[0]))]);
    let years = sut.get_years_checksums();
    assert_eq!(years.len(), 1);
    assert_eq!(years[0].0, 2022);
    let months = sut.get_months_checksum(2022);
    assert_eq!(months.len(), 1);
    assert_eq!(months[0].0, 202201);
    let days = sut.get_days_checksum(202201);
    assert_eq!(days, vec![(20220101, day.clone())]);
    assert_eq!(sut.get_photos(20220101), Some(vec![(img(0), peers(&[0]))]));
}

#[test]
fn day_digest_is_sha256_of_identifiers() {
    let mut sut = LocalStorage::test_new();
    let day = sut.add_photos_to_day(20220101, &vec![(vec![0x61, 0x62], peers(&[7])), (vec![0x63], peers(&[9]))]);
    // SHA-256 of "abc"
    let expected: Vec<u8> = vec![
        0xba, 0x78, 0x16, 0xbf, 0x8f, 0x01, 0xcf, 0xea, 0x41, 0x41, 0x40, 0xde, 0x5d, 0xae, 0x22, 0x23,
        0xb0, 0x03, 0x61, 0xa3, 0x96, 0x17, 0x7a, 0x9c, 0xb4, 0x10, 0xff, 0x61, 0xf2, 0x00, 0x15, 0xad,
    ];
    assert_eq!(day, expected);
    // The month digest is the digest of its one day digest.
    let months = sut.get_months_checksum(2022);
    assert_eq!(months.len(), 1);
    assert_ne!(months[0].1, expected);
    assert_eq!(months[0].1.len(), 32);
}

#[test]
fn entries_are_kept_in_identifier_order() {
    let mut sut = LocalStorage::test_new();
    sut.add_photos_to_day(20220101, &vec![(vec![2], peers(&[0])), (vec![0, 5], peers(&[0])), (vec![1], peers(&[0]))]);
    let photos = sut.get_photos(20220101).unwrap();
    let ids: Vec<Vec<u8>> = photos.into_iter().map(|e| e.0).collect();
    assert_eq!(ids, vec![vec![0, 5], vec![1], vec![2]]);
}

#[test]
fn peers_union_keeps_digest() {
    let mut sut = LocalStorage::test_new();
    let d1 = sut.add_photos_to_day(20220101, &vec![(img(0), peers(&[0]))]);
    let y1 = sut.get_years_checksums();
    let d2 = sut.add_photos_to_day(20220101, &vec![(img(0), peers(&[1, 0]))]);
    assert_eq!(d1, d2);
    assert_eq!(y1, sut.get_years_checksums());
    assert_eq!(sut.get_photos(20220101), Some(vec![(img(0), peers(&[0, 1]))]));
}

#[test]
fn existing_days_in_range_are_ascending() {
    let mut sut = LocalStorage::test_new();
    for ymd in [20220305u32, 20210101, 20220101, 20221231] {
        sut.add_photos_to_day(ymd, &vec![(img(0), peers(&[0]))]);
    }
    assert_eq!(sut.get_existing_days_in_range(20220101, 20221231), vec![20220101, 20220305, 20221231]);
    assert_eq!(sut.get_existing_days_in_range(20220102, 20220304), Vec::<u32>::new());
}

#[test]
fn sibling_day_digest_untouched() {
    let mut sut = LocalStorage::test_new();
    let d1 = sut.add_photos_to_day(20220101, &vec![(img(0), peers(&[0]))]);
    let m1 = sut.get_months_checksum(2022);
    sut.add_photos_to_day(20220102, &vec![(img(1), peers(&[0]))]);
    let days = sut.get_days_checksum(202201);
    assert_eq!(days[0], (20220101, d1));
    assert_eq!(days.len(), 2);
    assert_ne!(m1, sut.get_months_checksum(2022));
}

#[test]
fn day_outside_month_range_is_kept_but_not_summarised() {
    let mut sut = LocalStorage::test_new();
    sut.add_photos_to_day(20220100, &vec![(img(0), peers(&[0]))]);
    assert_eq!(sut.get_existing_days_in_range(20220100, 20220100), vec![20220100]);
    assert!(sut.get_days_checksum(202201).is_empty());
    assert_eq!(sut.get_months_checksum(2022).len(), 1);
    assert_eq!(sut.get_photos(20220100), Some(vec![(img(0), peers(&[0]))]));
}

#[test]
fn months_of_other_years_are_not_listed() {
    let mut sut = LocalStorage::test_new();
    sut.add_photos_to_day(20211231, &vec![(img(0), peers(&[0]))]);
    sut.add_photos_to_day(20220101, &vec![(img(0), peers(&[0]))]);
    let months: Vec<u32> = sut.get_months_checksum(2022).into_iter().map(|r| r.0).collect();
    assert_eq!(months, vec![202201]);
    let years: Vec<u32> = sut.get_years_checksums().into_iter().map(|r| r.0).collect();
    assert_eq!(years, vec![2021, 2022]);
}

#[test]
fn new_entry_keeps_each_label_once() {
    let mut sut = LocalStorage::test_new();
    sut.add_photos_to_day(20220101, &vec![(img(0), peers(&[3, 3, 1, 3]))]);
    assert_eq!(sut.get_photos(20220101), Some(vec![(img(0), peers(&[3, 1]))]));
    sut.add_photos_to_day(20220101, &vec![(img(0), peers(&[1, 2, 2]))]);
    assert_eq!(sut.get_photos(20220101), Some(vec![(img(0), peers(&[3, 1, 2]))]));
}
