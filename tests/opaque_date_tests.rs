use photo_sync::opaque_date::{
    ym_range_for_y, ym_to_y, ymd_interval_for_y, ymd_interval_for_ym, ymd_range_for_ym, ymd_to_ym,
};

#[test]
fn test_ymd_range_for_y() {
    let result: (u32, u32) = ymd_interval_for_y(2020);
    assert_eq!(result, (20200101, 20201231));
}

#[test]
fn interval_for_month_spans_day_one_to_thirty_one() {
    assert_eq!(ymd_interval_for_ym(201507), (20150701, 20150731));
    assert_eq!(ymd_interval_for_ym(202202), (20220201, 20220231));
}

#[test]
fn ranges_for_year_and_month() {
    let months = ym_range_for_y(2015);
    assert_eq!(*months.start(), 201501);
    assert_eq!(*months.end(), 201512);
    assert_eq!(months.count(), 12);
    let days = ymd_range_for_ym(201505);
    assert_eq!(*days.start(), 20150501);
    assert_eq!(*days.end(), 20150531);
}

#[test]
fn parent_keys() {
    assert_eq!(ymd_to_ym(20150503), 201505);
    assert_eq!(ym_to_y(201505), 2015);
    assert_eq!(ym_to_y(ymd_to_ym(20221231)), 2022);
}

#[test]
fn largest_year_interval_fits() {
    assert_eq!(ymd_interval_for_y(429496), (4294960101, 4294961231));
}
