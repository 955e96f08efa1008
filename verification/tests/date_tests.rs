use bmark::{get_current_datetime, get_datetime_for_epochs, is_leap_year};

#[test]
fn test_datetime_from_epoch() {
    let epochs: Vec<u64> = vec![946684800, 1609459199, 253402300799, 0, 1582934400];
    let res_datetime = vec![
        "2000-01-01 00:00:00",
        "2020-12-31 23:59:59",
        "9999-12-31 23:59:59",
        "1970-01-01 00:00:00",
        "2020-02-29 00:00:00",
    ];

    let mut output_datetime: Vec<String> = vec![];
    for epoch in &epochs {
        let datetime = get_datetime_for_epochs(*epoch);
        output_datetime.push(datetime.to_string());
    }

    for i in 0..epochs.len() {
        assert_eq!(res_datetime[i], &output_datetime[i]);
    }
}

#[test]
fn test_leap_year_rule() {
    assert!(is_leap_year(2000));
    assert!(!is_leap_year(1900));
    assert!(is_leap_year(2024));
    assert!(!is_leap_year(2023));
    assert!(is_leap_year(1972));
    assert!(!is_leap_year(2100));
}

#[test]
fn test_datetime_day_boundaries() {
    // one second before and after a day boundary
    assert_eq!(get_datetime_for_epochs(86399).to_string(), "1970-01-01 23:59:59");
    assert_eq!(get_datetime_for_epochs(86400).to_string(), "1970-01-02 00:00:00");
    // end of January and leap-February of 1972
    assert_eq!(get_datetime_for_epochs(65836799).to_string(), "1972-02-01 23:59:59");
    assert_eq!(get_datetime_for_epochs(68256000).to_string(), "1972-03-01 00:00:00");
}

#[test]
fn test_current_datetime_is_after_epoch() {
    let now = get_current_datetime();
    assert!(now.year >= 1970);
    assert!(now.month >= 1 && now.month <= 12);
    assert!(now.day >= 1 && now.day <= 31);
    assert!(now.hour <= 23);
    assert!(now.minute <= 59);
    assert!(now.second <= 59);
}
