use node_http::date::{civil_from_days, http_date};

#[test]
fn civil_dates() {
    assert_eq!(civil_from_days(0), (1970, 1, 1));
    assert_eq!(civil_from_days(-1), (1969, 12, 31));
    assert_eq!(civil_from_days(19723), (2024, 1, 1));
    assert_eq!(civil_from_days(11016), (2000, 2, 29));
    assert_eq!(civil_from_days(11017), (2000, 3, 1));
    assert_eq!(civil_from_days(-719528), (0, 1, 1));
    assert_eq!(civil_from_days(-719529), (-1, 12, 31));
}

#[test]
fn civil_dates_at_the_ends_of_i64() {
    let (y, m, d) = civil_from_days(i64::MAX);
    assert!(y > 0 && (1..=12).contains(&m) && (1..=31).contains(&d));
    let (y, m, d) = civil_from_days(i64::MIN);
    assert!(y < 0 && (1..=12).contains(&m) && (1..=31).contains(&d));
}

#[test]
fn http_dates() {
    assert_eq!(http_date(0), "Thu, 01 Jan 1970 00:00:00 GMT");
    assert_eq!(http_date(784111777), "Sun, 06 Nov 1994 08:49:37 GMT");
    assert_eq!(http_date(-1), "Wed, 31 Dec 1969 23:59:59 GMT");
    assert_eq!(http_date(951782400), "Tue, 29 Feb 2000 00:00:00 GMT");
}
