use trade_index::{convert_date_to_days, date_to_days};

#[test]
fn test_convert_date_to_days() {
    assert_eq!(convert_date_to_days("01/01/2020"), 737331);
    assert_eq!(convert_date_to_days("31/12/2020"), 737691);
}

#[test]
fn tests_test_date_to_days() {
    assert_eq!(date_to_days("01/01/2020"), Some(737331));
    assert_eq!(date_to_days("31/12/2020"), Some(737691));
    assert_eq!(date_to_days("invalid date"), None);
}

#[test]
fn ordinal_follows_the_formula() {
    assert_eq!(date_to_days("10/01/2023"), Some(2023 * 365 + 30 + 10));
    assert_eq!(date_to_days("15/03/2023"), Some(2023 * 365 + 3 * 30 + 15));
    assert_eq!(date_to_days("0/0/0"), Some(0));
}

#[test]
fn end_of_year_orders_after_start_of_year() {
    let start = date_to_days("01/01/2020").unwrap();
    let end = date_to_days("31/12/2020").unwrap();
    assert!(start < end);
}

#[test]
fn decode_rejects_wrong_shapes() {
    assert_eq!(date_to_days(""), None);
    assert_eq!(date_to_days("01/01"), None);
    assert_eq!(date_to_days("01/01/2020/5"), None);
    assert_eq!(date_to_days("01-01-2021"), None);
    assert_eq!(date_to_days("a/01/2020"), None);
    assert_eq!(date_to_days("01//2020"), None);
    assert_eq!(date_to_days("-1/01/2020"), None);
    assert_eq!(date_to_days(" 1/01/2020"), None);
}

#[test]
fn decode_accepts_a_plus_sign_and_leading_zeros() {
    assert_eq!(date_to_days("+1/+1/+2020"), Some(737331));
    assert_eq!(date_to_days("001/0001/02020"), Some(737331));
    assert_eq!(date_to_days("+/1/2020"), None);
}

#[test]
fn decode_rejects_an_ordinal_past_u32() {
    assert_eq!(date_to_days("0/0/11767034"), None);
    assert_eq!(date_to_days("0/0/11767033"), Some(11767033 * 365));
    assert_eq!(date_to_days("250/0/11767033"), Some(u32::MAX));
    assert_eq!(date_to_days("251/0/11767033"), None);
    assert_eq!(date_to_days("4294967296/1/1"), None);
    assert_eq!(date_to_days("99999999999999999999999/1/1"), None);
}
