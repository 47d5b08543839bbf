use trade_index::{Data, ParseError};

fn row(fields: &[&str]) -> Vec<String> {
    fields.iter().map(|f| f.to_string()).collect()
}

#[test]
fn a_full_row_becomes_a_record() {
    let fields = row(&[
        "Exports", "2015", "01/01/2015", "Thursday", "All", "All", "All", "$", "104000000",
        "104000000",
    ]);
    let d = Data::from_fields(&fields).unwrap();
    assert_eq!(d.direction, "Exports");
    assert_eq!(d.year, 2015);
    assert_eq!(d.date, "01/01/2015");
    assert_eq!(d.weekday, "Thursday");
    assert_eq!(d.measure, "$");
    assert_eq!(d.value, 104000000);
    assert_eq!(d.cumulative, 104000000);
}

#[test]
fn a_short_row_is_missing_a_field() {
    let fields = row(&["Exports", "2015", "01/01/2015"]);
    assert_eq!(Data::from_fields(&fields), Err(ParseError::MissingField));
}

#[test]
fn bad_numbers_are_rejected() {
    let mut fields = row(&["Exports", "70000", "01/01/2015", "Thu", "All", "All", "All", "$", "1", "2"]);
    assert_eq!(Data::from_fields(&fields), Err(ParseError::BadNumber));
    fields[1] = "2015".to_string();
    fields[8] = "12x".to_string();
    assert_eq!(Data::from_fields(&fields), Err(ParseError::BadNumber));
    fields[8] = "18446744073709551615".to_string();
    assert_eq!(Data::from_fields(&fields).unwrap().value, u64::MAX);
    fields[9] = "18446744073709551616".to_string();
    assert_eq!(Data::from_fields(&fields), Err(ParseError::BadNumber));
}
