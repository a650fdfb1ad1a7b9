use dirlist::entry::Timestamp;
use dirlist::text::{
    date_or_blank, decimal, display_name, modified_text, owner_text, permission_text,
};

#[test]
fn decimal_of_zero_is_one_digit() {
    assert_eq!(decimal(0), "0");
}

#[test]
fn decimal_writes_every_digit() {
    assert_eq!(decimal(7), "7");
    assert_eq!(decimal(10), "10");
    assert_eq!(decimal(1234567890), "1234567890");
    assert_eq!(decimal(u64::MAX), "18446744073709551615");
}

#[test]
fn permissions_are_the_low_nine_bits_in_octal() {
    assert_eq!(permission_text(0o100755), "755");
    assert_eq!(permission_text(0o100644), "644");
    assert_eq!(permission_text(0o40700), "700");
    assert_eq!(permission_text(0o777), "777");
    assert_eq!(permission_text(0o104755), "755");
}

#[test]
fn permissions_have_no_leading_zeros() {
    assert_eq!(permission_text(0), "0");
    assert_eq!(permission_text(0o100000), "0");
    assert_eq!(permission_text(0o100007), "7");
    assert_eq!(permission_text(0o100070), "70");
    assert_eq!(permission_text(u32::MAX), "777");
}

#[test]
fn names_in_utf8_are_shown_as_they_are() {
    assert_eq!(display_name(&b"b.txt".to_vec()), "b.txt");
    assert_eq!(display_name(&"caf\u{e9} \u{2502}".as_bytes().to_vec()), "caf\u{e9} \u{2502}");
    assert_eq!(display_name(&Vec::new()), "");
}

#[test]
fn names_that_are_not_utf8_get_the_placeholder() {
    assert_eq!(display_name(&vec![0xff, 0x2e, 0x72, 0x73]), "unknown name");
    assert_eq!(display_name(&vec![0x61, 0xc3]), "unknown name");
}

#[test]
fn dates_are_weekday_month_day_year_in_utc() {
    assert_eq!(modified_text(Some(Timestamp { secs: 0, nanos: 0 })), "Thu Jan  1 1970");
    assert_eq!(modified_text(Some(Timestamp { secs: 1431648000, nanos: 0 })), "Fri May 15 2015");
    assert_eq!(
        modified_text(Some(Timestamp { secs: 1431648000 + 86_399, nanos: 999_999_999 })),
        "Fri May 15 2015"
    );
    assert_eq!(modified_text(Some(Timestamp { secs: -1, nanos: 0 })), "Wed Dec 31 1969");
    assert_eq!(modified_text(Some(Timestamp { secs: 1_700_000_000, nanos: 5 })), "Tue Nov 14 2023");
}

#[test]
fn a_missing_date_is_blank() {
    assert_eq!(modified_text(None), "");
}

#[test]
fn a_date_out_of_range_is_blank() {
    assert_eq!(modified_text(Some(Timestamp { secs: i64::MAX, nanos: 0 })), "");
    assert_eq!(modified_text(Some(Timestamp { secs: i64::MIN, nanos: 0 })), "");
    assert_eq!(modified_text(Some(Timestamp { secs: 0, nanos: u32::MAX })), "");
}

#[test]
fn date_or_blank_keeps_a_rendering() {
    assert_eq!(date_or_blank(Some(String::from("Thu Jan  1 1970"))), "Thu Jan  1 1970");
    assert_eq!(date_or_blank(None), "");
}

#[test]
fn owner_is_the_account_name_where_one_was_found() {
    assert_eq!(owner_text(0, Some(String::from("root"))), "root");
    assert_eq!(owner_text(1000, Some(String::from("ada"))), "ada");
}

#[test]
fn owner_falls_back_to_the_numeric_id() {
    assert_eq!(owner_text(0, None), "0");
    assert_eq!(owner_text(1000, None), "1000");
    assert_eq!(owner_text(u32::MAX, None), "4294967295");
}
