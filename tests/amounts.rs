use ledger_vault::account::Account;
use ledger_vault::amount::{Amount, MAX_UNITS};
use ledger_vault::util::{amount_from_parts, parse_decimal, serialize_decimal};

#[test]
fn parse_whole_and_fractional() {
    assert_eq!(parse_decimal("10").unwrap().units, 100000);
    assert_eq!(parse_decimal("2.5").unwrap().units, 25000);
    assert_eq!(parse_decimal("1.2345").unwrap().units, 12345);
    assert_eq!(parse_decimal("-3").unwrap().units, -30000);
    assert_eq!(parse_decimal("2.50000").unwrap().units, 25000);
}

#[test]
fn parse_rejects_bad_text_and_extra_places() {
    assert_eq!(parse_decimal("abc"), None);
    assert_eq!(parse_decimal(""), None);
    assert_eq!(parse_decimal("1.23456"), None);
    assert_eq!(parse_decimal("79228162514264337593543950335"), None);
}

#[test]
fn parts_scale_to_four_places() {
    assert_eq!(amount_from_parts(15, 1), Some(Amount { units: 15000 }));
    assert_eq!(amount_from_parts(-7, 0), Some(Amount { units: -70000 }));
    assert_eq!(amount_from_parts(120000, 6), Some(Amount { units: 1200 }));
    assert_eq!(amount_from_parts(120001, 6), None);
    assert_eq!(amount_from_parts(MAX_UNITS, 4), Some(Amount { units: MAX_UNITS }));
    assert_eq!(amount_from_parts(MAX_UNITS, 3), None);
}

#[test]
fn serialize_keeps_four_places() {
    assert_eq!(serialize_decimal(&Amount::from_whole(3)), "3.0000");
    assert_eq!(serialize_decimal(&Amount { units: 15 }), "0.0015");
    assert_eq!(serialize_decimal(&Amount { units: -25000 }), "-2.5000");
    assert_eq!(serialize_decimal(&Amount::zero()), "0.0000");
}

#[test]
fn checked_arithmetic() {
    let a = Amount::from_whole(2);
    let b = Amount { units: 5 };
    assert_eq!(a.checked_add(b), Some(Amount { units: 20005 }));
    assert_eq!(a.checked_sub(b), Some(Amount { units: 19995 }));
    let max = Amount::from_units(MAX_UNITS).unwrap();
    assert_eq!(max.checked_add(b), None);
    assert_eq!(Amount::from_units(-MAX_UNITS - 1), None);
}

#[test]
fn new_account_is_empty() {
    let a = Account::new(4);
    assert_eq!(a.client, 4);
    assert_eq!(a.available(), Amount::zero());
    assert!(!a.locked);
}
