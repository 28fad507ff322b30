use library_stdnums::isbn::{convert_to_10, convert_to_13, reduce_to_basic, scrub_alpha_prefix, ISBN};
use library_stdnums::traits::{Normalize, Valid};

#[test]
fn it_can_create_an_isbn() {
    let isbn = ISBN::new("0139381430");
    assert_eq!(isbn.identifier, "0139381430");
}

#[test]
fn isbn_it_calculates_the_checkdigit() {
    assert_eq!(ISBN::new("0139381430").checkdigit().unwrap(), '0');
    assert_eq!(ISBN::new("0-8044-2957-X").checkdigit().unwrap(), 'X');
    assert_eq!(ISBN::new("9781449373320").checkdigit().unwrap(), '0');
    assert_eq!(ISBN::new("9780306406152").checkdigit().unwrap(), '7')
}

#[test]
fn it_checks_the_validity() {
    assert!(ISBN::new("0139381430").valid());
    assert!(ISBN::new("9781449373320").valid());
    assert!(ISBN::new("0-8044-2957-X").valid());
    assert!(ISBN::new("ABC0139381430").valid());
}

#[test]
fn it_catches_invalid() {
    assert!(!ISBN::new("01393814300").valid());
    assert!(!ISBN::new("0139381432").valid());
    assert!(!ISBN::new("9781449373322").valid());
}

#[test]
fn isbn_it_reduces_to_basic() {
    assert_eq!(reduce_to_basic("0-8044-2957-X"), "080442957X");
    assert_eq!(reduce_to_basic("ABC0139381430"), "0139381430");
}

#[test]
fn it_scrubs_alpha_prefix() {
    assert_eq!(scrub_alpha_prefix("A1"), "1");
    assert_eq!(scrub_alpha_prefix("A123"), "123");
    assert_eq!(scrub_alpha_prefix("ABC0139381430"), "0139381430");
    assert_eq!(scrub_alpha_prefix("ABC080442957X"), "080442957X");
    assert_eq!(scrub_alpha_prefix("ABC080442957Y"), "080442957");
}

#[test]
fn it_converts_isbn_10_to_13() {
    assert_eq!(convert_to_13("9781449373320").unwrap(), "9781449373320");
    assert_eq!(convert_to_13("0-306-40615-2").unwrap(), "9780306406157");
}

#[test]
fn it_converts_isbn_13_to_10() {
    assert_eq!(convert_to_10("9780306406157").unwrap(), "0306406152");
    assert_eq!(convert_to_10("0306406152").unwrap(), "0306406152");
    assert_eq!(convert_to_10("9798531132178"), None);
    assert_eq!(convert_to_10("1"), None);
    assert_eq!(
        convert_to_10("9780306406157978030640615797803064061579780306406157"),
        None
    );
}

#[test]
fn isbn_it_normalizes() {
    assert_eq!(ISBN::new("0-306-40615-2").normalize().unwrap(), "9780306406157");
    assert_eq!(ISBN::new("0-306-40615-X").normalize(), None);
    assert_eq!(ISBN::new("ISBN: 978-0-306-40615-7").normalize().unwrap(), "9780306406157");
    assert_eq!(ISBN::new("ISBN: 978-0-306-40615-3").normalize(), None);
}

#[test]
fn isbn_round_trip_through_10_digit_form() {
    let thirteen = convert_to_13("0139381430").unwrap();
    assert_eq!(thirteen, "9780139381430");
    let ten = convert_to_10(&thirteen).unwrap();
    assert_eq!(ten, "0139381430");
    assert_eq!(convert_to_13(&ten).unwrap(), thirteen);
}

#[test]
fn isbn_wrong_length_has_no_checkdigit_and_is_invalid() {
    assert_eq!(ISBN::new("12345").checkdigit(), None);
    assert!(!ISBN::new("12345").valid());
    assert_eq!(ISBN::new("").checkdigit(), None);
    assert!(!ISBN::new("").valid());
    assert_eq!(ISBN::new("Bad ISBN").checkdigit(), None);
    assert_eq!(convert_to_13("013938143"), None);
}

#[test]
fn isbn_normalize_is_idempotent_on_its_output() {
    let first = convert_to_13("0-306-40615-2").unwrap();
    let second = convert_to_13(&first).unwrap();
    assert_eq!(first, second);
    let third = ISBN::new(&second).normalize().unwrap();
    assert_eq!(second, third);
}
