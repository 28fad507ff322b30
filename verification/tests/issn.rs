use library_stdnums::issn::{reduce_to_basics, ISSN};
use library_stdnums::traits::{Normalize, Valid};

#[test]
fn issn_it_calculates_the_checkdigit() {
    assert_eq!(ISSN::new("0193-4511").checkdigit(), '1');
    assert_eq!(ISSN::new("1043-383X").checkdigit(), 'X');
    assert_eq!(ISSN::new("1561-4670").checkdigit(), '0');
}

#[test]
fn it_calculates_validity() {
    assert!(ISSN::new("0193-4511").valid());
    assert!(ISSN::new("1043-383x").valid());
    assert!(!ISSN::new("0193-451X").valid());
}

#[test]
fn issn_it_reduces_to_basic() {
    assert!(reduce_to_basics("019X-4511").is_none());
}

#[test]
fn issn_it_normalizes() {
    assert_eq!(ISSN::new("0378-5955").normalize().unwrap(), "03785955".to_string());
    assert_eq!(ISSN::new("1043-383x").normalize().unwrap(), "1043383X".to_string());
}

#[test]
fn it_returns_none_for_invalid_issns() {
    assert!(ISSN::new("abcdefg").normalize().is_none());
    assert!(ISSN::new("XXXX-XXXX").normalize().is_none());
}

#[test]
fn issn_checkdigit_of_hyphenated_example() {
    assert_eq!(ISSN::new("0378-5955").checkdigit(), '5');
    assert!(ISSN::new("1043-383X").valid());
}

#[test]
fn issn_empty_and_hyphen_only_are_invalid() {
    assert!(!ISSN::new("").valid());
    assert!(ISSN::new("").normalize().is_none());
    assert!(!ISSN::new("-").valid());
    assert!(ISSN::new("-").normalize().is_none());
}

#[test]
fn issn_normalize_is_idempotent_on_its_output() {
    let first = ISSN::new("1043-383x").normalize().unwrap();
    let second = ISSN::new(&first).normalize().unwrap();
    assert_eq!(first, second);
}
