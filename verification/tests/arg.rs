//! Behaviour of the option helpers.

use zstrings::arg::{valid_alignment, Level, Opt, Radix};

#[test]
fn alignment_accepts_powers_of_two() {
    assert_eq!(valid_alignment("1"), Ok(1));
    assert_eq!(valid_alignment("2"), Ok(2));
    assert_eq!(valid_alignment("8"), Ok(8));
    assert_eq!(valid_alignment("4096"), Ok(4096));
    assert_eq!(valid_alignment("+4"), Ok(4));
}

#[test]
fn alignment_rejects_non_powers_of_two() {
    assert!(valid_alignment("0").is_err());
    assert!(valid_alignment("7").is_err());
    assert!(valid_alignment("12").is_err());
}

#[test]
fn alignment_rejects_non_numbers() {
    assert!(valid_alignment("").is_err());
    assert!(valid_alignment("+").is_err());
    assert!(valid_alignment("abc").is_err());
    assert!(valid_alignment("4x").is_err());
    assert!(valid_alignment("-4").is_err());
    assert!(valid_alignment("99999999999999999999999999999999").is_err());
}

#[test]
fn alignment_error_names_the_input() {
    let e = valid_alignment("abc").unwrap_err();
    assert_eq!(e, "`abc` isn't a number");
    let e = valid_alignment("12").unwrap_err();
    assert_eq!(e, "Alignment '12' must be a power of two");
}

#[test]
fn options_hold_their_values() {
    let opt = Opt {
        input: "file.bin".to_string(),
        log_level: Level::Info,
        length: 4,
        radix: Some(Radix::X),
        file_name: false,
        alignment: Some(8),
    };
    assert_eq!(opt.input, "file.bin");
    assert_eq!(opt.length, 4);
    assert_eq!(opt.alignment, Some(8));
    assert!(matches!(opt.radix, Some(Radix::X)));
    assert!(matches!(opt.log_level, Level::Info));
}
