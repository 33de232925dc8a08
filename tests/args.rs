use rust_random_text_generation::args::is_natural_number;
use rust_random_text_generation::CliError;

#[test]
fn natural_numbers_are_accepted() {
    assert_eq!(is_natural_number("3".to_string()), Ok(()));
    assert_eq!(is_natural_number("0".to_string()), Ok(()));
    assert_eq!(is_natural_number("+5".to_string()), Ok(()));
    assert_eq!(is_natural_number("4294967295".to_string()), Ok(()));
}

#[test]
fn other_values_are_refused() {
    let refusal = Err("Should be a natural number".to_string());
    assert_eq!(is_natural_number("".to_string()), refusal);
    assert_eq!(is_natural_number("-1".to_string()), refusal);
    assert_eq!(is_natural_number("abc".to_string()), refusal);
    assert_eq!(is_natural_number("1.5".to_string()), refusal);
    assert_eq!(is_natural_number(" 7".to_string()), refusal);
    assert_eq!(is_natural_number("4294967296".to_string()), refusal);
}

#[test]
fn io_errors_become_cli_errors() {
    let inner = std::io::Error::new(std::io::ErrorKind::NotFound, "missing");
    match CliError::from(inner) {
        CliError::Io(e) => assert_eq!(e.kind(), std::io::ErrorKind::NotFound),
        CliError::ServerPortBindingFailed(_) => panic!("wrong variant"),
    }
}
