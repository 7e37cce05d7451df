use grrs::report::{check_pattern, exit_code, RunError, GENERAL_FAILURE};
use grrs::scan::ScanError;

#[test]
fn empty_string_pattern_returns_error() {
    let checked = check_pattern(&String::from(""));
    assert_eq!(checked, Err(RunError::EmptyPattern));
    let failure = checked.unwrap_err();
    assert!(failure.message().contains("The pattern provided is an empty string."));
    assert_ne!(failure.exit_code(), 0);
}

#[test]
fn path_pointing_at_non_existant_file_returns_error() {
    let failure = RunError::NoInput { path: String::from("./hey.txt") };
    assert!(failure.message().contains("Could not open the file `./hey.txt`"));
    assert_ne!(failure.exit_code(), 0);
}

#[test]
fn a_pattern_that_is_not_empty_passes() {
    assert_eq!(check_pattern(&String::from("Hello")), Ok(()));
    assert_eq!(check_pattern(&String::from(" ")), Ok(()));
}

#[test]
fn each_failure_has_its_text() {
    assert_eq!(RunError::EmptyPattern.message(), "The pattern provided is an empty string.");
    assert_eq!(
        RunError::NoInput { path: String::from("/no/such file") }.message(),
        "Could not open the file `/no/such file`"
    );
    assert_eq!(RunError::NoInput { path: String::new() }.message(), "Could not open the file ``");
    assert_eq!(RunError::ReadFailure.message(), "Could not read line of file.");
    assert_eq!(RunError::WriteFailure.message(), "Unable to write line to writer.");
}

#[test]
fn each_failure_has_its_exit_code() {
    assert_eq!(RunError::EmptyPattern.exit_code(), 65);
    assert_eq!(RunError::NoInput { path: String::from("x") }.exit_code(), 66);
    assert_eq!(RunError::ReadFailure.exit_code(), 1);
    assert_eq!(RunError::WriteFailure.exit_code(), 1);
    assert_eq!(GENERAL_FAILURE, 1);
}

#[test]
fn a_run_that_completed_exits_with_zero() {
    assert_eq!(exit_code(&Ok(())), 0);
}

#[test]
fn a_run_that_failed_exits_with_the_code_of_its_failure() {
    assert_eq!(exit_code(&Err(RunError::EmptyPattern)), 65);
    assert_eq!(exit_code(&Err(RunError::NoInput { path: String::from("x") })), 66);
    assert_eq!(exit_code(&Err(RunError::ReadFailure)), 1);
    assert_eq!(exit_code(&Err(RunError::WriteFailure)), 1);
}

#[test]
fn what_stopped_a_scan_names_its_failure() {
    let read: ScanError<String, String> = ScanError::ReadFailure(String::from("broken"));
    let write: ScanError<String, String> = ScanError::WriteFailure(String::from("closed"));
    assert_eq!(RunError::from_scan(&read), RunError::ReadFailure);
    assert_eq!(RunError::from_scan(&write), RunError::WriteFailure);
}
