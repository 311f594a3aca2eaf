use reset_reuse::reporting::{problems_from_severities, Problems, Severity};

#[test]
fn tally_counts_warnings_and_errors() {
    let sevs = vec![Severity::Warning, Severity::RuntimeError, Severity::Fatal];
    let p = problems_from_severities(&sevs);
    assert_eq!(p.errors, 2);
    assert_eq!(p.warnings, 1);
    assert!(p.fatally_errored);
}

#[test]
fn tally_without_fatal_problems() {
    let sevs = vec![Severity::Warning, Severity::Warning];
    let p = problems_from_severities(&sevs);
    assert_eq!(p.errors, 0);
    assert_eq!(p.warnings, 2);
    assert!(!p.fatally_errored);
}

#[test]
fn exit_code_zero_only_without_problems() {
    let clean = Problems { fatally_errored: false, errors: 0, warnings: 0 };
    assert_eq!(clean.exit_code(), 0);
    let errs = Problems { fatally_errored: false, errors: 3, warnings: 0 };
    assert_eq!(errs.exit_code(), 1);
    let warns = Problems { fatally_errored: false, errors: 0, warnings: 2 };
    assert_eq!(warns.exit_code(), 1);
}
