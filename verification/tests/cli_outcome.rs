use lintkit::cli_outcome::{DemoCliOutcome, Type3AuditCliOutcome};

#[test]
fn demo_outcome_codes() {
    assert_eq!(DemoCliOutcome::Idle.code(), 0);
    assert_eq!(DemoCliOutcome::FormatCompleted.code(), 0);
    assert_eq!(DemoCliOutcome::InvalidConfig.code(), 1);
    assert_eq!(DemoCliOutcome::FormattingDiff.code(), 1);
    assert_eq!(DemoCliOutcome::MissingFiles.code(), 2);
    assert_eq!(DemoCliOutcome::FormatterCrashed.code(), 2);
}

#[test]
fn audit_outcome_codes() {
    assert_eq!(Type3AuditCliOutcome::Idle.code(), 0);
    assert_eq!(Type3AuditCliOutcome::FormatCompleted.code(), 0);
    assert_eq!(Type3AuditCliOutcome::InvalidConfig.code(), 1);
    assert_eq!(Type3AuditCliOutcome::FormattingDiff.code(), 1);
    assert_eq!(Type3AuditCliOutcome::MissingFiles.code(), 2);
    assert_eq!(Type3AuditCliOutcome::FormatterCrashed.code(), 2);
}
