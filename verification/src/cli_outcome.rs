use vstd::prelude::*;

verus! {

/// How a formatter run ended.
#[derive(Debug)]
pub enum DemoCliOutcome {
    // Success
    Idle,
    FormatCompleted,
    // Warning error
    InvalidConfig,
    FormattingDiff,
    // Fatal error
    MissingFiles,
    FormatterCrashed,
}

/// How a formatter run ended, as reported by the audit command.
#[derive(Debug)]
pub enum Type3AuditCliOutcome {
    Idle,
    FormatCompleted,
    InvalidConfig,
    FormattingDiff,
    MissingFiles,
    FormatterCrashed,
}

/// The process exit code of an outcome: 0 for success, 1 for a warning error,
/// 2 for a fatal error.
pub open spec fn demo_exit_code(outcome: DemoCliOutcome) -> u8 {
    match outcome {
        DemoCliOutcome::Idle | DemoCliOutcome::FormatCompleted => 0,
        DemoCliOutcome::InvalidConfig | DemoCliOutcome::FormattingDiff => 1,
        DemoCliOutcome::MissingFiles | DemoCliOutcome::FormatterCrashed => 2,
    }
}

/// The process exit code of an audit outcome, by the same rule.
pub open spec fn audit_exit_code(outcome: Type3AuditCliOutcome) -> u8 {
    match outcome {
        Type3AuditCliOutcome::Idle | Type3AuditCliOutcome::FormatCompleted => 0,
        Type3AuditCliOutcome::InvalidConfig | Type3AuditCliOutcome::FormattingDiff => 1,
        Type3AuditCliOutcome::MissingFiles | Type3AuditCliOutcome::FormatterCrashed => 2,
    }
}

/// The outcome of an audit run that corresponds to a run outcome.
pub open spec fn audit_of(outcome: DemoCliOutcome) -> Type3AuditCliOutcome {
    match outcome {
        DemoCliOutcome::Idle => Type3AuditCliOutcome::Idle,
        DemoCliOutcome::FormatCompleted => Type3AuditCliOutcome::FormatCompleted,
        DemoCliOutcome::InvalidConfig => Type3AuditCliOutcome::InvalidConfig,
        DemoCliOutcome::FormattingDiff => Type3AuditCliOutcome::FormattingDiff,
        DemoCliOutcome::MissingFiles => Type3AuditCliOutcome::MissingFiles,
        DemoCliOutcome::FormatterCrashed => Type3AuditCliOutcome::FormatterCrashed,
    }
}

impl DemoCliOutcome {
    /// Whether the run succeeded.
    pub open spec fn is_success(self) -> bool {
        self is Idle || self is FormatCompleted
    }

    pub fn code(&self) -> (code: u8)
        ensures
            code == demo_exit_code(*self),
            code == 0 <==> self.is_success(),
            code <= 2,
    {
        match self {
            Self::Idle | Self::FormatCompleted => 0,
            Self::InvalidConfig | Self::FormattingDiff => 1,
            Self::MissingFiles | Self::FormatterCrashed => 2,
        }
    }
}

impl Type3AuditCliOutcome {
    /// Whether the run succeeded.
    pub open spec fn is_success(self) -> bool {
        self is Idle || self is FormatCompleted
    }

    pub fn code(&self) -> (code: u8)
        ensures
            code == audit_exit_code(*self),
            code == 0 <==> self.is_success(),
            code <= 2,
    {
        let code: u8 = match self {
            Self::Idle | Self::FormatCompleted => 0,
            Self::InvalidConfig | Self::FormattingDiff => 1,
            Self::MissingFiles | Self::FormatterCrashed => 2,
        };
        if matches!(self, Self::Idle | Self::FormatCompleted) {
            return 0;
        }
        code
    }
}

/// Both outcome types give the same exit code to the same kind of ending.
pub proof fn lemma_audit_code_agrees(outcome: DemoCliOutcome)
    ensures
        audit_exit_code(audit_of(outcome)) == demo_exit_code(outcome),
        audit_of(outcome).is_success() == outcome.is_success(),
{
}

} // verus!
