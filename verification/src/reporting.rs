//! The compilation-problem summary: counts of warnings and errors, whether
//! any was fatal, and the process exit code they imply.  Rendering and
//! printing of individual reports live outside the library; this module
//! holds the counting and classification logic.

use vstd::prelude::*;

verus! {

/// How severe one reported problem is.
#[derive(Clone, Copy, PartialEq, Eq, Structural, Debug)]
pub enum Severity {
    /// The program still compiles.
    Warning,
    /// The offending code becomes a runtime error.
    RuntimeError,
    /// Compilation cannot continue.
    Fatal,
}

/// A summary of the problems one compilation produced.
#[derive(Clone, Copy, PartialEq, Eq, Structural, Debug, Default)]
pub struct Problems {
    pub fatally_errored: bool,
    pub errors: usize,
    pub warnings: usize,
}

/// How many of the severities count as errors: runtime errors and fatal
/// problems.
pub open spec fn count_errors(s: Seq<Severity>) -> nat
    decreases s.len(),
{
    if s.len() == 0 {
        0
    } else {
        count_errors(s.drop_last()) + if s.last() is Warning {
            0nat
        } else {
            1nat
        }
    }
}

/// How many of the severities are warnings.
pub open spec fn count_warnings(s: Seq<Severity>) -> nat
    decreases s.len(),
{
    if s.len() == 0 {
        0
    } else {
        count_warnings(s.drop_last()) + if s.last() is Warning {
            1nat
        } else {
            0nat
        }
    }
}

/// Whether any severity is fatal.
pub open spec fn any_fatal(s: Seq<Severity>) -> bool {
    exists|i: int| 0 <= i < s.len() && s[i] is Fatal
}

impl Problems {
    /// The process exit code the problems imply: nonzero exactly when
    /// something was reported.
    pub fn exit_code(&self) -> (r: i32)
        ensures
            r == if self.errors > 0 || self.warnings > 0 {
                1int
            } else {
                0int
            },
    {
        if self.errors > 0 {
            1
        } else if self.warnings >= 1 {
            1
        } else {
            0
        }
    }
}

/// Tally a compilation's problem severities into a summary: warnings and
/// errors counted apart, and the fatal flag set exactly when some problem
/// was fatal.
pub fn problems_from_severities(sevs: &Vec<Severity>) -> (r: Problems)
    ensures
        r.errors == count_errors(sevs@),
        r.warnings == count_warnings(sevs@),
        r.fatally_errored == any_fatal(sevs@),
{
    let mut errors: usize = 0;
    let mut warnings: usize = 0;
    let mut fatal: bool = false;
    let mut i: usize = 0;
    while i < sevs.len()
        invariant
            0 <= i <= sevs.len(),
            errors == count_errors(sevs@.subrange(0, i as int)),
            warnings == count_warnings(sevs@.subrange(0, i as int)),
            fatal == any_fatal(sevs@.subrange(0, i as int)),
            errors + warnings <= i,
        decreases sevs.len() - i,
    {
        let ghost pre = sevs@.subrange(0, i as int);
        match sevs[i] {
            Severity::Warning => {
                warnings = warnings + 1;
            },
            Severity::RuntimeError => {
                errors = errors + 1;
            },
            Severity::Fatal => {
                errors = errors + 1;
                fatal = true;
            },
        }
        proof {
            let cur = sevs@.subrange(0, i as int + 1);
            assert(cur.drop_last() =~= pre);
            assert(cur.last() == sevs@[i as int]);
            if any_fatal(pre) {
                let j = choose|j: int| 0 <= j < pre.len() && pre[j] is Fatal;
                assert(cur[j] is Fatal);
            }
            if sevs@[i as int] is Fatal {
                assert(cur[i as int] is Fatal);
            }
            if any_fatal(cur) && !any_fatal(pre) && !(sevs@[i as int] is Fatal) {
                let j = choose|j: int| 0 <= j < cur.len() && cur[j] is Fatal;
                assert(pre[j] is Fatal);
            }
        }
        i += 1;
    }
    proof {
        assert(sevs@.subrange(0, sevs@.len() as int) =~= sevs@);
    }
    Problems { fatally_errored: fatal, errors, warnings }
}

} // verus!
