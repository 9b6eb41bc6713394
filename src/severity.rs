use vstd::prelude::*;

verus! {

/// The closed classification of a diagnostic's importance.
#[derive(Clone, Copy, Debug, PartialEq, Eq, Structural)]
pub enum Severity {
    Warning,
    Error,
}

/// What `str::to_lowercase` makes of a string.
pub uninterp spec fn lower_of(s: Seq<char>) -> Seq<char>;

/// Relies on `str::to_lowercase`: the result depends on the characters alone.
#[verifier::external_body]
fn lowercase(s: &str) -> (r: String)
    ensures
        r@ == lower_of(s@),
{
    s.to_lowercase()
}

/// The label that marks a warning, in lower case.
pub open spec fn warning_label() -> Seq<char> {
    seq!['w', 'a', 'r', 'n', 'i', 'n', 'g']
}

/// The severity that a lower-cased label stands for: anything but
/// "warning" is an error.
pub open spec fn severity_of_lowered(l: Seq<char>) -> Severity {
    if l == warning_label() {
        Severity::Warning
    } else {
        Severity::Error
    }
}

impl Severity {
    /// Classifies a label that is already in lower case.
    pub fn from_lowered(l: &String) -> (r: Severity)
        ensures
            r == severity_of_lowered(l@),
    {
        let w = "warning".to_owned();
        proof {
            reveal_strlit("warning");
            assert(w@ =~= warning_label());
        }
        if *l == w {
            Severity::Warning
        } else {
            Severity::Error
        }
    }

    /// Classifies a free-text severity label, ignoring case.
    pub fn from_label(s: &str) -> (r: Severity)
        ensures
            r == severity_of_lowered(lower_of(s@)),
    {
        let l = lowercase(s);
        Severity::from_lowered(&l)
    }

    /// The word under which the severity is shown.
    pub open spec fn spec_word(self) -> Seq<char> {
        match self {
            Severity::Warning => warning_label(),
            Severity::Error => seq!['e', 'r', 'r', 'o', 'r'],
        }
    }

    /// The word under which the severity is shown.
    pub fn word(&self) -> (r: &'static str)
        ensures
            r@ == self.spec_word(),
    {
        match self {
            Severity::Warning => {
                proof {
                    reveal_strlit("warning");
                }
                let r = "warning";
                assert(r@ =~= self.spec_word());
                r
            },
            Severity::Error => {
                proof {
                    reveal_strlit("error");
                }
                let r = "error";
                assert(r@ =~= self.spec_word());
                r
            },
        }
    }
}

} // verus!
