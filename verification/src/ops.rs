//! The small vocabulary of comparison operators a caller can ask `query`
//! to filter child values by, with its parser and its evaluation.
use vstd::prelude::*;

verus! {

/// Whether `t` occurs contiguously somewhere inside `s`.
pub open spec fn is_substring(t: Seq<char>, s: Seq<char>) -> bool {
    exists|k: int| 0 <= k <= s.len() - t.len() && #[trigger] s.subrange(k, k + t.len()) == t
}

/// A comparison of a stored text value against a target: equality,
/// inequality, prefix ("starts with") or containment.
#[derive(Debug, Clone, Copy, PartialEq, Eq, Structural)]
pub enum ExpOp {
    Eq,
    Neq,
    St,
    Ctn,
}

/// Relies on str::starts_with: true exactly when the argument is a prefix
/// of the receiver.
#[verifier::external_body]
fn str_starts_with(s: &str, pre: &str) -> (r: bool)
    ensures
        r == pre@.is_prefix_of(s@),
{
    s.starts_with(pre)
}

/// Relies on str::contains: true exactly when the argument occurs as a
/// contiguous substring of the receiver.
#[verifier::external_body]
fn str_contains(s: &str, sub: &str) -> (r: bool)
    ensures
        r == is_substring(sub@, s@),
{
    s.contains(sub)
}

impl ExpOp {
    /// What each operator means, on the views of value and target.
    pub open spec fn spec_holds(self, v: Seq<char>, t: Seq<char>) -> bool {
        match self {
            ExpOp::Eq => v == t,
            ExpOp::Neq => v != t,
            ExpOp::St => t.is_prefix_of(v),
            ExpOp::Ctn => is_substring(t, v),
        }
    }

    /// Parse an operator from its name; any other name is rejected.
    pub fn from_str(s: &str) -> (r: Option<Self>)
        ensures
            r == Some(ExpOp::Eq) <==> s@ == "Eq"@,
            r == Some(ExpOp::Neq) <==> s@ == "Neq"@,
            r == Some(ExpOp::St) <==> s@ == "St"@,
            r == Some(ExpOp::Ctn) <==> s@ == "Ctn"@,
            r is None <==> s@ != "Eq"@ && s@ != "Neq"@ && s@ != "St"@ && s@ != "Ctn"@,
    {
        proof {
            reveal_strlit("Eq");
            reveal_strlit("Neq");
            reveal_strlit("St");
            reveal_strlit("Ctn");
            assert("Eq"@.len() == 2 && "Neq"@.len() == 3 && "St"@.len() == 2 && "Ctn"@.len() == 3);
            assert("Eq"@[0] == 'E' && "St"@[0] == 'S');
            assert("Eq"@ != "St"@);
            assert("Eq"@ != "Neq"@ && "Eq"@ != "Ctn"@ && "St"@ != "Neq"@ && "St"@ != "Ctn"@);
            assert("Neq"@[0] == 'N' && "Ctn"@[0] == 'C');
            assert("Neq"@ != "Ctn"@);
        }
        let key = s.to_owned();
        if key == "Eq".to_owned() {
            Some(ExpOp::Eq)
        } else if key == "Neq".to_owned() {
            Some(ExpOp::Neq)
        } else if key == "St".to_owned() {
            Some(ExpOp::St)
        } else if key == "Ctn".to_owned() {
            Some(ExpOp::Ctn)
        } else {
            None
        }
    }

    /// Evaluate the operator on a stored value and a target.
    pub fn holds_for(&self, value: &String, target: &str) -> (r: bool)
        ensures
            r == self.spec_holds(value@, target@),
    {
        match self {
            ExpOp::Eq => *value == target.to_owned(),
            ExpOp::Neq => !(*value == target.to_owned()),
            ExpOp::St => str_starts_with(value.as_str(), target),
            ExpOp::Ctn => str_contains(value.as_str(), target),
        }
    }
}

} // verus!
