use vstd::prelude::*;
use vstd::string::StringExecFns;

verus! {

/// The one failure this library knows: an input string that does not match
/// the accepted `<number><unit>` grammar (or names a quantity outside the
/// representable range). It carries the offending input.
#[derive(Clone, Debug)]
pub enum UnitError {
    InvalidFormat { input: String },
}

impl UnitError {
    /// The offending input string, as it was handed to the parser.
    pub fn input(&self) -> (r: &String)
        ensures
            self matches UnitError::InvalidFormat { input } && r@ == input@,
    {
        match self {
            UnitError::InvalidFormat { input } => input,
        }
    }

    /// A human-readable description of the failure, in the same shape for
    /// every offending input.
    pub fn message(&self) -> (r: String)
        ensures
            self matches UnitError::InvalidFormat { input } ==> r@ == err_message_spec(input@),
    {
        match self {
            UnitError::InvalidFormat { input } => err_message(input.as_str()),
        }
    }
}

/// What `err_message` returns for a given input.
pub open spec fn err_message_spec(s: Seq<char>) -> Seq<char> {
    "invalid format for unit size: "@ + s + ". Acceptable formats are nB, nKB, nMB,nGB, nTB"@
}

/// The diagnostic line offered to callers that want a plain-text report of a
/// rejected input.
pub fn err_message(s: &str) -> (r: String)
    ensures
        r@ == err_message_spec(s@),
{
    let mut r = String::from_str("invalid format for unit size: ");
    r.append(s);
    r.append(". Acceptable formats are nB, nKB, nMB,nGB, nTB");
    proof {
        assert(r@ =~= err_message_spec(s@));
    }
    r
}

} // verus!
