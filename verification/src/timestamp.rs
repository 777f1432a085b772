//! UTC timestamps.
use vstd::prelude::*;

verus! {

/// A UTC instant, as whole seconds since the Unix epoch plus the
/// nanoseconds within that second.
#[derive(Debug, Clone, Copy, PartialEq, Eq, Structural)]
pub struct Timestamp {
    pub seconds: i64,
    pub nanoseconds: i32,
}

/// The instants jiff can represent: seconds within its supported range
/// (only a non-negative fraction at the very first second), and a fraction
/// of less than a second either way.
pub open spec fn in_jiff_range(seconds: i64, nanoseconds: i32) -> bool {
    &&& -999_999_999 <= nanoseconds <= 999_999_999
    &&& (-377705023201 < seconds <= 253402207200 || (seconds == -377705023201 && nanoseconds >= 0))
}

/// What jiff prints for the instant with the format `%Y-%m-%dT%H:%M:%SZ`.
pub uninterp spec fn iso8601_text(seconds: i64, nanoseconds: i32) -> Seq<char>;

/// `jiff::Timestamp::new` followed by `strftime("%Y-%m-%dT%H:%M:%SZ")`: the
/// instant as an ISO 8601 UTC text, to the second. jiff refuses instants
/// outside its range, which `requires` rules out.
#[verifier::external_body]
fn format_instant(seconds: i64, nanoseconds: i32) -> (s: String)
    requires
        in_jiff_range(seconds, nanoseconds),
    ensures
        s@ == iso8601_text(seconds, nanoseconds),
{
    match jiff::Timestamp::new(seconds, nanoseconds) {
        Ok(t) => t.strftime("%Y-%m-%dT%H:%M:%SZ").to_string(),
        Err(_) => String::new(),
    }
}

impl Timestamp {
    /// The instant as an ISO 8601 UTC text, to the second
    /// (`2023-11-14T22:13:20Z`).
    pub fn to_string(&self) -> (s: String)
        requires
            in_jiff_range(self.seconds, self.nanoseconds),
        ensures
            s@ == iso8601_text(self.seconds, self.nanoseconds),
    {
        format_instant(self.seconds, self.nanoseconds)
    }
}

} // verus!
