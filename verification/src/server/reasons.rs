//! The reasons that the server gives when it ends a session.

use vstd::prelude::*;
use vstd::string::StringExecFns;

verus! {

/// The character of a decimal digit.
pub open spec fn digit(d: nat) -> char
    recommends
        d < 10,
{
    if d == 0 {
        '0'
    } else if d == 1 {
        '1'
    } else if d == 2 {
        '2'
    } else if d == 3 {
        '3'
    } else if d == 4 {
        '4'
    } else if d == 5 {
        '5'
    } else if d == 6 {
        '6'
    } else if d == 7 {
        '7'
    } else if d == 8 {
        '8'
    } else {
        '9'
    }
}

/// A number in decimal, without sign or leading zeros.
pub open spec fn decimal(n: nat) -> Seq<char>
    decreases n,
{
    if n < 10 {
        seq![digit(n)]
    } else {
        decimal(n / 10).push(digit(n % 10))
    }
}

/// Why a user who stopped sending is disconnected.
pub open spec fn inactivity() -> Seq<char> {
    "Inactivity timeout"@
}

/// Why a client that missed more events than the history holds is
/// disconnected.
pub open spec fn too_far_behind(behind_by: nat) -> Seq<char> {
    "Sync failure: Too far behind ("@ + decimal(behind_by) + " events)"@
}

/// Why a client that was behind too many times in a row is disconnected.
pub open spec fn behind_repeatedly(times: nat) -> Seq<char> {
    "Sync failure: Behind "@ + decimal(times) + " consecutive times"@
}

/// Why a client is disconnected when the history does not hold what it
/// should.
pub open spec fn inconsistent_history() -> Seq<char> {
    "Internal server error: Event history inconsistency"@
}

/// `u64`'s `to_string`: the number in decimal, without sign or leading
/// zeros.
#[verifier::external_body]
fn decimal_string(n: u64) -> (text: String)
    ensures
        text@ == decimal(n as nat),
{
    n.to_string()
}

/// The reason given to a user who stopped sending.
pub fn inactivity_reason() -> (reason: String)
    ensures
        reason@ == inactivity(),
{
    String::from_str("Inactivity timeout")
}

/// The reason given to a client that missed more events than the history
/// holds.
pub fn too_far_behind_reason(behind_by: u64) -> (reason: String)
    ensures
        reason@ == too_far_behind(behind_by as nat),
{
    let mut reason = String::from_str("Sync failure: Too far behind (");
    let count = decimal_string(behind_by);
    reason.append(count.as_str());
    reason.append(" events)");
    reason
}

/// The reason given to a client that was behind too many times in a row.
pub fn behind_repeatedly_reason(times: u8) -> (reason: String)
    ensures
        reason@ == behind_repeatedly(times as nat),
{
    let mut reason = String::from_str("Sync failure: Behind ");
    let count = decimal_string(times as u64);
    reason.append(count.as_str());
    reason.append(" consecutive times");
    reason
}

/// The reason given when the history does not hold what it should.
pub fn inconsistent_history_reason() -> (reason: String)
    ensures
        reason@ == inconsistent_history(),
{
    String::from_str("Internal server error: Event history inconsistency")
}

} // verus!
