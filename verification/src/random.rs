//! Cryptographic-quality random bytes from the operating system.

use vstd::prelude::*;
use crate::error::Error;

verus! {

/// Calls `getrandom::getrandom` on `out` and says whether it succeeded.
///
/// The call overwrites the buffer and keeps its length.  Which bytes it
/// writes, and whether it succeeds, is up to the operating system; the one
/// promise is that an empty buffer always succeeds, without a call to the
/// system.
#[verifier::external_body]
fn system_random(out: &mut [u8]) -> (ok: bool)
    ensures
        final(out)@.len() == old(out)@.len(),
        old(out)@.len() == 0 ==> ok,
{
    getrandom::getrandom(out).is_ok()
}

/// What `fill` reports for an outcome of the system's random source:
/// success as it is, and failure as `RngFailed`.
pub fn rng_outcome(ok: bool) -> (res: Result<(), Error>)
    ensures
        ok ==> res == Ok::<(), Error>(()),
        !ok ==> res == Err::<(), Error>(Error::RngFailed),
{
    if ok {
        Ok(())
    } else {
        Err(Error::RngFailed)
    }
}

/// Fills the entirety of `out` with cryptographic-quality random bytes.
///
/// The only failure is `RngFailed`, and an empty buffer never fails.  The
/// bytes themselves come from the operating system and nothing is claimed
/// of them.
pub fn fill(out: &mut [u8]) -> (res: Result<(), Error>)
    ensures
        final(out)@.len() == old(out)@.len(),
        res is Err ==> res == Err::<(), Error>(Error::RngFailed),
        old(out)@.len() == 0 ==> res is Ok,
{
    let ok = system_random(out);
    rng_outcome(ok)
}

/// How many candidates may be drawn for one key or nonce.
pub const MAX_DRAWS: usize = 64;

/// What to do after a candidate has been drawn and tried.
#[derive(Clone, Copy, Debug, PartialEq, Eq, Structural)]
pub enum DrawAction {
    /// The candidate was accepted.
    Done,
    /// The candidate cannot be used: draw another.
    DrawAgain,
    /// Stop, and report this error.
    GiveUp(Error),
}

/// The rule for drawing keys and nonces.  An accepted candidate ends the
/// drawing.  A candidate that is out of range is drawn again, until
/// `MAX_DRAWS` candidates have been drawn: a source all of whose values are
/// turned down is taken to have failed.  Any other error ends the drawing
/// and is reported as it is.
pub open spec fn next_draw_spec(outcome: Result<(), Error>, draws: usize) -> DrawAction {
    match outcome {
        Ok(_) => DrawAction::Done,
        Err(Error::OutOfRange) => if draws < MAX_DRAWS {
            DrawAction::DrawAgain
        } else {
            DrawAction::GiveUp(Error::RngFailed)
        },
        Err(e) => DrawAction::GiveUp(e),
    }
}

/// The next action after `draws` candidates have been drawn and the last of
/// them has had the given outcome.
pub fn next_draw(outcome: Result<(), Error>, draws: usize) -> (a: DrawAction)
    ensures
        a == next_draw_spec(outcome, draws),
{
    match outcome {
        Ok(_) => DrawAction::Done,
        Err(Error::OutOfRange) => {
            if draws < MAX_DRAWS {
                DrawAction::DrawAgain
            } else {
                DrawAction::GiveUp(Error::RngFailed)
            }
        },
        Err(e) => DrawAction::GiveUp(e),
    }
}

} // verus!
