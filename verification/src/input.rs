//! Decisions of the input side: the answer to the load question, and the
//! timing of the input producer.

use vstd::prelude::*;

verus! {

/// Raised when the answer to the load question is neither `y` nor `n`.
#[derive(Clone, Copy, PartialEq, Eq, Structural, Debug)]
pub struct NotABoolError;

/// Classifies the line typed at the load-save-file question: exactly `y`
/// means yes, exactly `n` means no, and anything else is an error.
pub fn get_bool(answer: &str) -> (r: Result<bool, NotABoolError>)
    ensures
        r == Ok::<bool, NotABoolError>(true) <==> answer@ == "y"@,
        r == Ok::<bool, NotABoolError>(false) <==> answer@ == "n"@,
        r is Err <==> answer@ != "y"@ && answer@ != "n"@,
{
    proof {
        reveal_strlit("y");
        reveal_strlit("n");
    }
    let n = answer.unicode_len();
    if n == 1 {
        let c = answer.get_char(0);
        if c == 'y' {
            proof {
                assert(answer@ =~= "y"@);
            }
            Ok(true)
        } else if c == 'n' {
            proof {
                assert(answer@ =~= "n"@);
            }
            Ok(false)
        } else {
            Err(NotABoolError)
        }
    } else {
        Err(NotABoolError)
    }
}

/// The tick interval of the input producer, in milliseconds.
pub const TICK_RATE_MS: u64 = 200;

/// How long the producer may wait for a key press before the next heartbeat
/// is due: the rest of the interval, or nothing once the interval has fully
/// elapsed.
pub fn poll_timeout_ms(tick_rate_ms: u64, elapsed_ms: u64) -> (t: u64)
    ensures
        elapsed_ms <= tick_rate_ms ==> t == tick_rate_ms - elapsed_ms,
        elapsed_ms > tick_rate_ms ==> t == 0,
        elapsed_ms + t >= tick_rate_ms,
{
    if elapsed_ms <= tick_rate_ms {
        tick_rate_ms - elapsed_ms
    } else {
        0
    }
}

/// Whether the heartbeat is due: true exactly when at least one full
/// interval has elapsed since the last tick was sent.  The producer sends a
/// tick only when this holds, so at least the interval passes between two
/// consecutive ticks.
pub fn tick_due(tick_rate_ms: u64, elapsed_ms: u64) -> (b: bool)
    ensures
        b == (elapsed_ms >= tick_rate_ms),
{
    elapsed_ms >= tick_rate_ms
}

} // verus!
