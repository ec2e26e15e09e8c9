use vstd::prelude::*;

verus! {

/// The connect timeout in milliseconds that a script's integer stands for:
/// its magnitude, so that a negative duration waits as long as its opposite.
pub fn timeout_millis(duration_ms: i64) -> (r: u64)
    ensures
        r as int == if duration_ms < 0 {
            -(duration_ms as int)
        } else {
            duration_ms as int
        },
{
    if duration_ms >= 0 {
        duration_ms as u64
    } else if duration_ms == i64::MIN {
        9223372036854775808u64
    } else {
        (-duration_ms) as u64
    }
}

} // verus!
