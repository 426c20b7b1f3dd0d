use vstd::prelude::*;

verus! {

/// Relies on std::time::SystemTime::now and SystemTime::duration_since: the wall-clock time as
/// whole seconds and the milliseconds past them since the Unix epoch, or None when the clock
/// is set before it.
#[verifier::external_body]
fn since_unix_epoch() -> (r: Option<(u64, u32)>)
    ensures
        r matches Some((_, ms)) ==> ms < 1000,
{
    match std::time::SystemTime::now().duration_since(std::time::UNIX_EPOCH) {
        Ok(d) => Some((d.as_secs(), d.subsec_millis())),
        Err(_) => None,
    }
}

/// Milliseconds in `secs` seconds and `ms` milliseconds, capped at the largest `u64`.
pub open spec fn millis_of(secs: u64, ms: u32) -> u64 {
    if secs * 1000 + ms <= u64::MAX {
        (secs * 1000 + ms) as u64
    } else {
        u64::MAX
    }
}

/// Milliseconds in `secs` seconds and `ms` milliseconds, capped at the largest `u64`.
pub fn to_millis(secs: u64, ms: u32) -> (r: u64)
    requires
        ms < 1000,
    ensures
        r == millis_of(secs, ms),
{
    if secs > u64::MAX / 1000 {
        proof {
            assert(secs * 1000 > u64::MAX) by (nonlinear_arith)
                requires
                    secs > u64::MAX / 1000,
            ;
        }
        u64::MAX
    } else {
        proof {
            assert(secs * 1000 <= u64::MAX) by (nonlinear_arith)
                requires
                    secs <= u64::MAX / 1000,
            ;
        }
        let base = secs * 1000;
        if base > u64::MAX - ms as u64 {
            u64::MAX
        } else {
            base + ms as u64
        }
    }
}

/// Seconds since the Unix epoch; 0 when the clock is set before it.
pub fn timestamp_secs() -> u64 {
    match since_unix_epoch() {
        Some((secs, _)) => secs,
        None => 0,
    }
}

/// Milliseconds since the Unix epoch; 0 when the clock is set before it.
pub fn timestamp_millis() -> u64 {
    match since_unix_epoch() {
        Some((secs, ms)) => to_millis(secs, ms),
        None => 0,
    }
}

} // verus!
