use vstd::prelude::*;

verus! {

/// Hands out another handle to a shared flag.
#[verifier::external_body]
pub(crate) fn share_flag(flag: &std::sync::Arc<std::sync::atomic::AtomicBool>) -> (r: std::sync::Arc<std::sync::atomic::AtomicBool>)
    ensures
        r == *flag,
{
    std::sync::Arc::clone(flag)
}

/// A new flag, lowered.
pub(crate) fn lowered_flag() -> (flag: std::sync::Arc<std::sync::atomic::AtomicBool>)
    ensures
        call_ensures(std::sync::atomic::AtomicBool::new, (false,), *flag),
{
    std::sync::Arc::new(std::sync::atomic::AtomicBool::new(false))
}

/// Raises a shared flag for every holder to see, and records in `raised`
/// that it did.
pub(crate) fn raise_flag(flag: &std::sync::Arc<std::sync::atomic::AtomicBool>, raised: &mut Ghost<bool>)
    ensures
        final(raised)@,
{
    flag.store(true, std::sync::atomic::Ordering::Relaxed);
    proof {
        raised@ = true;
    }
}

} // verus!
