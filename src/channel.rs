use vstd::prelude::*;

verus! {

#[verifier::external_type_specification]
#[verifier::external_body]
#[verifier::reject_recursive_types(T)]
pub struct ExSender<T>(tokio::sync::broadcast::Sender<T>);

/// Relies on `tokio::sync::broadcast::channel`: creates a fan-out channel of
/// text and keeps its sending half. It panics on a capacity of zero or above
/// `usize::MAX / 2`, which `requires` leaves out.
#[verifier::external_body]
pub(crate) fn new_broadcast(capacity: usize) -> tokio::sync::broadcast::Sender<String>
    requires
        0 < capacity <= usize::MAX / 2,
{
    tokio::sync::broadcast::channel(capacity).0
}

/// Relies on `Clone` for `tokio::sync::broadcast::Sender`: another handle to
/// the same channel.
#[verifier::external_body]
pub(crate) fn share_sender(
    tx: &tokio::sync::broadcast::Sender<String>,
) -> tokio::sync::broadcast::Sender<String> {
    tx.clone()
}

} // verus!
