//! Trusted declarations for the outside code this crate leans on: the
//! standard library's UTF-8 validation and tokio's broadcast channels.
//! Everything else in the crate is verified against the contracts stated
//! here.

use vstd::prelude::*;
use vstd::utf8::*;

verus! {

/// Relies on `String::from_utf8`: it returns `Ok` exactly when the bytes
/// are valid UTF-8, and the string then holds their decoding.
#[verifier::external_body]
pub(crate) fn bytes_to_string(v: Vec<u8>) -> (r: Option<String>)
    ensures
        r is Some <==> valid_utf8(v@),
        r matches Some(s) ==> s@ == decode_utf8(v@),
{
    String::from_utf8(v).ok()
}

#[verifier::external_type_specification]
#[verifier::external_body]
#[verifier::reject_recursive_types(T)]
pub struct ExSender<T>(tokio::sync::broadcast::Sender<T>);

#[verifier::external_type_specification]
#[verifier::external_body]
#[verifier::reject_recursive_types(T)]
pub struct ExReceiver<T>(tokio::sync::broadcast::Receiver<T>);

/// Relies on tokio's `broadcast::channel`: creates a channel and hands back
/// its send and receive halves.  The capacity is fixed here at 1024, which
/// is nonzero, so the call cannot panic.
#[verifier::external_body]
pub(crate) fn new_channel() -> (
    tokio::sync::broadcast::Sender<Vec<u8>>,
    tokio::sync::broadcast::Receiver<Vec<u8>>,
) {
    tokio::sync::broadcast::channel(1024)
}

/// Relies on `broadcast::Sender::subscribe`: returns a fresh receiver that
/// sees values sent after this call.
#[verifier::external_body]
pub(crate) fn sender_subscribe(tx: &tokio::sync::broadcast::Sender<Vec<u8>>) -> (r:
    tokio::sync::broadcast::Receiver<Vec<u8>>) {
    tx.subscribe()
}

/// Relies on `broadcast::Sender::send`: on success it returns the number of
/// receivers the value was sent to, which its source shows is at least one;
/// with no receivers it fails and the value is dropped.
#[verifier::external_body]
pub(crate) fn sender_send(tx: &tokio::sync::broadcast::Sender<Vec<u8>>, msg: Vec<u8>) -> (r: Option<
    usize,
>)
    ensures
        r matches Some(n) ==> n >= 1,
{
    match tx.send(msg) {
        Ok(n) => Some(n),
        Err(_) => None,
    }
}

} // verus!
