//! Options for queue messages. The queue itself is an external
//! collaborator reached over the network; only the option values and
//! their defaults live here.

use vstd::prelude::*;

verus! {

/// Relies on nanoid's `format` with its 64-symbol URL-safe alphabet:
/// a random identifier of exactly 21 symbols. The symbols themselves
/// are drawn from a secure random source, so nothing else can be
/// promised of them; if the operating system's random source fails,
/// the generator aborts the process, an environmental state no
/// precondition can express.
#[verifier::external_body]
fn fresh_id() -> (r: String)
    ensures
        r@.len() == 21,
{
    nanoid::format(nanoid::rngs::default, &nanoid::alphabet::SAFE, 21)
}

/// Options for a standard queue message.
#[derive(Debug, Clone, PartialEq, Eq, Structural)]
pub struct SqsMessageOptions {
    /// How many seconds the queue holds the message back.
    pub delay_seconds: i32,
}

impl Default for SqsMessageOptions {
    /// No delay.
    fn default() -> (r: Self)
        ensures
            r.delay_seconds == 0,
    {
        SqsMessageOptions { delay_seconds: 0 }
    }
}

/// Options for a FIFO queue message: the group that orders it and
/// the deduplication id under which the queue drops repeats.
#[derive(Debug, Clone, PartialEq, Eq)]
pub struct SqsFifoMessageOptions {
    pub message_group_id: String,
    pub message_deduplication_id: String,
}

impl Default for SqsFifoMessageOptions {
    /// A fresh random identifier for each of the two fields.
    fn default() -> (r: Self)
        ensures
            r.message_group_id@.len() == 21,
            r.message_deduplication_id@.len() == 21,
    {
        SqsFifoMessageOptions {
            message_group_id: fresh_id(),
            message_deduplication_id: fresh_id(),
        }
    }
}

} // verus!
