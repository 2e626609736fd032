//! The record emitter's computational side.
//!
//! The emitter produces records with consecutive indices, the wall-clock
//! emission time, and a message text derived from the index, and serializes
//! each as one frame. Pacing, clock reads, and the HTTP response body belong
//! to the hosting layer; it passes the current time in and writes the
//! returned bytes out.

use vstd::prelude::*;
use crate::record::{Record, RecordModel};
use crate::codec::{dec_chars, frame_bytes, encode_record, push_str_chars, push_dec,
    chars_to_string};

verus! {

/// The message text of the record with the given index: counting from one.
pub open spec fn message_chars(i: nat) -> Seq<char> {
    "Message "@ + dec_chars(i + 1)
}

/// The record the emitter produces for `index` at emission time `timestamp`.
pub open spec fn emitted_record(index: nat, timestamp: int) -> RecordModel {
    RecordModel { index, timestamp, message: message_chars(index) }
}

/// Builds the record for one emission step.
pub fn make_record(index: u64, timestamp: i64) -> (r: Record)
    requires
        index < u64::MAX,
    ensures
        r@ == emitted_record(index as nat, timestamp as int),
{
    let mut cs: Vec<char> = Vec::new();
    push_str_chars(&mut cs, "Message ");
    push_dec(&mut cs, index + 1);
    proof {
        assert(cs@ =~= message_chars(index as nat));
    }
    let message = chars_to_string(cs);
    Record { index, timestamp, message }
}

/// The bytes the emitter writes for one emission step: the frame of the
/// record for `index` at `timestamp`.
pub fn emit_frame(index: u64, timestamp: i64) -> (out: Vec<u8>)
    requires
        index < u64::MAX,
    ensures
        out@ == frame_bytes(emitted_record(index as nat, timestamp as int)),
{
    let r = make_record(index, timestamp);
    encode_record(&r)
}

} // verus!
