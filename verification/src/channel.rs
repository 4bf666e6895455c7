//! The decisions of a guest program's blocking channel calls: what a system's
//! status register means, when to stop polling, and how much of the buffer the
//! system wrote. The calls into the system stay with the guest program.
use vstd::prelude::*;

verus! {

/// What a channel call reports for the status and size the system left: an
/// error for a negative status, else the status and the size.
pub open spec fn reply_of(status: i32, size: u32) -> Result<(i32, u32), i32> {
    if status < 0 {
        Err(status)
    } else {
        Ok((status, size))
    }
}

/// The reply of a channel call, from the status and size registers the system
/// left after the call: `Err(status)` for a negative status, else the status and
/// the size.
pub fn channel_reply(status: i32, size: u32) -> (r: Result<(i32, u32), i32>)
    ensures
        r == reply_of(status, size),
{
    if status < 0 {
        Err(status)
    } else {
        Ok((status, size))
    }
}

/// One step of blocking on a channel, given the reply of the last write or read
/// of it: an error ends the wait with that error, status 0 ends it with the
/// reply, and any other status means the operation is still pending (`None`:
/// read the channel again).
pub fn channel_poll_step(reply: Result<(i32, u32), i32>) -> (r: Option<Result<(i32, u32), i32>>)
    ensures
        r == match reply {
            Err(e) => Some(Err::<(i32, u32), i32>(e)),
            Ok((status, size)) => if status == 0 {
                Some(Ok::<(i32, u32), i32>((status, size)))
            } else {
                None::<Result<(i32, u32), i32>>
            },
        },
{
    match reply {
        Err(e) => Some(Err(e)),
        Ok((status, size)) => {
            if status == 0 {
                Some(Ok((status, size)))
            } else {
                None
            }
        },
    }
}

/// The length of the prefix of a buffer of `buffer_len` bytes that the system
/// reports having written, `size` bytes: `Err(-2)` exactly when the system
/// claims more bytes than the buffer holds.
pub fn written_prefix_len(size: u32, buffer_len: usize) -> (r: Result<usize, i32>)
    ensures
        size > buffer_len <==> r == Err::<usize, i32>(-2i32),
        size <= buffer_len <==> r == Ok::<usize, i32>(size as usize),
{
    if size as u64 > buffer_len as u64 {
        Err(-2)
    } else {
        Ok(size as usize)
    }
}

} // verus!
