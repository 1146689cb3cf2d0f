//! Decisions of the caller-side request future.
//!
//! A remote send hands the caller a future that resolves when the
//! correlated result arrives, fails when the mailbox closes, and —
//! with a deadline armed — fails with a timeout once the deadline
//! fires while the result is still pending. The polling decision is
//! pure; the runtime owns the actual channel and timer.

use vstd::prelude::*;

verus! {

/// What one poll of the underlying result channel found.
pub enum ChannelPoll {
    /// The correlated result arrived with this serialized body.
    Ready(String),
    /// Nothing yet.
    Pending,
    /// The responding side is gone.
    Closed,
}

/// What the caller's future reports for one poll.
pub enum RequestPoll {
    /// The result, handed to the caller.
    Delivered(String),
    /// Stay subscribed; poll again later.
    NotReady,
    /// The deadline fired before the result arrived.
    TimedOut,
    /// The responding side is gone.
    MailboxClosed,
}

/// One poll of a remote request: a ready result wins; otherwise an
/// armed, fired deadline times the request out; otherwise the caller
/// keeps waiting. A closed channel fails the request.
pub fn request_poll(rx: ChannelPoll, deadline_fired: bool) -> (r: RequestPoll)
    ensures
        (match rx {
            ChannelPoll::Ready(body) => r matches RequestPoll::Delivered(b) && b@ == body@,
            ChannelPoll::Pending => if deadline_fired {
                r is TimedOut
            } else {
                r is NotReady
            },
            ChannelPoll::Closed => r is MailboxClosed,
        }),
{
    match rx {
        ChannelPoll::Ready(body) => RequestPoll::Delivered(body),
        ChannelPoll::Pending => {
            if deadline_fired {
                RequestPoll::TimedOut
            } else {
                RequestPoll::NotReady
            }
        },
        ChannelPoll::Closed => RequestPoll::MailboxClosed,
    }
}

} // verus!
