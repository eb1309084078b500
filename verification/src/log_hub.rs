//! The request log: the last lines that were published, and a broadcast
//! channel that hands each new line to whoever is subscribed.
//!
//! The history is a window of at most `LOG_CAPACITY` lines, oldest first.
//! The channel is tokio's; a subscriber that falls behind loses lines, and
//! the publisher never waits. Publishing on the channel needs no lock; only
//! the history changes under one.

use std::collections::VecDeque;
use tokio::sync::broadcast::{Receiver, Sender};
use vstd::prelude::*;
use vstd::string::StringExecFns;
use crate::text::texts;

verus! {

/// The sending half of a tokio broadcast channel.
#[verifier::external_type_specification]
#[verifier::external_body]
#[verifier::reject_recursive_types(T)]
pub struct ExSender<T>(Sender<T>);

/// The receiving half of a tokio broadcast channel.
#[verifier::external_type_specification]
#[verifier::external_body]
#[verifier::reject_recursive_types(T)]
pub struct ExReceiver<T>(Receiver<T>);

/// The number of lines that the history holds at most.
pub const LOG_CAPACITY: usize = 200;

/// The number of lines that the channel keeps for its subscribers.
pub const CHANNEL_CAPACITY: usize = 256;

/// The channel that a sender belongs to. A handle belongs to one channel
/// as long as it lives.
pub uninterp spec fn channel_of(sender: Sender<String>) -> int;

/// The channel that a receiver belongs to, and so the one whose lines it
/// gets.
pub uninterp spec fn feed_of(receiver: Receiver<String>) -> int;

/// Calls `tokio::sync::broadcast::channel` and keeps the sender. The
/// receiver that comes with it is dropped: subscribers get their own. The
/// call panics on a capacity of zero or above `usize::MAX / 2`.
#[verifier::external_body]
fn open_channel(capacity: usize) -> Sender<String>
    requires
        0 < capacity <= usize::MAX / 2,
{
    let (sender, _) = tokio::sync::broadcast::channel(capacity);
    sender
}

/// Calls `Sender::send`. Whether anyone receives the line depends on who is
/// subscribed at that moment, so nothing is claimed.
#[verifier::external_body]
fn broadcast(sender: &Sender<String>, line: String) {
    let _ = sender.send(line);
}

/// Calls `Sender::subscribe`, which makes the receiver on the sender's own
/// channel. What the receiver gets depends on what is sent after the call,
/// and nothing is claimed of that. The call panics only where the channel
/// already has `usize::MAX / 4` receivers.
#[verifier::external_body]
fn subscribe(sender: &Sender<String>) -> (out: Receiver<String>)
    ensures
        feed_of(out) == channel_of(*sender),
{
    sender.subscribe()
}

/// The history after `line` was published: the oldest line leaves where the
/// window is full.
pub open spec fn pushed(history: Seq<Seq<char>>, line: Seq<char>) -> Seq<Seq<char>> {
    if history.len() >= LOG_CAPACITY {
        history.drop_first().push(line)
    } else {
        history.push(line)
    }
}

/// The history after each of `lines` was published in turn.
pub open spec fn published(history: Seq<Seq<char>>, lines: Seq<Seq<char>>) -> Seq<Seq<char>>
    decreases lines.len(),
{
    if lines.len() == 0 {
        history
    } else {
        pushed(published(history, lines.drop_last()), lines.last())
    }
}

/// The last `LOG_CAPACITY` elements of `all`, or all of it where it has
/// fewer.
pub open spec fn window(all: Seq<Seq<char>>) -> Seq<Seq<char>> {
    if all.len() > LOG_CAPACITY {
        all.skip(all.len() - LOG_CAPACITY)
    } else {
        all
    }
}

/// After any number of lines was published, the history holds the last
/// `LOG_CAPACITY` of all lines, those it began with and those published, in
/// the order in which they came.
pub proof fn law_history_is_window(history: Seq<Seq<char>>, lines: Seq<Seq<char>>)
    requires
        history.len() <= LOG_CAPACITY,
    ensures
        published(history, lines) == window(history + lines),
        published(history, lines).len() <= LOG_CAPACITY,
    decreases lines.len(),
{
    if lines.len() == 0 {
        assert(history + lines == history);
    } else {
        let front = lines.drop_last();
        law_history_is_window(history, front);
        let before = history + front;
        assert(history + lines == before.push(lines.last()));
    }
}

/// The channel of the request log: the half that publishes, which also
/// hands out the subscriptions. It is shared without a lock.
pub struct LogFeed {
    sender: Sender<String>,
}

impl LogFeed {
    /// The channel of this feed.
    pub closed spec fn channel(&self) -> int {
        channel_of(self.sender)
    }

    /// Sends a line to whoever is subscribed. A subscriber that has fallen
    /// behind loses lines; the publisher does not wait for it.
    pub fn publish(&self, line: String) {
        broadcast(&self.sender, line);
    }

    /// Subscribes to the lines that will be published from now on: the
    /// receiver is one of this feed's channel.
    pub fn subscribe(&self) -> (out: Receiver<String>)
        ensures
            feed_of(out) == self.channel(),
    {
        subscribe(&self.sender)
    }
}

/// The history of the request log: a window of the last lines, which
/// needs a lock where several threads publish.
pub struct LogBuffer {
    lines: VecDeque<String>,
}

impl LogBuffer {
    /// The lines of the history, oldest first.
    pub closed spec fn lines(&self) -> Seq<Seq<char>> {
        texts(self.lines@)
    }

    #[verifier::type_invariant]
    spec fn bounded(&self) -> bool {
        self.lines@.len() <= LOG_CAPACITY
    }

    /// Puts a line into the history, from which the oldest line leaves where
    /// `LOG_CAPACITY` lines are there.
    pub fn record(&mut self, line: String)
        ensures
            final(self).lines() == pushed(old(self).lines(), line@),
            final(self).lines().len() <= LOG_CAPACITY,
    {
        proof {
            use_type_invariant(&*self);
        }
        let ghost before = self.lines@;
        // The window is updated outside the buffer, which is never seen with
        // more than `LOG_CAPACITY` lines.
        let mut lines: VecDeque<String> = VecDeque::new();
        std::mem::swap(&mut self.lines, &mut lines);
        if lines.len() >= LOG_CAPACITY {
            lines.pop_front();
        }
        lines.push_back(line);
        std::mem::swap(&mut self.lines, &mut lines);
        proof {
            if before.len() >= LOG_CAPACITY {
                assert(texts(before.drop_first().push(line)) == texts(before).drop_first().push(
                    line@,
                ));
            } else {
                assert(texts(before.push(line)) == texts(before).push(line@));
            }
        }
    }

    /// The history: the lines that were recorded last, oldest first.
    pub fn snapshot(&self) -> (out: Vec<String>)
        ensures
            texts(out@) == self.lines(),
            out@.len() <= LOG_CAPACITY,
    {
        proof {
            use_type_invariant(self);
        }
        let mut out: Vec<String> = Vec::new();
        let mut i: usize = 0;
        while i < self.lines.len()
            invariant
                i <= self.lines@.len(),
                out@ == self.lines@.take(i as int),
            decreases self.lines@.len() - i,
        {
            out.push(self.lines[i].clone());
            assert(self.lines@.take(i + 1) == self.lines@.take(i as int).push(
                self.lines@[i as int],
            ));
            i += 1;
        }
        assert(self.lines@.take(i as int) == self.lines@);
        out
    }
}

/// The state of the request log: its channel and its history. The two can
/// be taken apart, so that only the history is kept under a lock.
pub struct LogState {
    pub feed: LogFeed,
    pub buffer: LogBuffer,
}

impl LogState {
    /// The lines of the history, oldest first.
    pub open spec fn history(&self) -> Seq<Seq<char>> {
        self.buffer.lines()
    }

    /// The channel on which the lines are published.
    pub open spec fn channel(&self) -> int {
        self.feed.channel()
    }
}

/// A request log with an empty history and a channel without subscribers.
pub fn init_log_state() -> (out: LogState)
    ensures
        out.history() == Seq::<Seq<char>>::empty(),
{
    let sender = open_channel(CHANNEL_CAPACITY);
    let lines: VecDeque<String> = VecDeque::with_capacity(CHANNEL_CAPACITY);
    LogState { feed: LogFeed { sender }, buffer: LogBuffer { lines } }
}

/// Subscribes to the lines that will be published from now on: the receiver
/// is one of the log's channel. The history is not sent again:
/// `log_snapshot` returns it.
pub fn subscribe_logs(state: &LogState) -> (out: Receiver<String>)
    ensures
        feed_of(out) == state.channel(),
{
    state.feed.subscribe()
}

/// Publishes a line: it goes to every subscriber, and into the history,
/// from which the oldest line leaves where `LOG_CAPACITY` lines are there.
/// The log keeps its channel.
pub fn log_line(state: &mut LogState, line: String)
    ensures
        final(state).history() == pushed(old(state).history(), line@),
        final(state).history().len() <= LOG_CAPACITY,
        final(state).channel() == old(state).channel(),
{
    state.feed.publish(line.clone());
    state.buffer.record(line);
}

/// The history: the lines that were published last, oldest first.
pub fn log_snapshot(state: &LogState) -> (out: Vec<String>)
    ensures
        texts(out@) == state.history(),
        out@.len() <= LOG_CAPACITY,
{
    state.buffer.snapshot()
}

/// The line that the log holds for a request.
pub fn request_log_line(method: &str, uri: &str) -> (out: String)
    ensures
        out@ == "REQ "@ + method@ + " "@ + uri@,
{
    let mut out = "REQ ".to_owned();
    out.append(method);
    out.append(" ");
    out.append(uri);
    out
}

/// The line that the log holds for a response.
pub fn response_log_line(status: &str) -> (out: String)
    ensures
        out@ == "RES "@ + status@,
{
    let mut out = "RES ".to_owned();
    out.append(status);
    out
}

} // verus!
