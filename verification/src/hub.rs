//! The publish/subscribe hub: one broadcast channel per channel name,
//! opened for its first subscriber and closed once no subscriber is left.
//! The channels themselves are tokio's broadcast channels; they carry the
//! wire bytes of the message frames, which each subscriber's connection
//! writes as they come.

use tokio::sync::broadcast::{Receiver, Sender};
use vstd::prelude::*;
use vstd::utf8::encode_utf8;
use crate::command::bytes_seq;
use crate::frame::{
    spec_encode, copy_vec, frames_view, lemma_all_no_incomplete, lemma_frames_view, lemma_frames_view_push,
    no_incomplete, Frame, FrameV,
};
use crate::session::{subscribe_step, text_bytes};

verus! {

/// tokio's broadcast sender, carried through verified code.
#[verifier::external_type_specification]
#[verifier::external_body]
#[verifier::reject_recursive_types(T)]
pub struct ExBroadcastSender<T>(tokio::sync::broadcast::Sender<T>);

/// tokio's broadcast receiver, carried through verified code.
#[verifier::external_type_specification]
#[verifier::external_body]
#[verifier::reject_recursive_types(T)]
pub struct ExBroadcastReceiver<T>(tokio::sync::broadcast::Receiver<T>);

/// How many messages a channel buffers for a slow subscriber.
pub const CHANNEL_CAPACITY: usize = 16;

/// Calls `tokio::sync::broadcast::channel` and keeps its sender; the
/// receiver it also makes is dropped. The source panics for a capacity of 0
/// or above `usize::MAX / 2`, which `requires` leaves out; nothing is
/// claimed of the sender.
#[verifier::external_body]
fn open_channel(capacity: usize) -> (r: Sender<Vec<u8>>)
    requires
        0 < capacity <= usize::MAX / 2,
{
    tokio::sync::broadcast::channel(capacity).0
}

/// The frame a subscriber receives for a message published on a channel.
pub open spec fn message_reply(channel: Seq<u8>, message: Seq<u8>) -> FrameV {
    FrameV::Array(
        seq![
            FrameV::BulkString(encode_utf8("message"@)),
            FrameV::BulkString(channel),
            FrameV::BulkString(message),
        ],
    )
}

/// The frame a subscriber receives for `message` published on `channel`.
pub fn message_frame(channel: &Vec<u8>, message: Vec<u8>) -> (r: Frame)
    ensures
        r@ == message_reply(channel@, message@),
        no_incomplete(r@),
{
    let ghost mv = message@;
    let mut items: Vec<Frame> = Vec::new();
    proof {
        lemma_frames_view(items@);
    }
    let k = Frame::BulkString(text_bytes("message"));
    proof {
        lemma_frames_view_push(items@, k);
    }
    items.push(k);
    let c = Frame::BulkString(copy_vec(channel));
    proof {
        lemma_frames_view_push(items@, c);
    }
    items.push(c);
    let m = Frame::BulkString(message);
    proof {
        lemma_frames_view_push(items@, m);
    }
    items.push(m);
    assert(frames_view(items@) =~= message_reply(channel@, mv)->Array_0);
    proof {
        lemma_all_no_incomplete(frames_view(items@));
    }
    Frame::Array(items)
}

/// What PUBLISH answers for the outcome of a send: the number of receivers
/// it reached, or 0 when it reached none.
pub fn delivered_count(sent: Option<usize>) -> (r: i64)
    ensures
        r == match sent {
            Some(n) => n as i64,
            None => 0i64,
        },
        sent matches Some(n) ==> (n <= usize::MAX / 4 ==> r == n),
{
    match sent {
        Some(n) => n as i64,
        None => 0,
    }
}

/// The open channels, each under its name, in the order they were opened,
/// with a record of the receivers handed out and the messages sent.
pub struct ChannelHub {
    channels: Vec<(Vec<u8>, Sender<Vec<u8>>)>,
    handed: Ghost<Seq<Seq<u8>>>,
    sent: Ghost<Seq<(Seq<u8>, Seq<u8>)>>,
}

impl ChannelHub {
    /// The names of the open channels, in the order they were opened.
    pub closed spec fn names(&self) -> Seq<Seq<u8>> {
        bytes_seq(self.channels@.map_values(|p: (Vec<u8>, Sender<Vec<u8>>)| p.0))
    }

    /// The channels that the receivers handed out so far listen on, oldest
    /// first.
    pub closed spec fn handed(&self) -> Seq<Seq<u8>> {
        self.handed@
    }

    /// The messages handed to open channels so far, oldest first: the
    /// channel's name and the wire bytes sent on it.
    pub closed spec fn sent(&self) -> Seq<(Seq<u8>, Seq<u8>)> {
        self.sent@
    }

    /// Calls `Sender::subscribe` on the channel at index `k`: a new
    /// receiver of the messages sent on it after the call, which the record
    /// of receivers handed out notes under the channel's name. The source
    /// panics once a channel has `usize::MAX >> 2` receivers, a count that
    /// the arguments do not show; nothing else is claimed of the receiver.
    #[verifier::external_body]
    fn subscribe_at(&mut self, k: usize) -> (r: Receiver<Vec<u8>>)
        requires
            k < old(self).channels@.len(),
        ensures
            final(self).channels == old(self).channels,
            final(self).sent == old(self).sent,
            final(self).handed@ == old(self).handed@.push(old(self).names()[k as int]),
    {
        self.channels[k].1.subscribe()
    }

    /// Calls `Sender::receiver_count` on the channel at index `k`: how many
    /// receivers it has now. Other tasks drop receivers at any time, so
    /// nothing is claimed of the count.
    #[verifier::external_body]
    fn count_at(&self, k: usize) -> (r: usize)
        requires
            k < self.channels@.len(),
    {
        self.channels[k].1.receiver_count()
    }

    /// Calls `Sender::send` with `bytes` on the channel at index `k`, which
    /// the record of messages sent notes under the channel's name. The
    /// source fails exactly when the channel has no receiver and otherwise
    /// returns the number of receivers: at least one, and at most
    /// `usize::MAX >> 2` (that is, `usize::MAX / 4`), as the source never
    /// lets a channel have more. Which of the two happens, and how many
    /// receivers there are, depends on other tasks.
    #[verifier::external_body]
    fn send_at(&mut self, k: usize, bytes: Vec<u8>) -> (r: Option<usize>)
        requires
            k < old(self).channels@.len(),
        ensures
            final(self).channels == old(self).channels,
            final(self).handed == old(self).handed,
            final(self).sent@ == old(self).sent@.push((old(self).names()[k as int], bytes@)),
            r matches Some(n) ==> 1 <= n <= usize::MAX / 4,
    {
        self.channels[k].1.send(bytes).ok()
    }

    /// No channel is open twice.
    pub open spec fn wf(&self) -> bool {
        self.names().no_duplicates()
    }

    /// A hub with no open channel, that has sent nothing.
    pub fn new() -> (r: Self)
        ensures
            r.wf(),
            r.names() == Seq::<Seq<u8>>::empty(),
            r.handed() == Seq::<Seq<u8>>::empty(),
            r.sent() == Seq::<(Seq<u8>, Seq<u8>)>::empty(),
    {
        let r = ChannelHub { channels: Vec::new(), handed: Ghost(Seq::empty()), sent: Ghost(Seq::empty()) };
        assert(r.names() =~= Seq::<Seq<u8>>::empty());
        r
    }

    /// The index of the channel named `name`.
    fn find(&self, name: &[u8]) -> (r: Option<usize>)
        ensures
            match r {
                Some(i) => i < self.names().len() && self.names()[i as int] == name@,
                None => !self.names().contains(name@),
            },
    {
        let mut i: usize = 0;
        while i < self.channels.len()
            invariant
                i <= self.channels@.len(),
                self.names().len() == self.channels@.len(),
                forall|j: int| 0 <= j < i ==> self.names()[j] != name@,
            decreases self.channels@.len() - i,
        {
            if crate::store::bytes_eq(self.channels[i].0.as_slice(), name) {
                return Some(i);
            }
            i = i + 1;
        }
        proof {
            if self.names().contains(name@) {
                let j = choose|j: int| 0 <= j < self.names().len() && self.names()[j] == name@;
                assert(self.names()[j] != name@);
            }
        }
        None
    }

    /// Subscribes to each channel in turn, opening the channels not open
    /// yet, and returns one receiver per channel, in the same order: the
    /// receivers handed out grow by one on each named channel.
    pub fn subscribe(&mut self, channels: &Vec<Vec<u8>>) -> (r: Vec<Receiver<Vec<u8>>>)
        requires
            old(self).wf(),
        ensures
            final(self).wf(),
            final(self).names() == subscribe_step(old(self).names(), bytes_seq(channels@)).0,
            final(self).sent() == old(self).sent(),
            final(self).handed() == old(self).handed() + bytes_seq(channels@),
            r@.len() == channels@.len(),
    {
        let ghost all = bytes_seq(channels@);
        let ghost pre = self.names();
        let mut receivers: Vec<Receiver<Vec<u8>>> = Vec::new();
        let mut i: usize = 0;
        assert(all.skip(0) =~= all);
        while i < channels.len()
            invariant
                i <= channels@.len(),
                all == bytes_seq(channels@),
                self.wf(),
                receivers@.len() == i,
                self.sent() == old(self).sent(),
                self.handed() == old(self).handed() + all.take(i as int),
                subscribe_step(pre, all).0 == subscribe_step(self.names(), all.skip(i as int)).0,
            decreases channels@.len() - i,
        {
            let ghost cur = self.names();
            let ch = &channels[i];
            assert(all.skip(i as int)[0] == ch@);
            assert(all.skip(i as int).drop_first() =~= all.skip(i + 1));
            let idx = match self.find(ch.as_slice()) {
                Some(k) => k,
                None => {
                    let sender = open_channel(CHANNEL_CAPACITY);
                    self.channels.push((copy_vec(ch), sender));
                    assert(self.names() =~= cur.push(ch@));
                    assert(self.wf()) by {
                        assert forall|a: int, b: int|
                            0 <= a < self.names().len() && 0 <= b < self.names().len() && a != b implies self.names()[a]
                            != self.names()[b] by {
                            if a == cur.len() as int && cur[b] == ch@ {
                                assert(cur.contains(ch@));
                            } else if b == cur.len() as int && cur[a] == ch@ {
                                assert(cur.contains(ch@));
                            }
                        }
                    }
                    self.channels.len() - 1
                },
            };
            let rx = self.subscribe_at(idx);
            assert(all.take(i + 1) =~= all.take(i as int).push(ch@));
            receivers.push(rx);
            i = i + 1;
        }
        assert(all.skip(i as int) =~= Seq::<Seq<u8>>::empty());
        assert(all.take(i as int) =~= all);
        receivers
    }

    /// Closes the channel at index `k` when `receivers`, its number of
    /// subscribers, is 0, and leaves it open otherwise.
    pub fn close_if_unused(&mut self, k: usize, receivers: usize)
        requires
            old(self).wf(),
            k < old(self).names().len(),
        ensures
            final(self).wf(),
            final(self).sent() == old(self).sent(),
            final(self).handed() == old(self).handed(),
            receivers == 0 ==> final(self).names() == old(self).names().remove(k as int),
            receivers != 0 ==> final(self).names() == old(self).names(),
    {
        if receivers == 0 {
            let ghost cur = self.names();
            let _closed = self.channels.remove(k);
            assert(self.names() =~= cur.remove(k as int));
            assert(self.wf()) by {
                assert forall|a: int, b: int|
                    0 <= a < self.names().len() && 0 <= b < self.names().len() && a != b implies self.names()[a]
                    != self.names()[b] by {
                    let a0 = if a < k { a } else { a + 1 };
                    let b0 = if b < k { b } else { b + 1 };
                    assert(self.names()[a] == cur[a0]);
                    assert(self.names()[b] == cur[b0]);
                }
            }
        }
    }

    /// Closes each named channel that no subscriber is left on; any other
    /// channel stays open. How many subscribers a channel has depends on
    /// the subscribers' tasks; [`ChannelHub::close_if_unused`] decides on it.
    pub fn cleanup(&mut self, channels: &Vec<Vec<u8>>)
        requires
            old(self).wf(),
        ensures
            final(self).wf(),
            final(self).sent() == old(self).sent(),
            final(self).handed() == old(self).handed(),
            forall|k: Seq<u8>| final(self).names().contains(k) ==> old(self).names().contains(k),
            forall|k: Seq<u8>|
                old(self).names().contains(k) && !bytes_seq(channels@).contains(k)
                    ==> final(self).names().contains(k),
    {
        let ghost all = bytes_seq(channels@);
        let mut i: usize = 0;
        while i < channels.len()
            invariant
                i <= channels@.len(),
                all == bytes_seq(channels@),
                self.wf(),
                self.sent() == old(self).sent(),
                self.handed() == old(self).handed(),
                forall|k: Seq<u8>| self.names().contains(k) ==> old(self).names().contains(k),
                forall|k: Seq<u8>|
                    old(self).names().contains(k) && !all.take(i as int).contains(k) ==> self.names().contains(k),
            decreases channels@.len() - i,
        {
            let ghost cur = self.names();
            let ch = &channels[i];
            if let Some(k) = self.find(ch.as_slice()) {
                let receivers = self.count_at(k);
                self.close_if_unused(k, receivers);
                assert forall|x: Seq<u8>| self.names().contains(x) implies cur.contains(x) by {
                    if receivers == 0 {
                        let j = choose|j: int| 0 <= j < self.names().len() && self.names()[j] == x;
                        let j0 = if j < k { j } else { j + 1 };
                        assert(cur[j0] == x);
                    }
                }
                assert forall|x: Seq<u8>| cur.contains(x) && x != ch@ implies self.names().contains(x) by {
                    if receivers == 0 {
                        let j = choose|j: int| 0 <= j < cur.len() && cur[j] == x;
                        if j < k {
                            assert(self.names()[j] == x);
                        } else {
                            assert(j != k);
                            assert(self.names()[j - 1] == x);
                        }
                    }
                }
            }
            assert forall|x: Seq<u8>| old(self).names().contains(x) && !all.take(i + 1).contains(x) implies self.names().contains(x) by {
                assert(all.take(i + 1) =~= all.take(i as int).push(ch@));
                assert(!all.take(i as int).contains(x)) by {
                    if all.take(i as int).contains(x) {
                        let j = choose|j: int| 0 <= j < all.take(i as int).len() && all.take(i as int)[j] == x;
                        assert(all.take(i + 1)[j] == x);
                    }
                }
                assert(x != ch@) by {
                    if x == ch@ {
                        assert(all.take(i + 1)[i as int] == x);
                    }
                }
            }
            i = i + 1;
        }
        assert(all.take(i as int) =~= all);
    }

    /// Publishes `message` on `channel`: an open channel is sent the wire
    /// bytes of the frame [`message_frame`] builds, and the answer is how
    /// many subscribers it reached; a channel that is not open is sent
    /// nothing and the answer is 0. How many an open channel reaches
    /// depends on the subscribers' tasks.
    pub fn publish(&mut self, channel: Vec<u8>, message: Vec<u8>) -> (r: i64)
        requires
            old(self).wf(),
        ensures
            final(self).wf(),
            final(self).names() == old(self).names(),
            final(self).handed() == old(self).handed(),
            !old(self).names().contains(channel@) ==> r == 0 && final(self).sent() == old(self).sent(),
            old(self).names().contains(channel@) ==> r >= 0 && final(self).sent() == old(self).sent().push(
                (channel@, spec_encode(message_reply(channel@, message@))),
            ),
    {
        match self.find(channel.as_slice()) {
            None => 0,
            Some(k) => {
                let frame = message_frame(&channel, message);
                let bytes = frame.encode();
                let sent = self.send_at(k, bytes);
                delivered_count(sent)
            },
        }
    }
}

} // verus!
