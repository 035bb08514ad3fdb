//! Asking the upstreams, and waiting for a port to become free.

use crate::addr::SocketAddr;
use crate::dns::message;
use crate::dns::message::{Message, MessageView};
use crate::dns::reply;
use vstd::prelude::*;

verus! {

/// What came of asking an upstream.
#[derive(Debug)]
pub enum Event {
    /// A datagram or a frame came back.
    Reply(Vec<u8>),
    /// The exchange failed, for the given reason.
    Failed(String),
    /// Nothing came back in time.
    TimedOut,
}

/// The model of what came of asking an upstream.
pub enum EventView {
    Reply(Seq<u8>),
    Failed(Seq<char>),
    TimedOut,
}

impl View for Event {
    type V = EventView;

    open spec fn view(&self) -> EventView {
        match self {
            Event::Reply(v) => EventView::Reply(v@),
            Event::Failed(s) => EventView::Failed(s@),
            Event::TimedOut => EventView::TimedOut,
        }
    }
}

/// What to do next.
#[derive(Debug)]
pub enum Action {
    /// Ask over UDP, from a fresh socket.
    Udp(SocketAddr),
    /// Ask the same upstream again, over TCP.
    Tcp(SocketAddr),
    /// This is the answer.
    Done(Vec<u8>),
    /// There is none, for the given reason.
    GiveUp(String),
}

/// The model of what to do next.
pub enum ActionView {
    Udp(SocketAddr),
    Tcp(SocketAddr),
    Done(Seq<u8>),
    GiveUp(Seq<char>),
}

impl View for Action {
    type V = ActionView;

    open spec fn view(&self) -> ActionView {
        match self {
            Action::Udp(a) => ActionView::Udp(*a),
            Action::Tcp(a) => ActionView::Tcp(*a),
            Action::Done(v) => ActionView::Done(v@),
            Action::GiveUp(s) => ActionView::GiveUp(s@),
        }
    }
}

/// A request on its way through the upstreams, which are asked in order until one
/// gives an answer to the question.
pub struct Forward {
    request: Message,
    upstreams: Vec<SocketAddr>,
    /// The upstream that is being asked.
    at: usize,
    /// Whether it is being asked over TCP.
    tcp: bool,
}

/// The model of a request on its way.
#[verifier::ext_equal]
pub struct ForwardView {
    pub request: MessageView,
    pub upstreams: Seq<SocketAddr>,
    pub at: int,
    pub tcp: bool,
}

/// The reason when there is nobody to ask.
pub open spec fn nobody() -> Seq<char> {
    "no upstreams configured"@
}

/// The reason when an upstream answered another question.
pub open spec fn different(upstream: SocketAddr) -> Seq<char> {
    "upstream "@ + upstream.text() + " answered a different question"@
}

/// The reason when the reply of an upstream is not a message, and why it is none.
pub open spec fn undecodable(upstream: SocketAddr, why: Seq<char>) -> Seq<char> {
    "undecodable reply from "@ + upstream.text() + ": "@ + why
}

/// The reason when an upstream did not reply in time.
pub open spec fn late(upstream: SocketAddr) -> Seq<char> {
    "upstream "@ + upstream.text() + " timed out"@
}

impl ForwardView {
    /// Some upstream is being asked.
    pub open spec fn wf(self) -> bool {
        0 <= self.at < self.upstreams.len()
    }

    /// The upstream that is being asked.
    pub open spec fn upstream(self) -> SocketAddr {
        self.upstreams[self.at]
    }

    /// What follows when the upstream gave no answer, for the given reason: the next
    /// one is asked, if there is one.
    pub open spec fn next(self, reason: Seq<char>) -> (ForwardView, ActionView) {
        let f = ForwardView { at: self.at + 1, tcp: false, ..self };
        if self.at < self.upstreams.len() - 1 {
            (f, ActionView::Udp(self.upstreams[self.at + 1]))
        } else {
            (self, ActionView::GiveUp(reason))
        }
    }

    /// What follows when the upstream sent a reply, which holds the message `m`, or none
    /// for some reason. A truncated datagram is no answer: the same upstream is asked
    /// again over TCP. Only an answer to the question that was asked is taken.
    pub open spec fn replied(self, bytes: Seq<u8>, m: Result<MessageView, Seq<char>>) -> (
        ForwardView,
        ActionView,
    ) {
        match m {
            Err(why) => self.next(undecodable(self.upstream(), why)),
            Ok(m) => if !self.tcp && m.metadata.truncation {
                (ForwardView { tcp: true, ..self }, ActionView::Tcp(self.upstream()))
            } else if reply::answers(self.request, m) {
                (self, ActionView::Done(bytes))
            } else {
                self.next(different(self.upstream()))
            },
        }
    }

    /// What follows on an event.
    pub open spec fn after(self, event: EventView) -> (ForwardView, ActionView) {
        match event {
            EventView::Reply(bytes) => self.replied(bytes, message::reading(bytes)),
            EventView::Failed(reason) => self.next(reason),
            EventView::TimedOut => self.next(late(self.upstream())),
        }
    }
}

/// What to do first: ask the first upstream.
pub open spec fn first_action(upstreams: Seq<SocketAddr>) -> ActionView {
    if upstreams.len() == 0 {
        ActionView::GiveUp(nobody())
    } else {
        ActionView::Udp(upstreams[0])
    }
}

/// Copies addresses.
pub fn copy_addresses(v: &Vec<SocketAddr>) -> (r: Vec<SocketAddr>)
    ensures
        r@ == v@,
{
    let mut out: Vec<SocketAddr> = Vec::new();
    let mut i: usize = 0;
    while i < v.len()
        invariant
            i <= v@.len(),
            out@ == v@.take(i as int),
        decreases v@.len() - i,
    {
        out.push(v[i]);
        i += 1;
        assert(out@ =~= v@.take(i as int));
    }
    assert(out@ =~= v@);
    out
}

impl Forward {
    /// The model.
    pub closed spec fn view(&self) -> ForwardView {
        ForwardView {
            request: self.request@,
            upstreams: self.upstreams@,
            at: self.at as int,
            tcp: self.tcp,
        }
    }

    /// Sends a request on its way. Tells what to do first.
    pub fn start(request: Message, upstreams: &Vec<SocketAddr>) -> (r: (Option<Forward>, Action))
        ensures
            r.1@ == first_action(upstreams@),
            match r.0 {
                Some(f) => f@ == (ForwardView {
                    request: request@,
                    upstreams: upstreams@,
                    at: 0,
                    tcp: false,
                }) && f@.wf(),
                None => upstreams@.len() == 0,
            },
    {
        if upstreams.len() == 0 {
            return (None, Action::GiveUp("no upstreams configured".to_string()));
        }
        let first = upstreams[0];
        let f = Forward { request, upstreams: copy_addresses(upstreams), at: 0, tcp: false };
        (Some(f), Action::Udp(first))
    }

    fn next(&mut self, reason: String) -> (r: Action)
        requires
            old(self)@.wf(),
        ensures
            (final(self)@, r@) == old(self)@.next(reason@),
            r@ is Udp ==> final(self)@.wf(),
    {
        if self.at < self.upstreams.len() - 1 {
            self.at = self.at + 1;
            self.tcp = false;
            assert(self@ =~= old(self)@.next(reason@).0);
            Action::Udp(self.upstreams[self.at])
        } else {
            Action::GiveUp(reason)
        }
    }

    /// Takes the reply of an upstream, and the message that it holds or why it holds
    /// none. Tells what to do next.
    pub fn reply(&mut self, bytes: Vec<u8>, parsed: Result<Message, String>) -> (r: Action)
        requires
            old(self)@.wf(),
        ensures
            (final(self)@, r@) == old(self)@.replied(
                bytes@,
                match parsed {
                    Ok(m) => Ok(m@),
                    Err(why) => Err(why@),
                },
            ),
            final(self)@.wf(),
    {
        let upstream = self.upstreams[self.at];
        match parsed {
            Err(why) => {
                let mut reason = "undecodable reply from ".to_string();
                reason.append(upstream.to_text().as_str());
                reason.append(": ");
                reason.append(why.as_str());
                self.next(reason)
            },
            Ok(m) => {
                if !self.tcp && m.metadata.truncation {
                    self.tcp = true;
                    assert(self@ =~= (ForwardView { tcp: true, ..old(self)@ }));
                    Action::Tcp(upstream)
                } else if reply::answers_request(&self.request, &m) {
                    Action::Done(bytes)
                } else {
                    let mut reason = "upstream ".to_string();
                    reason.append(upstream.to_text().as_str());
                    reason.append(" answered a different question");
                    self.next(reason)
                }
            },
        }
    }

    /// Takes what came of asking. Tells what to do next.
    pub fn step(&mut self, event: Event) -> (r: Action)
        requires
            old(self)@.wf(),
        ensures
            (final(self)@, r@) == old(self)@.after(event@),
            final(self)@.wf(),
    {
        match event {
            Event::Reply(bytes) => {
                let parsed = Message::read(bytes.as_slice());
                self.reply(bytes, parsed)
            },
            Event::Failed(reason) => self.next(reason),
            Event::TimedOut => {
                let mut reason = "upstream ".to_string();
                reason.append(self.upstreams[self.at].to_text().as_str());
                reason.append(" timed out");
                self.next(reason)
            },
        }
    }
}

/// Only an answer to the question that was asked is ever taken.
pub proof fn what_is_taken_answers_the_request(f: ForwardView, bytes: Seq<u8>, m: MessageView)
    requires
        f.replied(bytes, Ok(m)).1 is Done,
    ensures
        reply::answers(f.request, m),
        f.replied(bytes, Ok(m)).1 == ActionView::Done(bytes),
{
}

/// A truncated datagram is never taken: the upstream that sent it is asked over TCP.
pub proof fn a_truncated_datagram_is_asked_for_again(
    f: ForwardView,
    bytes: Seq<u8>,
    m: MessageView,
)
    requires
        !f.tcp,
        m.metadata.truncation,
    ensures
        f.replied(bytes, Ok(m)).1 == ActionView::Tcp(f.upstream()),
{
}

/// Nothing that is not an answer ends the search while there is another upstream to
/// ask, and the upstreams are asked in order.
pub proof fn every_upstream_is_asked(f: ForwardView, event: EventView)
    requires
        f.wf(),
        f.at + 1 < f.upstreams.len(),
    ensures
        f.after(event).1 !is GiveUp,
        f.after(event).1 matches ActionView::Udp(a) ==> a == f.upstreams[f.at + 1]
            && f.after(event).0.at == f.at + 1,
{
}

/// The search ends: each step takes the answer, gives up, goes on to TCP or goes on
/// to the next upstream.
pub open spec fn steps_left(f: ForwardView) -> int {
    2 * (f.upstreams.len() - f.at) - (if f.tcp {
        1int
    } else {
        0
    })
}

/// Each step that does not end the search leaves fewer steps.
pub proof fn the_search_ends(f: ForwardView, event: EventView)
    requires
        f.wf(),
    ensures
        f.after(event).1 is Udp || f.after(event).1 is Tcp ==> 0 < steps_left(f.after(event).0)
            < steps_left(f),
{
}

/// For how long a port that is in use is waited for, in milliseconds.
pub const BIND_RETRY_WINDOW_MS: u64 = 30_000;

/// How long the first wait is, in milliseconds.
pub const FIRST_DELAY_MS: u64 = 250;

/// How long a wait is at most, in milliseconds.
pub const LONGEST_DELAY_MS: u64 = 5_000;

/// Waiting for a port to become free, with longer and longer waits.
pub struct BindRetry {
    deadline: u64,
    delay: u64,
}

/// The wait after the given one.
pub open spec fn longer(delay: u64) -> u64 {
    if 2 * delay > LONGEST_DELAY_MS {
        LONGEST_DELAY_MS
    } else {
        (2 * delay) as u64
    }
}

impl BindRetry {
    /// The moment after which there is no other try.
    pub closed spec fn deadline(&self) -> u64 {
        self.deadline
    }

    /// How long the next wait is.
    pub closed spec fn delay(&self) -> u64 {
        self.delay
    }

    /// No wait is too long.
    pub open spec fn wf(&self) -> bool {
        self.delay() <= LONGEST_DELAY_MS
    }

    /// Tries start at `now`.
    pub fn new(now: u64, max_wait: u64) -> (r: BindRetry)
        ensures
            r.wf(),
            r.deadline() == (if now + max_wait > u64::MAX {
                u64::MAX as int
            } else {
                now + max_wait
            }),
            r.delay() == FIRST_DELAY_MS,
    {
        BindRetry { deadline: now.saturating_add(max_wait), delay: FIRST_DELAY_MS }
    }

    /// A try failed at `now`. Tells how long to wait before the next one, or that it
    /// is over. Only an address that is in use is worth waiting for.
    pub fn failed(&mut self, in_use: bool, now: u64) -> (r: Option<u64>)
        requires
            old(self).wf(),
        ensures
            final(self).wf(),
            final(self).deadline() == old(self).deadline(),
            if in_use && now < old(self).deadline() {
                r == Some(old(self).delay()) && final(self).delay() == longer(old(self).delay())
            } else {
                r is None && final(self).delay() == old(self).delay()
            },
    {
        if !in_use || now >= self.deadline {
            return None;
        }
        let wait: u64 = self.delay;
        self.delay = if 2 * wait > LONGEST_DELAY_MS {
            LONGEST_DELAY_MS
        } else {
            2 * wait
        };
        Some(wait)
    }
}

/// The reason when an address could not be bound.
pub fn bind_error(what: &str) -> (r: String)
    ensures
        r@ == what@ + " (port 53 needs root or CAP_NET_BIND_SERVICE)"@,
{
    let mut out = what.to_string();
    out.append(" (port 53 needs root or CAP_NET_BIND_SERVICE)");
    out
}

} // verus!
