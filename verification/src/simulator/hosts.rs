//! The clocks of the traced processes, and what they are answered.

use crate::cuda_call::{HostId, ResponseId, SplitResponse, SyncResponse};
use crate::event_queue::EventId;
use crate::table::Table;
use vstd::prelude::*;

verus! {

/// What a process last waited for.
#[derive(Clone, Copy, Debug, PartialEq, Eq, Structural)]
pub enum SyncPoint {
    /// A fixed time.
    Static(i64),
    /// The end of an event.
    EventEnd(EventId),
}

/// Where a process stands in simulated time.
#[derive(Clone, Copy, Debug, PartialEq, Eq, Structural)]
pub struct HostTime {
    pub sync: SyncPoint,
    pub curr: i64,
}

impl View for HostTime {
    type V = HostTime;

    open spec fn view(&self) -> HostTime {
        *self
    }
}

/// What is sent to a waiting thread.
#[derive(Clone, Copy, Debug, PartialEq, Eq)]
pub enum ReplyBody {
    /// The end of a blocking wait.
    Sync(SyncResponse),
    /// The result of a poll: when the event completed, if it did.
    Query(Option<i64>),
    /// The result of a communicator split.
    Split(SplitResponse),
    /// A rank that asked for no communicator in a split has none.
    NoColor,
    /// A fresh communicator id.
    UniqueId([u8; 128]),
}

/// An answer and the thread it goes to.
#[derive(Debug, PartialEq, Eq)]
pub struct Reply {
    pub to: ResponseId,
    pub body: ReplyBody,
}

/// What a [`HostId`] stands for.
pub type HostName = (Seq<char>, u32);

/// The clocks of the processes, the threads that wait, and the answers not yet
/// taken.
pub struct HostClock {
    host_times: Table<HostId, HostTime>,
    syncing: Table<EventId, ResponseId>,
    replies: Vec<Reply>,
}

/// What a [`HostClock`] stands for.
#[verifier::ext_equal]
pub struct ClockView {
    /// Where each process stands.
    pub times: Map<HostName, HostTime>,
    /// The thread that waits for an event.
    pub syncing: Map<EventId, ResponseId>,
    /// The answers not yet taken.
    pub replies: Seq<Reply>,
}

impl View for HostClock {
    type V = ClockView;

    closed spec fn view(&self) -> ClockView {
        ClockView {
            times: self.host_times@,
            syncing: self.syncing@,
            replies: self.replies@,
        }
    }
}

/// The larger of two times.
pub open spec fn later(a: i64, b: i64) -> i64 {
    if a < b {
        b
    } else {
        a
    }
}

/// What a process waited for: an event, or else a time.
pub open spec fn sync_point(curr: i64, event: Option<EventId>) -> SyncPoint {
    match event {
        None => SyncPoint::Static(curr),
        Some(event) => SyncPoint::EventEnd(event),
    }
}

impl ClockView {
    /// After a process waited until `curr`, for an event if one is given. Its
    /// clock never goes back.
    pub open spec fn synced(self, host: HostName, curr: i64, event: Option<EventId>) -> ClockView {
        let curr_now = if self.times.contains_key(host) {
            later(self.times[host].curr, curr)
        } else {
            curr
        };
        ClockView {
            times: self.times.insert(
                host,
                HostTime { sync: sync_point(curr, event), curr: curr_now },
            ),
            ..self
        }
    }

    /// After a process was seen at `curr`. Its clock never goes back, and what it
    /// last waited for stays.
    pub open spec fn seen(self, host: HostName, curr: i64) -> ClockView {
        let now = if self.times.contains_key(host) {
            HostTime {
                sync: self.times[host].sync,
                curr: later(self.times[host].curr, curr),
            }
        } else {
            HostTime { sync: SyncPoint::Static(curr), curr }
        };
        ClockView { times: self.times.insert(host, now), ..self }
    }

    /// After an answer was given.
    pub open spec fn reply(self, to: ResponseId, body: ReplyBody) -> ClockView {
        ClockView { replies: self.replies.push(Reply { to, body }), ..self }
    }

    /// After a thread was told that its wait ended at `end_time`.
    pub open spec fn sync_reply(
        self,
        to: ResponseId,
        end_time: i64,
        event: Option<EventId>,
    ) -> ClockView {
        self.reply(to, ReplyBody::Sync(SyncResponse { end_time })).synced(
            to.host@,
            end_time,
            event,
        )
    }

    /// After a poll was answered: with the time of completion, which counts as a
    /// wait, or with nothing, and the process goes on at `curr_time`.
    pub open spec fn query_reply(
        self,
        to: ResponseId,
        ready: Option<(i64, Option<EventId>)>,
        curr_time: i64,
    ) -> ClockView {
        match ready {
            Some((end_time, event)) => self.reply(to, ReplyBody::Query(Some(end_time))).synced(
                to.host@,
                end_time,
                event,
            ),
            None => self.reply(to, ReplyBody::Query(None)).seen(to.host@, curr_time),
        }
    }

    /// With a thread that waits for an event.
    pub open spec fn wait(self, event: EventId, who: ResponseId) -> ClockView {
        ClockView { syncing: self.syncing.insert(event, who), ..self }
    }

    /// After an event ended: the thread that waits for it, if any, is answered.
    pub open spec fn ended(self, event: EventId, time: i64) -> ClockView {
        if self.syncing.contains_key(event) {
            (ClockView { syncing: self.syncing.remove(event), ..self }).sync_reply(
                self.syncing[event],
                time,
                Some(event),
            )
        } else {
            self
        }
    }

    /// Whether every process stands at least where it stood in `earlier`.
    pub open spec fn not_before(self, earlier: ClockView) -> bool {
        forall|h: HostName| #[trigger]
            earlier.times.contains_key(h) ==> self.times.contains_key(h) && earlier.times[h].curr
                <= self.times[h].curr
    }
}

impl HostClock {
    /// No process is known and nobody waits.
    pub fn new() -> (c: Self)
        ensures
            c@ == (ClockView { times: Map::empty(), syncing: Map::empty(), replies: seq![] }),
    {
        HostClock { host_times: Table::new(), syncing: Table::new(), replies: Vec::new() }
    }

    /// Notes that a process waited until `curr`.
    pub fn update_host_sync(&mut self, host: &HostId, curr: i64, event: Option<EventId>)
        ensures
            final(self)@ == old(self)@.synced(host@, curr, event),
    {
        let sync = match event {
            None => SyncPoint::Static(curr),
            Some(event) => SyncPoint::EventEnd(event),
        };
        match self.host_times.get_mut(host) {
            Some(t) => {
                t.sync = sync;
                if t.curr < curr {
                    t.curr = curr;
                }
            },
            None => {
                self.host_times.insert(host.clone(), HostTime { sync, curr });
            },
        }
        assert(self@.times =~= old(self)@.synced(host@, curr, event).times);
    }

    /// Notes that a process was seen at `curr`.
    pub fn update_host_curr(&mut self, host: &HostId, curr: i64)
        ensures
            final(self)@ == old(self)@.seen(host@, curr),
    {
        match self.host_times.get_mut(host) {
            Some(t) => {
                if t.curr < curr {
                    t.curr = curr;
                }
            },
            None => {
                self.host_times.insert(
                    host.clone(),
                    HostTime { sync: SyncPoint::Static(curr), curr },
                );
            },
        }
        assert(self@.times =~= old(self)@.seen(host@, curr).times);
    }

    /// Gives an answer.
    pub fn send_response_to(&mut self, to: ResponseId, body: ReplyBody)
        ensures
            final(self)@ == old(self)@.reply(to, body),
    {
        self.replies.push(Reply { to, body });
    }

    /// Tells a thread that its wait ended.
    pub fn send_sync_response_to(
        &mut self,
        to: ResponseId,
        end_time: i64,
        event: Option<EventId>,
    )
        ensures
            final(self)@ == old(self)@.sync_reply(to, end_time, event),
    {
        let host = to.host.clone();
        self.send_response_to(to, ReplyBody::Sync(SyncResponse { end_time }));
        self.update_host_sync(&host, end_time, event);
    }

    /// Answers a poll.
    pub fn send_query_response_to(
        &mut self,
        to: ResponseId,
        ready: Option<(i64, Option<EventId>)>,
        curr_time: i64,
    )
        ensures
            final(self)@ == old(self)@.query_reply(to, ready, curr_time),
    {
        let host = to.host.clone();
        match ready {
            Some((end_time, event)) => {
                self.send_response_to(to, ReplyBody::Query(Some(end_time)));
                self.update_host_sync(&host, end_time, event);
            },
            None => {
                self.send_response_to(to, ReplyBody::Query(None));
                self.update_host_curr(&host, curr_time);
            },
        }
    }

    /// Lets a thread wait for an event.
    pub fn wait_for(&mut self, event: EventId, who: ResponseId)
        ensures
            final(self)@ == old(self)@.wait(event, who),
    {
        self.syncing.insert(event, who);
    }

    /// Answers the thread that waits for an event, if there is one.
    pub fn event_ended(&mut self, event: EventId, time: i64)
        ensures
            final(self)@ == old(self)@.ended(event, time),
    {
        if let Some(who) = self.syncing.remove(&event) {
            self.send_sync_response_to(who, time, Some(event));
        }
        assert(self@ =~= old(self)@.ended(event, time));
    }

    /// Where a process stands.
    pub fn host_time(&self, host: &HostId) -> (r: Option<HostTime>)
        ensures
            r == if self@.times.contains_key(host@) {
                Some(self@.times[host@])
            } else {
                None
            },
    {
        match self.host_times.get(host) {
            Some(t) => Some(*t),
            None => None,
        }
    }

    /// Takes the answers given so far, oldest first.
    pub fn take_replies(&mut self) -> (r: Vec<Reply>)
        ensures
            r@ == old(self)@.replies,
            final(self)@ == (ClockView { replies: seq![], ..old(self)@ }),
    {
        let mut r: Vec<Reply> = Vec::new();
        core::mem::swap(&mut r, &mut self.replies);
        r
    }
}

/// Being seen sets no clock back.
pub proof fn lemma_seen_forward(clock: ClockView, host: HostName, time: i64)
    ensures
        clock.seen(host, time).not_before(clock),
{
}

/// The end of an event sets no clock back.
pub proof fn lemma_ended_clock(clock: ClockView, event: EventId, time: i64)
    ensures
        clock.ended(event, time).not_before(clock),
{
}

/// Nothing that is noted of a process or answered to a thread sets a clock back.
pub proof fn law_clock_steps_forward(
    clock: ClockView,
    host: HostName,
    to: ResponseId,
    time: i64,
    curr: i64,
    event: Option<EventId>,
    id: EventId,
    body: ReplyBody,
)
    ensures
        clock.synced(host, time, event).not_before(clock),
        clock.seen(host, time).not_before(clock),
        clock.reply(to, body).not_before(clock),
        clock.sync_reply(to, time, event).not_before(clock),
        clock.query_reply(to, Some((time, event)), curr).not_before(clock),
        clock.query_reply(to, None, curr).not_before(clock),
        clock.wait(id, to).not_before(clock),
        clock.ended(id, time).not_before(clock),
{
}

/// The thread that waits for an event is answered when the event ends, and waits no
/// longer; nobody else is answered.
pub proof fn law_wait_answered(clock: ClockView, event: EventId, who: ResponseId, time: i64)
    ensures
        clock.wait(event, who).ended(event, time).replies == clock.replies.push(
            Reply { to: who, body: ReplyBody::Sync(SyncResponse { end_time: time }) },
        ),
        !clock.wait(event, who).ended(event, time).syncing.contains_key(event),
        clock.wait(event, who).ended(event, time).times[who.host@].sync == SyncPoint::EventEnd(
            event,
        ),
{
}

} // verus!
