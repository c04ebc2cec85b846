use vstd::prelude::*;

use crate::event::{views_of, Event, EventView};

verus! {

/// When a query ends.
#[derive(Clone, Copy, Debug, PartialEq, Eq)]
pub enum QueryMode {
    /// Ends once it has caught up with the end of the log.
    Current,
    /// Never ends by itself: it follows the log as it grows.
    Live,
}

/// What a consumer asks of the log: where to resume, which events, and
/// when to stop.
#[derive(Clone, Debug, PartialEq, Eq)]
pub struct Query {
    /// Byte offset of the first line not yet consumed.
    pub position: u64,
    pub mode: QueryMode,
    /// Tags wanted; an empty filter wants every event.
    pub tags: Vec<String>,
    /// A scan has reached the end of the log for this query.
    pub caught_up: bool,
}

/// An event with tags `tags` passes the filter `filter` when the filter is
/// empty or the two share a tag.
pub open spec fn tags_match(filter: Seq<Seq<char>>, tags: Seq<Seq<char>>) -> bool {
    filter.len() == 0 || exists|i: int, j: int|
        0 <= i < filter.len() && 0 <= j < tags.len() && #[trigger] filter[i] == #[trigger] tags[j]
}

impl Query {
    pub open spec fn spec_is_live(&self) -> bool {
        self.mode == QueryMode::Live
    }

    pub open spec fn spec_is_active(&self) -> bool {
        self.mode == QueryMode::Live || !self.caught_up
    }

    /// A query with the given mode and filter, from the start of the log.
    pub fn new(mode: QueryMode, tags: Vec<String>) -> (r: Query)
        ensures
            r.position == 0,
            r.mode == mode,
            r.tags@ == tags@,
            !r.caught_up,
    {
        Query { position: 0, mode, tags, caught_up: false }
    }

    /// Follows the whole log, from its start, as it grows.
    pub fn live() -> (r: Query)
        ensures
            r.position == 0,
            r.mode == QueryMode::Live,
            r.tags@.len() == 0,
            !r.caught_up,
    {
        Query::new(QueryMode::Live, Vec::new())
    }

    /// Reads the log as it stands, from its start, then ends.
    pub fn current() -> (r: Query)
        ensures
            r.position == 0,
            r.mode == QueryMode::Current,
            r.tags@.len() == 0,
            !r.caught_up,
    {
        Query::new(QueryMode::Current, Vec::new())
    }

    /// The same query, resuming at byte offset `position`.
    pub fn with_position(self, position: u64) -> (r: Query)
        ensures
            r.position == position,
            r.mode == self.mode,
            r.tags@ == self.tags@,
            r.caught_up == self.caught_up,
    {
        Query { position, ..self }
    }

    pub fn is_live(&self) -> (r: bool)
        ensures
            r == self.spec_is_live(),
    {
        match self.mode {
            QueryMode::Live => true,
            QueryMode::Current => false,
        }
    }

    /// Whether the query still wants data: a live one always, a current one
    /// until a scan has reached the end of the log.
    pub fn is_active(&self) -> (r: bool)
        ensures
            r == self.spec_is_active(),
    {
        self.is_live() || !self.caught_up
    }

    /// Whether an event with tags `tags` passes this query's filter.
    pub fn matches_tags(&self, tags: &Vec<String>) -> (r: bool)
        ensures
            r == tags_match(views_of(self.tags@), views_of(tags@)),
    {
        if self.tags.len() == 0 {
            return true;
        }
        let mut i: usize = 0;
        while i < self.tags.len()
            invariant
                0 <= i <= self.tags@.len(),
                forall|a: int, b: int|
                    0 <= a < i && 0 <= b < tags@.len() ==> self.tags@[a]@ != tags@[b]@,
            decreases self.tags@.len() - i,
        {
            let mut j: usize = 0;
            while j < tags.len()
                invariant
                    0 <= i < self.tags@.len(),
                    0 <= j <= tags@.len(),
                    forall|b: int| 0 <= b < j ==> self.tags@[i as int]@ != tags@[b]@,
                decreases tags@.len() - j,
            {
                if self.tags[i] == tags[j] {
                    assert(views_of(self.tags@)[i as int] == views_of(tags@)[j as int]);
                    return true;
                }
                j = j + 1;
            }
            i = i + 1;
        }
        assert forall|a: int, b: int|
            0 <= a < views_of(self.tags@).len() && 0 <= b < views_of(tags@).len() implies #[trigger] views_of(self.tags@)[a]
                != #[trigger] views_of(tags@)[b] by {
            assert(self.tags@[a]@ != tags@[b]@);
        }
        false
    }
}

#[verifier::external_type_specification]
#[verifier::external_body]
#[verifier::reject_recursive_types(T)]
pub struct ExSender<T>(std::sync::mpsc::Sender<T>);

/// Relies on `Sender::send`: `true` when the event was queued, `false` when
/// the receiver is gone. Which of the two comes back depends on the other end.
#[verifier::external_body]
fn send_event(send: &std::sync::mpsc::Sender<Event>, event: Event) -> (delivered: bool) {
    send.send(event).is_ok()
}

/// A query bound to the channel on which its events are delivered.
pub struct Subscription {
    /// The receiver was still there at the last delivery.
    pub active: bool,
    pub query: Query,
    pub send: std::sync::mpsc::Sender<Event>,
    /// Every event handed to the channel so far, in order.
    pub sent: Ghost<Seq<EventView>>,
}

impl Subscription {
    pub fn new(send: std::sync::mpsc::Sender<Event>, query: Query) -> (r: Subscription)
        ensures
            r.active,
            r.query == query,
            r.send == send,
            r.sent@ == Seq::<EventView>::empty(),
    {
        Subscription { active: true, query, send, sent: Ghost(Seq::empty()) }
    }

    pub fn is_active(&self) -> (r: bool)
        ensures
            r == self.active,
    {
        self.active
    }

    /// Whether the subscription is still wired and its filter lets `event` through.
    pub fn matches_event(&self, event: &Event) -> (r: bool)
        ensures
            r == (self.active && tags_match(views_of(self.query.tags@), views_of(event.tags@))),
    {
        self.active && self.query.matches_tags(&event.tags)
    }

    /// Hands `event` to the consumer's channel, which records it. Whether it
    /// arrives depends on the consumer: on success the result is `true`; on
    /// failure the subscription becomes inactive.
    pub fn emit(&mut self, event: Event) -> (delivered: bool)
        ensures
            final(self).query == old(self).query,
            final(self).send == old(self).send,
            final(self).sent@ == old(self).sent@.push(event@),
            final(self).active == (old(self).active && delivered),
    {
        self.sent = Ghost(self.sent@.push(event@));
        let delivered = send_event(&self.send, event);
        if !delivered {
            self.active = false;
        }
        delivered
    }
}

} // verus!
