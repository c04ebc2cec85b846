use vstd::prelude::*;

use crate::error::{DatabaseError, EventStreamError};
use crate::event::{
    chars_of, data_field, digits_value, has_all_fields, EventView, id_field, is_u64_text, tags_field, tags_of, timestamp_field, views_of,
    Event,
};
use crate::lines_index::{line_start, LinesIndex};
use crate::query::{tags_match, QueryMode, Subscription};

verus! {

/// Granularity of the index a worker starts with when none is given.
pub const DEFAULT_GRANULARITY: u64 = 100000;

/// A command for the worker that scans a log.
pub enum ScannerAction {
    /// Serve this subscription from the next tick on.
    HandleSubscription(Subscription),
    /// The line with this number, of this many bytes, was appended.
    AddLineIndex(usize, usize),
    /// Replace the whole index.
    UpdateIndex(LinesIndex),
    /// Drop every subscription and end the worker.
    Stop,
}

impl ScannerAction {
    pub open spec fn wf(&self) -> bool {
        match self {
            ScannerAction::UpdateIndex(index) => index.wf(),
            _ => true,
        }
    }
}

/// What a command submission returns, given whether the worker took it.
pub open spec fn command_result_spec(delivered: bool) -> Result<(), DatabaseError> {
    if delivered {
        Ok(())
    } else {
        Err(DatabaseError::EventStreamError(EventStreamError::Closed))
    }
}

/// The result of submitting a command: the stream-closed error when the
/// worker could not take it.
pub fn command_result(delivered: bool) -> (r: Result<(), DatabaseError>)
    ensures
        r == command_result_spec(delivered),
    opens_invariants none
    no_unwind
{
    if delivered {
        Ok(())
    } else {
        Err(DatabaseError::EventStreamError(EventStreamError::Closed))
    }
}

/// Relies on `Sender::send`: `true` when the command was queued, `false`
/// when the worker's receiver is gone. Which comes back depends on the worker.
#[verifier::external_body]
fn send_action(send: &std::sync::mpsc::Sender<ScannerAction>, action: ScannerAction) -> (delivered: bool)
    opens_invariants none
    no_unwind
{
    send.send(action).is_ok()
}

/// The handle through which a log's scanning worker is driven.
pub struct Scanner {
    pub send: std::sync::mpsc::Sender<ScannerAction>,
    /// Every command handed to the worker's queue so far, in order.
    pub handed: Ghost<Seq<ScannerAction>>,
}

impl Scanner {
    /// A handle on the worker that reads commands from the other end of `send`.
    pub fn new(send: std::sync::mpsc::Sender<ScannerAction>) -> (r: Scanner)
        ensures
            r.send == send,
            r.handed@ == Seq::<ScannerAction>::empty(),
    {
        Scanner { send, handed: Ghost(Seq::empty()) }
    }

    fn submit(&mut self, action: ScannerAction) -> (r: Result<(), DatabaseError>)
        ensures
            r is Ok || r == Err::<(), DatabaseError>(DatabaseError::EventStreamError(EventStreamError::Closed)),
            final(self).send == old(self).send,
            final(self).handed@ == old(self).handed@.push(action),
        opens_invariants none
        no_unwind
    {
        self.handed = Ghost(self.handed@.push(action));
        let delivered = send_action(&self.send, action);
        command_result(delivered)
    }

    /// Hands a subscription to the worker.
    pub fn handle_subscription(&mut self, subscription: Subscription) -> (r: Result<(), DatabaseError>)
        ensures
            r is Ok || r == Err::<(), DatabaseError>(DatabaseError::EventStreamError(EventStreamError::Closed)),
            final(self).send == old(self).send,
            final(self).handed@ == old(self).handed@.push(ScannerAction::HandleSubscription(subscription)),
    {
        self.submit(ScannerAction::HandleSubscription(subscription))
    }

    /// Tells the worker that line `line`, of `bytes_len` bytes, was appended.
    pub fn add_line_index(&mut self, line: usize, bytes_len: usize) -> (r: Result<(), DatabaseError>)
        ensures
            r is Ok || r == Err::<(), DatabaseError>(DatabaseError::EventStreamError(EventStreamError::Closed)),
            final(self).send == old(self).send,
            final(self).handed@ == old(self).handed@.push(ScannerAction::AddLineIndex(line, bytes_len)),
    {
        self.submit(ScannerAction::AddLineIndex(line, bytes_len))
    }

    /// Hands the worker an index to use in place of its own.
    pub fn update_index(&mut self, index: LinesIndex) -> (r: Result<(), DatabaseError>)
        requires
            index.wf(),
        ensures
            r is Ok || r == Err::<(), DatabaseError>(DatabaseError::EventStreamError(EventStreamError::Closed)),
            final(self).send == old(self).send,
            final(self).handed@ == old(self).handed@.push(ScannerAction::UpdateIndex(index)),
    {
        self.submit(ScannerAction::UpdateIndex(index))
    }

    /// Asks the worker to stop.
    pub fn stop(&mut self) -> (r: Result<(), DatabaseError>)
        ensures
            r is Ok || r == Err::<(), DatabaseError>(DatabaseError::EventStreamError(EventStreamError::Closed)),
            final(self).send == old(self).send,
            final(self).handed@ == old(self).handed@.push(ScannerAction::Stop),
        opens_invariants none
        no_unwind
    {
        self.submit(ScannerAction::Stop)
    }
}

impl Drop for Scanner {
    /// Stops the worker; a worker already gone needs no stopping.
    fn drop(&mut self)
        ensures
            final(self).handed@ == old(self).handed@.push(ScannerAction::Stop),
        opens_invariants none
        no_unwind
    {
        let _ = self.stop();
    }
}

/// Smallest position among the subscriptions' queries, 0 when there is none.
pub open spec fn min_position(s: Seq<Subscription>) -> int
    decreases s.len(),
{
    if s.len() == 0 {
        0
    } else if s.len() == 1 {
        s[0].query.position as int
    } else {
        let m = min_position(s.drop_last());
        let p = s.last().query.position as int;
        if p < m {
            p
        } else {
            m
        }
    }
}

/// A subscription still wants events: its receiver is there and its query
/// has not ended.
pub open spec fn retainable(s: Subscription) -> bool {
    s.active && s.query.spec_is_active()
}

/// The subscriptions that are kept after a tick, in their order.
pub open spec fn kept(s: Seq<Subscription>) -> Seq<Subscription>
    decreases s.len(),
{
    if s.len() == 0 {
        s
    } else if retainable(s.last()) {
        kept(s.drop_last()).push(s.last())
    } else {
        kept(s.drop_last())
    }
}

/// The subscription takes the event with tags `tags` found in the line
/// starting at `offset`: it is retained, has not consumed that line yet,
/// and its filter lets the tags through.
pub open spec fn wants_spec(s: Subscription, offset: int, tags: Seq<Seq<char>>) -> bool {
    &&& retainable(s)
    &&& s.query.position <= offset
    &&& tags_match(views_of(s.query.tags@), tags)
}

/// Byte length of a line of text.
pub open spec fn byte_len(line: Seq<char>) -> int {
    vstd::utf8::encode_utf8(line).len() as int
}

/// A line that is complete: it ends with its terminator.
pub open spec fn complete(line: Seq<char>) -> bool {
    line.len() > 0 && line.last() == '\n' && byte_len(line) > 0
}

/// A complete line whose text holds an event.
pub open spec fn holds_event(line: Seq<char>) -> bool {
    let t = line.drop_last();
    complete(line) && has_all_fields(t) && is_u64_text(id_field(t)) && is_u64_text(
        timestamp_field(t),
    )
}

/// Tags of the event that a line holds.
pub open spec fn line_tags(line: Seq<char>) -> Seq<Seq<char>> {
    tags_of(tags_field(line.drop_last()))
}

/// Offset of line `k` of `lines`, read from byte offset `start`.
pub open spec fn offset_of(start: int, lines: Seq<String>, k: int) -> int
    decreases k,
{
    if k <= 0 {
        start
    } else {
        offset_of(start, lines, k - 1) + byte_len(lines[k - 1]@)
    }
}

/// A pass from `start` gets through the first `k` lines: all complete, and
/// their end within what a `u64` offset can reach.
pub open spec fn reached(start: int, lines: Seq<String>, k: int) -> bool {
    &&& k <= lines.len()
    &&& forall|j: int| 0 <= j < k ==> complete(#[trigger] lines[j]@)
    &&& offset_of(start, lines, k) <= u64::MAX
}

/// The event a line holds.
pub open spec fn line_event(line: Seq<char>) -> EventView {
    let t = line.drop_last();
    EventView {
        id: digits_value(id_field(t)) as u64,
        timestamp: digits_value(timestamp_field(t)) as u64,
        tags: tags_of(tags_field(t)),
        data: data_field(t),
    }
}

/// What a pass over the first `k` of `lines`, read from offset `start`,
/// hands to subscription `s` when every hand-over succeeds: its position
/// afterwards, and the events it is handed, in log order. A line is handed
/// over when the pass reaches it, it holds an event, the subscription
/// still wants events, has not yet consumed the line, and lets its tags
/// through.
pub open spec fn picked(s: Subscription, start: int, lines: Seq<String>, k: int) -> (int, Seq<EventView>)
    decreases k,
{
    if k <= 0 {
        (s.query.position as int, Seq::empty())
    } else {
        let prev = picked(s, start, lines, k - 1);
        let line = lines[k - 1]@;
        if reached(start, lines, k) && holds_event(line) && retainable(s) && prev.0 <= offset_of(
            start,
            lines,
            k - 1,
        ) && tags_match(views_of(s.query.tags@), line_tags(line)) {
            (offset_of(start, lines, k), prev.1.push(line_event(line)))
        } else {
            prev
        }
    }
}

/// `b` is subscription `a` after the hand-overs `p`: if still active it was
/// handed exactly those events and stands where they leave it; if handed
/// nothing it is as it was.
pub open spec fn picked_so_far(a: Subscription, b: Subscription, p: (int, Seq<EventView>)) -> bool {
    &&& b.active ==> b.sent@ == a.sent@ + p.1 && b.query.position == p.0
    &&& p.1.len() == 0 ==> b.active == a.active && b.query.position == a.query.position && b.sent
        == a.sent
    &&& !b.active ==> handed_prefix(a, b, p.1)
}

/// `b`, no longer active, was handed nothing more than `a`; or `a` was
/// active and `b` was handed a first part, not empty, of `more`: the
/// hand-overs stopped at the one that failed.
pub open spec fn handed_prefix(a: Subscription, b: Subscription, more: Seq<EventView>) -> bool {
    b.sent == a.sent || {
        &&& a.active
        &&& a.sent@.len() < b.sent@.len() <= a.sent@.len() + more.len()
        &&& b.sent@ == (a.sent@ + more).subrange(0, b.sent@.len() as int)
    }
}

/// `b` is subscription `a` after the line at `offset`, ending at
/// `next_position`, whose event is `e`, was offered to it: handed over
/// when `a` wanted it, and left alone otherwise.
pub open spec fn handed_line(a: Subscription, b: Subscription, offset: int, next_position: int, e: EventView) -> bool {
    if wants_spec(a, offset, e.tags) {
        &&& same_query(b, a)
        &&& b.sent@ == a.sent@.push(e)
        &&& (b.active && b.active == a.active && b.query.position == next_position) || (!b.active
            && b.query.position == a.query.position)
    } else {
        b == a
    }
}

/// Lines past the end of a pass change nothing of what it hands over.
proof fn lemma_picked_stable(s: Subscription, start: int, lines: Seq<String>, k: int, n: int)
    requires
        0 <= k <= n,
        forall|m: int| k < m ==> !#[trigger] reached(start, lines, m),
    ensures
        picked(s, start, lines, n) == picked(s, start, lines, k),
    decreases n - k,
{
    if k < n {
        lemma_picked_stable(s, start, lines, k, n - 1);
    }
}

/// Offsets of later lines are no smaller.
pub proof fn lemma_offset_monotonic(start: int, lines: Seq<String>, a: int, b: int)
    requires
        0 <= a <= b,
    ensures
        offset_of(start, lines, a) <= offset_of(start, lines, b),
    decreases b - a,
{
    if a < b {
        lemma_offset_monotonic(start, lines, a, b - 1);
    }
}

/// Two subscriptions agree but for the position and liveness of the first.
pub open spec fn same_query(a: Subscription, b: Subscription) -> bool {
    &&& a.send == b.send
    &&& a.query.mode == b.query.mode
    &&& a.query.tags == b.query.tags
    &&& a.query.caught_up == b.query.caught_up
}

/// The state of the worker that serves the subscriptions of one log.
pub struct ScannerThread {
    pub index: LinesIndex,
    pub subscriptions: Vec<Subscription>,
}

impl ScannerThread {
    pub open spec fn wf(&self) -> bool {
        self.index.wf()
    }

    /// A worker with the given index and no subscription.
    pub fn new(index: LinesIndex) -> (r: ScannerThread)
        requires
            index.wf(),
        ensures
            r.wf(),
            r.index == index,
            r.subscriptions@.len() == 0,
    {
        ScannerThread { index, subscriptions: Vec::new() }
    }

    /// Carries out one command; `false` when the worker is to stop.
    pub fn handle_action(&mut self, action: ScannerAction) -> (keep_running: bool)
        requires
            old(self).wf(),
            action.wf(),
        ensures
            final(self).wf(),
            keep_running == !(action is Stop),
            match action {
                ScannerAction::HandleSubscription(s) => {
                    &&& final(self).subscriptions@ == old(self).subscriptions@.push(s)
                    &&& final(self).index == old(self).index
                },
                ScannerAction::AddLineIndex(line, bytes_len) => {
                    let ix = old(self).index;
                    let accepted = line == ix.lengths().len() && line < u64::MAX && bytes_len > 0
                        && line_start(
                        ix.lengths(),
                        ix.lengths().len() as int,
                    ) + bytes_len <= u64::MAX;
                    &&& final(self).subscriptions@ == old(self).subscriptions@
                    &&& final(self).index.spec_granularity() == ix.spec_granularity()
                    &&& accepted ==> final(self).index.lengths() == ix.lengths().push(
                        bytes_len as u64,
                    )
                    &&& !accepted ==> final(self).index.lengths() == ix.lengths()
                },
                ScannerAction::UpdateIndex(index) => {
                    &&& final(self).subscriptions@ == old(self).subscriptions@
                    &&& final(self).index == index
                },
                ScannerAction::Stop => {
                    &&& final(self).subscriptions@.len() == 0
                    &&& final(self).index == old(self).index
                },
            },
    {
        match action {
            ScannerAction::HandleSubscription(s) => {
                self.subscriptions.push(s);
                true
            },
            ScannerAction::AddLineIndex(line, bytes_len) => {
                let _ = self.index.insert(line as u64, bytes_len as u64);
                true
            },
            ScannerAction::UpdateIndex(index) => {
                self.index = index;
                true
            },
            ScannerAction::Stop => {
                self.stop();
                false
            },
        }
    }

    /// Whether this tick needs a pass over the log: only while some
    /// subscription is served.
    pub fn needs_scan(&self) -> (r: bool)
        ensures
            r == (self.subscriptions@.len() > 0),
    {
        self.subscriptions.len() > 0
    }

    /// Drops every subscription.
    pub fn stop(&mut self)
        ensures
            final(self).subscriptions@.len() == 0,
            final(self).index == old(self).index,
    {
        self.subscriptions.clear();
    }

    /// The offset a scan starts from: the smallest position of all the
    /// subscriptions, 0 when there is none.
    pub fn find_min_offset(&self) -> (r: u64)
        ensures
            r == min_position(self.subscriptions@),
    {
        if self.subscriptions.len() == 0 {
            return 0;
        }
        let mut m: u64 = self.subscriptions[0].query.position;
        let mut i: usize = 1;
        assert(self.subscriptions@.subrange(0, 1).drop_last() =~= Seq::<Subscription>::empty());
        while i < self.subscriptions.len()
            invariant
                1 <= i <= self.subscriptions@.len(),
                m == min_position(self.subscriptions@.subrange(0, i as int)),
            decreases self.subscriptions@.len() - i,
        {
            let p = self.subscriptions[i].query.position;
            assert(self.subscriptions@.subrange(0, i + 1).drop_last() =~= self.subscriptions@.subrange(
                0,
                i as int,
            ));
            if p < m {
                m = p;
            }
            i = i + 1;
        }
        assert(self.subscriptions@.subrange(0, i as int) =~= self.subscriptions@);
        m
    }

    /// Whether subscription `i` takes `event`, read from the line at `offset`.
    pub fn wants(&self, i: usize, offset: u64, event: &Event) -> (r: bool)
        requires
            i < self.subscriptions@.len(),
        ensures
            r == wants_spec(self.subscriptions@[i as int], offset as int, views_of(event.tags@)),
    {
        let s = &self.subscriptions[i];
        s.query.is_active() && s.query.position <= offset && s.matches_event(event)
    }

    /// Records the outcome of handing subscription `i` the line that ends at
    /// `next_position`: on delivery its query moves past that line, and
    /// otherwise it is no longer active.
    pub fn advance(&mut self, i: usize, next_position: u64, delivered: bool)
        requires
            i < old(self).subscriptions@.len(),
        ensures
            final(self).index == old(self).index,
            final(self).subscriptions@.len() == old(self).subscriptions@.len(),
            forall|j: int|
                0 <= j < old(self).subscriptions@.len() && j != i ==> final(self).subscriptions@[j]
                    == old(self).subscriptions@[j],
            same_query(final(self).subscriptions@[i as int], old(self).subscriptions@[i as int]),
            final(self).subscriptions@[i as int].sent == old(self).subscriptions@[i as int].sent,
            delivered ==> final(self).subscriptions@[i as int].query.position == next_position,
            delivered ==> final(self).subscriptions@[i as int].active
                == old(self).subscriptions@[i as int].active,
            !delivered ==> final(self).subscriptions@[i as int].query.position
                == old(self).subscriptions@[i as int].query.position,
            !delivered ==> !final(self).subscriptions@[i as int].active,
    {
        if delivered {
            self.subscriptions[i].query.position = next_position;
        } else {
            self.subscriptions[i].active = false;
        }
    }

    /// Hands `event` to subscription `i` and records the outcome.
    fn deliver(&mut self, i: usize, event: Event, next_position: u64)
        requires
            i < old(self).subscriptions@.len(),
        ensures
            final(self).index == old(self).index,
            final(self).subscriptions@.len() == old(self).subscriptions@.len(),
            forall|j: int|
                0 <= j < old(self).subscriptions@.len() && j != i ==> final(self).subscriptions@[j]
                    == old(self).subscriptions@[j],
            same_query(final(self).subscriptions@[i as int], old(self).subscriptions@[i as int]),
            final(self).subscriptions@[i as int].sent@ == old(
                self,
            ).subscriptions@[i as int].sent@.push(event@),
            (final(self).subscriptions@[i as int].query.position == next_position
                && final(self).subscriptions@[i as int].active
                == old(self).subscriptions@[i as int].active) || (
            final(self).subscriptions@[i as int].query.position
                == old(self).subscriptions@[i as int].query.position
                && !final(self).subscriptions@[i as int].active),
    {
        let delivered = self.subscriptions[i].emit(event);
        self.advance(i, next_position, delivered);
    }

    /// Hands the event of one line to each subscription that wants it.
    fn fan_out(&mut self, offset: u64, next_position: u64, event: &Event)
        requires
            offset < next_position,
        ensures
            final(self).index == old(self).index,
            evolved(old(self).subscriptions@, final(self).subscriptions@),
            forall|i: int|
                0 <= i < old(self).subscriptions@.len() ==> handed_line(
                    old(self).subscriptions@[i],
                    #[trigger] final(self).subscriptions@[i],
                    offset as int,
                    next_position as int,
                    event@,
                ),
    {
        let ghost orig = self.subscriptions@;
        let mut i: usize = 0;
        while i < self.subscriptions.len()
            invariant
                offset < next_position,
                self.index == old(self).index,
                orig == old(self).subscriptions@,
                evolved(orig, self.subscriptions@),
                0 <= i <= self.subscriptions@.len(),
                forall|j: int|
                    i <= j < orig.len() ==> #[trigger] self.subscriptions@[j] == orig[j],
                forall|j: int|
                    0 <= j < i ==> handed_line(
                        orig[j],
                        #[trigger] self.subscriptions@[j],
                        offset as int,
                        next_position as int,
                        event@,
                    ),
            decreases self.subscriptions@.len() - i,
        {
            if self.wants(i, offset, event) {
                let ghost before = self.subscriptions@;
                let copy = event.copy();
                self.deliver(i, copy, next_position);
                proof {
                    lemma_evolved_trans(orig, before, self.subscriptions@);
                }
            }
            i = i + 1;
        }
    }

    /// One pass over the log from byte offset `start` to its current end.
    /// `lines` holds the text read from there, one line each with its
    /// terminator. Every complete line that holds an event is handed to
    /// each subscription that wants it, which then moves past that line.
    /// A line that holds no event is skipped; an unterminated last line is
    /// left for a later pass. Current queries have then caught up.
    ///
    /// A subscription still active afterwards was handed exactly the
    /// events that `picked` gives, in log order, and stands past the last
    /// of them; one handed nothing is as it was, but for `caught_up`.
    pub fn scan(&mut self, start: u64, lines: &Vec<String>)
        ensures
            final(self).index == old(self).index,
            final(self).subscriptions@.len() == old(self).subscriptions@.len(),
            old(self).subscriptions@.len() == 0 ==> final(self).subscriptions@
                == old(self).subscriptions@,
            forall|i: int|
                0 <= i < old(self).subscriptions@.len() ==> {
                    let a = old(self).subscriptions@[i];
                    let b = #[trigger] final(self).subscriptions@[i];
                    let p = picked(a, start as int, lines@, lines@.len() as int);
                    &&& b.query.mode == a.query.mode
                    &&& b.query.tags == a.query.tags
                    &&& b.send == a.send
                    &&& a.query.position <= b.query.position
                    &&& b.active ==> a.active
                    &&& b.query.caught_up == (a.query.caught_up || a.query.mode
                        == QueryMode::Current)
                    &&& b.active ==> b.sent@ == a.sent@ + p.1 && b.query.position == p.0
                    &&& p.1.len() == 0 ==> b.active == a.active && b.query.position
                        == a.query.position && b.sent == a.sent
                    &&& !b.active ==> handed_prefix(a, b, p.1)
                },
            forall|i: int, k: int|
                0 <= i < final(self).subscriptions@.len() && 0 <= k && reached(
                    start as int,
                    lines@,
                    k + 1,
                ) && holds_event(lines@[k]@) && (#[trigger] final(self).subscriptions@[i]).active
                    ==> !wants_spec(
                    final(self).subscriptions@[i],
                    offset_of(start as int, lines@, k),
                    line_tags(#[trigger] lines@[k]@),
                ),
    {
        if self.subscriptions.len() == 0 {
            return;
        }
        let ghost st = start as int;
        let ghost orig = self.subscriptions@;
        let mut offset: u64 = start;
        let mut k: usize = 0;
        while k < lines.len()
            invariant
                self.index == old(self).index,
                orig == old(self).subscriptions@,
                evolved(orig, self.subscriptions@),
                k <= lines@.len(),
                st == start as int,
                offset as int == offset_of(st, lines@, k as int),
                forall|j: int| 0 <= j < k ==> complete(#[trigger] lines@[j]@),
                forall|i: int|
                    0 <= i < orig.len() ==> picked_so_far(
                        orig[i],
                        #[trigger] self.subscriptions@[i],
                        picked(orig[i], st, lines@, k as int),
                    ),
                forall|i: int, m: int|
                    0 <= i < self.subscriptions@.len() && 0 <= m < k && holds_event(lines@[m]@)
                        && (#[trigger] self.subscriptions@[i]).active ==> !wants_spec(
                        self.subscriptions@[i],
                        offset_of(st, lines@, m),
                        line_tags(#[trigger] lines@[m]@),
                    ),
            ensures
                self.index == old(self).index,
                evolved(orig, self.subscriptions@),
                k <= lines@.len(),
                forall|n: int| k < n ==> !#[trigger] reached(st, lines@, n),
                forall|i: int|
                    0 <= i < orig.len() ==> picked_so_far(
                        orig[i],
                        #[trigger] self.subscriptions@[i],
                        picked(orig[i], st, lines@, k as int),
                    ),
                forall|i: int, m: int|
                    0 <= i < self.subscriptions@.len() && 0 <= m < k && holds_event(lines@[m]@)
                        && (#[trigger] self.subscriptions@[i]).active ==> !wants_spec(
                        self.subscriptions@[i],
                        offset_of(st, lines@, m),
                        line_tags(#[trigger] lines@[m]@),
                    ),
            decreases lines@.len() - k,
        {
            let line = &lines[k];
            let text = line.as_str();
            let len = text.as_bytes().len() as u64;
            let c = chars_of(text);
            assert(len == byte_len(lines@[k as int]@));
            if c.len() == 0 || c[c.len() - 1] != '\n' || len == 0 || offset > u64::MAX - len {
                proof {
                    assert forall|n: int| k < n implies !#[trigger] reached(st, lines@, n) by {
                        if reached(st, lines@, n) {
                            assert(complete(lines@[k as int]@));
                            lemma_offset_monotonic(st, lines@, k + 1, n);
                        }
                    }
                }
                break;
            }
            let next = offset + len;
            let ghost before = self.subscriptions@;
            let ghost line_v = lines@[k as int]@;
            assert(c@.subrange(0, c@.len() - 1) =~= line_v.drop_last());
            assert(complete(line_v));
            assert(reached(st, lines@, k + 1));
            match Event::from_chars(&c, c.len() - 1) {
                Ok(event) => {
                    assert(event@ == line_event(line_v));
                    self.fan_out(offset, next, &event);
                    proof {
                        lemma_evolved_trans(orig, before, self.subscriptions@);
                        assert forall|i: int| 0 <= i < orig.len() implies picked_so_far(
                            orig[i],
                            #[trigger] self.subscriptions@[i],
                            picked(orig[i], st, lines@, k + 1),
                        ) by {
                            assert(picked_so_far(orig[i], before[i], picked(orig[i], st, lines@, k as int)));
                            assert(handed_line(before[i], self.subscriptions@[i], offset as int, next as int, event@));
                            let a = orig[i];
                            let p0 = picked(a, st, lines@, k as int);
                            let p1 = picked(a, st, lines@, k + 1);
                            let b0 = before[i];
                            let b1 = self.subscriptions@[i];
                            if b0.active {
                                assert(retainable(b0) == retainable(a));
                            }
                            if p1.1 != p0.1 {
                                assert(p1.1 == p0.1.push(event@));
                                assert(a.sent@ + p1.1 =~= (a.sent@ + p0.1).push(event@));
                                if !b0.active && b0.sent != a.sent {
                                    assert((a.sent@ + p1.1).subrange(0, b0.sent@.len() as int)
                                        =~= (a.sent@ + p0.1).subrange(0, b0.sent@.len() as int));
                                }
                                if b0.active && !b1.active {
                                    assert((a.sent@ + p1.1).subrange(0, b1.sent@.len() as int)
                                        =~= a.sent@ + p1.1);
                                }
                            }
                        }
                    }
                },
                Err(_) => {
                    assert(!holds_event(line_v));
                },
            }
            proof {
                assert forall|i: int, m: int|
                    0 <= i < self.subscriptions@.len() && 0 <= m < k + 1 && holds_event(
                        lines@[m]@,
                    ) && (#[trigger] self.subscriptions@[i]).active implies !wants_spec(
                    self.subscriptions@[i],
                    offset_of(st, lines@, m),
                    line_tags(#[trigger] lines@[m]@),
                ) by {
                    let b = self.subscriptions@[i];
                    if m < k {
                        lemma_offset_monotonic(st, lines@, m, k as int);
                        if b != before[i] {
                            assert(b.query.position == next);
                        }
                    }
                }
            }
            offset = next;
            k = k + 1;
        }
        proof {
            assert forall|i: int| 0 <= i < orig.len() implies picked(orig[i], st, lines@, lines@.len() as int)
                == #[trigger] picked(orig[i], st, lines@, k as int) by {
                lemma_picked_stable(orig[i], st, lines@, k as int, lines@.len() as int);
            }
        }
        let ghost before = self.subscriptions@;
        self.mark_caught_up();
        proof {
            assert forall|i: int, k2: int|
                0 <= i < self.subscriptions@.len() && 0 <= k2 && reached(st, lines@, k2 + 1)
                    && holds_event(lines@[k2]@) && (#[trigger] self.subscriptions@[i]).active
                    implies !wants_spec(
                self.subscriptions@[i],
                offset_of(st, lines@, k2),
                line_tags(#[trigger] lines@[k2]@),
            ) by {
                assert(k2 < k);
                assert(before[i].active);
                if before[i].query.mode == QueryMode::Live {
                    assert(self.subscriptions@[i] == before[i]);
                }
            }
            assert forall|i: int| 0 <= i < orig.len() implies {
                let a = orig[i];
                let b = #[trigger] self.subscriptions@[i];
                let p = picked(a, st, lines@, lines@.len() as int);
                &&& b.active ==> b.sent@ == a.sent@ + p.1 && b.query.position == p.0
                &&& p.1.len() == 0 ==> b.active == a.active && b.query.position
                    == a.query.position && b.sent == a.sent
                &&& !b.active ==> handed_prefix(a, b, p.1)
            } by {
                assert(picked_so_far(orig[i], before[i], picked(orig[i], st, lines@, k as int)));
            }
        }
    }

    /// Current queries have reached the end of the log.
    fn mark_caught_up(&mut self)
        ensures
            forall|i: int|
                0 <= i < old(self).subscriptions@.len() && old(self).subscriptions@[i].query.mode
                    == QueryMode::Live ==> #[trigger] final(self).subscriptions@[i]
                    == old(self).subscriptions@[i],
            final(self).index == old(self).index,
            final(self).subscriptions@.len() == old(self).subscriptions@.len(),
            forall|i: int|
                0 <= i < old(self).subscriptions@.len() ==> {
                    let a = old(self).subscriptions@[i];
                    let b = #[trigger] final(self).subscriptions@[i];
                    &&& b.query.mode == a.query.mode
                    &&& b.query.tags == a.query.tags
                    &&& b.query.position == a.query.position
                    &&& b.active == a.active
                    &&& b.send == a.send
                    &&& b.sent == a.sent
                    &&& b.query.caught_up == (a.query.caught_up || a.query.mode
                        == QueryMode::Current)
                },
    {
        let mut i: usize = 0;
        while i < self.subscriptions.len()
            invariant
                self.index == old(self).index,
                self.subscriptions@.len() == old(self).subscriptions@.len(),
                forall|j: int|
                    i <= j < old(self).subscriptions@.len() ==> self.subscriptions@[j]
                        == old(self).subscriptions@[j],
                forall|j: int|
                    0 <= j < i && old(self).subscriptions@[j].query.mode == QueryMode::Live
                        ==> #[trigger] self.subscriptions@[j] == old(self).subscriptions@[j],
                forall|j: int|
                    0 <= j < i ==> {
                        let a = old(self).subscriptions@[j];
                        let b = #[trigger] self.subscriptions@[j];
                        &&& b.query.mode == a.query.mode
                        &&& b.query.tags == a.query.tags
                        &&& b.query.position == a.query.position
                        &&& b.active == a.active
                        &&& b.send == a.send
                        &&& b.sent == a.sent
                        &&& b.query.caught_up == (a.query.caught_up || a.query.mode
                            == QueryMode::Current)
                    },
            decreases self.subscriptions@.len() - i,
        {
            if !self.subscriptions[i].query.is_live() {
                self.subscriptions[i].query.caught_up = true;
            }
            i = i + 1;
        }
    }

    /// Drops the subscriptions whose receiver is gone or whose query has
    /// ended, keeping the others in order.
    pub fn retain_active_subscriptions(&mut self)
        ensures
            final(self).index == old(self).index,
            final(self).subscriptions@ == kept(old(self).subscriptions@),
    {
        let mut rest: Vec<Subscription> = Vec::new();
        std::mem::swap(&mut rest, &mut self.subscriptions);
        let ghost all = rest@;
        let n = rest.len();
        let mut i: usize = 0;
        assert(all.subrange(0, 0) =~= Seq::<Subscription>::empty());
        assert(all.subrange(0, all.len() as int) =~= all);
        while rest.len() > 0
            invariant
                i <= all.len(),
                all.len() == n,
                rest@ == all.subrange(i as int, all.len() as int),
                self.subscriptions@ == kept(all.subrange(0, i as int)),
                self.index == old(self).index,
                all == old(self).subscriptions@,
            decreases rest@.len(),
        {
            let s = rest.remove(0);
            assert(all.subrange(0, i + 1).drop_last() =~= all.subrange(0, i as int));
            assert(rest@ =~= all.subrange(i + 1, all.len() as int));
            if s.active && s.query.is_active() {
                self.subscriptions.push(s);
            }
            i = i + 1;
        }
        assert(all.subrange(0, i as int) =~= all);
    }
}

/// `b` is what a pass over the log may make of the subscriptions `a`:
/// the same queries, each no further back, none revived.
pub open spec fn evolved(a: Seq<Subscription>, b: Seq<Subscription>) -> bool {
    &&& a.len() == b.len()
    &&& forall|i: int|
        0 <= i < a.len() ==> {
            &&& same_query(#[trigger] b[i], a[i])
            &&& a[i].query.position <= b[i].query.position
            &&& b[i].active ==> a[i].active
        }
}

proof fn lemma_evolved_trans(a: Seq<Subscription>, b: Seq<Subscription>, c: Seq<Subscription>)
    requires
        evolved(a, b),
        evolved(b, c),
    ensures
        evolved(a, c),
{
    assert forall|i: int| 0 <= i < a.len() implies {
        &&& same_query(#[trigger] c[i], a[i])
        &&& a[i].query.position <= c[i].query.position
        &&& c[i].active ==> a[i].active
    } by {
        assert(same_query(b[i], a[i]));
        assert(same_query(c[i], b[i]));
    }
}

/// The offset a scan starts from is the least position of all the
/// subscriptions: no subscription is behind it, and one is at it. With no
/// subscription it is 0.
pub proof fn lemma_min_offset(s: Seq<Subscription>)
    ensures
        s.len() == 0 ==> min_position(s) == 0,
        forall|i: int| 0 <= i < s.len() ==> min_position(s) <= #[trigger] s[i].query.position,
        s.len() > 0 ==> exists|i: int| 0 <= i < s.len() && min_position(s) == s[i].query.position,
    decreases s.len(),
{
    if s.len() > 1 {
        let t = s.drop_last();
        lemma_min_offset(t);
        assert forall|i: int| 0 <= i < s.len() implies min_position(s) <= #[trigger] s[i].query.position by {
            if i < t.len() {
                assert(t[i] == s[i]);
            }
        }
        if min_position(s) == min_position(t) {
            let j = choose|j: int| 0 <= j < t.len() && min_position(t) == t[j].query.position;
            assert(s[j] == t[j]);
        } else {
            assert(min_position(s) == s[s.len() - 1].query.position);
        }
    }
}

/// Every subscription that survives a pruning pass was there before and
/// still wants events.
pub proof fn lemma_kept(s: Seq<Subscription>)
    ensures
        forall|j: int|
            0 <= j < kept(s).len() ==> retainable(#[trigger] kept(s)[j]) && s.contains(kept(s)[j]),
    decreases s.len(),
{
    if s.len() > 0 {
        let t = s.drop_last();
        lemma_kept(t);
        assert forall|j: int| 0 <= j < kept(s).len() implies retainable(#[trigger] kept(s)[j])
            && s.contains(kept(s)[j]) by {
            if j < kept(t).len() {
                assert(kept(s)[j] == kept(t)[j]);
                let k = choose|k: int| 0 <= k < t.len() && t[k] == kept(t)[j];
                assert(s[k] == t[k]);
            } else {
                assert(s[s.len() - 1] == s.last());
            }
        }
    }
}

/// A current query ends with the pass that reaches the end of the log: once
/// every current query has caught up, pruning leaves live ones only, so no
/// current subscription receives what is appended afterwards.
pub proof fn lemma_current_queries_end(s: Seq<Subscription>)
    requires
        forall|i: int|
            0 <= i < s.len() && (#[trigger] s[i]).query.mode == QueryMode::Current
                ==> s[i].query.caught_up,
    ensures
        forall|j: int| 0 <= j < kept(s).len() ==> (#[trigger] kept(s)[j]).query.mode == QueryMode::Live,
{
    lemma_kept(s);
    assert forall|j: int| 0 <= j < kept(s).len() implies (#[trigger] kept(s)[j]).query.mode
        == QueryMode::Live by {
        let k = choose|k: int| 0 <= k < s.len() && s[k] == kept(s)[j];
    }
}

/// A subscription takes each line once and in log order: once it has been
/// handed the line at `offset`, ending at `next_position`, it no longer
/// wants that line or any before it, and wants each later line just as it
/// did before.
pub proof fn lemma_delivered_once(
    s: Subscription,
    t: Subscription,
    offset: int,
    next_position: int,
    tags: Seq<Seq<char>>,
)
    requires
        wants_spec(s, offset, tags),
        offset < next_position,
        same_query(t, s),
        t.active == s.active,
        t.query.position == next_position,
    ensures
        forall|o: int, e: Seq<Seq<char>>| o < next_position ==> !wants_spec(t, o, e),
        forall|o: int, e: Seq<Seq<char>>|
            next_position <= o ==> (wants_spec(t, o, e) == wants_spec(s, o, e)),
{
}

} // verus!
