//! The watcher: a table of routes kept up to date, and a decision that moves only once it has
//! held.

use vstd::prelude::*;

use super::criterion::{discriminates, Discrimination, Route};
use super::netlink::apply;
use crate::bytes::ByteOrder;

verus! {

/// How long a changed criterion must hold before it is reported, in nanoseconds: thirty seconds,
/// the longest transient the FIB is expected to show.
pub const DEFAULT_HOLD: u64 = 30_000_000_000;

/// The hysteresis, and nothing else, so that the rule can be read without a socket. Times are
/// nanoseconds of a clock that does not go back.
#[derive(Clone, Copy, PartialEq, Eq, Debug)]
pub struct Hold {
    pub window: u64,
    pub reported: Discrimination,
    pub pending: Option<(Discrimination, u64)>,
}

/// Whether a decision has been pending for the window.
pub open spec fn held_long_enough(hold: Hold, current: Discrimination, now: u64) -> bool {
    match hold.pending {
        Some((pending, since)) => pending == current && (if now >= since {
            now - since
        } else {
            0
        }) >= hold.window,
        None => false,
    }
}

/// What a reading makes of a hold, and what it reports. A reading that agrees with what was
/// reported drops whatever was pending. One that arms is reported once it has held for the
/// window, which starts when it first came up. One that does not arm is reported at once.
pub open spec fn settled(hold: Hold, current: Discrimination, now: u64) -> (
    Hold,
    Option<Discrimination>,
) {
    if current == hold.reported {
        (Hold { pending: None, ..hold }, None)
    } else if held_long_enough(hold, current, now) || current != Discrimination::Discriminates {
        (Hold { pending: None, reported: current, ..hold }, Some(current))
    } else {
        match hold.pending {
            Some((pending, _)) if pending == current => (hold, None),
            _ => (Hold { pending: Some((current, now)), ..hold }, None),
        }
    }
}

impl Hold {
    /// Returns the new decision once it has held for the window, and `None` while it has not.
    ///
    /// Only arming waits. A decision that stops discriminating is either useless or actively
    /// dropping, and sitting on either buys nothing.
    pub fn settle(&mut self, current: Discrimination, now: u64) -> (report: Option<Discrimination>)
        ensures
            (*final(self), report) == settled(*old(self), current, now),
    {
        if current == self.reported {
            self.pending = None;
            return None;
        }
        let mut long_enough: bool = false;
        let mut already_pending: bool = false;
        if let Some((pending, since)) = self.pending {
            if pending == current {
                already_pending = true;
                long_enough = now.saturating_sub(since) >= self.window;
            }
        }
        if !long_enough && current.enforce() {
            if !already_pending {
                self.pending = Some((current, now));
            }
            return None;
        }
        self.pending = None;
        self.reported = current;
        Some(current)
    }
}

/// Arming waits out the window: a decision that arms is reported only where the same decision has
/// been pending for the whole of it.
pub proof fn arming_waits_out_the_window(hold: Hold, now: u64)
    requires
        settled(hold, Discrimination::Discriminates, now).1 is Some,
    ensures
        hold.pending matches Some((pending, since)) && pending == Discrimination::Discriminates
            && (hold.window > 0 ==> now >= since + hold.window),
{
}

/// Disarming does not wait: a decision that does not arm, and is not the one reported, is
/// reported on the same reading.
pub proof fn disarming_does_not_wait(hold: Hold, current: Discrimination, now: u64)
    requires
        current != Discrimination::Discriminates,
        current != hold.reported,
    ensures
        settled(hold, current, now).1 == Some(current),
        settled(hold, current, now).0.reported == current,
{
}

/// A flap inside the window reports nothing: a reading that comes back to what was reported
/// restarts the wait, so the next reading that arms is not reported, however late it comes.
pub proof fn a_flap_restarts_the_window(hold: Hold, back: u64, again: u64)
    requires
        hold.reported != Discrimination::Discriminates,
    ensures
        ({
            let returned = settled(hold, hold.reported, back);
            let armed = settled(returned.0, Discrimination::Discriminates, again);
            &&& returned.1 is None
            &&& armed.1 is None
            &&& armed.0.pending == Some((Discrimination::Discriminates, again))
        }),
{
}

/// A decision that holds is reported: once pending, the reading that arms is reported as soon as
/// the window has passed, and what is reported is what the program then reflects.
pub proof fn a_decision_that_holds_is_reported(hold: Hold, first: u64, now: u64)
    requires
        hold.reported != Discrimination::Discriminates,
        hold.pending is None,
        now >= first + hold.window,
    ensures
        ({
            let seen = settled(hold, Discrimination::Discriminates, first);
            let held = settled(seen.0, Discrimination::Discriminates, now);
            &&& seen.1 is None
            &&& held.1 == Some(Discrimination::Discriminates)
            &&& held.0.reported == Discrimination::Discriminates
        }),
{
}

/// A subscription to route changes: the table it has built up, and the decision last reported.
///
/// A stale table is safe, because the stage does its own live lookup. The one way to be wrong
/// dangerously is to lose a message, which is refused rather than absorbed.
pub struct RouteWatcher {
    pub table: Vec<Route>,
    pub ingress: u32,
    pub hold: Hold,
    pub lost_messages: bool,
}

/// What a watcher holds.
#[verifier::ext_equal]
pub struct WatcherView {
    pub table: Seq<super::criterion::RouteView>,
    pub ingress: u32,
    pub hold: Hold,
    pub lost_messages: bool,
}

impl View for RouteWatcher {
    type V = WatcherView;

    open spec fn view(&self) -> WatcherView {
        WatcherView {
            table: super::criterion::routes(self.table@),
            ingress: self.ingress,
            hold: self.hold,
            lost_messages: self.lost_messages,
        }
    }
}

/// What a read of the socket gave.
#[derive(Clone, Copy)]
pub enum Received<'a> {
    /// A tick begins: nothing has been read yet.
    Nothing,
    /// A datagram.
    Datagram(&'a [u8]),
    /// The read was interrupted.
    Interrupted,
    /// Nothing is left in the socket, which is where every tick ends.
    Drained,
    /// The socket overflowed, so messages were lost.
    Overflowed,
    /// Any other error.
    Failed,
}

/// What the watcher asks for next.
#[derive(Clone, Copy, PartialEq, Eq, Debug, Structural)]
pub enum Poll {
    /// Read the socket, without blocking.
    Receive,
    /// The tick is over, with the new decision where one has held.
    Settled(Option<Discrimination>),
    /// Messages were lost on an earlier tick, so the table is no longer the kernel's and the
    /// watcher has to be rebuilt.
    Lost,
    /// The read failed, and its error is the caller's to report.
    Failed,
}

/// What one step of a tick makes of a watcher, and what it asks for next.
pub open spec fn polled(
    watcher: WatcherView,
    event: Received<'_>,
    now: u64,
    order: ByteOrder,
) -> (WatcherView, Poll) {
    match event {
        Received::Nothing => (
            watcher,
            if watcher.lost_messages {
                Poll::Lost
            } else {
                Poll::Receive
            },
        ),
        Received::Datagram(bytes) => (
            WatcherView {
                table: super::netlink::applied(watcher.table, bytes@, order).0,
                ..watcher
            },
            Poll::Receive,
        ),
        Received::Interrupted => (watcher, Poll::Receive),
        Received::Drained => {
            let (hold, report) = settled(
                watcher.hold,
                super::criterion::table_answer(watcher.table, watcher.ingress),
                now,
            );
            (WatcherView { hold, ..watcher }, Poll::Settled(report))
        },
        Received::Overflowed => (WatcherView { lost_messages: true, ..watcher }, Poll::Failed),
        Received::Failed => (watcher, Poll::Failed),
    }
}

/// A lost message is never forgotten: an overflow is an error at once, whatever comes after it the
/// watcher stays one that has lost messages, and every later tick of it is refused before it reads.
pub proof fn a_lost_message_is_never_forgotten(
    watcher: WatcherView,
    event: Received<'_>,
    now: u64,
    order: ByteOrder,
)
    ensures
        ({
            let (after, next) = polled(watcher, event, now, order);
            &&& after.lost_messages <==> watcher.lost_messages || event is Overflowed
            &&& event is Overflowed ==> next == Poll::Failed
            &&& event is Nothing && watcher.lost_messages <==> next == Poll::Lost
            &&& after.ingress == watcher.ingress
        }),
{
}

/// A tick ends where the socket is drained, and only there. What it then says is what the criterion
/// answers for the table as it is, and what the watcher from then on says it has decided; and but
/// for that nothing changes what it has decided.
pub proof fn a_tick_ends_in_what_the_criterion_answers(
    watcher: WatcherView,
    event: Received<'_>,
    now: u64,
    order: ByteOrder,
)
    ensures
        ({
            let (after, next) = polled(watcher, event, now, order);
            &&& next is Settled <==> event is Drained
            &&& next matches Poll::Settled(Some(said)) ==> said == super::criterion::table_answer(
                watcher.table,
                watcher.ingress,
            ) && after.hold.reported == said
            &&& !(next matches Poll::Settled(Some(_))) ==> after.hold.reported
                == watcher.hold.reported
            &&& !(event is Drained) ==> after.hold == watcher.hold
            &&& !(event is Datagram) ==> after.table == watcher.table
            &&& event is Interrupted ==> next == Poll::Receive
            &&& event is Datagram ==> next == Poll::Receive
            &&& event is Failed ==> next == Poll::Failed
        }),
{
}

/// Whether an event is what a read was: one that returned bytes is a datagram of them, one that
/// returned none drained the socket, and of one that failed an interruption comes before an empty
/// socket, and that before an overflow.
pub open spec fn read_as(
    event: Received<'_>,
    buffer: Seq<u8>,
    read: int,
    interrupted: bool,
    would_block: bool,
    overflowed: bool,
) -> bool {
    match event {
        Received::Datagram(bytes) => read > 0 && bytes@ == buffer.take(read),
        Received::Drained => read == 0 || (read < 0 && !interrupted && would_block),
        Received::Interrupted => read < 0 && interrupted,
        Received::Overflowed => read < 0 && !interrupted && !would_block && overflowed,
        Received::Failed => read < 0 && !interrupted && !would_block && !overflowed,
        Received::Nothing => false,
    }
}

/// Bytes that were read are never dropped, and an overflow is never taken for an empty socket: the
/// datagram is every byte the read returned and no other, and a read that failed by an overflow
/// alone is told as one.
pub proof fn a_read_is_told_as_what_it_was(
    event: Received<'_>,
    buffer: Seq<u8>,
    read: int,
    interrupted: bool,
    would_block: bool,
    overflowed: bool,
)
    requires
        read <= buffer.len(),
        read_as(event, buffer, read, interrupted, would_block, overflowed),
    ensures
        read > 0 ==> (event matches Received::Datagram(bytes) && bytes@.len() == read && forall|
            i: int,
        |
            0 <= i < read ==> #[trigger] bytes@[i] == buffer[i]),
        read < 0 && overflowed && !interrupted && !would_block ==> event is Overflowed,
        read < 0 && would_block && !interrupted ==> event is Drained,
        read < 0 && interrupted ==> event is Interrupted,
        read < 0 && !interrupted && !would_block && !overflowed ==> event is Failed,
        read == 0 ==> event is Drained,
{
}

/// What a read of the socket was, from what it returned: the number of bytes, or the error.
pub fn received<'a>(
    buffer: &'a [u8],
    read: isize,
    interrupted: bool,
    would_block: bool,
    overflowed: bool,
) -> (event: Received<'a>)
    requires
        read <= buffer@.len(),
    ensures
        read_as(event, buffer@, read as int, interrupted, would_block, overflowed),
        read > 0 ==> (event matches Received::Datagram(bytes) && bytes@ == buffer@.take(
            read as int,
        )),
        read == 0 ==> event is Drained,
        read < 0 && interrupted ==> event is Interrupted,
        read < 0 && !interrupted && would_block ==> event is Drained,
        read < 0 && !interrupted && !would_block && overflowed ==> event is Overflowed,
        read < 0 && !interrupted && !would_block && !overflowed ==> event is Failed,
{
    if read > 0 {
        let bytes: &[u8] = vstd::slice::slice_subrange(buffer, 0, read as usize);
        assert(bytes@ =~= buffer@.take(read as int));
        return Received::Datagram(bytes);
    }
    if read == 0 {
        Received::Drained
    } else if interrupted {
        Received::Interrupted
    } else if would_block {
        Received::Drained
    } else if overflowed {
        Received::Overflowed
    } else {
        Received::Failed
    }
}

impl RouteWatcher {
    /// A watcher over a table just dumped, with the criterion answered for it.
    pub fn new(table: Vec<Route>, ingress: u32, window: u64) -> (watcher: Self)
        ensures
            watcher.table == table,
            watcher.ingress == ingress,
            watcher.hold == (Hold {
                window,
                reported: super::criterion::table_answer(
                    super::criterion::routes(table@),
                    ingress,
                ),
                pending: None,
            }),
            !watcher.lost_messages,
    {
        let reported: Discrimination = discriminates(&table, ingress);
        RouteWatcher {
            table,
            ingress,
            hold: Hold { window, reported, pending: None },
            lost_messages: false,
        }
    }

    /// What the criterion last said, which is what a loaded program reflects.
    pub fn decision(&self) -> (decision: Discrimination)
        ensures
            decision == self.hold.reported,
    {
        self.hold.reported
    }

    /// One step of a tick: takes what a read of the socket gave and says what to do next.
    ///
    /// A datagram is applied, an interrupted read is read again, and once the socket is drained
    /// the criterion is answered for the table and held against the clock. A watcher that has
    /// lost messages refuses every later tick.
    pub fn poll(&mut self, event: Received<'_>, now: u64, order: ByteOrder) -> (next: Poll)
        ensures
            (final(self)@, next) == polled(old(self)@, event, now, order),
            final(self).ingress == old(self).ingress,
            match event {
                Received::Nothing => *final(self) == *old(self) && next == (if old(
                    self,
                ).lost_messages {
                    Poll::Lost
                } else {
                    Poll::Receive
                }),
                Received::Datagram(bytes) => {
                    &&& super::criterion::routes(final(self).table@) == super::netlink::applied(
                        super::criterion::routes(old(self).table@),
                        bytes@,
                        order,
                    ).0
                    &&& final(self).hold == old(self).hold
                    &&& final(self).lost_messages == old(self).lost_messages
                    &&& next == Poll::Receive
                },
                Received::Interrupted => *final(self) == *old(self) && next == Poll::Receive,
                Received::Drained => {
                    let current = super::criterion::table_answer(
                        super::criterion::routes(old(self).table@),
                        old(self).ingress,
                    );
                    let (hold, report) = settled(old(self).hold, current, now);
                    &&& final(self).table == old(self).table
                    &&& final(self).hold == hold
                    &&& final(self).lost_messages == old(self).lost_messages
                    &&& next == Poll::Settled(report)
                },
                Received::Overflowed => {
                    &&& final(self).table == old(self).table
                    &&& final(self).hold == old(self).hold
                    &&& final(self).lost_messages
                    &&& next == Poll::Failed
                },
                Received::Failed => *final(self) == *old(self) && next == Poll::Failed,
            },
    {
        match event {
            Received::Nothing => if self.lost_messages {
                Poll::Lost
            } else {
                Poll::Receive
            },
            Received::Datagram(bytes) => {
                let _ = apply(&mut self.table, bytes, order);
                Poll::Receive
            },
            Received::Interrupted => Poll::Receive,
            Received::Drained => {
                let current: Discrimination = discriminates(&self.table, self.ingress);
                Poll::Settled(self.hold.settle(current, now))
            },
            Received::Overflowed => {
                self.lost_messages = true;
                Poll::Failed
            },
            Received::Failed => Poll::Failed,
        }
    }
}

/// The window starts when a decision first comes up, and the readings inside it do not move it: a
/// reading that arms, and repeats what is pending, leaves the hold as it was until the window has
/// passed, and is reported by the first reading behind it.
pub proof fn readings_inside_the_window_do_not_restart_it(hold: Hold, since: u64, now: u64)
    requires
        hold.reported != Discrimination::Discriminates,
        hold.pending == Some((Discrimination::Discriminates, since)),
        since <= now,
    ensures
        now - since < hold.window ==> settled(hold, Discrimination::Discriminates, now) == (
            hold,
            None::<Discrimination>,
        ),
        now - since >= hold.window ==> settled(hold, Discrimination::Discriminates, now).1 == Some(
            Discrimination::Discriminates,
        ),
{
}

/// What is reported is what was read, and what the hold then says it has reported. Without a
/// report the hold says what it said before, and never does a reading change the window.
pub proof fn a_report_is_what_was_read(hold: Hold, current: Discrimination, now: u64)
    ensures
        ({
            let (after, report) = settled(hold, current, now);
            &&& after.window == hold.window
            &&& report matches Some(said) ==> said == current && after.reported == current
                && after.pending is None && current != hold.reported
            &&& report is None ==> after.reported == hold.reported
            &&& current == hold.reported ==> report is None && after.pending is None
            &&& after.pending matches Some((pending, _)) ==> pending == current && pending
                == Discrimination::Discriminates
        }),
{
}

/// The decisions read at some clock readings, one after the other.
pub open spec fn read_through(hold: Hold, current: Discrimination, times: Seq<u64>) -> Hold
    decreases times.len(),
{
    if times.len() == 0 {
        hold
    } else {
        settled(read_through(hold, current, times.drop_last()), current, times.last()).0
    }
}

/// Hysteresis, over any number of readings: of readings that all arm, in the order of the clock,
/// the reading that is behind the first by the window is reported where none before it was, and
/// none before that.
pub proof fn arming_takes_the_window_and_no_longer(hold: Hold, times: Seq<u64>, now: u64)
    requires
        hold.reported != Discrimination::Discriminates,
        hold.pending is None,
        times.len() > 0,
        forall|i: int| 0 <= i < times.len() ==> times[0] <= #[trigger] times[i] <= now,
        forall|i: int| 0 <= i < times.len() ==> (#[trigger] times[i]) - times[0] < hold.window,
    ensures
        settled(read_through(hold, Discrimination::Discriminates, times), Discrimination::Discriminates, now).1
            is Some <==> now - times[0] >= hold.window,
{
    lemma_read_through(hold, times);
}

proof fn lemma_read_through(hold: Hold, times: Seq<u64>)
    requires
        hold.reported != Discrimination::Discriminates,
        hold.pending is None,
        times.len() > 0,
        forall|i: int| 0 <= i < times.len() ==> times[0] <= #[trigger] times[i],
        forall|i: int| 0 <= i < times.len() ==> (#[trigger] times[i]) - times[0] < hold.window,
    ensures
        read_through(hold, Discrimination::Discriminates, times) == (Hold {
            pending: Some((Discrimination::Discriminates, times[0])),
            ..hold
        }),
    decreases times.len(),
{
    let before = times.drop_last();
    if before.len() > 0 {
        assert forall|i: int| 0 <= i < before.len() implies before[0] <= #[trigger] before[i]
            && before[i] - before[0] < hold.window by {
            assert(times[i] == before[i]);
        }
        lemma_read_through(hold, before);
        assert(times.last() == times[times.len() - 1]);
    } else {
        assert(read_through(hold, Discrimination::Discriminates, before) == hold);
    }
}

} // verus!
