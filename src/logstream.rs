use vstd::prelude::*;

use crate::model::{views_of_logs, LogEntry, LogLine, MIN_TIMESTAMP};

verus! {

/// The entries of `s` that have something to show, in their order.
pub open spec fn shown(s: Seq<LogLine>) -> Seq<LogLine> {
    s.filter(|e: LogLine| e.line.is_some())
}

/// A live event passes the session's filter: it belongs to the target
/// deployment and is strictly newer than anything seen so far.
pub open spec fn forwards(target: u128, last: int, e: LogLine) -> bool {
    e.deployment_id == target && e.timestamp > last
}

/// The newest timestamp seen after replaying `backlog` from `last`.
pub open spec fn backlog_last(last: int, backlog: Seq<LogLine>) -> int {
    if backlog.len() == 0 {
        last
    } else {
        backlog.last().timestamp
    }
}

/// The newest timestamp seen after the live `events`, starting from `last`.
pub open spec fn live_last(target: u128, last: int, events: Seq<LogLine>) -> int
    decreases events.len(),
{
    if events.len() == 0 {
        last
    } else {
        let prev = live_last(target, last, events.drop_last());
        if forwards(target, prev, events.last()) {
            events.last().timestamp
        } else {
            prev
        }
    }
}

/// What the live phase sends for `events`, starting from `last`.
pub open spec fn live_output(target: u128, last: int, events: Seq<LogLine>) -> Seq<LogLine>
    decreases events.len(),
{
    if events.len() == 0 {
        Seq::empty()
    } else {
        let prev = live_last(target, last, events.drop_last());
        let out = live_output(target, last, events.drop_last());
        if forwards(target, prev, events.last()) && events.last().line.is_some() {
            out.push(events.last())
        } else {
            out
        }
    }
}

/// Everything a session for `target` sends: the backlog's shown entries,
/// then what passes the live filter.
pub open spec fn session_output(target: u128, backlog: Seq<LogLine>, events: Seq<LogLine>) -> Seq<
    LogLine,
> {
    shown(backlog) + live_output(
        target,
        live_start(backlog),
        events,
    )
}

/// The newest timestamp a session has seen when it switches to the live feed.
pub open spec fn live_start(backlog: Seq<LogLine>) -> int {
    backlog_last(MIN_TIMESTAMP as int, backlog)
}

pub open spec fn non_decreasing(s: Seq<LogLine>) -> bool {
    forall|i: int, j: int| 0 <= i < j < s.len() ==> s[i].timestamp <= s[j].timestamp
}

pub open spec fn strictly_increasing(s: Seq<LogLine>) -> bool {
    forall|i: int, j: int| 0 <= i < j < s.len() ==> s[i].timestamp < s[j].timestamp
}

pub open spec fn all_of(target: u128, s: Seq<LogLine>) -> bool {
    forall|i: int| 0 <= i < s.len() ==> s[i].deployment_id == target
}

/// A subscriber's session over one deployment's logs: it replays the backlog,
/// then forwards live events of that deployment newer than the last seen.
pub struct LogSession {
    target: u128,
    last_timestamp: i64,
}

impl LogSession {
    pub closed spec fn target(&self) -> u128 {
        self.target
    }

    pub closed spec fn last(&self) -> int {
        self.last_timestamp as int
    }

    pub fn new(target: u128) -> (s: LogSession)
        ensures
            s.target() == target,
            s.last() == MIN_TIMESTAMP as int,
    {
        LogSession { target, last_timestamp: MIN_TIMESTAMP }
    }

    pub fn target_id(&self) -> (r: u128)
        ensures
            r == self.target(),
    {
        self.target
    }

    /// Takes one backlog entry: it is returned where it has something to
    /// show, and its timestamp becomes the newest seen either way.
    pub fn replay(&mut self, entry: LogEntry) -> (r: Option<LogEntry>)
        ensures
            final(self).target() == old(self).target(),
            final(self).last() == entry@.timestamp,
            r == (if entry@.line.is_some() {
                Some(entry)
            } else {
                None
            }),
    {
        self.last_timestamp = entry.timestamp;
        if entry.is_renderable() {
            Some(entry)
        } else {
            None
        }
    }

    /// Takes one live event: it is returned where it passes the filter and
    /// has something to show; where it passes, its timestamp becomes the
    /// newest seen.
    pub fn on_event(&mut self, event: LogEntry) -> (r: Option<LogEntry>)
        ensures
            final(self).target() == old(self).target(),
            final(self).last() == (if forwards(old(self).target(), old(self).last(), event@) {
                event@.timestamp
            } else {
                old(self).last()
            }),
            r == (if forwards(old(self).target(), old(self).last(), event@)
                && event@.line.is_some() {
                Some(event)
            } else {
                None
            }),
    {
        if event.deployment_id == self.target && event.timestamp > self.last_timestamp {
            self.last_timestamp = event.timestamp;
            if event.is_renderable() {
                Some(event)
            } else {
                None
            }
        } else {
            None
        }
    }

    /// Replays a whole backlog, returning what is to be sent, in order.
    pub fn replay_backlog(&mut self, backlog: &Vec<LogEntry>) -> (r: Vec<LogEntry>)
        ensures
            final(self).target() == old(self).target(),
            final(self).last() == backlog_last(old(self).last(), views_of_logs(backlog@)),
            views_of_logs(r@) == shown(views_of_logs(backlog@)),
    {
        let ghost b = views_of_logs(backlog@);
        let mut out: Vec<LogEntry> = Vec::new();
        let mut i: usize = 0;
        proof {
            assert(b.take(0) =~= Seq::<LogLine>::empty());
            reveal(Seq::filter);
            assert(views_of_logs(out@) =~= shown(b.take(0)));
        }
        while i < backlog.len()
            invariant
                b == views_of_logs(backlog@),
                0 <= i <= backlog.len(),
                self.target() == old(self).target(),
                self.last() == backlog_last(old(self).last(), b.take(i as int)),
                views_of_logs(out@) == shown(b.take(i as int)),
            decreases backlog.len() - i,
        {
            let e = backlog[i].duplicate();
            let sent = self.replay(e);
            proof {
                assert(b.take(i + 1) =~= b.take(i as int).push(b[i as int]));
                b.take(i as int).lemma_filter_push(b[i as int], |e: LogLine| e.line.is_some());
            }
            match sent {
                Some(x) => {
                    out.push(x);
                    assert(views_of_logs(out@) =~= shown(b.take(i + 1)));
                },
                None => {
                    assert(views_of_logs(out@) =~= shown(b.take(i + 1)));
                },
            }
            i = i + 1;
        }
        assert(b.take(i as int) =~= b);
        out
    }
}

/// Runs a whole session for `target` over a backlog and the live events that
/// arrive after subscribing, returning everything sent, in order.
pub fn run_session(target: u128, backlog: &Vec<LogEntry>, events: Vec<LogEntry>) -> (r: Vec<LogEntry>)
    ensures
        views_of_logs(r@) == session_output(target, views_of_logs(backlog@), views_of_logs(events@)),
{
    let mut session = LogSession::new(target);
    let mut out = session.replay_backlog(backlog);
    let ghost start = session.last();
    let ghost sent_backlog = views_of_logs(out@);
    let ghost ev = views_of_logs(events@);
    let mut i: usize = 0;
    assert(ev.take(0) =~= Seq::<LogLine>::empty());
    assert(views_of_logs(out@) =~= sent_backlog + live_output(target, start, ev.take(0)));
    while i < events.len()
        invariant
            ev == views_of_logs(events@),
            0 <= i <= events.len(),
            session.target() == target,
            start == live_start(views_of_logs(backlog@)),
            sent_backlog == shown(views_of_logs(backlog@)),
            session.last() == live_last(target, start, ev.take(i as int)),
            views_of_logs(out@) == sent_backlog + live_output(target, start, ev.take(i as int)),
        decreases events.len() - i,
    {
        let e = events[i].duplicate();
        let ghost old_last = session.last();
        let sent = session.on_event(e);
        proof {
            assert(ev.take(i + 1).drop_last() =~= ev.take(i as int));
            assert(ev.take(i + 1).last() == ev[i as int]);
            assert(ev[i as int] == events@[i as int]@);
        }
        match sent {
            Some(x) => {
                let ghost prev_out = views_of_logs(out@);
                out.push(x);
                assert(views_of_logs(out@) =~= prev_out.push(ev[i as int]));
                assert(views_of_logs(out@) =~= sent_backlog + live_output(target, start, ev.take(i + 1)));
            },
            None => {
                assert(!(forwards(target, old_last, ev[i as int]) && ev[i as int].line.is_some()));
                assert(live_output(target, start, ev.take(i + 1)) == live_output(target, start, ev.take(i as int)));
            },
        }
        i = i + 1;
    }
    assert(ev.take(i as int) =~= ev);
    out
}

proof fn lemma_shown(target: u128, s: Seq<LogLine>)
    ensures
        all_of(target, s) ==> all_of(target, shown(s)),
        non_decreasing(s) ==> non_decreasing(shown(s)),
        strictly_increasing(s) ==> strictly_increasing(shown(s)),
        s.len() > 0 && non_decreasing(s) ==> forall|k: int|
            0 <= k < shown(s).len() ==> #[trigger] shown(s)[k].timestamp <= s.last().timestamp,
    decreases s.len(),
{
    if s.len() == 0 {
        reveal(Seq::filter);
    } else {
        let p = s.drop_last();
        lemma_shown(target, p);
        assert(s =~= p.push(s.last()));
        p.lemma_filter_push(s.last(), |e: LogLine| e.line.is_some());
        if p.len() == 0 {
            reveal(Seq::filter);
            assert(shown(p).len() == 0);
        }
        if non_decreasing(s) {
            assert(non_decreasing(p));
            if p.len() > 0 {
                assert(p.last().timestamp <= s.last().timestamp);
            }
        }
        if strictly_increasing(s) {
            assert(strictly_increasing(p));
            assert(non_decreasing(s));
            if p.len() > 0 {
                assert(p.last().timestamp < s.last().timestamp);
            }
        }
    }
}

proof fn lemma_live(target: u128, last: int, events: Seq<LogLine>)
    ensures
        live_last(target, last, events) >= last,
        strictly_increasing(live_output(target, last, events)),
        all_of(target, live_output(target, last, events)),
        forall|k: int|
            0 <= k < live_output(target, last, events).len() ==> last < #[trigger] live_output(
                target,
                last,
                events,
            )[k].timestamp <= live_last(target, last, events),
    decreases events.len(),
{
    if events.len() > 0 {
        lemma_live(target, last, events.drop_last());
    }
}

/// Within one session the entries sent for the target deployment come in
/// non-decreasing timestamp order, and every entry sent from the live feed is
/// strictly newer than everything sent before it, so it never repeats an
/// entry already delivered. Where the backlog itself has no two entries with
/// one timestamp, no two delivered entries share a timestamp at all.
pub proof fn lemma_session_order(target: u128, backlog: Seq<LogLine>, events: Seq<LogLine>)
    requires
        all_of(target, backlog),
        non_decreasing(backlog),
    ensures
        all_of(target, session_output(target, backlog, events)),
        non_decreasing(session_output(target, backlog, events)),
        forall|i: int, j: int|
            0 <= i < j < session_output(target, backlog, events).len() && j >= shown(backlog).len()
                ==> session_output(target, backlog, events)[i].timestamp < session_output(
                target,
                backlog,
                events,
            )[j].timestamp,
        strictly_increasing(backlog) ==> strictly_increasing(
            session_output(target, backlog, events),
        ),
{
    let a = shown(backlog);
    let start = live_start(backlog);
    let b = live_output(target, start, events);
    let out = session_output(target, backlog, events);
    lemma_shown(target, backlog);
    lemma_live(target, start, events);
    assert(out == a + b);
    assert forall|i: int| 0 <= i < a.len() implies a[i].timestamp <= start by {
        if backlog.len() == 0 {
            reveal(Seq::filter);
        }
    }
    assert forall|i: int, j: int| 0 <= i < j < out.len() && j >= a.len() implies out[i].timestamp
        < out[j].timestamp by {
        assert(out[j] == b[j - a.len()]);
        if i < a.len() {
            assert(out[i] == a[i]);
        } else {
            assert(out[i] == b[i - a.len()]);
        }
    }
    assert forall|i: int, j: int| 0 <= i < j < out.len() implies out[i].timestamp
        <= out[j].timestamp by {
        if j < a.len() {
            assert(out[i] == a[i] && out[j] == a[j]);
        }
    }
    assert forall|i: int| 0 <= i < out.len() implies out[i].deployment_id == target by {
        if i < a.len() {
            assert(out[i] == a[i]);
        } else {
            assert(out[i] == b[i - a.len()]);
        }
    }
    if strictly_increasing(backlog) {
        assert forall|i: int, j: int| 0 <= i < j < out.len() implies out[i].timestamp
            < out[j].timestamp by {
            if j < a.len() {
                assert(out[i] == a[i] && out[j] == a[j]);
            }
        }
    }
}

} // verus!
