//! Per-connection dispatch: one decoded request, consulted against one
//! read-locked schedule snapshot, yields one outcome. An undecodable frame
//! aborts only its own connection.

use crate::clock::{clock_str, format_clock, format_time_difference_at, now_instant, rel_time};
use crate::codec::{dec_request, decode_request};
use crate::prayer::{day_view, schedule_wf, Prayers, ScheduleModel};
use crate::{Answer, AnswerModel, Request};
use vstd::prelude::*;

verus! {

/// What one connection's request leads to.
pub enum HandleOutcome {
    /// Write this answer, then close the connection.
    Reply(Answer),
    /// Signal shutdown on the daemon's channel; no reply is owed.
    Shutdown,
    /// No event has been popped yet: close without a reply.
    NotReady,
    /// The frame does not decode: close without a reply.
    Malformed,
}

/// The mathematical value of a [`HandleOutcome`].
pub enum OutcomeModel {
    Reply(AnswerModel),
    Shutdown,
    NotReady,
    Malformed,
}

impl View for HandleOutcome {
    type V = OutcomeModel;

    open spec fn view(&self) -> OutcomeModel {
        match self {
            HandleOutcome::Reply(a) => OutcomeModel::Reply(a@),
            HandleOutcome::Shutdown => OutcomeModel::Shutdown,
            HandleOutcome::NotReady => OutcomeModel::NotReady,
            HandleOutcome::Malformed => OutcomeModel::Malformed,
        }
    }
}

/// The outcome owed for one request against one schedule snapshot at
/// instant `now`.
pub open spec fn dispatch_model(req: Request, m: ScheduleModel, now: u64) -> OutcomeModel {
    match req {
        Request::Ping => OutcomeModel::Reply(AnswerModel::Ping),
        Request::Kill => OutcomeModel::Shutdown,
        Request::Next => match m.next {
            Some(e) => OutcomeModel::Reply(
                AnswerModel::Next(e.name, clock_str(e.time), rel_time(now, e.time)),
            ),
            None => OutcomeModel::NotReady,
        },
        Request::Waybar => match m.next {
            Some(e) => OutcomeModel::Reply(
                AnswerModel::Waybar(e.name, clock_str(e.time), rel_time(now, e.time), day_view(m)),
            ),
            None => OutcomeModel::NotReady,
        },
        Request::All => OutcomeModel::Reply(AnswerModel::All(day_view(m))),
    }
}

/// Answers one request from a schedule snapshot, at instant `now`. The
/// snapshot is read, never changed.
pub fn dispatch_at(req: Request, sched: &Prayers, now: u64) -> (out: HandleOutcome)
    ensures
        out@ == dispatch_model(req, sched@, now),
{
    match req {
        Request::Ping => HandleOutcome::Reply(Answer::Ping),
        Request::Kill => HandleOutcome::Shutdown,
        Request::Next => match &sched.next {
            Some(p) => {
                let name = p.name.clone();
                let shown = format_clock(p.time);
                let rel = format_time_difference_at(now, p.time);
                HandleOutcome::Reply(Answer::Next(name, shown, rel))
            },
            None => HandleOutcome::NotReady,
        },
        Request::Waybar => match &sched.next {
            Some(p) => {
                let name = p.name.clone();
                let shown = format_clock(p.time);
                let rel = format_time_difference_at(now, p.time);
                let all = sched.build_full_day_view();
                HandleOutcome::Reply(Answer::Waybar(name, shown, rel, all))
            },
            None => HandleOutcome::NotReady,
        },
        Request::All => {
            let all = sched.build_full_day_view();
            HandleOutcome::Reply(Answer::All(all))
        },
    }
}

/// The outcome owed for one raw frame.
pub open spec fn handle_model(frame: Seq<u8>, m: ScheduleModel, now: u64) -> OutcomeModel {
    match dec_request(frame) {
        Some(req) => dispatch_model(req, m, now),
        None => OutcomeModel::Malformed,
    }
}

/// Decodes one frame and answers it from a schedule snapshot, at instant
/// `now`.
pub fn handle_frame_at(frame: &[u8], sched: &Prayers, now: u64) -> (out: HandleOutcome)
    ensures
        out@ == handle_model(frame@, sched@, now),
{
    match decode_request(frame) {
        Some(req) => dispatch_at(req, sched, now),
        None => HandleOutcome::Malformed,
    }
}

/// Decodes one frame and answers it from a schedule snapshot at the current
/// instant.
pub fn handle_frame(frame: &[u8], sched: &Prayers) -> (out: HandleOutcome)
    ensures
        exists|now: u64| out@ == #[trigger] handle_model(frame@, sched@, now),
{
    let now = now_instant();
    let out = handle_frame_at(frame, sched, now);
    proof {
        assert(out@ == handle_model(frame@, sched@, now));
    }
    out
}

/// No torn reads: a reply is a function of exactly one schedule snapshot,
/// and the event name a Next or Waybar reply carries belongs to that one
/// snapshot's own day, never to a mixture of days.
pub proof fn lemma_reply_names_one_day(req: Request, m: ScheduleModel, now: u64)
    requires
        schedule_wf(m),
    ensures
        match dispatch_model(req, m, now) {
            OutcomeModel::Reply(a) => match a {
                AnswerModel::Next(name, shown, rel) => exists|i: int|
                    0 <= i < m.all.len() && (#[trigger] m.all[i]).name == name,
                AnswerModel::Waybar(name, shown, rel, all) => exists|i: int|
                    0 <= i < m.all.len() && (#[trigger] m.all[i]).name == name,
                _ => true,
            },
            _ => true,
        },
{
    match req {
        Request::Next | Request::Waybar => match m.next {
            Some(e) => {
                assert(m.all.contains(e));
                let i = choose|i: int| 0 <= i < m.all.len() && m.all[i] == e;
                assert(m.all[i].name == e.name);
            },
            None => {},
        },
        _ => {},
    }
}

} // verus!
