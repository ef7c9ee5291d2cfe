//! A daily schedule of named time-of-day events, the binary protocol used to
//! query it over a local channel, and the decisions of the daemon that serves
//! it.

pub mod clock;
pub mod codec;
pub mod daemon;
pub mod dispatch;
pub mod parser;
pub mod prayer;
pub mod waybar;

use vstd::prelude::*;

verus! {

/// The closed set of commands a client may send over the control channel.
#[derive(Debug, Clone, Copy, PartialEq, Eq, Structural)]
pub enum Request {
    Kill,
    Ping,
    Next,
    Waybar,
    All,
}

/// The mathematical value of an [`Answer`]: every string as its character
/// sequence.
pub enum AnswerModel {
    Ping,
    Next(Seq<char>, Seq<char>, Seq<char>),
    Waybar(Seq<char>, Seq<char>, Seq<char>, Seq<(Seq<char>, Seq<char>)>),
    All(Seq<(Seq<char>, Seq<char>)>),
}

/// One reply on the control channel: an acknowledgement, the next event as
/// (name, clock time, relative time), the full day as ordered (name, clock
/// time) pairs, or both at once for a status bar.
#[derive(Debug, PartialEq)]
pub enum Answer {
    Ping,
    Next(String, String, String),
    Waybar(String, String, String, Vec<(String, String)>),
    All(Vec<(String, String)>),
}

impl View for Answer {
    type V = AnswerModel;

    open spec fn view(&self) -> AnswerModel {
        match self {
            Answer::Ping => AnswerModel::Ping,
            Answer::Next(a, b, c) => AnswerModel::Next(a@, b@, c@),
            Answer::Waybar(a, b, c, l) => AnswerModel::Waybar(a@, b@, c@, l.deep_view()),
            Answer::All(l) => AnswerModel::All(l.deep_view()),
        }
    }
}

} // verus!
