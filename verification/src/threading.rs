//! Reporting progress from background work: messages and progress values
//! sent by a worker, gathered by the tab that shows them.
use vstd::prelude::*;
use std::sync::mpsc::{Receiver, SendError};
use crate::third_party::try_recv_status;

verus! {

/// How far a task has come.
#[derive(Clone, Copy, Debug)]
pub struct Progress {
    pub max: usize,
    pub val: usize,
}

/// What a worker reports: a line of text, or how far it has come.
pub enum StatusData {
    Message(String),
    Progress(Progress),
}

/// The messages received so far, one per line, and the latest progress
/// (cleared by each message).
pub struct StatusReader {
    status: String,
    progress: Option<Progress>,
    rx: Receiver<StatusData>,
}

/// The text after a message `m` is added to `status`.
pub open spec fn with_message(status: Seq<char>, m: Seq<char>) -> Seq<char> {
    if status.len() == 0 {
        m
    } else {
        status + seq!['\n'] + m
    }
}

/// The text and progress after `d` is received.
pub open spec fn after_status(status: Seq<char>, progress: Option<Progress>, d: StatusData) -> (Seq<char>, Option<Progress>) {
    match d {
        StatusData::Message(m) => (with_message(status, m@), None),
        StatusData::Progress(p) => (status, Some(p)),
    }
}

impl StatusReader {
    pub closed spec fn status_view(&self) -> Seq<char> {
        self.status@
    }

    pub closed spec fn progress_view(&self) -> Option<Progress> {
        self.progress
    }

    /// The latest progress received since the last message.
    pub fn progress(&self) -> (r: Option<Progress>)
        ensures
            r == self.progress_view(),
    {
        self.progress
    }

    /// The channel the reader takes its reports from.
    pub closed spec fn receiver(&self) -> Receiver<StatusData> {
        self.rx
    }

    /// A reader of `rx`, with nothing received yet.
    pub fn new(rx: Receiver<StatusData>) -> (r: StatusReader)
        ensures
            r.receiver() == rx,
            r.status_view() == Seq::<char>::empty(),
            r.progress_view() is None,
    {
        StatusReader { status: String::new(), progress: None, rx }
    }

    /// Takes in one report.
    pub fn apply(&mut self, d: StatusData)
        ensures
            (final(self).status_view(), final(self).progress_view()) == after_status(
                old(self).status_view(),
                old(self).progress_view(),
                d,
            ),
    {
        match d {
            StatusData::Message(s) => {
                self.progress = None;
                if !self.status.as_str().is_empty() {
                    self.status.append("\n");
                    proof {
                        reveal_strlit("\n");
                    }
                }
                self.status.append(s.as_str());
            },
            StatusData::Progress(p) => {
                self.progress = Some(p);
            },
        }
    }

    /// Takes in the next report if one is waiting, and gives the text
    /// received so far.
    pub fn recv(&mut self) -> (r: &str)
        ensures
            (final(self).status_view(), final(self).progress_view()) == (old(self).status_view(), old(self).progress_view())
                || exists|d: StatusData|
                (final(self).status_view(), final(self).progress_view()) == after_status(
                    old(self).status_view(),
                    old(self).progress_view(),
                    d,
                ),
            r@ == final(self).status_view(),
    {
        if let Some(d) = try_recv_status(&self.rx) {
            self.apply(d);
        }
        self.status.as_str()
    }
}

/// Where a worker sends its reports.
pub trait StatusWriterInterface {
    fn send(&self, s: StatusData) -> Result<(), SendError<StatusData>>;
}

/// A writer that drops every report.
pub struct NullStatusWriter;

impl StatusWriterInterface for NullStatusWriter {
    fn send(&self, s: StatusData) -> (r: Result<(), SendError<StatusData>>)
        ensures
            r is Ok,
    {
        Ok(())
    }
}

/// How many items pass between two progress reports over `max` items: a
/// hundredth of them, at least one.
pub fn progress_interval(max: usize) -> (r: usize)
    ensures
        r == (if max / 100 >= 1 {
            max / 100
        } else {
            1
        }),
        r >= 1,
{
    let h = max / 100;
    if h >= 1 {
        h
    } else {
        1
    }
}

/// Whether item `i` of `max` is one at which progress is reported.
pub fn progress_due(i: usize, max: usize) -> (r: bool)
    ensures
        r == (i % progress_interval_spec(max) == 0),
{
    i % progress_interval(max) == 0
}

pub open spec fn progress_interval_spec(max: usize) -> usize {
    if max / 100 >= 1 {
        (max / 100) as usize
    } else {
        1
    }
}


impl From<String> for StatusData {
    fn from(s: String) -> (r: StatusData)
        ensures
            r == StatusData::Message(s),
    {
        StatusData::Message(s)
    }
}

impl vstd::std_specs::convert::FromSpecImpl<String> for StatusData {
    open spec fn obeys_from_spec() -> bool {
        true
    }

    open spec fn from_spec(v: String) -> StatusData {
        StatusData::Message(v)
    }
}

impl From<Progress> for StatusData {
    fn from(p: Progress) -> (r: StatusData)
        ensures
            r == StatusData::Progress(p),
    {
        StatusData::Progress(p)
    }
}

impl vstd::std_specs::convert::FromSpecImpl<Progress> for StatusData {
    open spec fn obeys_from_spec() -> bool {
        true
    }

    open spec fn from_spec(v: Progress) -> StatusData {
        StatusData::Progress(v)
    }
}

} // verus!
