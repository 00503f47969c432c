//! Following a container's log, live.

use vstd::prelude::*;
use vstd::string::*;

use crate::k8s::pods::held;
use crate::time::Timestamp;

verus! {

/// How many lines of history to open a log with, before following whatever
/// is printed after.
///
/// A long-lived container can have megabytes of history the reader almost never
/// wants. A couple of screens' worth of recent context is enough to say what led
/// up to now.
pub const TAIL_LINES: i64 = 200;

/// How a container's log is opened.
#[derive(Debug, Clone, Default, PartialEq, Eq)]
pub struct LogParams {
    /// The container, where it is named.
    pub container: Option<String>,
    /// Whether to go on as the container prints.
    pub follow: bool,
    /// How many bytes to read at most.
    pub limit_bytes: Option<i64>,
    /// Whether the server should format its answer for a person.
    pub pretty: bool,
    /// Whether to read the log of the run before this one.
    pub previous: bool,
    /// How many seconds back to start.
    pub since_seconds: Option<i64>,
    /// When to start.
    pub since_time: Option<Timestamp>,
    /// How many lines back to start.
    pub tail_lines: Option<i64>,
    /// Whether each line carries the time it was printed.
    pub timestamps: bool,
}

/// The parameters one container's log is opened with: this container by
/// name, followed live, starting from [`TAIL_LINES`] lines of backlog.
#[must_use]
pub fn params(container: &str) -> (params: LogParams)
    ensures
        held(params.container) == Some(container@),
        params.follow,
        params.tail_lines == Some(TAIL_LINES),
        params.limit_bytes is None,
        !params.pretty,
        !params.previous,
        params.since_seconds is None,
        params.since_time is None,
        !params.timestamps,
{
    LogParams {
        container: Some(container.to_owned()),
        follow: true,
        limit_bytes: None,
        pretty: false,
        previous: false,
        since_seconds: None,
        since_time: None,
        tail_lines: Some(TAIL_LINES),
        timestamps: false,
    }
}

/// One piece of a container's log stream.
#[derive(Debug, Clone, PartialEq, Eq)]
pub enum LogEvent {
    /// One line of output.
    Line(String),
    /// The stream will not produce any more lines. `None` is a clean end, most
    /// often because the container has terminated. `Some` is a failure, in
    /// words.
    Ended(Option<String>),
}

} // verus!
