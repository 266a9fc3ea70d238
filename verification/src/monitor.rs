//! The configuration and the decision logic of the website monitor: work
//! items, the worker protocol, result collection, statuses and the report.
use vstd::prelude::*;
use std::time::Duration;
use vstd::utf8::{encode_utf8, is_char_boundary};
use vstd::string::StringExecFns;
use crate::text::{chars_of, decimal, lines_of, push_char, push_decimal, split_lines, string_of, trim, trim_str};

verus! {

/// What `Duration::from_secs` returns for a number of whole seconds.
pub uninterp spec fn duration_from_secs(secs: u64) -> Duration;

/// `Duration::from_secs` builds the duration of `secs` whole seconds; it never
/// panics. The contract ties the result to the argument by name only.
pub assume_specification[ core::time::Duration::from_secs ](secs: u64) -> (d: Duration)
    ensures
        d == duration_from_secs(secs),
;

/// How the monitor runs: the number of worker threads, the timeout of one
/// request, and how many retries a failed check is allowed.
#[derive(Debug, Clone, Copy)]
pub struct Config {
    pub worker_threads: usize,
    pub request_timeout: Duration,
    pub max_retries: u32,
}

impl Default for Config {
    /// Ten workers, a five second timeout and three retries.
    fn default() -> (c: Self)
        ensures
            c.worker_threads == 10,
            c.request_timeout == duration_from_secs(5),
            c.max_retries == 3,
    {
        Config { worker_threads: 10, request_timeout: Duration::from_secs(5), max_retries: 3 }
    }
}

/// Checks websites with the settings of a `Config`.
pub struct WebsiteMonitor {
    config: Config,
}

/// One website still to check, with the number of retries it is allowed.
pub struct WorkItem {
    pub url: String,
    pub retries_left: u32,
}

impl WebsiteMonitor {
    /// The settings the monitor was made with.
    pub closed spec fn spec_config(&self) -> Config {
        self.config
    }

    /// A monitor that works with `config`.
    pub fn new(config: Config) -> (m: Self)
        ensures
            m.spec_config() == config,
    {
        WebsiteMonitor { config }
    }

    /// The settings the monitor was made with.
    pub fn config(&self) -> (c: &Config)
        ensures
            *c == self.spec_config(),
    {
        &self.config
    }

    /// One work item per URL, in the same order, each allowed the configured
    /// number of retries.
    pub fn work_items(&self, urls: Vec<String>) -> (items: Vec<WorkItem>)
        ensures
            items.len() == urls.len(),
            forall|i: int|
                0 <= i < urls.len() ==> (#[trigger] items[i]).url == urls[i]
                    && items[i].retries_left == self.spec_config().max_retries,
    {
        let n = urls.len();
        let mut items: Vec<WorkItem> = Vec::new();
        for i in 0..n
            invariant
                n == urls.len(),
                items.len() == i,
                forall|j: int|
                    0 <= j < i ==> (#[trigger] items[j]).url == urls[j]
                        && items[j].retries_left == self.spec_config().max_retries,
        {
            items.push(WorkItem { url: urls[i].clone(), retries_left: self.config.max_retries });
        }
        items
    }
}


/// Where a worker stands.
pub enum WorkerState {
    /// Waiting for the next work item.
    Idle,
    /// Checking `item`; `retried` tells whether this is the second check.
    Checking { item: WorkItem, retried: bool },
    /// Handing the result of the last check back.
    Reporting,
    /// Done: the worker exits.
    Stopped,
}

/// What happened since the worker's last action.
pub enum WorkerEvent {
    /// A work item was taken from the queue.
    ItemArrived(WorkItem),
    /// The queue is closed and empty.
    QueueClosed,
    /// The queue could not be reached (its lock is poisoned).
    QueueUnavailable,
    /// A check of the current item finished; `failed` tells whether its
    /// status is an error.
    CheckDone { failed: bool },
    /// The result was handed back.
    ReportSent,
    /// The result could not be handed back.
    ReportFailed,
}

/// What the worker does next.
pub enum WorkerAction {
    /// Take the next work item from the queue.
    AwaitItem,
    /// Check the website at `url`.
    Check { url: String },
    /// Wait `pause_ms` milliseconds, then check the website at `url` again.
    PauseThenCheck { url: String, pause_ms: u64 },
    /// Hand back the result of the last check.
    Report,
    /// Exit.
    Stop,
}

/// How long a worker waits before it checks a failed website again.
pub const RETRY_PAUSE_MS: u64 = 100;

/// One step of a worker: an item is checked once, and once more after a
/// pause when the first check failed and the item has retries left; then its
/// result is reported and the worker waits for the next item. A closed or
/// unreachable queue, a failed report, and any event the state does not
/// expect stop the worker.
pub open spec fn worker_step(state: WorkerState, event: WorkerEvent) -> (WorkerState, WorkerAction) {
    match state {
        WorkerState::Idle => match event {
            WorkerEvent::ItemArrived(item) => (
                WorkerState::Checking { item: item, retried: false },
                WorkerAction::Check { url: item.url },
            ),
            _ => (WorkerState::Stopped, WorkerAction::Stop),
        },
        WorkerState::Checking { item, retried } => match event {
            WorkerEvent::CheckDone { failed } => if failed && !retried && item.retries_left > 0 {
                (
                    WorkerState::Checking { item: item, retried: true },
                    WorkerAction::PauseThenCheck { url: item.url, pause_ms: RETRY_PAUSE_MS },
                )
            } else {
                (WorkerState::Reporting, WorkerAction::Report)
            },
            _ => (WorkerState::Stopped, WorkerAction::Stop),
        },
        WorkerState::Reporting => match event {
            WorkerEvent::ReportSent => (WorkerState::Idle, WorkerAction::AwaitItem),
            _ => (WorkerState::Stopped, WorkerAction::Stop),
        },
        WorkerState::Stopped => (WorkerState::Stopped, WorkerAction::Stop),
    }
}

impl WorkerState {
    /// The state of a worker that has just started, and what it does first.
    pub fn start() -> (r: (WorkerState, WorkerAction))
        ensures
            r == (WorkerState::Idle, WorkerAction::AwaitItem),
    {
        (WorkerState::Idle, WorkerAction::AwaitItem)
    }

    /// The next state and action after `event`.
    pub fn step(self, event: WorkerEvent) -> (r: (WorkerState, WorkerAction))
        ensures
            r == worker_step(self, event),
    {
        match self {
            WorkerState::Idle => match event {
                WorkerEvent::ItemArrived(item) => {
                    let url = item.url.clone();
                    (WorkerState::Checking { item, retried: false }, WorkerAction::Check { url })
                },
                _ => (WorkerState::Stopped, WorkerAction::Stop),
            },
            WorkerState::Checking { item, retried } => match event {
                WorkerEvent::CheckDone { failed } => {
                    if failed && !retried && item.retries_left > 0 {
                        let url = item.url.clone();
                        (
                            WorkerState::Checking { item, retried: true },
                            WorkerAction::PauseThenCheck { url, pause_ms: RETRY_PAUSE_MS },
                        )
                    } else {
                        (WorkerState::Reporting, WorkerAction::Report)
                    }
                },
                _ => (WorkerState::Stopped, WorkerAction::Stop),
            },
            WorkerState::Reporting => match event {
                WorkerEvent::ReportSent => (WorkerState::Idle, WorkerAction::AwaitItem),
                _ => (WorkerState::Stopped, WorkerAction::Stop),
            },
            WorkerState::Stopped => (WorkerState::Stopped, WorkerAction::Stop),
        }
    }

    /// Whether the worker has stopped.
    pub fn is_stopped(&self) -> (b: bool)
        ensures
            b == (*self is Stopped),
    {
        match self {
            WorkerState::Stopped => true,
            _ => false,
        }
    }
}

/// An idle worker that receives an item checks it, checks it a second time
/// only when the first check failed and the item has retries left, and then
/// reports exactly once and becomes idle again once the report is sent.
pub proof fn lemma_one_report_per_item(item: WorkItem, first_failed: bool, second_failed: bool)
    ensures
        ({
            let (s1, a1) = worker_step(WorkerState::Idle, WorkerEvent::ItemArrived(item));
            let (s2, a2) = worker_step(s1, WorkerEvent::CheckDone { failed: first_failed });
            &&& a1 == WorkerAction::Check { url: item.url }
            &&& if first_failed && item.retries_left > 0 {
                &&& a2 == WorkerAction::PauseThenCheck { url: item.url, pause_ms: RETRY_PAUSE_MS }
                &&& worker_step(s2, WorkerEvent::CheckDone { failed: second_failed }) == (
                    WorkerState::Reporting,
                    WorkerAction::Report,
                )
            } else {
                (s2, a2) == (WorkerState::Reporting, WorkerAction::Report)
            }
        }),
        worker_step(WorkerState::Reporting, WorkerEvent::ReportSent) == (
            WorkerState::Idle,
            WorkerAction::AwaitItem,
        ),
{
}

/// A stopped worker stays stopped whatever happens.
pub proof fn lemma_stopped_is_final(event: WorkerEvent)
    ensures
        worker_step(WorkerState::Stopped, event) == (WorkerState::Stopped, WorkerAction::Stop),
{
}


/// The state a worker ends in, starting in `state`, and the actions it
/// takes, one per event, as `events` come in one by one.
pub open spec fn worker_run(state: WorkerState, events: Seq<WorkerEvent>) -> (
    WorkerState,
    Seq<WorkerAction>,
)
    decreases events.len(),
{
    if events.len() == 0 {
        (state, Seq::empty())
    } else {
        let first = worker_step(state, events[0]);
        let rest = worker_run(first.0, events.drop_first());
        (rest.0, seq![first.1] + rest.1)
    }
}

/// How many of `actions` report a result.
pub open spec fn report_count(actions: Seq<WorkerAction>) -> nat
    decreases actions.len(),
{
    if actions.len() == 0 {
        0
    } else {
        report_count(actions.drop_last()) + if actions.last() is Report {
            1nat
        } else {
            0nat
        }
    }
}

/// What an idle worker sees while it handles `item`: the item arrives, the
/// first check ends (failed or not), a second check ends when the worker
/// asked for one, and the report is sent.
pub open spec fn item_events(item: WorkItem, first_failed: bool, second_failed: bool) -> Seq<
    WorkerEvent,
> {
    if first_failed && item.retries_left > 0 {
        seq![
            WorkerEvent::ItemArrived(item),
            WorkerEvent::CheckDone { failed: first_failed },
            WorkerEvent::CheckDone { failed: second_failed },
            WorkerEvent::ReportSent,
        ]
    } else {
        seq![
            WorkerEvent::ItemArrived(item),
            WorkerEvent::CheckDone { failed: first_failed },
            WorkerEvent::ReportSent,
        ]
    }
}

/// What a worker sees while it handles the first `n` of `items` in turn,
/// the checks of item `i` failing as `first_failed[i]` and `second_failed[i]` say.
pub open spec fn session_events(
    items: Seq<WorkItem>,
    first_failed: Seq<bool>,
    second_failed: Seq<bool>,
    n: nat,
) -> Seq<WorkerEvent>
    decreases n,
{
    if n == 0 {
        Seq::empty()
    } else {
        session_events(items, first_failed, second_failed, (n - 1) as nat) + item_events(
            items[n - 1],
            first_failed[n - 1],
            second_failed[n - 1],
        )
    }
}

proof fn lemma_worker_run_concat(state: WorkerState, a: Seq<WorkerEvent>, b: Seq<WorkerEvent>)
    ensures
        worker_run(state, a + b) == (
            worker_run(worker_run(state, a).0, b).0,
            worker_run(state, a).1 + worker_run(worker_run(state, a).0, b).1,
        ),
    decreases a.len(),
{
    if a.len() == 0 {
        assert(a + b == b);
    } else {
        let first = worker_step(state, a[0]);
        lemma_worker_run_concat(first.0, a.drop_first(), b);
        assert((a + b).drop_first() == a.drop_first() + b);
        assert((a + b)[0] == a[0]);
        let r = worker_run(first.0, a.drop_first());
        let t = worker_run(r.0, b);
        assert(seq![first.1] + (r.1 + t.1) == (seq![first.1] + r.1) + t.1);
    }
}

proof fn lemma_report_count_concat(a: Seq<WorkerAction>, b: Seq<WorkerAction>)
    ensures
        report_count(a + b) == report_count(a) + report_count(b),
    decreases b.len(),
{
    if b.len() == 0 {
        assert(a + b == a);
    } else {
        lemma_report_count_concat(a, b.drop_last());
        assert((a + b).drop_last() == a + b.drop_last());
        assert((a + b).last() == b.last());
    }
}

proof fn lemma_item_run(item: WorkItem, first_failed: bool, second_failed: bool)
    ensures
        worker_run(WorkerState::Idle, item_events(item, first_failed, second_failed)).0
            == WorkerState::Idle,
        report_count(worker_run(WorkerState::Idle, item_events(item, first_failed, second_failed)).1)
            == 1,
{
    let evs = item_events(item, first_failed, second_failed);
    reveal_with_fuel(worker_run, 5);
    reveal_with_fuel(report_count, 5);
    let acts = worker_run(WorkerState::Idle, evs).1;
    if first_failed && item.retries_left > 0 {
        assert(acts =~= seq![
            WorkerAction::Check { url: item.url },
            WorkerAction::PauseThenCheck { url: item.url, pause_ms: RETRY_PAUSE_MS },
            WorkerAction::Report,
            WorkerAction::AwaitItem,
        ]);
    } else {
        assert(acts =~= seq![
            WorkerAction::Check { url: item.url },
            WorkerAction::Report,
            WorkerAction::AwaitItem,
        ]);
    }
}

/// A worker that handles a run of items, whatever the outcome of each
/// check, reports exactly once per item and is idle again at the end.
pub proof fn lemma_one_report_per_item_in_session(
    items: Seq<WorkItem>,
    first_failed: Seq<bool>,
    second_failed: Seq<bool>,
    n: nat,
)
    requires
        n <= items.len(),
        n <= first_failed.len(),
        n <= second_failed.len(),
    ensures
        worker_run(WorkerState::Idle, session_events(items, first_failed, second_failed, n)).0
            == WorkerState::Idle,
        report_count(
            worker_run(WorkerState::Idle, session_events(items, first_failed, second_failed, n)).1,
        ) == n,
    decreases n,
{
    if n == 0 {
        assert(session_events(items, first_failed, second_failed, n) == Seq::<WorkerEvent>::empty());
    } else {
        let m = (n - 1) as nat;
        lemma_one_report_per_item_in_session(items, first_failed, second_failed, m);
        let a = session_events(items, first_failed, second_failed, m);
        let b = item_events(items[m as int], first_failed[m as int], second_failed[m as int]);
        lemma_worker_run_concat(WorkerState::Idle, a, b);
        lemma_item_run(items[m as int], first_failed[m as int], second_failed[m as int]);
        lemma_report_count_concat(worker_run(WorkerState::Idle, a).1, worker_run(WorkerState::Idle, b).1);
    }
}

/// How an HTTP request ended.
pub enum RequestOutcome {
    /// A response with a success status code arrived.
    Response(u16),
    /// A response with an error status code (4xx, 5xx) arrived.
    ErrorStatus(u16),
    /// No response: the transport failed; the text describes the failure.
    Transport(String),
}

/// The status recorded for a request that ended with `outcome`: the status
/// code of any response, error statuses included, and otherwise a transport
/// error message.
pub open spec fn outcome_status(outcome: RequestOutcome) -> Result<u16, Seq<char>> {
    match outcome {
        RequestOutcome::Response(code) => Ok(code),
        RequestOutcome::ErrorStatus(code) => Ok(code),
        RequestOutcome::Transport(message) => Err("Transport error: "@ + message@),
    }
}

/// The view of a recorded status: the code, or the error text.
pub open spec fn status_view(status: Result<u16, String>) -> Result<u16, Seq<char>> {
    match status {
        Ok(code) => Ok(code),
        Err(e) => Err(e@),
    }
}

/// The status recorded for a request that ended with `outcome`.
pub fn status_of(outcome: RequestOutcome) -> (status: Result<u16, String>)
    ensures
        status_view(status) == outcome_status(outcome),
{
    match outcome {
        RequestOutcome::Response(code) => Ok(code),
        RequestOutcome::ErrorStatus(code) => Ok(code),
        RequestOutcome::Transport(message) => {
            let mut text = String::from_str("Transport error: ");
            text.append(message.as_str());
            Err(text)
        },
    }
}

/// The status column of a result: the status code in decimal, or `ERROR`.
pub fn status_display(status: &Result<u16, String>) -> (text: String)
    ensures
        text@ == match status {
            Ok(code) => decimal(*code as nat),
            Err(_) => "ERROR"@,
        },
{
    match status {
        Ok(code) => {
            let mut digits: Vec<char> = Vec::new();
            push_decimal(&mut digits, *code);
            string_of(digits.as_slice())
        },
        Err(_) => String::from_str("ERROR"),
    }
}

/// The longest error text, in bytes, that is shown in full.
pub const ERROR_DISPLAY_LIMIT: usize = 45;

/// How many bytes of a longer error text are shown before `...`.
pub const ERROR_DISPLAY_KEEP: usize = 42;

/// UTF-8 encoding is compatible with concatenation.
pub proof fn lemma_encode_utf8_concat(a: Seq<char>, b: Seq<char>)
    ensures
        encode_utf8(a + b) == encode_utf8(a) + encode_utf8(b),
    decreases a.len(),
{
    if a.len() > 0 {
        lemma_encode_utf8_concat(a.drop_first(), b);
        assert((a + b).drop_first() == a.drop_first() + b);
        assert((a + b)[0] == a[0]);
    } else {
        assert(a + b == b);
    }
}

/// The error column of a result: `None` for a status code; an error text of
/// at most 45 bytes in full; a longer one cut after its first 42 bytes and
/// followed by `...`. A longer text whose 42nd byte ends inside a character
/// is left out (it cannot be cut there).
pub fn error_display(status: &Result<u16, String>) -> (text: String)
    requires
        status matches Err(e) ==> (encode_utf8(e@).len() > ERROR_DISPLAY_LIMIT ==> is_char_boundary(
            encode_utf8(e@),
            ERROR_DISPLAY_KEEP as int,
        )),
    ensures
        match status {
            Ok(_) => text@ == "None"@,
            Err(e) => if encode_utf8(e@).len() > ERROR_DISPLAY_LIMIT {
                &&& text@.len() >= 3
                &&& text@.skip(text@.len() - 3) == seq!['.', '.', '.']
                &&& encode_utf8(text@.take(text@.len() - 3)) == encode_utf8(e@).take(
                    ERROR_DISPLAY_KEEP as int,
                )
            } else {
                text@ == e@
            },
        },
        encode_utf8(text@).len() <= ERROR_DISPLAY_LIMIT,
{
    match status {
        Ok(_) => {
            let text = String::from_str("None");
            proof {
                reveal_strlit("None");
                reveal_with_fuel(encode_utf8, 5);
            }
            text
        },
        Err(e) => {
            if e.as_str().as_bytes().len() > ERROR_DISPLAY_LIMIT {
                let (head, _) = e.as_str().split_at(ERROR_DISPLAY_KEEP);
                let mut text = String::from_str(head);
                let ghost kept = text@;
                push_char(&mut text, '.');
                push_char(&mut text, '.');
                push_char(&mut text, '.');
                proof {
                    let dots = seq!['.', '.', '.'];
                    assert(text@ == kept + dots);
                    assert(text@.take(text@.len() - 3) == kept);
                    assert(text@.skip(text@.len() - 3) == dots);
                    lemma_encode_utf8_concat(kept, dots);
                    reveal_with_fuel(encode_utf8, 4);
                    assert(encode_utf8(dots).len() == 3);
                }
                text
            } else {
                e.clone()
            }
        },
    }
}

/// How many of `statuses` are status codes.
pub open spec fn count_ok(statuses: Seq<Result<u16, String>>) -> nat
    decreases statuses.len(),
{
    if statuses.len() == 0 {
        0
    } else {
        count_ok(statuses.drop_last()) + if statuses.last() is Ok {
            1nat
        } else {
            0nat
        }
    }
}

/// Totals of a monitoring run.
pub struct Summary {
    pub total: usize,
    pub successful: usize,
    pub failed: usize,
}

/// The totals of a run: how many websites were checked, how many gave a
/// status code, and how many failed.
pub fn summarize(statuses: &Vec<Result<u16, String>>) -> (s: Summary)
    ensures
        s.total == statuses.len(),
        s.successful == count_ok(statuses@),
        s.failed == statuses.len() - count_ok(statuses@),
        s.successful + s.failed == s.total,
{
    let n = statuses.len();
    let mut ok: usize = 0;
    for i in 0..n
        invariant
            n == statuses.len(),
            ok == count_ok(statuses@.take(i as int)),
            ok <= i,
    {
        assert(statuses@.take(i + 1).drop_last() == statuses@.take(i as int));
        if statuses[i].is_ok() {
            ok = ok + 1;
        }
    }
    assert(statuses@.take(n as int) == statuses@);
    Summary { total: n, successful: ok, failed: n - ok }
}


/// The URLs listed in `lines`: each line trimmed, blank lines and lines
/// starting with `#` left out.
pub open spec fn url_lines(lines: Seq<Seq<char>>) -> Seq<Seq<char>>
    decreases lines.len(),
{
    if lines.len() == 0 {
        Seq::empty()
    } else {
        let prev = url_lines(lines.drop_last());
        let t = trim(lines.last());
        if t.len() > 0 && t[0] != '#' {
            prev.push(t)
        } else {
            prev
        }
    }
}

/// No listed URL is empty or starts with `#`.
pub proof fn lemma_url_lines_wellformed(lines: Seq<Seq<char>>)
    ensures
        forall|i: int|
            0 <= i < url_lines(lines).len() ==> (#[trigger] url_lines(lines)[i]).len() > 0
                && url_lines(lines)[i][0] != '#',
    decreases lines.len(),
{
    if lines.len() > 0 {
        let prev = url_lines(lines.drop_last());
        lemma_url_lines_wellformed(lines.drop_last());
        assert forall|i: int| 0 <= i < url_lines(lines).len() implies (#[trigger] url_lines(
            lines,
        )[i]).len() > 0 && url_lines(lines)[i][0] != '#' by {
            if i < prev.len() {
                assert(url_lines(lines)[i] == prev[i]);
            }
        }
    }
}

/// Any response is recorded as its status code, whatever the code (2xx, 3xx,
/// 4xx or 5xx); a transport failure is recorded as the error text
/// `"Transport error: "` followed by the failure message.
pub proof fn lemma_responses_are_statuses(code: u16, message: String)
    ensures
        outcome_status(RequestOutcome::Response(code)) == Ok::<u16, Seq<char>>(code),
        outcome_status(RequestOutcome::ErrorStatus(code)) == Ok::<u16, Seq<char>>(code),
        outcome_status(RequestOutcome::Transport(message)) == Err::<u16, Seq<char>>(
            "Transport error: "@ + message@,
        ),
{
}

/// A status is an error exactly when no response came: the transport failed.
pub proof fn lemma_error_only_for_transport(outcome: RequestOutcome)
    ensures
        outcome_status(outcome) is Err <==> outcome is Transport,
        outcome_status(outcome) is Ok ==> (outcome matches RequestOutcome::Response(c)
            && outcome_status(outcome) == Ok::<u16, Seq<char>>(c)) || (
        outcome matches RequestOutcome::ErrorStatus(c) && outcome_status(outcome) == Ok::<
            u16,
            Seq<char>,
        >(c)),
{
}

/// The listed URLs are exactly the trimmed lines, in their order, that are
/// not empty and do not start with `#`; what follows the first character of
/// a line never matters.
pub proof fn lemma_url_lines_are_kept_lines(lines: Seq<Seq<char>>)
    ensures
        url_lines(lines) == lines.map_values(|l: Seq<char>| trim(l)).filter(
            |t: Seq<char>| t.len() > 0 && t[0] != '#',
        ),
    decreases lines.len(),
{
    reveal(Seq::filter);
    let keep = |t: Seq<char>| t.len() > 0 && t[0] != '#';
    let trimmed = lines.map_values(|l: Seq<char>| trim(l));
    if lines.len() > 0 {
        lemma_url_lines_are_kept_lines(lines.drop_last());
        assert(trimmed.drop_last() == lines.drop_last().map_values(|l: Seq<char>| trim(l)));
        assert(trimmed.last() == trim(lines.last()));
    } else {
        assert(trimmed.len() == 0);
    }
}

impl WebsiteMonitor {
    /// The URLs listed in the text of a URL file: one per line, surrounding
    /// white space removed, blank lines and `#` comment lines skipped.
    pub fn parse_url_list(content: &str) -> (urls: Vec<String>)
        ensures
            urls.deep_view() == url_lines(lines_of(content@)),
            forall|i: int|
                0 <= i < urls.len() ==> (#[trigger] urls@[i])@.len() > 0 && urls@[i]@[0] != '#',
    {
        let lines = split_lines(content);
        let ghost ls = lines.deep_view();
        let n = lines.len();
        let mut urls: Vec<String> = Vec::new();
        for i in 0..n
            invariant
                n == lines.len() == ls.len(),
                ls == lines.deep_view(),
                urls.deep_view() == url_lines(ls.take(i as int)),
        {
            assert(ls.take(i + 1).drop_last() == ls.take(i as int));
            assert(ls[i as int] == lines@[i as int]@);
            let t = trim_str(lines[i].as_str());
            let tc = chars_of(t.as_str());
            if tc.len() > 0 && tc[0] != '#' {
                urls.push(t);
            }
        }
        assert(ls.take(n as int) == ls);
        proof {
            lemma_url_lines_wellformed(ls);
            assert forall|i: int| 0 <= i < urls.len() implies (#[trigger] urls@[i])@.len() > 0
                && urls@[i]@[0] != '#' by {
                assert(urls.deep_view()[i] == urls@[i]@);
            }
        }
        urls
    }
}

/// Gathers the results of a run until as many as expected have come in.
pub struct ResultCollector<T> {
    expected: usize,
    results: Vec<T>,
}

impl<T> ResultCollector<T> {
    /// Never more results than expected.
    #[verifier::type_invariant]
    closed spec fn inv(self) -> bool {
        self.results.len() <= self.expected
    }

    /// The number of results expected.
    pub closed spec fn spec_expected(self) -> nat {
        self.expected as nat
    }

    /// The results gathered so far, in the order they came in.
    pub closed spec fn spec_results(self) -> Seq<T> {
        self.results@
    }

    /// A collector that expects `expected` results and holds none.
    pub fn new(expected: usize) -> (c: Self)
        ensures
            c.spec_expected() == expected,
            c.spec_results() == Seq::<T>::empty(),
    {
        ResultCollector { expected, results: Vec::new() }
    }

    /// Whether fewer results than expected have come in.
    pub fn wants_more(&self) -> (b: bool)
        ensures
            b == (self.spec_results().len() < self.spec_expected()),
    {
        self.results.len() < self.expected
    }

    /// Takes in one more result; it must still be wanted.
    pub fn add(&mut self, result: T)
        requires
            old(self).spec_results().len() < old(self).spec_expected(),
        ensures
            final(self).spec_expected() == old(self).spec_expected(),
            final(self).spec_results() == old(self).spec_results().push(result),
    {
        proof {
            use_type_invariant(&*self);
        }
        let mut results: Vec<T> = Vec::new();
        std::mem::swap(&mut results, &mut self.results);
        results.push(result);
        self.results = results;
    }

    /// The results gathered, never more than expected.
    pub fn into_results(self) -> (results: Vec<T>)
        ensures
            results@ == self.spec_results(),
            results.len() <= self.spec_expected(),
    {
        proof {
            use_type_invariant(&self);
        }
        self.results
    }
}

/// The total of `millis[i]` over the positions `i` whose status is a status code.
pub open spec fn ok_millis_total(statuses: Seq<Result<u16, String>>, millis: Seq<u128>) -> nat
    decreases statuses.len(),
{
    if statuses.len() == 0 {
        0
    } else {
        ok_millis_total(statuses.drop_last(), millis.take(statuses.len() - 1)) + if statuses.last() is Ok {
            millis[statuses.len() - 1] as nat
        } else {
            0nat
        }
    }
}

/// For the average response time of a run: how many checks gave a status
/// code, and the total of their response times in milliseconds (`millis[i]`
/// belongs to `statuses[i]`), or `None` if that total does not fit in a `u128`.
pub fn successful_time_total(statuses: &Vec<Result<u16, String>>, millis: &Vec<u128>) -> (r: (
    usize,
    Option<u128>,
))
    requires
        statuses.len() == millis.len(),
    ensures
        r.0 == count_ok(statuses@),
        r.1 == if ok_millis_total(statuses@, millis@) <= u128::MAX {
            Some(ok_millis_total(statuses@, millis@) as u128)
        } else {
            None
        },
{
    let n = statuses.len();
    let mut count: usize = 0;
    let mut total: u128 = 0;
    let mut too_big = false;
    for i in 0..n
        invariant
            n == statuses.len() == millis.len(),
            count == count_ok(statuses@.take(i as int)),
            count <= i,
            !too_big ==> total == ok_millis_total(statuses@.take(i as int), millis@.take(i as int)),
            too_big ==> ok_millis_total(statuses@.take(i as int), millis@.take(i as int))
                > u128::MAX,
    {
        assert(statuses@.take(i + 1).drop_last() == statuses@.take(i as int));
        assert(millis@.take(i + 1).take(i as int) == millis@.take(i as int));
        if statuses[i].is_ok() {
            count = count + 1;
            let m = millis[i];
            if !too_big {
                if total > u128::MAX - m {
                    too_big = true;
                } else {
                    total = total + m;
                }
            }
        }
    }
    assert(statuses@.take(n as int) == statuses@);
    assert(millis@.take(n as int) == millis@);
    if too_big {
        (count, None)
    } else {
        (count, Some(total))
    }
}

} // verus!
