//! How a run is supervised: when the emulator's monitor is waited for, stopped
//! or taken at its word, and what ends a bay of boards and host programs.

use vstd::prelude::*;

use crate::bay::HostPort;
use crate::execution::{execution_faulted, faulted, tail_text};
use crate::output::{last_lines, tail};
use crate::text::{
    chars_of, join, lines, strip_prefix, trim, trim_chars, without_prefix, Text,
};

verus! {

/// How long the monitor may go on after it has refused a command.
pub const TRAILING_DETAILS_MS: u64 = 250;

/// How long the emulator's end may lag behind that of its terminals.
pub const EXIT_LAG_MS: u64 = 250;

/// How long the emulator may take to open the terminals of the host programs.
pub const TERMINAL_LIMIT_MS: u64 = 4000;

/// How long to wait before looking again.
pub const POLL_INTERVAL_MS: u64 = 25;

// ---------------------------------------------------------------------------
// The monitor
// ---------------------------------------------------------------------------

/// What is seen of the monitor at one moment.
#[derive(Clone, Copy, Debug, PartialEq, Eq, Structural)]
pub struct Glance {
    /// Milliseconds since the monitor was started.
    pub now: u64,
    pub ended: bool,
    /// It has printed that it refuses a command.
    pub refused: bool,
}

#[derive(Clone, Copy, Debug, PartialEq, Eq, Structural)]
pub enum MonitorAction {
    Wait,
    /// The monitor is to be stopped.
    Stop,
    /// It has ended by itself.
    Ended,
}

/// When the monitor was first seen to refuse a command.
#[derive(Clone, Copy, Debug, PartialEq, Eq, Structural)]
pub struct MonitorWatch {
    pub refused_at: Option<u64>,
}

impl MonitorWatch {
    pub open spec fn after(self, glance: Glance) -> MonitorWatch {
        if self.refused_at is None && glance.refused && !glance.ended {
            MonitorWatch { refused_at: Some(glance.now) }
        } else {
            self
        }
    }

    /// What follows when `glance` has been seen.
    pub open spec fn action(self, glance: Glance) -> MonitorAction {
        if glance.ended {
            MonitorAction::Ended
        } else {
            match self.refused_at {
                Some(at) => if glance.now >= at + TRAILING_DETAILS_MS {
                    MonitorAction::Stop
                } else {
                    MonitorAction::Wait
                },
                None => MonitorAction::Wait,
            }
        }
    }

    pub fn new() -> (res: MonitorWatch)
        ensures
            res.refused_at is None,
    {
        MonitorWatch { refused_at: None }
    }

    /// A monitor that has refused a command is stopped once its last details
    /// had their time.
    pub fn step(&mut self, glance: Glance) -> (res: MonitorAction)
        ensures
            *final(self) == old(self).after(glance),
            res == old(self).after(glance).action(glance),
    {
        if glance.ended {
            return MonitorAction::Ended;
        }
        if self.refused_at.is_none() && glance.refused {
            self.refused_at = Some(glance.now);
        }
        match self.refused_at {
            Some(at) => if glance.now >= at && glance.now - at >= TRAILING_DETAILS_MS {
                MonitorAction::Stop
            } else {
                MonitorAction::Wait
            },
            None => MonitorAction::Wait,
        }
    }
}

/// The watch after the first `count` glances.
pub open spec fn watched(glances: Seq<Glance>, count: int) -> MonitorWatch
    decreases count,
{
    if count <= 0 {
        MonitorWatch { refused_at: None }
    } else {
        watched(glances, count - 1).after(glances[count - 1])
    }
}

proof fn lemma_watched(glances: Seq<Glance>, first: int, count: int)
    requires
        0 <= count <= glances.len(),
        0 <= first,
        forall|k: int| 0 <= k < count ==> !(#[trigger] glances[k]).ended,
        forall|k: int| 0 <= k < count && k < first ==> !(#[trigger] glances[k]).refused,
        first < count ==> glances[first].refused,
    ensures
        watched(glances, count).refused_at == if first < count {
            Some(glances[first].now)
        } else {
            None
        },
    decreases count,
{
    if count > 0 {
        lemma_watched(glances, first, count - 1);
        assert(!glances[count - 1].ended);
        if count - 1 < first {
            assert(!glances[count - 1].refused);
        }
    }
}

/// A monitor that goes on after it has refused a command is stopped at the
/// first glance that comes 250 ms after the one that saw the refusal, and at
/// none before.
pub proof fn law_refusals_leave_time_for_details(glances: Seq<Glance>, first: int, at: int)
    requires
        0 <= first <= at < glances.len(),
        glances[first].refused,
        forall|k: int| 0 <= k < first ==> !(#[trigger] glances[k]).refused,
        forall|k: int| 0 <= k <= at ==> !(#[trigger] glances[k]).ended,
    ensures
        watched(glances, at + 1).action(glances[at]) == if glances[at].now >= glances[first].now
            + 250 {
            MonitorAction::Stop
        } else {
            MonitorAction::Wait
        },
{
    lemma_watched(glances, first, at + 1);
}

/// A monitor that has refused nothing is never stopped.
pub proof fn law_willing_monitors_run_on(glances: Seq<Glance>, at: int)
    requires
        0 <= at < glances.len(),
        forall|k: int| 0 <= k <= at ==> !(#[trigger] glances[k]).refused,
        forall|k: int| 0 <= k < at ==> !(#[trigger] glances[k]).ended,
    ensures
        watched(glances, at + 1).action(glances[at]) == if glances[at].ended {
            MonitorAction::Ended
        } else {
            MonitorAction::Wait
        },
{
    lemma_watched(glances, at, at);
}

/// Why what a monitor printed is not a run.
pub open spec fn transcript_error(
    output: Seq<char>,
    succeeded: bool,
    status: Seq<char>,
) -> Option<Seq<char>> {
    if !succeeded {
        Some("Renode failed ("@ + status + "):\n"@ + tail_text(output))
    } else if faulted(output) {
        Some("firmware execution faulted:\n"@ + tail_text(output))
    } else {
        None
    }
}

/// Judges everything that a monitor printed. `status` is how it ended.
pub fn judge_transcript(output: &str, succeeded: bool, status: &str) -> (res: Result<(), String>)
    ensures
        match transcript_error(output@, succeeded, status@) {
            Some(text) => res matches Err(error) && error@ == text,
            None => res is Ok,
        },
{
    if !succeeded {
        let last = tail(output, 80);
        return Err(
            Text::new("Renode failed (").str(status).str("):\n").str(last.as_str()).done(),
        );
    }
    if execution_faulted(output) {
        let last = tail(output, 80);
        return Err(Text::new("firmware execution faulted:\n").str(last.as_str()).done());
    }
    Ok(())
}

// ---------------------------------------------------------------------------
// A bay
// ---------------------------------------------------------------------------

/// What is seen of a bay at one moment.
#[derive(Clone, Copy, Debug, PartialEq, Eq, Structural)]
pub struct BayGlance {
    /// What follows from the monitor alone.
    pub monitor: MonitorAction,
    /// A host program has exited.
    pub host_exited: bool,
    /// A bridge that has ended.
    pub ended_bridge: Option<usize>,
}

#[derive(Clone, Copy, Debug, PartialEq, Eq, Structural)]
pub enum BayAction {
    WaitMillis(u64),
    /// The monitor is to be stopped; the run is judged by what it printed.
    Stop,
    /// The monitor has ended; the run is judged by what it printed.
    Finish,
    /// The run fails because this bridge ended.
    Fail(usize),
}

/// The bridge that was seen to end.
#[derive(Clone, Copy, Debug, PartialEq, Eq, Structural)]
pub struct BayWatch {
    pub ended_bridge: Option<usize>,
}

impl BayWatch {
    pub open spec fn after(self, glance: BayGlance) -> BayWatch {
        if glance.monitor is Wait && !glance.host_exited && self.ended_bridge is None {
            BayWatch { ended_bridge: glance.ended_bridge }
        } else {
            self
        }
    }

    /// What follows when `glance` is seen in this state.
    pub open spec fn action(self, glance: BayGlance) -> BayAction {
        match glance.monitor {
            MonitorAction::Ended => BayAction::Finish,
            MonitorAction::Stop => BayAction::Stop,
            MonitorAction::Wait => match self.ended_bridge {
                Some(bridge) => BayAction::Fail(bridge),
                None => if glance.host_exited {
                    BayAction::Stop
                } else if glance.ended_bridge is Some {
                    BayAction::WaitMillis(EXIT_LAG_MS)
                } else {
                    BayAction::WaitMillis(POLL_INTERVAL_MS)
                },
            },
        }
    }

    pub fn new() -> (res: BayWatch)
        ensures
            res.ended_bridge is None,
    {
        BayWatch { ended_bridge: None }
    }

    /// A host program that exits stops the run. A bridge that ends fails it,
    /// unless the emulator itself is about to end.
    pub fn step(&mut self, glance: BayGlance) -> (res: BayAction)
        ensures
            *final(self) == old(self).after(glance),
            res == old(self).action(glance),
    {
        match glance.monitor {
            MonitorAction::Ended => BayAction::Finish,
            MonitorAction::Stop => BayAction::Stop,
            MonitorAction::Wait => match self.ended_bridge {
                Some(bridge) => BayAction::Fail(bridge),
                None => {
                    if glance.host_exited {
                        return BayAction::Stop;
                    }
                    self.ended_bridge = glance.ended_bridge;
                    if glance.ended_bridge.is_some() {
                        BayAction::WaitMillis(EXIT_LAG_MS)
                    } else {
                        BayAction::WaitMillis(POLL_INTERVAL_MS)
                    }
                },
            },
        }
    }
}

/// A bridge that ends while the monitor and the hosts run on fails the run at
/// the next glance, 250 ms later, but for a monitor that has ended by itself
/// or refused a command in the meantime.
pub proof fn law_ended_bridges_fail_the_run(watch: BayWatch, first: BayGlance, next: BayGlance)
    requires
        watch.ended_bridge is None,
        first.monitor is Wait,
        !first.host_exited,
        first.ended_bridge is Some,
    ensures
        watch.action(first) == BayAction::WaitMillis(250),
        watch.after(first).action(next) == match next.monitor {
            MonitorAction::Wait => BayAction::Fail(first.ended_bridge->0),
            MonitorAction::Stop => BayAction::Stop,
            MonitorAction::Ended => BayAction::Finish,
        },
{
}

/// As long as the monitor, the hosts and the bridges run on, so does the bay.
pub proof fn law_running_bays_are_left_alone(watch: BayWatch, glance: BayGlance)
    requires
        watch.ended_bridge is None,
        glance.monitor is Wait,
        !glance.host_exited,
        glance.ended_bridge is None,
    ensures
        watch.action(glance) is WaitMillis,
        watch.after(glance) == watch,
{
}

/// How a bridge ended.
#[derive(Debug)]
pub enum BridgeEnd {
    Returned,
    Panicked,
    Failed(String),
}

impl BridgeEnd {
    pub open spec fn text(self, link: Seq<char>) -> Seq<char> {
        "Pico-Fi bridge "@ + link + match self {
            BridgeEnd::Returned => " ended"@,
            BridgeEnd::Panicked => " panicked"@,
            BridgeEnd::Failed(cause) => " failed: "@ + cause@,
        }
    }

    /// `link` is the link that the bridge served.
    pub fn message(&self, link: &str) -> (res: String)
        ensures
            res@ == self.text(link@),
    {
        let start = Text::new("Pico-Fi bridge ").str(link);
        match self {
            BridgeEnd::Returned => start.str(" ended").done(),
            BridgeEnd::Panicked => start.str(" panicked").done(),
            BridgeEnd::Failed(cause) => {
                let text = start.str(" failed: ").str(cause.as_str());
                assert(text@ =~= self.text(link@));
                text.done()
            },
        }
    }
}

/// Whether to wait for terminals that are not all there yet, `waited`
/// milliseconds after the wait began.
pub fn awaits_terminals(all_there: bool, monitor: MonitorAction, waited: u64) -> (res: bool)
    ensures
        res == (!all_there && monitor is Wait && waited < TERMINAL_LIMIT_MS),
        res == (!all_there && monitor is Wait && waited < 4000),
{
    !all_there && monitor == MonitorAction::Wait && waited < TERMINAL_LIMIT_MS
}

/// What is wrong with the first terminal, from `i` on, that is not there.
pub open spec fn terminal_error(ports: Seq<HostPort>, there: Seq<bool>, i: int) -> Option<Seq<char>>
    decreases ports.len() - i,
{
    if i < 0 || i >= ports.len() {
        None
    } else if !there[i] {
        Some("Renode did not create host UART PTY "@ + ports[i].pty@)
    } else {
        terminal_error(ports, there, i + 1)
    }
}

/// `there` says of each port whether its terminal exists.
pub fn check_terminals(ports: &[HostPort], there: &[bool]) -> (res: Result<(), String>)
    requires
        there@.len() == ports@.len(),
    ensures
        match terminal_error(ports@, there@, 0) {
            Some(text) => res matches Err(error) && error@ == text,
            None => res is Ok,
        },
{
    let mut i: usize = 0;
    while i < ports.len()
        invariant
            i <= ports@.len(),
            there@.len() == ports@.len(),
            terminal_error(ports@, there@, 0) == terminal_error(ports@, there@, i as int),
        decreases ports@.len() - i,
    {
        if !there[i] {
            return Err(
                Text::new("Renode did not create host UART PTY ").str(ports[i].pty.as_str()).done(),
            );
        }
        i = i + 1;
    }
    Ok(())
}

/// What a line of the monitor tells of a bay's progress.
pub open spec fn sample_text(line: Seq<char>) -> Option<Seq<char>> {
    match without_prefix(trim(line), "SEDS_BAY_SAMPLE_DONE "@) {
        Some(sample) => Some("[SIM] network sample "@ + sample + " complete"@),
        None => None,
    }
}

pub fn sample_progress(line: &str) -> (res: Option<String>)
    ensures
        match sample_text(line@) {
            Some(text) => res matches Some(told) && told@ == text,
            None => res is None,
        },
{
    let chars = chars_of(line);
    match strip_prefix(trim_chars(chars.as_slice()), "SEDS_BAY_SAMPLE_DONE ") {
        Some(sample) => Some(
            Text::new("[SIM] network sample ").chars(sample).str(" complete").done(),
        ),
        None => None,
    }
}

/// A run of the monitor counts exactly where it succeeded and its output says
/// nothing of a fault; else its last eighty lines are shown.
pub proof fn law_which_transcripts_count(output: Seq<char>, succeeded: bool, status: Seq<char>)
    ensures
        transcript_error(output, succeeded, status) is None <==> succeeded && !faulted(output),
        !succeeded ==> transcript_error(output, succeeded, status) == Some(
            "Renode failed ("@ + status + "):\n"@ + join(last_lines(lines(output), 80), "\n"@),
        ),
        succeeded && faulted(output) ==> transcript_error(output, succeeded, status) == Some(
            "firmware execution faulted:\n"@ + join(last_lines(lines(output), 80), "\n"@),
        ),
{
}

/// A host program that exits stops the bay, and a monitor that ends or refuses
/// a command ends it, whatever else is seen; a bay that runs on is looked at
/// again after 25 milliseconds.
pub proof fn law_what_ends_a_bay(watch: BayWatch, glance: BayGlance)
    ensures
        glance.monitor is Ended ==> watch.action(glance) == BayAction::Finish,
        glance.monitor is Stop ==> watch.action(glance) == BayAction::Stop,
        glance.monitor is Wait && watch.ended_bridge is None && glance.host_exited ==> watch.action(
            glance,
        ) == BayAction::Stop,
        glance.monitor is Wait && watch.ended_bridge is Some ==> watch.action(glance)
            == BayAction::Fail(watch.ended_bridge->0),
        watch.action(glance) is WaitMillis <==> glance.monitor is Wait && watch.ended_bridge is None
            && !glance.host_exited,
        watch.action(glance) is WaitMillis && glance.ended_bridge is None ==> watch.action(glance)
            == BayAction::WaitMillis(25),
        watch.after(glance).ended_bridge is Some && watch.ended_bridge is None ==> watch.after(
            glance,
        ).ended_bridge == glance.ended_bridge,
{
}

proof fn lemma_terminals(ports: Seq<HostPort>, there: Seq<bool>, from: int)
    requires
        0 <= from,
    ensures
        terminal_error(ports, there, from) is None <==> forall|i: int|
            #![trigger there[i]]
            from <= i < ports.len() ==> there[i],
        terminal_error(ports, there, from) matches Some(text) ==> exists|i: int|
            from <= i < ports.len() && !#[trigger] there[i] && (forall|k: int|
                from <= k < i ==> #[trigger] there[k]) && text
                == "Renode did not create host UART PTY "@ + ports[i].pty@,
    decreases ports.len() - from,
{
    if from < ports.len() {
        lemma_terminals(ports, there, from + 1);
        if there[from] && terminal_error(ports, there, from + 1) is Some {
            let text = terminal_error(ports, there, from + 1)->0;
            let i = choose|i: int|
                from + 1 <= i < ports.len() && !#[trigger] there[i] && (forall|k: int|
                    from + 1 <= k < i ==> #[trigger] there[k]) && text
                    == "Renode did not create host UART PTY "@ + ports[i].pty@;
            assert(from <= i && !there[i]);
        }
        if !there[from] {
            assert(terminal_error(ports, there, from) == Some(
                "Renode did not create host UART PTY "@ + ports[from].pty@,
            ));
        }
    }
}

/// Host programs start exactly where every terminal is there; else the first
/// that is missing is named.
pub proof fn law_hosts_wait_for_every_terminal(ports: Seq<HostPort>, there: Seq<bool>)
    ensures
        terminal_error(ports, there, 0) is None <==> forall|i: int|
            #![trigger there[i]]
            0 <= i < ports.len() ==> there[i],
        terminal_error(ports, there, 0) matches Some(text) ==> exists|i: int|
            0 <= i < ports.len() && !#[trigger] there[i] && (forall|k: int|
                0 <= k < i ==> #[trigger] there[k]) && text
                == "Renode did not create host UART PTY "@ + ports[i].pty@,
{
    lemma_terminals(ports, there, 0);
}

/// What follows the mark of a finished sample is what is told of it.
pub proof fn law_finished_samples_are_told(line: Seq<char>, sample: Seq<char>)
    ensures
        trim(line) == "SEDS_BAY_SAMPLE_DONE "@ + sample ==> sample_text(line) == Some(
            "[SIM] network sample "@ + sample + " complete"@,
        ),
        sample_text(line) is Some ==> exists|rest: Seq<char>|
            trim(line) == #[trigger] ("SEDS_BAY_SAMPLE_DONE "@ + rest),
{
    let mark = "SEDS_BAY_SAMPLE_DONE "@;
    let text = trim(line);
    if text == mark + sample {
        assert(text.subrange(0, mark.len() as int) =~= mark);
        assert(text.skip(mark.len() as int) =~= sample);
    }
    if sample_text(line) is Some {
        let rest = text.skip(mark.len() as int);
        assert(text =~= mark + rest) by {
            assert(text.subrange(0, mark.len() as int) == mark);
            assert(text =~= text.subrange(0, mark.len() as int) + rest);
        }
    }
}

} // verus!
