//! Certifying a linked bay: what the emulator and the host programs must have
//! shown when a run is over.

use vstd::prelude::*;

use crate::bay::{
    boot_marker, has_host, is_host, render_boot_marker, AssertionReport, BayReport, BayTopology,
    EndpointReport, HostLogAssertion, LinkReport, NetworkAssertion, NodeBoard,
};
use crate::execution::{command_error, command_failed};
use crate::layout::{ExecutionConfig, MemoryProbe};
use crate::output::{
    last_lines, lines_of, marker_shown, observed_marker, pairs_with_prefix, prefixed_pairs, tail,
};
use crate::probes::{
    falls_below, floor_sinks, greatest, law_each_broken_limit_is_told, law_extremes, least,
    limit_failures, list_text, node_error, node_failures, node_reports, node_samples, observations,
    parse_memory_profiles, qualified, rises_above, MemoryProbeReport, NodeProbeError,
};
use crate::roster::{
    entry, in_order, law_entries_are_found_again, law_names_stay_in_order, lemma_same_position, lemma_same_rank, rank, same_names, with_entry, Roster,
};
use crate::text::{
    chars_of, contains, dec, has_text, hex8, join, join_rows, join_texts, lines, lower, lower_chars,
    opt_text, rows, same_chars, same_text, texts, trim, trim_chars, Text,
};

verus! {

// ---------------------------------------------------------------------------
// Host programs
// ---------------------------------------------------------------------------

/// What is left of a host program when the emulator has stopped.
#[derive(Debug)]
pub struct HostRun {
    pub name: String,
    /// Its status, where it exited before the emulator did.
    pub exit: Option<String>,
    /// Its standard output, and then its standard error.
    pub output: String,
}

pub open spec fn exit_text(run: HostRun, status: Seq<char>) -> Seq<char> {
    "host node "@ + run.name@ + " exited early with "@ + status
        + "; verify its serial-port and layout configuration\n"@ + join(
        last_lines(lines(run.output@), 30),
        "\n"@,
    )
}

/// What there is to say of the first `end` host programs that exited early.
pub open spec fn exits(runs: Seq<HostRun>, end: int) -> Seq<Seq<char>>
    decreases end,
{
    if end <= 0 {
        Seq::empty()
    } else {
        match runs[end - 1].exit {
            Some(status) => exits(runs, end - 1).push(exit_text(runs[end - 1], status@)),
            None => exits(runs, end - 1),
        }
    }
}

/// A host program's output, without its middle where it is long.
pub open spec fn diagnostic_text(output: Seq<char>) -> Seq<char> {
    let all = lines(output);
    if all.len() <= 120 {
        join(all, "\n"@)
    } else {
        ""@ + join(all.take(60), "\n"@) + "\n... "@ + dec((all.len() - 120) as nat)
            + " host log lines omitted ...\n"@ + join(all.skip(all.len() - 60), "\n"@)
    }
}

/// The first `end` host programs by name. Of two with one name the later one
/// stays.
pub open spec fn hosts_by_name(runs: Seq<HostRun>, end: int) -> Seq<(Seq<char>, usize)>
    decreases end,
{
    if end <= 0 {
        Seq::empty()
    } else {
        with_entry(hosts_by_name(runs, end - 1), runs[end - 1].name@, (end - 1) as usize)
    }
}

pub open spec fn host_details(runs: Seq<HostRun>) -> Seq<Seq<char>> {
    let ordered = hosts_by_name(runs, runs.len() as int);
    Seq::new(
        ordered.len(),
        |i: int| ""@ + ordered[i].0 + ":\n"@ + diagnostic_text(runs[ordered[i].1 as int].output@),
    )
}

pub open spec fn host_detail(runs: Seq<HostRun>) -> Seq<char> {
    join(host_details(runs), "\n"@)
}

/// What the last of the first `end` host programs of this name printed.
pub open spec fn output_of(runs: Seq<HostRun>, name: Seq<char>, end: int) -> Option<Seq<char>>
    decreases end,
{
    if end <= 0 {
        None
    } else if runs[end - 1].name@ == name {
        Some(runs[end - 1].output@)
    } else {
        output_of(runs, name, end - 1)
    }
}

/// Pushing a text pushes what it holds.
proof fn lemma_texts_push(parts: Seq<String>, part: String)
    ensures
        texts(parts.push(part)) == texts(parts).push(part@),
{
    assert(texts(parts.push(part)) =~= texts(parts).push(part@));
}

fn list_exits(runs: &[HostRun]) -> (res: Vec<String>)
    ensures
        texts(res@) == exits(runs@, runs@.len() as int),
{
    let mut res: Vec<String> = Vec::new();
    let mut i: usize = 0;
    assert(texts(res@) =~= Seq::<Seq<char>>::empty());
    while i < runs.len()
        invariant
            i <= runs@.len(),
            texts(res@) == exits(runs@, i as int),
        decreases runs@.len() - i,
    {
        if let Some(status) = &runs[i].exit {
            let last = tail(runs[i].output.as_str(), 30);
            let text = Text::new("host node ").str(runs[i].name.as_str()).str(
                " exited early with ",
            ).str(status.as_str()).str(
                "; verify its serial-port and layout configuration\n",
            ).str(last.as_str()).done();
            proof {
                lemma_texts_push(res@, text);
            }
            res.push(text);
        }
        i = i + 1;
    }
    res
}

/// A host program's output, without its middle where it is long.
pub fn host_diagnostic(output: &str) -> (res: String)
    ensures
        res@ == diagnostic_text(output@),
{
    let all = lines_of(output);
    assert(lines(output@).len() == rows(all@).len());
    let count: usize = all.len();
    if count <= 120 {
        return join_rows(all.as_slice(), "\n");
    }
    let first = vstd::slice::slice_subrange(all.as_slice(), 0, 60);
    let last = vstd::slice::slice_subrange(all.as_slice(), count - 60, count);
    assert(rows(first@) =~= lines(output@).take(60));
    assert(rows(last@) =~= lines(output@).skip(count - 60));
    let head = join_rows(first, "\n");
    let end = join_rows(last, "\n");
    Text::new("").str(head.as_str()).str("\n... ").dec(count as u64 - 120).str(
        " host log lines omitted ...\n",
    ).str(end.as_str()).done()
}

proof fn lemma_hosts_by_name(runs: Seq<HostRun>, end: int)
    requires
        0 <= end <= runs.len() <= usize::MAX,
    ensures
        in_order(hosts_by_name(runs, end)),
        forall|i: int|
            0 <= i < hosts_by_name(runs, end).len() ==> (#[trigger] hosts_by_name(runs, end)[i]).1
                < end,
    decreases end,
{
    if end > 0 {
        lemma_hosts_by_name(runs, end - 1);
        let before = hosts_by_name(runs, end - 1);
        let name = runs[end - 1].name@;
        crate::roster::law_names_stay_in_order(before, name, (end - 1) as usize);
        lemma_same_rank(before, before, name, 0);
    }
}

fn describe_hosts(runs: &[HostRun]) -> (res: String)
    ensures
        res@ == host_detail(runs@),
{
    let count: usize = runs.len();
    let mut ordered: Roster<usize> = Roster::new();
    let mut i: usize = 0;
    while i < count
        invariant
            i <= count,
            count == runs@.len(),
            ordered@ == hosts_by_name(runs@, i as int),
            in_order(ordered@),
        decreases count - i,
    {
        ordered.put(runs[i].name.clone(), i);
        i = i + 1;
    }
    proof {
        lemma_hosts_by_name(runs@, count as int);
    }
    let mut parts: Vec<String> = Vec::new();
    let mut k: usize = 0;
    assert(texts(parts@) =~= host_details(runs@).take(0));
    while k < ordered.len()
        invariant
            k <= ordered@.len(),
            count == runs@.len(),
            ordered@ == hosts_by_name(runs@, count as int),
            forall|i: int| 0 <= i < ordered@.len() ==> (#[trigger] ordered@[i]).1 < count,
            texts(parts@) == host_details(runs@).take(k as int),
        decreases ordered@.len() - k,
    {
        let at: usize = *ordered.value(k);
        let diagnostic = host_diagnostic(runs[at].output.as_str());
        let text = Text::new("").str(ordered.name(k)).str(":\n").str(diagnostic.as_str()).done();
        proof {
            lemma_texts_push(parts@, text);
            assert(host_details(runs@).take(k + 1) =~= host_details(runs@).take(k as int).push(
                text@,
            ));
        }
        parts.push(text);
        k = k + 1;
    }
    assert(host_details(runs@).take(k as int) =~= host_details(runs@));
    join_texts(parts.as_slice(), "\n")
}

fn find_output<'a>(runs: &'a [HostRun], name: &str) -> (res: Option<&'a str>)
    ensures
        match output_of(runs@, name@, runs@.len() as int) {
            Some(output) => res matches Some(found) && found@ == output,
            None => res is None,
        },
{
    let mut end: usize = runs.len();
    while end > 0
        invariant
            end <= runs@.len(),
            output_of(runs@, name@, runs@.len() as int) == output_of(runs@, name@, end as int),
        decreases end,
    {
        if same_text(runs[end - 1].name.as_str(), name) {
            return Some(runs[end - 1].output.as_str());
        }
        end = end - 1;
    }
    None
}

// ---------------------------------------------------------------------------
// The emulator
// ---------------------------------------------------------------------------

pub open spec fn complete_line(line: Seq<char>) -> bool {
    trim(line) == "SEDS_BAY_COMPLETE"@
}

/// The emulator ran the whole script.
pub open spec fn completed(output: Seq<char>, succeeded: bool) -> bool {
    &&& succeeded
    &&& exists|i: int| 0 <= i < lines(output).len() && #[trigger] complete_line(lines(output)[i])
    &&& !command_error(output)
}

pub open spec fn alarming(line: Seq<char>) -> bool {
    let low = lower(line);
    ||| contains(low, "error"@)
    ||| contains(low, "exception"@)
    ||| contains(low, "fatal"@)
    ||| contains(low, "abort"@)
}

/// The lines around line `i`.
pub open spec fn around(all: Seq<Seq<char>>, i: int) -> Seq<Seq<char>> {
    let start = if i < 2 {
        0
    } else {
        i - 2
    };
    let end = if i + 3 < all.len() {
        i + 3
    } else {
        all.len() as int
    };
    all.subrange(start, end)
}

/// The surroundings of each of the first `end` lines that is alarming.
pub open spec fn alarms(all: Seq<Seq<char>>, end: int) -> Seq<Seq<char>>
    decreases end,
{
    if end <= 0 {
        Seq::empty()
    } else if alarming(all[end - 1]) {
        alarms(all, end - 1) + around(all, end - 1)
    } else {
        alarms(all, end - 1)
    }
}

pub open spec fn emulator_failure(output: Seq<char>, status: Seq<char>) -> Seq<char> {
    let found = join(alarms(lines(output), lines(output).len() as int), "\n"@);
    "linked bay execution failed (Renode status: "@ + status + "):\n"@ + if found.len() == 0 {
        "No explicit Renode error line was emitted."@
    } else {
        found
    } + "\n\nFinal Renode output:\n"@ + join(last_lines(lines(output), 40), "\n"@)
}

fn is_completed(output: &str, succeeded: bool) -> (res: bool)
    ensures
        res == completed(output@, succeeded),
{
    if !succeeded {
        return false;
    }
    let all = lines_of(output);
    let wanted = chars_of("SEDS_BAY_COMPLETE");
    if command_failed(output) {
        return false;
    }
    let mut i: usize = 0;
    assert(lines(output@).len() == rows(all@).len());
    while i < all.len()
        invariant
            i <= all@.len(),
            lines(output@).len() == all@.len(),
            rows(all@) == lines(output@),
            wanted@ == "SEDS_BAY_COMPLETE"@,
            succeeded,
            !command_error(output@),
            forall|k: int| 0 <= k < i ==> !#[trigger] complete_line(lines(output@)[k]),
        decreases all@.len() - i,
    {
        let line = trim_chars(all[i].as_slice());
        assert(rows(all@)[i as int] == all@[i as int]@);
        if same_chars(line, wanted.as_slice()) {
            assert(complete_line(lines(output@)[i as int]));
            return true;
        }
        i = i + 1;
    }
    false
}

fn is_alarming(line: &[char]) -> (res: bool)
    ensures
        res == alarming(line@),
{
    let low = lower_chars(line);
    let text = low.as_slice();
    has_text(text, "error") || has_text(text, "exception") || has_text(text, "fatal") || has_text(
        text,
        "abort",
    )
}

fn copy_rows(from: &[Vec<char>], to: &mut Vec<Vec<char>>)
    ensures
        rows(final(to)@) == rows(old(to)@) + rows(from@),
{
    let ghost before = rows(to@);
    let mut i: usize = 0;
    assert(before + rows(from@).take(0) =~= before);
    while i < from.len()
        invariant
            i <= from@.len(),
            rows(to@) == before + rows(from@).take(i as int),
        decreases from@.len() - i,
    {
        let row: Vec<char> = vstd::slice::slice_to_vec(from[i].as_slice());
        proof {
            assert(row@ == rows(from@)[i as int]);
            assert(rows(to@.push(row)) =~= rows(to@).push(row@));
            assert(before + rows(from@).take(i + 1) =~= (before + rows(from@).take(
                i as int,
            )).push(row@));
        }
        to.push(row);
        i = i + 1;
    }
    assert(rows(from@).take(i as int) =~= rows(from@));
}

fn describe_emulator_failure(output: &str, status: &str) -> (res: String)
    ensures
        res@ == emulator_failure(output@, status@),
{
    let all = lines_of(output);
    let count: usize = all.len();
    let mut found: Vec<Vec<char>> = Vec::new();
    let mut i: usize = 0;
    assert(lines(output@).len() == rows(all@).len());
    assert(rows(found@) =~= Seq::<Seq<char>>::empty());
    while i < count
        invariant
            i <= count,
            count == all@.len(),
            rows(all@) == lines(output@),
            rows(found@) == alarms(lines(output@), i as int),
        decreases count - i,
    {
        assert(rows(all@)[i as int] == all@[i as int]@);
        if is_alarming(all[i].as_slice()) {
            let start: usize = if i < 2 {
                0
            } else {
                i - 2
            };
            let end: usize = if count - i > 3 {
                i + 3
            } else {
                count
            };
            let near = vstd::slice::slice_subrange(all.as_slice(), start, end);
            assert(rows(near@) =~= around(lines(output@), i as int));
            copy_rows(near, &mut found);
        }
        i = i + 1;
    }
    let joined = join_rows(found.as_slice(), "\n");
    let last = tail(output, 40);
    let chars = chars_of(joined.as_str());
    let context = if chars.len() == 0 {
        "No explicit Renode error line was emitted."
    } else {
        joined.as_str()
    };
    Text::new("linked bay execution failed (Renode status: ").str(status).str("):\n").str(
        context,
    ).str("\n\nFinal Renode output:\n").str(last.as_str()).done()
}

// ---------------------------------------------------------------------------
// A run
// ---------------------------------------------------------------------------

/// A run of a bay, as far as the emulator's output tells of it.
pub ghost struct BayRun {
    pub topology: BayTopology,
    /// The execution settings of each node.
    pub executions: Seq<ExecutionConfig>,
    pub output: Seq<char>,
}

/// The first probe of this name, from `from` on.
pub open spec fn probe_index(probes: Seq<MemoryProbe>, name: Seq<char>, from: int) -> Option<int>
    decreases probes.len() - from,
{
    if from < 0 || from >= probes.len() {
        None
    } else if probes[from].name@ == name {
        Some(from)
    } else {
        probe_index(probes, name, from + 1)
    }
}

impl BayRun {
    pub open spec fn of(
        topology: BayTopology,
        boards: Seq<NodeBoard>,
        output: Seq<char>,
    ) -> BayRun {
        BayRun {
            topology,
            executions: Seq::new(boards.len(), |i: int| boards[i].layout.execution),
            output,
        }
    }

    /// The samples of one probe of node `n`.
    pub open spec fn samples(self, n: int, probe: MemoryProbe) -> Seq<u32> {
        node_samples(
            self.topology.nodes@[n].name@,
            self.executions[n],
            probe,
            self.output,
            self.topology.sample_count as int,
        )->Ok_0
    }

    /// The greatest of them after the warm-up.
    pub open spec fn peak_of(self, n: int, probe: MemoryProbe) -> u32 {
        greatest(
            qualified(
                self.samples(n, probe),
                self.executions[n].memory_probe_warmup_samples as int,
            ),
        )
    }

    /// The first `end` nodes by name.
    pub open spec fn order(self, end: int) -> Seq<(Seq<char>, int)>
        decreases end,
    {
        if end <= 0 {
            Seq::empty()
        } else {
            with_entry(self.order(end - 1), self.topology.nodes@[end - 1].name@, end - 1)
        }
    }

    pub open spec fn node(self, name: Seq<char>) -> Option<int> {
        entry(self.order(self.topology.nodes@.len() as int), name)
    }

    /// The peak of the probe of this name of node `n`.
    pub open spec fn peak(self, n: int, name: Seq<char>) -> Option<u32> {
        let probes = self.executions[n].memory_probes@;
        match probe_index(probes, name, 0) {
            Some(p) => Some(self.peak_of(n, probes[p])),
            None => None,
        }
    }

    /// The reports are those on the probes of node `n`.
    pub open spec fn reported(self, n: int, reports: Seq<MemoryProbeReport>) -> bool {
        &&& reports.len() == self.executions[n].memory_probes@.len()
        &&& node_reports(
            reports,
            self.topology.nodes@[n].name@,
            self.executions[n],
            self.output,
            self.topology.sample_count as int,
        )
    }

    /// The profiles are those of the first `end` nodes, by name.
    pub open spec fn profiled(
        self,
        profiles: Seq<(Seq<char>, Vec<MemoryProbeReport>)>,
        end: int,
    ) -> bool {
        let order = self.order(end);
        &&& in_order(profiles)
        &&& same_names(profiles, order)
        &&& forall|i: int|
            0 <= i < order.len() ==> self.reported(order[i].1, (#[trigger] profiles[i]).1@)
    }
}

// ---------------------------------------------------------------------------
// Boots and profiles
// ---------------------------------------------------------------------------

impl BayRun {
    /// The first node, from `from` on, that did not boot.
    pub open spec fn unbooted(self, from: int) -> Option<int>
        decreases self.topology.nodes@.len() - from,
    {
        if from < 0 || from >= self.topology.nodes@.len() {
            None
        } else if !marker_shown(self.output, boot_marker(self.topology.nodes@[from].name@)) {
            Some(from)
        } else {
            self.unbooted(from + 1)
        }
    }

    /// What the probes of node `n` showed, in words.
    pub open spec fn observed_texts(self, n: int) -> Seq<Seq<char>> {
        let execution = self.executions[n];
        let warmup = execution.memory_probe_warmup_samples as int;
        Seq::new(
            execution.memory_probes@.len(),
            |i: int|
                {
                    let probe = execution.memory_probes@[i];
                    let samples = self.samples(n, probe);
                    ""@ + probe.name@ + ": min="@ + dec(least(qualified(samples, warmup)) as nat)
                        + ", max="@ + dec(greatest(qualified(samples, warmup)) as nat)
                        + ", samples="@ + list_text(samples)
                },
        )
    }

    /// Why node `n` is not qualified.
    pub open spec fn node_failure(self, n: int) -> Option<Seq<char>> {
        let node = self.topology.nodes@[n].name@;
        let execution = self.executions[n];
        let count = self.topology.sample_count as int;
        match node_error(node, execution, self.output, count, 0) {
            Some((probe, error)) => Some(
                (NodeProbeError::Unreadable { probe: probe as usize, error }).text(
                    node,
                    execution,
                    count,
                ),
            ),
            None => {
                let failures = node_failures(
                    node,
                    execution,
                    self.output,
                    count,
                    self.topology.enforce_end_drop,
                    execution.memory_probes@.len() as int,
                );
                if failures.len() > 0 {
                    Some(
                        "node "@ + node + " failed "@ + dec(failures.len())
                            + " probe threshold(s):\n- "@ + join(failures, "\n- "@) + "\n\nAll "@
                            + node + " probe observations:\n"@ + join(
                            self.observed_texts(n),
                            "\n"@,
                        ),
                    )
                } else {
                    None
                }
            },
        }
    }

    /// Why the first node from `n` on that fails is not qualified.
    pub open spec fn nodes_failure(self, n: int) -> Option<Seq<char>>
        decreases self.topology.nodes@.len() - n,
    {
        if n < 0 || n >= self.topology.nodes@.len() {
            None
        } else if self.node_failure(n) is Some {
            self.node_failure(n)
        } else {
            self.nodes_failure(n + 1)
        }
    }
}

fn find_unbooted(topology: &BayTopology, output: &str, Ghost(run): Ghost<BayRun>) -> (res: Option<
    usize,
>)
    requires
        run.topology == *topology,
        run.output == output@,
    ensures
        match run.unbooted(0) {
            Some(n) => res matches Some(found) && found == n && found < topology.nodes@.len(),
            None => res is None,
        },
{
    let mut n: usize = 0;
    while n < topology.nodes.len()
        invariant
            n <= topology.nodes@.len(),
            run.topology == *topology,
            run.output == output@,
            run.unbooted(0) == run.unbooted(n as int),
        decreases topology.nodes@.len() - n,
    {
        let marker = render_boot_marker(topology.nodes[n].name.as_str());
        if !observed_marker(output, marker.as_str()) {
            return Some(n);
        }
        n = n + 1;
    }
    None
}

proof fn lemma_observations(run: BayRun, n: int, reports: Seq<MemoryProbeReport>)
    requires
        run.reported(n, reports),
    ensures
        observations(reports) == run.observed_texts(n),
{
    assert forall|i: int| 0 <= i < reports.len() implies observations(reports)[i]
        == run.observed_texts(n)[i] by {
        assert(reports[i].of(
            run.executions[n].memory_probes@[i],
            run.samples(n, run.executions[n].memory_probes@[i]),
            run.executions[n].memory_probe_warmup_samples as int,
        ));
    }
    assert(observations(reports) =~= run.observed_texts(n));
}

/// Qualifies one node.
fn qualify_node(
    topology: &BayTopology,
    execution: &ExecutionConfig,
    output: &str,
    n: usize,
    Ghost(run): Ghost<BayRun>,
) -> (res: Result<Vec<MemoryProbeReport>, String>)
    requires
        run.topology == *topology,
        run.output == output@,
        n < topology.nodes@.len(),
        run.executions[n as int] == *execution,
    ensures
        match run.node_failure(n as int) {
            Some(text) => res matches Err(error) && error@ == text,
            None => res matches Ok(reports) && run.reported(n as int, reports@),
        },
{
    let node = topology.nodes[n].name.as_str();
    match parse_memory_profiles(
        node,
        execution,
        output,
        topology.sample_count,
        topology.enforce_end_drop,
    ) {
        Ok(reports) => Ok(reports),
        Err(error) => {
            proof {
                if error is Limits {
                    lemma_observations(run, n as int, error->reports@);
                }
            }
            Err(error.message(node, execution, topology.sample_count))
        },
    }
}

proof fn lemma_profiled_grows(
    run: BayRun,
    profiles: Seq<(Seq<char>, Vec<MemoryProbeReport>)>,
    n: int,
    reports: Vec<MemoryProbeReport>,
)
    requires
        n >= 0,
        run.profiled(profiles, n),
        run.reported(n, reports@),
    ensures
        run.profiled(with_entry(profiles, run.topology.nodes@[n].name@, reports), n + 1),
{
    let name = run.topology.nodes@[n].name@;
    let order = run.order(n);
    let now = with_entry(profiles, name, reports);
    let next = run.order(n + 1);
    let at = rank(profiles, name, 0);
    lemma_same_rank(profiles, order, name, 0);
    crate::roster::law_names_stay_in_order(profiles, name, reports);
    assert(next == with_entry(order, name, n));
    let replaced = at < profiles.len() && profiles[at].0 == name;
    if at < profiles.len() {
        assert(profiles[at].0 == order[at].0);
    }
    assert forall|i: int| 0 <= i < next.len() implies now[i].0 == next[i].0 && run.reported(
        next[i].1,
        (#[trigger] now[i]).1@,
    ) by {
        if i != at {
            let from = if replaced || i < at {
                i
            } else {
                i - 1
            };
            assert(now[i] == profiles[from]);
            assert(next[i] == order[from]);
        }
    }
}

/// Qualifies every node.
pub fn profile_nodes(topology: &BayTopology, boards: &[NodeBoard], output: &str) -> (res: Result<
    Roster<Vec<MemoryProbeReport>>,
    String,
>)
    requires
        boards@.len() == topology.nodes@.len(),
    ensures
        match BayRun::of(*topology, boards@, output@).nodes_failure(0) {
            Some(text) => res matches Err(error) && error@ == text,
            None => res matches Ok(profiles) && BayRun::of(
                *topology,
                boards@,
                output@,
            ).profiled(profiles@, topology.nodes@.len() as int),
        },
{
    let ghost run = BayRun::of(*topology, boards@, output@);
    let mut profiles: Roster<Vec<MemoryProbeReport>> = Roster::new();
    let mut n: usize = 0;
    while n < topology.nodes.len()
        invariant
            n <= topology.nodes@.len(),
            boards@.len() == topology.nodes@.len(),
            run == BayRun::of(*topology, boards@, output@),
            run.nodes_failure(0) == run.nodes_failure(n as int),
            run.profiled(profiles@, n as int),
        decreases topology.nodes@.len() - n,
    {
        match qualify_node(topology, &boards[n].layout.execution, output, n, Ghost(run)) {
            Ok(reports) => {
                proof {
                    lemma_profiled_grows(run, profiles@, n as int, reports);
                }
                profiles.put(topology.nodes[n].name.clone(), reports);
            },
            Err(error) => {
                return Err(error);
            },
        }
        n = n + 1;
    }
    Ok(profiles)
}

// ---------------------------------------------------------------------------
// Links
// ---------------------------------------------------------------------------

pub open spec fn unknown_probe_text(
    link: Seq<char>,
    node: Seq<char>,
    direction: Seq<char>,
    probe: Seq<char>,
) -> Seq<char> {
    "link "@ + link + " endpoint "@ + node + " requires unknown "@ + direction + " probe "@ + probe
}

/// The first report of this name, from `from` on.
pub open spec fn report_index(reports: Seq<MemoryProbeReport>, name: Seq<char>, from: int) -> Option<
    int,
>
    decreases reports.len() - from,
{
    if from < 0 || from >= reports.len() {
        None
    } else if reports[from].name@ == name {
        Some(from)
    } else {
        report_index(reports, name, from + 1)
    }
}

fn find_report(reports: &[MemoryProbeReport], name: &str) -> (res: Option<usize>)
    ensures
        match report_index(reports@, name@, 0) {
            Some(i) => res matches Some(found) && found == i && found < reports@.len(),
            None => res is None,
        },
{
    let mut i: usize = 0;
    while i < reports.len()
        invariant
            i <= reports@.len(),
            report_index(reports@, name@, 0) == report_index(reports@, name@, i as int),
        decreases reports@.len() - i,
    {
        if same_text(reports[i].name.as_str(), name) {
            return Some(i);
        }
        i = i + 1;
    }
    None
}

/// The greatest value that an endpoint's probe showed, where it names one.
pub fn observe_endpoint_probe(
    reports: &[MemoryProbeReport],
    probe_name: Option<&str>,
    link_name: &str,
    node_name: &str,
    direction: &str,
) -> (res: Result<Option<u32>, String>)
    ensures
        match probe_name {
            None => res == Ok::<Option<u32>, String>(None),
            Some(name) => match report_index(reports@, name@, 0) {
                Some(i) => res == Ok::<Option<u32>, String>(
                    Some(reports@[i].maximum_observed),
                ),
                None => res matches Err(error) && error@ == unknown_probe_text(
                    link_name@,
                    node_name@,
                    direction@,
                    name@,
                ),
            },
        },
{
    let name = match probe_name {
        Some(name) => name,
        None => {
            return Ok(None);
        },
    };
    match find_report(reports, name) {
        Some(i) => Ok(Some(reports[i].maximum_observed)),
        None => Err(
            Text::new("link ").str(link_name).str(" endpoint ").str(node_name).str(
                " requires unknown ",
            ).str(direction).str(" probe ").str(name).done(),
        ),
    }
}

/// What is said of a probe that did not reach its minimum.
pub open spec fn shortfall(
    link: Seq<char>,
    node: Seq<char>,
    direction: Seq<char>,
    probe: Option<Seq<char>>,
    observed: Option<u32>,
    minimum: u32,
) -> Seq<Seq<char>> {
    match (probe, observed) {
        (Some(probe), Some(observed)) => if observed < minimum {
            seq![
                ""@ + link + " / "@ + node + " "@ + direction + ": "@ + probe + "="@ + dec(
                    observed as nat,
                ) + " (required >= "@ + dec(minimum as nat) + ")"@,
            ]
        } else {
            Seq::empty()
        },
        _ => Seq::empty(),
    }
}

/// What an endpoint transmitted and received, and how it fell short.
pub ghost struct Traffic {
    pub tx: Option<u32>,
    pub rx: Option<u32>,
    pub failures: Seq<Seq<char>>,
}

impl BayRun {
    pub open spec fn observe(
        self,
        n: int,
        probe: Option<Seq<char>>,
        link: Seq<char>,
        node: Seq<char>,
        direction: Seq<char>,
    ) -> Result<Option<u32>, Seq<char>> {
        match probe {
            None => Ok(None),
            Some(name) => match self.peak(n, name) {
                Some(value) => Ok(Some(value)),
                None => Err(unknown_probe_text(link, node, direction, name)),
            },
        }
    }

    /// What endpoint `e` of link `l` showed, or why it cannot be judged.
    pub open spec fn traffic(self, l: int, e: int) -> Result<Traffic, Seq<char>> {
        let link = self.topology.links@[l];
        let endpoint = link.endpoints@[e];
        let node = endpoint.node@;
        let (tx_probe, rx_probe) = (opt_text(endpoint.tx_probe), opt_text(endpoint.rx_probe));
        let activity_probe = opt_text(endpoint.activity_probe);
        if has_host(self.topology.host_nodes@, node) {
            Ok(Traffic { tx: None, rx: None, failures: Seq::empty() })
        } else {
            match self.node(node) {
                None => Err("missing profiles for node "@ + node),
                Some(n) => match (
                    self.observe(n, tx_probe, link.name@, node, "TX"@),
                    self.observe(n, rx_probe, link.name@, node, "RX"@),
                    if tx_probe is None && rx_probe is None {
                        self.observe(n, activity_probe, link.name@, node, "activity"@)
                    } else {
                        Ok(None)
                    },
                ) {
                    (Err(error), _, _) => Err(error),
                    (_, Err(error), _) => Err(error),
                    (_, _, Err(error)) => Err(error),
                    (Ok(tx), Ok(rx), Ok(activity)) => if tx_probe is Some && rx_probe is Some
                        || activity_probe is Some {
                        Ok(
                            Traffic {
                                tx,
                                rx,
                                failures: shortfall(
                                    link.name@,
                                    node,
                                    "TX"@,
                                    tx_probe,
                                    tx,
                                    endpoint.minimum_tx,
                                ) + shortfall(
                                    link.name@,
                                    node,
                                    "RX"@,
                                    rx_probe,
                                    rx,
                                    endpoint.minimum_rx,
                                ) + shortfall(
                                    link.name@,
                                    node,
                                    "activity"@,
                                    activity_probe,
                                    activity,
                                    endpoint.minimum_activity,
                                ),
                            },
                        )
                    } else {
                        Err(
                            "link "@ + link.name@ + " endpoint "@ + node
                                + " has no TX/RX probes; bidirectional communication cannot be certified"@,
                        )
                    },
                },
            }
        }
    }

    /// How the first `end` endpoints of link `l` fell short, or why one of
    /// them cannot be judged.
    pub open spec fn endpoints_judged(self, l: int, end: int) -> Result<Seq<Seq<char>>, Seq<char>>
        decreases end,
    {
        if end <= 0 {
            Ok(Seq::empty())
        } else {
            match self.endpoints_judged(l, end - 1) {
                Err(error) => Err(error),
                Ok(earlier) => match self.traffic(l, end - 1) {
                    Err(error) => Err(error),
                    Ok(traffic) => Ok(earlier + traffic.failures),
                },
            }
        }
    }

    pub open spec fn links_judged(self, end: int) -> Result<Seq<Seq<char>>, Seq<char>>
        decreases end,
    {
        if end <= 0 {
            Ok(Seq::empty())
        } else {
            match self.links_judged(end - 1) {
                Err(error) => Err(error),
                Ok(earlier) => match self.endpoints_judged(
                    end - 1,
                    self.topology.links@[end - 1].endpoints@.len() as int,
                ) {
                    Err(error) => Err(error),
                    Ok(failures) => Ok(earlier + failures),
                },
            }
        }
    }
}

impl EndpointReport {
    pub open spec fn of(self, run: BayRun, l: int, e: int) -> bool {
        let endpoint = run.topology.links@[l].endpoints@[e];
        let host = has_host(run.topology.host_nodes@, endpoint.node@);
        &&& self.node@ == endpoint.node@
        &&& opt_text(self.tx_probe) == if host {
            None
        } else {
            opt_text(endpoint.tx_probe)
        }
        &&& self.tx_observed == run.traffic(l, e)->Ok_0.tx
        &&& opt_text(self.rx_probe) == if host {
            None
        } else {
            opt_text(endpoint.rx_probe)
        }
        &&& self.rx_observed == run.traffic(l, e)->Ok_0.rx
    }
}

impl LinkReport {
    pub open spec fn of(self, run: BayRun, l: int) -> bool {
        let link = run.topology.links@[l];
        &&& self.name@ == link.name@
        &&& self.kind@ == link.kind.variant()
        &&& texts(self.transport_path@) == texts(link.transport_path@)
        &&& self.endpoints@.len() == link.endpoints@.len()
        &&& forall|e: int|
            0 <= e < link.endpoints@.len() ==> (#[trigger] self.endpoints@[e]).of(run, l, e)
    }
}

proof fn lemma_reported_index(
    run: BayRun,
    n: int,
    reports: Seq<MemoryProbeReport>,
    name: Seq<char>,
    from: int,
)
    requires
        run.reported(n, reports),
        0 <= from <= reports.len(),
    ensures
        report_index(reports, name, from) == probe_index(
            run.executions[n].memory_probes@,
            name,
            from,
        ),
        report_index(reports, name, from) matches Some(i) ==> from <= i < reports.len()
            && reports[i].maximum_observed == run.peak_of(
            n,
            run.executions[n].memory_probes@[i],
        ) && reports[i].samples@ == run.samples(n, run.executions[n].memory_probes@[i]),
    decreases reports.len() - from,
{
    if from < reports.len() {
        assert(reports[from].of(
            run.executions[n].memory_probes@[from],
            run.samples(n, run.executions[n].memory_probes@[from]),
            run.executions[n].memory_probe_warmup_samples as int,
        ));
        lemma_reported_index(run, n, reports, name, from + 1);
    }
}

fn observe(
    reports: &[MemoryProbeReport],
    probe: &Option<String>,
    link: &str,
    node: &str,
    direction: &str,
    Ghost(run): Ghost<BayRun>,
    Ghost(n): Ghost<int>,
) -> (res: Result<Option<u32>, String>)
    requires
        run.reported(n, reports@),
    ensures
        match run.observe(n, opt_text(*probe), link@, node@, direction@) {
            Ok(observed) => res == Ok::<Option<u32>, String>(observed),
            Err(text) => res matches Err(error) && error@ == text,
        },
{
    let name: Option<&str> = match probe {
        Some(probe) => Some(probe.as_str()),
        None => None,
    };
    proof {
        if let Some(probe) = probe {
            lemma_reported_index(run, n, reports@, probe@, 0);
        }
    }
    observe_endpoint_probe(reports, name, link, node, direction)
}

fn push_shortfall(
    failures: &mut Vec<String>,
    link: &str,
    node: &str,
    direction: &str,
    probe: &Option<String>,
    observed: Option<u32>,
    minimum: u32,
)
    ensures
        texts(final(failures)@) == texts(old(failures)@) + shortfall(
            link@,
            node@,
            direction@,
            opt_text(*probe),
            observed,
            minimum,
        ),
{
    let ghost before = texts(failures@);
    if let (Some(probe), Some(observed)) = (probe, observed) {
        if observed < minimum {
            let text = Text::new("").str(link).str(" / ").str(node).str(" ").str(direction).str(
                ": ",
            ).str(probe.as_str()).str("=").dec(observed as u64).str(" (required >= ").dec(
                minimum as u64,
            ).str(")").done();
            proof {
                lemma_texts_push(failures@, text);
                assert(before.push(text@) =~= before + seq![text@]);
            }
            failures.push(text);
            return;
        }
    }
    assert(before + Seq::<Seq<char>>::empty() =~= before);
}

fn copy_text(text: &Option<String>) -> (res: Option<String>)
    ensures
        opt_text(res) == opt_text(*text),
{
    match text {
        Some(text) => Some(text.clone()),
        None => None,
    }
}

/// A node of the run, by name, is the node whose profile stands under it.
proof fn lemma_profile_of(
    run: BayRun,
    profiles: Seq<(Seq<char>, Vec<MemoryProbeReport>)>,
    name: Seq<char>,
)
    requires
        run.profiled(profiles, run.topology.nodes@.len() as int),
    ensures
        match entry(profiles, name) {
            Some(reports) => run.node(name) matches Some(n) && run.reported(n, reports@),
            None => run.node(name) is None,
        },
{
    let order = run.order(run.topology.nodes@.len() as int);
    lemma_same_position(profiles, order, name, 0);
}

/// Judges one endpoint. What it fell short of is added to `failures`.
fn judge_endpoint(
    topology: &BayTopology,
    profiles: &Roster<Vec<MemoryProbeReport>>,
    l: usize,
    e: usize,
    failures: &mut Vec<String>,
    Ghost(run): Ghost<BayRun>,
) -> (res: Result<EndpointReport, String>)
    requires
        run.topology == *topology,
        run.profiled(profiles@, topology.nodes@.len() as int),
        l < topology.links@.len(),
        e < topology.links@[l as int].endpoints@.len(),
    ensures
        match run.traffic(l as int, e as int) {
            Ok(traffic) => {
                &&& res matches Ok(report)
                &&& report.of(run, l as int, e as int)
                &&& texts(final(failures)@) == texts(old(failures)@) + traffic.failures
            },
            Err(text) => res matches Err(error) && error@ == text,
        },
{
    let link = &topology.links[l];
    let endpoint = &link.endpoints[e];
    let ghost before = texts(failures@);
    if is_host(topology.host_nodes.as_slice(), endpoint.node.as_str()) {
        assert(before + Seq::<Seq<char>>::empty() =~= before);
        return Ok(
            EndpointReport {
                node: endpoint.node.clone(),
                tx_probe: None,
                tx_observed: None,
                rx_probe: None,
                rx_observed: None,
            },
        );
    }
    let name = link.name.as_str();
    let node = endpoint.node.as_str();
    proof {
        lemma_profile_of(run, profiles@, endpoint.node@);
    }
    let reports = match profiles.get(node) {
        Some(reports) => reports.as_slice(),
        None => {
            return Err(Text::new("missing profiles for node ").str(node).done());
        },
    };
    let ghost n = run.node(endpoint.node@)->0;
    let tx = match observe(reports, &endpoint.tx_probe, name, node, "TX", Ghost(run), Ghost(n)) {
        Ok(tx) => tx,
        Err(error) => {
            return Err(error);
        },
    };
    let rx = match observe(reports, &endpoint.rx_probe, name, node, "RX", Ghost(run), Ghost(n)) {
        Ok(rx) => rx,
        Err(error) => {
            return Err(error);
        },
    };
    let activity: Option<u32> = if endpoint.tx_probe.is_none() && endpoint.rx_probe.is_none() {
        match observe(
            reports,
            &endpoint.activity_probe,
            name,
            node,
            "activity",
            Ghost(run),
            Ghost(n),
        ) {
            Ok(activity) => activity,
            Err(error) => {
                return Err(error);
            },
        }
    } else {
        None
    };
    if !(endpoint.tx_probe.is_some() && endpoint.rx_probe.is_some()
        || endpoint.activity_probe.is_some()) {
        return Err(
            Text::new("link ").str(name).str(" endpoint ").str(node).str(
                " has no TX/RX probes; bidirectional communication cannot be certified",
            ).done(),
        );
    }
    push_shortfall(failures, name, node, "TX", &endpoint.tx_probe, tx, endpoint.minimum_tx);
    push_shortfall(failures, name, node, "RX", &endpoint.rx_probe, rx, endpoint.minimum_rx);
    push_shortfall(
        failures,
        name,
        node,
        "activity",
        &endpoint.activity_probe,
        activity,
        endpoint.minimum_activity,
    );
    assert(texts(failures@) =~= before + run.traffic(l as int, e as int)->Ok_0.failures);
    Ok(
        EndpointReport {
            node: endpoint.node.clone(),
            tx_probe: copy_text(&endpoint.tx_probe),
            tx_observed: tx,
            rx_probe: copy_text(&endpoint.rx_probe),
            rx_observed: rx,
        },
    )
}

proof fn lemma_endpoint_error_stays(run: BayRun, l: int, e: int, end: int)
    requires
        0 <= e <= end,
        run.endpoints_judged(l, e) is Err,
    ensures
        run.endpoints_judged(l, end) == run.endpoints_judged(l, e),
    decreases end - e,
{
    if e < end {
        lemma_endpoint_error_stays(run, l, e, end - 1);
    }
}

proof fn lemma_link_error_stays(run: BayRun, l: int, end: int)
    requires
        0 <= l <= end,
        run.links_judged(l) is Err,
    ensures
        run.links_judged(end) == run.links_judged(l),
    decreases end - l,
{
    if l < end {
        lemma_link_error_stays(run, l, end - 1);
    }
}

fn judge_link(
    topology: &BayTopology,
    profiles: &Roster<Vec<MemoryProbeReport>>,
    l: usize,
    failures: &mut Vec<String>,
    Ghost(run): Ghost<BayRun>,
) -> (res: Result<LinkReport, String>)
    requires
        run.topology == *topology,
        run.profiled(profiles@, topology.nodes@.len() as int),
        l < topology.links@.len(),
    ensures
        match run.endpoints_judged(l as int, topology.links@[l as int].endpoints@.len() as int) {
            Ok(found) => {
                &&& res matches Ok(report)
                &&& report.of(run, l as int)
                &&& texts(final(failures)@) == texts(old(failures)@) + found
            },
            Err(text) => res matches Err(error) && error@ == text,
        },
{
    let link = &topology.links[l];
    let mut endpoints: Vec<EndpointReport> = Vec::new();
    let ghost before = texts(failures@);
    let mut e: usize = 0;
    assert(before + Seq::<Seq<char>>::empty() =~= before);
    while e < link.endpoints.len()
        invariant
            run.topology == *topology,
            run.profiled(profiles@, topology.nodes@.len() as int),
            l < topology.links@.len(),
            *link == topology.links@[l as int],
            e <= link.endpoints@.len(),
            endpoints@.len() == e,
            run.endpoints_judged(l as int, e as int) is Ok,
            texts(failures@) == before + run.endpoints_judged(l as int, e as int)->Ok_0,
            forall|k: int|
                0 <= k < e ==> (#[trigger] endpoints@[k]).of(run, l as int, k),
        decreases link.endpoints@.len() - e,
    {
        match judge_endpoint(topology, profiles, l, e, failures, Ghost(run)) {
            Ok(report) => {
                endpoints.push(report);
            },
            Err(error) => {
                proof {
                    lemma_endpoint_error_stays(
                        run,
                        l as int,
                        e + 1,
                        link.endpoints@.len() as int,
                    );
                }
                return Err(error);
            },
        }
        e = e + 1;
        assert(texts(failures@) =~= before + run.endpoints_judged(l as int, e as int)->Ok_0);
    }
    let transport_path: Vec<String> = copy_texts(link.transport_path.as_slice());
    Ok(
        LinkReport {
            name: link.name.clone(),
            kind: link.kind.name().to_owned(),
            transport_path,
            endpoints,
        },
    )
}

fn copy_texts(parts: &[String]) -> (res: Vec<String>)
    ensures
        texts(res@) == texts(parts@),
{
    let mut res: Vec<String> = Vec::new();
    let mut i: usize = 0;
    assert(texts(res@) =~= texts(parts@).take(0));
    while i < parts.len()
        invariant
            i <= parts@.len(),
            texts(res@) == texts(parts@).take(i as int),
        decreases parts@.len() - i,
    {
        let part = parts[i].clone();
        proof {
            lemma_texts_push(res@, part);
            assert(texts(parts@).take(i + 1) =~= texts(parts@).take(i as int).push(part@));
        }
        res.push(part);
        i = i + 1;
    }
    assert(texts(parts@).take(i as int) =~= texts(parts@));
    res
}

/// The probes that are shown of every node where a link fell short.
pub open spec fn watched() -> Seq<Seq<char>> {
    seq![
        "heartbeat_attempts"@,
        "heartbeat_ok"@,
        "heartbeat_fail"@,
        "network_ready"@,
        "peer_mask"@,
        "fdcan_tx_ok"@,
        "fdcan_tx_fail"@,
        "fdcan_rx"@,
        "fdcan_last_error"@,
        "fdcan_last_state"@,
        "queue_errors"@,
        "discovery_poll_errors"@,
        "timesync_poll_errors"@,
        "startup_fault_stage"@,
        "telemetry_thread_entered"@,
        "telemetry_service_stage"@,
        "alloc_failures"@,
        "panics"@,
    ]
}

fn watched_name(i: usize) -> (res: &'static str)
    requires
        i < watched().len(),
    ensures
        res@ == watched()[i as int],
{
    if i == 0 {
        "heartbeat_attempts"
    } else if i == 1 {
        "heartbeat_ok"
    } else if i == 2 {
        "heartbeat_fail"
    } else if i == 3 {
        "network_ready"
    } else if i == 4 {
        "peer_mask"
    } else if i == 5 {
        "fdcan_tx_ok"
    } else if i == 6 {
        "fdcan_tx_fail"
    } else if i == 7 {
        "fdcan_rx"
    } else if i == 8 {
        "fdcan_last_error"
    } else if i == 9 {
        "fdcan_last_state"
    } else if i == 10 {
        "queue_errors"
    } else if i == 11 {
        "discovery_poll_errors"
    } else if i == 12 {
        "timesync_poll_errors"
    } else if i == 13 {
        "startup_fault_stage"
    } else if i == 14 {
        "telemetry_thread_entered"
    } else if i == 15 {
        "telemetry_service_stage"
    } else if i == 16 {
        "alloc_failures"
    } else {
        "panics"
    }
}

impl BayRun {
    /// The peaks of those of the first `end` watched probes that node `n` has.
    pub open spec fn watched_values(self, n: int, end: int) -> Seq<Seq<char>>
        decreases end,
    {
        if end <= 0 {
            Seq::empty()
        } else {
            let earlier = self.watched_values(n, end - 1);
            let name = watched()[end - 1];
            match self.peak(n, name) {
                Some(value) => earlier.push(""@ + name + "="@ + dec(value as nat)),
                None => earlier,
            }
        }
    }

    pub open spec fn diagnostics(self) -> Seq<Seq<char>> {
        let order = self.order(self.topology.nodes@.len() as int);
        Seq::new(
            order.len(),
            |i: int|
                ""@ + order[i].0 + ": "@ + join(
                    self.watched_values(order[i].1, watched().len() as int),
                    ", "@,
                ),
        )
    }

    /// Why the links are not certified.
    pub open spec fn links_failure(self) -> Option<Seq<char>> {
        match self.links_judged(self.topology.links@.len() as int) {
            Err(error) => Some(error),
            Ok(failures) => if failures.len() > 0 {
                Some(
                    ""@ + dec(failures.len()) + " network endpoint check(s) failed:\n- "@ + join(
                        failures,
                        "\n- "@,
                    ) + "\n\nEndpoint diagnostics:\n"@ + join(self.diagnostics(), "\n"@),
                )
            } else {
                None
            },
        }
    }
}

fn list_watched(
    reports: &[MemoryProbeReport],
    Ghost(run): Ghost<BayRun>,
    Ghost(n): Ghost<int>,
) -> (res: String)
    requires
        run.reported(n, reports@),
    ensures
        res@ == join(run.watched_values(n, watched().len() as int), ", "@),
{
    let mut values: Vec<String> = Vec::new();
    let mut i: usize = 0;
    assert(texts(values@) =~= Seq::<Seq<char>>::empty());
    while i < 18
        invariant
            i <= 18 == watched().len(),
            run.reported(n, reports@),
            texts(values@) == run.watched_values(n, i as int),
        decreases 18 - i,
    {
        let name = watched_name(i);
        proof {
            lemma_reported_index(run, n, reports@, name@, 0);
        }
        if let Some(at) = find_report(reports, name) {
            let text = Text::new("").str(name).str("=").dec(
                reports[at].maximum_observed as u64,
            ).done();
            proof {
                lemma_texts_push(values@, text);
            }
            values.push(text);
        }
        i = i + 1;
    }
    join_texts(values.as_slice(), ", ")
}

fn describe_link_failures(
    failures: &[String],
    profiles: &Roster<Vec<MemoryProbeReport>>,
    Ghost(run): Ghost<BayRun>,
) -> (res: String)
    requires
        run.profiled(profiles@, run.topology.nodes@.len() as int),
    ensures
        res@ == ""@ + dec(failures@.len()) + " network endpoint check(s) failed:\n- "@ + join(
            texts(failures@),
            "\n- "@,
        ) + "\n\nEndpoint diagnostics:\n"@ + join(run.diagnostics(), "\n"@),
{
    let ghost order = run.order(run.topology.nodes@.len() as int);
    let mut lines_shown: Vec<String> = Vec::new();
    let mut i: usize = 0;
    assert(texts(lines_shown@) =~= run.diagnostics().take(0));
    while i < profiles.len()
        invariant
            i <= profiles@.len(),
            order == run.order(run.topology.nodes@.len() as int),
            run.profiled(profiles@, run.topology.nodes@.len() as int),
            texts(lines_shown@) == run.diagnostics().take(i as int),
        decreases profiles@.len() - i,
    {
        assert(profiles@[i as int].0 == order[i as int].0);
        let values = list_watched(
            profiles.value(i).as_slice(),
            Ghost(run),
            Ghost(order[i as int].1),
        );
        let text = Text::new("").str(profiles.name(i)).str(": ").str(values.as_str()).done();
        proof {
            lemma_texts_push(lines_shown@, text);
            assert(run.diagnostics().take(i + 1) =~= run.diagnostics().take(i as int).push(text@));
        }
        lines_shown.push(text);
        i = i + 1;
    }
    assert(run.diagnostics().take(i as int) =~= run.diagnostics());
    let listed = join_texts(failures, "\n- ");
    let shown = join_texts(lines_shown.as_slice(), "\n");
    Text::new("").dec(failures.len() as u64).str(" network endpoint check(s) failed:\n- ").str(
        listed.as_str(),
    ).str("\n\nEndpoint diagnostics:\n").str(shown.as_str()).done()
}

impl BayRun {
    pub open spec fn linked(self, reports: Seq<LinkReport>) -> bool {
        &&& reports.len() == self.topology.links@.len()
        &&& forall|l: int|
            0 <= l < self.topology.links@.len() ==> (#[trigger] reports[l]).of(self, l)
    }
}

/// Certifies every link.
pub fn certify_links(
    topology: &BayTopology,
    boards: &[NodeBoard],
    output: &str,
    profiles: &Roster<Vec<MemoryProbeReport>>,
) -> (res: Result<Vec<LinkReport>, String>)
    requires
        BayRun::of(*topology, boards@, output@).profiled(
            profiles@,
            topology.nodes@.len() as int,
        ),
    ensures
        match BayRun::of(*topology, boards@, output@).links_failure() {
            Some(text) => res matches Err(error) && error@ == text,
            None => res matches Ok(reports) && BayRun::of(*topology, boards@, output@).linked(
                reports@,
            ),
        },
{
    let ghost run = BayRun::of(*topology, boards@, output@);
    let mut reports: Vec<LinkReport> = Vec::new();
    let mut failures: Vec<String> = Vec::new();
    let mut l: usize = 0;
    assert(texts(failures@) =~= Seq::<Seq<char>>::empty());
    while l < topology.links.len()
        invariant
            run == BayRun::of(*topology, boards@, output@),
            run.profiled(profiles@, topology.nodes@.len() as int),
            l <= topology.links@.len(),
            reports@.len() == l,
            run.links_judged(l as int) is Ok,
            texts(failures@) == run.links_judged(l as int)->Ok_0,
            forall|k: int| 0 <= k < l ==> (#[trigger] reports@[k]).of(run, k),
        decreases topology.links@.len() - l,
    {
        match judge_link(topology, profiles, l, &mut failures, Ghost(run)) {
            Ok(report) => {
                reports.push(report);
            },
            Err(error) => {
                proof {
                    lemma_link_error_stays(run, l + 1, topology.links@.len() as int);
                }
                return Err(error);
            },
        }
        l = l + 1;
    }
    assert(texts(failures@).len() == failures@.len());
    if failures.len() > 0 {
        return Err(describe_link_failures(failures.as_slice(), profiles, Ghost(run)));
    }
    Ok(reports)
}

// ---------------------------------------------------------------------------
// Assertions
// ---------------------------------------------------------------------------

/// What `{:?}` shows of a text.
pub uninterp spec fn debug_of(text: Seq<char>) -> Seq<char>;

/// `format!` with `{:?}` on a `str`: the text in double quotes, with its
/// quotes, backslashes and unprintable characters escaped. Which text comes
/// out is a function of the text alone and is named, not stated.
#[verifier::external_body]
fn debug_text(text: &str) -> (res: String)
    ensures
        res@ == debug_of(text@),
{
    format!("{:?}", text)
}

/// What is said of an assertion on a host program's log that does not hold.
/// `shown` is what was not found, as it is shown.
pub open spec fn unreported_text(assertion: HostLogAssertion, shown: Seq<char>) -> Seq<char> {
    ""@ + assertion.name@ + ": host "@ + assertion.node@ + " did not report "@ + shown
}

pub fn describe_unreported(assertion: &HostLogAssertion, shown: &str) -> (res: String)
    ensures
        res@ == unreported_text(*assertion, shown@),
{
    Text::new("").str(assertion.name.as_str()).str(": host ").str(assertion.node.as_str()).str(
        " did not report ",
    ).str(shown).done()
}

/// What is wrong with an assertion, by what it observed.
pub open spec fn violations(assertion: NetworkAssertion, observed: u32) -> Seq<Seq<char>> {
    let subject = ""@ + assertion.name@ + ": "@ + assertion.node@ + "."@ + assertion.probe@;
    let low: Seq<Seq<char>> = match assertion.minimum {
        Some(minimum) => if observed < minimum {
            seq![
                subject + " maximum "@ + dec(observed as nat) + " is below "@ + dec(
                    minimum as nat,
                ),
            ]
        } else {
            Seq::empty()
        },
        None => Seq::empty(),
    };
    let high: Seq<Seq<char>> = match assertion.maximum {
        Some(maximum) => if observed > maximum {
            seq![subject + " maximum "@ + dec(observed as nat) + " exceeds "@ + dec(maximum as nat)]
        } else {
            Seq::empty()
        },
        None => Seq::empty(),
    };
    let bits: Seq<Seq<char>> = match assertion.required_bits {
        Some(required) => if observed & required != required {
            seq![
                subject + " observed 0x"@ + hex8(observed as nat) + ", requires 0x"@ + hex8(
                    required as nat,
                ),
            ]
        } else {
            Seq::empty()
        },
        None => Seq::empty(),
    };
    low + high + bits
}

impl BayRun {
    /// What the first `end` assertions on logs did not find, or which of them
    /// is about a host program that is not there.
    pub open spec fn logs_judged(self, runs: Seq<HostRun>, end: int) -> Result<
        Seq<Seq<char>>,
        Seq<char>,
    >
        decreases end,
    {
        if end <= 0 {
            Ok(Seq::empty())
        } else {
            match self.logs_judged(runs, end - 1) {
                Err(error) => Err(error),
                Ok(earlier) => {
                    let assertion = self.topology.host_log_assertions@[end - 1];
                    match output_of(runs, assertion.node@, runs.len() as int) {
                        None => Err(
                            "host-log assertion "@ + assertion.name@
                                + " references unknown host node "@ + assertion.node@,
                        ),
                        Some(output) => if contains(output, assertion.contains@) {
                            Ok(earlier)
                        } else {
                            Ok(
                                earlier.push(
                                    unreported_text(assertion, debug_of(assertion.contains@)),
                                ),
                            )
                        },
                    }
                },
            }
        }
    }

    /// What assertion `i` is about, or why there is no such thing.
    pub open spec fn observed(self, i: int) -> Result<u32, Seq<char>> {
        let assertion = self.topology.assertions@[i];
        match self.node(assertion.node@) {
            None => Err(
                "assertion "@ + assertion.name@ + " references unknown node "@ + assertion.node@,
            ),
            Some(n) => {
                let probes = self.executions[n].memory_probes@;
                match probe_index(probes, assertion.probe@, 0) {
                    None => Err(
                        "assertion "@ + assertion.name@ + " references unknown probe "@
                            + assertion.probe@ + " on "@ + assertion.node@,
                    ),
                    Some(p) => match assertion.sample {
                        Some(sample) => if sample < self.samples(n, probes[p]).len() {
                            Ok(self.samples(n, probes[p])[sample as int])
                        } else {
                            Err(
                                "assertion "@ + assertion.name@ + " requests sample "@ + dec(
                                    sample as nat,
                                ) + ", but "@ + assertion.node@ + "."@ + assertion.probe@
                                    + " has "@ + dec(self.samples(n, probes[p]).len())
                                    + " samples"@,
                            )
                        },
                        None => Ok(self.peak_of(n, probes[p])),
                    },
                }
            },
        }
    }

    /// How the first `end` assertions are violated, or why one of them cannot
    /// be judged.
    pub open spec fn assertions_judged(self, end: int) -> Result<Seq<Seq<char>>, Seq<char>>
        decreases end,
    {
        if end <= 0 {
            Ok(Seq::empty())
        } else {
            match self.assertions_judged(end - 1) {
                Err(error) => Err(error),
                Ok(earlier) => match self.observed(end - 1) {
                    Err(error) => Err(error),
                    Ok(observed) => Ok(
                        earlier + violations(self.topology.assertions@[end - 1], observed),
                    ),
                },
            }
        }
    }

    /// What an endpoint transmitted and received, in words.
    pub open spec fn endpoint_text(self, l: int, e: int) -> Seq<char> {
        let endpoint = self.topology.links@[l].endpoints@[e];
        let host = has_host(self.topology.host_nodes@, endpoint.node@);
        let traffic = self.traffic(l, e)->Ok_0;
        ""@ + endpoint.node@ + "("@ + direction_text(
            "tx"@,
            if host {
                None
            } else {
                opt_text(endpoint.tx_probe)
            },
            traffic.tx,
        ) + ", "@ + direction_text(
            "rx"@,
            if host {
                None
            } else {
                opt_text(endpoint.rx_probe)
            },
            traffic.rx,
        ) + ")"@
    }

    pub open spec fn link_texts(self) -> Seq<Seq<char>> {
        Seq::new(
            self.topology.links@.len(),
            |l: int|
                ""@ + self.topology.links@[l].name@ + ": "@ + join(self.endpoint_texts(l), ", "@),
        )
    }

    pub open spec fn endpoint_texts(self, l: int) -> Seq<Seq<char>> {
        Seq::new(
            self.topology.links@[l].endpoints@.len(),
            |e: int| self.endpoint_text(l, e),
        )
    }

    pub open spec fn assertion_texts(self) -> Seq<Seq<char>> {
        Seq::new(
            self.topology.assertions@.len(),
            |i: int|
                {
                    let assertion = self.topology.assertions@[i];
                    ""@ + assertion.name@ + ": "@ + assertion.node@ + "."@ + assertion.probe@
                        + "="@ + dec(self.observed(i)->Ok_0 as nat)
                },
        )
    }

    /// Why the assertions do not hold.
    pub open spec fn assertions_failure(self, runs: Seq<HostRun>) -> Option<Seq<char>> {
        match (
            self.logs_judged(runs, self.topology.host_log_assertions@.len() as int),
            self.assertions_judged(self.topology.assertions@.len() as int),
        ) {
            (Err(error), _) => Some(error),
            (_, Err(error)) => Some(error),
            (Ok(logs), Ok(network)) => {
                let failures = logs + network;
                if failures.len() > 0 {
                    Some(
                        ""@ + dec(failures.len()) + " network assertion(s) failed:\n- "@ + join(
                            failures,
                            "\n- "@,
                        ) + "\n\nLink observations:\n"@ + join(self.link_texts(), "\n"@)
                            + "\n\nAssertion observations:\n"@ + join(
                            self.assertion_texts(),
                            "\n"@,
                        ) + "\n\nHost diagnostics:\n"@ + host_detail(runs),
                    )
                } else {
                    None
                }
            },
        }
    }
}

/// `probe=value`, or that there is none.
pub open spec fn direction_text(
    direction: Seq<char>,
    probe: Option<Seq<char>>,
    observed: Option<u32>,
) -> Seq<char> {
    match (probe, observed) {
        (Some(probe), Some(observed)) => ""@ + probe + "="@ + dec(observed as nat),
        _ => ""@ + direction + "=n/a"@,
    }
}

impl AssertionReport {
    pub open spec fn of(self, run: BayRun, i: int) -> bool {
        let assertion = run.topology.assertions@[i];
        &&& self.name@ == assertion.name@
        &&& self.node@ == assertion.node@
        &&& self.probe@ == assertion.probe@
        &&& run.observed(i) == Ok::<u32, Seq<char>>(self.observed)
    }
}

fn push_violations(failures: &mut Vec<String>, assertion: &NetworkAssertion, observed: u32)
    ensures
        texts(final(failures)@) == texts(old(failures)@) + violations(*assertion, observed),
{
    let ghost before = texts(failures@);
    let ghost mut told: Seq<Seq<char>> = Seq::empty();
    assert(before + told =~= before);
    let name = assertion.name.as_str();
    let node = assertion.node.as_str();
    let probe = assertion.probe.as_str();
    if let Some(minimum) = assertion.minimum {
        if observed < minimum {
            let text = Text::new("").str(name).str(": ").str(node).str(".").str(probe).str(
                " maximum ",
            ).dec(observed as u64).str(" is below ").dec(minimum as u64).done();
            proof {
                lemma_texts_push(failures@, text);
                told = told.push(text@);
                assert(texts(failures@).push(text@) =~= before + told);
            }
            failures.push(text);
        }
    }
    if let Some(maximum) = assertion.maximum {
        if observed > maximum {
            let text = Text::new("").str(name).str(": ").str(node).str(".").str(probe).str(
                " maximum ",
            ).dec(observed as u64).str(" exceeds ").dec(maximum as u64).done();
            proof {
                lemma_texts_push(failures@, text);
                told = told.push(text@);
                assert(texts(failures@).push(text@) =~= before + told);
            }
            failures.push(text);
        }
    }
    if let Some(required) = assertion.required_bits {
        if observed & required != required {
            let text = Text::new("").str(name).str(": ").str(node).str(".").str(probe).str(
                " observed 0x",
            ).hex8(observed as u64).str(", requires 0x").hex8(required as u64).done();
            proof {
                lemma_texts_push(failures@, text);
                told = told.push(text@);
                assert(texts(failures@).push(text@) =~= before + told);
            }
            failures.push(text);
        }
    }
    assert(told =~= violations(*assertion, observed));
}

proof fn lemma_log_error_stays(run: BayRun, runs: Seq<HostRun>, i: int, end: int)
    requires
        0 <= i <= end,
        run.logs_judged(runs, i) is Err,
    ensures
        run.logs_judged(runs, end) == run.logs_judged(runs, i),
    decreases end - i,
{
    if i < end {
        lemma_log_error_stays(run, runs, i, end - 1);
    }
}

proof fn lemma_assertion_error_stays(run: BayRun, i: int, end: int)
    requires
        0 <= i <= end,
        run.assertions_judged(i) is Err,
    ensures
        run.assertions_judged(end) == run.assertions_judged(i),
    decreases end - i,
{
    if i < end {
        lemma_assertion_error_stays(run, i, end - 1);
    }
}

fn judge_logs(
    topology: &BayTopology,
    runs: &[HostRun],
    Ghost(run): Ghost<BayRun>,
) -> (res: Result<Vec<String>, String>)
    requires
        run.topology == *topology,
    ensures
        match run.logs_judged(runs@, topology.host_log_assertions@.len() as int) {
            Ok(found) => res matches Ok(failures) && texts(failures@) == found,
            Err(text) => res matches Err(error) && error@ == text,
        },
{
    let mut failures: Vec<String> = Vec::new();
    let mut i: usize = 0;
    assert(texts(failures@) =~= Seq::<Seq<char>>::empty());
    while i < topology.host_log_assertions.len()
        invariant
            run.topology == *topology,
            i <= topology.host_log_assertions@.len(),
            run.logs_judged(runs@, i as int) is Ok,
            texts(failures@) == run.logs_judged(runs@, i as int)->Ok_0,
        decreases topology.host_log_assertions@.len() - i,
    {
        let assertion = &topology.host_log_assertions[i];
        let output = match find_output(runs, assertion.node.as_str()) {
            Some(output) => output,
            None => {
                proof {
                    lemma_log_error_stays(
                        run,
                        runs@,
                        i + 1,
                        topology.host_log_assertions@.len() as int,
                    );
                }
                return Err(
                    Text::new("host-log assertion ").str(assertion.name.as_str()).str(
                        " references unknown host node ",
                    ).str(assertion.node.as_str()).done(),
                );
            },
        };
        let chars = chars_of(output);
        if !has_text(chars.as_slice(), assertion.contains.as_str()) {
            let shown = debug_text(assertion.contains.as_str());
            let text = describe_unreported(assertion, shown.as_str());
            proof {
                lemma_texts_push(failures@, text);
            }
            failures.push(text);
        }
        i = i + 1;
    }
    Ok(failures)
}

fn observe_assertion(
    topology: &BayTopology,
    profiles: &Roster<Vec<MemoryProbeReport>>,
    i: usize,
    Ghost(run): Ghost<BayRun>,
) -> (res: Result<u32, String>)
    requires
        run.topology == *topology,
        run.profiled(profiles@, topology.nodes@.len() as int),
        i < topology.assertions@.len(),
    ensures
        match run.observed(i as int) {
            Ok(observed) => res == Ok::<u32, String>(observed),
            Err(text) => res matches Err(error) && error@ == text,
        },
{
    let assertion = &topology.assertions[i];
    let name = assertion.name.as_str();
    let node = assertion.node.as_str();
    proof {
        lemma_profile_of(run, profiles@, assertion.node@);
    }
    let reports = match profiles.get(node) {
        Some(reports) => reports.as_slice(),
        None => {
            return Err(
                Text::new("assertion ").str(name).str(" references unknown node ").str(
                    node,
                ).done(),
            );
        },
    };
    proof {
        let n = run.node(assertion.node@)->0;
        lemma_reported_index(run, n, reports@, assertion.probe@, 0);
    }
    let at: usize = match find_report(reports, assertion.probe.as_str()) {
        Some(at) => at,
        None => {
            return Err(
                Text::new("assertion ").str(name).str(" references unknown probe ").str(
                    assertion.probe.as_str(),
                ).str(" on ").str(node).done(),
            );
        },
    };
    let report = &reports[at];
    match assertion.sample {
        Some(sample) => if sample < report.samples.len() {
            Ok(report.samples[sample])
        } else {
            Err(
                Text::new("assertion ").str(name).str(" requests sample ").dec(sample as u64).str(
                    ", but ",
                ).str(node).str(".").str(assertion.probe.as_str()).str(" has ").dec(
                    report.samples.len() as u64,
                ).str(" samples").done(),
            )
        },
        None => Ok(report.maximum_observed),
    }
}

impl BayRun {
    pub open spec fn asserted(self, reports: Seq<AssertionReport>) -> bool {
        &&& reports.len() == self.topology.assertions@.len()
        &&& forall|i: int|
            0 <= i < self.topology.assertions@.len() ==> (#[trigger] reports[i]).of(self, i)
    }
}

fn show_direction(direction: &str, probe: &Option<String>, observed: Option<u32>) -> (res: String)
    ensures
        res@ == direction_text(direction@, opt_text(*probe), observed),
{
    match (probe, observed) {
        (Some(probe), Some(observed)) => Text::new("").str(probe.as_str()).str("=").dec(
            observed as u64,
        ).done(),
        _ => Text::new("").str(direction).str("=n/a").done(),
    }
}

fn show_endpoints(report: &LinkReport, Ghost(run): Ghost<BayRun>, Ghost(l): Ghost<int>) -> (res:
    String)
    requires
        report.of(run, l),
        0 <= l < run.topology.links@.len(),
    ensures
        res@ == join(run.endpoint_texts(l), ", "@),
{
    let mut parts: Vec<String> = Vec::new();
    let mut e: usize = 0;
    assert(texts(parts@) =~= run.endpoint_texts(l).take(0));
    while e < report.endpoints.len()
        invariant
            e <= report.endpoints@.len(),
            report.of(run, l),
            texts(parts@) == run.endpoint_texts(l).take(e as int),
        decreases report.endpoints@.len() - e,
    {
        let endpoint = &report.endpoints[e];
        assert(report.endpoints@[e as int].of(run, l, e as int));
        let tx = show_direction("tx", &endpoint.tx_probe, endpoint.tx_observed);
        let rx = show_direction("rx", &endpoint.rx_probe, endpoint.rx_observed);
        let text = Text::new("").str(endpoint.node.as_str()).str("(").str(tx.as_str()).str(
            ", ",
        ).str(rx.as_str()).str(")").done();
        proof {
            assert(text@ == run.endpoint_text(l, e as int));
            lemma_texts_push(parts@, text);
            assert(run.endpoint_texts(l).take(e + 1) =~= run.endpoint_texts(l).take(
                e as int,
            ).push(text@));
        }
        parts.push(text);
        e = e + 1;
    }
    assert(run.endpoint_texts(l).take(e as int) =~= run.endpoint_texts(l));
    join_texts(parts.as_slice(), ", ")
}

fn show_links(links: &[LinkReport], Ghost(run): Ghost<BayRun>) -> (res: String)
    requires
        run.linked(links@),
    ensures
        res@ == join(run.link_texts(), "\n"@),
{
    let mut parts: Vec<String> = Vec::new();
    let mut l: usize = 0;
    assert(texts(parts@) =~= run.link_texts().take(0));
    while l < links.len()
        invariant
            l <= links@.len(),
            run.linked(links@),
            texts(parts@) == run.link_texts().take(l as int),
        decreases links@.len() - l,
    {
        assert(links@[l as int].of(run, l as int));
        let endpoints = show_endpoints(&links[l], Ghost(run), Ghost(l as int));
        let text = Text::new("").str(links[l].name.as_str()).str(": ").str(
            endpoints.as_str(),
        ).done();
        proof {
            lemma_texts_push(parts@, text);
            assert(run.link_texts().take(l + 1) =~= run.link_texts().take(l as int).push(text@));
        }
        parts.push(text);
        l = l + 1;
    }
    assert(run.link_texts().take(l as int) =~= run.link_texts());
    join_texts(parts.as_slice(), "\n")
}

fn show_assertions(reports: &[AssertionReport], Ghost(run): Ghost<BayRun>) -> (res: String)
    requires
        run.asserted(reports@),
    ensures
        res@ == join(run.assertion_texts(), "\n"@),
{
    let mut parts: Vec<String> = Vec::new();
    let mut i: usize = 0;
    assert(texts(parts@) =~= run.assertion_texts().take(0));
    while i < reports.len()
        invariant
            i <= reports@.len(),
            run.asserted(reports@),
            texts(parts@) == run.assertion_texts().take(i as int),
        decreases reports@.len() - i,
    {
        let report = &reports[i];
        assert(reports@[i as int].of(run, i as int));
        let text = Text::new("").str(report.name.as_str()).str(": ").str(
            report.node.as_str(),
        ).str(".").str(report.probe.as_str()).str("=").dec(report.observed as u64).done();
        proof {
            lemma_texts_push(parts@, text);
            assert(run.assertion_texts().take(i + 1) =~= run.assertion_texts().take(
                i as int,
            ).push(text@));
        }
        parts.push(text);
        i = i + 1;
    }
    assert(run.assertion_texts().take(i as int) =~= run.assertion_texts());
    join_texts(parts.as_slice(), "\n")
}

/// Holds the run to every assertion of the topology.
#[verifier::rlimit(40)]
pub fn certify_assertions(
    topology: &BayTopology,
    boards: &[NodeBoard],
    output: &str,
    runs: &[HostRun],
    profiles: &Roster<Vec<MemoryProbeReport>>,
    links: &[LinkReport],
) -> (res: Result<Vec<AssertionReport>, String>)
    requires
        BayRun::of(*topology, boards@, output@).profiled(
            profiles@,
            topology.nodes@.len() as int,
        ),
        BayRun::of(*topology, boards@, output@).linked(links@),
    ensures
        match BayRun::of(*topology, boards@, output@).assertions_failure(runs@) {
            Some(text) => res matches Err(error) && error@ == text,
            None => res matches Ok(reports) && BayRun::of(*topology, boards@, output@).asserted(
                reports@,
            ),
        },
{
    let ghost run = BayRun::of(*topology, boards@, output@);
    let mut failures: Vec<String> = match judge_logs(topology, runs, Ghost(run)) {
        Ok(failures) => failures,
        Err(error) => {
            return Err(error);
        },
    };
    let ghost logs = texts(failures@);
    let mut reports: Vec<AssertionReport> = Vec::new();
    let mut i: usize = 0;
    assert(logs + Seq::<Seq<char>>::empty() =~= logs);
    while i < topology.assertions.len()
        invariant
            run == BayRun::of(*topology, boards@, output@),
            run.profiled(profiles@, topology.nodes@.len() as int),
            run.logs_judged(runs@, topology.host_log_assertions@.len() as int) == Ok::<
                Seq<Seq<char>>,
                Seq<char>,
            >(logs),
            i <= topology.assertions@.len(),
            reports@.len() == i,
            run.assertions_judged(i as int) is Ok,
            texts(failures@) == logs + run.assertions_judged(i as int)->Ok_0,
            forall|k: int| 0 <= k < i ==> (#[trigger] reports@[k]).of(run, k),
        decreases topology.assertions@.len() - i,
    {
        let assertion = &topology.assertions[i];
        match observe_assertion(topology, profiles, i, Ghost(run)) {
            Ok(observed) => {
                push_violations(&mut failures, assertion, observed);
                reports.push(
                    AssertionReport {
                        name: assertion.name.clone(),
                        node: assertion.node.clone(),
                        probe: assertion.probe.clone(),
                        observed,
                    },
                );
            },
            Err(error) => {
                proof {
                    lemma_assertion_error_stays(
                        run,
                        i + 1,
                        topology.assertions@.len() as int,
                    );
                }
                return Err(error);
            },
        }
        i = i + 1;
        assert(texts(failures@) =~= logs + run.assertions_judged(i as int)->Ok_0);
    }
    assert(texts(failures@).len() == failures@.len());
    if failures.len() > 0 {
        let listed = join_texts(failures.as_slice(), "\n- ");
        let link_detail = show_links(links, Ghost(run));
        let assertion_detail = show_assertions(reports.as_slice(), Ghost(run));
        let hosts = describe_hosts(runs);
        return Err(
            Text::new("").dec(failures.len() as u64).str(" network assertion(s) failed:\n- ").str(
                listed.as_str(),
            ).str("\n\nLink observations:\n").str(link_detail.as_str()).str(
                "\n\nAssertion observations:\n",
            ).str(assertion_detail.as_str()).str("\n\nHost diagnostics:\n").str(
                hosts.as_str(),
            ).done(),
        );
    }
    Ok(reports)
}

// ---------------------------------------------------------------------------
// The whole run
// ---------------------------------------------------------------------------

impl BayRun {
    /// Why the run is not certified, the first reason found.
    pub open spec fn failure(
        self,
        succeeded: bool,
        status: Seq<char>,
        runs: Seq<HostRun>,
    ) -> Option<Seq<char>> {
        let exited = exits(runs, runs.len() as int);
        if exited.len() > 0 {
            Some(
                join(exited, "; "@) + if completed(self.output, succeeded) {
                    ""@
                } else {
                    "\n\n"@ + emulator_failure(self.output, status)
                },
            )
        } else if !completed(self.output, succeeded) {
            Some(emulator_failure(self.output, status))
        } else if self.unbooted(0) is Some {
            Some(
                "node "@ + self.topology.nodes@[self.unbooted(0)->0].name@
                    + " did not reach its boot-success symbol"@,
            )
        } else if self.nodes_failure(0) is Some {
            Some(
                ""@ + self.nodes_failure(0)->0 + "\n\nHost diagnostics:\n"@ + host_detail(runs),
            )
        } else if self.links_failure() is Some {
            self.links_failure()
        } else {
            self.assertions_failure(runs)
        }
    }
}

impl BayReport {
    pub open spec fn of(self, run: BayRun) -> bool {
        &&& self.bay@ == run.topology.name@
        &&& self.nodes_executed == run.topology.nodes@.len()
        &&& self.host_nodes_executed == run.topology.host_nodes@.len()
        &&& self.links_connected == run.topology.links@.len()
        &&& self.virtual_time_ms == run.topology.virtual_time_ms
        &&& texts(self.register_dump@) == prefixed_pairs(
            lines(run.output),
            "SEDS_NODE "@,
            lines(run.output).len() as int,
        )
        &&& run.profiled(self.memory_profiles@, run.topology.nodes@.len() as int)
        &&& run.linked(self.link_reports@)
        &&& run.asserted(self.assertion_reports@)
    }
}

/// Judges a run that is over: `output` is what the emulator printed, `status`
/// its exit status in words, and `runs` are the host programs. A host program
/// that exits early does not hide that the emulator failed too.
pub fn certify(
    topology: &BayTopology,
    boards: &[NodeBoard],
    output: &str,
    succeeded: bool,
    status: &str,
    runs: &[HostRun],
) -> (res: Result<BayReport, String>)
    requires
        boards@.len() == topology.nodes@.len(),
    ensures
        match BayRun::of(*topology, boards@, output@).failure(succeeded, status@, runs@) {
            Some(text) => res matches Err(error) && error@ == text,
            None => res matches Ok(report) && report.of(
                BayRun::of(*topology, boards@, output@),
            ),
        },
{
    let ghost run = BayRun::of(*topology, boards@, output@);
    let exited = list_exits(runs);
    assert(texts(exited@).len() == exited@.len());
    if exited.len() > 0 {
        let hosts = Text { inner: join_texts(exited.as_slice(), "; ") };
        if is_completed(output, succeeded) {
            return Err(hosts.str("").done());
        }
        let emulator = Text::new("\n\n").str(
            describe_emulator_failure(output, status).as_str(),
        ).done();
        return Err(hosts.str(emulator.as_str()).done());
    }
    if !is_completed(output, succeeded) {
        return Err(describe_emulator_failure(output, status));
    }
    if let Some(n) = find_unbooted(topology, output, Ghost(run)) {
        return Err(
            Text::new("node ").str(topology.nodes[n].name.as_str()).str(
                " did not reach its boot-success symbol",
            ).done(),
        );
    }
    let register_dump = pairs_with_prefix(output, "SEDS_NODE ");
    let memory_profiles = match profile_nodes(topology, boards, output) {
        Ok(profiles) => profiles,
        Err(error) => {
            let hosts = describe_hosts(runs);
            return Err(
                Text::new("").str(error.as_str()).str("\n\nHost diagnostics:\n").str(
                    hosts.as_str(),
                ).done(),
            );
        },
    };
    let link_reports = match certify_links(topology, boards, output, &memory_profiles) {
        Ok(reports) => reports,
        Err(error) => {
            return Err(error);
        },
    };
    let assertion_reports = match certify_assertions(
        topology,
        boards,
        output,
        runs,
        &memory_profiles,
        link_reports.as_slice(),
    ) {
        Ok(reports) => reports,
        Err(error) => {
            return Err(error);
        },
    };
    Ok(
        BayReport {
            bay: topology.name.clone(),
            nodes_executed: topology.nodes.len(),
            host_nodes_executed: topology.host_nodes.len(),
            links_connected: topology.links.len(),
            virtual_time_ms: topology.virtual_time_ms,
            register_dump,
            memory_profiles,
            link_reports,
            assertion_reports,
        },
    )
}

// ---------------------------------------------------------------------------
// What a certified run shows
// ---------------------------------------------------------------------------

proof fn lemma_judged_endpoint(run: BayRun, l: int, e: int, end: int)
    requires
        0 <= e < end,
        run.endpoints_judged(l, end) matches Ok(failures) && failures.len() == 0,
    ensures
        run.traffic(l, e) matches Ok(traffic) && traffic.failures.len() == 0,
    decreases end,
{
    if e < end - 1 {
        lemma_judged_endpoint(run, l, e, end - 1);
    }
}

proof fn lemma_judged_link(run: BayRun, l: int, end: int)
    requires
        0 <= l < end,
        run.links_judged(end) matches Ok(failures) && failures.len() == 0,
    ensures
        run.endpoints_judged(l, run.topology.links@[l].endpoints@.len() as int) matches Ok(failures)
            && failures.len() == 0,
    decreases end,
{
    if l < end - 1 {
        lemma_judged_link(run, l, end - 1);
    }
}

/// On every link of a certified run, each endpoint that is a board was seen to
/// transmit and receive as much as it must, or, where it has no such probes,
/// to be as active as it must.
pub proof fn law_certified_links_carry_traffic(run: BayRun, l: int, e: int)
    requires
        run.links_failure() is None,
        0 <= l < run.topology.links@.len(),
        0 <= e < run.topology.links@[l].endpoints@.len(),
        !has_host(
            run.topology.host_nodes@,
            run.topology.links@[l].endpoints@[e].node@,
        ),
    ensures
        ({
            let endpoint = run.topology.links@[l].endpoints@[e];
            let n = run.node(endpoint.node@)->0;
            &&& run.node(endpoint.node@) is Some
            &&& endpoint.tx_probe matches Some(probe) ==> run.peak(n, probe@) is Some && run.peak(
                n,
                probe@,
            )->0 >= endpoint.minimum_tx
            &&& endpoint.rx_probe matches Some(probe) ==> run.peak(n, probe@) is Some && run.peak(
                n,
                probe@,
            )->0 >= endpoint.minimum_rx
            &&& (endpoint.tx_probe is None && endpoint.rx_probe is None) ==> (
            endpoint.activity_probe matches Some(probe) && run.peak(n, probe@) is Some && run.peak(
                n,
                probe@,
            )->0 >= endpoint.minimum_activity)
            &&& endpoint.tx_probe is Some && endpoint.rx_probe is Some
                || endpoint.activity_probe is Some
        }),
{
    lemma_judged_link(run, l, run.topology.links@.len() as int);
    lemma_judged_endpoint(run, l, e, run.topology.links@[l].endpoints@.len() as int);
}

proof fn lemma_judged_assertion(run: BayRun, i: int, end: int)
    requires
        0 <= i < end,
        run.assertions_judged(end) matches Ok(failures) && failures.len() == 0,
    ensures
        run.observed(i) matches Ok(observed) && violations(
            run.topology.assertions@[i],
            observed,
        ).len() == 0,
    decreases end,
{
    if i < end - 1 {
        lemma_judged_assertion(run, i, end - 1);
    }
}

/// Every network assertion of a certified run holds of what it is about.
pub proof fn law_certified_assertions_hold(run: BayRun, runs: Seq<HostRun>, i: int)
    requires
        run.assertions_failure(runs) is None,
        0 <= i < run.topology.assertions@.len(),
    ensures
        ({
            let assertion = run.topology.assertions@[i];
            &&& run.observed(i) matches Ok(observed)
            &&& assertion.minimum matches Some(minimum) ==> observed >= minimum
            &&& assertion.maximum matches Some(maximum) ==> observed <= maximum
            &&& assertion.required_bits matches Some(required) ==> observed & required == required
        }),
{
    lemma_judged_assertion(run, i, run.topology.assertions@.len() as int);
}

proof fn lemma_judged_log(run: BayRun, runs: Seq<HostRun>, i: int, end: int)
    requires
        0 <= i < end,
        run.logs_judged(runs, end) matches Ok(failures) && failures.len() == 0,
    ensures
        ({
            let assertion = run.topology.host_log_assertions@[i];
            output_of(runs, assertion.node@, runs.len() as int) matches Some(output) && contains(
                output,
                assertion.contains@,
            )
        }),
    decreases end,
{
    if i < end - 1 {
        lemma_judged_log(run, runs, i, end - 1);
    }
}

/// Every host program of a certified run printed what it had to.
pub proof fn law_certified_logs_hold(run: BayRun, runs: Seq<HostRun>, i: int)
    requires
        run.assertions_failure(runs) is None,
        0 <= i < run.topology.host_log_assertions@.len(),
    ensures
        ({
            let assertion = run.topology.host_log_assertions@[i];
            output_of(runs, assertion.node@, runs.len() as int) matches Some(output) && contains(
                output,
                assertion.contains@,
            )
        }),
{
    lemma_judged_log(run, runs, i, run.topology.host_log_assertions@.len() as int);
}

proof fn lemma_booted(run: BayRun, n: int, from: int)
    requires
        0 <= from <= n < run.topology.nodes@.len(),
        run.unbooted(from) is None,
    ensures
        marker_shown(run.output, boot_marker(run.topology.nodes@[n].name@)),
    decreases n - from,
{
    if from < n {
        lemma_booted(run, n, from + 1);
    }
}

proof fn lemma_no_exit(runs: Seq<HostRun>, i: int, end: int)
    requires
        0 <= i < end,
        exits(runs, end).len() == 0,
    ensures
        runs[i].exit is None,
    decreases end,
{
    if i < end - 1 {
        lemma_no_exit(runs, i, end - 1);
    }
}

/// In a certified run the emulator executed the whole script, every board
/// reached its boot symbol, every host program ran to the end, and the links
/// and assertions hold.
pub proof fn law_certified_bays_ran(
    run: BayRun,
    succeeded: bool,
    status: Seq<char>,
    runs: Seq<HostRun>,
)
    requires
        run.failure(succeeded, status, runs) is None,
    ensures
        completed(run.output, succeeded),
        forall|n: int|
            0 <= n < run.topology.nodes@.len() ==> marker_shown(
                run.output,
                boot_marker((#[trigger] run.topology.nodes@[n]).name@),
            ),
        forall|i: int| 0 <= i < runs.len() ==> (#[trigger] runs[i]).exit is None,
        run.nodes_failure(0) is None,
        run.links_failure() is None,
        run.assertions_failure(runs) is None,
{
    assert forall|n: int| 0 <= n < run.topology.nodes@.len() implies marker_shown(
        run.output,
        boot_marker((#[trigger] run.topology.nodes@[n]).name@),
    ) by {
        lemma_booted(run, n, 0);
    }
    assert forall|i: int| 0 <= i < runs.len() implies (#[trigger] runs[i]).exit is None by {
        lemma_no_exit(runs, i, runs.len() as int);
    }
}

// ---------------------------------------------------------------------------
// Which runs are certified
// ---------------------------------------------------------------------------

proof fn lemma_order(run: BayRun, name: Seq<char>, end: int)
    requires
        0 <= end <= run.topology.nodes@.len(),
    ensures
        in_order(run.order(end)),
        match entry(run.order(end), name) {
            Some(n) => 0 <= n < end && run.topology.nodes@[n].name@ == name && forall|k: int|
                n < k < end ==> (#[trigger] run.topology.nodes@[k]).name@ != name,
            None => forall|k: int|
                0 <= k < end ==> (#[trigger] run.topology.nodes@[k]).name@ != name,
        },
    decreases end,
{
    if end > 0 {
        lemma_order(run, name, end - 1);
        let last = run.topology.nodes@[end - 1].name@;
        law_names_stay_in_order(run.order(end - 1), last, end - 1);
        law_entries_are_found_again(run.order(end - 1), last, end - 1, name);
    }
}

/// A node is found by its name, and only a name that no node has finds none.
pub proof fn law_nodes_are_found_by_name(run: BayRun, name: Seq<char>)
    ensures
        match run.node(name) {
            Some(n) => 0 <= n < run.topology.nodes@.len() && run.topology.nodes@[n].name@ == name,
            None => forall|k: int|
                0 <= k < run.topology.nodes@.len() ==> (#[trigger] run.topology.nodes@[k]).name@
                    != name,
        },
{
    lemma_order(run, name, run.topology.nodes@.len() as int);
}

proof fn lemma_probe_index(probes: Seq<MemoryProbe>, name: Seq<char>, from: int)
    requires
        0 <= from <= probes.len(),
    ensures
        match probe_index(probes, name, from) {
            Some(p) => from <= p < probes.len() && probes[p].name@ == name && forall|k: int|
                from <= k < p ==> (#[trigger] probes[k]).name@ != name,
            None => forall|k: int| from <= k < probes.len() ==> (#[trigger] probes[k]).name@ != name,
        },
    decreases probes.len() - from,
{
    if from < probes.len() && probes[from].name@ != name {
        lemma_probe_index(probes, name, from + 1);
    }
}

/// What a probe of a node came to is the greatest of its samples after the
/// warm-up; the probe is the first of its name.
pub proof fn law_peaks_are_reached(run: BayRun, n: int, name: Seq<char>)
    ensures
        ({
            let probes = run.executions[n].memory_probes@;
            let warmup = run.executions[n].memory_probe_warmup_samples as int;
            match run.peak(n, name) {
                None => forall|p: int|
                    0 <= p < probes.len() ==> (#[trigger] probes[p]).name@ != name,
                Some(peak) => exists|p: int|
                    {
                        let samples = run.samples(n, #[trigger] probes[p]);
                        &&& 0 <= p < probes.len() && probes[p].name@ == name
                        &&& forall|q: int| 0 <= q < p ==> (#[trigger] probes[q]).name@ != name
                        &&& warmup < samples.len() ==> (forall|k: int|
                            warmup <= k < samples.len() ==> (#[trigger] samples[k]) <= peak) && (
                        exists|k: int|
                            warmup <= k < samples.len() && (#[trigger] samples[k]) == peak)
                    },
            }
        }),
{
    let probes = run.executions[n].memory_probes@;
    let warmup = run.executions[n].memory_probe_warmup_samples as int;
    lemma_probe_index(probes, name, 0);
    match probe_index(probes, name, 0) {
        None => {},
        Some(p) => {
            let samples = run.samples(n, probes[p]);
            let window = qualified(samples, warmup);
            let peak = run.peak_of(n, probes[p]);
            if warmup < samples.len() {
                law_extremes(window, 0);
                let at = choose|k: int| 0 <= k < window.len() && window[k] == greatest(window);
                assert(samples[warmup + at] == peak);
                assert forall|k: int| warmup <= k < samples.len() implies (#[trigger] samples[k])
                    <= peak by {
                    law_extremes(window, k - warmup);
                    assert(window[k - warmup] == samples[k]);
                }
            }
        },
    }
}

/// The probe, if there is one, is one of node `n`'s and reached the minimum.
pub open spec fn reaches(run: BayRun, n: int, probe: Option<String>, minimum: u32) -> bool {
    probe is Some ==> run.peak(n, (probe->0)@) is Some && run.peak(n, (probe->0)@)->0 >= minimum
}

/// An endpoint is a host program, or a board that is there and that was seen
/// to transmit, to receive or to be active as much as it must. Probes for both
/// directions, or one for the activity, are needed; the activity counts where
/// no direction has a probe.
pub open spec fn endpoint_sound(run: BayRun, l: int, e: int) -> bool {
    let endpoint = run.topology.links@[l].endpoints@[e];
    let n = run.node(endpoint.node@)->0;
    has_host(run.topology.host_nodes@, endpoint.node@) || {
        &&& run.node(endpoint.node@) is Some
        &&& reaches(run, n, endpoint.tx_probe, endpoint.minimum_tx)
        &&& reaches(run, n, endpoint.rx_probe, endpoint.minimum_rx)
        &&& endpoint.tx_probe is None && endpoint.rx_probe is None ==> reaches(
            run,
            n,
            endpoint.activity_probe,
            endpoint.minimum_activity,
        )
        &&& endpoint.tx_probe is Some && endpoint.rx_probe is Some
            || endpoint.activity_probe is Some
    }
}

proof fn lemma_traffic(run: BayRun, l: int, e: int)
    ensures
        run.traffic(l, e) is Ok && run.traffic(l, e)->Ok_0.failures.len() == 0 <==> endpoint_sound(
            run,
            l,
            e,
        ),
{
}

proof fn lemma_endpoints(run: BayRun, l: int, end: int)
    requires
        0 <= end,
    ensures
        run.endpoints_judged(l, end) is Ok && run.endpoints_judged(l, end)->Ok_0.len() == 0
            <==> forall|e: int| 0 <= e < end ==> #[trigger] endpoint_sound(run, l, e),
    decreases end,
{
    if end > 0 {
        lemma_endpoints(run, l, end - 1);
        lemma_traffic(run, l, end - 1);
        if run.endpoints_judged(l, end) is Ok && run.endpoints_judged(l, end)->Ok_0.len() == 0 {
            assert forall|e: int| 0 <= e < end implies #[trigger] endpoint_sound(run, l, e) by {
                if e < end - 1 {
                    assert(0 <= e < end - 1);
                }
            }
        } else {
            assert(!endpoint_sound(run, l, end - 1) || exists|e: int|
                0 <= e < end - 1 && !#[trigger] endpoint_sound(run, l, e));
        }
    }
}

spec fn ends_sound(run: BayRun, l: int) -> bool {
    forall|e: int|
        0 <= e < run.topology.links@[l].endpoints@.len() ==> #[trigger] endpoint_sound(run, l, e)
}

proof fn lemma_links(run: BayRun, end: int)
    requires
        0 <= end,
    ensures
        run.links_judged(end) is Ok && run.links_judged(end)->Ok_0.len() == 0 <==> forall|l: int|
            0 <= l < end ==> #[trigger] ends_sound(run, l),
    decreases end,
{
    if end > 0 {
        lemma_links(run, end - 1);
        lemma_endpoints(run, end - 1, run.topology.links@[end - 1].endpoints@.len() as int);
        if run.links_judged(end) is Ok && run.links_judged(end)->Ok_0.len() == 0 {
            assert forall|l: int| 0 <= l < end implies #[trigger] ends_sound(run, l) by {
                if l < end - 1 {
                    assert(0 <= l < end - 1);
                }
            }
        } else {
            assert(!ends_sound(run, end - 1) || exists|l: int|
                0 <= l < end - 1 && !#[trigger] ends_sound(run, l));
        }
    }
}

/// The links are certified exactly where every endpoint of every link carried
/// what it must.
pub proof fn law_which_links_are_certified(run: BayRun)
    ensures
        run.links_failure() is None <==> forall|l: int, e: int|
            0 <= l < run.topology.links@.len() && 0 <= e < run.topology.links@[l].endpoints@.len()
                ==> #[trigger] endpoint_sound(run, l, e),
{
    let links = run.topology.links@;
    lemma_links(run, links.len() as int);
    if run.links_failure() is None {
        assert forall|l: int, e: int|
            0 <= l < links.len() && 0 <= e
                < links[l].endpoints@.len() implies #[trigger] endpoint_sound(run, l, e) by {
            assert(ends_sound(run, l));
        }
    }
    if forall|l: int, e: int|
        0 <= l < links.len() && 0 <= e < links[l].endpoints@.len() ==> #[trigger] endpoint_sound(
            run,
            l,
            e,
        ) {
        assert forall|l: int| 0 <= l < links.len() implies #[trigger] ends_sound(run, l) by {}
    }
}

/// The log of the last host program of this name.
pub open spec fn last_run(runs: Seq<HostRun>, name: Seq<char>, r: int) -> bool {
    &&& 0 <= r < runs.len()
    &&& runs[r].name@ == name
    &&& forall|k: int| r < k < runs.len() ==> (#[trigger] runs[k]).name@ != name
}

proof fn lemma_output_of(runs: Seq<HostRun>, name: Seq<char>, end: int)
    requires
        0 <= end <= runs.len(),
        forall|k: int| end <= k < runs.len() ==> (#[trigger] runs[k]).name@ != name,
    ensures
        match output_of(runs, name, end) {
            Some(output) => exists|r: int| #[trigger]
                last_run(runs, name, r) && output == runs[r].output@,
            None => forall|k: int| 0 <= k < runs.len() ==> (#[trigger] runs[k]).name@ != name,
        },
    decreases end,
{
    if end > 0 {
        if runs[end - 1].name@ == name {
            assert(last_run(runs, name, end - 1));
        } else {
            lemma_output_of(runs, name, end - 1);
        }
    }
}

/// What a host program is said to have printed is what the last of that name
/// printed.
pub proof fn law_logs_are_found_by_name(runs: Seq<HostRun>, name: Seq<char>, r: int)
    ensures
        last_run(runs, name, r) ==> output_of(runs, name, runs.len() as int) == Some(
            runs[r].output@,
        ),
        (forall|k: int| 0 <= k < runs.len() ==> (#[trigger] runs[k]).name@ != name) ==> output_of(
            runs,
            name,
            runs.len() as int,
        ) is None,
{
    lemma_output_of(runs, name, runs.len() as int);
    if last_run(runs, name, r) {
        assert(runs[r].name@ == name);
        let found = choose|s: int| #[trigger]
            last_run(runs, name, s) && output_of(runs, name, runs.len() as int) == Some(
                runs[s].output@,
            );
        assert(found == r);
    }
    if forall|k: int| 0 <= k < runs.len() ==> (#[trigger] runs[k]).name@ != name {
        if output_of(runs, name, runs.len() as int) is Some {
            let found = choose|s: int| #[trigger] last_run(runs, name, s);
            assert(runs[found].name@ == name);
        }
    }
}

/// The host program that the assertion names printed what it must.
pub open spec fn log_sound(run: BayRun, runs: Seq<HostRun>, i: int) -> bool {
    let assertion = run.topology.host_log_assertions@[i];
    let log = output_of(runs, assertion.node@, runs.len() as int);
    log is Some && contains(log->0, assertion.contains@)
}

/// What the assertion is about is there and lies within its bounds, with every
/// bit that it must have.
pub open spec fn assertion_sound(run: BayRun, i: int) -> bool {
    let assertion = run.topology.assertions@[i];
    run.observed(i) is Ok && {
        let observed = run.observed(i)->Ok_0;
        &&& assertion.minimum is Some ==> observed >= assertion.minimum->0
        &&& assertion.maximum is Some ==> observed <= assertion.maximum->0
        &&& assertion.required_bits is Some ==> observed & assertion.required_bits->0
            == assertion.required_bits->0
    }
}

proof fn lemma_logs(run: BayRun, runs: Seq<HostRun>, end: int)
    requires
        0 <= end,
    ensures
        run.logs_judged(runs, end) is Ok && run.logs_judged(runs, end)->Ok_0.len() == 0 <==> forall|
            i: int,
        |
            0 <= i < end ==> #[trigger] log_sound(run, runs, i),
    decreases end,
{
    if end > 0 {
        lemma_logs(run, runs, end - 1);
        if run.logs_judged(runs, end) is Ok && run.logs_judged(runs, end)->Ok_0.len() == 0 {
            assert forall|i: int| 0 <= i < end implies #[trigger] log_sound(run, runs, i) by {
                if i < end - 1 {
                    assert(0 <= i < end - 1);
                }
            }
        } else {
            assert(!log_sound(run, runs, end - 1) || exists|i: int|
                0 <= i < end - 1 && !#[trigger] log_sound(run, runs, i));
        }
    }
}

proof fn lemma_assertions(run: BayRun, end: int)
    requires
        0 <= end,
    ensures
        run.assertions_judged(end) is Ok && run.assertions_judged(end)->Ok_0.len() == 0
            <==> forall|i: int| 0 <= i < end ==> #[trigger] assertion_sound(run, i),
    decreases end,
{
    if end > 0 {
        lemma_assertions(run, end - 1);
        if run.assertions_judged(end) is Ok && run.assertions_judged(end)->Ok_0.len() == 0 {
            assert forall|i: int| 0 <= i < end implies #[trigger] assertion_sound(run, i) by {
                if i < end - 1 {
                    assert(0 <= i < end - 1);
                }
            }
        } else {
            assert(!assertion_sound(run, end - 1) || exists|i: int|
                0 <= i < end - 1 && !#[trigger] assertion_sound(run, i));
        }
    }
}

/// The assertions hold exactly where every host program printed what it must
/// and every observation lies within its bounds.
pub proof fn law_which_assertions_hold(run: BayRun, runs: Seq<HostRun>)
    ensures
        run.assertions_failure(runs) is None <==> {
            &&& forall|i: int|
                0 <= i < run.topology.host_log_assertions@.len() ==> #[trigger] log_sound(
                    run,
                    runs,
                    i,
                )
            &&& forall|i: int|
                0 <= i < run.topology.assertions@.len() ==> #[trigger] assertion_sound(run, i)
        },
{
    lemma_logs(run, runs, run.topology.host_log_assertions@.len() as int);
    lemma_assertions(run, run.topology.assertions@.len() as int);
}

/// An assertion is about the sample that it names, and else about the peak, of
/// the first probe of that name on the node of that name.
pub proof fn law_what_assertions_observe(run: BayRun, i: int)
    ensures
        ({
            let assertion = run.topology.assertions@[i];
            let n = run.node(assertion.node@);
            &&& run.observed(i) is Ok ==> n is Some && run.peak(n->0, assertion.probe@) is Some
            &&& run.observed(i) is Ok && assertion.sample is None ==> run.observed(i)->Ok_0
                == run.peak(n->0, assertion.probe@)->0
            &&& n is Some && assertion.sample is None && run.peak(
                n->0,
                assertion.probe@,
            ) is Some ==> run.observed(i) is Ok
            &&& n is Some && assertion.sample is Some ==> {
                let probes = run.executions[n->0].memory_probes@;
                forall|p: int|
                    0 <= p < probes.len() && (#[trigger] probes[p]).name@ == assertion.probe@ && (
                    forall|q: int|
                        0 <= q < p ==> (#[trigger] probes[q]).name@ != assertion.probe@) ==> {
                        let samples = run.samples(n->0, probes[p]);
                        let k = assertion.sample->0 as int;
                        &&& run.observed(i) is Ok <==> k < samples.len()
                        &&& k < samples.len() ==> run.observed(i)->Ok_0 == samples[k]
                    }
            }
        }),
{
    let assertion = run.topology.assertions@[i];
    let n = run.node(assertion.node@);
    if n is Some {
        let probes = run.executions[n->0].memory_probes@;
        lemma_probe_index(probes, assertion.probe@, 0);
    }
}

/// All samples of probe `p` of the node were read, and keep its limits.
pub open spec fn probe_sound(run: BayRun, n: int, p: int) -> bool {
    let execution = run.executions[n];
    let probe = execution.memory_probes@[p];
    let read = node_samples(
        run.topology.nodes@[n].name@,
        execution,
        probe,
        run.output,
        run.topology.sample_count as int,
    );
    let warmup = execution.memory_probe_warmup_samples as int;
    read is Ok && {
        &&& probe.minimum is Some ==> !falls_below(read->Ok_0, warmup, probe.minimum->0)
        &&& probe.maximum is Some ==> !rises_above(read->Ok_0, warmup, probe.maximum->0)
        &&& probe.max_end_drop is Some && run.topology.enforce_end_drop ==> !floor_sinks(
            read->Ok_0,
            warmup,
            probe.max_end_drop->0,
        )
    }
}

proof fn lemma_node_error(run: BayRun, n: int, from: int)
    requires
        0 <= from,
    ensures
        ({
            let name = run.topology.nodes@[n].name@;
            let count = run.topology.sample_count as int;
            let probes = run.executions[n].memory_probes@;
            node_error(name, run.executions[n], run.output, count, from) is None <==> forall|p: int|
                from <= p < probes.len() ==> node_samples(
                    name,
                    run.executions[n],
                    #[trigger] probes[p],
                    run.output,
                    count,
                ) is Ok
        }),
    decreases run.executions[n].memory_probes@.len() - from,
{
    let name = run.topology.nodes@[n].name@;
    let count = run.topology.sample_count as int;
    let probes = run.executions[n].memory_probes@;
    if from < probes.len() {
        lemma_node_error(run, n, from + 1);
        if node_error(name, run.executions[n], run.output, count, from) is None {
            assert forall|p: int| from <= p < probes.len() implies node_samples(
                name,
                run.executions[n],
                #[trigger] probes[p],
                run.output,
                count,
            ) is Ok by {
                if p > from {
                    assert(from + 1 <= p);
                }
            }
        }
    }
}

proof fn lemma_node_failures(run: BayRun, n: int, end: int)
    requires
        0 <= end <= run.executions[n].memory_probes@.len(),
        forall|p: int|
            0 <= p < run.executions[n].memory_probes@.len() ==> node_samples(
                run.topology.nodes@[n].name@,
                run.executions[n],
                #[trigger] run.executions[n].memory_probes@[p],
                run.output,
                run.topology.sample_count as int,
            ) is Ok,
    ensures
        node_failures(
            run.topology.nodes@[n].name@,
            run.executions[n],
            run.output,
            run.topology.sample_count as int,
            run.topology.enforce_end_drop,
            end,
        ).len() == 0 <==> forall|p: int| 0 <= p < end ==> #[trigger] probe_sound(run, n, p),
    decreases end,
{
    if end > 0 {
        lemma_node_failures(run, n, end - 1);
        let probe = run.executions[n].memory_probes@[end - 1];
        let samples = run.samples(n, probe);
        law_each_broken_limit_is_told(
            probe,
            samples,
            run.executions[n].memory_probe_warmup_samples as int,
            run.topology.enforce_end_drop,
        );
        assert(probe_sound(run, n, end - 1) <==> limit_failures(
            probe,
            samples,
            run.executions[n].memory_probe_warmup_samples as int,
            run.topology.enforce_end_drop,
        ).len() == 0);
        assert((forall|p: int| 0 <= p < end ==> #[trigger] probe_sound(run, n, p)) <==> (forall|
            p: int,
        |
            0 <= p < end - 1 ==> #[trigger] probe_sound(run, n, p)) && probe_sound(
            run,
            n,
            end - 1,
        ));
    }
}

/// A node is qualified exactly where each of its probes has all its samples
/// and keeps its limits.
pub proof fn law_which_nodes_are_qualified(run: BayRun, n: int)
    ensures
        run.node_failure(n) is None <==> forall|p: int|
            0 <= p < run.executions[n].memory_probes@.len() ==> #[trigger] probe_sound(run, n, p),
{
    let probes = run.executions[n].memory_probes@;
    lemma_node_error(run, n, 0);
    if forall|p: int|
        0 <= p < probes.len() ==> node_samples(
            run.topology.nodes@[n].name@,
            run.executions[n],
            #[trigger] probes[p],
            run.output,
            run.topology.sample_count as int,
        ) is Ok {
        lemma_node_failures(run, n, probes.len() as int);
    } else {
        let p = choose|p: int|
            0 <= p < probes.len() && node_samples(
                run.topology.nodes@[n].name@,
                run.executions[n],
                #[trigger] probes[p],
                run.output,
                run.topology.sample_count as int,
            ) is Err;
        assert(!probe_sound(run, n, p));
    }
}

proof fn lemma_nodes_failure(run: BayRun, from: int)
    requires
        0 <= from,
    ensures
        run.nodes_failure(from) is None <==> forall|n: int|
            from <= n < run.topology.nodes@.len() ==> #[trigger] run.node_failure(n) is None,
    decreases run.topology.nodes@.len() - from,
{
    if from < run.topology.nodes@.len() {
        lemma_nodes_failure(run, from + 1);
        if run.nodes_failure(from) is None {
            assert forall|n: int| from <= n < run.topology.nodes@.len() implies #[trigger] run.node_failure(
                n,
            ) is None by {
                if n > from {
                    assert(from + 1 <= n);
                }
            }
        } else {
            assert(run.node_failure(from) is Some || exists|n: int|
                from + 1 <= n < run.topology.nodes@.len() && #[trigger] run.node_failure(n) is Some);
        }
    }
}

proof fn lemma_unbooted(run: BayRun, from: int)
    requires
        0 <= from,
    ensures
        run.unbooted(from) is None <==> forall|n: int|
            from <= n < run.topology.nodes@.len() ==> marker_shown(
                run.output,
                boot_marker((#[trigger] run.topology.nodes@[n]).name@),
            ),
    decreases run.topology.nodes@.len() - from,
{
    if from < run.topology.nodes@.len() {
        lemma_unbooted(run, from + 1);
        if run.unbooted(from) is None {
            assert forall|n: int| from <= n < run.topology.nodes@.len() implies marker_shown(
                run.output,
                boot_marker((#[trigger] run.topology.nodes@[n]).name@),
            ) by {
                if n > from {
                    assert(from + 1 <= n);
                }
            }
        }
    }
}

proof fn lemma_exits(runs: Seq<HostRun>, end: int)
    requires
        0 <= end,
    ensures
        exits(runs, end).len() == 0 <==> forall|i: int|
            0 <= i < end ==> (#[trigger] runs[i]).exit is None,
    decreases end,
{
    if end > 0 {
        lemma_exits(runs, end - 1);
        if exits(runs, end).len() == 0 {
            assert forall|i: int| 0 <= i < end implies (#[trigger] runs[i]).exit is None by {
                if i < end - 1 {
                    assert(0 <= i < end - 1);
                }
            }
        }
    }
}

/// A run is certified exactly where no host program exited early, the emulator
/// succeeded, refused no command and printed the last line of its script, every
/// node booted and is qualified, and the links and assertions pass.
pub proof fn law_which_runs_are_certified(
    run: BayRun,
    succeeded: bool,
    status: Seq<char>,
    runs: Seq<HostRun>,
)
    ensures
        run.failure(succeeded, status, runs) is None <==> {
            &&& forall|i: int| 0 <= i < runs.len() ==> (#[trigger] runs[i]).exit is None
            &&& succeeded
            &&& exists|i: int|
                0 <= i < lines(run.output).len() && trim(#[trigger] lines(run.output)[i])
                    == "SEDS_BAY_COMPLETE"@
            &&& !command_error(run.output)
            &&& forall|n: int|
                0 <= n < run.topology.nodes@.len() ==> marker_shown(
                    run.output,
                    boot_marker((#[trigger] run.topology.nodes@[n]).name@),
                )
            &&& forall|n: int|
                0 <= n < run.topology.nodes@.len() ==> #[trigger] run.node_failure(n) is None
            &&& run.links_failure() is None
            &&& run.assertions_failure(runs) is None
        },
{
    lemma_exits(runs, runs.len() as int);
    lemma_unbooted(run, 0);
    lemma_nodes_failure(run, 0);
    let all = lines(run.output);
    if exists|i: int| 0 <= i < all.len() && #[trigger] complete_line(all[i]) {
        let i = choose|i: int| 0 <= i < all.len() && #[trigger] complete_line(all[i]);
        assert(trim(all[i]) == "SEDS_BAY_COMPLETE"@);
    }
    if exists|i: int| 0 <= i < all.len() && trim(#[trigger] all[i]) == "SEDS_BAY_COMPLETE"@ {
        let i = choose|i: int| 0 <= i < all.len() && trim(#[trigger] all[i])
            == "SEDS_BAY_COMPLETE"@;
        assert(complete_line(all[i]));
    }
}

/// A failed emulator run shows, for every line that speaks of an error, an
/// exception, a fatal condition or an abort in any case of letters, that line
/// with the two before and the two behind it.
pub proof fn law_alarms_are_shown_with_their_surroundings(all: Seq<Seq<char>>, end: int)
    requires
        0 <= end < all.len(),
    ensures
        alarms(all, 0).len() == 0,
        ({
            let low = lower(all[end]);
            let alarm = contains(low, "error"@) || contains(low, "exception"@) || contains(
                low,
                "fatal"@,
            ) || contains(low, "abort"@);
            alarms(all, end + 1).len() - alarms(all, end).len() == if alarm {
                around(all, end).len() as int
            } else {
                0
            }
        }),
        forall|k: int| #![trigger all[k]]
            end - 2 <= k <= end + 2 && 0 <= k < all.len() ==> around(all, end).contains(all[k]),
        around(all, end).len() <= 5,
        forall|i: int|
            0 <= i < around(all, end).len() ==> exists|k: int|
                0 <= k < all.len() && end - 2 <= k <= end + 2 && #[trigger] around(all, end)[i]
                    == #[trigger] all[k],
{
    let shown = around(all, end);
    let start = if end < 2 {
        0
    } else {
        end - 2
    };
    assert forall|k: int| #![trigger all[k]]
        end - 2 <= k <= end + 2 && 0 <= k < all.len() implies shown.contains(all[k]) by {
        assert(shown[k - start] == all[k]);
    }
    assert forall|i: int| 0 <= i < shown.len() implies exists|k: int|
        0 <= k < all.len() && end - 2 <= k <= end + 2 && #[trigger] shown[i] == #[trigger] all[k] by {
        assert(shown[i] == all[start + i]);
    }
}

/// The report on a certified bay has a profile for every node, under its name,
/// a report for every link and endpoint, with the peaks that were observed, and
/// one for every assertion, with what it is about.
pub proof fn law_what_a_bay_reports(report: BayReport, run: BayRun, l: int, e: int, i: int)
    requires
        report.of(run),
        run.links_failure() is None,
        0 <= l < run.topology.links@.len(),
        0 <= e < run.topology.links@[l].endpoints@.len(),
    ensures
        report.bay@ == run.topology.name@,
        report.nodes_executed == run.topology.nodes@.len(),
        report.host_nodes_executed == run.topology.host_nodes@.len(),
        report.links_connected == run.topology.links@.len(),
        report.virtual_time_ms == run.topology.virtual_time_ms,
        texts(report.register_dump@) == prefixed_pairs(
            lines(run.output),
            "SEDS_NODE "@,
            lines(run.output).len() as int,
        ),
        report.link_reports@.len() == run.topology.links@.len(),
        ({
            let link = run.topology.links@[l];
            let told = report.link_reports@[l];
            let endpoint = link.endpoints@[e];
            let end = told.endpoints@[e];
            let n = run.node(endpoint.node@)->0;
            let host = has_host(run.topology.host_nodes@, endpoint.node@);
            &&& told.name@ == link.name@
            &&& told.endpoints@.len() == link.endpoints@.len()
            &&& texts(told.transport_path@) == texts(link.transport_path@)
            &&& end.node@ == endpoint.node@
            &&& host ==> end.tx_probe is None && end.rx_probe is None && end.tx_observed is None
                && end.rx_observed is None
            &&& !host ==> end.tx_observed == if endpoint.tx_probe is Some {
                run.peak(n, (endpoint.tx_probe->0)@)
            } else {
                None
            }
            &&& !host ==> end.rx_observed == if endpoint.rx_probe is Some {
                run.peak(n, (endpoint.rx_probe->0)@)
            } else {
                None
            }
        }),
        report.assertion_reports@.len() == run.topology.assertions@.len(),
        0 <= i < run.topology.assertions@.len() ==> {
            let assertion = run.topology.assertions@[i];
            let told = report.assertion_reports@[i];
            &&& told.name@ == assertion.name@
            &&& told.node@ == assertion.node@
            &&& told.probe@ == assertion.probe@
            &&& run.observed(i) == Ok::<u32, Seq<char>>(told.observed)
        },
{
    assert(report.link_reports@[l].of(run, l));
    assert(report.link_reports@[l].endpoints@[e].of(run, l, e));
    law_which_links_are_certified(run);
    assert(endpoint_sound(run, l, e));
    lemma_traffic(run, l, e);
    if 0 <= i < run.topology.assertions@.len() {
        assert(report.assertion_reports@[i].of(run, i));
    }
}

} // verus!
