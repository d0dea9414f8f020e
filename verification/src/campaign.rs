//! The runs that one board needs: the one that goes through, then one for each
//! power cut.

use vstd::prelude::*;

use crate::execution::{
    all_outcomes, cut_error, cut_operations, cuts, failed_check, failed_cut_check, judge_cut,
    judge_run, law_cuts_are_the_selected_operations, law_every_operation_is_cut,
    law_when_power_is_cut, outcomes_shown, reboot_output, report_run, CutError, CutRunError,
    ExecutionReport, Observations, OtaPowerCutReport, RunError,
};
use crate::layout::{BoardLayout, BootOutcome};
use crate::output::{events_after, number_after};
use crate::simulator::{has_unknown, outcome_image, tally_error};
use crate::text::texts;

verus! {

/// What has been seen so far, and the flash operations after which power is
/// cut, of which the first ones have been run.
#[derive(Debug)]
pub struct Campaign {
    pub seen: Observations,
    pub cuts: Vec<u64>,
    pub reports: Vec<OtaPowerCutReport>,
}

/// Why no campaign follows from a run.
#[derive(Debug)]
pub enum StartError {
    Run(RunError),
    Cuts(CutError),
}

impl StartError {
    pub open spec fn of(self, layout: BoardLayout, output: Seq<char>) -> bool {
        self matches StartError::Run(error) ==> error.of(layout, output)
    }

    pub fn message(&self, layout: &BoardLayout, output: &str) -> (res: String)
        requires
            self.of(*layout, output@),
        ensures
            res@ == match *self {
                StartError::Run(error) => error.text(*layout, output@),
                StartError::Cuts(error) => error.text(),
            },
    {
        match self {
            StartError::Run(error) => error.message(layout, output),
            StartError::Cuts(error) => error.message(),
        }
    }
}

/// The flash operations that a run traced.
pub open spec fn traced_events(output: Seq<char>) -> Seq<Seq<char>> {
    events_after(output, "SEDS_FLASH_EVENT_TRACE"@)
}

/// Why the power cuts that are asked for cannot be planned from a run.
pub open spec fn plan_error(layout: BoardLayout, output: Seq<char>) -> Option<CutError> {
    if layout.cuts_power() {
        cut_error(
            layout.ota.power_cuts,
            match number_after(output, "SEDS_FLASH_OPERATIONS"@) {
                Some(count) => Some(count as u64),
                None => None,
            },
            traced_events(output),
        )
    } else {
        None
    }
}

impl OtaPowerCutReport {
    /// Power was cut after operation `cut`, and the reboot reached one of the
    /// configured outcomes.
    pub open spec fn shows(&self, cut: u64, outcomes: Seq<BootOutcome>) -> bool {
        &&& self.after_flash_operation == cut
        &&& self.power_cut_triggered
        &&& self.reboot_executed
        &&& outcome_image(outcomes, self.outcome@, 0) is Some
    }
}

proof fn lemma_named_outcome(outcomes: Seq<BootOutcome>, name: Seq<char>, k: int, from: int)
    requires
        0 <= from <= k < outcomes.len(),
        outcomes[k].name@ == name,
    ensures
        outcome_image(outcomes, name, from) is Some,
    decreases k - from,
{
    if from < k {
        lemma_named_outcome(outcomes, name, k, from + 1);
    }
}

/// Every outcome that is shown is configured.
proof fn lemma_shown_outcome(outcomes: Seq<BootOutcome>, output: Seq<char>, end: int, i: int)
    requires
        0 <= end <= outcomes.len(),
        0 <= i < outcomes_shown(outcomes, output, end).len(),
    ensures
        outcome_image(outcomes, outcomes_shown(outcomes, output, end)[i], 0) is Some,
    decreases end,
{
    let earlier = outcomes_shown(outcomes, output, end - 1);
    if i < earlier.len() {
        lemma_shown_outcome(outcomes, output, end - 1, i);
    } else {
        lemma_named_outcome(outcomes, outcomes[end - 1].name@, end - 1, 0);
    }
}

impl Campaign {
    /// The reports are those of the first cuts, in their order.
    pub open spec fn consistent(&self, outcomes: Seq<BootOutcome>) -> bool {
        &&& self.reports@.len() <= self.cuts@.len()
        &&& forall|i: int|
            0 <= i < self.reports@.len() ==> (#[trigger] self.reports@[i]).shows(
                self.cuts@[i],
                outcomes,
            )
    }

    pub open spec fn complete(&self) -> bool {
        self.reports@.len() == self.cuts@.len()
    }

    /// The campaign that a run which went through asks for.
    pub open spec fn planned(&self, layout: BoardLayout, output: Seq<char>) -> bool {
        let events = traced_events(output);
        &&& self.seen.of(layout, output)
        &&& self.cuts@ == if layout.cuts_power() {
            cuts(layout.ota.power_cuts, events, events.len() as int)
        } else {
            Seq::empty()
        }
    }

    /// Holds the run without a power cut to the layout, and plans the others.
    pub fn start(layout: &BoardLayout, output: &str, traced: bool) -> (res: Result<
        Campaign,
        StartError,
    >)
        requires
            layout.execution.memory_probe_warmup_samples < layout.execution.sample_count,
        ensures
            match failed_check(*layout, output@, traced) {
                Some(check) => {
                    &&& res matches Err(StartError::Run(error))
                    &&& error.check() == check
                    &&& error.of(*layout, output@)
                },
                None => match plan_error(*layout, output@) {
                    Some(error) => res == Err::<Campaign, StartError>(StartError::Cuts(error)),
                    None => {
                        &&& res matches Ok(campaign)
                        &&& campaign.planned(*layout, output@)
                        &&& campaign.reports@.len() == 0
                    },
                },
            },
            res matches Err(error) ==> error.of(*layout, output@),
    {
        let seen = match judge_run(layout, output, traced) {
            Ok(seen) => seen,
            Err(error) => {
                return Err(StartError::Run(error));
            },
        };
        let mut cuts: Vec<u64> = Vec::new();
        if layout.needs_power_cuts() {
            match cut_operations(
                &layout.ota.power_cuts,
                seen.flash_operations,
                seen.flash_event_trace.as_slice(),
            ) {
                Ok(operations) => {
                    cuts = operations;
                },
                Err(error) => {
                    return Err(StartError::Cuts(error));
                },
            }
            assert(texts(seen.flash_event_trace@).len() == seen.flash_event_trace@.len());
        } else {
            assert(cuts@ =~= Seq::<u64>::empty());
        }
        Ok(Campaign { seen, cuts, reports: Vec::new() })
    }

    /// The operation after which power is cut next.
    pub fn next_cut(&self) -> (res: Option<u64>)
        ensures
            res == if self.reports@.len() < self.cuts@.len() {
                Some(self.cuts@[self.reports@.len() as int])
            } else {
                None::<u64>
            },
    {
        if self.reports.len() < self.cuts.len() {
            Some(self.cuts[self.reports.len()])
        } else {
            None
        }
    }

    /// Holds the run with the next power cut to the configured outcomes.
    pub fn record(&mut self, outcomes: &[BootOutcome], output: &str) -> (res: Result<
        (),
        CutRunError,
    >)
        requires
            old(self).consistent(outcomes@),
            !old(self).complete(),
        ensures
            final(self).consistent(outcomes@),
            final(self).seen == old(self).seen,
            final(self).cuts == old(self).cuts,
            match failed_cut_check(outcomes@, output@) {
                Some(check) => {
                    &&& res matches Err(error)
                    &&& error.check() == check
                    &&& error matches CutRunError::Conflict(names) ==> texts(names@)
                        == all_outcomes(outcomes@, reboot_output(output@)->0)
                    &&& final(self).reports@ == old(self).reports@
                },
                None => {
                    &&& res is Ok
                    &&& final(self).reports@.len() == old(self).reports@.len() + 1
                    &&& final(self).reports@.drop_last() == old(self).reports@
                    &&& final(self).reports@.last().outcome@ == all_outcomes(
                        outcomes@,
                        reboot_output(output@)->0,
                    )[0]
                },
            },
    {
        let cut: u64 = self.cuts[self.reports.len()];
        match judge_cut(outcomes, output, cut) {
            Ok(report) => {
                proof {
                    let rest = reboot_output(output@)->0;
                    lemma_shown_outcome(outcomes@, rest, outcomes@.len() as int, 0);
                }
                self.reports.push(report);
                assert(self.reports@.drop_last() =~= old(self).reports@);
                Ok(())
            },
            Err(error) => Err(error),
        }
    }

    /// The report on a campaign that is over.
    pub fn finish(self, layout: &BoardLayout, elf: String, trace: String) -> (res: ExecutionReport)
        requires
            self.complete(),
        ensures
            res.backend@ == "renode"@,
            res.elf == elf,
            res.virtual_time_ms == layout.execution.virtual_time_ms,
            res.instruction_execution_observed,
            res.firmware_boot_reached,
            res.factory_boot_reached,
            res.register_dump == self.seen.registers,
            res.memory_profile == self.seen.memory_profile,
            res.trace == if layout.execution.trace {
                Some(trace)
            } else {
                None
            },
            res.firmware_driven_ota == layout.ota.firmware_driven,
            res.ota_outcome == self.seen.ota_outcome,
            res.flash_operations_observed == self.seen.flash_operations,
            res.flash_event_trace == self.seen.flash_event_trace,
            res.ota_power_cuts == self.reports,
    {
        report_run(layout, elf, trace, self.seen, self.reports)
    }
}

proof fn lemma_no_unknown(
    outcomes: Seq<BootOutcome>,
    reports: Seq<OtaPowerCutReport>,
    from: int,
)
    requires
        0 <= from <= reports.len(),
        forall|i: int|
            0 <= i < reports.len() ==> outcome_image(
                outcomes,
                (#[trigger] reports[i]).outcome@,
                0,
            ) is Some,
    ensures
        !has_unknown(outcomes, reports, from),
    decreases reports.len() - from,
{
    if from < reports.len() {
        lemma_no_unknown(outcomes, reports, from + 1);
    }
}

/// A campaign that is over has cut power after each selected flash operation,
/// once and in order, and its report is always tallied.
pub proof fn law_finished_campaigns_are_tallied(
    campaign: Campaign,
    layout: BoardLayout,
    output: Seq<char>,
    report: ExecutionReport,
)
    requires
        layout.cuts_power(),
        plan_error(layout, output) is None,
        campaign.planned(layout, output),
        campaign.consistent(layout.ota.outcomes@),
        campaign.complete(),
        report.ota_power_cuts == campaign.reports,
        report.flash_operations_observed == campaign.seen.flash_operations,
    ensures
        campaign.reports@.map_values(|cut: OtaPowerCutReport| cut.after_flash_operation) == cuts(
            layout.ota.power_cuts,
            traced_events(output),
            traced_events(output).len() as int,
        ),
        tally_error(layout, report) is None,
{
    let events = traced_events(output);
    let reports = campaign.reports@;
    assert(reports.map_values(|cut: OtaPowerCutReport| cut.after_flash_operation)
        =~= campaign.cuts@);
    if layout.ota.power_cuts.every_flash_operation {
        law_every_operation_is_cut(layout.ota.power_cuts, events);
    }
    assert forall|i: int| 0 <= i < reports.len() implies outcome_image(
        layout.ota.outcomes@,
        (#[trigger] reports[i]).outcome@,
        0,
    ) is Some by {
        assert(reports[i].shows(campaign.cuts@[i], layout.ota.outcomes@));
    }
    lemma_no_unknown(layout.ota.outcomes@, reports, 0);
}

/// A campaign can be planned exactly where no power is to be cut, or the
/// operations were counted, each left an event, and one of these is selected.
pub proof fn law_which_campaigns_can_be_planned(layout: BoardLayout, output: Seq<char>)
    requires
        traced_events(output).len() <= u64::MAX,
        number_after(output, "SEDS_FLASH_OPERATIONS"@) matches Some(count) ==> 0 <= count
            <= u64::MAX,
    ensures
        plan_error(layout, output) is None <==> {
            let events = events_after(output, "SEDS_FLASH_EVENT_TRACE"@);
            let count = number_after(output, "SEDS_FLASH_OPERATIONS"@);
            layout.ota.firmware_driven && (layout.ota.power_cuts.every_flash_operation
                || layout.ota.power_cuts.events@.len() > 0) ==> {
                &&& count is Some
                &&& events.len() == count->0
                &&& exists|k: int|
                    0 <= k < events.len() && layout.ota.power_cuts.selects(#[trigger] events[k])
            }
        },
{
    let count = number_after(output, "SEDS_FLASH_OPERATIONS"@);
    law_when_power_is_cut(
        layout.ota.power_cuts,
        match count {
            Some(count) => Some(count as u64),
            None => None,
        },
        traced_events(output),
    );
}

/// The cuts of a campaign are the selected operations, counted from one; each
/// report belongs to its cut, which took hold and was followed by a reboot.
pub proof fn law_campaigns_cut_what_is_selected(
    campaign: Campaign,
    layout: BoardLayout,
    output: Seq<char>,
    k: int,
)
    requires
        campaign.planned(layout, output),
        campaign.consistent(layout.ota.outcomes@),
        0 <= k < traced_events(output).len() <= u64::MAX,
    ensures
        ({
            let cuts_power = layout.ota.firmware_driven && (
            layout.ota.power_cuts.every_flash_operation || layout.ota.power_cuts.events@.len() > 0);
            &&& campaign.cuts@.contains((k + 1) as u64) <==> cuts_power
                && layout.ota.power_cuts.selects(
                events_after(output, "SEDS_FLASH_EVENT_TRACE"@)[k],
            )
            &&& !cuts_power ==> campaign.cuts@.len() == 0
        }),
        campaign.reports@.len() <= campaign.cuts@.len(),
        forall|i: int|
            0 <= i < campaign.reports@.len() ==> {
                let report = #[trigger] campaign.reports@[i];
                report.after_flash_operation == campaign.cuts@[i] && report.power_cut_triggered
                    && report.reboot_executed
            },
{
    let events = traced_events(output);
    let end = events.len() as int;
    law_cuts_are_the_selected_operations(layout.ota.power_cuts, events, end);
    let found = cuts(layout.ota.power_cuts, events, end);
    if layout.cuts_power() && campaign.cuts@.contains((k + 1) as u64) {
        let i = choose|i: int| 0 <= i < found.len() && found[i] == (k + 1) as u64;
        assert(layout.ota.power_cuts.selects(events[found[i] - 1]));
    }
    assert forall|i: int| 0 <= i < campaign.reports@.len() implies {
        let report = #[trigger] campaign.reports@[i];
        report.after_flash_operation == campaign.cuts@[i] && report.power_cut_triggered
            && report.reboot_executed
    } by {
        assert(campaign.reports@[i].shows(campaign.cuts@[i], layout.ota.outcomes@));
    }
}

} // verus!
