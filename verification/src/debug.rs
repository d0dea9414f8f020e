//! What is known of a run that failed.

use vstd::prelude::*;

use crate::architecture::ArchitectureKind;
use crate::layout::BoardLayout;
use crate::text::texts;

verus! {

#[derive(Clone, Copy, Debug)]
pub struct RegisterFile {
    pub r0_r12: [u32; 13],
    pub msp: u32,
    pub psp: u32,
    pub lr: u32,
    pub pc: u32,
    pub xpsr: u32,
    pub control: u32,
    pub primask: u32,
    pub basepri: u32,
    pub faultmask: u32,
}

#[derive(Clone, Copy, Debug, PartialEq, Eq, Structural)]
pub struct FaultRegisters {
    pub cfsr: u32,
    pub hfsr: u32,
    pub dfsr: u32,
    pub mmfar: u32,
    pub bfar: u32,
    pub afsr: u32,
    pub sfsr: Option<u32>,
    pub sfar: Option<u32>,
}

#[derive(Debug)]
pub struct CrashDiagnostic {
    pub board: String,
    pub architecture: ArchitectureKind,
    pub simulated_phase: String,
    pub reason: String,
    pub registers: Option<RegisterFile>,
    pub fault_registers: Option<FaultRegisters>,
    pub recent_events: Vec<String>,
    pub note: &'static str,
}

impl CrashDiagnostic {
    /// A diagnostic of a phase in which no processor ran: it holds no register
    /// values, whatever the seed.
    pub fn capture(layout: &BoardLayout, seed: u64, phase: &str, reason: String) -> (res: Self)
        ensures
            res.board@ == layout.name@,
            res.architecture == layout.architecture,
            res.simulated_phase@ == phase@,
            res.reason == reason,
            res.registers is None,
            res.fault_registers is None,
            texts(res.recent_events@) == seq!["layout_loaded"@, "artifacts_mapped"@, phase@],
            res.note@
                == "No CPU snapshot was captured for this phase; synthetic register values are never emitted."@,
    {
        let mut recent_events: Vec<String> = Vec::new();
        recent_events.push("layout_loaded".to_owned());
        recent_events.push("artifacts_mapped".to_owned());
        recent_events.push(phase.to_owned());
        assert(texts(recent_events@) =~= seq!["layout_loaded"@, "artifacts_mapped"@, phase@]);
        CrashDiagnostic {
            board: layout.name.clone(),
            architecture: layout.architecture,
            simulated_phase: phase.to_owned(),
            reason,
            registers: None,
            fault_registers: None,
            recent_events,
            note: "No CPU snapshot was captured for this phase; synthetic register values are never emitted.",
        }
    }
}

} // verus!
