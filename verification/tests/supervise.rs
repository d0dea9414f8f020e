use firmware_sim::bay::HostPort;
use firmware_sim::supervise::{
    awaits_terminals, check_terminals, judge_transcript, sample_progress, BayAction, BayGlance,
    BayWatch, BridgeEnd, Glance, MonitorAction, MonitorWatch,
};

#[test]
fn refused_commands_leave_time_for_their_details() {
    let mut watch = MonitorWatch::new();
    let glance = |now, refused| Glance { now, ended: false, refused };
    assert_eq!(watch.step(glance(1000, false)), MonitorAction::Wait);
    assert_eq!(watch.step(glance(1025, true)), MonitorAction::Wait);
    assert_eq!(watch.refused_at, Some(1025));
    assert_eq!(watch.step(glance(1274, true)), MonitorAction::Wait);
    assert_eq!(watch.step(glance(1275, true)), MonitorAction::Stop);
    assert_eq!(watch.refused_at, Some(1025));
    let ended = Glance { now: 1300, ended: true, refused: true };
    assert_eq!(watch.step(ended), MonitorAction::Ended);
    let mut late = MonitorWatch::new();
    assert_eq!(late.step(glance(u64::MAX, true)), MonitorAction::Wait);
}

#[test]
fn willing_monitors_run_to_their_end() {
    let mut watch = MonitorWatch::new();
    for now in 0..2000 {
        let glance = Glance { now, ended: false, refused: false };
        assert_eq!(watch.step(glance), MonitorAction::Wait);
    }
    let ended = Glance { now: 2000, ended: true, refused: true };
    assert_eq!(watch.step(ended), MonitorAction::Ended);
    assert_eq!(watch.refused_at, None);
}

#[test]
fn transcripts_fail_by_their_status_first() {
    let faulted = "ready\n[ERROR] cpu: gone\n";
    assert_eq!(judge_transcript("ready\n", true, "exit status: 0"), Ok(()));
    assert_eq!(
        judge_transcript(faulted, true, "exit status: 0").unwrap_err(),
        "firmware execution faulted:\nready\n[ERROR] cpu: gone"
    );
    assert_eq!(
        judge_transcript(faulted, false, "signal: 9 (SIGKILL)").unwrap_err(),
        "Renode failed (signal: 9 (SIGKILL)):\nready\n[ERROR] cpu: gone"
    );
    let long: String = (0..100).map(|line| format!("line {line}\n")).collect();
    let error = judge_transcript(&long, false, "exit status: 1").unwrap_err();
    assert!(error.starts_with("Renode failed (exit status: 1):\nline 20\n"));
    assert!(error.ends_with("\nline 99"));
}

fn running() -> BayGlance {
    BayGlance { monitor: MonitorAction::Wait, host_exited: false, ended_bridge: None }
}

#[test]
fn a_host_that_exits_stops_the_bay() {
    let mut watch = BayWatch::new();
    assert_eq!(watch.step(running()), BayAction::WaitMillis(25));
    let exited = BayGlance { host_exited: true, ended_bridge: Some(0), ..running() };
    assert_eq!(watch.step(exited), BayAction::Stop);
    let ended = BayGlance { monitor: MonitorAction::Ended, ..exited };
    assert_eq!(watch.step(ended), BayAction::Finish);
    let refused = BayGlance { monitor: MonitorAction::Stop, ..running() };
    assert_eq!(watch.step(refused), BayAction::Stop);
}

#[test]
fn a_bridge_that_ends_fails_the_bay() {
    let mut watch = BayWatch::new();
    let ended = BayGlance { ended_bridge: Some(1), ..running() };
    assert_eq!(watch.step(ended), BayAction::WaitMillis(250));
    assert_eq!(watch.step(ended), BayAction::Fail(1));
    let mut watch = BayWatch::new();
    assert_eq!(watch.step(ended), BayAction::WaitMillis(250));
    let finished = BayGlance { monitor: MonitorAction::Ended, ..ended };
    assert_eq!(watch.step(finished), BayAction::Finish);
    assert_eq!(BridgeEnd::Returned.message("radio"), "Pico-Fi bridge radio ended");
    assert_eq!(BridgeEnd::Panicked.message("radio"), "Pico-Fi bridge radio panicked");
    assert_eq!(
        BridgeEnd::Failed("reading".into()).message("radio"),
        "Pico-Fi bridge radio failed: reading"
    );
}

#[test]
fn terminals_have_four_seconds() {
    assert!(awaits_terminals(false, MonitorAction::Wait, 3999));
    assert!(!awaits_terminals(false, MonitorAction::Wait, 4000));
    assert!(!awaits_terminals(true, MonitorAction::Wait, 0));
    assert!(!awaits_terminals(false, MonitorAction::Ended, 0));
    assert!(!awaits_terminals(false, MonitorAction::Stop, 0));
    let port = |link: usize, pty: &str| HostPort { link, pty: pty.into(), socket: None };
    let ports = [port(0, "/tmp/a.pty"), port(2, "/tmp/b.pty"), port(3, "/tmp/c.pty")];
    assert_eq!(check_terminals(&ports, &[true, true, true]), Ok(()));
    assert_eq!(
        check_terminals(&ports, &[true, false, false]).unwrap_err(),
        "Renode did not create host UART PTY /tmp/b.pty"
    );
}

#[test]
fn samples_are_told_as_they_complete() {
    assert_eq!(
        sample_progress("  SEDS_BAY_SAMPLE_DONE 3/20\r\n").as_deref(),
        Some("[SIM] network sample 3/20 complete")
    );
    assert_eq!(sample_progress("echo SEDS_BAY_SAMPLE_DONE 3/20"), None);
    assert_eq!(sample_progress("SEDS_BAY_SAMPLE_DONE"), None);
}
