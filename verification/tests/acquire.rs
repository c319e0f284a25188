use meatshell::acquire::{
    Acquired, PortAcquire, PortAction, PortReply, SocketAcquire, SocketAction,
};

#[test]
fn socket_free_endpoint_becomes_primary() {
    let (mut m, first) = SocketAcquire::start(true, None);
    assert_eq!(first, SocketAction::Bind);
    assert_eq!(m.resume(true), SocketAction::Finish(Acquired::Primary));
}

#[test]
fn socket_live_primary_gets_request() {
    let (mut m, _) = SocketAcquire::start(true, Some("/tmp/x"));
    assert_eq!(m.request(), "new-window\t/tmp/x\n");
    assert_eq!(m.resume(false), SocketAction::Connect);
    assert_eq!(m.resume(true), SocketAction::SendRequest);
    assert_eq!(m.resume(true), SocketAction::Finish(Acquired::Forwarded));
}

#[test]
fn socket_plain_relaunch_reports_running_primary() {
    let (mut m, _) = SocketAcquire::start(false, None);
    assert_eq!(m.resume(false), SocketAction::Connect);
    assert_eq!(m.resume(true), SocketAction::Finish(Acquired::AlreadyRunning));
}

#[test]
fn socket_stale_file_is_removed_and_rebound() {
    let (mut m, _) = SocketAcquire::start(false, None);
    assert_eq!(m.resume(false), SocketAction::Connect);
    assert_eq!(m.resume(false), SocketAction::RemoveStale);
    assert_eq!(m.resume(false), SocketAction::Bind);
    assert_eq!(m.resume(true), SocketAction::Finish(Acquired::Primary));
}

#[test]
fn socket_failed_rebind_or_send_fails() {
    let (mut m, _) = SocketAcquire::start(true, None);
    m.resume(false);
    m.resume(false);
    m.resume(true);
    assert_eq!(m.resume(false), SocketAction::Finish(Acquired::Failed));
    let (mut m, _) = SocketAcquire::start(true, None);
    m.resume(false);
    m.resume(true);
    assert_eq!(m.resume(false), SocketAction::Finish(Acquired::Failed));
}

fn read(s: &str) -> PortReply {
    PortReply::Read(Some(s.to_string()))
}

#[test]
fn port_no_file_binds_and_publishes() {
    let (mut m, first) = PortAcquire::start(true, None);
    assert_eq!(first, PortAction::ReadPortFile);
    assert_eq!(m.resume(PortReply::Read(None)), PortAction::BindLoopback);
    assert_eq!(m.resume(PortReply::Bound(Some(5000))), PortAction::WritePortFile(5000));
    assert_eq!(m.resume(PortReply::Outcome(true)), PortAction::ReadPortFile);
    assert_eq!(m.resume(read("5000")), PortAction::Finish(Acquired::Primary));
}

#[test]
fn port_forward_to_acknowledging_primary() {
    let (mut m, _) = PortAcquire::start(true, Some("D:\\w"));
    assert_eq!(m.request(), "new-window\tD:\\w\n");
    assert_eq!(m.resume(read("4242\n")), PortAction::Connect(4242));
    assert_eq!(m.resume(PortReply::Outcome(true)), PortAction::SendRequest);
    assert_eq!(m.resume(PortReply::Outcome(true)), PortAction::AwaitAck);
    assert_eq!(m.resume(read("ack")), PortAction::Finish(Acquired::Forwarded));
}

#[test]
fn port_stale_file_without_ack_falls_back_to_binding() {
    let (mut m, _) = PortAcquire::start(true, None);
    m.resume(read("4242"));
    m.resume(PortReply::Outcome(true));
    m.resume(PortReply::Outcome(true));
    assert_eq!(m.resume(read("hello")), PortAction::BindLoopback);
}

#[test]
fn port_plain_relaunch_probes_only() {
    let (mut m, _) = PortAcquire::start(false, None);
    assert_eq!(m.resume(read("4242")), PortAction::Probe(4242));
    assert_eq!(m.resume(PortReply::Outcome(true)), PortAction::Finish(Acquired::AlreadyRunning));
    let (mut m, _) = PortAcquire::start(false, None);
    m.resume(read("4242"));
    assert_eq!(m.resume(PortReply::Outcome(false)), PortAction::BindLoopback);
}

#[test]
fn port_lost_race_forwards_to_winner() {
    let (mut m, _) = PortAcquire::start(true, None);
    m.resume(PortReply::Read(None));
    m.resume(PortReply::Bound(Some(5000)));
    m.resume(PortReply::Outcome(true));
    assert_eq!(m.resume(read("6000")), PortAction::ReleaseListener);
    assert_eq!(m.resume(PortReply::Outcome(true)), PortAction::ReadPortFile);
    assert_eq!(m.resume(read("6000")), PortAction::Connect(6000));
    m.resume(PortReply::Outcome(true));
    m.resume(PortReply::Outcome(true));
    assert_eq!(m.resume(read("ack")), PortAction::Finish(Acquired::Forwarded));
}

#[test]
fn port_lost_race_without_forwarding() {
    let (mut m, _) = PortAcquire::start(false, None);
    m.resume(PortReply::Read(None));
    m.resume(PortReply::Bound(Some(5000)));
    m.resume(PortReply::Outcome(true));
    assert_eq!(m.resume(read("garbage")), PortAction::ReleaseListener);
    assert_eq!(m.resume(PortReply::Outcome(true)), PortAction::Finish(Acquired::LostRace));
}

#[test]
fn port_winner_that_does_not_answer_loses_race() {
    let (mut m, _) = PortAcquire::start(true, None);
    m.resume(PortReply::Read(None));
    m.resume(PortReply::Bound(Some(5000)));
    m.resume(PortReply::Outcome(true));
    m.resume(read("6000"));
    m.resume(PortReply::Outcome(true));
    m.resume(read("6000"));
    assert_eq!(m.resume(PortReply::Outcome(false)), PortAction::Finish(Acquired::LostRace));
}

#[test]
fn port_bind_or_write_failure_fails() {
    let (mut m, _) = PortAcquire::start(true, None);
    m.resume(PortReply::Read(None));
    assert_eq!(m.resume(PortReply::Bound(None)), PortAction::Finish(Acquired::Failed));
    let (mut m, _) = PortAcquire::start(true, None);
    m.resume(PortReply::Read(None));
    m.resume(PortReply::Bound(Some(1)));
    assert_eq!(m.resume(PortReply::Outcome(false)), PortAction::Finish(Acquired::Failed));
}
