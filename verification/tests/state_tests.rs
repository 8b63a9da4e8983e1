use trojan_ui::outbound::{
    outbound_after_connect, outbound_start, ConnectOutcome, OutboundError, RelayPlan,
    SupportedProtocols, TransportProtocol, HEX_SIZE,
};
use trojan_ui::proxy::{ThreadState, WorkerEvent};

#[test]
fn worker_never_exits_and_aborts_only_on_failure() {
    // law: from waiting, any events lead to waiting, running or aborted
    let events = [WorkerEvent::Finished, WorkerEvent::Started, WorkerEvent::Finished];
    let mut s = ThreadState::initial();
    let mut seen_failure = false;
    for round in 0..3 {
        for e in events.iter() {
            let e = match e {
                WorkerEvent::Started => WorkerEvent::Started,
                WorkerEvent::Finished => WorkerEvent::Finished,
                WorkerEvent::Failed => WorkerEvent::Failed,
            };
            s = s.next(e);
            assert!(!matches!(s, ThreadState::EXIT));
            assert!(!matches!(s, ThreadState::ABORT(_)) || seen_failure);
        }
        if round == 1 {
            s = s.next(WorkerEvent::Failed);
            seen_failure = true;
            assert!(matches!(s, ThreadState::ABORT(_)));
        }
    }
}

#[test]
fn worker_lifecycle() {
    let s = ThreadState::initial();
    assert!(matches!(s, ThreadState::WAITTING));
    let s = s.next(WorkerEvent::Started);
    assert!(matches!(s, ThreadState::RUNNING));
    let kept = ThreadState::RUNNING.next(WorkerEvent::Finished);
    assert!(matches!(kept, ThreadState::RUNNING));
    match s.next(WorkerEvent::Failed) {
        ThreadState::ABORT(why) => assert_eq!(why, "proxy close"),
        _ => panic!("expected an aborted worker"),
    }
}

#[test]
fn outbound_decisions() {
    let tcp = TransportProtocol::TCP;
    let udp = TransportProtocol::UDP;
    let trojan = SupportedProtocols::TROJAN;
    assert!(matches!(outbound_start(false), Err(OutboundError::MissingDestination)));
    assert!(matches!(outbound_start(true), Ok(())));
    match outbound_after_connect(ConnectOutcome::Failed("refused".to_string()), &trojan, 3, &tcp) {
        Err(OutboundError::Io(why)) => assert_eq!(why, "refused"),
        _ => panic!("expected the connection error"),
    }
    assert!(matches!(
        outbound_after_connect(ConnectOutcome::Connected, &SupportedProtocols::SOCKS, HEX_SIZE, &tcp),
        Err(OutboundError::UnsupportedProtocol)
    ));
    assert!(matches!(
        outbound_after_connect(ConnectOutcome::Connected, &SupportedProtocols::DIRECT, 3, &udp),
        Err(OutboundError::UnsupportedProtocol)
    ));
    assert!(matches!(
        outbound_after_connect(ConnectOutcome::Connected, &trojan, 55, &tcp),
        Err(OutboundError::BadSecretLength)
    ));
    assert!(matches!(
        outbound_after_connect(ConnectOutcome::Connected, &trojan, 56, &tcp),
        Ok(RelayPlan::Stream)
    ));
    assert!(matches!(
        outbound_after_connect(ConnectOutcome::Connected, &trojan, 56, &udp),
        Ok(RelayPlan::Packets)
    ));
}

#[test]
fn outbound_messages() {
    assert_eq!(
        OutboundError::MissingDestination.message(),
        "missing address of the remote server"
    );
    assert_eq!(
        OutboundError::BadSecretLength.message(),
        "Hex in trojan protocol is not 56 bytes"
    );
    assert_eq!(OutboundError::UnsupportedProtocol.message(), "Unsupported protocol");
    assert_eq!(OutboundError::Io("timed out".to_string()).message(), "timed out");
}
