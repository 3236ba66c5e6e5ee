use rtos_compat::bridge::NetBridge;
use rtos_compat::errors::KError;
use rtos_compat::facade::{ConnState, Facade, IpConfig, IpV4, WifiEvent};

#[test]
fn inbound_frames_come_back_in_fifo_order() {
    let mut b = NetBridge::new(2, 2, 4);
    assert!(!b.rx_ready());
    b.inbound_frame(vec![1, 2]);
    b.inbound_frame(vec![3]);
    assert!(b.rx_ready());
    assert_eq!(b.receive(), Some(vec![1, 2]));
    assert_eq!(b.receive(), Some(vec![3]));
    assert_eq!(b.receive(), None);
}

#[test]
fn inbound_overflow_drops_without_corrupting_the_queue() {
    let mut b = NetBridge::new(2, 2, 4);
    b.inbound_frame(vec![1]);
    b.inbound_frame(vec![2]);
    // The queue is full: this frame is dropped silently and counted.
    b.inbound_frame(vec![3]);
    assert_eq!(b.dropped_inbound(), 1);
    // Oversize frames are rejected, not queued.
    b.inbound_frame(vec![9, 9, 9, 9, 9]);
    assert_eq!(b.receive(), Some(vec![1]));
    assert_eq!(b.receive(), Some(vec![2]));
    assert_eq!(b.receive(), None);
}

#[test]
fn transmit_backpressure_and_module_pull() {
    let mut b = NetBridge::new(2, 2, 4);
    b.transmit(vec![1, 1]).unwrap();
    b.transmit(vec![2, 2]).unwrap();
    assert_eq!(b.transmit(vec![3, 3]), Err(KError::WouldBlock));
    assert_eq!(b.transmit(vec![0; 5]), Err(KError::BadSize));
    assert_eq!(b.outbound_frame(), Some(vec![1, 1]));
    // Backpressure lifted: the retry goes through.
    b.transmit(vec![3, 3]).unwrap();
    assert_eq!(b.outbound_frame(), Some(vec![2, 2]));
    assert_eq!(b.outbound_frame(), Some(vec![3, 3]));
    assert_eq!(b.outbound_frame(), None);
}

#[test]
fn connection_passes_through_each_state_without_tearing() {
    let mut f = Facade::new();
    assert_eq!(f.poll(), ConnState::Idle);
    f.on_event(WifiEvent::Associated);
    assert_eq!(f.poll(), ConnState::Connecting { link_up: true });
    let cfg = IpConfig { ip: IpV4 { a: 192, b: 0, c: 2, d: 10 }, prefix: 24 };
    f.on_event(WifiEvent::GotIp { cfg });
    // The whole lease is visible at once: address and prefix together.
    assert_eq!(f.poll(), ConnState::Connected { cfg });
}

#[test]
fn address_without_association_is_ignored() {
    let mut f = Facade::new();
    let cfg = IpConfig { ip: IpV4 { a: 10, b: 0, c: 0, d: 1 }, prefix: 8 };
    f.on_event(WifiEvent::GotIp { cfg });
    assert_eq!(f.poll(), ConnState::Idle);
    f.on_event(WifiEvent::StartConnect);
    assert_eq!(f.poll(), ConnState::Connecting { link_up: false });
    // Still no association: the lease cannot connect the machine.
    f.on_event(WifiEvent::GotIp { cfg });
    assert_eq!(f.poll(), ConnState::Connecting { link_up: false });
}

#[test]
fn disconnect_reports_reason_and_reset_returns_to_idle() {
    let mut f = Facade::new();
    f.on_event(WifiEvent::StartConnect);
    f.on_event(WifiEvent::Associated);
    f.on_event(WifiEvent::Disassociated { reason: 8 });
    assert_eq!(f.poll(), ConnState::Disconnected { reason: 8 });
    f.on_event(WifiEvent::Reset);
    assert_eq!(f.poll(), ConnState::Idle);
}

#[test]
fn scan_cycle_leaves_and_returns_to_idle() {
    let mut f = Facade::new();
    f.on_event(WifiEvent::ScanStarted);
    assert_eq!(f.poll(), ConnState::Scanning);
    f.on_event(WifiEvent::ScanDone);
    assert_eq!(f.poll(), ConnState::Idle);
}
