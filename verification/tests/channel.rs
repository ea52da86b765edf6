use web_server_rust::channel::Channel;
use web_server_rust::channel::Recv;
use web_server_rust::channel::SendError;

#[test]
fn channel_delivers_in_send_order() {
    let mut c: Channel<u64> = Channel::new();
    assert!(c.send(7).is_ok());
    assert!(c.send(8).is_ok());
    assert!(c.send(9).is_ok());
    assert_eq!(c.len(), 3);
    assert!(matches!(c.try_recv(), Recv::Item(7)));
    assert!(matches!(c.try_recv(), Recv::Item(8)));
    assert!(matches!(c.try_recv(), Recv::Item(9)));
    assert_eq!(c.len(), 0);
}

#[test]
fn channel_send_after_close_fails() {
    let mut c: Channel<u64> = Channel::new();
    assert!(!c.is_closed());
    c.close();
    assert!(c.is_closed());
    assert_eq!(c.send(1), Err(SendError));
    assert_eq!(c.len(), 0);
}

#[test]
fn channel_reports_empty_then_closed() {
    let mut c: Channel<u64> = Channel::new();
    assert!(matches!(c.try_recv(), Recv::Empty));
    c.close();
    assert!(matches!(c.try_recv(), Recv::Closed));
}

#[test]
fn channel_close_keeps_pending_items() {
    let mut c: Channel<u64> = Channel::new();
    assert!(c.send(1).is_ok());
    assert!(c.send(2).is_ok());
    c.close();
    assert_eq!(c.len(), 2);
    assert!(matches!(c.try_recv(), Recv::Item(1)));
    assert!(matches!(c.try_recv(), Recv::Item(2)));
    assert!(matches!(c.try_recv(), Recv::Closed));
}
