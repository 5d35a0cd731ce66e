//! Behaviour of the broadcast relay: registration, broadcast delivery,
//! failure pruning, datagram validation, and the engine cycle.

use std::cell::Cell;
use std::io::{Read, Write};
use std::rc::Rc;

use broadcast_relay::handoff::handoff_channel;
use broadcast_relay::relay::WebsocketManager;
use tungstenite::protocol::Role;
use tungstenite::WebSocket;

/// An in-memory stream: sent frames land in a shared buffer, and writes can
/// be made to fail to stand in for a lost connection.
#[derive(Clone)]
struct TestStream {
    written: Rc<std::cell::RefCell<Vec<u8>>>,
    fail: Rc<Cell<bool>>,
}

impl TestStream {
    fn new() -> Self {
        TestStream { written: Rc::new(std::cell::RefCell::new(Vec::new())), fail: Rc::new(Cell::new(false)) }
    }

    fn contains(&self, needle: &[u8]) -> bool {
        let data = self.written.borrow();
        data.windows(needle.len()).any(|w| w == needle)
    }

    fn len(&self) -> usize {
        self.written.borrow().len()
    }
}

impl Read for TestStream {
    fn read(&mut self, _buf: &mut [u8]) -> std::io::Result<usize> {
        Err(std::io::Error::new(std::io::ErrorKind::WouldBlock, "nothing to read"))
    }
}

impl Write for TestStream {
    fn write(&mut self, buf: &[u8]) -> std::io::Result<usize> {
        if self.fail.get() {
            Err(std::io::Error::new(std::io::ErrorKind::BrokenPipe, "connection lost"))
        } else {
            self.written.borrow_mut().extend_from_slice(buf);
            Ok(buf.len())
        }
    }

    fn flush(&mut self) -> std::io::Result<()> {
        if self.fail.get() {
            Err(std::io::Error::new(std::io::ErrorKind::BrokenPipe, "connection lost"))
        } else {
            Ok(())
        }
    }
}

fn server_socket(stream: TestStream) -> WebSocket<TestStream> {
    WebSocket::from_raw_socket(stream, Role::Server, None)
}

#[test]
fn register_ids_strictly_increase() {
    let mut manager: WebsocketManager<TestStream> = WebsocketManager::new();
    let a = manager.register(server_socket(TestStream::new()));
    let b = manager.register(server_socket(TestStream::new()));
    manager.disconnect(a);
    let c = manager.register(server_socket(TestStream::new()));
    manager.disconnect(42);
    let d = manager.register(server_socket(TestStream::new()));
    assert_eq!(a, 0);
    assert_eq!(b, 1);
    assert_eq!(c, 2);
    assert_eq!(d, 3);
    assert!(a < b && b < c && c < d);
}

#[test]
fn broadcast_delivers_to_all_healthy() {
    let mut manager: WebsocketManager<TestStream> = WebsocketManager::new();
    let streams = [TestStream::new(), TestStream::new(), TestStream::new()];
    for s in &streams {
        manager.register(server_socket(s.clone()));
    }
    let delivered = manager.broadcast("hello");
    assert_eq!(delivered, vec![0, 1, 2]);
    assert_eq!(manager.connected_ids(), vec![0, 1, 2]);
    for s in &streams {
        assert!(s.contains(b"hello"));
    }
}

#[test]
fn broadcast_prunes_failing_connection() {
    let mut manager: WebsocketManager<TestStream> = WebsocketManager::new();
    let streams = [TestStream::new(), TestStream::new(), TestStream::new()];
    for s in &streams {
        manager.register(server_socket(s.clone()));
    }
    let first = manager.broadcast("hello");
    assert_eq!(first, vec![0, 1, 2]);

    streams[1].fail.set(true);
    let second = manager.broadcast("world");
    assert_eq!(second, vec![0, 2]);
    assert_eq!(manager.connected_ids(), vec![0, 2]);
    assert!(streams[0].contains(b"world"));
    assert!(streams[2].contains(b"world"));
    assert!(!streams[1].contains(b"world"));
}

#[test]
fn malformed_datagram_sends_nothing() {
    let mut manager: WebsocketManager<TestStream> = WebsocketManager::new();
    let streams = [TestStream::new(), TestStream::new()];
    for s in &streams {
        manager.register(server_socket(s.clone()));
    }
    let before: Vec<usize> = streams.iter().map(|s| s.len()).collect();
    let outcome = manager.run_cycle(Vec::new(), &[0xFF, 0xFE]);
    assert!(outcome.is_none());
    assert_eq!(manager.connected_ids(), vec![0, 1]);
    let after: Vec<usize> = streams.iter().map(|s| s.len()).collect();
    assert_eq!(before, after);
}

#[test]
fn disconnect_absent_id_is_noop() {
    let mut manager: WebsocketManager<TestStream> = WebsocketManager::new();
    manager.register(server_socket(TestStream::new()));
    manager.register(server_socket(TestStream::new()));
    manager.register(server_socket(TestStream::new()));
    manager.disconnect(1);
    assert_eq!(manager.connected_ids(), vec![0, 2]);
    manager.disconnect(99);
    assert_eq!(manager.connected_ids(), vec![0, 2]);
}

#[test]
fn valid_datagram_is_broadcast() {
    let mut manager: WebsocketManager<TestStream> = WebsocketManager::new();
    let stream = TestStream::new();
    manager.register(server_socket(stream.clone()));
    let outcome = manager.run_cycle(Vec::new(), b"hi there");
    assert_eq!(outcome, Some(vec![0]));
    assert!(stream.contains(b"hi there"));
}

#[test]
fn handoff_enqueued_after_drain_waits_for_next_cycle() {
    let (sender, mut queue) = handoff_channel();
    let mut manager: WebsocketManager<TestStream> = WebsocketManager::new();

    let early = TestStream::new();
    assert!(sender.enqueue(server_socket(early.clone())));

    // One cycle: the drain happens first, then a handle arrives mid-cycle.
    let drained = queue.try_drain_all();
    assert_eq!(drained.len(), 1);
    let late = TestStream::new();
    assert!(sender.enqueue(server_socket(late.clone())));
    let outcome = manager.run_cycle(drained, b"first");
    assert_eq!(outcome, Some(vec![0]));
    assert!(early.contains(b"first"));
    assert!(!late.contains(b"first"));

    // Next cycle: the late handle is drained, registered under the next
    // sequential id, and included in the broadcast.
    let drained = queue.try_drain_all();
    assert_eq!(drained.len(), 1);
    assert_eq!(manager.next_connection_id(), 1);
    let outcome = manager.run_cycle(drained, b"second");
    assert_eq!(outcome, Some(vec![0, 1]));
    assert!(early.contains(b"second"));
    assert!(late.contains(b"second"));
}

#[test]
fn drained_handoffs_join_the_same_cycles_broadcast() {
    let (sender, mut queue) = handoff_channel();
    let mut manager: WebsocketManager<TestStream> = WebsocketManager::new();
    let a = TestStream::new();
    let b = TestStream::new();
    assert!(sender.enqueue(server_socket(a.clone())));
    assert!(sender.enqueue(server_socket(b.clone())));
    let drained = queue.try_drain_all();
    assert_eq!(drained.len(), 2);
    let outcome = manager.run_cycle(drained, b"greetings");
    assert_eq!(outcome, Some(vec![0, 1]));
    assert!(a.contains(b"greetings"));
    assert!(b.contains(b"greetings"));
}
