use chat_server::codec::{decode_message, encode_message};
use chat_server::connection::{ConnectionAction, ConnectionEvent, ConnectionState};
use chat_server::protocol::{ChatProtocol, ClientStateMessage, ClientStateMessageType};
use chat_server::server::Server;
use tokio::runtime::{Builder, Runtime};
use tokio::sync::mpsc::{unbounded_channel, UnboundedReceiver};
use tokio::task::AbortHandle;

fn runtime() -> Runtime {
    Builder::new_current_thread().build().unwrap()
}

/// Admits `name` with a fresh mailbox and a task that never ends on its own.
fn join(hub: &mut Server, rt: &Runtime, name: &str) -> (UnboundedReceiver<ChatProtocol>, AbortHandle) {
    let (tx, rx) = unbounded_channel();
    let handle = rt.spawn(std::future::pending::<()>());
    let abort = handle.abort_handle();
    hub.admit_client(name.to_string(), tx, handle);
    (rx, abort)
}

fn chat_event(sender: &str, text: &str) -> ClientStateMessage {
    ClientStateMessage {
        client: sender.to_string(),
        msg: ClientStateMessageType::Message(ChatProtocol::Message(sender.to_string(), text.to_string())),
    }
}

fn error_event(name: &str) -> ClientStateMessage {
    ClientStateMessage { client: name.to_string(), msg: ClientStateMessageType::Error }
}

fn names(hub: &Server) -> Vec<String> {
    hub.names()
}

/// Lets the runtime run pending cancellations.
fn settle(rt: &Runtime) {
    rt.block_on(async {
        for _ in 0..10 {
            tokio::task::yield_now().await;
        }
    });
}

#[test]
fn scenario_first_client_joins_alone() {
    let rt = runtime();
    let mut hub = Server::new();
    let first = encode_message(&ChatProtocol::ClientJoined("alice".to_string()));
    let (_, action) = ConnectionState::Handshaking.step(ConnectionEvent::FrameReceived(first));
    let name = match action {
        ConnectionAction::Admit(n) => n,
        other => panic!("unexpected action {:?}", other),
    };
    let (mut alice_rx, _) = join(&mut hub, &rt, &name);
    assert_eq!(names(&hub), vec!["alice".to_string()]);
    assert!(alice_rx.try_recv().is_err());
}

#[test]
fn scenario_chat_reaches_peer_and_not_sender() {
    let rt = runtime();
    let mut hub = Server::new();
    let (mut alice_rx, _) = join(&mut hub, &rt, "alice");
    let (mut bob_rx, _) = join(&mut hub, &rt, "bob");
    assert_eq!(names(&hub), vec!["alice".to_string(), "bob".to_string()]);

    let report = hub.handle_event(chat_event("alice", "hi"));
    assert_eq!(report.recipients, vec!["bob".to_string()]);
    assert_eq!(report.delivered, vec![true]);

    let got = bob_rx.try_recv().unwrap();
    let hi = ChatProtocol::Message("alice".to_string(), "hi".to_string());
    assert_eq!(got, hi);
    // bob's connection writes a frame that decodes to the same chat
    let (_, action) = ConnectionState::Active("bob".to_string()).step(ConnectionEvent::Outbound(got));
    match action {
        ConnectionAction::Write(bytes) => assert_eq!(decode_message(&bytes), Ok(hi)),
        other => panic!("unexpected action {:?}", other),
    }
    assert!(alice_rx.try_recv().is_err());
    assert!(bob_rx.try_recv().is_err());
}

#[test]
fn scenario_reset_transport_removes_client() {
    let rt = runtime();
    let mut hub = Server::new();
    let (_alice_rx, alice_task) = join(&mut hub, &rt, "alice");
    let (_bob_rx, bob_task) = join(&mut hub, &rt, "bob");

    let (state, action) = ConnectionState::Active("bob".to_string()).step(ConnectionEvent::ReadFailed);
    assert!(matches!(state, ConnectionState::Closed));
    let report = match action {
        ConnectionAction::Disconnect(r) => r,
        other => panic!("unexpected action {:?}", other),
    };
    let fan = hub.handle_event(report);
    assert!(fan.recipients.is_empty());
    assert_eq!(fan.removed.len(), 1);
    assert_eq!(fan.removed[0].client_name, "bob");
    assert_eq!(names(&hub), vec!["alice".to_string()]);
    settle(&rt);
    assert!(bob_task.is_finished());
    assert!(!alice_task.is_finished());
}

#[test]
fn scenario_chat_with_no_peers_left() {
    let rt = runtime();
    let mut hub = Server::new();
    let (mut alice_rx, _) = join(&mut hub, &rt, "alice");
    let _bob = join(&mut hub, &rt, "bob");
    hub.handle_event(error_event("bob"));

    let report = hub.handle_event(chat_event("alice", "anyone?"));
    assert!(report.recipients.is_empty());
    assert!(report.removed.is_empty());
    assert!(report.delivered.is_empty());
    assert_eq!(names(&hub), vec!["alice".to_string()]);
    assert!(alice_rx.try_recv().is_err());
}

#[test]
fn scenario_duplicate_name_replaces_earlier_holder() {
    let rt = runtime();
    let mut hub = Server::new();
    let (_alice_rx, _) = join(&mut hub, &rt, "alice");
    let (mut first_rx, first_task) = join(&mut hub, &rt, "carol");
    let (tx, mut second_rx) = unbounded_channel();
    let handle = rt.spawn(std::future::pending::<()>());
    let second_task = handle.abort_handle();
    let replaced = hub.admit_client("carol".to_string(), tx, handle);
    assert_eq!(replaced.map(|h| h.client_name), Some("carol".to_string()));
    assert_eq!(names(&hub), vec!["alice".to_string(), "carol".to_string()]);
    assert_eq!(hub.len(), 2);
    settle(&rt);
    // the earlier holder's task is ended rather than left running unreachable
    assert!(first_task.is_finished());
    assert!(!second_task.is_finished());

    hub.handle_event(chat_event("alice", "hello carol"));
    assert!(second_rx.try_recv().is_ok());
    assert!(first_rx.try_recv().is_err());
}

#[test]
fn sender_excluded_and_each_peer_served_once() {
    let rt = runtime();
    let mut hub = Server::new();
    let (mut a, _) = join(&mut hub, &rt, "a");
    let (mut b, _) = join(&mut hub, &rt, "b");
    let (mut c, _) = join(&mut hub, &rt, "c");
    let report = hub.handle_event(chat_event("a", "x"));
    assert_eq!(report.recipients, vec!["b".to_string(), "c".to_string()]);
    assert!(a.try_recv().is_err());
    assert!(b.try_recv().is_ok());
    assert!(b.try_recv().is_err());
    assert!(c.try_recv().is_ok());
    assert!(c.try_recv().is_err());
}

#[test]
fn exactly_the_failed_mailboxes_are_removed() {
    let rt = runtime();
    let mut hub = Server::new();
    let _a = join(&mut hub, &rt, "a");
    let (b_rx, b_task) = join(&mut hub, &rt, "b");
    let (mut c_rx, c_task) = join(&mut hub, &rt, "c");
    drop(b_rx);
    let report = hub.handle_event(chat_event("a", "x"));
    assert_eq!(report.recipients, vec!["b".to_string(), "c".to_string()]);
    assert_eq!(report.delivered, vec![false, true]);
    assert_eq!(report.removed.len(), 1);
    assert_eq!(report.removed[0].client_name, "b");
    assert_eq!(names(&hub), vec!["a".to_string(), "c".to_string()]);
    assert!(c_rx.try_recv().is_ok());
    settle(&rt);
    assert!(b_task.is_finished());
    assert!(!c_task.is_finished());

    // nothing further is offered to the removed client
    let next = hub.handle_event(chat_event("c", "y"));
    assert_eq!(next.recipients, vec!["a".to_string()]);
}

#[test]
fn removing_an_absent_name_is_a_no_op() {
    let rt = runtime();
    let mut hub = Server::new();
    let _a = join(&mut hub, &rt, "a");
    hub.remove_client(&"zed".to_string());
    hub.handle_event(error_event("zed"));
    assert_eq!(names(&hub), vec!["a".to_string()]);
    assert!(hub.remove_client(&"a".to_string()).is_some());
    assert!(hub.remove_client(&"a".to_string()).is_none());
    assert_eq!(hub.len(), 0);
    assert!(!hub.contains(&"a".to_string()));
}

#[test]
fn roster_holds_each_name_once() {
    let rt = runtime();
    let mut hub = Server::new();
    for name in ["a", "b", "a", "c", "b", "a"] {
        let _ = join(&mut hub, &rt, name);
    }
    assert_eq!(names(&hub), vec!["a".to_string(), "b".to_string(), "c".to_string()]);
    assert!(hub.contains(&"c".to_string()));
}

#[test]
fn broadcast_offers_in_order_and_skips_sender() {
    let rt = runtime();
    let mut hub = Server::new();
    let (mut a, _) = join(&mut hub, &rt, "a");
    let (mut b, _) = join(&mut hub, &rt, "b");
    let one = ChatProtocol::Message("a".to_string(), "one".to_string());
    let two = ChatProtocol::Message("a".to_string(), "two".to_string());
    let first = hub.broadcast(&"a".to_string(), &one);
    let second = hub.broadcast(&"a".to_string(), &two);
    assert_eq!(first.recipients, vec!["b".to_string()]);
    assert_eq!(second.delivered, vec![true]);
    assert_eq!(b.try_recv().unwrap(), one);
    assert_eq!(b.try_recv().unwrap(), two);
    assert!(a.try_recv().is_err());
}

#[test]
fn joining_offers_nothing() {
    let rt = runtime();
    let mut hub = Server::new();
    let (mut a, _) = join(&mut hub, &rt, "a");
    let (mut b, _) = join(&mut hub, &rt, "b");
    assert!(a.try_recv().is_err());
    assert!(b.try_recv().is_err());
}
