use chat_relay::codec::{decode_chat, decode_envelope, encode_envelope};
use chat_relay::envelope::{Envelope, MsgKind};
use chat_relay::hub::Hub;
use chat_relay::registry::Registry;
use chat_relay::session::{epoch_ms, now_ms, Session};

fn b(s: &str) -> Vec<u8> {
    s.as_bytes().to_vec()
}

fn register_frame(name: &str) -> Vec<u8> {
    encode_envelope(&Envelope { kind: MsgKind::Register, data: Some(b(name)), data_array: None })
}

fn message_frame(body: &str) -> Vec<u8> {
    encode_envelope(&Envelope { kind: MsgKind::Message, data: Some(b(body)), data_array: None })
}

#[test]
fn registry_tracks_register_and_remove() {
    let mut reg = Registry::new();
    assert_eq!(reg.len(), 0);
    let roster = reg.register(1, b("alice"));
    assert_eq!(roster, vec![b("alice")]);
    let roster = reg.register(2, b("bob"));
    assert_eq!(roster, vec![b("alice"), b("bob")]);
    // Re-registering overwrites in place.
    let roster = reg.register(1, b("alicia"));
    assert_eq!(roster, vec![b("alicia"), b("bob")]);
    assert_eq!(reg.snapshot(), vec![b("alicia"), b("bob")]);
    // Effectual removal returns the new roster.
    let roster = reg.remove(1).expect("id 1 is registered");
    assert_eq!(roster, vec![b("bob")]);
    assert_eq!(reg.snapshot(), vec![b("bob")]);
}

#[test]
fn registry_remove_is_idempotent() {
    let mut reg = Registry::new();
    reg.register(7, b("carol"));
    assert!(reg.remove(7).is_some());
    // The second removal of the same id is a no-op, not an error.
    assert!(reg.remove(7).is_none());
    assert!(reg.remove(7).is_none());
    assert_eq!(reg.len(), 0);
}

#[test]
fn register_publishes_exactly_one_roster_frame() {
    let mut reg = Registry::new();
    let mut session = Session::new(1);
    let out = session.handle_frame_at(&mut reg, &register_frame("alice"), 5);
    assert_eq!(out.len(), 1);
    assert_eq!(out[0], b(r#"{"messageType":"users","dataArray":["alice"]}"#));
}

#[test]
fn register_without_name_uses_connection_id() {
    let mut reg = Registry::new();
    let mut session = Session::new(31);
    let frame = encode_envelope(&Envelope {
        kind: MsgKind::Register,
        data: None,
        data_array: None,
    });
    let out = session.handle_frame_at(&mut reg, &frame, 5);
    assert_eq!(out.len(), 1);
    assert_eq!(out[0], b(r#"{"messageType":"users","dataArray":["31"]}"#));
}

#[test]
fn no_message_before_registration() {
    let mut reg = Registry::new();
    let mut session = Session::new(1);
    let out = session.handle_frame_at(&mut reg, &message_frame("hi"), 5);
    // Silently discarded: no publish, no registry change.
    assert!(out.is_empty());
    assert_eq!(reg.len(), 0);
}

#[test]
fn users_envelope_from_client_is_ignored() {
    let mut reg = Registry::new();
    let mut session = Session::new(1);
    let frame = encode_envelope(&Envelope {
        kind: MsgKind::Users,
        data: None,
        data_array: Some(vec![b("mallory")]),
    });
    let out = session.handle_frame_at(&mut reg, &frame, 5);
    assert!(out.is_empty());
    assert_eq!(reg.len(), 0);
}

#[test]
fn registered_message_is_wrapped_with_sender_and_time() {
    let mut reg = Registry::new();
    let mut session = Session::new(1);
    session.handle_frame_at(&mut reg, &register_frame("alice"), 5);
    let out = session.handle_frame_at(&mut reg, &message_frame("hi"), 777);
    assert_eq!(out.len(), 1);
    let env = decode_envelope(&out[0]).expect("published frames decode");
    assert!(env.kind == MsgKind::Message);
    let chat = decode_chat(env.data.as_ref().unwrap()).expect("inner chat decodes");
    assert_eq!(chat.from, b("alice"));
    assert_eq!(chat.message, b("hi"));
    assert_eq!(chat.time, 777);
}

#[test]
fn fallback_wraps_plaintext_with_current_time() {
    let mut reg = Registry::new();
    let mut session = Session::new(1);
    session.handle_frame_at(&mut reg, &register_frame("alice"), 5);
    let before = now_ms();
    let out = session.handle_frame(&mut reg, &b("hello"));
    let after = now_ms();
    assert_eq!(out.len(), 1);
    let env = decode_envelope(&out[0]).expect("published frames decode");
    assert!(env.kind == MsgKind::Message);
    let chat = decode_chat(env.data.as_ref().unwrap()).expect("inner chat decodes");
    assert_eq!(chat.from, b("alice"));
    assert_eq!(chat.message, b("hello"));
    assert!(before <= chat.time && chat.time <= after);
}

#[test]
fn fallback_from_unregistered_uses_connection_id() {
    let mut reg = Registry::new();
    let mut session = Session::new(42);
    let out = session.handle_frame_at(&mut reg, &b("anyone there?"), 9);
    assert_eq!(out.len(), 1);
    let env = decode_envelope(&out[0]).unwrap();
    let chat = decode_chat(env.data.as_ref().unwrap()).unwrap();
    assert_eq!(chat.from, b("42"));
    assert_eq!(chat.message, b("anyone there?"));
}

#[test]
fn cleanup_broadcasts_once_and_is_idempotent() {
    let mut reg = Registry::new();
    let mut a = Session::new(1);
    let mut bsn = Session::new(2);
    a.handle_frame_at(&mut reg, &register_frame("alice"), 1);
    bsn.handle_frame_at(&mut reg, &register_frame("bob"), 2);
    let out = bsn.cleanup(&mut reg).expect("first cleanup removes the entry");
    assert_eq!(out, b(r#"{"messageType":"users","dataArray":["alice"]}"#));
    // Racing second cleanup: no removal, no broadcast, no error.
    assert!(bsn.cleanup(&mut reg).is_none());
    assert_eq!(reg.snapshot(), vec![b("alice")]);
}

#[test]
fn cleanup_of_unregistered_connection_is_silent() {
    let mut reg = Registry::new();
    reg.register(1, b("alice"));
    let session = Session::new(9);
    assert!(session.cleanup(&mut reg).is_none());
    assert_eq!(reg.snapshot(), vec![b("alice")]);
}

#[test]
fn hub_fans_out_to_every_subscriber() {
    let mut hub = Hub::new(8);
    let s1 = hub.subscribe();
    let s2 = hub.subscribe();
    let s3 = hub.subscribe();
    assert_eq!(hub.subscriber_count(), 3);
    let frame = b("broadcast");
    hub.publish(&frame);
    for sid in [s1, s2, s3] {
        let got = hub.next_frame(sid).expect("every subscriber observes the frame");
        assert_eq!(got, frame);
        assert!(hub.next_frame(sid).is_none());
    }
}

#[test]
fn hub_delivers_in_publish_order() {
    let mut hub = Hub::new(8);
    let sid = hub.subscribe();
    hub.publish(&b("one"));
    hub.publish(&b("two"));
    hub.publish(&b("three"));
    assert_eq!(hub.next_frame(sid).unwrap(), b("one"));
    assert_eq!(hub.next_frame(sid).unwrap(), b("two"));
    assert_eq!(hub.next_frame(sid).unwrap(), b("three"));
    assert!(hub.next_frame(sid).is_none());
}

#[test]
fn hub_overflow_drops_oldest_and_counts() {
    let mut hub = Hub::new(2);
    let slow = hub.subscribe();
    hub.publish(&b("one"));
    hub.publish(&b("two"));
    hub.publish(&b("three"));
    // The oldest frame was dropped for the slow consumer, observably.
    assert_eq!(hub.dropped_of(slow), Some(1));
    assert_eq!(hub.next_frame(slow).unwrap(), b("two"));
    assert_eq!(hub.next_frame(slow).unwrap(), b("three"));
    assert!(hub.next_frame(slow).is_none());
}

#[test]
fn hub_unsubscribe_is_idempotent() {
    let mut hub = Hub::new(4);
    let sid = hub.subscribe();
    let other = hub.subscribe();
    hub.unsubscribe(sid);
    hub.unsubscribe(sid);
    assert_eq!(hub.subscriber_count(), 1);
    hub.publish(&b("still here"));
    assert_eq!(hub.next_frame(other).unwrap(), b("still here"));
    assert!(hub.next_frame(sid).is_none());
}

#[test]
fn two_client_chat_scenario() {
    let mut reg = Registry::new();
    let mut hub = Hub::new(16);
    let mut a = Session::new(1);
    let a_sub = hub.subscribe();

    // Client A registers as "alice": the roster frame goes out to A.
    for frame in a.handle_frame_at(&mut reg, &register_frame("alice"), 10) {
        hub.publish(&frame);
    }
    assert_eq!(
        hub.next_frame(a_sub).unwrap(),
        b(r#"{"messageType":"users","dataArray":["alice"]}"#)
    );

    // Client B registers as "bob": both receive the two-name roster.
    let mut bsn = Session::new(2);
    let b_sub = hub.subscribe();
    for frame in bsn.handle_frame_at(&mut reg, &register_frame("bob"), 20) {
        hub.publish(&frame);
    }
    let expected = b(r#"{"messageType":"users","dataArray":["alice","bob"]}"#);
    assert_eq!(hub.next_frame(a_sub).unwrap(), expected);
    assert_eq!(hub.next_frame(b_sub).unwrap(), expected);

    // A sends "hi": both receive a message envelope from "alice".
    for frame in a.handle_frame_at(&mut reg, &message_frame("hi"), 30) {
        hub.publish(&frame);
    }
    for sid in [a_sub, b_sub] {
        let got = hub.next_frame(sid).unwrap();
        let env = decode_envelope(&got).unwrap();
        assert!(env.kind == MsgKind::Message);
        let chat = decode_chat(env.data.as_ref().unwrap()).unwrap();
        assert_eq!(chat.from, b("alice"));
        assert_eq!(chat.message, b("hi"));
    }

    // B disconnects: A receives the shrunken roster.
    if let Some(frame) = bsn.cleanup(&mut reg) {
        hub.publish(&frame);
    }
    hub.unsubscribe(b_sub);
    assert_eq!(
        hub.next_frame(a_sub).unwrap(),
        b(r#"{"messageType":"users","dataArray":["alice"]}"#)
    );
    assert!(hub.next_frame(a_sub).is_none());
}

#[test]
fn epoch_ms_converts_and_truncates() {
    assert_eq!(epoch_ms(0, 0), 0);
    assert_eq!(epoch_ms(1, 234), 1234);
    assert_eq!(epoch_ms(1_700_000_000, 123), 1_700_000_000_123);
    // (u64::MAX * 1000 + 999) mod 2^64 == u64::MAX.
    assert_eq!(epoch_ms(u64::MAX, 999), u64::MAX);
}
