use psionic::messaging::{Hub, Notification, Subscription, notification_message};
use psionic::ws::{handle_handshake, handle_write};
use psionic::dispatch::notification_frame;
use std::sync::mpsc;

#[test]
fn rfc_worked_example_accept_key() {
    let key = "dGhlIHNhbXBsZSBub25jZQ==".to_string();
    assert_eq!(handle_handshake(&key), "s3pPLMBiTxaQ9kYGzzhZRbK+xOo=");
}

#[test]
fn accept_key_depends_on_client_key() {
    let a = handle_handshake(&"aaaa".to_string());
    let b = handle_handshake(&"bbbb".to_string());
    assert_ne!(a, b);
}

#[test]
fn encode_frame_exact_bytes() {
    let mut data = b"File updated".to_vec();
    let frame = handle_write(&mut data, 12);
    let expected: Vec<u8> = vec![
        0x81, 0x0C, b'F', b'i', b'l', b'e', b' ', b'u', b'p', b'd', b'a', b't', b'e', b'd',
    ];
    assert_eq!(frame, expected);
    assert!(data.is_empty());
}

#[test]
fn notification_frames_carry_fixed_messages() {
    let cases: [(Notification, &[u8]); 4] = [
        (Notification::FileCreated("/a".to_string()), b"File created"),
        (Notification::FileUpdated("/a".to_string()), b"File updated"),
        (Notification::FileRemoved("/a".to_string()), b"File removed"),
        (Notification::FileRenamed("/a".to_string(), "/b".to_string()), b"File renamed"),
    ];
    for (notification, message) in cases {
        assert_eq!(notification_message(&notification), message);
        let frame = notification_frame(&notification);
        assert_eq!(frame.len(), 14);
        assert_eq!(frame[0], 0x81);
        assert_eq!(frame[1], 12);
        assert_eq!(&frame[2..], message);
    }
}

#[test]
fn broadcast_reaches_every_open_subscriber() {
    let mut hub = Hub::new();
    let (tx1, rx1) = mpsc::channel();
    let (tx2, rx2) = mpsc::channel();
    let (tx3, rx3) = mpsc::channel();
    hub.register(Subscription::new(tx1));
    hub.register(Subscription::new(tx2));
    hub.register(Subscription::new(tx3));
    assert_eq!(hub.subscriber_count(), 3);

    let delivered = hub.broadcast(&Notification::FileUpdated("/site/index.html".to_string()));
    assert_eq!(delivered, 3);
    assert_eq!(hub.subscriber_count(), 3);
    for rx in [&rx1, &rx2, &rx3] {
        match rx.try_recv().unwrap() {
            Notification::FileUpdated(path) => assert_eq!(path, "/site/index.html"),
            _ => panic!("the broadcast variant must be preserved"),
        }
        assert!(rx.try_recv().is_err());
    }
}

#[test]
fn closed_subscriber_is_pruned_and_the_rest_still_receive() {
    let mut hub = Hub::new();
    let (tx1, rx1) = mpsc::channel();
    let (tx2, rx2) = mpsc::channel();
    let (tx3, rx3) = mpsc::channel();
    hub.register(Subscription::new(tx1));
    hub.register(Subscription::new(tx2));
    hub.register(Subscription::new(tx3));
    drop(rx2);

    let delivered = hub.broadcast(&Notification::FileRemoved("/gone".to_string()));
    assert_eq!(delivered, 2);
    assert_eq!(hub.subscriber_count(), 2);
    assert!(matches!(rx1.try_recv().unwrap(), Notification::FileRemoved(_)));
    assert!(matches!(rx3.try_recv().unwrap(), Notification::FileRemoved(_)));

    // The pruned subscriber stays gone: a second broadcast loses nothing.
    let delivered = hub.broadcast(&Notification::FileCreated("/new".to_string()));
    assert_eq!(delivered, 2);
    assert_eq!(hub.subscriber_count(), 2);
    assert!(matches!(rx1.try_recv().unwrap(), Notification::FileCreated(_)));
    assert!(matches!(rx3.try_recv().unwrap(), Notification::FileCreated(_)));
}

#[test]
fn subscribers_see_notifications_in_broadcast_order() {
    let mut hub = Hub::new();
    let (tx, rx) = mpsc::channel();
    hub.register(Subscription::new(tx));
    hub.broadcast(&Notification::FileCreated("/1".to_string()));
    hub.broadcast(&Notification::FileUpdated("/2".to_string()));
    hub.broadcast(&Notification::FileRemoved("/3".to_string()));
    assert!(matches!(rx.try_recv().unwrap(), Notification::FileCreated(_)));
    assert!(matches!(rx.try_recv().unwrap(), Notification::FileUpdated(_)));
    assert!(matches!(rx.try_recv().unwrap(), Notification::FileRemoved(_)));
}
