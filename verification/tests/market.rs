use engine::feed::{
    fill_envelope, relay_step, RelayAction, RelayEvent, Session, SessionAction, SessionEvent,
};
use engine::intake::{
    accept_order, order_id, post_step, OrderRequest, PostReply, PostStage, PostStep,
};
use engine::matcher::{first_task, next_task, EntryStep, EntryTask};
use engine::snapshot::{
    orderbook_reply, snapshot_reply, snapshot_text, BookReply, SnapshotFetch,
};
use engine::{Matcher, Order, Side, StreamEntry};

fn order(id: u64, side: Side, price: u64, qty: u64) -> Order {
    Order {
        id,
        side,
        price,
        qty,
        seq: 0,
    }
}

#[test]
fn matcher_numbers_orders_and_skips_other_entries() {
    let mut matcher = Matcher::new();
    assert_eq!(matcher.seq(), 0);
    assert!(matcher.handle(StreamEntry::MissingData).is_none());
    let fills = matcher.handle(StreamEntry::Order(order(7, Side::Sell, 100, 5)));
    assert!(fills.unwrap().is_empty());
    assert_eq!(matcher.seq(), 1);
    assert!(matcher.handle(StreamEntry::Malformed).is_none());
    assert_eq!(matcher.seq(), 1);
    let fills = matcher
        .handle(StreamEntry::Order(order(8, Side::Buy, 101, 7)))
        .unwrap();
    assert_eq!(matcher.seq(), 2);
    assert_eq!(fills.len(), 1);
    assert_eq!(fills[0].maker_order_id, 7);
    assert_eq!(fills[0].taker_order_id, 8);
    assert_eq!(fills[0].price, 100);
    assert_eq!(fills[0].qty, 5);
    let bids = matcher.book().bids_snapshot();
    assert_eq!(bids.len(), 1);
    assert_eq!((bids[0].price, bids[0].qty), (101, 2));
}

#[test]
fn matcher_fills_in_the_order_of_arrival() {
    let mut matcher = Matcher::new();
    matcher.process(order(30, Side::Buy, 10, 1));
    matcher.process(order(20, Side::Buy, 10, 1));
    matcher.process(order(10, Side::Buy, 10, 1));
    let fills = matcher.process(order(40, Side::Sell, 10, 2));
    let makers: Vec<u64> = fills.iter().map(|f| f.maker_order_id).collect();
    assert_eq!(makers, vec![30, 20]);
}

#[test]
fn order_is_acknowledged_after_its_snapshot() {
    assert_eq!(first_task(true), EntryTask::Publish);
    for published in [true, false] {
        assert_eq!(
            next_task(true, EntryTask::Publish, published),
            EntryStep::Perform(EntryTask::StoreSnapshot)
        );
    }
    assert_eq!(
        next_task(true, EntryTask::StoreSnapshot, true),
        EntryStep::Perform(EntryTask::Acknowledge)
    );
    assert_eq!(
        next_task(true, EntryTask::StoreSnapshot, false),
        EntryStep::Abort
    );
    assert_eq!(
        next_task(true, EntryTask::Acknowledge, true),
        EntryStep::Done
    );
    assert_eq!(
        next_task(true, EntryTask::Acknowledge, false),
        EntryStep::Abort
    );
}

#[test]
fn skipped_entry_is_only_acknowledged() {
    assert_eq!(first_task(false), EntryTask::Acknowledge);
    for acknowledged in [true, false] {
        assert_eq!(
            next_task(false, EntryTask::Acknowledge, acknowledged),
            EntryStep::Done
        );
    }
}

#[test]
fn replayed_orders_give_the_same_fills() {
    let mut first = Matcher::new();
    let mut second = Matcher::new();
    let sides = [Side::Buy, Side::Sell, Side::Sell, Side::Buy, Side::Buy];
    for (i, side) in sides.into_iter().enumerate() {
        let id = i as u64;
        let a = first.process(order(id, side, 100 + id % 3, 4 + id));
        let b = second.process(order(id, side, 100 + id % 3, 4 + id));
        assert_eq!(format!("{:?}", a), format!("{:?}", b));
    }
    assert_eq!(
        format!("{:?}", first.book().bids_snapshot()),
        format!("{:?}", second.book().bids_snapshot())
    );
}

#[test]
fn order_ids_hold_instance_and_count() {
    assert_eq!(order_id(3000, 1), 12_884_901_888_001);
    assert_eq!(order_id(0, 5), 5);
    assert_eq!(order_id(1, 0), 4_294_967_296);
    assert_ne!(order_id(3000, 1), order_id(3001, 1));
    assert_ne!(order_id(3000, 1), order_id(3000, 2));
}

#[test]
fn accepted_order_takes_over_the_request() {
    let request = OrderRequest {
        side: Side::Sell,
        price: 42,
        qty: 9,
    };
    let order = accept_order(3000, 2, request);
    assert_eq!(order.id, 12_884_901_888_002);
    assert_eq!(order.side, Side::Sell);
    assert_eq!(order.price, 42);
    assert_eq!(order.qty, 9);
    assert_eq!(order.seq, 0);
}

#[test]
fn posting_goes_through_its_stages() {
    assert_eq!(
        post_step(PostStage::Serialize, 5, true),
        PostStep::Perform(PostStage::Connect)
    );
    assert_eq!(
        post_step(PostStage::Connect, 5, true),
        PostStep::Perform(PostStage::Append)
    );
    assert_eq!(
        post_step(PostStage::Append, 5, true),
        PostStep::Reply(PostReply::Created { id: 5 })
    );
}

#[test]
fn posting_names_the_stage_that_failed() {
    let failures = [
        (PostStage::Serialize, 500, "serialize"),
        (PostStage::Connect, 503, "redis"),
        (PostStage::Append, 503, "xadd"),
    ];
    for (stage, status, name) in failures {
        match post_step(stage, 5, false) {
            PostStep::Reply(reply) => {
                assert_eq!(reply.status(), status);
                assert_eq!(reply.error(), Some(name));
            }
            PostStep::Perform(_) => panic!("a failed stage is answered"),
        }
    }
    let created = PostReply::Created { id: 5 };
    assert_eq!(created.status(), 201);
    assert_eq!(created.error(), None);
}

#[test]
fn envelope_frames_the_fill() {
    assert_eq!(
        fill_envelope("{\"qty\":1}"),
        "{\"data\":{\"qty\":1},\"type\":\"fill\"}"
    );
    let value: serde_json::Value = serde_json::from_str(&fill_envelope("[1]")).unwrap();
    assert_eq!(value["type"], "fill");
    assert_eq!(value["data"][0], 1);
}

#[test]
fn relay_broadcasts_and_resubscribes() {
    match relay_step(RelayEvent::Fill("7".to_string())) {
        RelayAction::Broadcast(message) => {
            assert_eq!(message, "{\"data\":7,\"type\":\"fill\"}")
        }
        RelayAction::Resubscribe { .. } => panic!("a fill is broadcast"),
    }
    assert!(matches!(
        relay_step(RelayEvent::Ended),
        RelayAction::Resubscribe { delay_secs: 0 }
    ));
    assert!(matches!(
        relay_step(RelayEvent::Failed),
        RelayAction::Resubscribe { delay_secs: 1 }
    ));
}

#[test]
fn session_passes_messages_on_until_it_closes() {
    let mut session = Session::new();
    assert!(session.open());
    match session.on_event(SessionEvent::Message("a".to_string())) {
        SessionAction::SendText(text) => assert_eq!(text, "a"),
        _ => panic!("a message is sent"),
    }
    session.text_sent(true);
    assert!(session.open());
    match session.on_event(SessionEvent::Ping(vec![1, 2])) {
        SessionAction::SendPong(payload) => assert_eq!(payload, vec![1, 2]),
        _ => panic!("a ping is answered"),
    }
    assert!(matches!(
        session.on_event(SessionEvent::Other),
        SessionAction::Wait
    ));
    assert!(session.open());
    assert!(matches!(
        session.on_event(SessionEvent::Close),
        SessionAction::Stop
    ));
    assert!(!session.open());
    assert!(matches!(
        session.on_event(SessionEvent::Message("b".to_string())),
        SessionAction::Stop
    ));
}

#[test]
fn session_ends_when_a_message_is_lost_or_nothing_can_come() {
    let mut session = Session::new();
    session.on_event(SessionEvent::Message("a".to_string()));
    session.text_sent(false);
    assert!(!session.open());
    let mut session = Session::new();
    assert!(matches!(
        session.on_event(SessionEvent::Exhausted),
        SessionAction::Stop
    ));
    assert!(!session.open());
}

#[test]
fn published_snapshot_is_returned() {
    let text = snapshot_text("[{\"price\":99,\"qty\":8}]", "[]");
    assert_eq!(text, "{\"asks\":[],\"bids\":[{\"price\":99,\"qty\":8}]}");
    let reply = orderbook_reply(SnapshotFetch::Found(text));
    assert_eq!(reply.status(), 200);
    match reply {
        BookReply::Published(value) => {
            assert_eq!(value["bids"][0]["price"], 99);
            assert_eq!(value["bids"][0]["qty"], 8);
            assert_eq!(value["asks"].as_array().unwrap().len(), 0);
        }
        _ => panic!("the snapshot is published"),
    }
}

#[test]
fn without_a_readable_snapshot_the_book_is_empty() {
    let fetches = vec![
        SnapshotFetch::Missing,
        SnapshotFetch::Failed,
        SnapshotFetch::Found("{\"bids\":".to_string()),
        SnapshotFetch::Found(String::new()),
    ];
    for fetch in fetches {
        let reply = orderbook_reply(fetch);
        assert_eq!(reply.status(), 200);
        assert!(matches!(reply, BookReply::EmptyBook));
    }
    assert_eq!(snapshot_reply(None).error(), None);
    let reply = orderbook_reply(SnapshotFetch::NoConnection);
    assert_eq!(reply.status(), 503);
    assert_eq!(reply.error(), Some("redis"));
    assert!(matches!(reply, BookReply::RedisUnavailable));
    assert!(matches!(snapshot_reply(None), BookReply::EmptyBook));
    assert!(matches!(
        snapshot_reply(Some(serde_json::Value::Null)),
        BookReply::Published(serde_json::Value::Null)
    ));
}
