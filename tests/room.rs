use relay_room::member::Member;
use relay_room::room::{Request, Room};
use tokio::sync::mpsc::{unbounded_channel, UnboundedReceiver};

fn drain(rx: &mut UnboundedReceiver<String>) -> Vec<String> {
    let mut out = Vec::new();
    while let Ok(s) = rx.try_recv() {
        out.push(s);
    }
    out
}

fn joined(room: &mut Room, id: u128) -> UnboundedReceiver<String> {
    let (tx, rx) = unbounded_channel();
    room.join(Member::new(id, tx));
    rx
}

#[test]
fn new_room_is_empty() {
    let room = Room::new();
    assert_eq!(room.len(), 0);
    assert!(!room.contains(1));
}

#[test]
fn single_member_broadcast_reaches_nobody() {
    let mut room = Room::new();
    let mut ra = joined(&mut room, 0xa);
    assert_eq!(room.len(), 1);
    assert!(room.contains(0xa));
    let failed = room.broadcast(0xa, &"hi".to_string());
    assert!(failed.is_empty());
    assert!(drain(&mut ra).is_empty());
}

#[test]
fn two_members_only_the_other_receives() {
    let mut room = Room::new();
    let mut ra = joined(&mut room, 0xa);
    let mut rb = joined(&mut room, 0xb);
    assert_eq!(room.len(), 2);
    let failed = room.broadcast(0xa, &"hello".to_string());
    assert!(failed.is_empty());
    assert_eq!(drain(&mut rb), vec!["hello".to_string()]);
    assert!(drain(&mut ra).is_empty());
}

#[test]
fn after_leave_no_delivery() {
    let mut room = Room::new();
    let mut ra = joined(&mut room, 0xa);
    let mut rb = joined(&mut room, 0xb);
    room.leave(0xb);
    assert_eq!(room.len(), 1);
    assert!(room.contains(0xa));
    assert!(!room.contains(0xb));
    let failed = room.broadcast(0xa, &"still there?".to_string());
    assert!(failed.is_empty());
    assert!(drain(&mut rb).is_empty());
    assert!(drain(&mut ra).is_empty());
}

#[test]
fn per_sender_order_kept_for_each_recipient() {
    let mut room = Room::new();
    let mut ra = joined(&mut room, 0xa);
    let mut rb = joined(&mut room, 0xb);
    let mut rc = joined(&mut room, 0xc);
    room.broadcast(0xa, &"x".to_string());
    room.broadcast(0xa, &"y".to_string());
    let xy = vec!["x".to_string(), "y".to_string()];
    assert_eq!(drain(&mut rb), xy);
    assert_eq!(drain(&mut rc), xy);
    assert!(drain(&mut ra).is_empty());
}

#[test]
fn join_then_leave_leaves_room_empty() {
    let mut room = Room::new();
    let mut rd = joined(&mut room, 0xd);
    room.leave(0xd);
    assert_eq!(room.len(), 0);
    let mut ra = joined(&mut room, 0xa);
    room.broadcast(0xa, &"late".to_string());
    assert!(drain(&mut rd).is_empty());
    assert!(drain(&mut ra).is_empty());
}

#[test]
fn leave_of_stranger_changes_nothing() {
    let mut room = Room::new();
    let mut ra = joined(&mut room, 1);
    let mut rb = joined(&mut room, 2);
    room.leave(99);
    room.leave(99);
    assert_eq!(room.len(), 2);
    assert!(room.contains(1) && room.contains(2));
    room.broadcast(1, &"m".to_string());
    assert_eq!(drain(&mut rb), vec!["m".to_string()]);
    assert!(drain(&mut ra).is_empty());
}

#[test]
fn rejoin_replaces_queue() {
    let mut room = Room::new();
    let mut old_rx = joined(&mut room, 7);
    let mut new_rx = joined(&mut room, 7);
    let _rs = joined(&mut room, 8);
    assert_eq!(room.len(), 2);
    room.broadcast(8, &"fresh".to_string());
    assert!(drain(&mut old_rx).is_empty());
    assert_eq!(drain(&mut new_rx), vec!["fresh".to_string()]);
}

#[test]
fn closed_queue_does_not_stop_fan_out() {
    let mut room = Room::new();
    let _ra = joined(&mut room, 1);
    let mut rb = joined(&mut room, 2);
    let rc = joined(&mut room, 3);
    let mut rd = joined(&mut room, 4);
    drop(rc);
    let failed = room.broadcast(1, &"go".to_string());
    assert_eq!(failed, vec![3u128]);
    assert_eq!(drain(&mut rb), vec!["go".to_string()]);
    assert_eq!(drain(&mut rd), vec!["go".to_string()]);
    assert_eq!(room.len(), 4);
}

#[test]
fn broadcast_from_non_member_reaches_all() {
    let mut room = Room::new();
    let mut ra = joined(&mut room, 1);
    let mut rb = joined(&mut room, 2);
    room.broadcast(5, &"all".to_string());
    assert_eq!(drain(&mut ra), vec!["all".to_string()]);
    assert_eq!(drain(&mut rb), vec!["all".to_string()]);
}

#[test]
fn empty_text_is_still_delivered_by_the_room() {
    let mut room = Room::new();
    let _ra = joined(&mut room, 1);
    let mut rb = joined(&mut room, 2);
    room.broadcast(1, &String::new());
    assert_eq!(drain(&mut rb), vec![String::new()]);
}

#[test]
fn requests_in_any_order_keep_last_joined() {
    let mut room = Room::new();
    let (t1, _r1) = unbounded_channel();
    let (t2, _r2) = unbounded_channel();
    let (t3, _r3) = unbounded_channel();
    let (t1b, _r1b) = unbounded_channel();
    let reqs = vec![
        Request::Join(Member::new(1, t1)),
        Request::Join(Member::new(2, t2)),
        Request::Leave(1),
        Request::Leave(3),
        Request::Join(Member::new(3, t3)),
        Request::Broadcast(2, "z".to_string()),
        Request::Leave(2),
        Request::Join(Member::new(1, t1b)),
    ];
    for r in reqs {
        room.handle(r);
    }
    assert_eq!(room.len(), 2);
    assert!(room.contains(1));
    assert!(!room.contains(2));
    assert!(room.contains(3));
}

#[test]
fn handle_broadcast_reports_closed_queue() {
    let mut room = Room::new();
    let (t1, r1) = unbounded_channel();
    let (t2, mut r2) = unbounded_channel();
    assert!(room.handle(Request::Join(Member::new(1, t1))).is_empty());
    assert!(room.handle(Request::Join(Member::new(2, t2))).is_empty());
    drop(r1);
    let failed = room.handle(Request::Broadcast(2, "ping".to_string()));
    assert_eq!(failed, vec![1u128]);
    let failed = room.handle(Request::Broadcast(1, "pong".to_string()));
    assert!(failed.is_empty());
    assert_eq!(drain(&mut r2), vec!["pong".to_string()]);
}

#[test]
fn member_enqueue_reports_outcome() {
    let (tx, mut rx) = unbounded_channel();
    let mut m = Member::new(9, tx);
    assert!(m.enqueue("one".to_string()));
    assert_eq!(drain(&mut rx), vec!["one".to_string()]);
    drop(rx);
    assert!(!m.enqueue("two".to_string()));
    assert_eq!(m.id, 9);
}
