use event_emitter::EventEmitter;
use std::sync::mpsc::channel;
use std::sync::mpsc::TryRecvError;

#[test]
fn can_register_listeners() {
    let mut emitter = EventEmitter::new();
    emitter.on("event", |_: i32| {});
    emitter.on("event", |_: i32| {});
}

#[test]
fn can_unregister_listeners() {
    let mut emitter = EventEmitter::new();
    let id = emitter.on("event", |_: i32| {});
    emitter.on("event", |_: i32| {});

    assert_eq!(emitter.listener_count("event").unwrap(), 2);

    assert!(emitter.off(id).is_ok());

    assert_eq!(emitter.listener_count("event").unwrap(), 1);
}

#[test]
fn can_call_listeners() {
    let (sx, rx) = channel();
    let sx1 = sx.clone();
    let sx2 = sx.clone();

    let mut emitter = EventEmitter::new();
    emitter.on("event", move |payload: i32| sx1.send(payload).unwrap());
    emitter.on("event", move |payload: i32| sx2.send(payload).unwrap());

    emitter.emit("event", 3).unwrap();

    assert_eq!(rx.recv(), Ok(3));
    assert_eq!(rx.recv(), Ok(3));
    assert_eq!(rx.try_recv(), Err(TryRecvError::Empty));
}

#[test]
fn can_pass_payload_by_reference() {
    let (sx, rx) = channel();
    let sx1 = sx.clone();
    let sx2 = sx.clone();

    let mut emitter = EventEmitter::new();
    emitter.on("event1", move |payload: &i32| sx1.send(payload).unwrap());
    emitter.on("event2", move |payload: &i32| sx2.send(payload).unwrap());

    emitter.emit("event1", &1).unwrap();
    emitter.emit("event1", &2).unwrap();

    assert_eq!(rx.recv(), Ok(&1));
    assert_eq!(rx.recv(), Ok(&2));
    assert_eq!(rx.try_recv(), Err(TryRecvError::Empty));
}

#[test]
fn can_invoke_emit_as_hash_map_get() {
    let (sx, rx) = channel();

    let mut emitter = EventEmitter::new();
    emitter.on(String::from("event1"), move |payload: &i32| sx.send(payload).unwrap());

    emitter.emit("event1", &1).unwrap();

    assert_eq!(rx.recv(), Ok(&1));
    assert_eq!(rx.try_recv(), Err(TryRecvError::Empty));
}
