use event_emitter::Error;
use event_emitter::EventEmitter;
use event_emitter::Listener;
use std::sync::mpsc::channel;
use std::sync::mpsc::TryRecvError;

#[test]
fn register_returns_strictly_increasing_ids() {
    let mut emitter = EventEmitter::new();
    let a = emitter.on("first", |_: u8| {});
    let b = emitter.on("second", |_: u8| {});
    let c = emitter.on("first", |_: u8| {});
    assert_eq!(a, 0);
    assert_eq!(b, 1);
    assert_eq!(c, 2);
}

#[test]
fn ids_are_not_reused_after_deregistration() {
    let mut emitter = EventEmitter::new();
    let a = emitter.on("event", |_: u8| {});
    assert!(emitter.off(a).is_ok());
    let b = emitter.on("event", |_: u8| {});
    assert!(b > a);
}

#[test]
fn deregister_succeeds_exactly_once() {
    let mut emitter = EventEmitter::new();
    let id = emitter.on("event", |_: i32| {});
    assert_eq!(emitter.off(id), Ok(()));
    assert_eq!(emitter.off(id), Err(Error::ListenerNotFound));
}

#[test]
fn deregister_unknown_id_fails() {
    let mut emitter: EventEmitter<&str, i32> = EventEmitter::new();
    assert_eq!(emitter.off(42), Err(Error::ListenerNotFound));
}

#[test]
fn dispatch_after_removal_reaches_only_the_remaining_listener() {
    let (sx, rx) = channel();
    let sx1 = sx.clone();
    let sx2 = sx.clone();

    let mut emitter = EventEmitter::new();
    let first = emitter.on("event", move |payload: i32| sx1.send(("first", payload)).unwrap());
    emitter.on("event", move |payload: i32| sx2.send(("second", payload)).unwrap());

    assert_eq!(emitter.off(first), Ok(()));
    assert_eq!(emitter.emit("event", 9), Ok(()));

    assert_eq!(rx.recv(), Ok(("second", 9)));
    assert_eq!(rx.try_recv(), Err(TryRecvError::Empty));
}

#[test]
fn dispatch_on_unknown_event_fails() {
    let mut emitter = EventEmitter::new();
    emitter.on("known", |_: i32| {});
    assert_eq!(emitter.emit("unknown", 1), Err(Error::UnknownEvent));
}

#[test]
fn dispatch_on_emptied_event_succeeds_and_invokes_nothing() {
    let (sx, rx) = channel();
    let sx1 = sx.clone();

    let mut emitter = EventEmitter::new();
    let id = emitter.on("event", move |payload: i32| sx1.send(payload).unwrap());
    assert_eq!(emitter.off(id), Ok(()));

    assert_eq!(emitter.emit("event", 5), Ok(()));
    assert_eq!(rx.try_recv(), Err(TryRecvError::Empty));

    assert_eq!(emitter.listener_count("event"), Some(0));
}

#[test]
fn dispatch_invokes_listeners_in_registration_order() {
    let (sx, rx) = channel();
    let sx1 = sx.clone();
    let sx2 = sx.clone();

    let mut emitter = EventEmitter::new();
    emitter.on("event", move |payload: i32| sx1.send(("first", payload)).unwrap());
    emitter.on("event", move |payload: i32| sx2.send(("second", payload)).unwrap());

    assert_eq!(emitter.emit("event", 3), Ok(()));

    assert_eq!(rx.recv(), Ok(("first", 3)));
    assert_eq!(rx.recv(), Ok(("second", 3)));
    assert_eq!(rx.try_recv(), Err(TryRecvError::Empty));
}

#[test]
fn borrowed_key_reaches_listeners_of_the_owned_key() {
    let (sx, rx) = channel();

    let mut emitter = EventEmitter::new();
    emitter.on(String::from("event"), move |payload: i32| sx.send(payload).unwrap());

    let probe = String::from("event");
    assert_eq!(emitter.emit(probe.as_str(), 8), Ok(()));
    assert_eq!(emitter.emit("absent", 8), Err(Error::UnknownEvent));

    assert_eq!(rx.recv(), Ok(8));
    assert_eq!(rx.try_recv(), Err(TryRecvError::Empty));
}

#[test]
fn listener_count_distinguishes_absent_from_empty() {
    let mut emitter = EventEmitter::new();
    assert_eq!(emitter.listener_count("event"), None);
    let id = emitter.on("event", |_: i32| {});
    assert_eq!(emitter.listener_count("event"), Some(1));
    assert_eq!(emitter.off(id), Ok(()));
    assert_eq!(emitter.listener_count("event"), Some(0));
}

#[test]
fn listener_records_carry_their_id() {
    let listener: Listener<i32> = Listener::new(7, |_: i32| {});
    assert_eq!(listener.id(), 7);
}
