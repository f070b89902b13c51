use oxigate::proxy::body_limit::{
    collect_limited, idle_step, idle_wrap, BodyEvent, BodyLimitError, Collector, IdleBody,
    IdleStep, LimitedBody, MapErrBody, Polled,
};
use oxigate::span::Span;

fn data(b: &[u8]) -> BodyEvent {
    BodyEvent::Data(b.to_vec())
}

#[test]
fn collects_up_to_the_limit() {
    let r = collect_limited(vec![data(b"abc"), BodyEvent::Trailers, data(b"de")], 5);
    assert_eq!(r.ok().unwrap(), b"abcde".to_vec());
    let r = collect_limited(vec![data(b"abc"), data(b"def")], 5);
    assert!(matches!(r, Err(BodyLimitError::TooLarge)));
    assert_eq!(collect_limited(vec![], 0).ok().unwrap(), Vec::<u8>::new());
}

#[test]
fn the_first_error_ends_the_collection() {
    let r = collect_limited(vec![data(b"a"), BodyEvent::Idle, BodyEvent::Failed("x".into())], 9);
    assert!(matches!(r, Err(BodyLimitError::IdleTimeout)));
    let r = collect_limited(vec![BodyEvent::Failed("cut".into()), data(b"abc")], 1);
    match r {
        Err(BodyLimitError::Other(e)) => assert_eq!(e, "cut"),
        _ => panic!("not the error of the body"),
    }
}

#[test]
fn a_collector_goes_event_by_event() {
    let mut c = Collector::new(3);
    assert!(c.on_event(data(b"ab")).is_ok());
    assert!(c.on_event(BodyEvent::Trailers).is_ok());
    assert!(c.on_event(data(b"c")).is_ok());
    assert!(c.on_event(data(b"")).is_ok());
    assert_eq!(c.finish(), b"abc".to_vec());
}

#[test]
fn a_limited_body_counts() {
    let mut b = LimitedBody::new("inner", 4);
    assert!(b.on_data(4).is_ok());
    assert!(b.on_data(0).is_ok());
    assert!(matches!(b.on_data(1), Err(BodyLimitError::TooLarge)));
    assert_eq!(*b.inner_mut(), "inner");
}

#[test]
fn messages() {
    assert_eq!(BodyLimitError::TooLarge.message(), "body too large");
    assert_eq!(BodyLimitError::IdleTimeout.message(), "body idle timeout");
    assert_eq!(MapErrBody::<()>::map_err("reset".into()).message(), "reset");
}

#[test]
fn idle_timeouts() {
    assert_eq!(IdleBody::new((), Span::from_millis(1)).idle().nanos, 50_000_000);
    assert_eq!(IdleBody::new((), Span::from_secs(2)).idle().nanos, 2_000_000_000);
    let mut w = idle_wrap(7, Span::from_secs(2));
    assert_eq!(*w.inner_mut().inner_mut(), 7);
}

#[test]
fn idle_steps() {
    assert!(matches!(idle_step(Polled::Frame, true), IdleStep::PassAndReset));
    assert!(matches!(idle_step(Polled::End, true), IdleStep::End));
    assert!(matches!(
        idle_step(Polled::Failed(BodyLimitError::TooLarge), true),
        IdleStep::Fail(BodyLimitError::TooLarge)
    ));
    assert!(matches!(idle_step(Polled::Pending, false), IdleStep::Wait));
    assert!(matches!(
        idle_step(Polled::Pending, true),
        IdleStep::Fail(BodyLimitError::IdleTimeout)
    ));
}
