use rusty_junctions::engine::JunctionState;
use rusty_junctions::errors::JoinError;

#[derive(Debug, PartialEq, Clone)]
enum Msg {
    I(i64),
    S(String),
}

#[test]
fn fresh_junction_is_empty() {
    let j: JunctionState<i64> = JunctionState::new();
    assert_eq!(j.channel_count(), 0);
    assert_eq!(j.pattern_count(), 0);
}

#[test]
fn channel_identities_are_registration_ranks() {
    let mut j: JunctionState<i64> = JunctionState::new();
    assert_eq!(j.create_channel(), 0);
    assert_eq!(j.create_channel(), 1);
    assert_eq!(j.create_channel(), 2);
    assert_eq!(j.channel_count(), 3);
    assert_eq!(j.queue_len(0), 0);
    assert_eq!(j.queue_len(1), 0);
    assert_eq!(j.queue_len(2), 0);
}

#[test]
fn arity_mismatch_fails_at_build_time() {
    let mut j: JunctionState<i64> = JunctionState::new();
    let c1 = j.create_channel();
    let c2 = j.create_channel();
    let r = j.register_pattern(vec![c1, c2], 3);
    assert_eq!(r, Err(JoinError::PatternArityMismatch));
    assert_eq!(j.pattern_count(), 0);
    // The same channels with the matching arity register fine.
    assert_eq!(j.register_pattern(vec![c1, c2], 2), Ok(0));
    assert_eq!(j.pattern_count(), 1);
}

#[test]
fn foreign_channel_is_rejected_at_build_time() {
    let mut other: JunctionState<i64> = JunctionState::new();
    for _ in 0..5 {
        other.create_channel();
    }
    let foreign = 4;

    let mut j: JunctionState<i64> = JunctionState::new();
    let c = j.create_channel();
    let r = j.register_pattern(vec![c, foreign], 2);
    assert_eq!(r, Err(JoinError::CrossJunctionPattern));
    assert_eq!(j.pattern_count(), 0);
}

#[test]
fn pattern_arity_is_recorded() {
    let mut j: JunctionState<i64> = JunctionState::new();
    let c1 = j.create_channel();
    let c2 = j.create_channel();
    let p = j.register_pattern(vec![c1, c2, c1], 3).unwrap();
    assert_eq!(j.pattern_arity(p), 3);
}

#[test]
fn taxi_scenario_fires_once_in_declared_order() {
    let mut j: JunctionState<Msg> = JunctionState::new();
    let name = j.create_channel();
    let number = j.create_channel();
    assert_eq!(j.register_pattern(vec![name, number], 2), Ok(0));

    // The integer alone satisfies nothing.
    assert!(j.send(number, Msg::I(1729)).is_none());
    assert_eq!(j.queue_len(number), 1);

    // The string completes the pattern: it fires exactly once, arguments in
    // the declared channel order, and both queues drain.
    let fired = j.send(name, Msg::S("Taxi".to_string())).unwrap();
    assert_eq!(fired.pattern, 0);
    assert_eq!(fired.args, vec![Msg::S("Taxi".to_string()), Msg::I(1729)]);
    assert_eq!(j.queue_len(name), 0);
    assert_eq!(j.queue_len(number), 0);
}

#[test]
fn two_patterns_sharing_one_channel() {
    let mut j: JunctionState<i64> = JunctionState::new();
    let c1 = j.create_channel();
    let c2 = j.create_channel();
    let c3 = j.create_channel();
    let a = j.register_pattern(vec![c1, c2], 2).unwrap();
    let b = j.register_pattern(vec![c1, c3], 2).unwrap();
    assert_eq!((a, b), (0, 1));

    assert!(j.send(c2, 20).is_none());
    assert!(j.send(c3, 30).is_none());

    // c1's message is claimed by A, registered first; B stays unsatisfied.
    let fired = j.send(c1, 10).unwrap();
    assert_eq!(fired.pattern, a);
    assert_eq!(fired.args, vec![10, 20]);
    assert_eq!(j.queue_len(c1), 0);
    assert_eq!(j.queue_len(c2), 0);
    assert_eq!(j.queue_len(c3), 1);

    // Another message on c1 lets B complete with its queued c3 message.
    let fired = j.send(c1, 11).unwrap();
    assert_eq!(fired.pattern, b);
    assert_eq!(fired.args, vec![11, 30]);
    assert_eq!(j.queue_len(c3), 0);
}

#[test]
fn fifo_order_on_one_channel() {
    let mut j: JunctionState<i64> = JunctionState::new();
    let c = j.create_channel();
    // No pattern yet: messages accumulate in send order.
    assert!(j.send(c, 1).is_none());
    assert!(j.send(c, 2).is_none());
    assert_eq!(j.queue_len(c), 2);

    // Registration alone fires nothing; matching happens on sends.
    assert_eq!(j.register_pattern(vec![c], 1), Ok(0));
    assert_eq!(j.queue_len(c), 2);

    // Each firing consumes the oldest queued message.
    assert_eq!(j.send(c, 3).unwrap().args, vec![1]);
    assert_eq!(j.send(c, 4).unwrap().args, vec![2]);
    assert_eq!(j.send(c, 5).unwrap().args, vec![3]);
    assert_eq!(j.queue_len(c), 2);
}

#[test]
fn tie_break_prefers_first_registered() {
    let mut j: JunctionState<i64> = JunctionState::new();
    let c = j.create_channel();
    let first = j.register_pattern(vec![c], 1).unwrap();
    let second = j.register_pattern(vec![c], 1).unwrap();
    assert!(first < second);

    // Both patterns could consume the message; the earlier registration wins.
    let fired = j.send(c, 42).unwrap();
    assert_eq!(fired.pattern, first);
    assert_eq!(fired.args, vec![42]);
}

#[test]
fn repeated_channel_needs_that_many_messages() {
    let mut j: JunctionState<i64> = JunctionState::new();
    let c = j.create_channel();
    assert_eq!(j.register_pattern(vec![c, c], 2), Ok(0));

    assert!(j.send(c, 1).is_none());
    let fired = j.send(c, 2).unwrap();
    assert_eq!(fired.args, vec![1, 2]);
    assert_eq!(j.queue_len(c), 0);
}

#[test]
fn each_message_is_consumed_at_most_once() {
    let mut j: JunctionState<i64> = JunctionState::new();
    let c1 = j.create_channel();
    let c2 = j.create_channel();
    assert_eq!(j.register_pattern(vec![c1, c2], 2), Ok(0));

    assert!(j.send(c1, 7).is_none());
    assert!(j.send(c2, 8).unwrap().args == vec![7, 8]);

    // The consumed c1 message is gone: a fresh c2 message finds nothing.
    assert!(j.send(c2, 9).is_none());
    assert_eq!(j.queue_len(c2), 1);
}

#[test]
fn unreferenced_channel_accumulates() {
    let mut j: JunctionState<i64> = JunctionState::new();
    let c = j.create_channel();
    for k in 0..4 {
        assert!(j.send(c, k).is_none());
    }
    assert_eq!(j.queue_len(c), 4);
}
