use std::collections::HashMap;

use jbm::events::JvmEvent;
use jbm::provider::enqueue_jvm_events;

fn sample(tid: u32, timestamp: u64) -> Option<JvmEvent> {
    Some(JvmEvent {
        timestamp,
        monotonic_timestamp_ns: 0,
        tid,
        thread_name: String::new(),
        frames: Vec::new(),
    })
}

#[test]
fn samples_are_queued_by_thread_in_order() {
    let mut queues = HashMap::new();
    assert_eq!(
        enqueue_jvm_events(&mut queues, vec![sample(1, 10), None, sample(2, 11)]),
        2
    );
    assert_eq!(
        enqueue_jvm_events(&mut queues, vec![sample(2, 12), sample(1, 13), None]),
        2
    );
    let times = |tid: u32| -> Vec<u64> {
        queues[&tid].iter().map(|event| event.timestamp).collect()
    };
    assert_eq!(times(1), vec![10, 13]);
    assert_eq!(times(2), vec![11, 12]);
    assert_eq!(queues.len(), 2);
}
