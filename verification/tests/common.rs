use jbm::common::{decode_block_event, CollectionStats, BLOCK_EVENT_SIZE};

fn record() -> Vec<u8> {
    let mut bytes = Vec::new();
    bytes.extend_from_slice(&0x0102_0304u32.to_le_bytes());
    bytes.extend_from_slice(&0xa0b0_c0d0u32.to_le_bytes());
    bytes.extend_from_slice(&(-14i64).to_le_bytes());
    bytes.extend_from_slice(&77i64.to_le_bytes());
    bytes.extend_from_slice(b"LOCKER\0\0\0\0\0\0\0\0\0\0");
    bytes.extend_from_slice(&1_234_567u64.to_le_bytes());
    bytes.extend_from_slice(&5u64.to_le_bytes());
    bytes.extend_from_slice(&u64::MAX.to_le_bytes());
    bytes.extend_from_slice(&i64::MIN.to_le_bytes());
    bytes
}

#[test]
fn a_record_is_read_back() {
    let record = record();
    assert_eq!(record.len(), BLOCK_EVENT_SIZE);
    let event = decode_block_event(&record);
    assert_eq!(event.pid, 0x0102_0304);
    assert_eq!(event.tgid, 0xa0b0_c0d0);
    assert_eq!(event.user_stack_id, -14);
    assert_eq!(event.kernel_stack_id, 77);
    assert_eq!(&event.name, b"LOCKER\0\0\0\0\0\0\0\0\0\0");
    assert_eq!(event.offtime, 1_234_567);
    assert_eq!(event.t_start, 5);
    assert_eq!(event.t_end, u64::MAX);
    assert_eq!(event.signal_result, i64::MIN);
}

#[test]
fn what_follows_the_event_in_a_record_does_not_matter() {
    let mut longer = record();
    longer.extend_from_slice(&[0xff; 12]);
    let event = decode_block_event(&longer);
    assert_eq!(event.pid, 0x0102_0304);
    assert_eq!(event.signal_result, i64::MIN);
}

#[test]
fn counts_of_all_cpus_are_added_up() {
    let one = CollectionStats {
        eligible_intervals: 10,
        eligible_duration_us: 1_000,
        probability_rejections: 7,
        selected_intervals: 3,
        kernel_stack_failures: 1,
        user_stack_failures: 2,
        signal_failures: 0,
    };
    let two = CollectionStats {
        eligible_intervals: u64::MAX,
        ..one
    };
    let sum = CollectionStats::sum(&vec![one, two]);
    assert_eq!(sum.eligible_intervals, 9);
    assert_eq!(sum.eligible_duration_us, 2_000);
    assert_eq!(sum.probability_rejections, 14);
    assert_eq!(sum.selected_intervals, 6);
    assert_eq!(sum.kernel_stack_failures, 2);
    assert_eq!(sum.user_stack_failures, 4);
    assert_eq!(sum.signal_failures, 0);
    assert_eq!(CollectionStats::default().eligible_intervals, 0);
    assert_eq!(CollectionStats::sum(&Vec::new()).selected_intervals, 0);
}
