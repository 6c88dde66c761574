use idgen::snowflake_id::SnowflakeIdGenerator;
use idgen::snowflake_id::MAX_SEQUENCE;
use idgen::snowflake_id::TWITTER_EPOCH;
use idgen::IdError;

#[test]
fn test_generate_unique_ids() {
    let mut generator = SnowflakeIdGenerator::new();
    let id1 = generator.generate().unwrap();
    let id2 = generator.generate().unwrap();
    assert_ne!(id1, id2, "Generated IDs should be unique");
}

#[test]
fn test_generate_id_within_same_millisecond() {
    let mut generator = SnowflakeIdGenerator::new();
    generator.last_timestamp = SnowflakeIdGenerator::current_time_millis().unwrap();
    let id1 = generator.generate().unwrap();
    let id2 = generator.generate().unwrap();
    assert_ne!(id1, id2, "Generated IDs within the same millisecond should be unique");
}

#[test]
fn test_clock_moved_backwards() {
    let mut generator = SnowflakeIdGenerator::new();
    // an hour ahead of the real clock: every reading is a regression
    generator.last_timestamp = SnowflakeIdGenerator::current_time_millis().unwrap() + 3_600_000;
    let before = generator.last_timestamp;
    assert_eq!(generator.generate(), Err(IdError::ClockRegression));
    assert_eq!(generator.last_timestamp, before);
    assert_eq!(generator.sequence, 0);
}

#[test]
fn test_ids_strictly_increase() {
    let mut generator = SnowflakeIdGenerator::new();
    let mut last = generator.generate().unwrap();
    for _ in 0..500 {
        let next = generator.generate().unwrap();
        assert!(next > last);
        last = next;
    }
}

#[test]
fn test_same_millisecond_ids_differ_by_one() {
    let mut generator = SnowflakeIdGenerator::new();
    let t = TWITTER_EPOCH + 1_000_000;
    generator.last_timestamp = t;
    let id1 = generator.generate_at(t).unwrap();
    let id2 = generator.generate_at(t).unwrap();
    assert_eq!(id2 - id1, 1);
    // at a millisecond boundary the timestamp component grows and the
    // sequence resets to zero
    let id3 = generator.generate_at(t + 1).unwrap();
    assert!(id3 > id2);
    assert_eq!(id3 % 4096, 0);
    assert_eq!(id3 >> 22, 1_000_001);
}

#[test]
fn test_decompose_recovers_fields() {
    let mut generator = SnowflakeIdGenerator::new();
    let t = TWITTER_EPOCH + 42;
    generator.last_timestamp = t;
    generator.sequence = 6;
    let id = generator.generate_at(t).unwrap();
    let (delta, worker, seq) = SnowflakeIdGenerator::decompose(id);
    assert_eq!(delta, 42);
    assert_eq!(worker, 0);
    assert_eq!(seq, 7);
}

#[test]
fn test_sequence_exhausted_within_millisecond() {
    let mut generator = SnowflakeIdGenerator::new();
    let t = TWITTER_EPOCH + 1_000_000;
    generator.last_timestamp = t;
    generator.sequence = MAX_SEQUENCE;
    assert_eq!(generator.generate_at(t), None);
    assert_eq!(generator.last_timestamp, t);
    assert_eq!(generator.sequence, MAX_SEQUENCE);
}

#[test]
fn test_regression_rejected_at_fixed_time() {
    let mut generator = SnowflakeIdGenerator::new();
    let t = TWITTER_EPOCH + 1_000_000;
    generator.last_timestamp = t;
    assert_eq!(generator.generate_at(t - 1), None);
    assert_eq!(generator.last_timestamp, t);
}

#[test]
fn test_wait_for_next_millis_advances() {
    let now = SnowflakeIdGenerator::current_time_millis().unwrap();
    let t = SnowflakeIdGenerator::wait_for_next_millis(now).unwrap();
    assert!(t > now);
}
