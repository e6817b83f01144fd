use gossip_node::unique_id::{SnowflakeId, SnowflakeIdGenerator};

#[test]
fn test_id_attributes() {
    let id = SnowflakeId(1541815603606036480);
    assert_eq!(id.timestamp(), 1656432460105);
    assert_eq!(id.sequence(), 0);
    assert_eq!(id.machine_id(), 378);
}

#[test]
fn test_id_new() {
    let id = SnowflakeId::new(378, 1656432460105, 0);
    assert_eq!(id.get(), 1541815603606036480);
}

#[test]
fn test_id_roundtrip_extremes() {
    let id = SnowflakeId::new(1023, 1288834974657 + ((1i64 << 42) - 1), 4095);
    assert_eq!(id.machine_id(), 1023);
    assert_eq!(id.sequence(), 4095);
    assert_eq!(id.timestamp(), 1288834974657 + ((1i64 << 42) - 1));

    let id = SnowflakeId::new(0, 1288834974657, 0);
    assert_eq!(id.machine_id(), 0);
    assert_eq!(id.sequence(), 0);
    assert_eq!(id.timestamp(), 1288834974657);
}

#[test]
fn test_field_masking() {
    // Out-of-range inputs are masked to their field widths.
    let id = SnowflakeId::new(1024, 1656432460105, 4096);
    assert_eq!(id.machine_id(), 0);
    assert_eq!(id.sequence(), 0);
}

#[test]
fn test_generator_monotonic_sequence() {
    let mut generator = SnowflakeIdGenerator::new(378, 5);
    let a = generator.generate();
    let b = generator.generate();
    let c = generator.generate();
    assert_eq!(a.sequence(), 5);
    assert_eq!(b.sequence(), 6);
    assert_eq!(c.sequence(), 7);
    assert_eq!(a.machine_id(), 378);
    assert_eq!(b.machine_id(), 378);
    assert_eq!(c.machine_id(), 378);
    // The timestamp field carries the wall clock, so it sits at or past the
    // fixed epoch start.
    assert!(a.timestamp() >= 1288834974657);
}

#[test]
fn test_generator_sequence_wraps_in_id() {
    let mut generator = SnowflakeIdGenerator::new(7, 4095);
    let a = generator.generate();
    let b = generator.generate();
    assert_eq!(a.sequence(), 4095);
    assert_eq!(b.sequence(), 0);
    assert_eq!(b.machine_id(), 7);
}
