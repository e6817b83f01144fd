use vstd::prelude::*;

verus! {

/// Milliseconds between the Unix epoch and the instant the 42-bit timestamp
/// field counts from.
pub const EPOCH_START_MS: i64 = 1288834974657;

pub const TIMESTAMP_MASK: i64 = 0x3FF_FFFF_FFFF;

pub const MACHINE_ID_MASK: i64 = 0x3FF;

pub const SEQUENCE_MASK: i64 = 0xFFF;

/// A 64-bit identifier packing three fields, most significant first:
/// `[ timestamp:42 ][ machine_id:10 ][ sequence:12 ]`.
pub struct SnowflakeId(pub i64);

/// The low `num_bits` bits of `value`.
pub fn and_with(value: i64, num_bits: u32) -> (r: i64)
    requires
        num_bits <= 62,
    ensures
        r == value & (((1i64 << num_bits) - 1) as i64),
{
    proof {
        assert(1i64 <= (1i64 << num_bits)) by (bit_vector)
            requires
                num_bits <= 62,
        ;
    }
    value & ((1i64 << num_bits) - 1)
}

proof fn lemma_mask_values()
    ensures
        (1i64 << 42u32) - 1 == TIMESTAMP_MASK,
        (1i64 << 10u32) - 1 == MACHINE_ID_MASK,
        (1i64 << 12u32) - 1 == SEQUENCE_MASK,
{
    assert((1i64 << 42u32) - 1 == 0x3FF_FFFF_FFFFi64 && (1i64 << 10u32) - 1 == 0x3FFi64 && (1i64
        << 12u32) - 1 == 0xFFFi64) by (bit_vector);
}

/// The packed id built from a timestamp already relative to the epoch start.
pub open spec fn spec_pack(ts_rel: i64, machine_id: i64, sequence: i64) -> i64 {
    ((ts_rel & TIMESTAMP_MASK) << 22) | ((machine_id & MACHINE_ID_MASK) << 12) | (sequence
        & SEQUENCE_MASK)
}

/// The timestamp field of a packed id, relative to the epoch start.
pub open spec fn spec_timestamp_rel(id: i64) -> i64 {
    (id >> 22) & TIMESTAMP_MASK
}

/// The machine id field of a packed id.
pub open spec fn spec_machine_id(id: i64) -> i64 {
    (id >> 12) & MACHINE_ID_MASK
}

/// The sequence field of a packed id.
pub open spec fn spec_sequence(id: i64) -> i64 {
    id & SEQUENCE_MASK
}

impl SnowflakeId {
    /// Packs the three fields; each is first masked to its width.
    pub fn new(machine_id: u16, timestamp_ms: i64, sequence: u16) -> (r: Self)
        requires
            timestamp_ms >= i64::MIN + EPOCH_START_MS,
        ensures
            r.0 == spec_pack(
                (timestamp_ms - EPOCH_START_MS) as i64,
                machine_id as i64,
                sequence as i64,
            ),
    {
        let ts_rel = timestamp_ms - EPOCH_START_MS;
        let t_field = and_with(ts_rel, 42);
        let m_field = and_with(machine_id as i64, 10);
        let s_field = and_with(sequence as i64, 12);
        proof {
            lemma_mask_values();
        }
        SnowflakeId((t_field << 22u32) | (m_field << 12u32) | s_field)
    }

    pub fn get(&self) -> (r: i64)
        ensures
            r == self.0,
    {
        self.0
    }

    pub fn machine_id(&self) -> (r: u16)
        ensures
            r as int == spec_machine_id(self.0),
    {
        let m = and_with(self.0 >> 12u32, 10);
        proof {
            lemma_mask_values();
            let id = self.0;
            assert(0 <= (id >> 12u32) & 0x3FFi64 < 1024) by (bit_vector);
        }
        m as u16
    }

    /// The absolute timestamp in milliseconds, recovered by re-adding the
    /// epoch start to the 42-bit field.
    pub fn timestamp(&self) -> (r: i64)
        ensures
            r == EPOCH_START_MS + spec_timestamp_rel(self.0),
    {
        let t = and_with(self.0 >> 22u32, 42);
        proof {
            lemma_mask_values();
            let id = self.0;
            assert(0 <= (id >> 22u32) & 0x3FF_FFFF_FFFFi64 < 0x400_0000_0000i64) by (bit_vector);
        }
        EPOCH_START_MS + t
    }

    pub fn sequence(&self) -> (r: u16)
        ensures
            r as int == spec_sequence(self.0),
    {
        let s = and_with(self.0, 12);
        proof {
            lemma_mask_values();
            let id = self.0;
            assert(0 <= id & 0xFFFi64 < 4096) by (bit_vector);
        }
        s as u16
    }
}

/// Identifier round-trip: for every machine id under 1024, sequence under
/// 4096 and timestamp within the 42-bit window, packing the three fields and
/// then unpacking recovers each of them exactly.
pub proof fn lemma_snowflake_roundtrip(timestamp_ms: i64, machine_id: u16, sequence: u16)
    requires
        machine_id < 1024,
        sequence < 4096,
        0 <= timestamp_ms - EPOCH_START_MS < 0x400_0000_0000,
    ensures
        spec_machine_id(
            spec_pack((timestamp_ms - EPOCH_START_MS) as i64, machine_id as i64, sequence as i64),
        ) == machine_id as int,
        spec_sequence(
            spec_pack((timestamp_ms - EPOCH_START_MS) as i64, machine_id as i64, sequence as i64),
        ) == sequence as int,
        EPOCH_START_MS + spec_timestamp_rel(
            spec_pack((timestamp_ms - EPOCH_START_MS) as i64, machine_id as i64, sequence as i64),
        ) == timestamp_ms,
{
    let t = (timestamp_ms - EPOCH_START_MS) as i64;
    let m = machine_id as i64;
    let s = sequence as i64;
    lemma_unpack_pack(t, m, s);
}

proof fn lemma_unpack_pack(t: i64, m: i64, s: i64)
    requires
        0 <= t < 0x400_0000_0000,
        0 <= m < 1024,
        0 <= s < 4096,
    ensures
        spec_timestamp_rel(spec_pack(t, m, s)) == t,
        spec_machine_id(spec_pack(t, m, s)) == m,
        spec_sequence(spec_pack(t, m, s)) == s,
{
    let id = spec_pack(t, m, s);
    assert((((((t & 0x3FF_FFFF_FFFFi64) << 22) | ((m & 0x3FFi64) << 12) | (s & 0xFFFi64)) >> 22)
        & 0x3FF_FFFF_FFFFi64) == t) by (bit_vector)
        requires
            0 <= t < 0x400_0000_0000i64,
            0 <= m < 1024i64,
            0 <= s < 4096i64,
    ;
    assert((((((t & 0x3FF_FFFF_FFFFi64) << 22) | ((m & 0x3FFi64) << 12) | (s & 0xFFFi64)) >> 12)
        & 0x3FFi64) == m) by (bit_vector)
        requires
            0 <= t < 0x400_0000_0000i64,
            0 <= m < 1024i64,
            0 <= s < 4096i64,
    ;
    assert(((((t & 0x3FF_FFFF_FFFFi64) << 22) | ((m & 0x3FFi64) << 12) | (s & 0xFFFi64)) & 0xFFFi64)
        == s) by (bit_vector)
        requires
            0 <= t < 0x400_0000_0000i64,
            0 <= m < 1024i64,
            0 <= s < 4096i64,
    ;
}

/// The field equations that hold of every packed id, with no bound on the
/// inputs: each recovered field is the input reduced to the field's width.
pub proof fn lemma_pack_fields(t: i64, m: i64, s: i64)
    ensures
        spec_machine_id(spec_pack(t, m, s)) == m & MACHINE_ID_MASK,
        spec_sequence(spec_pack(t, m, s)) == s & SEQUENCE_MASK,
{
    assert((((((t & 0x3FF_FFFF_FFFFi64) << 22) | ((m & 0x3FFi64) << 12) | (s & 0xFFFi64)) >> 12)
        & 0x3FFi64) == (m & 0x3FFi64)) by (bit_vector);
    assert(((((t & 0x3FF_FFFF_FFFFi64) << 22) | ((m & 0x3FFi64) << 12) | (s & 0xFFFi64)) & 0xFFFi64)
        == (s & 0xFFFi64)) by (bit_vector);
}

/// A node-local generator: a fixed machine id and a per-generator sequence
/// counter that increments on every call and is never reset.
pub struct SnowflakeIdGenerator {
    pub machine_id: u16,
    pub sequence: u16,
}

/// Relies on chrono's `Utc::now` and `DateTime::timestamp_millis`: the
/// current time as milliseconds since the Unix epoch. chrono's `DateTime`
/// is limited to about 262,000 years on either side of the common era, so
/// the result stays well inside ten quadrillion milliseconds either way.
#[verifier::external_body]
fn now_millis() -> (r: i64)
    ensures
        -10_000_000_000_000_000 < r < 10_000_000_000_000_000,
{
    chrono::Utc::now().timestamp_millis()
}

impl SnowflakeIdGenerator {
    pub fn new(machine_id: u16, sequence: u16) -> (r: Self)
        ensures
            r.machine_id == machine_id,
            r.sequence == sequence,
    {
        Self { machine_id, sequence }
    }

    /// Packs an id from the current wall-clock time, the generator's machine
    /// id and its sequence counter, then steps the counter by one.
    pub fn generate(&mut self) -> (r: SnowflakeId)
        ensures
            final(self).machine_id == old(self).machine_id,
            final(self).sequence as int == (old(self).sequence as int + 1) % 0x10000,
            spec_machine_id(r.0) == old(self).machine_id as int % 1024,
            spec_sequence(r.0) == old(self).sequence as int % 4096,
            exists|ts_rel: i64|
                -20_000_000_000_000_000 < ts_rel < 20_000_000_000_000_000 && r.0 == #[trigger] spec_pack(
                    ts_rel,
                    old(self).machine_id as i64,
                    old(self).sequence as i64,
                ),
    {
        let timestamp = now_millis();
        let id = SnowflakeId::new(self.machine_id, timestamp, self.sequence);
        proof {
            lemma_pack_fields(
                (timestamp - EPOCH_START_MS) as i64,
                self.machine_id as i64,
                self.sequence as i64,
            );
            let m = self.machine_id;
            let s = self.sequence;
            assert((m as i64) & 0x3FFi64 == m as int % 1024) by (bit_vector);
            assert((s as i64) & 0xFFFi64 == s as int % 4096) by (bit_vector);
        }
        self.sequence = self.sequence.wrapping_add(1);
        id
    }
}

/// Identifier generator monotonic sequence: as long as the 12-bit sequence
/// field has not reached its largest value, the id packed from the stepped
/// counter carries a sequence field exactly one above the previous id's,
/// and the machine id field of the two ids is the same.
pub proof fn lemma_generator_monotonic(t1: i64, t2: i64, m: u16, s: u16)
    requires
        s as int % 4096 != 4095,
    ensures
        spec_sequence(spec_pack(t2, m as i64, ((s as int + 1) % 0x10000) as i64)) == spec_sequence(
            spec_pack(t1, m as i64, s as i64),
        ) + 1,
        spec_machine_id(spec_pack(t2, m as i64, s as i64)) == spec_machine_id(
            spec_pack(t1, m as i64, s as i64),
        ),
{
    lemma_pack_fields(t1, m as i64, s as i64);
    lemma_pack_fields(t2, m as i64, s as i64);
    lemma_pack_fields(t2, m as i64, ((s as int + 1) % 0x10000) as i64);
    assert(s as int % 4096 != 4095 ==> ((((s as int + 1) % 0x10000) as i64) & 0xFFFi64) == ((
    s as i64) & 0xFFFi64) + 1) by (bit_vector);
}

} // verus!
