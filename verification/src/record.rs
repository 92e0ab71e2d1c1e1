//! Records: immutable, content-addressed entries of the store.

use vstd::prelude::*;
use vstd::utf8::encode_utf8;
use crate::error::AkashaError;
use crate::ext::clock::now_nanos;
use crate::ext::hash::{sha256, sha256_of};
use crate::hex::{encode, hex_text};

verus! {

/// A 32-byte content-addressed record id (a SHA-256 digest).
pub type RecordId = [u8; 32];

/// Whether two record ids are equal, byte for byte.
pub fn ids_equal(a: &RecordId, b: &RecordId) -> (r: bool)
    ensures
        r == (*a == *b),
{
    let mut i: usize = 0;
    while i < 32
        invariant
            i <= 32,
            forall|j: int| 0 <= j < i ==> a@[j] == b@[j],
        decreases 32 - i,
    {
        if a[i] != b[i] {
            return false;
        }
        i = i + 1;
    }
    proof {
        assert(a@ =~= b@);
        vstd::array::axiom_array_ext_equal(*a, *b);
    }
    true
}

/// Whether `x` occurs in `v`.
pub fn contains_id(v: &Vec<RecordId>, x: &RecordId) -> (r: bool)
    ensures
        r == v@.contains(*x),
{
    let mut i: usize = 0;
    while i < v.len()
        invariant
            i <= v.len(),
            forall|j: int| 0 <= j < i ==> v@[j] != *x,
        decreases v.len() - i,
    {
        if ids_equal(&v[i], x) {
            return true;
        }
        i = i + 1;
    }
    false
}

/// The current time in nanoseconds since the Unix epoch, 0 when it does
/// not fit in `i64`.
pub fn clock_nanos() -> i64 {
    match now_nanos() {
        Some(n) => n,
        None => 0,
    }
}

/// The `n` low-order bytes of `x`, least significant first.
pub open spec fn le_digits(x: nat, n: nat) -> Seq<u8>
    decreases n,
{
    if n == 0 {
        Seq::empty()
    } else {
        seq![(x % 256) as u8] + le_digits(x / 256, (n - 1) as nat)
    }
}

/// The little-endian bytes of a timestamp (its two's-complement form).
pub open spec fn ts_bytes(ts: i64) -> Seq<u8> {
    le_digits((ts as u64) as nat, 8)
}

/// The bytes hashed into a record id: the UTF-8 schema, the little-endian
/// timestamp, then the UTF-8 JSON text of the data.
pub open spec fn id_preimage(schema: Seq<char>, data: Seq<char>, ts: i64) -> Seq<u8> {
    encode_utf8(schema) + ts_bytes(ts) + encode_utf8(data)
}

/// The content address of a record with these core fields.
pub open spec fn record_id(schema: Seq<char>, data: Seq<char>, ts: i64) -> Seq<u8> {
    sha256_of(id_preimage(schema, data, ts))
}

/// The value bound to `key` in a metadata list: its last binding.
pub open spec fn meta_get(m: Seq<(String, String)>, key: Seq<char>) -> Option<Seq<char>>
    decreases m.len(),
{
    if m.len() == 0 {
        None
    } else if m.last().0@ == key {
        Some(m.last().1@)
    } else {
        meta_get(m.drop_last(), key)
    }
}

/// `m` without the bindings of `key`, the rest in order.
pub open spec fn drop_key(m: Seq<(String, String)>, key: Seq<char>) -> Seq<(String, String)>
    decreases m.len(),
{
    if m.len() == 0 {
        Seq::empty()
    } else if m.last().0@ == key {
        drop_key(m.drop_last(), key)
    } else {
        drop_key(m.drop_last(), key).push(m.last())
    }
}

/// Dropping the bindings of one key leaves the other keys' values alone.
proof fn lemma_drop_key(m: Seq<(String, String)>, key: Seq<char>, other: Seq<char>)
    requires
        other != key,
    ensures
        meta_get(drop_key(m, key), other) == meta_get(m, other),
    decreases m.len(),
{
    if m.len() > 0 {
        lemma_drop_key(m.drop_last(), key, other);
        if m.last().0@ != key {
            let d = drop_key(m.drop_last(), key).push(m.last());
            assert(d.drop_last() =~= drop_key(m.drop_last(), key));
        }
    }
}

/// `i64::to_le_bytes`.
fn le_bytes(ts: i64) -> (r: Vec<u8>)
    ensures
        r@ == ts_bytes(ts),
{
    let x: u64 = ts as u64;
    let mut rest: u64 = x;
    let mut out: Vec<u8> = Vec::new();
    let mut i: usize = 0;
    while i < 8
        invariant
            i <= 8,
            out@ + le_digits(rest as nat, (8 - i) as nat) == le_digits(x as nat, 8),
        decreases 8 - i,
    {
        proof {
            let m = (8 - i) as nat;
            assert(le_digits(rest as nat, m) == seq![(rest as nat % 256) as u8] + le_digits(rest as nat / 256, (m - 1) as nat));
            assert(out@ + le_digits(rest as nat, m) =~= out@.push((rest % 256) as u8) + le_digits((rest / 256) as nat, (m - 1) as nat));
        }
        out.push((rest % 256) as u8);
        rest = rest / 256;
        i = i + 1;
    }
    proof {
        assert(out@ + le_digits(rest as nat, 0) =~= out@);
    }
    out
}

/// `bytes` with the UTF-8 bytes of `s` appended.
fn append_bytes(bytes: &mut Vec<u8>, s: &str)
    ensures
        final(bytes)@ == old(bytes)@ + encode_utf8(s@),
{
    let b = s.as_bytes();
    let mut i: usize = 0;
    let ghost start = bytes@;
    while i < b.len()
        invariant
            i <= b.len(),
            b@ == encode_utf8(s@),
            bytes@ == start + b@.take(i as int),
        decreases b.len() - i,
    {
        bytes.push(b[i]);
        proof {
            assert(b@.take(i + 1) =~= b@.take(i as int).push(b@[i as int]));
            assert(start + b@.take(i + 1) =~= (start + b@.take(i as int)).push(b@[i as int]));
        }
        i = i + 1;
    }
    proof {
        assert(b@.take(b.len() as int) =~= b@);
    }
}

/// An immutable, content-addressed record.
#[derive(Debug, Clone)]
pub struct Record {
    /// The SHA-256 digest of the schema, the timestamp and the data.
    pub id: RecordId,
    /// Logical timestamp, in nanoseconds since the Unix epoch.
    pub timestamp: i64,
    /// Wall-clock time of insertion, in nanoseconds since the Unix epoch.
    pub inserted_at: i64,
    /// Schema name and version, such as "payment.v2".
    pub schema: String,
    /// The payload, as compact JSON text.
    pub data: String,
    /// An optional embedding for similarity search: the bit patterns of its
    /// `f32` components.
    pub embedding: Option<Vec<u32>>,
    /// The records that directly caused this one.
    pub causes: Vec<RecordId>,
    /// Key-value metadata; a key's value is its last binding.
    pub metadata: Vec<(String, String)>,
}

impl Record {
    /// The content address of a record: the SHA-256 digest of the UTF-8
    /// schema, the little-endian timestamp and the UTF-8 JSON text of the
    /// data, in that order.
    pub fn compute_id(schema: &str, data: &str, timestamp: i64) -> (r: RecordId)
        ensures
            r@ == record_id(schema@, data@, timestamp),
    {
        let mut bytes: Vec<u8> = Vec::new();
        append_bytes(&mut bytes, schema);
        let ts = le_bytes(timestamp);
        let mut i: usize = 0;
        let ghost start = bytes@;
        while i < ts.len()
            invariant
                i <= ts.len(),
                bytes@ == start + ts@.take(i as int),
            decreases ts.len() - i,
        {
            bytes.push(ts[i]);
            proof {
                assert(ts@.take(i + 1) =~= ts@.take(i as int).push(ts@[i as int]));
                assert(start + ts@.take(i + 1) =~= (start + ts@.take(i as int)).push(ts@[i as int]));
            }
            i = i + 1;
        }
        proof {
            assert(ts@.take(ts.len() as int) =~= ts@);
        }
        append_bytes(&mut bytes, data);
        sha256(bytes.as_slice())
    }

    /// The id as 64 lower-case hexadecimal digits.
    pub fn id_hex(&self) -> (r: String)
        ensures
            r@ == hex_text(self.id@),
            r@.len() == 64,
    {
        encode(&self.id)
    }

    /// The logical timestamp split into whole seconds since the epoch,
    /// rounded down, and the nanoseconds past them, below one second: the
    /// instant `secs * 10^9 + nanos` is the timestamp.
    pub fn logical_parts(&self) -> (r: (i64, u32))
        ensures
            r.0 == self.timestamp / 1_000_000_000,
            r.1 == self.timestamp % 1_000_000_000,
            r.0 * 1_000_000_000 + r.1 == self.timestamp,
            r.1 < 1_000_000_000,
    {
        let q = self.timestamp / 1_000_000_000;
        let rem = self.timestamp % 1_000_000_000;
        if rem < 0 {
            ((q - 1), (rem + 1_000_000_000) as u32)
        } else {
            (q, rem as u32)
        }
    }
}

/// A builder of records.
pub struct RecordBuilder {
    timestamp: Option<i64>,
    schema: String,
    data: String,
    embedding: Option<Vec<u32>>,
    causes: Vec<RecordId>,
    metadata: Vec<(String, String)>,
}

impl RecordBuilder {
    /// The logical timestamp set so far, if any.
    pub closed spec fn spec_timestamp(&self) -> Option<i64> {
        self.timestamp
    }

    /// The schema set so far.
    pub closed spec fn spec_schema(&self) -> Seq<char> {
        self.schema@
    }

    /// The JSON text of the data set so far.
    pub closed spec fn spec_data(&self) -> Seq<char> {
        self.data@
    }

    /// The embedding set so far, as bit patterns.
    pub closed spec fn spec_embedding(&self) -> Option<Seq<u32>> {
        match self.embedding {
            Some(e) => Some(e@),
            None => None,
        }
    }

    /// The causes set so far.
    pub closed spec fn spec_causes(&self) -> Seq<RecordId> {
        self.causes@
    }

    /// The value of a metadata key, if it was tagged.
    pub closed spec fn spec_tag(&self, key: Seq<char>) -> Option<Seq<char>> {
        meta_get(self.metadata@, key)
    }

    /// A builder with schema "default.v1", JSON `null` data, no timestamp,
    /// no embedding, no causes and no metadata.
    pub fn new() -> (b: Self)
        ensures
            b.spec_timestamp() is None,
            b.spec_schema() == "default.v1"@,
            b.spec_data() == "null"@,
            b.spec_embedding() is None,
            b.spec_causes() == Seq::<RecordId>::empty(),
            forall|k: Seq<char>| #[trigger] b.spec_tag(k) is None,
    {
        RecordBuilder {
            timestamp: None,
            schema: "default.v1".to_owned(),
            data: "null".to_owned(),
            embedding: None,
            causes: Vec::new(),
            metadata: Vec::new(),
        }
    }

    /// Sets the logical timestamp (nanoseconds since the Unix epoch).
    pub fn timestamp(self, ts: i64) -> (b: Self)
        ensures
            b.spec_timestamp() == Some(ts),
            b.spec_schema() == self.spec_schema(),
            b.spec_data() == self.spec_data(),
            b.spec_embedding() == self.spec_embedding(),
            b.spec_causes() == self.spec_causes(),
            forall|k: Seq<char>| #[trigger] b.spec_tag(k) == self.spec_tag(k),
    {
        let mut b = self;
        b.timestamp = Some(ts);
        b
    }

    /// Sets the logical timestamp from an instant given as nanoseconds since
    /// the Unix epoch, `None` when the instant does not fit in `i64`
    /// nanoseconds (the default then applies again).
    pub fn at(self, nanos: Option<i64>) -> (b: Self)
        ensures
            b.spec_timestamp() == nanos,
            b.spec_schema() == self.spec_schema(),
            b.spec_data() == self.spec_data(),
            b.spec_embedding() == self.spec_embedding(),
            b.spec_causes() == self.spec_causes(),
            forall|k: Seq<char>| #[trigger] b.spec_tag(k) == self.spec_tag(k),
    {
        let mut b = self;
        b.timestamp = nanos;
        b
    }

    /// Sets the schema name.
    pub fn schema(self, s: &str) -> (b: Self)
        ensures
            b.spec_timestamp() == self.spec_timestamp(),
            b.spec_schema() == s@,
            b.spec_data() == self.spec_data(),
            b.spec_embedding() == self.spec_embedding(),
            b.spec_causes() == self.spec_causes(),
            forall|k: Seq<char>| #[trigger] b.spec_tag(k) == self.spec_tag(k),
    {
        let mut b = self;
        b.schema = s.to_owned();
        b
    }

    /// Sets the payload, given as JSON text.
    pub fn data(self, d: &str) -> (b: Self)
        ensures
            b.spec_timestamp() == self.spec_timestamp(),
            b.spec_schema() == self.spec_schema(),
            b.spec_data() == d@,
            b.spec_embedding() == self.spec_embedding(),
            b.spec_causes() == self.spec_causes(),
            forall|k: Seq<char>| #[trigger] b.spec_tag(k) == self.spec_tag(k),
    {
        let mut b = self;
        b.data = d.to_owned();
        b
    }

    /// Attaches an embedding, given as the bit patterns of its components.
    pub fn embedding(self, emb: Vec<u32>) -> (b: Self)
        ensures
            b.spec_timestamp() == self.spec_timestamp(),
            b.spec_schema() == self.spec_schema(),
            b.spec_data() == self.spec_data(),
            b.spec_embedding() == Some(emb@),
            b.spec_causes() == self.spec_causes(),
            forall|k: Seq<char>| #[trigger] b.spec_tag(k) == self.spec_tag(k),
    {
        let mut b = self;
        b.embedding = Some(emb);
        b
    }

    /// Declares the causal predecessors.
    pub fn caused_by(self, causes: Vec<RecordId>) -> (b: Self)
        ensures
            b.spec_timestamp() == self.spec_timestamp(),
            b.spec_schema() == self.spec_schema(),
            b.spec_data() == self.spec_data(),
            b.spec_embedding() == self.spec_embedding(),
            b.spec_causes() == causes@,
            forall|k: Seq<char>| #[trigger] b.spec_tag(k) == self.spec_tag(k),
    {
        let mut b = self;
        b.causes = causes;
        b
    }

    /// Binds a metadata key to a value, replacing an earlier binding.
    pub fn tag(self, key: &str, value: &str) -> (b: Self)
        ensures
            b.spec_timestamp() == self.spec_timestamp(),
            b.spec_schema() == self.spec_schema(),
            b.spec_data() == self.spec_data(),
            b.spec_embedding() == self.spec_embedding(),
            b.spec_causes() == self.spec_causes(),
            b.spec_tag(key@) == Some(value@),
            forall|k: Seq<char>| k != key@ ==> #[trigger] b.spec_tag(k) == self.spec_tag(k),
    {
        let mut b = self;
        let old_meta = b.metadata;
        let key_s = key.to_owned();
        let mut kept: Vec<(String, String)> = Vec::new();
        let mut i: usize = 0;
        proof {
            assert(old_meta@.take(0) =~= Seq::<(String, String)>::empty());
        }
        while i < old_meta.len()
            invariant
                i <= old_meta.len(),
                kept@ == drop_key(old_meta@.take(i as int), key@),
                key_s@ == key@,
            decreases old_meta.len() - i,
        {
            let entry = &old_meta[i];
            proof {
                let t = old_meta@.take(i + 1);
                assert(t.drop_last() =~= old_meta@.take(i as int));
                assert(t.last() == old_meta@[i as int]);
            }
            if !(entry.0 == key_s) {
                let k2 = entry.0.clone();
                let v2 = entry.1.clone();
                proof {
                    assert((k2, v2) == old_meta@[i as int]);
                }
                kept.push((k2, v2));
            }
            i = i + 1;
        }
        proof {
            assert(old_meta@.take(i as int) =~= old_meta@);
        }
        let ghost before = kept@;
        kept.push((key_s, value.to_owned()));
        b.metadata = kept;
        proof {
            assert(b.metadata@.drop_last() =~= before);
            assert forall|k: Seq<char>| k != key@ implies #[trigger] b.spec_tag(k) == self.spec_tag(k) by {
                lemma_drop_key(old_meta@, key@, k);
            }
        }
        b
    }

    /// Builds the record: refused with `InvalidRecord` when the schema is
    /// empty. The insertion time is one reading of the clock, in nanoseconds
    /// since the epoch; the timestamp defaults to that same reading. The id
    /// is the content address of the schema, data and timestamp.
    pub fn build(self) -> (r: Result<Record, AkashaError>)
        ensures
            self.spec_schema().len() == 0 <==> r is Err,
            r matches Err(e) ==> e matches AkashaError::InvalidRecord(m) && m@ == "schema must not be empty"@,
            r matches Ok(rec) ==> {
                &&& rec.schema@ == self.spec_schema()
                &&& rec.data@ == self.spec_data()
                &&& (self.spec_timestamp() matches Some(t) ==> rec.timestamp == t)
                &&& (self.spec_timestamp() is None ==> rec.timestamp == rec.inserted_at)
                &&& rec.id@ == record_id(rec.schema@, rec.data@, rec.timestamp)
                &&& (match rec.embedding { Some(e) => self.spec_embedding() == Some(e@), None => self.spec_embedding() is None })
                &&& rec.causes@ == self.spec_causes()
                &&& forall|k: Seq<char>| #[trigger] meta_get(rec.metadata@, k) == self.spec_tag(k)
            },
    {
        if self.schema.as_str().is_empty() {
            return Err(AkashaError::InvalidRecord("schema must not be empty".to_owned()));
        }
        let inserted_at = clock_nanos();
        let timestamp = match self.timestamp {
            Some(t) => t,
            None => inserted_at,
        };
        let id = Record::compute_id(self.schema.as_str(), self.data.as_str(), timestamp);
        Ok(Record {
            id,
            timestamp,
            inserted_at,
            schema: self.schema,
            data: self.data,
            embedding: self.embedding,
            causes: self.causes,
            metadata: self.metadata,
        })
    }
}

impl Default for RecordBuilder {
    /// The builder of `RecordBuilder::new`.
    fn default() -> (b: Self)
        ensures
            b.spec_timestamp() is None,
            b.spec_schema() == "default.v1"@,
            b.spec_data() == "null"@,
            b.spec_embedding() is None,
            b.spec_causes() == Seq::<RecordId>::empty(),
            forall|k: Seq<char>| #[trigger] b.spec_tag(k) is None,
    {
        Self::new()
    }
}

/// Content addressing: two records built from the same schema, data and
/// timestamp have the same id.
pub proof fn law_same_content_same_id(a: Record, b: Record)
    requires
        a.id@ == record_id(a.schema@, a.data@, a.timestamp),
        b.id@ == record_id(b.schema@, b.data@, b.timestamp),
        a.schema@ == b.schema@,
        a.data@ == b.data@,
        a.timestamp == b.timestamp,
    ensures
        a.id == b.id,
{
    vstd::array::axiom_array_ext_equal(a.id, b.id);
}

} // verus!

verus! {

/// Looking a key up in metadata finds its last binding: nothing exactly
/// when no entry binds the key, and otherwise the value of the last entry
/// that does.
pub proof fn law_meta_get_last_binding(m: Seq<(String, String)>, key: Seq<char>)
    ensures
        meta_get(m, key) is None <==> forall|i: int| 0 <= i < m.len() ==> (#[trigger] m[i]).0@ != key,
        forall|i: int| 0 <= i < m.len() && (#[trigger] m[i]).0@ == key
            && (forall|j: int| i < j < m.len() ==> m[j].0@ != key)
            ==> meta_get(m, key) == Some(m[i].1@),
    decreases m.len(),
{
    if m.len() > 0 {
        let d = m.drop_last();
        law_meta_get_last_binding(d, key);
        assert forall|i: int| 0 <= i < d.len() implies d[i] == m[i] by {}
        if m.last().0@ != key {
            assert forall|i: int| 0 <= i < m.len() && (#[trigger] m[i]).0@ == key
                && (forall|j: int| i < j < m.len() ==> m[j].0@ != key)
                implies meta_get(m, key) == Some(m[i].1@) by {
                assert(i < m.len() - 1);
                assert(d[i] == m[i]);
                assert forall|j: int| i < j < d.len() implies d[j].0@ != key by {
                    assert(d[j] == m[j]);
                }
            }
            if meta_get(d, key) is None {
                assert forall|i: int| 0 <= i < m.len() implies (#[trigger] m[i]).0@ != key by {
                    if i < d.len() {
                        assert(d[i] == m[i]);
                    }
                }
            } else {
                let i = choose|i: int| 0 <= i < d.len() && (#[trigger] d[i]).0@ == key;
                assert(m[i] == d[i]);
            }
        } else {
            assert(m[m.len() - 1] == m.last());
            assert forall|i: int| 0 <= i < m.len() && (#[trigger] m[i]).0@ == key
                && (forall|j: int| i < j < m.len() ==> m[j].0@ != key)
                implies meta_get(m, key) == Some(m[i].1@) by {
                if i < m.len() - 1 {
                    assert(m[m.len() - 1].0@ == key);
                }
            }
        }
    }
}

} // verus!
