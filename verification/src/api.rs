//! The request logic of the HTTP interface: turning the fields of an insert
//! request into a record, and reading record ids from hexadecimal text.

use vstd::prelude::*;
use crate::error::AkashaError;
use crate::hex::{decode, hex_decoded, hex_text, law_hex_round_trip, lemma_hex_digit_round_trip};
use crate::query::parser::hex_id;
use crate::text::{char_is_whitespace, trimmed};
use crate::record::{Record, RecordBuilder, RecordId, meta_get, record_id};
use crate::text::chars_of;
use crate::ext::clock::{iso_instant, parse_instant};

verus! {

/// Why a text is not a record id.
#[derive(PartialEq, Eq, Structural, Clone, Copy, Debug)]
pub enum IdTextError {
    /// The text is not an even number of hexadecimal digits.
    InvalidHex,
    /// The text spells a number of bytes other than 32.
    WrongLength,
}

/// The record id a text spells, if it spells one: 64 hexadecimal digits.
pub open spec fn id_text(s: Seq<char>) -> Option<Seq<u8>> {
    match hex_decoded(s) {
        Some(b) => if b.len() == 32 { Some(b) } else { None },
        None => None,
    }
}

/// Reads a record id from 64 hexadecimal digits.
pub fn parse_id_hex(hex_str: &str) -> (r: Result<RecordId, IdTextError>)
    ensures
        match hex_decoded(hex_str@) {
            None => r == Err::<RecordId, IdTextError>(IdTextError::InvalidHex),
            Some(b) => if b.len() == 32 {
                r matches Ok(id) && id@ == b
            } else {
                r == Err::<RecordId, IdTextError>(IdTextError::WrongLength)
            },
        },
{
    let v = chars_of(hex_str);
    match decode(&v) {
        None => Err(IdTextError::InvalidHex),
        Some(bytes) => {
            if bytes.len() != 32 {
                return Err(IdTextError::WrongLength);
            }
            let mut id: RecordId = [0u8; 32];
            let mut k: usize = 0;
            while k < 32
                invariant
                    k <= 32,
                    bytes@.len() == 32,
                    forall|j: int| 0 <= j < k ==> id@[j] == bytes@[j],
                decreases 32 - k,
            {
                id[k] = bytes[k];
                k = k + 1;
            }
            proof {
                assert(id@ =~= bytes@);
            }
            Ok(id)
        },
    }
}

/// The fields of a request to insert a record.
pub struct InsertRequest {
    /// The schema name.
    pub schema: String,
    /// The payload, as JSON text.
    pub data: String,
    /// The logical timestamp, if given.
    pub timestamp: Option<i64>,
    /// The embedding, as the bit patterns of its components, if given.
    pub embedding: Option<Vec<u32>>,
    /// The hexadecimal ids of the causes, if given.
    pub causes: Option<Vec<String>>,
    /// Metadata tags, if given.
    pub metadata: Option<Vec<(String, String)>>,
}

/// Why an insert request was refused.
#[derive(Debug)]
pub enum InsertRejection {
    /// A cause is not a record id; the text is the one that is not.
    InvalidCause(String),
    /// The record could not be built.
    Invalid(AkashaError),
}

/// The ids of the causes, when every cause text is a record id.
pub open spec fn cause_ids(texts: Seq<String>) -> Option<Seq<Seq<u8>>>
    decreases texts.len(),
{
    if texts.len() == 0 {
        Some(Seq::empty())
    } else {
        match (cause_ids(texts.drop_last()), id_text(texts.last()@)) {
            (Some(ids), Some(id)) => Some(ids.push(id)),
            _ => None,
        }
    }
}

/// The record ids of `texts`, or the first text that is not one.
fn decode_causes(texts: &Vec<String>) -> (r: Result<Vec<RecordId>, String>)
    ensures
        match cause_ids(texts@) {
            Some(ids) => r matches Ok(v) && v@.map_values(|x: RecordId| x@) == ids,
            None => r matches Err(t) && exists|i: int| 0 <= i < texts@.len() && texts@[i] == t
                && id_text(t@) is None
                && cause_ids(texts@.take(i)) is Some,
        },
{
    let mut out: Vec<RecordId> = Vec::new();
    let mut i: usize = 0;
    proof {
        assert(texts@.take(0) =~= Seq::<String>::empty());
        assert(out@.map_values(|x: RecordId| x@) =~= Seq::<Seq<u8>>::empty());
    }
    while i < texts.len()
        invariant
            i <= texts.len(),
            cause_ids(texts@.take(i as int)) == Some(out@.map_values(|x: RecordId| x@)),
        decreases texts.len() - i,
    {
        proof {
            let t = texts@.take(i + 1);
            assert(t.drop_last() =~= texts@.take(i as int));
            assert(t.last() == texts@[i as int]);
        }
        match parse_id_hex(texts[i].as_str()) {
            Ok(id) => {
                let ghost prev = out@;
                out.push(id);
                proof {
                    assert(out@.map_values(|x: RecordId| x@) =~= prev.map_values(|x: RecordId| x@).push(id@));
                }
            },
            Err(_) => {
                proof {
                    assert(id_text(texts@[i as int]@) is None);
                    lemma_cause_ids_stuck(texts@, i as int);
                }
                return Err(texts[i].clone());
            },
        }
        i = i + 1;
    }
    proof {
        assert(texts@.take(i as int) =~= texts@);
    }
    Ok(out)
}

/// Once a text is not a record id, the whole list is refused.
proof fn lemma_cause_ids_stuck(texts: Seq<String>, i: int)
    requires
        0 <= i < texts.len(),
        id_text(texts[i]@) is None,
    ensures
        cause_ids(texts) is None,
    decreases texts.len(),
{
    if i < texts.len() - 1 {
        lemma_cause_ids_stuck(texts.drop_last(), i);
    }
}

/// Builds the record an insert request describes: the schema and data, the
/// timestamp, embedding and metadata tags when given (later tags of a key
/// win), and the causes, which must all be record ids (the first that is
/// not refuses the request). The record is then built as the builder does.
pub fn record_from_request(req: InsertRequest) -> (r: Result<Record, InsertRejection>)
    ensures
        (req.causes matches Some(cs) && cause_ids(cs@) is None) <==> r matches Err(InsertRejection::InvalidCause(_)),
        r matches Err(InsertRejection::InvalidCause(t)) ==> (req.causes matches Some(cs)
            && exists|i: int| 0 <= i < cs@.len() && cs@[i] == t && id_text(t@) is None && cause_ids(cs@.take(i)) is Some),
        r matches Err(InsertRejection::Invalid(e)) ==> req.schema@.len() == 0 && e is InvalidRecord,
        (req.schema@.len() == 0 && !(req.causes matches Some(cs) && cause_ids(cs@) is None)) ==> r matches Err(InsertRejection::Invalid(_)),
        r matches Ok(rec) ==> {
            &&& rec.schema@ == req.schema@
            &&& rec.data@ == req.data@
            &&& (req.timestamp matches Some(t) ==> rec.timestamp == t)
            &&& rec.id@ == record_id(rec.schema@, rec.data@, rec.timestamp)
            &&& (match rec.embedding {
                Some(e) => req.embedding matches Some(g) && e@ == g@,
                None => req.embedding is None,
            })
            &&& (match req.causes {
                Some(cs) => cause_ids(cs@) == Some(rec.causes@.map_values(|x: RecordId| x@)),
                None => rec.causes@.len() == 0,
            })
            &&& forall|k: Seq<char>| #[trigger] meta_get(rec.metadata@, k) == (match req.metadata {
                Some(m) => meta_get(m@, k),
                None => None,
            })
        },
{
    let InsertRequest { schema, data, timestamp, embedding, causes, metadata } = req;
    let mut builder = RecordBuilder::new().schema(schema.as_str()).data(data.as_str());
    if let Some(ts) = timestamp {
        builder = builder.timestamp(ts);
    }
    if let Some(emb) = embedding {
        builder = builder.embedding(emb);
    }
    if let Some(meta) = &metadata {
        let mut i: usize = 0;
        proof {
            assert(meta@.take(0) =~= Seq::<(String, String)>::empty());
        }
        while i < meta.len()
            invariant
                i <= meta.len(),
                builder.spec_schema() == schema@,
                builder.spec_data() == data@,
                builder.spec_timestamp() == timestamp,
                builder.spec_embedding() == (match embedding { Some(e) => Some(e@), None => None::<Seq<u32>> }),
                builder.spec_causes().len() == 0,
                forall|k: Seq<char>| #[trigger] builder.spec_tag(k) == meta_get(meta@.take(i as int), k),
            decreases meta.len() - i,
        {
            proof {
                let t = meta@.take(i + 1);
                assert(t.drop_last() =~= meta@.take(i as int));
                assert(t.last() == meta@[i as int]);
            }
            builder = builder.tag(meta[i].0.as_str(), meta[i].1.as_str());
            i = i + 1;
        }
        proof {
            assert(meta@.take(i as int) =~= meta@);
        }
    }
    if let Some(texts) = &causes {
        match decode_causes(texts) {
            Ok(ids) => {
                builder = builder.caused_by(ids);
            },
            Err(bad) => {
                return Err(InsertRejection::InvalidCause(bad));
            },
        }
    }
    match builder.build() {
        Ok(rec) => Ok(rec),
        Err(e) => Err(InsertRejection::Invalid(e)),
    }
}

/// The start of a time search, in nanoseconds: the instant a date-time text
/// names (0 when it does not fit in `i64` nanoseconds), the epoch when the
/// text is absent or not a date-time.
pub open spec fn window_start(from: Option<Seq<char>>) -> i64 {
    match from {
        Some(s) => match iso_instant(s) {
            Some(Some(n)) => n,
            _ => 0,
        },
        None => 0,
    }
}

/// The end of a time search, in nanoseconds: the instant a date-time text
/// names (the latest timestamp when it does not fit in `i64` nanoseconds),
/// the current time `now` when the text is absent or not a date-time.
pub open spec fn window_end(to: Option<Seq<char>>, now: i64) -> i64 {
    match to {
        Some(s) => match iso_instant(s) {
            Some(Some(n)) => n,
            Some(None) => i64::MAX,
            None => now,
        },
        None => now,
    }
}

/// The time window and limit of a time search given as query parameters:
/// the start and end as `window_start` and `window_end` read them, and the
/// limit, 100 when absent.
pub fn search_window(from: Option<&str>, to: Option<&str>, limit: Option<usize>, now: i64) -> (r: (i64, i64, usize))
    ensures
        r.0 == window_start(match from { Some(s) => Some(s@), None => None }),
        r.1 == window_end(match to { Some(s) => Some(s@), None => None }, now),
        r.2 == (match limit { Some(n) => n, None => 100 }),
{
    let start = match from {
        Some(s) => match parse_instant(s) {
            Some(Some(n)) => n,
            _ => 0,
        },
        None => 0,
    };
    let end = match to {
        Some(s) => match parse_instant(s) {
            Some(Some(n)) => n,
            Some(None) => i64::MAX,
            None => now,
        },
        None => now,
    };
    let n = match limit {
        Some(n) => n,
        None => 100,
    };
    (start, end, n)
}

/// An id written as hexadecimal text reads back as the same id, both as
/// a path parameter and in a query.
pub proof fn law_id_hex_round_trip(id: RecordId)
    ensures
        id_text(hex_text(id@)) == Some(id@),
        hex_id(hex_text(id@)) == Some(id@),
{
    law_hex_round_trip(id@);
    let t = hex_text(id@);
    lemma_hex_digit_round_trip(id@[0] as int / 16);
    lemma_hex_digit_round_trip(id@[31] as int % 16);
    assert(t[0] == crate::hex::hex_char(id@[0] as int / 16));
    assert(t.last() == t[63]);
    assert(t[63] == crate::hex::hex_char(id@[31] as int % 16));
    assert(!char_is_whitespace(t[0]));
    assert(!char_is_whitespace(t.last()));
    assert(trimmed(t) =~= t);
}

} // verus!
