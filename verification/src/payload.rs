//! How documents are packed into the payloads of log entries, and how times are shown.

use crate::b64::encoded;
use crate::clock::{is_reading, law_readings_start_at_the_epoch, now_millis, Clock};
use crate::text::{lemma_text_round_trip, utf8_str};
use crate::views::{copy_bytes, copy_str};
use base64::Engine;
use vstd::prelude::*;
use vstd::utf8::{decode_utf8, encode_utf8, valid_utf8};

verus! {

/// The bytes that `zstd::encode_all` gives for bytes at a level, if it succeeds.
pub uninterp spec fn zstd_compressed(bytes: Seq<u8>, level: i32) -> Option<Seq<u8>>;

/// The bytes that `zstd::decode_all` gives for bytes, if it succeeds.
pub uninterp spec fn zstd_decompressed(bytes: Seq<u8>) -> Option<Seq<u8>>;

/// `zstd::encode_all`. Its result is given a name, and decompressing it gives the bytes back. That
/// memory may run out is left out of account.
#[verifier::external_body]
fn compress(bytes: &[u8], level: i32) -> (r: Option<Vec<u8>>)
    ensures
        match r {
            Some(v) => {
                &&& zstd_compressed(bytes@, level) == Some(v@)
                &&& zstd_decompressed(v@) == Some(bytes@)
            },
            None => zstd_compressed(bytes@, level) is None,
        },
{
    zstd::encode_all(bytes, level).ok()
}

/// `zstd::decode_all`. Its result is given a name. That memory may run out is left out of account.
#[verifier::external_body]
fn decompress(bytes: &[u8]) -> (r: Option<Vec<u8>>)
    ensures
        match r {
            Some(v) => zstd_decompressed(bytes@) == Some(v@),
            None => zstd_decompressed(bytes@) is None,
        },
{
    zstd::decode_all(bytes).ok()
}

/// The bytes that the standard engine of `base64` finds in a text, if it succeeds.
pub uninterp spec fn base64_decoding(text: Seq<char>) -> Option<Seq<u8>>;

/// `base64`'s standard engine, `encode`: gives the padded text for the bytes, and decoding it
/// gives the bytes back.
#[verifier::external_body]
fn standard_encode(bytes: &[u8]) -> (r: String)
    requires
        bytes@.len() <= isize::MAX / 2,
    ensures
        r@ == encoded(bytes@),
        base64_decoding(r@) == Some(bytes@),
{
    base64::engine::general_purpose::STANDARD.encode(bytes)
}

/// `base64`'s standard engine, `decode`. Its result is given a name.
#[verifier::external_body]
fn standard_decode(text: &str) -> (r: Option<Vec<u8>>)
    ensures
        match r {
            Some(v) => base64_decoding(text@) == Some(v@),
            None => base64_decoding(text@) is None,
        },
{
    base64::engine::general_purpose::STANDARD.decode(text).ok()
}

/// How far payloads are compressed.
pub const LEVEL: i32 = 3;

/// The bytes of the document in a payload, if it holds one.
pub open spec fn unpacked(payload: Seq<u8>) -> Option<Seq<u8>> {
    match zstd_decompressed(payload) {
        None => None,
        Some(b64) => if valid_utf8(b64) {
            base64_decoding(decode_utf8(b64))
        } else {
            None
        },
    }
}

/// Whether a document is too long for its base64 text.
pub open spec fn too_long(json: Seq<char>) -> bool {
    encode_utf8(json).len() > isize::MAX / 2
}

/// A document as a payload: its base64 text, compressed. There is none where the document is too
/// long for its base64 text, or where the compression gives none.
pub open spec fn packed(json: Seq<char>) -> Option<Seq<u8>> {
    if too_long(json) {
        None
    } else {
        zstd_compressed(encode_utf8(encoded(encode_utf8(json))), LEVEL)
    }
}

/// The base64 text of a document, unless the document is too long for it.
pub fn payload_text(json: &str) -> (r: Option<String>)
    ensures
        match r {
            Some(text) => {
                &&& !too_long(json@)
                &&& text@ == encoded(encode_utf8(json@))
                &&& base64_decoding(text@) == Some(encode_utf8(json@))
            },
            None => too_long(json@),
        },
{
    let bytes = json.as_bytes();
    if bytes.len() > isize::MAX as usize / 2 {
        return None;
    }
    Some(standard_encode(bytes))
}

/// Packs a document into a payload, which unpacks to the document.
pub fn encode_payload_b64(json: &str) -> (r: Option<Vec<u8>>)
    ensures
        match r {
            Some(v) => packed(json@) == Some(v@) && unpacked(v@) == Some(encode_utf8(json@)),
            None => packed(json@) is None,
        },
{
    match payload_text(json) {
        Some(text) => {
            proof {
                lemma_text_round_trip(text@);
            }
            compress(text.as_str().as_bytes(), LEVEL)
        },
        None => None,
    }
}

/// Unpacks the bytes of the document in a payload.
pub fn decode_payload_b64(payload: &[u8]) -> (r: Option<Vec<u8>>)
    ensures
        match r {
            Some(v) => unpacked(payload@) == Some(v@),
            None => unpacked(payload@) is None,
        },
{
    let b64 = match decompress(payload) {
        Some(v) => v,
        None => {
            return None;
        },
    };
    match utf8_str(b64.as_slice()) {
        Some(text) => standard_decode(text),
        None => None,
    }
}

/// A payload with the time at which it was packed, where there is one.
pub fn stamped(payload: Option<Vec<u8>>, millis: i64) -> (r: Option<(u64, Vec<u8>)>)
    ensures
        r == (match payload {
            Some(v) => Some((millis as u64, v)),
            None => None,
        }),
{
    match payload {
        Some(v) => Some((millis as u64, v)),
        None => None,
    }
}

/// Whether a timestamp is a reading of the wall clock.
pub open spec fn is_stamp(timestamp: u64) -> bool {
    exists|t: i64| #[trigger] is_reading(t) && timestamp == t as u64
}

/// A timestamp that is a reading of the wall clock does not lie before the Unix epoch, and the
/// reading is the timestamp as it stands.
pub proof fn law_stamp_is_a_reading(timestamp: u64)
    requires
        is_stamp(timestamp),
    ensures
        timestamp <= i64::MAX,
        is_reading(timestamp as i64),
{
    let t = choose|t: i64| #[trigger] is_reading(t) && timestamp == t as u64;
    law_readings_start_at_the_epoch(t);
}

/// Packs a document, with the time at which it is packed.
pub fn stamp_document(doc: &str) -> (r: Option<(u64, Vec<u8>)>)
    ensures
        match r {
            Some(e) => {
                &&& packed(doc@) == Some(e.1@)
                &&& unpacked(e.1@) == Some(encode_utf8(doc@))
                &&& is_stamp(e.0)
            },
            None => packed(doc@) is None,
        },
{
    let mut clock = Clock::new();
    stamp_document_by(doc, &mut clock)
}

/// Packs a document, with the time at which it is packed: what the clock is read as for it.
pub fn stamp_document_by(doc: &str, clock: &mut Clock) -> (r: Option<(u64, Vec<u8>)>)
    ensures
        final(clock).readings().len() == old(clock).readings().len() + 1,
        final(clock).readings().drop_last() == old(clock).readings(),
        is_reading(final(clock).readings().last()),
        match r {
            Some(e) => {
                &&& packed(doc@) == Some(e.1@)
                &&& unpacked(e.1@) == Some(encode_utf8(doc@))
                &&& e.0 == final(clock).readings().last() as u64
            },
            None => packed(doc@) is None,
        },
{
    let payload = encode_payload_b64(doc);
    let millis: i64 = now_millis(clock);
    assert(clock.readings().drop_last() =~= old(clock).readings());
    stamped(payload, millis)
}

/// The entries, where there is each of them.
pub fn all_stamped(entries: &Vec<Option<(u64, Vec<u8>)>>) -> (r: Option<Vec<(u64, Vec<u8>)>>)
    ensures
        match r {
            Some(all) => {
                &&& all@.len() == entries@.len()
                &&& forall|i: int|
                    0 <= i < all@.len() ==> {
                        &&& (#[trigger] entries@[i]) is Some
                        &&& all@[i].0 == (entries@[i]->0).0
                        &&& all@[i].1@ == (entries@[i]->0).1@
                    }
            },
            None => exists|i: int| 0 <= i < entries@.len() && (#[trigger] entries@[i]) is None,
        },
{
    let mut r: Vec<(u64, Vec<u8>)> = Vec::new();
    let mut i: usize = 0;
    while i < entries.len()
        invariant
            i <= entries@.len(),
            r@.len() == i,
            forall|j: int|
                0 <= j < i ==> {
                    &&& (#[trigger] entries@[j]) is Some
                    &&& r@[j].0 == (entries@[j]->0).0
                    &&& r@[j].1@ == (entries@[j]->0).1@
                },
        decreases entries@.len() - i,
    {
        match &entries[i] {
            Some(e) => r.push((e.0, copy_bytes(e.1.as_slice()))),
            None => {
                assert(entries@[i as int] is None);
                return None;
            },
        }
        i = i + 1;
    }
    Some(r)
}

/// Packs documents, each with the time at which it is packed. There is nothing where one of them
/// cannot be packed.
pub fn stamp_documents(docs: &Vec<String>) -> (r: Option<Vec<(u64, Vec<u8>)>>)
    ensures
        match r {
            Some(entries) => {
                &&& entries@.len() == docs@.len()
                &&& forall|i: int|
                    0 <= i < docs@.len() ==> {
                        &&& packed((#[trigger] docs@[i])@) == Some(entries@[i].1@)
                        &&& unpacked(entries@[i].1@) == Some(encode_utf8(docs@[i]@))
                        &&& is_stamp(entries@[i].0)
                    }
            },
            None => exists|i: int| 0 <= i < docs@.len() && packed((#[trigger] docs@[i])@) is None,
        },
{
    let mut clock = Clock::new();
    let r = stamp_documents_by(docs, &mut clock);
    proof {
        if r is Some {
            let all = r->0;
            assert forall|j: int| 0 <= j < docs@.len() implies {
                &&& packed((#[trigger] docs@[j])@) == Some(all@[j].1@)
                &&& unpacked(all@[j].1@) == Some(encode_utf8(docs@[j]@))
                &&& is_stamp(all@[j].0)
            } by {
                assert(is_reading(clock.readings()[j]));
            }
        }
    }
    r
}

/// Packs documents, each with the time at which it is packed: the clock is read once for each, in
/// order.
pub fn stamp_documents_by(docs: &Vec<String>, clock: &mut Clock) -> (r: Option<Vec<(u64, Vec<u8>)>>)
    ensures
        final(clock).readings().len() == old(clock).readings().len() + docs@.len(),
        final(clock).readings().take(old(clock).readings().len() as int) == old(clock).readings(),
        match r {
            Some(entries) => {
                let n = old(clock).readings().len();
                &&& entries@.len() == docs@.len()
                &&& forall|i: int|
                    0 <= i < docs@.len() ==> {
                        &&& packed((#[trigger] docs@[i])@) == Some(entries@[i].1@)
                        &&& unpacked(entries@[i].1@) == Some(encode_utf8(docs@[i]@))
                        &&& is_reading(final(clock).readings()[n + i])
                        &&& entries@[i].0 == final(clock).readings()[n + i] as u64
                    }
            },
            None => exists|i: int| 0 <= i < docs@.len() && packed((#[trigger] docs@[i])@) is None,
        },
{
    let mut entries: Vec<Option<(u64, Vec<u8>)>> = Vec::new();
    let mut i: usize = 0;
    let ghost n = clock.readings().len();
    assert(clock.readings().take(n as int) =~= clock.readings());
    while i < docs.len()
        invariant
            i <= docs@.len(),
            entries@.len() == i,
            n == old(clock).readings().len(),
            clock.readings().len() == n + i,
            clock.readings().take(n as int) == old(clock).readings(),
            forall|j: int|
                0 <= j < i ==> match #[trigger] entries@[j] {
                    Some(e) => {
                        &&& packed(docs@[j]@) == Some(e.1@)
                        &&& unpacked(e.1@) == Some(encode_utf8(docs@[j]@))
                        &&& is_reading(clock.readings()[n + j])
                        &&& e.0 == clock.readings()[n + j] as u64
                    },
                    None => packed(docs@[j]@) is None,
                },
        decreases docs@.len() - i,
    {
        let ghost before = clock.readings();
        let e = stamp_document_by(docs[i].as_str(), clock);
        proof {
            let now = clock.readings();
            assert forall|k: int| 0 <= k < before.len() implies #[trigger] now[k] == before[k] by {
                assert(now.drop_last()[k] == before[k]);
            }
            assert(now.take(n as int) =~= before.take(n as int));
        }
        entries.push(e);
        i = i + 1;
    }
    let r = all_stamped(&entries);
    proof {
        if r is Some {
            let all = r->0;
            assert forall|j: int| 0 <= j < docs@.len() implies {
                &&& packed((#[trigger] docs@[j])@) == Some(all@[j].1@)
                &&& unpacked(all@[j].1@) == Some(encode_utf8(docs@[j]@))
                &&& is_reading(clock.readings()[n + j])
                &&& all@[j].0 == clock.readings()[n + j] as u64
            } by {
                assert(entries@[j] is Some);
            }
        } else {
            let j = choose|j: int| 0 <= j < entries@.len() && (#[trigger] entries@[j]) is None;
            assert(packed(docs@[j]@) is None);
        }
    }
    r
}

/// How `chrono` shows a time of milliseconds since the Unix epoch in Tehran, in a format. There
/// is nothing to show where the time is out of its range.
pub uninterp spec fn tehran_text(millis: i64, format: Seq<char>) -> Option<Seq<char>>;

/// How times are shown.
pub open spec fn time_format() -> Seq<char> {
    "%Y-%m-%d %H:%M:%S"@
}

/// `chrono::DateTime::from_timestamp_millis`, then `with_timezone` for `chrono_tz::Asia::Tehran`,
/// then `format`. The result is given a name.
#[verifier::external_body]
fn format_tehran(millis: i64, format: &str) -> (r: Option<String>)
    requires
        format@ == time_format(),
    ensures
        match r {
            Some(s) => tehran_text(millis, format@) == Some(s@),
            None => tehran_text(millis, format@) is None,
        },
{
    let utc = chrono::DateTime::<chrono::Utc>::from_timestamp_millis(millis)?;
    Some(utc.with_timezone(&chrono_tz::Asia::Tehran).format(format).to_string())
}

/// What is shown of a timestamp, given what `chrono` shows of it.
pub open spec fn time_shown(text: Option<Seq<char>>) -> Seq<char> {
    match text {
        Some(s) => s,
        None => "invalid timestamp"@,
    }
}

/// What is shown of a timestamp, given what is shown of a time that there is.
pub fn or_invalid(text: Option<String>) -> (r: String)
    ensures
        r@ == time_shown(
            match text {
                Some(s) => Some(s@),
                None => None,
            },
        ),
{
    match text {
        Some(s) => s,
        None => copy_str("invalid timestamp"),
    }
}

/// What is shown of a timestamp: its time in Tehran.
pub fn show_time(timestamp: u64) -> (r: String)
    ensures
        r@ == time_shown(tehran_text(timestamp as i64, time_format())),
{
    or_invalid(format_tehran(timestamp as i64, "%Y-%m-%d %H:%M:%S"))
}

/// What was packed is what is unpacked.
pub proof fn law_packed_document_is_unpacked(
    doc: &str,
    packing: Option<Vec<u8>>,
    payload: &[u8],
    unpacking: Option<Vec<u8>>,
)
    requires
        call_ensures(encode_payload_b64, (doc,), packing),
        call_ensures(decode_payload_b64, (payload,), unpacking),
        packing matches Some(v) && v@ == payload@,
    ensures
        unpacking matches Some(bytes) && bytes@ == encode_utf8(doc@),
{
}

/// A document that is packed with its time unpacks to the document, and its time is what the clock
/// was read as while it was packed, once, whatever was read before.
pub proof fn law_stamped_document(
    doc: &str,
    clock: &mut Clock,
    r: Option<(u64, Vec<u8>)>,
    payload: &[u8],
    unpacking: Option<Vec<u8>>,
)
    requires
        call_ensures(stamp_document_by, (doc, clock), r),
        call_ensures(decode_payload_b64, (payload,), unpacking),
        r matches Some(e) && e.1@ == payload@,
    ensures
        unpacking matches Some(bytes) && bytes@ == encode_utf8(doc@),
        exists|t: i64| #[trigger]
            is_reading(t) && t >= 0 && (r->0).0 == t && final(clock).readings() == old(
                clock,
            ).readings().push(t),
{
    let now = final(clock).readings();
    let t = now.last();
    law_readings_start_at_the_epoch(t);
    assert(now =~= now.drop_last().push(t));
    assert(is_reading(t));
}

/// Documents that are packed at once are packed one for one and in order, each with a reading of the
/// clock of its own.
pub proof fn law_stamped_documents(
    docs: &Vec<String>,
    clock: &mut Clock,
    r: Option<Vec<(u64, Vec<u8>)>>,
    payload: &[u8],
    unpacking: Option<Vec<u8>>,
    i: int,
)
    requires
        call_ensures(stamp_documents_by, (docs, clock), r),
        call_ensures(decode_payload_b64, (payload,), unpacking),
        0 <= i < docs@.len(),
        r matches Some(entries) && (i < entries@.len() ==> payload@ == entries@[i].1@),
    ensures
        (r->0)@.len() == docs@.len(),
        unpacking matches Some(bytes) && bytes@ == encode_utf8(docs@[i]@),
        final(clock).readings().len() == old(clock).readings().len() + docs@.len(),
        is_reading(final(clock).readings()[old(clock).readings().len() + i]),
        (r->0)@[i].0 == final(clock).readings()[old(clock).readings().len() + i],
{
    let n = old(clock).readings().len();
    assert(packed(docs@[i]@) == Some((r->0)@[i].1@));
    law_readings_start_at_the_epoch(final(clock).readings()[n + i]);
}

/// A payload keeps its bytes when it is given its time, and entries keep their times, payloads and
/// order when there is each of them.
pub proof fn law_stamping_keeps_payloads(
    payload: Option<Vec<u8>>,
    millis: i64,
    one: Option<(u64, Vec<u8>)>,
    entries: &Vec<Option<(u64, Vec<u8>)>>,
    all: Option<Vec<(u64, Vec<u8>)>>,
    i: int,
)
    requires
        call_ensures(stamped, (payload, millis), one),
        call_ensures(all_stamped, (entries,), all),
        0 <= i < entries@.len(),
    ensures
        one is Some <==> payload is Some,
        payload is Some ==> (one->0).1@ == (payload->0)@,
        payload is Some && millis >= 0 ==> (one->0).0 == millis,
        entries@[i] is None ==> all is None,
        all is None ==> exists|j: int| 0 <= j < entries@.len() && (#[trigger] entries@[j]) is None,
        all is Some ==> (all->0)@.len() == entries@.len() && (all->0)@[i].0 == (entries@[i]->0).0
            && (all->0)@[i].1@ == (entries@[i]->0).1@,
{
}

/// A time is shown as it reads in Tehran, and one that there is not as invalid.
pub proof fn law_time_is_shown(timestamp: u64, r: String)
    requires
        call_ensures(show_time, (timestamp,), r),
        timestamp <= i64::MAX,
    ensures
        tehran_text(timestamp as i64, "%Y-%m-%d %H:%M:%S"@) matches Some(s) ==> r@ == s,
        tehran_text(timestamp as i64, "%Y-%m-%d %H:%M:%S"@) is None ==> r@ == "invalid timestamp"@,
{
}

/// A document that is packed carries a reading of the wall clock as its time, and unpacks to the
/// document. So does each of several documents, in order.
pub proof fn law_packed_documents_carry_the_time(
    doc: &str,
    one: Option<(u64, Vec<u8>)>,
    docs: &Vec<String>,
    all: Option<Vec<(u64, Vec<u8>)>>,
    a: &[u8],
    b: &[u8],
    from_one: Option<Vec<u8>>,
    from_all: Option<Vec<u8>>,
    i: int,
)
    requires
        call_ensures(stamp_document, (doc,), one),
        call_ensures(stamp_documents, (docs,), all),
        one matches Some(e) && a@ == e.1@,
        all matches Some(v) && (i < v@.len() ==> b@ == v@[i].1@),
        call_ensures(decode_payload_b64, (a,), from_one),
        call_ensures(decode_payload_b64, (b,), from_all),
        0 <= i < docs@.len(),
    ensures
        is_reading((one->0).0 as i64) && (one->0).0 <= i64::MAX,
        from_one matches Some(bytes) && bytes@ == encode_utf8(doc@),
        (all->0)@.len() == docs@.len(),
        is_reading((all->0)@[i].0 as i64) && (all->0)@[i].0 <= i64::MAX,
        from_all matches Some(bytes) && bytes@ == encode_utf8(docs@[i]@),
{
    law_stamp_is_a_reading((one->0).0);
    assert(packed(docs@[i]@) == Some((all->0)@[i].1@));
    law_stamp_is_a_reading((all->0)@[i].0);
}

/// A document is packed as its base64 text, compressed at level 3.
pub proof fn law_packing(doc: &str, r: Option<Vec<u8>>, text: Option<String>)
    requires
        call_ensures(encode_payload_b64, (doc,), r),
        call_ensures(payload_text, (doc,), text),
    ensures
        r matches Some(v) ==> {
            &&& zstd_compressed(encode_utf8(encoded(encode_utf8(doc@))), 3) == Some(v@)
            &&& text matches Some(t)
            &&& t@ == encoded(encode_utf8(doc@))
        },
{
}

} // verus!
