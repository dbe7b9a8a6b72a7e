//! The HTTP side of the client: what a request must hold, and what is answered for each outcome.

use crate::payload::{decode_payload_b64, show_time, tehran_text, time_format, time_shown, unpacked};
use crate::text::{decimal, push_decimal, show_bytes, shown_text};
use crate::views::{copy_bytes, copy_str, strings_view, triples_view, vecs_view};
use vstd::prelude::*;
use vstd::utf8::encode_utf8;

verus! {

pub const OK: u16 = 200;

pub const BAD_REQUEST: u16 = 400;

pub const NOT_FOUND: u16 = 404;

pub const INTERNAL_SERVER_ERROR: u16 = 500;

/// What came of a request to the server: an answer, a refusal with its message, or, outside, why
/// there was none.
pub type Outcome<T> = Result<Result<T, String>, String>;

/// A log entry, as it is shown: its payload is a JSON document.
#[derive(Debug)]
pub struct ShownEntry {
    pub id: u64,
    pub timestamp: u64,
    pub payload: Vec<u8>,
}

/// What is answered. Each is a JSON object.
#[derive(Debug)]
#[allow(inconsistent_fields)]
pub enum Body {
    Status(String),
    Error(String),
    Groups(Vec<String>),
    Stats { entries: u64, segments: u32, next_id: u64 },
    Added { id: u64 },
    AddedRange { first: u64, last: u64 },
    /// The payload is a JSON document.
    Entry { id: u64, timestamp: String, payload: Vec<u8> },
    Entries(Vec<ShownEntry>),
    /// A JSON document, or null where it is none.
    Document(Vec<u8>),
    Text(String),
    Keys(Vec<String>),
    Texts(Vec<String>),
    Len(u64),
}

/// What a [`Body`] says.
#[allow(inconsistent_fields)]
pub ghost enum BodyView {
    Status(Seq<char>),
    Error(Seq<char>),
    Groups(Seq<Seq<char>>),
    Stats { entries: u64, segments: u32, next_id: u64 },
    Added { id: u64 },
    AddedRange { first: u64, last: u64 },
    Entry { id: u64, timestamp: Seq<char>, payload: Seq<u8> },
    Entries(Seq<(u64, u64, Seq<u8>)>),
    Document(Seq<u8>),
    Text(Seq<char>),
    Keys(Seq<Seq<char>>),
    Texts(Seq<Seq<char>>),
    Len(u64),
}

/// What entries say.
pub open spec fn shown_view(s: Seq<ShownEntry>) -> Seq<(u64, u64, Seq<u8>)> {
    Seq::new(s.len(), |i: int| (s[i].id, s[i].timestamp, s[i].payload@))
}

impl View for Body {
    type V = BodyView;

    open spec fn view(&self) -> BodyView {
        match *self {
            Body::Status(s) => BodyView::Status(s@),
            Body::Error(s) => BodyView::Error(s@),
            Body::Groups(v) => BodyView::Groups(strings_view(v@)),
            Body::Stats { entries, segments, next_id } => BodyView::Stats {
                entries,
                segments,
                next_id,
            },
            Body::Added { id } => BodyView::Added { id },
            Body::AddedRange { first, last } => BodyView::AddedRange { first, last },
            Body::Entry { id, timestamp, payload } => BodyView::Entry {
                id,
                timestamp: timestamp@,
                payload: payload@,
            },
            Body::Entries(v) => BodyView::Entries(shown_view(v@)),
            Body::Document(v) => BodyView::Document(v@),
            Body::Text(s) => BodyView::Text(s@),
            Body::Keys(v) => BodyView::Keys(strings_view(v@)),
            Body::Texts(v) => BodyView::Texts(strings_view(v@)),
            Body::Len(n) => BodyView::Len(n),
        }
    }
}

/// An answer: its status code and its body.
#[derive(Debug)]
pub struct HttpReply {
    pub code: u16,
    pub body: Body,
}

impl View for HttpReply {
    type V = (u16, BodyView);

    open spec fn view(&self) -> (u16, BodyView) {
        (self.code, self.body@)
    }
}

/// The answer to a request that has no answer of its own: what the server refuses is a bad request,
/// and where the server cannot be asked something is wrong inside.
pub open spec fn failed<T>(o: Outcome<T>) -> (u16, BodyView) {
    match o {
        Ok(Ok(_)) => (OK, BodyView::Error(Seq::empty())),
        Ok(Err(e)) => (BAD_REQUEST, BodyView::Error(e@)),
        Err(e) => (INTERNAL_SERVER_ERROR, BodyView::Error(e@)),
    }
}

fn reply(code: u16, body: Body) -> (r: HttpReply)
    ensures
        r@ == (code, body@),
{
    HttpReply { code, body }
}

fn status(s: &str) -> (r: HttpReply)
    ensures
        r@ == (OK, BodyView::Status(s@)),
{
    reply(OK, Body::Status(copy_str(s)))
}

/// The answer to a request that the server refuses.
fn refused(e: String) -> (r: HttpReply)
    ensures
        r@ == (BAD_REQUEST, BodyView::Error(e@)),
{
    reply(BAD_REQUEST, Body::Error(e))
}

/// The answer to a request for which the server cannot be asked.
pub fn unavailable(e: String) -> (r: HttpReply)
    ensures
        r@ == (INTERNAL_SERVER_ERROR, BodyView::Error(e@)),
{
    reply(INTERNAL_SERVER_ERROR, Body::Error(e))
}

/// The answer to a request that lacks a field.
fn missing(what: &str) -> (r: HttpReply)
    ensures
        r@ == (BAD_REQUEST, BodyView::Error(what@)),
{
    reply(BAD_REQUEST, Body::Error(copy_str(what)))
}

/// The answer to a request that tells nothing but that it was done.
fn done(o: Outcome<()>, s: &str) -> (r: HttpReply)
    ensures
        r@ == (if o matches Ok(Ok(_)) {
            (OK, BodyView::Status(s@))
        } else {
            failed(o)
        }),
{
    match o {
        Ok(Ok(())) => status(s),
        Ok(Err(e)) => refused(e),
        Err(e) => unavailable(e),
    }
}

/// Answers a request for a new group.
pub fn create_group(o: Outcome<()>) -> (r: HttpReply)
    ensures
        r@ == (if o matches Ok(Ok(_)) {
            (OK, BodyView::Status("group created"@))
        } else {
            failed(o)
        }),
{
    done(o, "group created")
}

/// Answers a request for the names of the groups.
pub fn list_groups(o: Outcome<Vec<String>>) -> (r: HttpReply)
    ensures
        r@ == (match o {
            Ok(Ok(groups)) => (OK, BodyView::Groups(strings_view(groups@))),
            _ => failed(o),
        }),
{
    match o {
        Ok(Ok(groups)) => reply(OK, Body::Groups(groups)),
        Ok(Err(e)) => refused(e),
        Err(e) => unavailable(e),
    }
}

/// Answers a request to drop a group.
pub fn drop_group(o: Outcome<()>) -> (r: HttpReply)
    ensures
        r@ == (if o matches Ok(Ok(_)) {
            (OK, BodyView::Status("group dropped"@))
        } else {
            failed(o)
        }),
{
    done(o, "group dropped")
}

/// Answers a request for the statistics of a group.
pub fn group_stats(o: Outcome<(u64, u32, u64)>) -> (r: HttpReply)
    ensures
        r@ == (match o {
            Ok(Ok((entries, segments, next_id))) => (OK, BodyView::Stats { entries, segments, next_id }),
            _ => failed(o),
        }),
{
    match o {
        Ok(Ok((entries, segments, next_id))) => reply(OK, Body::Stats { entries, segments, next_id }),
        Ok(Err(e)) => refused(e),
        Err(e) => unavailable(e),
    }
}

/// Answers a request to append an entry.
pub fn add_entry(o: Outcome<u64>) -> (r: HttpReply)
    ensures
        r@ == (match o {
            Ok(Ok(id)) => (OK, BodyView::Added { id }),
            _ => failed(o),
        }),
{
    match o {
        Ok(Ok(id)) => reply(OK, Body::Added { id }),
        Ok(Err(e)) => refused(e),
        Err(e) => unavailable(e),
    }
}

/// Answers a request to append entries.
pub fn add_range_entries(o: Outcome<(u64, u64)>) -> (r: HttpReply)
    ensures
        r@ == (match o {
            Ok(Ok((first, last))) => (OK, BodyView::AddedRange { first, last }),
            _ => failed(o),
        }),
{
    match o {
        Ok(Ok((first, last))) => reply(OK, Body::AddedRange { first, last }),
        Ok(Err(e)) => refused(e),
        Err(e) => unavailable(e),
    }
}

/// Answers a request to read an entry, with its time and its document. There is no answer where
/// the payload holds no document.
pub fn read_entry(o: Outcome<(u64, u64, Vec<u8>)>) -> (r: Option<HttpReply>)
    ensures
        match o {
            Ok(Ok((id, timestamp, payload))) => match unpacked(payload@) {
                Some(doc) => r matches Some(h) && h@ == (
                    OK,
                    BodyView::Entry {
                        id,
                        timestamp: time_shown(tehran_text(timestamp as i64, time_format())),
                        payload: doc,
                    },
                ),
                None => r is None,
            },
            _ => r matches Some(h) && h@ == failed(o),
        },
{
    match o {
        Ok(Ok((id, timestamp, payload))) => match decode_payload_b64(payload.as_slice()) {
            Some(doc) => Some(
                reply(OK, Body::Entry { id, timestamp: show_time(timestamp), payload: doc }),
            ),
            None => None,
        },
        Ok(Err(e)) => Some(refused(e)),
        Err(e) => Some(unavailable(e)),
    }
}

/// Entries with the documents in their payloads, where each holds one.
pub open spec fn shown_entries(entries: Seq<(u64, u64, Seq<u8>)>) -> Option<
    Seq<(u64, u64, Seq<u8>)>,
> {
    if forall|i: int| 0 <= i < entries.len() ==> unpacked((#[trigger] entries[i]).2) is Some {
        Some(
            Seq::new(
                entries.len(),
                |i: int| (entries[i].0, entries[i].1, unpacked(entries[i].2)->0),
            ),
        )
    } else {
        None
    }
}

/// Answers a request to read a range of entries, with their documents. There is no answer where a
/// payload holds no document.
pub fn read_range_entries(o: Outcome<Vec<(u64, u64, Vec<u8>)>>) -> (r: Option<HttpReply>)
    ensures
        match o {
            Ok(Ok(entries)) => match shown_entries(triples_view(entries@)) {
                Some(shown) => r matches Some(h) && h@ == (OK, BodyView::Entries(shown)),
                None => r is None,
            },
            _ => r matches Some(h) && h@ == failed(o),
        },
{
    let entries = match o {
        Ok(Ok(entries)) => entries,
        Ok(Err(e)) => {
            return Some(refused(e));
        },
        Err(e) => {
            return Some(unavailable(e));
        },
    };
    let ghost all = triples_view(entries@);
    let mut shown: Vec<ShownEntry> = Vec::new();
    let mut i: usize = 0;
    while i < entries.len()
        invariant
            i <= entries@.len(),
            all == triples_view(entries@),
            o matches Ok(Ok(e)) && e == entries,
            shown@.len() == i,
            forall|j: int|
                0 <= j < i ==> {
                    &&& unpacked((#[trigger] all[j]).2) is Some
                    &&& shown_view(shown@)[j] == (all[j].0, all[j].1, unpacked(all[j].2)->0)
                },
        decreases entries@.len() - i,
    {
        let ghost before = shown@;
        let e = &entries[i];
        match decode_payload_b64(e.2.as_slice()) {
            Some(doc) => {
                shown.push(ShownEntry { id: e.0, timestamp: e.1, payload: doc });
                proof {
                    assert(all[i as int] == (e.0, e.1, e.2@));
                    assert forall|j: int| 0 <= j < i + 1 implies {
                        &&& unpacked((#[trigger] all[j]).2) is Some
                        &&& shown_view(shown@)[j] == (all[j].0, all[j].1, unpacked(all[j].2)->0)
                    } by {
                        if j < i {
                            assert(shown_view(shown@)[j] == shown_view(before)[j]);
                        }
                    }
                }
            },
            None => {
                assert(unpacked(all[i as int].2) is None);
                return None;
            },
        }
        i = i + 1;
    }
    proof {
        assert(shown_entries(all) is Some);
        assert(shown_view(shown@) =~= shown_entries(all)->0);
    }
    Some(reply(OK, Body::Entries(shown)))
}

/// Answers a request to drop the entries of a group below an id.
pub fn drop_entries(o: Outcome<()>, upto_id: u64) -> (r: HttpReply)
    ensures
        r@ == (if o matches Ok(Ok(_)) {
            (OK, BodyView::Status("entries dropped up to id "@ + decimal(upto_id as nat)))
        } else {
            failed(o)
        }),
{
    let mut s = copy_str("entries dropped up to id ");
    push_decimal(&mut s, upto_id);
    done(o, s.as_str())
}

/// What a request to write a key must hold: a value, which is given as the bytes of a JSON
/// document. Without a time to live the key lives on.
pub fn kv_set_request(ttl: Option<u64>, val: Option<Vec<u8>>) -> (r: Result<
    (Vec<u8>, u64),
    HttpReply,
>)
    ensures
        match val {
            Some(v) => r == Ok::<(Vec<u8>, u64), HttpReply>(
                (
                    v,
                    (match ttl {
                        Some(t) => t,
                        None => 0,
                    }),
                ),
            ),
            None => r matches Err(h) && h@ == (BAD_REQUEST, BodyView::Error("missing val"@)),
        },
{
    let ttl_secs: u64 = match ttl {
        Some(t) => t,
        None => 0,
    };
    match val {
        Some(v) => Ok((v, ttl_secs)),
        None => Err(missing("missing val")),
    }
}

/// Answers a request to write a key.
pub fn kv_set(o: Outcome<()>) -> (r: HttpReply)
    ensures
        r@ == (if o matches Ok(Ok(_)) {
            (OK, BodyView::Status("ok"@))
        } else {
            failed(o)
        }),
{
    done(o, "ok")
}

/// Answers a request to read a key, with the document that is its value.
pub fn kv_get(o: Outcome<Option<Vec<u8>>>) -> (r: HttpReply)
    ensures
        r@ == (match o {
            Ok(Ok(Some(bytes))) => (OK, BodyView::Document(bytes@)),
            Ok(Ok(None)) => (NOT_FOUND, BodyView::Error("key not found"@)),
            _ => failed(o),
        }),
{
    match o {
        Ok(Ok(Some(bytes))) => reply(OK, Body::Document(bytes)),
        Ok(Ok(None)) => reply(NOT_FOUND, Body::Error(copy_str("key not found"))),
        Ok(Err(e)) => refused(e),
        Err(e) => unavailable(e),
    }
}

/// Answers a request to drop a key.
pub fn kv_del(o: Outcome<()>) -> (r: HttpReply)
    ensures
        r@ == (if o matches Ok(Ok(_)) {
            (OK, BodyView::Status("deleted"@))
        } else {
            failed(o)
        }),
{
    done(o, "deleted")
}

/// Answers a request for the keys of a database.
pub fn kv_keys(o: Outcome<Vec<String>>) -> (r: HttpReply)
    ensures
        r@ == (match o {
            Ok(Ok(keys)) => (OK, BodyView::Keys(strings_view(keys@))),
            _ => failed(o),
        }),
{
    match o {
        Ok(Ok(keys)) => reply(OK, Body::Keys(keys)),
        Ok(Err(e)) => refused(e),
        Err(e) => unavailable(e),
    }
}

/// Answers a request to drop all keys of a database.
pub fn kv_flush(o: Outcome<()>) -> (r: HttpReply)
    ensures
        r@ == (if o matches Ok(Ok(_)) {
            (OK, BodyView::Status("flushed"@))
        } else {
            failed(o)
        }),
{
    done(o, "flushed")
}

/// What a request to push an item must hold: a text.
pub fn list_push_request(val: Option<String>) -> (r: Result<Vec<u8>, HttpReply>)
    ensures
        match val {
            Some(v) => r matches Ok(b) && b@ == encode_utf8(v@),
            None => r matches Err(h) && h@ == (BAD_REQUEST, BodyView::Error("missing val"@)),
        },
{
    match val {
        Some(v) => Ok(copy_bytes(v.as_str().as_bytes())),
        None => Err(missing("missing val")),
    }
}

/// Answers a request to push an item.
pub fn list_push(o: Outcome<()>) -> (r: HttpReply)
    ensures
        r@ == (if o matches Ok(Ok(_)) {
            (OK, BodyView::Status("ok"@))
        } else {
            failed(o)
        }),
{
    done(o, "ok")
}

/// What a request to push items must hold: texts.
pub fn list_push_range_request(vals: Option<Vec<String>>) -> (r: Result<Vec<Vec<u8>>, HttpReply>)
    ensures
        match vals {
            Some(v) => r matches Ok(b) && vecs_view(b@) == crate::ha::texts_bytes(strings_view(v@)),
            None => r matches Err(h) && h@ == (BAD_REQUEST, BodyView::Error("missing vals"@)),
        },
{
    let vals = match vals {
        Some(v) => v,
        None => {
            return Err(missing("missing vals"));
        },
    };
    let mut r: Vec<Vec<u8>> = Vec::new();
    let mut i: usize = 0;
    while i < vals.len()
        invariant
            i <= vals@.len(),
            r@.len() == i,
            forall|j: int| 0 <= j < i ==> (#[trigger] r@[j])@ == encode_utf8(vals@[j]@),
        decreases vals@.len() - i,
    {
        r.push(copy_bytes(vals[i].as_str().as_bytes()));
        i = i + 1;
    }
    assert(vecs_view(r@) =~= crate::ha::texts_bytes(strings_view(vals@)));
    Ok(r)
}

/// Answers a request to push items.
pub fn list_push_range(o: Outcome<()>) -> (r: HttpReply)
    ensures
        r@ == (if o matches Ok(Ok(_)) {
            (OK, BodyView::Status("ok"@))
        } else {
            failed(o)
        }),
{
    done(o, "ok")
}

/// Answers a request to pop an item, with the item as text.
pub fn list_pop(o: Outcome<Option<Vec<u8>>>) -> (r: HttpReply)
    ensures
        r@ == (match o {
            Ok(Ok(Some(val))) => (OK, BodyView::Text(shown_text(val@))),
            Ok(Ok(None)) => (NOT_FOUND, BodyView::Error("list empty or not found"@)),
            _ => failed(o),
        }),
{
    match o {
        Ok(Ok(Some(val))) => reply(OK, Body::Text(show_bytes(val.as_slice()))),
        Ok(Ok(None)) => reply(NOT_FOUND, Body::Error(copy_str("list empty or not found"))),
        Ok(Err(e)) => refused(e),
        Err(e) => unavailable(e),
    }
}

/// Byte strings as texts.
pub open spec fn shown_texts(vals: Seq<Seq<u8>>) -> Seq<Seq<char>> {
    Seq::new(vals.len(), |i: int| shown_text(vals[i]))
}

/// Answers a request that tells byte strings, as texts.
fn texts(o: Outcome<Vec<Vec<u8>>>) -> (r: HttpReply)
    ensures
        r@ == (match o {
            Ok(Ok(vals)) => (OK, BodyView::Texts(shown_texts(vecs_view(vals@)))),
            _ => failed(o),
        }),
{
    let vals = match o {
        Ok(Ok(vals)) => vals,
        Ok(Err(e)) => {
            return refused(e);
        },
        Err(e) => {
            return unavailable(e);
        },
    };
    let mut r: Vec<String> = Vec::new();
    let mut i: usize = 0;
    while i < vals.len()
        invariant
            i <= vals@.len(),
            r@.len() == i,
            forall|j: int| 0 <= j < i ==> (#[trigger] r@[j])@ == shown_text(vals@[j]@),
        decreases vals@.len() - i,
    {
        r.push(show_bytes(vals[i].as_slice()));
        i = i + 1;
    }
    assert(strings_view(r@) =~= shown_texts(vecs_view(vals@)));
    reply(OK, Body::Texts(r))
}

/// What a request to pop a range of items must hold: where it starts and where it ends. Of the
/// numbers the low 32 bits count.
pub fn list_pop_range_request(start: Option<u64>, end: Option<u64>) -> (r: Result<
    (u32, u32),
    HttpReply,
>)
    ensures
        match (start, end) {
            (Some(s), Some(e)) => r == Ok::<(u32, u32), HttpReply>((s as u32, e as u32)),
            (None, _) => r matches Err(h) && h@ == (
                BAD_REQUEST,
                BodyView::Error("missing start"@),
            ),
            (_, None) => r matches Err(h) && h@ == (BAD_REQUEST, BodyView::Error("missing end"@)),
        },
{
    let s: u32 = match start {
        Some(v) => v as u32,
        None => {
            return Err(missing("missing start"));
        },
    };
    let e: u32 = match end {
        Some(v) => v as u32,
        None => {
            return Err(missing("missing end"));
        },
    };
    Ok((s, e))
}

/// Answers a request to pop a range of items, with the items as texts.
pub fn list_pop_range(o: Outcome<Vec<Vec<u8>>>) -> (r: HttpReply)
    ensures
        r@ == (match o {
            Ok(Ok(vals)) => (OK, BodyView::Texts(shown_texts(vecs_view(vals@)))),
            _ => failed(o),
        }),
{
    texts(o)
}

/// What a request to pop a number of items must hold: the number, of which the low 32 bits count.
pub fn list_pop_count_request(count: Option<u64>) -> (r: Result<u32, HttpReply>)
    ensures
        match count {
            Some(n) => r == Ok::<u32, HttpReply>(n as u32),
            None => r matches Err(h) && h@ == (BAD_REQUEST, BodyView::Error("missing count"@)),
        },
{
    match count {
        Some(n) => Ok(n as u32),
        None => Err(missing("missing count")),
    }
}

/// Answers a request to pop a number of items, with the items as texts.
pub fn list_pop_count(o: Outcome<Vec<Vec<u8>>>) -> (r: HttpReply)
    ensures
        r@ == (match o {
            Ok(Ok(vals)) => (OK, BodyView::Texts(shown_texts(vecs_view(vals@)))),
            _ => failed(o),
        }),
{
    texts(o)
}

/// Answers a request for the length of a list.
pub fn list_len(o: Outcome<u64>) -> (r: HttpReply)
    ensures
        r@ == (match o {
            Ok(Ok(n)) => (OK, BodyView::Len(n)),
            _ => failed(o),
        }),
{
    match o {
        Ok(Ok(n)) => reply(OK, Body::Len(n)),
        Ok(Err(e)) => refused(e),
        Err(e) => unavailable(e),
    }
}

/// Answers a request to drop all items of a list.
pub fn list_flush(o: Outcome<()>) -> (r: HttpReply)
    ensures
        r@ == (if o matches Ok(Ok(_)) {
            (OK, BodyView::Status("flushed"@))
        } else {
            failed(o)
        }),
{
    done(o, "flushed")
}

/// Answers a request for a sign of life.
pub fn health() -> (r: HttpReply)
    ensures
        r@ == (OK, BodyView::Status("ok"@)),
{
    status("ok")
}

/// A request that the server refuses is answered as a bad request with the message of the server,
/// whatever it asks for.
pub proof fn law_refusal_is_bad_request<T>(e: String)
    ensures
        failed::<T>(Ok(Err(e))) == (BAD_REQUEST, BodyView::Error(e@)),
        failed::<T>(Err(e)) == (INTERNAL_SERVER_ERROR, BodyView::Error(e@)),
{
}

/// The entries that are shown are those that were read, one for one and in order: each with its own
/// id, its own timestamp and the document in its own payload. They are not shown where a payload
/// holds no document.
pub proof fn law_entries_are_shown_one_by_one(
    entries: Seq<(u64, u64, Seq<u8>)>,
    docs: Seq<Seq<u8>>,
    i: int,
)
    requires
        0 <= i < entries.len(),
    ensures
        unpacked(entries[i].2) is None ==> shown_entries(entries) is None,
        docs.len() == entries.len() && (forall|j: int|
            0 <= j < entries.len() ==> unpacked((#[trigger] entries[j]).2) == Some(docs[j])) ==> {
            &&& shown_entries(entries) matches Some(shown)
            &&& shown.len() == entries.len()
            &&& shown[i].0 == entries[i].0
            &&& shown[i].1 == entries[i].1
            &&& shown[i].2 == docs[i]
        },
{
}

/// Showing some entries, and then others, is showing all of them.
pub proof fn law_shown_parts(a: Seq<(u64, u64, Seq<u8>)>, b: Seq<(u64, u64, Seq<u8>)>)
    ensures
        shown_entries(a + b) is Some <==> shown_entries(a) is Some && shown_entries(b) is Some,
        shown_entries(a + b) is Some ==> shown_entries(a + b)->0 == shown_entries(a)->0
            + shown_entries(b)->0,
{
    let all = a + b;
    if shown_entries(all) is Some {
        assert forall|i: int| 0 <= i < a.len() implies unpacked((#[trigger] a[i]).2) is Some by {
            assert(all[i] == a[i]);
        }
        assert forall|i: int| 0 <= i < b.len() implies unpacked((#[trigger] b[i]).2) is Some by {
            assert(all[a.len() + i] == b[i]);
        }
        assert(shown_entries(all)->0 =~= shown_entries(a)->0 + shown_entries(b)->0);
    }
    if shown_entries(a) is Some && shown_entries(b) is Some {
        assert forall|i: int| 0 <= i < all.len() implies unpacked((#[trigger] all[i]).2) is Some by {
            if i < a.len() {
                assert(all[i] == a[i]);
            } else {
                assert(all[i] == b[i - a.len()]);
            }
        }
    }
}

/// What is said of shown entries is what stands in their fields.
pub proof fn law_shown_entries_say_their_fields(entries: Seq<ShownEntry>, i: int)
    requires
        0 <= i < entries.len(),
    ensures
        shown_view(entries).len() == entries.len(),
        shown_view(entries)[i] == (entries[i].id, entries[i].timestamp, entries[i].payload@),
{
}

/// Byte strings are shown as texts one for one and in order, and those that encode text as that
/// text.
pub proof fn law_texts_are_shown_one_by_one(vals: Seq<Seq<u8>>, texts: Seq<Seq<char>>, i: int)
    requires
        0 <= i < vals.len(),
        texts.len() == vals.len(),
        forall|j: int| 0 <= j < vals.len() ==> #[trigger] vals[j] == encode_utf8(texts[j]),
    ensures
        shown_texts(vals) == texts,
{
    assert forall|j: int| 0 <= j < vals.len() implies shown_texts(vals)[j] == texts[j] by {
        assert(vals[j] == encode_utf8(texts[j]));
        crate::text::lemma_text_round_trip(texts[j]);
    }
    assert(shown_texts(vals) =~= texts);
}

/// A key that is read is answered with its value, byte for byte, and one that there is not as not
/// found. What the server refuses is answered as a bad request, and a server that cannot be asked as
/// an error inside, each with the message that came.
pub proof fn law_key_is_answered(o: Outcome<Option<Vec<u8>>>, r: HttpReply)
    requires
        call_ensures(kv_get, (o,), r),
    ensures
        o matches Ok(Ok(Some(v))) ==> r.code == 200 && (r.body matches Body::Document(d) && d@ == v@),
        o matches Ok(Ok(None)) ==> r.code == 404 && r.body is Error,
        o matches Ok(Err(e)) ==> r.code == 400 && (r.body matches Body::Error(m) && m@ == e@),
        o matches Err(e) ==> r.code == 500 && (r.body matches Body::Error(m) && m@ == e@),
{
}

/// An entry that is read is answered with its own id, with its timestamp as it is shown, and with the
/// document that was packed into its payload.
pub proof fn law_entry_is_answered(
    o: Outcome<(u64, u64, Vec<u8>)>,
    r: Option<HttpReply>,
    text: String,
    doc: Option<Vec<u8>>,
)
    requires
        call_ensures(read_entry, (o,), r),
        o matches Ok(Ok(e)) ==> {
            &&& call_ensures(show_time, (e.1,), text)
            &&& doc matches Some(d) ==> unpacked(e.2@) == Some(d@)
            &&& doc is None ==> unpacked(e.2@) is None
        },
    ensures
        o matches Ok(Ok(e)) ==> {
            &&& r is Some <==> doc is Some
            &&& r matches Some(h) ==> {
                &&& h.code == 200
                &&& h.body matches Body::Entry { id, timestamp, payload }
                &&& id == e.0
                &&& timestamp@ == text@
                &&& payload@ == (doc->0)@
            }
        },
        o matches Ok(Err(e)) ==> {
            &&& r matches Some(h)
            &&& h.code == 400
            &&& h.body matches Body::Error(m)
            &&& m@ == e@
        },
        o matches Err(e) ==> {
            &&& r matches Some(h)
            &&& h.code == 500
            &&& h.body matches Body::Error(m)
            &&& m@ == e@
        },
{
}

/// Entries of a range are answered one for one and in order, each with its own id, its own timestamp
/// and the document that was packed into its own payload. There is no answer where one payload holds
/// no document.
pub proof fn law_range_is_answered(
    o: Outcome<Vec<(u64, u64, Vec<u8>)>>,
    r: Option<HttpReply>,
    i: int,
)
    requires
        call_ensures(read_range_entries, (o,), r),
    ensures
        o matches Ok(Ok(entries)) ==> {
            &&& r matches Some(h) ==> {
                &&& h.code == 200
                &&& h.body matches Body::Entries(shown)
                &&& shown@.len() == entries@.len()
                &&& 0 <= i < entries@.len() ==> {
                    &&& shown@[i].id == entries@[i].0
                    &&& shown@[i].timestamp == entries@[i].1
                    &&& unpacked(entries@[i].2@) == Some(shown@[i].payload@)
                }
            }
            &&& 0 <= i < entries@.len() && unpacked(entries@[i].2@) is None ==> r is None
            &&& r is None ==> exists|j: int|
                0 <= j < entries@.len() && unpacked((#[trigger] entries@[j]).2@) is None
        },
        o matches Ok(Err(e)) ==> {
            &&& r matches Some(h)
            &&& h.code == 400
            &&& h.body matches Body::Error(m)
            &&& m@ == e@
        },
        o matches Err(e) ==> {
            &&& r matches Some(h)
            &&& h.code == 500
            &&& h.body matches Body::Error(m)
            &&& m@ == e@
        },
{
    if let Ok(Ok(entries)) = o {
        let all = triples_view(entries@);
        if r is Some {
            let shown = (r->0)@.1->Entries_0;
            let fields = shown_entries(all)->0;
            if 0 <= i < entries@.len() {
                assert(all[i] == (entries@[i].0, entries@[i].1, entries@[i].2@));
                assert(unpacked(all[i].2) is Some);
                let v = (r->0).body->Entries_0;
                assert(shown_view(v@)[i] == fields[i]);
            }
            let v = (r->0).body->Entries_0;
            assert(shown_view(v@).len() == fields.len());
        } else {
            let j = choose|j: int| 0 <= j < all.len() && unpacked((#[trigger] all[j]).2) is None;
            assert(unpacked(entries@[j].2@) is None);
        }
        if 0 <= i < entries@.len() && unpacked(entries@[i].2@) is None {
            assert(unpacked(all[i].2) is None);
        }
    }
}

/// Names, numbers and items are answered as the server told them, in order: the groups, the keys, the
/// statistics of a group, the ids of what was appended, the length of a list.
pub proof fn law_what_is_told_is_answered(
    groups: Vec<String>,
    numbers: (u64, u32, u64),
    ids: (u64, u64),
    a: HttpReply,
    b: HttpReply,
    c: HttpReply,
    d: HttpReply,
    e: HttpReply,
    f: HttpReply,
)
    requires
        call_ensures(list_groups, (Ok(Ok(groups)),), a),
        call_ensures(kv_keys, (Ok(Ok(groups)),), b),
        call_ensures(group_stats, (Ok(Ok(numbers)),), c),
        call_ensures(add_entry, (Ok(Ok(ids.0)),), d),
        call_ensures(add_range_entries, (Ok(Ok(ids)),), e),
        call_ensures(list_len, (Ok(Ok(ids.0)),), f),
    ensures
        a.code == 200 && b.code == 200 && c.code == 200 && d.code == 200 && e.code == 200 && f.code
            == 200,
        a.body matches Body::Groups(v) && strings_view(v@) == strings_view(groups@),
        b.body matches Body::Keys(v) && strings_view(v@) == strings_view(groups@),
        c.body matches Body::Stats { entries, segments, next_id } && entries == numbers.0 && segments
            == numbers.1 && next_id == numbers.2,
        d.body matches Body::Added { id } && id == ids.0,
        e.body matches Body::AddedRange { first, last } && first == ids.0 && last == ids.1,
        f.body matches Body::Len(n) && n == ids.0,
{
}

/// Items that are popped are answered as texts, one for one and in order: an item that encodes a text
/// as that text.
pub proof fn law_items_are_answered(
    vals: Vec<Vec<u8>>,
    texts: Seq<Seq<char>>,
    one: Outcome<Option<Vec<u8>>>,
    a: HttpReply,
    b: HttpReply,
    c: HttpReply,
    i: int,
)
    requires
        call_ensures(list_pop_range, (Ok(Ok(vals)),), a),
        call_ensures(list_pop_count, (Ok(Ok(vals)),), b),
        call_ensures(list_pop, (one,), c),
        texts.len() == vals@.len(),
        forall|j: int| 0 <= j < texts.len() ==> (#[trigger] vals@[j])@ == encode_utf8(texts[j]),
        0 <= i < vals@.len(),
        one matches Ok(Ok(Some(v))) ==> v@ == vals@[i]@,
    ensures
        a.code == 200 && b.code == 200,
        a.body matches Body::Texts(v) && v@.len() == vals@.len() && v@[i]@ == texts[i],
        b.body matches Body::Texts(v) && v@.len() == vals@.len() && v@[i]@ == texts[i],
        one matches Ok(Ok(Some(_))) ==> c.code == 200 && (c.body matches Body::Text(t) && t@
            == texts[i]),
        one matches Ok(Ok(None)) ==> c.code == 404 && c.body is Error,
{
    let items = vecs_view(vals@);
    assert forall|j: int| 0 <= j < items.len() implies #[trigger] items[j] == encode_utf8(texts[j]) by {
        assert(items[j] == vals@[j]@);
    }
    law_texts_are_shown_one_by_one(items, texts, i);
    assert(strings_view((a.body->Texts_0)@) == texts);
    assert(strings_view((b.body->Texts_0)@) == texts);
    assert(strings_view((a.body->Texts_0)@)[i] == (a.body->Texts_0)@[i]@);
    assert(strings_view((b.body->Texts_0)@)[i] == (b.body->Texts_0)@[i]@);
    crate::text::lemma_text_round_trip(texts[i]);
    assert(vals@[i]@ == encode_utf8(texts[i]));
}

/// A request that was done is answered as such, whatever it was for, and says what was done.
pub proof fn law_done_is_answered(
    upto_id: u64,
    a: HttpReply,
    b: HttpReply,
    c: HttpReply,
    d: HttpReply,
    e: HttpReply,
    f: HttpReply,
    g: HttpReply,
    h: HttpReply,
    k: HttpReply,
)
    requires
        call_ensures(create_group, (Ok(Ok(())),), a),
        call_ensures(drop_group, (Ok(Ok(())),), b),
        call_ensures(drop_entries, (Ok(Ok(())), upto_id), c),
        call_ensures(kv_set, (Ok(Ok(())),), d),
        call_ensures(kv_del, (Ok(Ok(())),), e),
        call_ensures(kv_flush, (Ok(Ok(())),), f),
        call_ensures(list_push, (Ok(Ok(())),), g),
        call_ensures(list_push_range, (Ok(Ok(())),), h),
        call_ensures(list_flush, (Ok(Ok(())),), k),
    ensures
        a.code == 200 && (a.body matches Body::Status(s) && s@ == "group created"@),
        b.code == 200 && (b.body matches Body::Status(s) && s@ == "group dropped"@),
        c.code == 200 && (c.body matches Body::Status(s) && s@ == "entries dropped up to id "@
            + decimal(upto_id as nat)),
        d.code == 200 && (d.body matches Body::Status(s) && s@ == "ok"@),
        e.code == 200 && (e.body matches Body::Status(s) && s@ == "deleted"@),
        f.code == 200 && (f.body matches Body::Status(s) && s@ == "flushed"@),
        g.code == 200 && (g.body matches Body::Status(s) && s@ == "ok"@),
        h.code == 200 && (h.body matches Body::Status(s) && s@ == "ok"@),
        k.code == 200 && (k.body matches Body::Status(s) && s@ == "flushed"@),
{
}

/// What a request must hold reaches the server as it was given: the value and the time to live of a
/// key, the bytes of texts, in order, and numbers that fit in 32 bits.
pub proof fn law_requests_are_taken(
    val: Vec<u8>,
    ttl: Option<u64>,
    text: String,
    texts: Vec<String>,
    start: u32,
    end: u32,
    a: Result<(Vec<u8>, u64), HttpReply>,
    b: Result<Vec<u8>, HttpReply>,
    c: Result<Vec<Vec<u8>>, HttpReply>,
    d: Result<(u32, u32), HttpReply>,
    e: Result<u32, HttpReply>,
    i: int,
)
    requires
        call_ensures(kv_set_request, (ttl, Some(val)), a),
        call_ensures(list_push_request, (Some(text),), b),
        call_ensures(list_push_range_request, (Some(texts),), c),
        call_ensures(list_pop_range_request, (Some(start as u64), Some(end as u64)), d),
        call_ensures(list_pop_count_request, (Some(end as u64),), e),
        0 <= i < texts@.len(),
    ensures
        a matches Ok((v, t)) && v@ == val@ && t == (match ttl {
            Some(secs) => secs,
            None => 0,
        }),
        b matches Ok(v) && v@ == encode_utf8(text@),
        c matches Ok(v) && v@.len() == texts@.len() && v@[i]@ == encode_utf8(texts@[i]@),
        d matches Ok((s, t)) && s == start && t == end,
        e matches Ok(n) && n == end,
{
    let v = c->Ok_0;
    let want = crate::ha::texts_bytes(strings_view(texts@));
    assert(vecs_view(v@).len() == want.len());
    assert(strings_view(texts@)[i] == texts@[i]@);
    assert(vecs_view(v@)[i] == want[i]);
    assert(vecs_view(v@)[i] == v@[i]@);
}

/// A request that lacks what it must hold is a bad request, and the answer names what is missing.
pub proof fn law_lacking_requests_are_refused(
    ttl: Option<u64>,
    end: Option<u64>,
    start: u64,
    a: Result<(Vec<u8>, u64), HttpReply>,
    b: Result<Vec<u8>, HttpReply>,
    c: Result<Vec<Vec<u8>>, HttpReply>,
    d: Result<(u32, u32), HttpReply>,
    e: Result<(u32, u32), HttpReply>,
    f: Result<u32, HttpReply>,
)
    requires
        call_ensures(kv_set_request, (ttl, None), a),
        call_ensures(list_push_request, (None,), b),
        call_ensures(list_push_range_request, (None,), c),
        call_ensures(list_pop_range_request, (None, end), d),
        call_ensures(list_pop_range_request, (Some(start), None), e),
        call_ensures(list_pop_count_request, (None,), f),
    ensures
        a matches Err(h) && h.code == 400 && (h.body matches Body::Error(m) && m@ == "missing val"@),
        b matches Err(h) && h.code == 400 && (h.body matches Body::Error(m) && m@ == "missing val"@),
        c matches Err(h) && h.code == 400 && (h.body matches Body::Error(m) && m@ == "missing vals"@),
        d matches Err(h) && h.code == 400 && (h.body matches Body::Error(m) && m@
            == "missing start"@),
        e matches Err(h) && h.code == 400 && (h.body matches Body::Error(m) && m@ == "missing end"@),
        f matches Err(h) && h.code == 400 && (h.body matches Body::Error(m) && m@
            == "missing count"@),
{
}

} // verus!
