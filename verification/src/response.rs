//! The replies of the server: a four-byte length, a status byte, then the fields.

use crate::le::{le_bytes, lemma_le_bytes_len, push_le, set_le};
use crate::proto::{STATUS_ERR, STATUS_OK};
use crate::views::{push_bytes, strings_view, triples_view, vecs_view};
use crate::wire::{enc_bytes, enc_bytes_list, enc_str};
use vstd::prelude::*;
use vstd::utf8::encode_utf8;

verus! {

/// A body behind its four-byte length.
pub open spec fn framed(body: Seq<u8>) -> Seq<u8> {
    le_bytes(body.len(), 4) + body
}

/// The reply to a request that succeeded, with the given fields.
pub open spec fn ok_reply(fields: Seq<u8>) -> Seq<u8> {
    framed(seq![STATUS_OK] + fields)
}

/// The reply to a request that failed, with the given message.
pub open spec fn err_reply(msg: Seq<char>) -> Seq<u8> {
    framed(seq![STATUS_ERR] + enc_str(msg))
}

/// A log entry: id, timestamp, then the payload as a byte field.
pub open spec fn enc_entry(e: (u64, u64, Seq<u8>)) -> Seq<u8> {
    le_bytes(e.0 as nat, 8) + le_bytes(e.1 as nat, 8) + enc_bytes(e.2)
}

/// Log entries in order.
pub open spec fn enc_entries(items: Seq<(u64, u64, Seq<u8>)>) -> Seq<u8>
    decreases items.len(),
{
    if items.len() == 0 {
        Seq::empty()
    } else {
        enc_entry(items[0]) + enc_entries(items.drop_first())
    }
}

/// Text fields in order.
pub open spec fn enc_str_list(items: Seq<Seq<char>>) -> Seq<u8>
    decreases items.len(),
{
    if items.len() == 0 {
        Seq::empty()
    } else {
        enc_str(items[0]) + enc_str_list(items.drop_first())
    }
}

/// The fields of a reply that carries log entries.
pub open spec fn entries_fields(items: Seq<(u64, u64, Seq<u8>)>) -> Seq<u8> {
    le_bytes(items.len(), 4) + enc_entries(items)
}

/// The fields of a reply that carries texts.
pub open spec fn strings_fields(items: Seq<Seq<char>>) -> Seq<u8> {
    le_bytes(items.len(), 4) + enc_str_list(items)
}

/// The fields of a reply that carries byte strings.
pub open spec fn bytes_list_fields(items: Seq<Seq<u8>>) -> Seq<u8> {
    le_bytes(items.len(), 4) + enc_bytes_list(items)
}

/// The fields of a reply that carries group statistics.
pub open spec fn stats_fields(entries: u64, segments: nat, next_id: u64) -> Seq<u8> {
    le_bytes(entries as nat, 8) + le_bytes(segments, 4) + le_bytes(next_id as nat, 8)
}

/// Appends a byte field.
pub fn push_byte_field(buf: &mut Vec<u8>, b: &[u8])
    ensures
        final(buf)@ == old(buf)@ + enc_bytes(b@),
{
    push_le(buf, b.len() as u64, 4);
    push_bytes(buf, b);
    assert(buf@ =~= old(buf)@ + enc_bytes(b@));
}

/// Appends a text field.
pub fn push_str_field(buf: &mut Vec<u8>, s: &str)
    ensures
        final(buf)@ == old(buf)@ + enc_str(s@),
{
    let bytes = s.as_bytes();
    push_le(buf, bytes.len() as u64, 2);
    push_bytes(buf, bytes);
    assert(buf@ =~= old(buf)@ + enc_str(s@));
}

/// Appends a log entry.
fn push_entry(buf: &mut Vec<u8>, id: u64, ts: u64, payload: &[u8])
    ensures
        final(buf)@ == old(buf)@ + enc_entry((id, ts, payload@)),
{
    push_le(buf, id, 8);
    push_le(buf, ts, 8);
    push_byte_field(buf, payload);
    assert(buf@ =~= old(buf)@ + enc_entry((id, ts, payload@)));
}

/// Appends byte fields in order.
pub fn push_byte_fields(buf: &mut Vec<u8>, items: &[Vec<u8>])
    ensures
        final(buf)@ == old(buf)@ + enc_bytes_list(vecs_view(items@)),
{
    let ghost want = old(buf)@ + enc_bytes_list(vecs_view(items@));
    let mut i: usize = 0;
    assert(vecs_view(items@).skip(0) =~= vecs_view(items@));
    while i < items.len()
        invariant
            i <= items.len(),
            buf@ + enc_bytes_list(vecs_view(items@).skip(i as int)) == want,
        decreases items.len() - i,
    {
        let ghost before = buf@;
        push_byte_field(buf, items[i].as_slice());
        proof {
            let rest = vecs_view(items@).skip(i as int);
            assert(rest[0] == items@[i as int]@);
            assert(rest.drop_first() =~= vecs_view(items@).skip(i + 1));
            assert(before + (enc_bytes(rest[0]) + enc_bytes_list(rest.drop_first())) =~= buf@
                + enc_bytes_list(rest.drop_first()));
        }
        i = i + 1;
    }
    assert(buf@ + enc_bytes_list(vecs_view(items@).skip(i as int)) =~= buf@);
}

/// Appends text fields in order.
fn push_str_fields(buf: &mut Vec<u8>, items: &[String])
    ensures
        final(buf)@ == old(buf)@ + enc_str_list(strings_view(items@)),
{
    let ghost want = old(buf)@ + enc_str_list(strings_view(items@));
    let mut i: usize = 0;
    assert(strings_view(items@).skip(0) =~= strings_view(items@));
    while i < items.len()
        invariant
            i <= items.len(),
            buf@ + enc_str_list(strings_view(items@).skip(i as int)) == want,
        decreases items.len() - i,
    {
        let ghost before = buf@;
        push_str_field(buf, items[i].as_str());
        proof {
            let rest = strings_view(items@).skip(i as int);
            assert(rest[0] == items@[i as int]@);
            assert(rest.drop_first() =~= strings_view(items@).skip(i + 1));
            assert(before + (enc_str(rest[0]) + enc_str_list(rest.drop_first())) =~= buf@
                + enc_str_list(rest.drop_first()));
        }
        i = i + 1;
    }
    assert(buf@ + enc_str_list(strings_view(items@).skip(i as int)) =~= buf@);
}

/// Builds replies in a buffer that it keeps between calls.
pub struct ResponseBuilder {
    buf: Vec<u8>,
}

impl View for ResponseBuilder {
    type V = Seq<u8>;

    /// The reply built last.
    closed spec fn view(&self) -> Seq<u8> {
        self.buf@
    }
}

impl ResponseBuilder {
    pub fn new() -> (r: Self)
        ensures
            r@ == Seq::<u8>::empty(),
    {
        ResponseBuilder { buf: Vec::with_capacity(4096) }
    }

    /// Starts a reply: room for the length, then the status.
    fn begin(&mut self, status: u8)
        ensures
            final(self)@.len() == 5,
            final(self)@.subrange(4, 5) == seq![status],
    {
        self.buf.clear();
        push_le(&mut self.buf, 0, 4);
        proof {
            lemma_le_bytes_len(0, 4);
        }
        self.buf.push(status);
        assert(self.buf@.subrange(4, 5) =~= seq![status]);
    }

    pub fn ok_empty(&mut self) -> (r: &[u8])
        ensures
            r@ == ok_reply(Seq::empty()),
            final(self)@ == r@,
    {
        self.begin(STATUS_OK);
        assert(seq![STATUS_OK] =~= seq![STATUS_OK] + Seq::<u8>::empty());
        self.finalize()
    }

    pub fn ok_u64(&mut self, val: u64) -> (r: &[u8])
        ensures
            r@ == ok_reply(le_bytes(val as nat, 8)),
            final(self)@ == r@,
    {
        self.begin(STATUS_OK);
        let ghost head = self.buf@;
        push_le(&mut self.buf, val, 8);
        assert(self.buf@.subrange(4, self.buf@.len() as int) =~= head.subrange(4, 5) + le_bytes(
            val as nat,
            8,
        ));
        self.finalize()
    }

    pub fn ok_u64_pair(&mut self, a: u64, b: u64) -> (r: &[u8])
        ensures
            r@ == ok_reply(le_bytes(a as nat, 8) + le_bytes(b as nat, 8)),
            final(self)@ == r@,
    {
        self.begin(STATUS_OK);
        let ghost head = self.buf@;
        push_le(&mut self.buf, a, 8);
        push_le(&mut self.buf, b, 8);
        assert(self.buf@.subrange(4, self.buf@.len() as int) =~= head.subrange(4, 5) + (le_bytes(
            a as nat,
            8,
        ) + le_bytes(b as nat, 8)));
        self.finalize()
    }

    pub fn ok_entry(&mut self, id: u64, ts: u64, payload: &[u8]) -> (r: &[u8])
        ensures
            r@ == ok_reply(enc_entry((id, ts, payload@))),
            final(self)@ == r@,
    {
        self.begin(STATUS_OK);
        let ghost head = self.buf@;
        push_entry(&mut self.buf, id, ts, payload);
        assert(self.buf@.subrange(4, self.buf@.len() as int) =~= head.subrange(4, 5) + enc_entry(
            (id, ts, payload@),
        ));
        self.finalize()
    }

    pub fn ok_entries(&mut self, entries: &[(u64, u64, Vec<u8>)]) -> (r: &[u8])
        ensures
            r@ == ok_reply(entries_fields(triples_view(entries@))),
            final(self)@ == r@,
    {
        self.begin(STATUS_OK);
        let ghost head = self.buf@;
        push_le(&mut self.buf, entries.len() as u64, 4);
        let ghost all = triples_view(entries@);
        let ghost want = head + entries_fields(all);
        let mut i: usize = 0;
        assert(all.skip(0) =~= all);
        assert(self.buf@ + enc_entries(all) =~= want);
        while i < entries.len()
            invariant
                i <= entries.len(),
                all == triples_view(entries@),
                self.buf@ + enc_entries(all.skip(i as int)) == want,
            decreases entries.len() - i,
        {
            let ghost before = self.buf@;
            let e = &entries[i];
            push_entry(&mut self.buf, e.0, e.1, e.2.as_slice());
            proof {
                let rest = all.skip(i as int);
                assert(rest[0] == (e.0, e.1, e.2@));
                assert(rest.drop_first() =~= all.skip(i + 1));
                assert(before + (enc_entry(rest[0]) + enc_entries(rest.drop_first())) =~= self.buf@
                    + enc_entries(rest.drop_first()));
            }
            i = i + 1;
        }
        assert(self.buf@ + enc_entries(all.skip(i as int)) =~= self.buf@);
        assert(self.buf@.subrange(4, self.buf@.len() as int) =~= head.subrange(4, 5)
            + entries_fields(all));
        self.finalize()
    }

    pub fn ok_group_list(&mut self, groups: Vec<String>) -> (r: &[u8])
        ensures
            r@ == ok_reply(strings_fields(strings_view(groups@))),
            final(self)@ == r@,
    {
        self.ok_string_list(groups.as_slice())
    }

    pub fn ok_stats(&mut self, entries: u64, segments: usize, next_id: u64) -> (r: &[u8])
        ensures
            r@ == ok_reply(stats_fields(entries, segments as nat, next_id)),
            final(self)@ == r@,
    {
        self.begin(STATUS_OK);
        let ghost head = self.buf@;
        push_le(&mut self.buf, entries, 8);
        push_le(&mut self.buf, segments as u64, 4);
        push_le(&mut self.buf, next_id, 8);
        assert(self.buf@.subrange(4, self.buf@.len() as int) =~= head.subrange(4, 5) + stats_fields(
            entries,
            segments as nat,
            next_id,
        ));
        self.finalize()
    }

    pub fn ok_bytes(&mut self, val: &[u8]) -> (r: &[u8])
        ensures
            r@ == ok_reply(enc_bytes(val@)),
            final(self)@ == r@,
    {
        self.begin(STATUS_OK);
        let ghost head = self.buf@;
        push_byte_field(&mut self.buf, val);
        assert(self.buf@.subrange(4, self.buf@.len() as int) =~= head.subrange(4, 5) + enc_bytes(
            val@,
        ));
        self.finalize()
    }

    pub fn ok_string_list(&mut self, keys: &[String]) -> (r: &[u8])
        ensures
            r@ == ok_reply(strings_fields(strings_view(keys@))),
            final(self)@ == r@,
    {
        self.begin(STATUS_OK);
        let ghost head = self.buf@;
        push_le(&mut self.buf, keys.len() as u64, 4);
        push_str_fields(&mut self.buf, keys);
        assert(self.buf@.subrange(4, self.buf@.len() as int) =~= head.subrange(4, 5)
            + strings_fields(strings_view(keys@)));
        self.finalize()
    }

    pub fn ok_bytes_list(&mut self, items: &[Vec<u8>]) -> (r: &[u8])
        ensures
            r@ == ok_reply(bytes_list_fields(vecs_view(items@))),
            final(self)@ == r@,
    {
        self.begin(STATUS_OK);
        let ghost head = self.buf@;
        push_le(&mut self.buf, items.len() as u64, 4);
        push_byte_fields(&mut self.buf, items);
        assert(self.buf@.subrange(4, self.buf@.len() as int) =~= head.subrange(4, 5)
            + bytes_list_fields(vecs_view(items@)));
        self.finalize()
    }

    pub fn err(&mut self, msg: &str) -> (r: &[u8])
        ensures
            r@ == err_reply(msg@),
            final(self)@ == r@,
    {
        self.begin(STATUS_ERR);
        let ghost head = self.buf@;
        push_str_field(&mut self.buf, msg);
        assert(self.buf@.subrange(4, self.buf@.len() as int) =~= head.subrange(4, 5) + enc_str(
            msg@,
        ));
        self.finalize()
    }

    /// Fills in the length of the body.
    fn finalize(&mut self) -> (r: &[u8])
        requires
            old(self)@.len() >= 4,
        ensures
            r@ == framed(old(self)@.subrange(4, old(self)@.len() as int)),
            final(self)@ == r@,
    {
        let body_len: u64 = (self.buf.len() - 4) as u64;
        set_le(&mut self.buf, 0, body_len, 4);
        assert(self.buf@ =~= framed(old(self)@.subrange(4, old(self)@.len() as int)));
        self.buf.as_slice()
    }
}

/// A reply is its length in four bytes, then 0 where the request succeeded and 1 where it failed, then what
/// it tells: a number in eight bytes, an entry as its id, its timestamp and its payload behind the length
/// in four bytes, a value behind its length, a message behind its length in two bytes.
pub proof fn law_reply_form(
    rb: &mut ResponseBuilder,
    a: u64,
    b: u64,
    segments: usize,
    bytes: &[u8],
    msg: &str,
    reply: &[u8],
)
    ensures
        call_ensures(ResponseBuilder::ok_empty, (rb,), reply) ==> reply@ == le_bytes(1, 4) + seq![0u8],
        call_ensures(ResponseBuilder::ok_u64, (rb, a), reply) ==> reply@ == le_bytes(9, 4) + (seq![
            0u8,
        ] + le_bytes(a as nat, 8)),
        call_ensures(ResponseBuilder::ok_u64_pair, (rb, a, b), reply) ==> reply@ == le_bytes(17, 4) + (
        seq![0u8] + (le_bytes(a as nat, 8) + le_bytes(b as nat, 8))),
        call_ensures(ResponseBuilder::ok_stats, (rb, a, segments, b), reply) ==> reply@ == le_bytes(
            21,
            4,
        ) + (seq![0u8] + (le_bytes(a as nat, 8) + le_bytes(segments as nat, 4) + le_bytes(
            b as nat,
            8,
        ))),
        call_ensures(ResponseBuilder::ok_entry, (rb, a, b, bytes), reply) ==> reply@ == le_bytes(
            21 + bytes@.len(),
            4,
        ) + (seq![0u8] + (le_bytes(a as nat, 8) + le_bytes(b as nat, 8) + (le_bytes(bytes@.len(), 4)
            + bytes@))),
        call_ensures(ResponseBuilder::ok_bytes, (rb, bytes), reply) ==> reply@ == le_bytes(
            5 + bytes@.len(),
            4,
        ) + (seq![0u8] + (le_bytes(bytes@.len(), 4) + bytes@)),
        call_ensures(ResponseBuilder::err, (rb, msg), reply) ==> reply@ == le_bytes(
            3 + encode_utf8(msg@).len(),
            4,
        ) + (seq![1u8] + (le_bytes(encode_utf8(msg@).len(), 2) + encode_utf8(msg@))),
{
    broadcast use lemma_le_bytes_len;

    assert(seq![0u8] + Seq::<u8>::empty() =~= seq![0u8]);
}

/// Entries and texts in a reply stand one behind the other: those of a part, and then those of the rest.
pub proof fn law_reply_lists(
    a: Seq<(u64, u64, Seq<u8>)>,
    b: Seq<(u64, u64, Seq<u8>)>,
    c: Seq<Seq<char>>,
    d: Seq<Seq<char>>,
)
    ensures
        enc_entries(a + b) == enc_entries(a) + enc_entries(b),
        enc_str_list(c + d) == enc_str_list(c) + enc_str_list(d),
    decreases a.len() + c.len(),
{
    if a.len() > 0 {
        law_reply_lists(a.drop_first(), b, c, d);
        assert((a + b).drop_first() =~= a.drop_first() + b);
        assert(enc_entries(a + b) =~= enc_entries(a) + enc_entries(b));
    } else {
        assert(a + b =~= b);
        assert(enc_entries(a) + enc_entries(b) =~= enc_entries(b));
    }
    if c.len() > 0 {
        law_reply_lists(a, b, c.drop_first(), d);
        assert((c + d).drop_first() =~= c.drop_first() + d);
        assert(enc_str_list(c + d) =~= enc_str_list(c) + enc_str_list(d));
    } else {
        assert(c + d =~= d);
        assert(enc_str_list(c) + enc_str_list(d) =~= enc_str_list(d));
    }
}

} // verus!
