//! The client's side of the protocol: the frames of its requests, and what it reads in replies.

use crate::le::{le_value, push_le};
use crate::proto::{
    take_bytes_list, take_stamped, take_u16, take_u64, CommandView, Cursor, ParseError, Taken,
    CMD_ADD, CMD_ADD_RANGE, CMD_CREATE_GROUP, CMD_DEL, CMD_DROP_GROUP, CMD_FLUSH, CMD_GET,
    CMD_GROUP_STATS, CMD_KEYS, CMD_LIST_GROUPS, CMD_READ, CMD_READ_RANGE, CMD_REMOVE, CMD_SET,
    LFLUSH, LLEN, LPOP, LPOP_COUNT, LPOP_RANGE, LPUSH, LPUSH_RANGE, STATUS_OK,
};
use crate::proto::{own_slices, read_bytes_list, stamped_view};
use crate::response::{push_byte_field, push_byte_fields, push_str_field};
use crate::text::{show_bytes, shown_text};
use crate::views::{copy_bytes, copy_str, strings_view, triples_view, vecs_view};
use crate::wire::{enc_stamped, enc_stamped_list, enc_str, encode_command};
use vstd::prelude::*;

verus! {

/// What is said in a reply that refuses a request.
pub open spec fn error_in(resp: Seq<u8>) -> Seq<char> {
    if resp.len() < 4 {
        "unknown error"@
    } else {
        let n = le_value(resp.subrange(1, 3));
        if resp.len() >= 3 + n {
            shown_text(resp.subrange(3, 3 + n as int))
        } else {
            "malformed error response"@
        }
    }
}

/// Whether a reply says that the request succeeded.
pub open spec fn is_ok(resp: Seq<u8>) -> bool {
    resp.len() > 0 && resp[0] == STATUS_OK
}

/// What a reply says of a request with nothing to tell.
pub open spec fn status_in(resp: Seq<u8>) -> Result<(), Seq<char>> {
    if resp.len() == 0 {
        Err("empty response"@)
    } else if is_ok(resp) {
        Ok(())
    } else {
        Err(error_in(resp))
    }
}

/// What a read of a reply gives, as a value, where it gives one at all.
pub open spec fn same_outcome<T, U>(
    r: Option<Result<T, String>>,
    val: U,
    want: Option<Result<U, Seq<char>>>,
) -> bool {
    match r {
        Some(Ok(_)) => want == Some(Ok::<U, Seq<char>>(val)),
        Some(Err(e)) => want == Some(Err::<U, Seq<char>>(e@)),
        None => want is None,
    }
}

/// The number that a reply tells.
pub open spec fn u64_in(resp: Seq<u8>) -> Option<Result<nat, Seq<char>>> {
    if resp.len() == 0 {
        None
    } else if is_ok(resp) && resp.len() >= 9 {
        Some(Ok(le_value(resp.subrange(1, 9))))
    } else {
        Some(Err(error_in(resp)))
    }
}

/// The two numbers that a reply tells.
pub open spec fn u64_pair_in(resp: Seq<u8>) -> Option<Result<(nat, nat), Seq<char>>> {
    if resp.len() == 0 {
        None
    } else if is_ok(resp) && resp.len() >= 17 {
        Some(Ok((le_value(resp.subrange(1, 9)), le_value(resp.subrange(9, 17)))))
    } else {
        Some(Err(error_in(resp)))
    }
}

/// The statistics that a reply tells.
pub open spec fn stats_in(resp: Seq<u8>) -> Option<Result<(nat, nat, nat), Seq<char>>> {
    if resp.len() == 0 {
        None
    } else if is_ok(resp) && resp.len() >= 21 {
        Some(
            Ok(
                (
                    le_value(resp.subrange(1, 9)),
                    le_value(resp.subrange(9, 13)),
                    le_value(resp.subrange(13, 21)),
                ),
            ),
        )
    } else {
        Some(Err(error_in(resp)))
    }
}

/// An id, a timestamp and a byte field.
pub open spec fn take_entry(buf: Seq<u8>, pos: nat) -> Taken<(u64, u64, Seq<u8>)> {
    match take_u64(buf, pos) {
        Err(e) => Err(e),
        Ok((id, p)) => match take_stamped(buf, p) {
            Err(e) => Err(e),
            Ok(((ts, payload), q)) => Ok(((id as u64, ts, payload), q)),
        },
    }
}

/// `count` log entries.
pub open spec fn take_entries(buf: Seq<u8>, pos: nat, count: nat) -> Taken<Seq<(u64, u64, Seq<u8>)>>
    decreases count,
{
    if count == 0 {
        Ok((Seq::empty(), pos))
    } else {
        match take_entry(buf, pos) {
            Err(e) => Err(e),
            Ok((b, p)) => match take_entries(buf, p, (count - 1) as nat) {
                Err(e) => Err(e),
                Ok((rest, q)) => Ok((seq![b] + rest, q)),
            },
        }
    }
}

/// A two-byte length, and the text in that many bytes.
pub open spec fn take_shown(buf: Seq<u8>, pos: nat) -> Taken<Seq<char>> {
    match take_u16(buf, pos) {
        Err(e) => Err(e),
        Ok((len, p)) => if p + len > buf.len() {
            Err("unexpected EOF reading string"@)
        } else {
            Ok((shown_text(buf.subrange(p as int, (p + len) as int)), p + len))
        },
    }
}

/// `count` texts.
pub open spec fn take_shown_list(buf: Seq<u8>, pos: nat, count: nat) -> Taken<Seq<Seq<char>>>
    decreases count,
{
    if count == 0 {
        Ok((Seq::empty(), pos))
    } else {
        match take_shown(buf, pos) {
            Err(e) => Err(e),
            Ok((b, p)) => match take_shown_list(buf, p, (count - 1) as nat) {
                Err(e) => Err(e),
                Ok((rest, q)) => Ok((seq![b] + rest, q)),
            },
        }
    }
}

/// What was taken, where it was there.
pub open spec fn taken_value<T>(t: Taken<T>) -> Option<Result<T, Seq<char>>> {
    match t {
        Ok((v, _)) => Some(Ok(v)),
        Err(_) => None,
    }
}

/// The log entry that a reply tells, or nothing where the reply ends before it does.
pub open spec fn entry_in(resp: Seq<u8>) -> Option<Result<(u64, u64, Seq<u8>), Seq<char>>> {
    if resp.len() == 0 {
        None
    } else if is_ok(resp) && resp.len() >= 21 {
        taken_value(take_entry(resp, 1))
    } else {
        Some(Err(error_in(resp)))
    }
}

/// The log entries that a reply tells.
pub open spec fn entries_in(resp: Seq<u8>) -> Option<Result<Seq<(u64, u64, Seq<u8>)>, Seq<char>>> {
    if resp.len() == 0 {
        None
    } else if is_ok(resp) && resp.len() >= 5 {
        taken_value(take_entries(resp, 5, le_value(resp.subrange(1, 5))))
    } else {
        Some(Err(error_in(resp)))
    }
}

/// The names of groups that a reply tells.
pub open spec fn groups_in(resp: Seq<u8>) -> Option<Result<Seq<Seq<char>>, Seq<char>>> {
    if resp.len() == 0 {
        None
    } else if is_ok(resp) && resp.len() >= 5 {
        taken_value(take_shown_list(resp, 5, le_value(resp.subrange(1, 5))))
    } else {
        Some(Err(error_in(resp)))
    }
}

/// The keys that a reply tells.
pub open spec fn keys_in(resp: Seq<u8>) -> Option<Result<Seq<Seq<char>>, Seq<char>>> {
    if resp.len() == 0 {
        None
    } else if !is_ok(resp) {
        Some(Err(error_in(resp)))
    } else if resp.len() < 5 {
        None
    } else {
        taken_value(take_shown_list(resp, 5, le_value(resp.subrange(1, 5))))
    }
}

/// The value that a reply tells. No value and an empty one look alike.
pub open spec fn value_in(resp: Seq<u8>) -> Option<Result<Option<Seq<u8>>, Seq<char>>> {
    if resp.len() == 0 {
        None
    } else if !is_ok(resp) {
        Some(Err(error_in(resp)))
    } else if resp.len() < 5 || le_value(resp.subrange(1, 5)) == 0 {
        Some(Ok(None))
    } else {
        let n = le_value(resp.subrange(1, 5));
        if resp.len() >= 5 + n {
            Some(Ok(Some(resp.subrange(5, 5 + n as int))))
        } else {
            None
        }
    }
}

/// The values that a reply tells.
pub open spec fn values_in(resp: Seq<u8>) -> Option<Result<Seq<Seq<u8>>, Seq<char>>> {
    if resp.len() == 0 {
        None
    } else if !is_ok(resp) {
        Some(Err(error_in(resp)))
    } else if resp.len() < 5 {
        None
    } else {
        taken_value(take_bytes_list(resp, 5, le_value(resp.subrange(1, 5))))
    }
}

/// What is said in a reply that refuses a request.
pub fn extract_err(resp: &[u8]) -> (r: String)
    ensures
        r@ == error_in(resp@),
{
    if resp.len() < 4 {
        return copy_str("unknown error");
    }
    let msg_len: usize = crate::le::read_le(resp, 1, 2) as usize;
    proof {
        crate::le::lemma_le_value_bound(resp@.subrange(1, 3));
        crate::le::lemma_le_limits();
    }
    if resp.len() - 3 >= msg_len {
        show_bytes(vstd::slice::slice_subrange(resp, 3, 3 + msg_len))
    } else {
        copy_str("malformed error response")
    }
}

/// What a reply says of a request with nothing to tell.
pub fn check_status(resp: &[u8]) -> (r: Result<(), String>)
    ensures
        match r {
            Ok(()) => status_in(resp@) == Ok::<(), Seq<char>>(()),
            Err(e) => status_in(resp@) == Err::<(), Seq<char>>(e@),
        },
{
    if resp.is_empty() {
        return Err(copy_str("empty response"));
    }
    if resp[0] == STATUS_OK {
        Ok(())
    } else {
        Err(extract_err(resp))
    }
}

/// Reads the number in a reply.
pub fn read_u64(resp: &[u8]) -> (r: Option<Result<u64, String>>)
    ensures
        same_outcome(r, r->0->Ok_0 as nat, u64_in(resp@)),
{
    if resp.is_empty() {
        return None;
    }
    if resp[0] == STATUS_OK && resp.len() >= 9 {
        Some(Ok(crate::le::read_le(resp, 1, 8)))
    } else {
        Some(Err(extract_err(resp)))
    }
}

/// Reads the two numbers in a reply.
pub fn read_u64_pair(resp: &[u8]) -> (r: Option<Result<(u64, u64), String>>)
    ensures
        same_outcome(r, (r->0->Ok_0.0 as nat, r->0->Ok_0.1 as nat), u64_pair_in(resp@)),
{
    if resp.is_empty() {
        return None;
    }
    if resp[0] == STATUS_OK && resp.len() >= 17 {
        let first: u64 = crate::le::read_le(resp, 1, 8);
        let last: u64 = crate::le::read_le(resp, 9, 8);
        Some(Ok((first, last)))
    } else {
        Some(Err(extract_err(resp)))
    }
}

/// Reads the statistics in a reply.
pub fn read_stats(resp: &[u8]) -> (r: Option<Result<(u64, u32, u64), String>>)
    ensures
        same_outcome(
            r,
            (r->0->Ok_0.0 as nat, r->0->Ok_0.1 as nat, r->0->Ok_0.2 as nat),
            stats_in(resp@),
        ),
{
    if resp.is_empty() {
        return None;
    }
    if resp[0] == STATUS_OK && resp.len() >= 21 {
        let entries: u64 = crate::le::read_le(resp, 1, 8);
        let segments: u64 = crate::le::read_le(resp, 9, 4);
        let next_id: u64 = crate::le::read_le(resp, 13, 8);
        proof {
            crate::le::lemma_le_value_bound(resp@.subrange(9, 13));
            crate::le::lemma_le_limits();
        }
        Some(Ok((entries, segments as u32, next_id)))
    } else {
        Some(Err(extract_err(resp)))
    }
}

/// Reads a log entry behind a position.
fn cursor_entry(cur: &mut Cursor<'_>) -> (r: Result<(u64, u64, Vec<u8>), ParseError>)
    requires
        old(cur).wf(),
    ensures
        Cursor::took(
            *old(cur),
            *final(cur),
            r,
            (r->Ok_0.0, r->Ok_0.1, r->Ok_0.2@),
            take_entry(old(cur).buf@, old(cur).pos as nat),
        ),
{
    let id: u64 = cur.read_u64_le()?;
    let ts: u64 = cur.read_u64_le()?;
    let payload = cur.read_bytes()?;
    Ok((id, ts, copy_bytes(payload)))
}

/// Reads the log entry in a reply.
pub fn read_entry(resp: &[u8]) -> (r: Option<Result<(u64, u64, Vec<u8>), String>>)
    ensures
        same_outcome(
            r,
            (r->0->Ok_0.0, r->0->Ok_0.1, r->0->Ok_0.2@),
            entry_in(resp@),
        ),
{
    if resp.is_empty() {
        return None;
    }
    if resp[0] == STATUS_OK && resp.len() >= 21 {
        let mut cur = Cursor { buf: resp, pos: 1 };
        match cursor_entry(&mut cur) {
            Ok(e) => Some(Ok(e)),
            Err(_) => None,
        }
    } else {
        Some(Err(extract_err(resp)))
    }
}

/// The count in a reply that carries a list.
fn read_count(resp: &[u8]) -> (n: usize)
    requires
        resp@.len() >= 5,
    ensures
        n == le_value(resp@.subrange(1, 5)),
{
    proof {
        crate::le::lemma_le_value_bound(resp@.subrange(1, 5));
        crate::le::lemma_le_limits();
    }
    crate::le::read_le(resp, 1, 4) as usize
}

/// Reads `count` log entries behind a position.
fn cursor_entries(cur: &mut Cursor<'_>, count: usize) -> (r: Result<
    Vec<(u64, u64, Vec<u8>)>,
    ParseError,
>)
    requires
        old(cur).wf(),
    ensures
        Cursor::took(
            *old(cur),
            *final(cur),
            r,
            triples_view(r->Ok_0@),
            take_entries(old(cur).buf@, old(cur).pos as nat, count as nat),
        ),
{
    let mut vals: Vec<(u64, u64, Vec<u8>)> = Vec::new();
    let mut i: usize = 0;
    let ghost start = cur.pos as nat;
    while i < count
        invariant
            i <= count,
            cur.wf(),
            cur.buf@ == old(cur).buf@,
            start == old(cur).pos,
            take_entries(cur.buf@, start, count as nat) == (match take_entries(
                cur.buf@,
                cur.pos as nat,
                (count - i) as nat,
            ) {
                Err(e) => Err(e),
                Ok((rest, q)) => Ok((triples_view(vals@) + rest, q)),
            }),
        decreases count - i,
    {
        let e = cursor_entry(cur)?;
        let ghost val = (e.0, e.1, e.2@);
        proof {
            assert forall|rest: Seq<(u64, u64, Seq<u8>)>| #[trigger]
                (triples_view(vals@) + (seq![val] + rest)) == triples_view(vals@.push(e))
                    + rest by {
                assert(triples_view(vals@) + (seq![val] + rest) =~= triples_view(vals@.push(e))
                    + rest);
            }
        }
        vals.push(e);
        i = i + 1;
    }
    proof {
        assert(triples_view(vals@) + Seq::<(u64, u64, Seq<u8>)>::empty() =~= triples_view(vals@));
    }
    Ok(vals)
}

/// Reads the log entries in a reply.
pub fn read_entries(resp: &[u8]) -> (r: Option<Result<Vec<(u64, u64, Vec<u8>)>, String>>)
    ensures
        same_outcome(r, triples_view(r->0->Ok_0@), entries_in(resp@)),
{
    if resp.is_empty() {
        return None;
    }
    if resp[0] == STATUS_OK && resp.len() >= 5 {
        let count: usize = read_count(resp);
        let mut cur = Cursor { buf: resp, pos: 5 };
        match cursor_entries(&mut cur, count) {
            Ok(entries) => Some(Ok(entries)),
            Err(_) => None,
        }
    } else {
        Some(Err(extract_err(resp)))
    }
}

/// Reads `count` texts behind a position.
fn cursor_texts(cur: &mut Cursor<'_>, count: usize) -> (r: Result<Vec<String>, ParseError>)
    requires
        old(cur).wf(),
    ensures
        Cursor::took(
            *old(cur),
            *final(cur),
            r,
            strings_view(r->Ok_0@),
            take_shown_list(old(cur).buf@, old(cur).pos as nat, count as nat),
        ),
{
    let mut vals: Vec<String> = Vec::new();
    let mut i: usize = 0;
    let ghost start = cur.pos as nat;
    while i < count
        invariant
            i <= count,
            cur.wf(),
            cur.buf@ == old(cur).buf@,
            start == old(cur).pos,
            take_shown_list(cur.buf@, start, count as nat) == (match take_shown_list(
                cur.buf@,
                cur.pos as nat,
                (count - i) as nat,
            ) {
                Err(e) => Err(e),
                Ok((rest, q)) => Ok((strings_view(vals@) + rest, q)),
            }),
        decreases count - i,
    {
        let len: usize = cur.read_u16_le()? as usize;
        if cur.buf.len() - cur.pos < len {
            return Err(ParseError("unexpected EOF reading string"));
        }
        let val = show_bytes(vstd::slice::slice_subrange(cur.buf, cur.pos, cur.pos + len));
        cur.pos = cur.pos + len;
        proof {
            assert forall|rest: Seq<Seq<char>>| #[trigger]
                (strings_view(vals@) + (seq![val@] + rest)) == strings_view(vals@.push(val))
                    + rest by {
                assert(strings_view(vals@) + (seq![val@] + rest) =~= strings_view(vals@.push(val))
                    + rest);
            }
        }
        vals.push(val);
        i = i + 1;
    }
    proof {
        assert(strings_view(vals@) + Seq::<Seq<char>>::empty() =~= strings_view(vals@));
    }
    Ok(vals)
}

/// Reads the names of groups in a reply.
pub fn read_groups(resp: &[u8]) -> (r: Option<Result<Vec<String>, String>>)
    ensures
        same_outcome(r, strings_view(r->0->Ok_0@), groups_in(resp@)),
{
    if resp.is_empty() {
        return None;
    }
    if resp[0] == STATUS_OK && resp.len() >= 5 {
        let count: usize = read_count(resp);
        let mut cur = Cursor { buf: resp, pos: 5 };
        match cursor_texts(&mut cur, count) {
            Ok(names) => Some(Ok(names)),
            Err(_) => None,
        }
    } else {
        Some(Err(extract_err(resp)))
    }
}

/// Reads the keys in a reply.
pub fn read_keys(resp: &[u8]) -> (r: Option<Result<Vec<String>, String>>)
    ensures
        same_outcome(r, strings_view(r->0->Ok_0@), keys_in(resp@)),
{
    if resp.is_empty() {
        return None;
    }
    if resp[0] != STATUS_OK {
        return Some(Err(extract_err(resp)));
    }
    if resp.len() < 5 {
        return None;
    }
    let count: usize = read_count(resp);
    let mut cur = Cursor { buf: resp, pos: 5 };
    match cursor_texts(&mut cur, count) {
        Ok(names) => Some(Ok(names)),
        Err(_) => None,
    }
}

/// What an optional value holds.
pub open spec fn option_view(v: Option<Vec<u8>>) -> Option<Seq<u8>> {
    match v {
        Some(b) => Some(b@),
        None => None,
    }
}

/// Reads the value in a reply.
pub fn read_value(resp: &[u8]) -> (r: Option<Result<Option<Vec<u8>>, String>>)
    ensures
        same_outcome(r, option_view(r->0->Ok_0), value_in(resp@)),
{
    if resp.is_empty() {
        return None;
    }
    if resp[0] != STATUS_OK {
        return Some(Err(extract_err(resp)));
    }
    if resp.len() < 5 {
        return Some(Ok(None));
    }
    let n: usize = read_count(resp);
    if n == 0 {
        return Some(Ok(None));
    }
    if resp.len() - 5 < n {
        return None;
    }
    Some(Ok(Some(copy_bytes(vstd::slice::slice_subrange(resp, 5, 5 + n)))))
}

/// Reads the values in a reply.
pub fn read_values(resp: &[u8]) -> (r: Option<Result<Vec<Vec<u8>>, String>>)
    ensures
        same_outcome(r, vecs_view(r->0->Ok_0@), values_in(resp@)),
{
    if resp.is_empty() {
        return None;
    }
    if resp[0] != STATUS_OK {
        return Some(Err(extract_err(resp)));
    }
    if resp.len() < 5 {
        return None;
    }
    let count: usize = read_count(resp);
    let mut cur = Cursor { buf: resp, pos: 5 };
    match read_bytes_list(&mut cur, count) {
        Ok(vals) => Some(Ok(own_slices(&vals))),
        Err(_) => None,
    }
}

/// A tag and one name.
fn build_cmd_with_group(tag: u8, group: &str) -> (r: Vec<u8>)
    ensures
        r@ == seq![tag] + enc_str(group@),
{
    let mut buf: Vec<u8> = Vec::new();
    buf.push(tag);
    assert(buf@ =~= seq![tag]);
    push_str_field(&mut buf, group);
    buf
}

/// A tag and two names.
fn build_cmd_with_db_key(tag: u8, db: &str, key: &str) -> (r: Vec<u8>)
    ensures
        r@ == seq![tag] + enc_str(db@) + enc_str(key@),
{
    let mut buf = build_cmd_with_group(tag, db);
    push_str_field(&mut buf, key);
    buf
}

/// The frame that asks for a new group.
pub fn create_group_frame(name: &str) -> (r: Vec<u8>)
    ensures
        r@ == encode_command(CommandView::CreateGroup { name: name@ }, Seq::empty()),
{
    build_cmd_with_group(CMD_CREATE_GROUP, name)
}

/// The frame that drops a group.
pub fn drop_group_frame(name: &str) -> (r: Vec<u8>)
    ensures
        r@ == encode_command(CommandView::DropGroup { name: name@ }, Seq::empty()),
{
    build_cmd_with_group(CMD_DROP_GROUP, name)
}

/// The frame that appends an entry to a group.
pub fn add_frame(group: &str, timestamp: u64, payload: &[u8]) -> (r: Vec<u8>)
    ensures
        r@ == encode_command(
            CommandView::Add { group: group@, timestamp, payload: payload@ },
            Seq::empty(),
        ),
{
    let mut frame = build_cmd_with_group(CMD_ADD, group);
    let ghost head = frame@;
    push_le(&mut frame, timestamp, 8);
    push_byte_field(&mut frame, payload);
    assert(frame@ =~= head + enc_stamped((timestamp, payload@)));
    frame
}

/// The frame that appends entries to a group.
pub fn add_range_frame(group: &str, entries: &[(u64, &[u8])]) -> (r: Vec<u8>)
    ensures
        r@ == encode_command(
            CommandView::AddRange { group: group@, entries: stamped_view(entries@) },
            Seq::empty(),
        ),
{
    let ghost all = stamped_view(entries@);
    let mut frame = build_cmd_with_group(CMD_ADD_RANGE, group);
    push_le(&mut frame, entries.len() as u64, 4);
    let ghost head = frame@;
    let mut i: usize = 0;
    assert(all.skip(0) =~= all);
    while i < entries.len()
        invariant
            i <= entries@.len(),
            all == stamped_view(entries@),
            frame@ + enc_stamped_list(all.skip(i as int)) == head + enc_stamped_list(all),
        decreases entries@.len() - i,
    {
        let ghost before = frame@;
        let e = entries[i];
        push_le(&mut frame, e.0, 8);
        push_byte_field(&mut frame, e.1);
        proof {
            let rest = all.skip(i as int);
            assert(rest[0] == (e.0, e.1@));
            assert(rest.drop_first() =~= all.skip(i + 1));
            assert(frame@ =~= before + enc_stamped(rest[0]));
            assert(before + (enc_stamped(rest[0]) + enc_stamped_list(rest.drop_first())) =~= frame@
                + enc_stamped_list(rest.drop_first()));
        }
        i = i + 1;
    }
    assert(frame@ + enc_stamped_list(all.skip(i as int)) =~= frame@);
    frame
}

/// The frame that reads an entry of a group.
pub fn read_frame(group: &str, id: u64) -> (r: Vec<u8>)
    ensures
        r@ == encode_command(CommandView::Read { group: group@, id }, Seq::empty()),
{
    let mut frame = build_cmd_with_group(CMD_READ, group);
    push_le(&mut frame, id, 8);
    frame
}

/// The frame that reads a range of entries of a group.
pub fn read_range_frame(group: &str, start: u64, end: u64) -> (r: Vec<u8>)
    ensures
        r@ == encode_command(CommandView::ReadRange { group: group@, start, end }, Seq::empty()),
{
    let mut frame = build_cmd_with_group(CMD_READ_RANGE, group);
    push_le(&mut frame, start, 8);
    push_le(&mut frame, end, 8);
    frame
}

/// The frame that drops the entries of a group below an id.
pub fn remove_frame(group: &str, up_to_id: u64) -> (r: Vec<u8>)
    ensures
        r@ == encode_command(CommandView::Remove { group: group@, up_to_id }, Seq::empty()),
{
    let mut frame = build_cmd_with_group(CMD_REMOVE, group);
    push_le(&mut frame, up_to_id, 8);
    frame
}

/// The frame that asks for the names of the groups.
pub fn list_groups_frame() -> (r: Vec<u8>)
    ensures
        r@ == encode_command(CommandView::ListGroups, Seq::empty()),
{
    let mut frame: Vec<u8> = Vec::new();
    frame.push(CMD_LIST_GROUPS);
    assert(frame@ =~= seq![CMD_LIST_GROUPS]);
    frame
}

/// The frame that asks for the statistics of a group.
pub fn group_stats_frame(group: &str) -> (r: Vec<u8>)
    ensures
        r@ == encode_command(CommandView::GroupStats { group: group@ }, Seq::empty()),
{
    build_cmd_with_group(CMD_GROUP_STATS, group)
}

/// The frame that writes a key.
pub fn kv_set_frame(db: &str, key: &str, val: &[u8], ttl_secs: u64) -> (r: Vec<u8>)
    ensures
        r@ == encode_command(
            CommandView::SetKey { db: db@, key: key@, val: val@, ttl_secs },
            Seq::empty(),
        ),
{
    let mut frame = build_cmd_with_db_key(CMD_SET, db, key);
    let ghost head = frame@;
    push_le(&mut frame, ttl_secs, 8);
    push_byte_field(&mut frame, val);
    assert(frame@ =~= head + enc_stamped((ttl_secs, val@)));
    frame
}

/// The frame that reads a key.
pub fn kv_get_frame(db: &str, key: &str) -> (r: Vec<u8>)
    ensures
        r@ == encode_command(CommandView::GetKey { db: db@, key: key@ }, Seq::empty()),
{
    build_cmd_with_db_key(CMD_GET, db, key)
}

/// The frame that drops a key.
pub fn kv_del_frame(db: &str, key: &str) -> (r: Vec<u8>)
    ensures
        r@ == encode_command(CommandView::DelKey { db: db@, key: key@ }, Seq::empty()),
{
    build_cmd_with_db_key(CMD_DEL, db, key)
}

/// The frame that asks for the keys of a database.
pub fn kv_keys_frame(db: &str) -> (r: Vec<u8>)
    ensures
        r@ == encode_command(CommandView::Keys { db: db@ }, Seq::empty()),
{
    build_cmd_with_group(CMD_KEYS, db)
}

/// The frame that drops all keys of a database.
pub fn kv_flush_frame(db: &str) -> (r: Vec<u8>)
    ensures
        r@ == encode_command(CommandView::Flush { db: db@ }, Seq::empty()),
{
    build_cmd_with_group(CMD_FLUSH, db)
}

/// A tag, the name of a database, which the lists do without, and the name of a list.
fn build_cmd_with_key(tag: u8, key: &str) -> (r: Vec<u8>)
    ensures
        r@ == seq![tag] + enc_str(Seq::empty()) + enc_str(key@),
{
    proof {
        reveal_strlit("");
        assert(""@ =~= Seq::<char>::empty());
    }
    build_cmd_with_db_key(tag, "", key)
}

/// The frame that pushes an item to a list.
pub fn l_push_frame(key: &str, val: &[u8]) -> (r: Vec<u8>)
    ensures
        r@ == encode_command(CommandView::LPush { key: key@, val: val@ }, Seq::empty()),
{
    let mut frame = build_cmd_with_key(LPUSH, key);
    push_byte_field(&mut frame, val);
    frame
}

/// The frame that pushes items to a list.
pub fn l_push_range_frame(key: &str, vals: &[Vec<u8>]) -> (r: Vec<u8>)
    ensures
        r@ == encode_command(
            CommandView::LPushRange { key: key@, vals: vecs_view(vals@) },
            Seq::empty(),
        ),
{
    let mut frame = build_cmd_with_key(LPUSH_RANGE, key);
    push_le(&mut frame, vals.len() as u64, 4);
    push_byte_fields(&mut frame, vals);
    frame
}

/// The frame that pops an item of a list.
pub fn l_pop_frame(key: &str) -> (r: Vec<u8>)
    ensures
        r@ == encode_command(CommandView::LPop { key: key@ }, Seq::empty()),
{
    build_cmd_with_key(LPOP, key)
}

/// The frame that pops a range of items of a list.
pub fn l_pop_range_frame(key: &str, start: u32, end: u32) -> (r: Vec<u8>)
    ensures
        r@ == encode_command(CommandView::LPopRange { key: key@, start, end }, Seq::empty()),
{
    let mut frame = build_cmd_with_key(LPOP_RANGE, key);
    push_le(&mut frame, start as u64, 4);
    push_le(&mut frame, end as u64, 4);
    frame
}

/// The frame that pops a number of items of a list.
pub fn l_pop_count_frame(key: &str, count: u32) -> (r: Vec<u8>)
    ensures
        r@ == encode_command(CommandView::LPopCount { key: key@, count }, Seq::empty()),
{
    let mut frame = build_cmd_with_key(LPOP_COUNT, key);
    push_le(&mut frame, count as u64, 4);
    frame
}

/// The frame that asks for the length of a list.
pub fn l_len_frame(key: &str) -> (r: Vec<u8>)
    ensures
        r@ == encode_command(CommandView::LLen { key: key@ }, Seq::empty()),
{
    build_cmd_with_key(LLEN, key)
}

/// The frame that drops all items of a list.
pub fn l_flush_frame(key: &str) -> (r: Vec<u8>)
    ensures
        r@ == encode_command(CommandView::LFlush { key: key@ }, Seq::empty()),
{
    build_cmd_with_key(LFLUSH, key)
}

/// A reply that refuses a request is read as a refusal by whatever reads it, with one and the same message.
/// No reply at all is read as none.
pub proof fn law_refusals_are_read(
    resp: &[u8],
    text: String,
    done: Result<(), String>,
    number: Option<Result<u64, String>>,
    pair: Option<Result<(u64, u64), String>>,
    stats: Option<Result<(u64, u32, u64), String>>,
    entry: Option<Result<(u64, u64, Vec<u8>), String>>,
    entries: Option<Result<Vec<(u64, u64, Vec<u8>)>, String>>,
    groups: Option<Result<Vec<String>, String>>,
    keys: Option<Result<Vec<String>, String>>,
    value: Option<Result<Option<Vec<u8>>, String>>,
    values: Option<Result<Vec<Vec<u8>>, String>>,
)
    requires
        call_ensures(extract_err, (resp,), text),
        call_ensures(check_status, (resp,), done),
        call_ensures(read_u64, (resp,), number),
        call_ensures(read_u64_pair, (resp,), pair),
        call_ensures(read_stats, (resp,), stats),
        call_ensures(read_entry, (resp,), entry),
        call_ensures(read_entries, (resp,), entries),
        call_ensures(read_groups, (resp,), groups),
        call_ensures(read_keys, (resp,), keys),
        call_ensures(read_value, (resp,), value),
        call_ensures(read_values, (resp,), values),
    ensures
        resp@.len() > 0 && resp@[0] != 0 ==> {
            &&& done matches Err(m) && m@ == text@
            &&& number matches Some(Err(m)) && m@ == text@
            &&& pair matches Some(Err(m)) && m@ == text@
            &&& stats matches Some(Err(m)) && m@ == text@
            &&& entry matches Some(Err(m)) && m@ == text@
            &&& entries matches Some(Err(m)) && m@ == text@
            &&& groups matches Some(Err(m)) && m@ == text@
            &&& keys matches Some(Err(m)) && m@ == text@
            &&& value matches Some(Err(m)) && m@ == text@
            &&& values matches Some(Err(m)) && m@ == text@
        },
        resp@.len() == 0 ==> {
            &&& done matches Err(m) && m@ == "empty response"@
            &&& number is None && pair is None && stats is None && entry is None && entries is None
            &&& groups is None && keys is None && value is None && values is None
        },
{
}

/// A reply that says that a request succeeded, and ends before what it should tell, is not read as if it
/// told it.
pub proof fn law_short_replies_are_not_read(
    resp: &[u8],
    text: String,
    number: Option<Result<u64, String>>,
    pair: Option<Result<(u64, u64), String>>,
    stats: Option<Result<(u64, u32, u64), String>>,
    entry: Option<Result<(u64, u64, Vec<u8>), String>>,
    keys: Option<Result<Vec<String>, String>>,
    value: Option<Result<Option<Vec<u8>>, String>>,
    values: Option<Result<Vec<Vec<u8>>, String>>,
)
    requires
        call_ensures(extract_err, (resp,), text),
        call_ensures(read_u64, (resp,), number),
        call_ensures(read_u64_pair, (resp,), pair),
        call_ensures(read_stats, (resp,), stats),
        call_ensures(read_entry, (resp,), entry),
        call_ensures(read_keys, (resp,), keys),
        call_ensures(read_value, (resp,), value),
        call_ensures(read_values, (resp,), values),
        resp@.len() > 0,
        resp@[0] == 0,
    ensures
        resp@.len() < 9 ==> !(number matches Some(Ok(_))),
        resp@.len() < 17 ==> !(pair matches Some(Ok(_))),
        resp@.len() < 21 ==> !(stats matches Some(Ok(_))) && !(entry matches Some(Ok(_))),
        resp@.len() < 5 ==> keys is None && values is None && (value matches Some(Ok(None))),
        resp@.len() >= 5 && resp@.len() < 5 + le_value(resp@.subrange(1, 5)) ==> value is None,
        resp@.len() < 4 ==> text@ == "unknown error"@,
        resp@.len() >= 4 && resp@.len() < 3 + le_value(resp@.subrange(1, 3)) ==> text@
            == "malformed error response"@,
{
}

} // verus!
