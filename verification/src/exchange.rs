//! The two sides of the protocol together: requests reach the server, what it writes in a reply is
//! what the client reads in it, and what was written is read back and logged.

use crate::aof::AofView;
use crate::client::{
    add_frame, add_range_frame, check_status, create_group_frame, drop_group_frame, extract_err,
    group_stats_frame, kv_del_frame, kv_flush_frame, kv_get_frame, kv_keys_frame, kv_set_frame,
    l_flush_frame, l_len_frame, l_pop_count_frame, l_pop_frame, l_pop_range_frame, l_push_frame,
    l_push_range_frame, list_groups_frame, read_entries, read_entry, read_frame, read_groups,
    read_keys, read_range_frame, read_stats, read_u64, read_u64_pair, read_value, read_values,
    remove_frame,
};
use crate::client::{
    entries_in, entry_in, error_in, groups_in, keys_in, stats_in, status_in, take_entries,
    take_entry, take_shown, take_shown_list, u64_in, u64_pair_in, value_in, values_in,
};
use crate::clock::{is_reading, law_readings_start_at_the_epoch};
use crate::codec::{front, law_frame_round_trip, Front, MAX_FRAME_SIZE};
use crate::db::{law_log_rebuilds_state, rebuilt, DbView, DB};
use crate::groups::{lemma_refused_by, lemma_taken_part, pushed_all, taken};
use crate::kv::{db_of, kv_after_read, kv_found, law_kv_write_then_read};
use crate::le::{le_bytes, le_value, lemma_le_bytes_len, lemma_le_limits, lemma_le_round_trip};
use crate::pipeline::PipelineManager;
use crate::proto::{
    parse, parse_command, slices_view, stamped_view, Command, CommandView, ParseError, STATUS_ERR,
    STATUS_OK,
};
use crate::response::{
    bytes_list_fields, enc_entries, enc_entry, enc_str_list, entries_fields, err_reply, framed,
    ok_reply, stats_fields, strings_fields, ResponseBuilder,
};
use crate::seg_list::{fitting, item_fits, items_of};
use crate::server::{
    answers, answers_get, answers_kv, answers_log, by_the_clock, command_ok, is_kv_command, is_list_command,
    handle_command, is_log_command, millis, parse_failure, Handled,
};
use crate::text::lemma_text_round_trip;
use crate::views::{strings_view, triples_view, vecs_view};
use crate::wire::{
    bytes_fit, command_fits, enc_bytes, enc_bytes_list, enc_stamped, enc_str, encode_command,
    law_parse_encoded_command, lemma_stands_split, lemma_take_bytes_list, lemma_take_stamped,
    lemma_take_uint, stands_at, str_fits,
};
use vstd::prelude::*;
use vstd::utf8::encode_utf8;

verus! {

/// The body of a reply to a request that succeeded.
pub open spec fn ok_body(fields: Seq<u8>) -> Seq<u8> {
    seq![STATUS_OK] + fields
}

/// The body of a reply to a request that failed.
pub open spec fn err_body(msg: Seq<char>) -> Seq<u8> {
    seq![STATUS_ERR] + enc_str(msg)
}

proof fn lemma_fields_stand(fields: Seq<u8>)
    ensures
        stands_at(ok_body(fields), 1, fields),
        ok_body(fields).len() == 1 + fields.len(),
        ok_body(fields)[0] == STATUS_OK,
{
    assert(ok_body(fields).subrange(1, 1 + fields.len() as int) =~= fields);
}

/// A number at its place has its value.
proof fn lemma_number_stands(buf: Seq<u8>, pos: nat, x: nat, n: nat)
    requires
        stands_at(buf, pos, le_bytes(x, n)),
        x < crate::le::le_limit(n),
    ensures
        pos + n <= buf.len(),
        le_value(buf.subrange(pos as int, (pos + n) as int)) == x,
{
    broadcast use lemma_le_bytes_len;

    lemma_le_round_trip(x, n);
}

/// The client reads the numbers that the server tells.
pub proof fn law_client_reads_numbers(a: u64, b: u64, segments: u32)
    ensures
        u64_in(ok_body(le_bytes(a as nat, 8))) == Some(Ok::<nat, Seq<char>>(a as nat)),
        u64_pair_in(ok_body(le_bytes(a as nat, 8) + le_bytes(b as nat, 8))) == Some(
            Ok::<(nat, nat), Seq<char>>((a as nat, b as nat)),
        ),
        stats_in(ok_body(stats_fields(a, segments as nat, b))) == Some(
            Ok::<(nat, nat, nat), Seq<char>>((a as nat, segments as nat, b as nat)),
        ),
{
    broadcast use lemma_le_bytes_len;

    lemma_le_limits();
    let x = le_bytes(a as nat, 8);
    let y = le_bytes(b as nat, 8);
    let z = le_bytes(segments as nat, 4);
    lemma_fields_stand(x);
    lemma_number_stands(ok_body(x), 1, a as nat, 8);
    lemma_fields_stand(x + y);
    lemma_stands_split(ok_body(x + y), 1, x, y);
    lemma_number_stands(ok_body(x + y), 1, a as nat, 8);
    lemma_number_stands(ok_body(x + y), 9, b as nat, 8);
    let s = ok_body(x + z + y);
    lemma_fields_stand(x + z + y);
    lemma_stands_split(s, 1, x + z, y);
    lemma_stands_split(s, 1, x, z);
    lemma_number_stands(s, 1, a as nat, 8);
    lemma_number_stands(s, 9, segments as nat, 4);
    lemma_number_stands(s, 13, b as nat, 8);
}

proof fn lemma_take_entry(buf: Seq<u8>, pos: nat, e: (u64, u64, Seq<u8>))
    requires
        stands_at(buf, pos, enc_entry(e)),
        bytes_fit(e.2),
    ensures
        take_entry(buf, pos) == Ok::<((u64, u64, Seq<u8>), nat), Seq<char>>(
            (e, pos + enc_entry(e).len()),
        ),
{
    broadcast use lemma_le_bytes_len;

    let id = le_bytes(e.0 as nat, 8);
    assert(enc_entry(e) =~= id + enc_stamped((e.1, e.2)));
    lemma_stands_split(buf, pos, id, enc_stamped((e.1, e.2)));
    lemma_take_uint(buf, pos, e.0 as nat);
    lemma_take_stamped(buf, pos + 8, (e.1, e.2));
}

proof fn lemma_take_entries(buf: Seq<u8>, pos: nat, items: Seq<(u64, u64, Seq<u8>)>)
    requires
        stands_at(buf, pos, enc_entries(items)),
        forall|i: int| 0 <= i < items.len() ==> bytes_fit((#[trigger] items[i]).2),
    ensures
        take_entries(buf, pos, items.len()) == Ok::<(Seq<(u64, u64, Seq<u8>)>, nat), Seq<char>>(
            (items, pos + enc_entries(items).len()),
        ),
    decreases items.len(),
{
    if items.len() > 0 {
        let rest = items.drop_first();
        lemma_stands_split(buf, pos, enc_entry(items[0]), enc_entries(rest));
        lemma_take_entry(buf, pos, items[0]);
        assert forall|i: int| 0 <= i < rest.len() implies bytes_fit((#[trigger] rest[i]).2) by {
            assert(rest[i] == items[i + 1]);
        }
        lemma_take_entries(buf, pos + enc_entry(items[0]).len(), rest);
        assert(seq![items[0]] + rest =~= items);
    } else {
        assert(items =~= Seq::empty());
    }
}

proof fn lemma_take_shown_list(buf: Seq<u8>, pos: nat, items: Seq<Seq<char>>)
    requires
        stands_at(buf, pos, enc_str_list(items)),
        forall|i: int| 0 <= i < items.len() ==> str_fits(#[trigger] items[i]),
    ensures
        take_shown_list(buf, pos, items.len()) == Ok::<(Seq<Seq<char>>, nat), Seq<char>>(
            (items, pos + enc_str_list(items).len()),
        ),
    decreases items.len(),
{
    broadcast use lemma_le_bytes_len;

    if items.len() > 0 {
        let rest = items.drop_first();
        let bytes = encode_utf8(items[0]);
        lemma_stands_split(buf, pos, enc_str(items[0]), enc_str_list(rest));
        lemma_stands_split(buf, pos, le_bytes(bytes.len(), 2), bytes);
        lemma_take_uint(buf, pos, bytes.len());
        lemma_text_round_trip(items[0]);
        assert(str_fits(items[0]));
        assert(take_shown(buf, pos) == Ok::<(Seq<char>, nat), Seq<char>>(
            (items[0], pos + enc_str(items[0]).len()),
        ));
        assert forall|i: int| 0 <= i < rest.len() implies str_fits(#[trigger] rest[i]) by {
            assert(rest[i] == items[i + 1]);
        }
        lemma_take_shown_list(buf, pos + enc_str(items[0]).len(), rest);
        assert(seq![items[0]] + rest =~= items);
    } else {
        assert(items =~= Seq::empty());
    }
}

/// The client reads the log entry that the server tells.
pub proof fn law_client_reads_entry(e: (u64, u64, Seq<u8>))
    requires
        bytes_fit(e.2),
    ensures
        entry_in(ok_body(enc_entry(e))) == Some(Ok::<(u64, u64, Seq<u8>), Seq<char>>(e)),
{
    broadcast use lemma_le_bytes_len;

    lemma_fields_stand(enc_entry(e));
    lemma_take_entry(ok_body(enc_entry(e)), 1, e);
}

/// The client reads the log entries that the server tells.
pub proof fn law_client_reads_entries(items: Seq<(u64, u64, Seq<u8>)>)
    requires
        items.len() < 0x1_0000_0000,
        forall|i: int| 0 <= i < items.len() ==> bytes_fit((#[trigger] items[i]).2),
    ensures
        entries_in(ok_body(entries_fields(items))) == Some(
            Ok::<Seq<(u64, u64, Seq<u8>)>, Seq<char>>(items),
        ),
{
    broadcast use lemma_le_bytes_len;

    let fields = entries_fields(items);
    lemma_le_limits();
    lemma_fields_stand(fields);
    lemma_stands_split(ok_body(fields), 1, le_bytes(items.len(), 4), enc_entries(items));
    lemma_number_stands(ok_body(fields), 1, items.len(), 4);
    lemma_take_entries(ok_body(fields), 5, items);
}

/// The client reads the names and the keys that the server tells.
pub proof fn law_client_reads_texts(items: Seq<Seq<char>>)
    requires
        items.len() < 0x1_0000_0000,
        forall|i: int| 0 <= i < items.len() ==> str_fits(#[trigger] items[i]),
    ensures
        groups_in(ok_body(strings_fields(items))) == Some(Ok::<Seq<Seq<char>>, Seq<char>>(items)),
        keys_in(ok_body(strings_fields(items))) == Some(Ok::<Seq<Seq<char>>, Seq<char>>(items)),
{
    broadcast use lemma_le_bytes_len;

    let fields = strings_fields(items);
    lemma_le_limits();
    lemma_fields_stand(fields);
    lemma_stands_split(ok_body(fields), 1, le_bytes(items.len(), 4), enc_str_list(items));
    lemma_number_stands(ok_body(fields), 1, items.len(), 4);
    lemma_take_shown_list(ok_body(fields), 5, items);
}

/// The client reads the value that the server tells, if it is not empty. An empty value, as well
/// as none, it reads as none.
pub proof fn law_client_reads_value(v: Seq<u8>)
    requires
        bytes_fit(v),
    ensures
        value_in(ok_body(enc_bytes(v))) == Some(
            Ok::<Option<Seq<u8>>, Seq<char>>(
                if v.len() > 0 {
                    Some(v)
                } else {
                    None
                },
            ),
        ),
        value_in(ok_body(Seq::empty())) == Some(Ok::<Option<Seq<u8>>, Seq<char>>(None)),
{
    broadcast use lemma_le_bytes_len;

    lemma_le_limits();
    lemma_fields_stand(enc_bytes(v));
    lemma_stands_split(ok_body(enc_bytes(v)), 1, le_bytes(v.len(), 4), v);
    lemma_number_stands(ok_body(enc_bytes(v)), 1, v.len(), 4);
}

/// The client reads the values that the server tells.
pub proof fn law_client_reads_values(items: Seq<Seq<u8>>)
    requires
        items.len() < 0x1_0000_0000,
        forall|i: int| 0 <= i < items.len() ==> bytes_fit(#[trigger] items[i]),
    ensures
        values_in(ok_body(bytes_list_fields(items))) == Some(Ok::<Seq<Seq<u8>>, Seq<char>>(items)),
{
    broadcast use lemma_le_bytes_len;

    let fields = bytes_list_fields(items);
    lemma_le_limits();
    lemma_fields_stand(fields);
    lemma_stands_split(ok_body(fields), 1, le_bytes(items.len(), 4), enc_bytes_list(items));
    lemma_number_stands(ok_body(fields), 1, items.len(), 4);
    lemma_take_bytes_list(ok_body(fields), 5, items);
}

/// A request that the server refuses is refused to the client with the message of the server, and
/// one that succeeds is not. The message is not empty.
pub proof fn law_client_reads_status(msg: Seq<char>, fields: Seq<u8>)
    requires
        msg.len() > 0,
        str_fits(msg),
    ensures
        status_in(err_body(msg)) == Err::<(), Seq<char>>(msg),
        error_in(err_body(msg)) == msg,
        err_reply(msg).skip(4) == err_body(msg),
        ok_reply(fields).skip(4) == ok_body(fields),
        status_in(ok_body(fields)) == Ok::<(), Seq<char>>(()),
{
    broadcast use lemma_le_bytes_len;

    let bytes = encode_utf8(msg);
    let s = err_body(msg);
    lemma_le_limits();
    assert(s.subrange(1, 1 + enc_str(msg).len() as int) =~= enc_str(msg));
    lemma_stands_split(s, 1, le_bytes(bytes.len(), 2), bytes);
    lemma_number_stands(s, 1, bytes.len(), 2);
    lemma_text_round_trip(msg);
    assert(err_reply(msg).skip(4) =~= err_body(msg));
    assert(ok_reply(fields).skip(4) =~= ok_body(fields));
    if bytes.len() == 0 {
        assert(bytes =~= encode_utf8(Seq::empty()));
        lemma_text_round_trip(Seq::empty());
    }
}

/// The frame of a request, with its length in front, reaches the server as the request.
pub proof fn law_request_reaches_server(c: CommandView, rest: Seq<u8>)
    requires
        command_fits(c),
        encode_command(c, Seq::empty()).len() <= MAX_FRAME_SIZE,
    ensures
        ({
            let frame = encode_command(c, Seq::empty());
            &&& front(framed(frame) + rest) == (Front::Frame { body: frame, rest })
            &&& parse(frame) == Ok::<CommandView, Seq<char>>(c)
        }),
{
    broadcast use lemma_le_bytes_len;

    let frame = encode_command(c, Seq::empty());
    law_frame_round_trip(frame, rest, 0);
    assert(encode_utf8(Seq::empty()).len() == 0);
    law_parse_encoded_command(c, Seq::empty(), Seq::empty());
    assert(frame + Seq::<u8>::empty() =~= frame);
}

/// A key that a client sets without a time to live is what the next client that gets it is told,
/// whatever the clock reads.
#[verifier::rlimit(50)]
pub proof fn law_served_key_is_read(
    before: DbView,
    between: DbView,
    after: DbView,
    db: Seq<char>,
    key: Seq<char>,
    val: Seq<u8>,
    first: Seq<u8>,
    second: Seq<u8>,
)
    requires
        answers(before, between, CommandView::SetKey { db, key, val, ttl_secs: 0 }, first),
        answers(between, after, CommandView::GetKey { db, key }, second),
    ensures
        first == ok_reply(Seq::empty()),
        second == ok_reply(enc_bytes(val)),
{
    let e = AofView::KvSet { db, key, val, ttl: millis(0) };
    assert(millis(0) == 0);
    let (t, used) = choose|t: i64, used: i64| #[trigger] before.kv_wrote(between, e, t, used);
    assert(before.kv_wrote(between, e, t, used));
    assert(answers_get(between, after, db, key, second));
    let (t2, used2) = choose|t2: i64, used2: i64|
        {
            &&& after == between.with_kv(#[trigger] kv_after_read(between.kv, db, key, t2, used2))
            &&& second == (match kv_found(between.kv, db, key, t2, used2) {
                Some(item) => ok_reply(enc_bytes(item.val)),
                None => ok_reply(Seq::empty()),
            })
        };
    law_kv_write_then_read(before.kv, between.kv, db, key, val, 0, t, used, t2, used2);
}

/// A key that a client sets with a time to live is told to the next client that gets it as long as
/// the wall clock, as it is read for that get, has not gone further than the time to live from where
/// it stood, as it was read for the set. From then on the client is told that there is none.
#[verifier::rlimit(50)]
pub proof fn law_served_key_expires(
    before: DbView,
    between: DbView,
    after: DbView,
    db: Seq<char>,
    key: Seq<char>,
    val: Seq<u8>,
    ttl_secs: u64,
    first: Seq<u8>,
    second: Seq<u8>,
    set_was: Seq<i64>,
    set_is: Seq<i64>,
    get_was: Seq<i64>,
    get_is: Seq<i64>,
)
    requires
        by_the_clock(
            before,
            between,
            CommandView::SetKey { db, key, val, ttl_secs },
            first,
            set_was,
            set_is,
        ),
        by_the_clock(between, after, CommandView::GetKey { db, key }, second, get_was, get_is),
        0 < ttl_secs,
        set_is[set_was.len() as int] + 1000 * ttl_secs <= i64::MAX,
    ensures
        set_is.len() == set_was.len() + 2 && set_is.take(set_was.len() as int) == set_was,
        get_is.len() == get_was.len() + 2 && get_is.take(get_was.len() as int) == get_was,
        is_reading(set_is[set_was.len() as int]),
        is_reading(get_is[get_was.len() as int]),
        second == (if get_is[get_was.len() as int] <= set_is[set_was.len() as int] + 1000
            * ttl_secs {
            ok_reply(enc_bytes(val))
        } else {
            ok_reply(Seq::empty())
        }),
{
    let ttl = millis(ttl_secs);
    let e = AofView::KvSet { db, key, val, ttl };
    let (t, used) = choose|t: i64, used: i64|
        {
            &&& #[trigger] before.kv_wrote(between, e, t, used)
            &&& set_is == set_was.push(t).push(used)
        };
    assert(before.kv_wrote(between, e, t, used));
    assert(set_is[set_was.len() as int] == t);
    assert(set_is.take(set_was.len() as int) =~= set_was);
    law_readings_start_at_the_epoch(t);
    assert(ttl == 1000 * ttl_secs);
    let (t2, used2) = choose|t2: i64, used2: i64|
        {
            &&& after == between.with_kv(#[trigger] kv_after_read(between.kv, db, key, t2, used2))
            &&& second == (match kv_found(between.kv, db, key, t2, used2) {
                Some(item) => ok_reply(enc_bytes(item.val)),
                None => ok_reply(Seq::empty()),
            })
            &&& is_reading(t2) && is_reading(used2)
            &&& get_is == get_was.push(t2).push(used2)
        };
    assert(get_is[get_was.len() as int] == t2);
    assert(get_is.take(get_was.len() as int) =~= get_was);
    law_kv_write_then_read(before.kv, between.kv, db, key, val, ttl, t, used, t2, used2);
}

/// An entry that a client appends to a group is what the next client that reads its id is told.
#[verifier::rlimit(50)]
pub proof fn law_served_entry_is_read(
    before: DbView,
    between: DbView,
    after: DbView,
    group: Seq<char>,
    timestamp: u64,
    payload: Seq<u8>,
    first: Seq<u8>,
    second: Seq<u8>,
)
    requires
        before.logs.contains_key(group),
        before.logs[group].takes(payload),
        answers(before, between, CommandView::Add { group, timestamp, payload }, first),
        answers(
            between,
            after,
            CommandView::Read { group, id: before.logs[group].next_id },
            second,
        ),
    ensures
        first == ok_reply(le_bytes(before.logs[group].next_id as nat, 8)),
        second == ok_reply(enc_entry((before.logs[group].next_id, timestamp, payload))),
{
}

/// What a client pushes to a list that is empty, or that there is not yet, is what the next client
/// that pops it is told.
#[verifier::rlimit(50)]
pub proof fn law_served_item_is_popped(
    before: DbView,
    between: DbView,
    after: DbView,
    key: Seq<char>,
    val: Seq<u8>,
    first: Seq<u8>,
    second: Seq<u8>,
)
    requires
        items_of(before.lists, key).len() == 0,
        item_fits(val),
        answers(before, between, CommandView::LPush { key, val }, first),
        answers(between, after, CommandView::LPop { key }, second),
    ensures
        first == ok_reply(Seq::empty()),
        second == ok_reply(enc_bytes(val)),
        items_of(after.lists, key).len() == 0,
{
}

/// A reply to a request that succeeded.
pub open spec fn is_ok_reply(reply: Seq<u8>) -> bool {
    exists|fields: Seq<u8>| reply == #[trigger] ok_reply(fields)
}

/// A reply to a request that failed.
pub open spec fn is_err_reply(reply: Seq<u8>) -> bool {
    exists|msg: Seq<char>| reply == #[trigger] err_reply(msg)
}

/// A reply cannot be taken for both.
proof fn lemma_replies_differ(fields: Seq<u8>, msg: Seq<char>)
    ensures
        ok_reply(fields) != err_reply(msg),
{
    broadcast use lemma_le_bytes_len;

    assert(ok_reply(fields)[4] == STATUS_OK);
    assert(err_reply(msg)[4] == STATUS_ERR);
}

/// The database after a command that was refused.
pub open spec fn after_refusal(before: DbView, c: CommandView) -> DbView {
    match c {
        CommandView::Add { group, timestamp, payload } if before.logs.contains_key(group)
            => before.log_refused(group, payload),
        CommandView::AddRange { group, entries } if before.logs.contains_key(group)
            && entries.len() > 0 => {
            let n = taken(before.logs[group], entries);
            before.log_wrote_part(group, entries, n).log_refused(group, entries[n as int].1)
        },
        CommandView::LPushRange { key, vals } => before.list_wrote_part(key, vals, fitting(vals)),
        CommandView::DelKey { db, key } => before.with_kv(
            before.kv.insert(db, db_of(before.kv, db).remove(key)),
        ),
        _ => before,
    }
}

/// Whether a command asks a log for an entry for which it has no segment left.
pub open spec fn shuts_log(before: DbView, c: CommandView) -> bool {
    match c {
        CommandView::Add { group, timestamp, payload } => before.logs.contains_key(group)
            && before.logs[group].shuts(payload),
        CommandView::AddRange { group, entries } => before.logs.contains_key(group) && {
            let n = taken(before.logs[group], entries);
            &&& n < entries.len()
            &&& pushed_all(before.logs[group], entries.take(n as int)).shuts(entries[n as int].1)
        },
        _ => false,
    }
}

/// A request that is refused changes nothing, and nothing is logged, but for a range of which the
/// first part was taken, which is logged, for a key that is not there to drop, whose database exists
/// from then on, and for a log that has no segment left, whose write position moves on.
pub proof fn law_refused_request_changes_nothing(
    before: DbView,
    now: DbView,
    c: CommandView,
    reply: Seq<u8>,
)
    requires
        answers(before, now, c, reply),
        is_err_reply(reply),
    ensures
        now == after_refusal(before, c),
        !(c is AddRange || c is LPushRange) ==> now.aof == before.aof && now.events
            == before.events,
        !(c is AddRange || c is LPushRange || c is DelKey) && !shuts_log(before, c) ==> now
            == before,
{
    let msg = choose|msg: Seq<char>| reply == #[trigger] err_reply(msg);
    assert forall|fields: Seq<u8>| reply != #[trigger] ok_reply(fields) by {
        lemma_replies_differ(fields, msg);
    }
    if let CommandView::Add { group, timestamp, payload } = c {
        if before.logs.contains_key(group) && !before.logs[group].shuts(payload) {
            lemma_refused_by(before.logs, group, payload);
        }
    }
}

/// The write that a command asks for, if it asks for one.
pub open spec fn write_of(c: CommandView) -> Option<AofView> {
    match c {
        CommandView::CreateGroup { name } => Some(AofView::LogCreateGroup { name }),
        CommandView::DropGroup { name } => Some(AofView::LogDropGroup { name }),
        CommandView::Add { group, timestamp, payload } => Some(
            AofView::LogAdd { group, timestamp, payload },
        ),
        CommandView::AddRange { group, entries } => Some(AofView::LogAddRange { group, entries }),
        CommandView::Remove { group, up_to_id } => Some(AofView::LogRemove { group, up_to_id }),
        CommandView::SetKey { db, key, val, ttl_secs } => Some(
            AofView::KvSet { db, key, val, ttl: millis(ttl_secs) },
        ),
        CommandView::DelKey { db, key } => Some(AofView::KvDel { db, key }),
        CommandView::Flush { db } => Some(AofView::KvFlush { db }),
        CommandView::LPush { key, val } => Some(AofView::ListPush { key, payload: val }),
        CommandView::LPushRange { key, vals } => Some(AofView::ListPushRange { key, items: vals }),
        CommandView::LPop { key } => Some(AofView::ListPop { key }),
        CommandView::LPopRange { key, start, end } => Some(
            AofView::ListPopRange { key, start: start as usize, end: end as usize },
        ),
        CommandView::LPopCount { key, count } => Some(
            AofView::ListPopCount { key, count: count as usize },
        ),
        CommandView::LFlush { key } => Some(AofView::ListFlush { key }),
        _ => None,
    }
}

/// Every write that succeeds is logged, once, and kept for followers where there may be some.
/// What only reads is not logged.
pub proof fn law_every_write_is_logged(before: DbView, now: DbView, c: CommandView, reply: Seq<u8>)
    requires
        answers(before, now, c, reply),
        is_ok_reply(reply),
    ensures
        match write_of(c) {
            Some(e) => {
                &&& now.aof == before.aof.push(e)
                &&& now.events == (if before.listening {
                    before.events.push(e)
                } else {
                    before.events
                })
            },
            None => now.aof == before.aof && now.events == before.events,
        },
{
    let fields = choose|fields: Seq<u8>| reply == #[trigger] ok_reply(fields);
    assert forall|msg: Seq<char>| reply != #[trigger] err_reply(msg) by {
        lemma_replies_differ(fields, msg);
    }
    if let CommandView::SetKey { db, key, val, ttl_secs } = c {
        let e = AofView::KvSet { db, key, val, ttl: millis(ttl_secs) };
        let (t, used) = choose|t: i64, used: i64| #[trigger] before.kv_wrote(now, e, t, used);
        assert(before.kv_wrote(now, e, t, used));
    }
}

/// The log rebuilds the state: where applying the log gives the stores as they are, it does so
/// after every command, with what the command added to the log. A read of a key, the length of a
/// list, and a key that is not there to drop are left out: they are not logged, and yet the first
/// marks the key as used, and each makes a database or a list that is not there yet. So is an entry
/// for which a log has no segment left: it is not logged, and yet the write position moves on.
pub proof fn law_log_rebuilds_after_command(
    before: DbView,
    now: DbView,
    c: CommandView,
    reply: Seq<u8>,
    log: Seq<AofView>,
)
    requires
        command_ok(before, c),
        answers(before, now, c, reply),
        rebuilt(before, log),
        !(c is GetKey || c is LLen),
        !shuts_log(before, c),
        c is DelKey ==> is_ok_reply(reply),
    ensures
        rebuilt(now, log + now.aof.skip(before.aof.len() as int)),
{
    law_every_reply_is_a_frame(before, now, c, reply);
    let more = now.aof.skip(before.aof.len() as int);
    let e = if is_ok_reply(reply) {
        law_every_write_is_logged(before, now, c, reply);
        let fields = choose|fields: Seq<u8>| reply == #[trigger] ok_reply(fields);
        assert forall|msg: Seq<char>| reply != #[trigger] err_reply(msg) by {
            lemma_replies_differ(fields, msg);
        }
        write_of(c)
    } else {
        law_refused_request_changes_nothing(before, now, c, reply);
        if let CommandView::AddRange { group, entries } = c {
            if before.logs.contains_key(group) && entries.len() > 0 {
                let log = before.logs[group];
                let n = taken(log, entries);
                let mid = before.log_wrote_part(group, entries, n);
                let part = entries.take(n as int);
                lemma_taken_part(log, entries);
                assert(part.take(n as int) =~= part);
                if n == 0 {
                    assert(part =~= Seq::empty());
                }
                assert(mid.logs[group] == pushed_all(log, part));
                lemma_refused_by(mid.logs, group, entries[n as int].1);
            }
        }
        match c {
            CommandView::AddRange { group, entries } if before.logs.contains_key(group) && taken(
                before.logs[group],
                entries,
            ) > 0 => Some(
                AofView::LogAddRange {
                    group,
                    entries: entries.take(taken(before.logs[group], entries) as int),
                },
            ),
            CommandView::LPushRange { key, vals } if fitting(vals) > 0 => Some(
                AofView::ListPushRange { key, items: vals.take(fitting(vals) as int) },
            ),
            _ => None,
        }
    };
    match e {
        Some(e) => {
            let (t, used) = choose|t: i64, used: i64| #[trigger] before.kv_wrote(now, e, t, used);
            law_log_rebuilds_state(before, now, log, e, t, used);
            assert(log + more =~= log.push(e));
        },
        None => {
            assert(log + more =~= log);
        },
    }
}

/// Every command is answered, with a frame that says whether it succeeded: a length, the status,
/// then what there is to tell.
pub proof fn law_every_reply_is_a_frame(before: DbView, now: DbView, c: CommandView, reply: Seq<u8>)
    requires
        answers(before, now, c, reply),
    ensures
        is_ok_reply(reply) || is_err_reply(reply),
        exists|body: Seq<u8>|
            reply == #[trigger] framed(body) && body.len() > 0 && (body[0] == STATUS_OK || body[0]
                == STATUS_ERR),
{
    if is_log_command(c) {
        lemma_log_reply(before, now, c, reply);
    } else if is_kv_command(c) {
        lemma_kv_reply(before, now, c, reply);
    } else if is_list_command(c) {
        assert(is_ok_reply(reply) || is_err_reply(reply));
    } else {
        assert(is_ok_reply(reply));
    }
    if is_ok_reply(reply) {
        let fields = choose|fields: Seq<u8>| reply == #[trigger] ok_reply(fields);
        assert(reply == framed(ok_body(fields)));
    } else {
        let msg = choose|msg: Seq<char>| reply == #[trigger] err_reply(msg);
        assert(reply == framed(err_body(msg)));
    }
}

proof fn lemma_log_reply(before: DbView, now: DbView, c: CommandView, reply: Seq<u8>)
    requires
        answers_log(before, now, c, reply),
    ensures
        is_ok_reply(reply) || is_err_reply(reply),
{
    match c {
        CommandView::ListGroups => {
            let names = choose|names: Seq<Seq<char>>|
                {
                    &&& names.no_duplicates()
                    &&& #[trigger] names.to_set() == before.logs.dom()
                    &&& reply == ok_reply(strings_fields(names))
                };
            assert(reply == ok_reply(strings_fields(names)));
        },
        _ => {},
    }
}

proof fn lemma_kv_reply(before: DbView, now: DbView, c: CommandView, reply: Seq<u8>)
    requires
        answers_kv(before, now, c, reply),
    ensures
        is_ok_reply(reply) || is_err_reply(reply),
{
    match c {
        CommandView::Keys { db } => {
            let keys = choose|keys: Seq<Seq<char>>|
                {
                    &&& keys.no_duplicates()
                    &&& #[trigger] keys.to_set() == db_of(before.kv, db).dom()
                    &&& reply == ok_reply(strings_fields(keys))
                };
            assert(reply == ok_reply(strings_fields(keys)));
        },
        CommandView::GetKey { db, key } => {
            assert(answers_get(before, now, db, key, reply));
        },
        _ => {},
    }
}

/// A group that a client creates is there, with no entries, and is not created twice. One that a
/// client drops is gone, and is not dropped twice. No other group is touched by either.
#[verifier::rlimit(50)]
pub proof fn law_served_group_is_made_and_dropped(
    before: DbView,
    now: DbView,
    name: Seq<char>,
    reply: Seq<u8>,
    other: Seq<char>,
    id: u64,
)
    requires
        other != name,
    ensures
        answers(before, now, CommandView::CreateGroup { name }, reply) ==> {
            &&& now.logs.contains_key(name)
            &&& reply == ok_reply(Seq::empty()) || before.logs.contains_key(name)
            &&& before.logs.contains_key(name) ==> now == before && reply == err_reply(
                "failed to create group: group '"@ + name + "' already exists"@,
            )
            &&& !before.logs.contains_key(name) ==> !now.logs[name].entries.contains_key(id)
                && now.logs[name].next_id == 1
            &&& now.logs.contains_key(other) == before.logs.contains_key(other)
            &&& now.logs[other] == before.logs[other]
        },
        answers(before, now, CommandView::DropGroup { name }, reply) ==> {
            &&& !now.logs.contains_key(name)
            &&& reply == ok_reply(Seq::empty()) || !before.logs.contains_key(name)
            &&& !before.logs.contains_key(name) ==> now == before && reply == err_reply(
                "failed to drop group: group '"@ + name + "' not found"@,
            )
            &&& now.logs.contains_key(other) == before.logs.contains_key(other)
            &&& now.logs[other] == before.logs[other]
        },
{
    reveal_strlit("failed to create group: group '");
    reveal_strlit("failed to create group: ");
    reveal_strlit("failed to drop group: group '");
    reveal_strlit("failed to drop group: ");
    reveal_strlit("group '");
    assert("failed to create group: "@ + ("group '"@ + name + "' already exists"@)
        =~= "failed to create group: group '"@ + name + "' already exists"@);
    assert("failed to drop group: "@ + ("group '"@ + name + "' not found"@)
        =~= "failed to drop group: group '"@ + name + "' not found"@);
}

/// A client that appends a range is told the ids of its first entry and of its last. The next client
/// that reads the range of those ids is told the entries, in order, each with its id.
#[verifier::rlimit(50)]
pub proof fn law_served_range_is_read(
    before: DbView,
    between: DbView,
    after: DbView,
    group: Seq<char>,
    entries: Seq<(u64, Seq<u8>)>,
    first: Seq<u8>,
    second: Seq<u8>,
)
    requires
        before.logs.contains_key(group),
        entries.len() > 0,
        taken(before.logs[group], entries) == entries.len(),
        before.logs[group].next_id + entries.len() <= u64::MAX,
        answers(before, between, CommandView::AddRange { group, entries }, first),
        answers(
            between,
            after,
            CommandView::ReadRange {
                group,
                start: before.logs[group].next_id,
                end: (before.logs[group].next_id + entries.len() - 1) as u64,
            },
            second,
        ),
    ensures
        ({
            let id = before.logs[group].next_id;
            let items = Seq::new(
                entries.len(),
                |i: int| ((id + i) as u64, entries[i].0, entries[i].1),
            );
            &&& first == ok_reply(
                le_bytes(id as nat, 8) + le_bytes((id + entries.len() - 1) as nat, 8),
            )
            &&& second == ok_reply(entries_fields(items))
            &&& between.logs[group].next_id == id + entries.len()
            &&& after == between
        }),
{
    let log = before.logs[group];
    crate::groups::law_group_range_then_read(log, entries);
    crate::groups::law_group_range_ids(log, entries, 0, (log.next_id + entries.len()) as u64);
    assert(entries.take(entries.len() as int) =~= entries);
    let some = entries.drop_last();
    if some.len() > 0 {
        crate::groups::law_group_range_ids(log, some, 0, (log.next_id + some.len()) as u64);
    } else {
        assert(pushed_all(log, some) == log);
    }
}

/// A client that reads a range of a group is told the entries whose ids are in it, and no others, in
/// the order of their ids. One that reads an id is told the entry with that id, or that there is none.
#[verifier::rlimit(50)]
pub proof fn law_served_range(
    before: DbView,
    now: DbView,
    group: Seq<char>,
    start: u64,
    end: u64,
    reply: Seq<u8>,
)
    requires
        before.logs.contains_key(group),
        before.logs[group].wf(),
        before.logs[group].keeps_ids(),
        answers(before, now, CommandView::ReadRange { group, start, end }, reply),
    ensures
        now == before,
        exists|items: Seq<(u64, u64, Seq<u8>)>|
            {
                &&& reply == ok_reply(#[trigger] entries_fields(items))
                &&& forall|id: u64|
                    #![trigger before.logs[group].entries[id]]
                    before.logs[group].entries.contains_key(id) && start <= id <= end
                        ==> items.contains(before.logs[group].entries[id].triple())
                &&& forall|i: int|
                    0 <= i < items.len() ==> {
                        let e = #[trigger] items[i];
                        &&& start <= e.0 <= end
                        &&& before.logs[group].entries.contains_key(e.0)
                        &&& e == before.logs[group].entries[e.0].triple()
                    }
                &&& forall|i: int, j: int|
                    0 <= i < j < items.len() ==> (#[trigger] items[i]).0 < (#[trigger] items[j]).0
            },
{
    let log = before.logs[group];
    let items = log.range(start, end);
    assert(reply == ok_reply(entries_fields(items)));
    assert forall|id: u64|
        #![trigger before.logs[group].entries[id]]
        before.logs[group].entries.contains_key(id) && start <= id <= end implies items.contains(
        before.logs[group].entries[id].triple(),
    ) by {
        crate::groups::law_group_range(log, start, end, id, 0, 0);
    }
    assert forall|i: int| 0 <= i < items.len() implies {
        let e = #[trigger] items[i];
        &&& start <= e.0 <= end
        &&& before.logs[group].entries.contains_key(e.0)
        &&& e == before.logs[group].entries[e.0].triple()
    } by {
        crate::groups::law_group_range(log, start, end, 0, i, i);
    }
    assert forall|i: int, j: int| 0 <= i < j < items.len() implies (#[trigger] items[i]).0 < (
    #[trigger] items[j]).0 by {
        crate::groups::law_group_range(log, start, end, 0, i, j);
    }
}

/// Once a client has removed the entries of a group up to an id, a client that reads an id below it is
/// told that there is no entry. One that reads another id of an orderly group is told what it would
/// have been told before.
#[verifier::rlimit(50)]
pub proof fn law_served_removal(
    before: DbView,
    between: DbView,
    after: DbView,
    group: Seq<char>,
    up_to_id: u64,
    id: u64,
    first: Seq<u8>,
    second: Seq<u8>,
    unremoved: Seq<u8>,
)
    requires
        before.logs.contains_key(group),
        before.logs[group].wf(),
        before.logs[group].orderly(),
        answers(before, between, CommandView::Remove { group, up_to_id }, first),
        answers(between, after, CommandView::Read { group, id }, second),
        answers(before, before, CommandView::Read { group, id }, unremoved),
    ensures
        first == ok_reply(Seq::empty()),
        id < up_to_id ==> second == err_reply(
            "failed to read from log: "@ + ("log error: "@
                + crate::seg_log::LogError::EntryNotFound.text()),
        ),
        id >= up_to_id ==> second == unremoved,
{
    crate::seg_log::law_log_trim_keeps(before.logs[group], up_to_id, id);
}

/// One more entry counts one more in what is told of a group.
#[verifier::rlimit(50)]
pub proof fn law_served_stats(
    before: DbView,
    between: DbView,
    after: DbView,
    group: Seq<char>,
    timestamp: u64,
    payload: Seq<u8>,
    first: Seq<u8>,
    second: Seq<u8>,
)
    requires
        before.logs.contains_key(group),
        before.logs[group].takes(payload),
        before.logs[group].next_id < u64::MAX,
        before.logs[group].count < u64::MAX,
        answers(before, between, CommandView::Add { group, timestamp, payload }, first),
        answers(between, after, CommandView::GroupStats { group }, second),
    ensures
        after == between,
        second == ok_reply(
            stats_fields(
                (before.logs[group].count + 1) as u64,
                between.logs[group].segs,
                (before.logs[group].next_id + 1) as u64,
            ),
        ),
{
}

/// A client that asks for the groups is told each of them once. So is one that asks for the keys of a
/// database.
#[verifier::rlimit(50)]
pub proof fn law_served_names(
    before: DbView,
    now: DbView,
    db: Seq<char>,
    reply: Seq<u8>,
)
    ensures
        answers(before, now, CommandView::ListGroups, reply) ==> now == before && exists|
            names: Seq<Seq<char>>,
        |
            {
                &&& reply == ok_reply(#[trigger] strings_fields(names))
                &&& forall|i: int, j: int|
                    0 <= i < j < names.len() ==> #[trigger] names[i] != #[trigger] names[j]
                &&& forall|name: Seq<char>| #[trigger]
                    names.contains(name) <==> before.logs.contains_key(name)
            },
        answers(before, now, CommandView::Keys { db }, reply) ==> now == before && exists|
            names: Seq<Seq<char>>,
        |
            {
                &&& reply == ok_reply(#[trigger] strings_fields(names))
                &&& forall|i: int, j: int|
                    0 <= i < j < names.len() ==> #[trigger] names[i] != #[trigger] names[j]
                &&& forall|name: Seq<char>| #[trigger]
                    names.contains(name) <==> db_of(before.kv, db).contains_key(name)
            },
{
    if answers(before, now, CommandView::ListGroups, reply) {
        let names = choose|names: Seq<Seq<char>>|
            {
                &&& names.no_duplicates()
                &&& #[trigger] names.to_set() == before.logs.dom()
                &&& reply == ok_reply(strings_fields(names))
            };
        assert forall|name: Seq<char>| #[trigger]
            names.contains(name) <==> before.logs.contains_key(name) by {
            assert(names.to_set().contains(name) == before.logs.dom().contains(name));
        }
        assert(reply == ok_reply(strings_fields(names)));
    }
    if answers(before, now, CommandView::Keys { db }, reply) {
        let names = choose|names: Seq<Seq<char>>|
            {
                &&& names.no_duplicates()
                &&& #[trigger] names.to_set() == db_of(before.kv, db).dom()
                &&& reply == ok_reply(strings_fields(names))
            };
        assert forall|name: Seq<char>| #[trigger]
            names.contains(name) <==> db_of(before.kv, db).contains_key(name) by {
            assert(names.to_set().contains(name) == db_of(before.kv, db).dom().contains(name));
        }
        assert(reply == ok_reply(strings_fields(names)));
    }
}

/// A key that a client has deleted, and any key of a database that a client has flushed, is told to no
/// client that gets it next. A deletion succeeds where the key is there.
#[verifier::rlimit(50)]
pub proof fn law_served_key_is_gone(
    before: DbView,
    between: DbView,
    after: DbView,
    db: Seq<char>,
    key: Seq<char>,
    first: Seq<u8>,
    second: Seq<u8>,
)
    requires
        answers(before, between, CommandView::DelKey { db, key }, first) || answers(
            before,
            between,
            CommandView::Flush { db },
            first,
        ),
        answers(between, after, CommandView::GetKey { db, key }, second),
    ensures
        second == ok_reply(Seq::empty()),
        db_of(before.kv, db).contains_key(key) ==> first == ok_reply(Seq::empty()),
        !db_of(after.kv, db).contains_key(key),
{
    assert(!db_of(between.kv, db).contains_key(key));
    assert(answers_get(between, after, db, key, second));
}

/// A read of one key by a client changes no other key, nor a group, nor a list, and logs nothing.
#[verifier::rlimit(50)]
pub proof fn law_served_read_keeps_the_rest(
    before: DbView,
    after: DbView,
    db: Seq<char>,
    key: Seq<char>,
    reply: Seq<u8>,
    other: Seq<char>,
)
    requires
        answers(before, after, CommandView::GetKey { db, key }, reply),
        other != key,
    ensures
        db_of(after.kv, db).contains_key(other) == db_of(before.kv, db).contains_key(other),
        db_of(before.kv, db).contains_key(other) ==> db_of(after.kv, db)[other] == db_of(
            before.kv,
            db,
        )[other],
        after.logs == before.logs && after.lists == before.lists,
        after.aof == before.aof && after.events == before.events,
{
    assert(answers_get(before, after, db, key, reply));
    let (t, used) = choose|t: i64, used: i64|
        {
            &&& after == before.with_kv(#[trigger] kv_after_read(before.kv, db, key, t, used))
            &&& reply == (match kv_found(before.kv, db, key, t, used) {
                Some(item) => ok_reply(enc_bytes(item.val)),
                None => ok_reply(Seq::empty()),
            })
        };
    crate::kv::law_kv_read_touches_one_key(before.kv, db, key, t, used, other);
}

/// Items that a client pushes to a list, at once, stand behind those that were there, in order. The
/// next client that asks for the length is told how many there are. One that pops as many as are
/// there is told all of them, those that were there first, and leaves none.
#[verifier::rlimit(50)]
pub proof fn law_served_items_are_popped(
    before: DbView,
    between: DbView,
    after: DbView,
    key: Seq<char>,
    vals: Seq<Seq<u8>>,
    count: u32,
    first: Seq<u8>,
    second: Seq<u8>,
)
    requires
        fitting(vals) == vals.len(),
        answers(before, between, CommandView::LPushRange { key, vals }, first),
        count == items_of(before.lists, key).len() + vals.len(),
        count <= usize::MAX,
    ensures
        first == ok_reply(Seq::empty()),
        items_of(between.lists, key) == items_of(before.lists, key) + vals,
        answers(between, after, CommandView::LLen { key }, second) ==> second == ok_reply(
            le_bytes(count as nat, 8),
        ) && items_of(after.lists, key) == items_of(before.lists, key) + vals,
        answers(between, after, CommandView::LPopCount { key, count }, second) && (vals.len() > 0
            || before.lists.contains_key(key)) ==> second == ok_reply(
            bytes_list_fields(items_of(before.lists, key) + vals),
        ) && items_of(after.lists, key).len() == 0,
{
    let all = items_of(before.lists, key) + vals;
    assert(vals.take(vals.len() as int) =~= vals);
    assert(items_of(between.lists, key) =~= all);
    assert(all.take(count as int) =~= all);
}

/// A client that pops a range of a list is told the items of the range, in order, and the others stay,
/// in order. The next client that pops the first item is told the first that stayed.
#[verifier::rlimit(50)]
pub proof fn law_served_pops(
    before: DbView,
    now: DbView,
    key: Seq<char>,
    start: u32,
    end: u32,
    count: u32,
    reply: Seq<u8>,
)
    requires
        before.lists.contains_key(key),
        start <= end <= before.lists[key].len(),
        count <= before.lists[key].len(),
        before.lists[key].len() > 0,
    ensures
        answers(before, now, CommandView::LPopRange { key, start, end }, reply) ==> {
            &&& reply == ok_reply(
                bytes_list_fields(
                    Seq::new((end - start) as nat, |i: int| before.lists[key][start + i]),
                ),
            )
            &&& now.lists[key] == before.lists[key].take(start as int) + before.lists[key].skip(
                end as int,
            )
        },
        answers(before, now, CommandView::LPopCount { key, count }, reply) ==> {
            &&& reply == ok_reply(
                bytes_list_fields(Seq::new(count as nat, |i: int| before.lists[key][i])),
            )
            &&& now.lists[key] == before.lists[key].skip(count as int)
        },
        answers(before, now, CommandView::LPop { key }, reply) ==> {
            &&& reply == ok_reply(enc_bytes(before.lists[key][0]))
            &&& now.lists[key] == before.lists[key].skip(1)
        },
        answers(before, now, CommandView::LFlush { key }, reply) ==> {
            &&& reply == ok_reply(Seq::empty())
            &&& now.lists.contains_key(key) && now.lists[key].len() == 0
        },
{
    let items = before.lists[key];
    assert(items.subrange(start as int, end as int) =~= Seq::new(
        (end - start) as nat,
        |i: int| items[start + i],
    ));
    assert(items.take(count as int) =~= Seq::new(count as nat, |i: int| items[i]));
    if answers(before, now, CommandView::LPopRange { key, start, end }, reply) {
        assert(now.lists[key] =~= items.take(start as int) + items.skip(end as int));
    }
    if answers(before, now, CommandView::LPopCount { key, count }, reply) {
        assert(now.lists[key] =~= items.skip(count as int));
    }
    if answers(before, now, CommandView::LPop { key }, reply) {
        assert(now.lists[key] =~= items.skip(1));
    }
}

/// What a client asks of a list that there is not, and more than there is of one, is refused, and
/// changes nothing.
#[verifier::rlimit(50)]
pub proof fn law_served_list_is_missed(
    before: DbView,
    now: DbView,
    key: Seq<char>,
    start: u32,
    end: u32,
    count: u32,
    reply: Seq<u8>,
)
    requires
        ({
            ||| answers(before, now, CommandView::LPop { key }, reply) && !before.lists.contains_key(
                key,
            )
            ||| answers(before, now, CommandView::LPopCount { key, count }, reply)
                && !before.lists.contains_key(key)
            ||| answers(before, now, CommandView::LFlush { key }, reply)
                && !before.lists.contains_key(key)
            ||| answers(before, now, CommandView::LPopRange { key, start, end }, reply) && (
            !before.lists.contains_key(key) || end > before.lists[key].len())
        }),
    ensures
        now == before,
        is_err_reply(reply),
{
}

/// A frame that encodes a command is parsed as that command.
#[verifier::rlimit(50)]
proof fn lemma_parsed(c: CommandView, frame: Seq<u8>, body: &[u8], r: Result<Command<'_>, ParseError>)
    requires
        command_fits(c),
        frame == encode_command(c, Seq::empty()),
        body@ == frame,
        call_ensures(parse_command, (body,), r),
    ensures
        r matches Ok(got) && got@ == c,
{
    assert(encode_utf8(Seq::empty()).len() == 0);
    law_parse_encoded_command(c, Seq::empty(), Seq::empty());
    assert(frame + Seq::<u8>::empty() =~= frame);
}

/// A client that creates a group asks the server for that.
#[verifier::rlimit(50)]
pub proof fn law_create_request_arrives(
    name: &str,
    frame: Vec<u8>,
    body: &[u8],
    r: Result<Command<'_>, ParseError>,
)
    requires
        call_ensures(create_group_frame, (name,), frame),
        call_ensures(parse_command, (body,), r),
        body@ == frame@,
        str_fits(name@),
    ensures
        r matches Ok(Command::CreateGroup { name: n }) && n@ == name@,
{
    lemma_parsed(CommandView::CreateGroup { name: name@ }, frame@, body, r);
}

/// A client that drops a group asks the server for that.
#[verifier::rlimit(50)]
pub proof fn law_drop_request_arrives(
    name: &str,
    frame: Vec<u8>,
    body: &[u8],
    r: Result<Command<'_>, ParseError>,
)
    requires
        call_ensures(drop_group_frame, (name,), frame),
        call_ensures(parse_command, (body,), r),
        body@ == frame@,
        str_fits(name@),
    ensures
        r matches Ok(Command::DropGroup { name: n }) && n@ == name@,
{
    lemma_parsed(CommandView::DropGroup { name: name@ }, frame@, body, r);
}

/// A client that asks for the statistics of a group asks the server for those.
#[verifier::rlimit(50)]
pub proof fn law_stats_request_arrives(
    name: &str,
    frame: Vec<u8>,
    body: &[u8],
    r: Result<Command<'_>, ParseError>,
)
    requires
        call_ensures(group_stats_frame, (name,), frame),
        call_ensures(parse_command, (body,), r),
        body@ == frame@,
        str_fits(name@),
    ensures
        r matches Ok(Command::GroupStats { group: n }) && n@ == name@,
{
    lemma_parsed(CommandView::GroupStats { group: name@ }, frame@, body, r);
}

/// A client that asks for the groups asks the server for those.
#[verifier::rlimit(50)]
pub proof fn law_groups_request_arrives(
    frame: Vec<u8>,
    body: &[u8],
    r: Result<Command<'_>, ParseError>,
)
    requires
        call_ensures(list_groups_frame, (), frame),
        call_ensures(parse_command, (body,), r),
        body@ == frame@,
    ensures
        r matches Ok(Command::ListGroups),
{
    lemma_parsed(CommandView::ListGroups, frame@, body, r);
}

/// A client that reads an entry asks the server for the entry with that id.
#[verifier::rlimit(50)]
pub proof fn law_read_request_arrives(
    name: &str,
    a: u64,
    frame: Vec<u8>,
    body: &[u8],
    r: Result<Command<'_>, ParseError>,
)
    requires
        call_ensures(read_frame, (name, a), frame),
        call_ensures(parse_command, (body,), r),
        body@ == frame@,
        str_fits(name@),
    ensures
        r matches Ok(Command::Read { group: n, id }) && n@ == name@ && id == a,
{
    lemma_parsed(CommandView::Read { group: name@, id: a }, frame@, body, r);
}

/// A client that removes entries asks the server to remove those up to that id.
#[verifier::rlimit(50)]
pub proof fn law_remove_request_arrives(
    name: &str,
    a: u64,
    frame: Vec<u8>,
    body: &[u8],
    r: Result<Command<'_>, ParseError>,
)
    requires
        call_ensures(remove_frame, (name, a), frame),
        call_ensures(parse_command, (body,), r),
        body@ == frame@,
        str_fits(name@),
    ensures
        r matches Ok(Command::Remove { group: n, up_to_id }) && n@ == name@ && up_to_id == a,
{
    lemma_parsed(CommandView::Remove { group: name@, up_to_id: a }, frame@, body, r);
}

/// A client that reads a range asks the server for that range.
#[verifier::rlimit(50)]
pub proof fn law_range_request_arrives(
    name: &str,
    a: u64,
    b: u64,
    frame: Vec<u8>,
    body: &[u8],
    r: Result<Command<'_>, ParseError>,
)
    requires
        call_ensures(read_range_frame, (name, a, b), frame),
        call_ensures(parse_command, (body,), r),
        body@ == frame@,
        str_fits(name@),
    ensures
        r matches Ok(Command::ReadRange { group: n, start, end }) && n@ == name@ && start == a && end == b,
{
    lemma_parsed(CommandView::ReadRange { group: name@, start: a, end: b }, frame@, body, r);
}

/// A client that appends an entry asks the server to append that entry.
#[verifier::rlimit(50)]
pub proof fn law_add_request_arrives(
    name: &str,
    a: u64,
    payload: &[u8],
    frame: Vec<u8>,
    body: &[u8],
    r: Result<Command<'_>, ParseError>,
)
    requires
        call_ensures(add_frame, (name, a, payload), frame),
        call_ensures(parse_command, (body,), r),
        body@ == frame@,
        str_fits(name@),
        bytes_fit(payload@),
    ensures
        r matches Ok(Command::Add { group: n, timestamp, payload: got }) && n@ == name@ && timestamp == a && got@
            == payload@,
{
    lemma_parsed(CommandView::Add { group: name@, timestamp: a, payload: payload@ }, frame@, body, r);
}

/// A client that appends entries asks the server to append those, in order.
#[verifier::rlimit(50)]
pub proof fn law_add_range_request_arrives(
    name: &str,
    entries: &[(u64, &[u8])],
    i: int,
    frame: Vec<u8>,
    body: &[u8],
    r: Result<Command<'_>, ParseError>,
)
    requires
        call_ensures(add_range_frame, (name, entries), frame),
        call_ensures(parse_command, (body,), r),
        body@ == frame@,
        command_fits(CommandView::AddRange { group: name@, entries: stamped_view(entries@) }),
        0 <= i < entries@.len(),
    ensures
        r matches Ok(Command::AddRange { group: n, entries: got }) && n@ == name@ && got@.len()
            == entries@.len() && got@[i].0 == entries@[i].0 && got@[i].1@ == entries@[i].1@,
{
    lemma_parsed(CommandView::AddRange { group: name@, entries: stamped_view(entries@) }, frame@, body, r);
    let got = (r->Ok_0)->AddRange_entries@;
    assert(stamped_view(got).len() == stamped_view(entries@).len());
    assert(stamped_view(got)[i] == stamped_view(entries@)[i]);
}

/// A client that sets a key asks the server to set it to that value, with that time to live.
#[verifier::rlimit(50)]
pub proof fn law_set_request_arrives(
    db: &str,
    key: &str,
    val: &[u8],
    secs: u64,
    frame: Vec<u8>,
    body: &[u8],
    r: Result<Command<'_>, ParseError>,
)
    requires
        call_ensures(kv_set_frame, (db, key, val, secs), frame),
        call_ensures(parse_command, (body,), r),
        body@ == frame@,
        str_fits(db@),
        str_fits(key@),
        bytes_fit(val@),
    ensures
        r matches Ok(Command::SetKey { db: d, key: k, val: v, ttl_secs }) && d@ == db@ && k@ == key@
            && v@ == val@ && ttl_secs == secs,
{
    lemma_parsed(CommandView::SetKey { db: db@, key: key@, val: val@, ttl_secs: secs }, frame@, body, r);
}

/// A client that gets a key asks the server for that key.
#[verifier::rlimit(50)]
pub proof fn law_get_request_arrives(
    db: &str,
    key: &str,
    frame: Vec<u8>,
    body: &[u8],
    r: Result<Command<'_>, ParseError>,
)
    requires
        call_ensures(kv_get_frame, (db, key), frame),
        call_ensures(parse_command, (body,), r),
        body@ == frame@,
        str_fits(db@),
        str_fits(key@),
    ensures
        r matches Ok(Command::GetKey { db: d, key: k }) && d@ == db@ && k@ == key@,
{
    lemma_parsed(CommandView::GetKey { db: db@, key: key@ }, frame@, body, r);
}

/// A client that deletes a key asks the server to delete that key.
#[verifier::rlimit(50)]
pub proof fn law_del_request_arrives(
    db: &str,
    key: &str,
    frame: Vec<u8>,
    body: &[u8],
    r: Result<Command<'_>, ParseError>,
)
    requires
        call_ensures(kv_del_frame, (db, key), frame),
        call_ensures(parse_command, (body,), r),
        body@ == frame@,
        str_fits(db@),
        str_fits(key@),
    ensures
        r matches Ok(Command::DelKey { db: d, key: k }) && d@ == db@ && k@ == key@,
{
    lemma_parsed(CommandView::DelKey { db: db@, key: key@ }, frame@, body, r);
}

/// A client that asks for the keys of a database asks the server for those.
#[verifier::rlimit(50)]
pub proof fn law_keys_request_arrives(
    db: &str,
    frame: Vec<u8>,
    body: &[u8],
    r: Result<Command<'_>, ParseError>,
)
    requires
        call_ensures(kv_keys_frame, (db,), frame),
        call_ensures(parse_command, (body,), r),
        body@ == frame@,
        str_fits(db@),
    ensures
        r matches Ok(Command::Keys { db: d }) && d@ == db@,
{
    lemma_parsed(CommandView::Keys { db: db@ }, frame@, body, r);
}

/// A client that flushes a database asks the server to flush it.
#[verifier::rlimit(50)]
pub proof fn law_flush_request_arrives(
    db: &str,
    frame: Vec<u8>,
    body: &[u8],
    r: Result<Command<'_>, ParseError>,
)
    requires
        call_ensures(kv_flush_frame, (db,), frame),
        call_ensures(parse_command, (body,), r),
        body@ == frame@,
        str_fits(db@),
    ensures
        r matches Ok(Command::Flush { db: d }) && d@ == db@,
{
    lemma_parsed(CommandView::Flush { db: db@ }, frame@, body, r);
}

/// A client that pushes an item to a list asks the server to push that item.
#[verifier::rlimit(50)]
pub proof fn law_push_request_arrives(
    key: &str,
    val: &[u8],
    frame: Vec<u8>,
    body: &[u8],
    r: Result<Command<'_>, ParseError>,
)
    requires
        call_ensures(l_push_frame, (key, val), frame),
        call_ensures(parse_command, (body,), r),
        body@ == frame@,
        str_fits(key@),
        bytes_fit(val@),
    ensures
        r matches Ok(Command::LPush { key: k, val: v }) && k@ == key@ && v@ == val@,
{
    lemma_parsed(CommandView::LPush { key: key@, val: val@ }, frame@, body, r);
}

/// A client that pushes items to a list asks the server to push those, in order.
#[verifier::rlimit(50)]
pub proof fn law_push_range_request_arrives(
    key: &str,
    vals: &[Vec<u8>],
    i: int,
    frame: Vec<u8>,
    body: &[u8],
    r: Result<Command<'_>, ParseError>,
)
    requires
        call_ensures(l_push_range_frame, (key, vals), frame),
        call_ensures(parse_command, (body,), r),
        body@ == frame@,
        command_fits(CommandView::LPushRange { key: key@, vals: vecs_view(vals@) }),
        0 <= i < vals@.len(),
    ensures
        r matches Ok(Command::LPushRange { key: k, vals: got }) && k@ == key@ && got@.len() == vals@.len()
            && got@[i]@ == vals@[i]@,
{
    lemma_parsed(CommandView::LPushRange { key: key@, vals: vecs_view(vals@) }, frame@, body, r);
    let got = (r->Ok_0)->LPushRange_vals@;
    assert(slices_view(got).len() == vecs_view(vals@).len());
    assert(slices_view(got)[i] == vecs_view(vals@)[i]);
}

/// A client that pops the first item of a list asks the server for that.
#[verifier::rlimit(50)]
pub proof fn law_pop_request_arrives(
    key: &str,
    frame: Vec<u8>,
    body: &[u8],
    r: Result<Command<'_>, ParseError>,
)
    requires
        call_ensures(l_pop_frame, (key,), frame),
        call_ensures(parse_command, (body,), r),
        body@ == frame@,
        str_fits(key@),
    ensures
        r matches Ok(Command::LPop { key: k }) && k@ == key@,
{
    lemma_parsed(CommandView::LPop { key: key@ }, frame@, body, r);
}

/// A client that pops a range of a list asks the server for that range.
#[verifier::rlimit(50)]
pub proof fn law_pop_range_request_arrives(
    key: &str,
    a: u32,
    b: u32,
    frame: Vec<u8>,
    body: &[u8],
    r: Result<Command<'_>, ParseError>,
)
    requires
        call_ensures(l_pop_range_frame, (key, a, b), frame),
        call_ensures(parse_command, (body,), r),
        body@ == frame@,
        str_fits(key@),
    ensures
        r matches Ok(Command::LPopRange { key: k, start, end }) && k@ == key@ && start == a && end == b,
{
    lemma_parsed(CommandView::LPopRange { key: key@, start: a, end: b }, frame@, body, r);
}

/// A client that pops a number of items asks the server for that number.
#[verifier::rlimit(50)]
pub proof fn law_pop_count_request_arrives(
    key: &str,
    a: u32,
    frame: Vec<u8>,
    body: &[u8],
    r: Result<Command<'_>, ParseError>,
)
    requires
        call_ensures(l_pop_count_frame, (key, a), frame),
        call_ensures(parse_command, (body,), r),
        body@ == frame@,
        str_fits(key@),
    ensures
        r matches Ok(Command::LPopCount { key: k, count }) && k@ == key@ && count == a,
{
    lemma_parsed(CommandView::LPopCount { key: key@, count: a }, frame@, body, r);
}

/// A client that asks for the length of a list asks the server for that.
#[verifier::rlimit(50)]
pub proof fn law_len_request_arrives(
    key: &str,
    frame: Vec<u8>,
    body: &[u8],
    r: Result<Command<'_>, ParseError>,
)
    requires
        call_ensures(l_len_frame, (key,), frame),
        call_ensures(parse_command, (body,), r),
        body@ == frame@,
        str_fits(key@),
    ensures
        r matches Ok(Command::LLen { key: k }) && k@ == key@,
{
    lemma_parsed(CommandView::LLen { key: key@ }, frame@, body, r);
}

/// A client that flushes a list asks the server to flush it.
#[verifier::rlimit(50)]
pub proof fn law_list_flush_request_arrives(
    key: &str,
    frame: Vec<u8>,
    body: &[u8],
    r: Result<Command<'_>, ParseError>,
)
    requires
        call_ensures(l_flush_frame, (key,), frame),
        call_ensures(parse_command, (body,), r),
        body@ == frame@,
        str_fits(key@),
    ensures
        r matches Ok(Command::LFlush { key: k }) && k@ == key@,
{
    lemma_parsed(CommandView::LFlush { key: key@ }, frame@, body, r);
}

/// What the server tells is what the client reads: a number, two numbers, statistics, an entry, a value,
/// each in its place, and that a request was done.
#[verifier::rlimit(50)]
pub proof fn law_told_is_read(
    rb: &mut ResponseBuilder,
    a: u64,
    b: u64,
    segments: usize,
    payload: &[u8],
    reply: &[u8],
    body: &[u8],
    number: Option<Result<u64, String>>,
    pair: Option<Result<(u64, u64), String>>,
    stats: Option<Result<(u64, u32, u64), String>>,
    entry: Option<Result<(u64, u64, Vec<u8>), String>>,
    value: Option<Result<Option<Vec<u8>>, String>>,
    done: Result<(), String>,
)
    requires
        body@ == reply@.skip(4),
        bytes_fit(payload@),
        segments < 0x1_0000_0000,
        call_ensures(read_u64, (body,), number),
        call_ensures(read_u64_pair, (body,), pair),
        call_ensures(read_stats, (body,), stats),
        call_ensures(read_entry, (body,), entry),
        call_ensures(read_value, (body,), value),
        call_ensures(check_status, (body,), done),
    ensures
        call_ensures(ResponseBuilder::ok_empty, (rb,), reply) ==> done is Ok && (value matches Some(
            Ok(None),
        )),
        call_ensures(ResponseBuilder::ok_u64, (rb, a), reply) ==> number == Some(
            Ok::<u64, String>(a),
        ),
        call_ensures(ResponseBuilder::ok_u64_pair, (rb, a, b), reply) ==> pair == Some(
            Ok::<(u64, u64), String>((a, b)),
        ),
        call_ensures(ResponseBuilder::ok_stats, (rb, a, segments, b), reply) ==> stats == Some(
            Ok::<(u64, u32, u64), String>((a, segments as u32, b)),
        ),
        call_ensures(ResponseBuilder::ok_entry, (rb, a, b, payload), reply) ==> (entry matches Some(
            Ok(e),
        ) && e.0 == a && e.1 == b && e.2@ == payload@),
        call_ensures(ResponseBuilder::ok_bytes, (rb, payload), reply) && payload@.len() > 0 ==> (
        value matches Some(Ok(Some(v))) && v@ == payload@),
{
    lemma_le_limits();
    if call_ensures(ResponseBuilder::ok_empty, (rb,), reply) {
        lemma_body(Seq::empty());
        law_client_reads_value(payload@);
    }
    if call_ensures(ResponseBuilder::ok_u64, (rb, a), reply) {
        lemma_body(le_bytes(a as nat, 8));
        law_client_reads_numbers(a, b, 0);
    }
    if call_ensures(ResponseBuilder::ok_u64_pair, (rb, a, b), reply) {
        lemma_body(le_bytes(a as nat, 8) + le_bytes(b as nat, 8));
        law_client_reads_numbers(a, b, 0);
    }
    if call_ensures(ResponseBuilder::ok_stats, (rb, a, segments, b), reply) {
        lemma_body(stats_fields(a, segments as nat, b));
        law_client_reads_numbers(a, b, segments as u32);
    }
    if call_ensures(ResponseBuilder::ok_entry, (rb, a, b, payload), reply) {
        lemma_body(enc_entry((a, b, payload@)));
        law_client_reads_entry((a, b, payload@));
    }
    if call_ensures(ResponseBuilder::ok_bytes, (rb, payload), reply) {
        lemma_body(enc_bytes(payload@));
        law_client_reads_value(payload@);
    }
}

/// The body of a reply stands behind its length.
proof fn lemma_body(fields: Seq<u8>)
    ensures
        ok_reply(fields).skip(4) == ok_body(fields),
        status_in(ok_body(fields)) == Ok::<(), Seq<char>>(()),
{
    broadcast use lemma_le_bytes_len;

    assert(ok_reply(fields).skip(4) =~= ok_body(fields));
}

/// Entries, names and items that the server tells are what the client reads, one for one and in order.
#[verifier::rlimit(50)]
pub proof fn law_told_lists_are_read(
    rb: &mut ResponseBuilder,
    entries: &[(u64, u64, Vec<u8>)],
    names: &[String],
    groups: Vec<String>,
    items: &[Vec<u8>],
    reply: &[u8],
    body: &[u8],
    read: Option<Result<Vec<(u64, u64, Vec<u8>)>, String>>,
    keys: Option<Result<Vec<String>, String>>,
    group_names: Option<Result<Vec<String>, String>>,
    values: Option<Result<Vec<Vec<u8>>, String>>,
    i: int,
)
    requires
        body@ == reply@.skip(4),
        entries@.len() < 0x1_0000_0000 && names@.len() < 0x1_0000_0000 && items@.len()
            < 0x1_0000_0000 && groups@.len() < 0x1_0000_0000,
        forall|j: int| 0 <= j < entries@.len() ==> bytes_fit((#[trigger] entries@[j]).2@),
        forall|j: int| 0 <= j < names@.len() ==> str_fits((#[trigger] names@[j])@),
        forall|j: int| 0 <= j < groups@.len() ==> str_fits((#[trigger] groups@[j])@),
        forall|j: int| 0 <= j < items@.len() ==> bytes_fit((#[trigger] items@[j])@),
        call_ensures(read_entries, (body,), read),
        call_ensures(read_keys, (body,), keys),
        call_ensures(read_groups, (body,), group_names),
        call_ensures(read_values, (body,), values),
    ensures
        call_ensures(ResponseBuilder::ok_entries, (rb, entries), reply) ==> (read matches Some(Ok(v))
            && v@.len() == entries@.len() && (0 <= i < v@.len() ==> v@[i].0 == entries@[i].0 && v@[i].1
            == entries@[i].1 && v@[i].2@ == entries@[i].2@)),
        call_ensures(ResponseBuilder::ok_string_list, (rb, names), reply) ==> (keys matches Some(Ok(v))
            && v@.len() == names@.len() && (0 <= i < v@.len() ==> v@[i]@ == names@[i]@)),
        call_ensures(ResponseBuilder::ok_group_list, (rb, groups), reply) ==> (
        group_names matches Some(Ok(v)) && v@.len() == groups@.len() && (0 <= i < v@.len() ==> v@[i]@
            == groups@[i]@)),
        call_ensures(ResponseBuilder::ok_bytes_list, (rb, items), reply) ==> (values matches Some(Ok(v))
            && v@.len() == items@.len() && (0 <= i < v@.len() ==> v@[i]@ == items@[i]@)),
{
    if call_ensures(ResponseBuilder::ok_entries, (rb, entries), reply) {
        let all = triples_view(entries@);
        assert forall|j: int| 0 <= j < all.len() implies bytes_fit((#[trigger] all[j]).2) by {
            assert(bytes_fit(entries@[j].2@));
        }
        lemma_body(entries_fields(all));
        law_client_reads_entries(all);
        let v = (read->0)->Ok_0@;
        assert(triples_view(v) == all);
        assert(triples_view(v).len() == v.len());
        if 0 <= i < v.len() {
            assert(triples_view(v)[i] == (v[i].0, v[i].1, v[i].2@));
        }
    }
    if call_ensures(ResponseBuilder::ok_string_list, (rb, names), reply) {
        let all = strings_view(names@);
        assert forall|j: int| 0 <= j < all.len() implies str_fits(#[trigger] all[j]) by {
            assert(str_fits(names@[j]@));
        }
        lemma_body(strings_fields(all));
        law_client_reads_texts(all);
        let v = (keys->0)->Ok_0@;
        assert(strings_view(v) == all);
        assert(strings_view(v).len() == v.len());
        if 0 <= i < v.len() {
            assert(strings_view(v)[i] == v[i]@);
        }
    }
    if call_ensures(ResponseBuilder::ok_group_list, (rb, groups), reply) {
        let all = strings_view(groups@);
        assert forall|j: int| 0 <= j < all.len() implies str_fits(#[trigger] all[j]) by {
            assert(str_fits(groups@[j]@));
        }
        lemma_body(strings_fields(all));
        law_client_reads_texts(all);
        let v = (group_names->0)->Ok_0@;
        assert(strings_view(v) == all);
        assert(strings_view(v).len() == v.len());
        if 0 <= i < v.len() {
            assert(strings_view(v)[i] == v[i]@);
        }
    }
    if call_ensures(ResponseBuilder::ok_bytes_list, (rb, items), reply) {
        let all = vecs_view(items@);
        assert forall|j: int| 0 <= j < all.len() implies bytes_fit(#[trigger] all[j]) by {
            assert(bytes_fit(items@[j]@));
        }
        lemma_body(bytes_list_fields(all));
        law_client_reads_values(all);
        let v = (values->0)->Ok_0@;
        assert(vecs_view(v) == all);
        assert(vecs_view(v).len() == v.len());
        if 0 <= i < v.len() {
            assert(vecs_view(v)[i] == v[i]@);
        }
    }
}

/// What the server refuses is refused to the client, with the message of the server, whatever was asked.
pub proof fn law_refusal_is_read(
    rb: &mut ResponseBuilder,
    msg: &str,
    reply: &[u8],
    body: &[u8],
    done: Result<(), String>,
    text: String,
)
    requires
        call_ensures(ResponseBuilder::err, (rb, msg), reply),
        call_ensures(check_status, (body,), done),
        call_ensures(extract_err, (body,), text),
        body@ == reply@.skip(4),
        msg@.len() > 0,
        str_fits(msg@),
    ensures
        done matches Err(m) && m@ == msg@,
        text@ == msg@,
{
    law_client_reads_status(msg@, Seq::empty());
}

/// A server that is asked to set a key, and then to get it, replies with the value as long as the wall
/// clock, as it is read for the get, has not gone further than the time to live from where it stood, as
/// it was read for the set. From then on it replies that there is none. Without a time to live it replies
/// with the value whatever the clock reads.
#[verifier::rlimit(50)]
pub proof fn law_handled_key_is_read(
    first: &mut DB,
    second: &mut DB,
    ps: &mut PipelineManager,
    qs: &mut PipelineManager,
    rb: &mut ResponseBuilder,
    sb: &mut ResponseBuilder,
    db: &str,
    key: &str,
    val: &[u8],
    ttl_secs: u64,
    setting: Handled,
    getting: Handled,
)
    requires
        call_ensures(
            handle_command,
            (first, ps, Command::SetKey { db, key, val, ttl_secs }, rb),
            setting,
        ),
        call_ensures(handle_command, (second, qs, Command::GetKey { db, key }, sb), getting),
        final(first)@ == old(second)@,
    ensures
        setting matches Handled::Reply(b) && b@ == ok_reply(Seq::empty()),
        final(first).clock().len() == old(first).clock().len() + 2,
        final(second).clock().len() == old(second).clock().len() + 2,
        getting is Reply,
        ttl_secs == 0 ==> (getting matches Handled::Reply(b) && b@ == ok_reply(enc_bytes(val@))),
        ({
            let set_at = final(first).clock()[old(first).clock().len() as int];
            let got_at = final(second).clock()[old(second).clock().len() as int];
            &&& is_reading(set_at) && is_reading(got_at)
            &&& 0 < ttl_secs && set_at + 1000 * ttl_secs <= i64::MAX ==> (
            getting matches Handled::Reply(b) && b@ == (if got_at <= set_at + 1000 * ttl_secs {
                ok_reply(enc_bytes(val@))
            } else {
                ok_reply(Seq::empty())
            }))
        }),
{
    let c = CommandView::SetKey { db: db@, key: key@, val: val@, ttl_secs };
    let g = CommandView::GetKey { db: db@, key: key@ };
    let a = (setting->Reply_0)@;
    let b = (getting->Reply_0)@;
    assert(answers(old(first)@, final(first)@, c, a));
    assert(answers(old(second)@, final(second)@, g, b));
    assert(by_the_clock(old(first)@, final(first)@, c, a, old(first).clock(), final(first).clock()));
    assert(by_the_clock(
        old(second)@,
        final(second)@,
        g,
        b,
        old(second).clock(),
        final(second).clock(),
    ));
    let (t, used) = choose|t: i64, used: i64|
        {
            &&& #[trigger] old(first)@.kv_wrote(
                final(first)@,
                AofView::KvSet { db: db@, key: key@, val: val@, ttl: millis(ttl_secs) },
                t,
                used,
            )
            &&& final(first).clock() == old(first).clock().push(t).push(used)
        };
    assert(final(first).clock()[old(first).clock().len() as int] == t);
    let (t2, used2) = choose|t2: i64, used2: i64|
        {
            &&& final(second)@ == old(second)@.with_kv(
                #[trigger] kv_after_read(old(second)@.kv, db@, key@, t2, used2),
            )
            &&& b == (match kv_found(old(second)@.kv, db@, key@, t2, used2) {
                Some(item) => ok_reply(enc_bytes(item.val)),
                None => ok_reply(Seq::empty()),
            })
            &&& is_reading(t2) && is_reading(used2)
            &&& final(second).clock() == old(second).clock().push(t2).push(used2)
        };
    assert(final(second).clock()[old(second).clock().len() as int] == t2);
    if ttl_secs == 0 {
        law_served_key_is_read(
            old(first)@,
            final(first)@,
            final(second)@,
            db@,
            key@,
            val@,
            a,
            b,
        );
    } else if t + 1000 * ttl_secs <= i64::MAX {
        law_served_key_expires(
            old(first)@,
            final(first)@,
            final(second)@,
            db@,
            key@,
            val@,
            ttl_secs,
            a,
            b,
            old(first).clock(),
            final(first).clock(),
            old(second).clock(),
            final(second).clock(),
        );
    }
}

/// A server that is asked to append an entry replies with the id that the group gives next, and one that
/// is then asked to read that id replies with the entry.
#[verifier::rlimit(50)]
pub proof fn law_handled_entry_is_read(
    first: &mut DB,
    second: &mut DB,
    ps: &mut PipelineManager,
    qs: &mut PipelineManager,
    rb: &mut ResponseBuilder,
    sb: &mut ResponseBuilder,
    group: &str,
    timestamp: u64,
    payload: &[u8],
    id: u64,
    adding: Handled,
    reading: Handled,
)
    requires
        call_ensures(
            handle_command,
            (first, ps, Command::Add { group, timestamp, payload }, rb),
            adding,
        ),
        call_ensures(handle_command, (second, qs, Command::Read { group, id }, sb), reading),
        final(first)@ == old(second)@,
        old(first)@.logs.contains_key(group@),
        old(first)@.logs[group@].takes(payload@),
        id == old(first)@.logs[group@].next_id,
    ensures
        adding matches Handled::Reply(b) && b@ == ok_reply(le_bytes(id as nat, 8)),
        reading matches Handled::Reply(b) && b@ == ok_reply(enc_entry((id, timestamp, payload@))),
{
    law_served_entry_is_read(
        old(first)@,
        final(first)@,
        final(second)@,
        group@,
        timestamp,
        payload@,
        (adding->Reply_0)@,
        (reading->Reply_0)@,
    );
}

/// A server that is asked to push an item to an empty list, and then to pop one, replies with the item.
#[verifier::rlimit(50)]
pub proof fn law_handled_item_is_popped(
    first: &mut DB,
    second: &mut DB,
    ps: &mut PipelineManager,
    qs: &mut PipelineManager,
    rb: &mut ResponseBuilder,
    sb: &mut ResponseBuilder,
    key: &str,
    val: &[u8],
    pushing: Handled,
    popping: Handled,
)
    requires
        call_ensures(handle_command, (first, ps, Command::LPush { key, val }, rb), pushing),
        call_ensures(handle_command, (second, qs, Command::LPop { key }, sb), popping),
        final(first)@ == old(second)@,
        items_of(old(first)@.lists, key@).len() == 0,
        val@.len() + 20 <= 65536,
    ensures
        pushing matches Handled::Reply(b) && b@ == ok_reply(Seq::empty()),
        popping matches Handled::Reply(b) && b@ == ok_reply(enc_bytes(val@)),
        items_of(final(second)@.lists, key@).len() == 0,
{
    law_served_item_is_popped(
        old(first)@,
        final(first)@,
        final(second)@,
        key@,
        val@,
        (pushing->Reply_0)@,
        (popping->Reply_0)@,
    );
}

/// A frame that holds no command is answered with the reason.
pub proof fn law_parse_failure_is_read(
    e: &ParseError,
    rb: &mut ResponseBuilder,
    reply: Vec<u8>,
    body: &[u8],
    done: Result<(), String>,
)
    requires
        call_ensures(parse_failure, (e, rb), reply),
        call_ensures(check_status, (body,), done),
        body@ == reply@.skip(4),
        str_fits("parse error: "@ + e.0@),
    ensures
        done matches Err(m) && m@ == "parse error: "@ + e.0@,
{
    reveal_strlit("parse error: ");
    law_client_reads_status("parse error: "@ + e.0@, Seq::empty());
}

/// A client whose request is refused is told what was asked for, and why it is not done.
#[verifier::rlimit(50)]
pub proof fn law_refusals_say_why(before: DbView, now: DbView, c: CommandView, reply: Seq<u8>)
    requires
        answers(before, now, c, reply),
    ensures
        c matches CommandView::Add { group, timestamp, payload } ==> !before.logs.contains_key(group) ==> reply == err_reply(
            "failed to append to log: "@ + ("group '"@ + group + "' not found"@),
        ),
        c matches CommandView::Add { group, timestamp, payload } ==> before.logs.contains_key(group) && payload.len() + 20 > 65536 ==> reply == err_reply(
            "failed to append to log: "@ + ("log error: "@ + "entry exceeds segment capacity"@),
        ),
        c matches CommandView::AddRange { group, entries } ==> entries.len() == 0 ==> reply == err_reply(
            "failed to append range to log: "@ + ("log error: "@ + "entry not found"@),
        ),
        c matches CommandView::AddRange { group, entries } ==> entries.len() > 0 && !before.logs.contains_key(group) ==> reply == err_reply(
            "failed to append range to log: "@ + ("group '"@ + group + "' not found"@),
        ),
        c matches CommandView::Read { group, id } ==> !before.logs.contains_key(group) ==> reply == err_reply(
            "failed to read from log: "@ + ("group '"@ + group + "' not found"@),
        ),
        c matches CommandView::Read { group, id } ==> before.logs.contains_key(group) && !before.logs[group].entries.contains_key(id) ==> reply == err_reply(
            "failed to read from log: "@ + ("log error: "@ + "entry not found"@),
        ),
        c matches CommandView::ReadRange { group, start, end } ==> !before.logs.contains_key(group) ==> reply == err_reply(
            "failed to read range from log: "@ + ("group '"@ + group + "' not found"@),
        ),
        c matches CommandView::Remove { group, up_to_id } ==> !before.logs.contains_key(group) ==> reply == err_reply(
            "failed to remove from log: "@ + ("group '"@ + group + "' not found"@),
        ),
        c matches CommandView::GroupStats { group } ==> !before.logs.contains_key(group) ==> reply == err_reply(
            "failed to read group stats: "@ + ("group '"@ + group + "' not found"@),
        ),
        c matches CommandView::DelKey { db, key } ==> !db_of(before.kv, db).contains_key(key) ==> reply == err_reply(
            "failed to del key: "@ + (key + " not found"@),
        ),
        c matches CommandView::LPush { key, val } ==> val.len() + 20 > 65536 ==> reply == err_reply(
            "failed to push: "@ + "entry exceeds segment capacity"@,
        ),
        c matches CommandView::LPushRange { key, vals } ==> fitting(vals) < vals.len() ==> reply == err_reply(
            "failed to push range: "@ + "entry exceeds segment capacity"@,
        ),
        c matches CommandView::LPop { key } ==> !before.lists.contains_key(key) ==> reply == err_reply(
            "failed to pop: "@ + "key not found"@,
        ),
        c matches CommandView::LPopRange { key, start, end } ==> !before.lists.contains_key(key) ==> reply == err_reply(
            "failed to pop range: "@ + "key not found"@,
        ),
        c matches CommandView::LPopRange { key, start, end } ==> before.lists.contains_key(key) && end > before.lists[key].len() ==> reply == err_reply(
            "failed to pop range: "@ + "given range is invalidß"@,
        ),
        c matches CommandView::LPopCount { key, count } ==> !before.lists.contains_key(key) ==> reply == err_reply(
            "failed to pop count: "@ + "key not found"@,
        ),
        c matches CommandView::LFlush { key } ==> !before.lists.contains_key(key) ==> reply == err_reply(
            "failed to flush list: "@ + "key not found"@,
        ),
{
    if let CommandView::LPushRange { key, vals } = c {
        crate::seg_list::lemma_fitting(vals);
    }
}

} // verus!
