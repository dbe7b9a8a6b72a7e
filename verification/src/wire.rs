//! The wire form of each command, and the law that the parser reads it back.

use crate::le::{le_bytes, lemma_le_bytes_len, lemma_le_limits, lemma_le_round_trip};
use crate::proto::{
    parse, take_bytes, take_bytes_list, take_counted_bytes, take_counted_stamped, take_stamped,
    take_stamped_list, take_str, take_str_pair, take_u16, take_u32, take_u64, CommandView,
};
use crate::proto::{
    CMD_ADD, CMD_ADD_RANGE, CMD_CREATE_GROUP, CMD_DEL, CMD_DROP_GROUP, CMD_FLUSH, CMD_GET,
    CMD_GROUP_STATS, CMD_KEYS, CMD_LIST_GROUPS, CMD_READ, CMD_READ_RANGE, CMD_REMOVE, CMD_SET,
    HA_HEARTBEAT, HA_REGISTER, HA_SYNC, LFLUSH, LLEN, LPOP, LPOP_COUNT, LPOP_RANGE, LPUSH,
    LPUSH_RANGE,
};
use vstd::prelude::*;
use vstd::utf8::encode_utf8;

verus! {

/// A text field: the two-byte length of the UTF-8 form, then the bytes.
pub open spec fn enc_str(s: Seq<char>) -> Seq<u8> {
    le_bytes(encode_utf8(s).len(), 2) + encode_utf8(s)
}

/// A byte field: the four-byte length, then the bytes.
pub open spec fn enc_bytes(b: Seq<u8>) -> Seq<u8> {
    le_bytes(b.len(), 4) + b
}

/// Byte fields in order.
pub open spec fn enc_bytes_list(items: Seq<Seq<u8>>) -> Seq<u8>
    decreases items.len(),
{
    if items.len() == 0 {
        Seq::empty()
    } else {
        enc_bytes(items[0]) + enc_bytes_list(items.drop_first())
    }
}

/// A timestamp, then a byte field.
pub open spec fn enc_stamped(e: (u64, Seq<u8>)) -> Seq<u8> {
    le_bytes(e.0 as nat, 8) + enc_bytes(e.1)
}

/// Timestamped byte fields in order.
pub open spec fn enc_stamped_list(items: Seq<(u64, Seq<u8>)>) -> Seq<u8>
    decreases items.len(),
{
    if items.len() == 0 {
        Seq::empty()
    } else {
        enc_stamped(items[0]) + enc_stamped_list(items.drop_first())
    }
}

/// Whether the length of a text fits its field.
pub open spec fn str_fits(s: Seq<char>) -> bool {
    encode_utf8(s).len() < 0x1_0000
}

/// Whether the length of a byte string fits its field.
pub open spec fn bytes_fit(b: Seq<u8>) -> bool {
    b.len() < 0x1_0000_0000
}

/// Whether every length in a command fits its field. Pipelines have no wire form.
pub open spec fn command_fits(c: CommandView) -> bool {
    match c {
        CommandView::CreateGroup { name } => str_fits(name),
        CommandView::DropGroup { name } => str_fits(name),
        CommandView::Add { group, timestamp, payload } => str_fits(group) && bytes_fit(payload),
        CommandView::AddRange { group, entries } => {
            &&& str_fits(group)
            &&& entries.len() < 0x1_0000_0000
            &&& forall|i: int| 0 <= i < entries.len() ==> bytes_fit((#[trigger] entries[i]).1)
        },
        CommandView::Read { group, id } => str_fits(group),
        CommandView::ReadRange { group, start, end } => str_fits(group),
        CommandView::Remove { group, up_to_id } => str_fits(group),
        CommandView::ListGroups => true,
        CommandView::GroupStats { group } => str_fits(group),
        CommandView::SetKey { db, key, val, ttl_secs } => str_fits(db) && str_fits(key)
            && bytes_fit(val),
        CommandView::GetKey { db, key } => str_fits(db) && str_fits(key),
        CommandView::DelKey { db, key } => str_fits(db) && str_fits(key),
        CommandView::Keys { db } => str_fits(db),
        CommandView::Flush { db } => str_fits(db),
        CommandView::LPush { key, val } => str_fits(key) && bytes_fit(val),
        CommandView::LPushRange { key, vals } => {
            &&& str_fits(key)
            &&& vals.len() < 0x1_0000_0000
            &&& forall|i: int| 0 <= i < vals.len() ==> bytes_fit(#[trigger] vals[i])
        },
        CommandView::LPop { key } => str_fits(key),
        CommandView::LPopRange { key, start, end } => str_fits(key),
        CommandView::LPopCount { key, count } => str_fits(key),
        CommandView::LLen { key } => str_fits(key),
        CommandView::LFlush { key } => str_fits(key),
        CommandView::StartPipeline => false,
        CommandView::EndPipeline { id } => false,
        CommandView::HaRegisterFollower { addr } => str_fits(addr),
        CommandView::HaHeartBeat => true,
        CommandView::HaSync { entries } => {
            &&& entries.len() < 0x1_0000_0000
            &&& forall|i: int| 0 <= i < entries.len() ==> bytes_fit(#[trigger] entries[i])
        },
    }
}

/// The frame of a command: its tag, then its fields. The list commands carry the name of a
/// database, `list_db`, which the parser reads and drops.
pub open spec fn encode_command(c: CommandView, list_db: Seq<char>) -> Seq<u8> {
    match c {
        CommandView::CreateGroup { name } => seq![CMD_CREATE_GROUP] + enc_str(name),
        CommandView::DropGroup { name } => seq![CMD_DROP_GROUP] + enc_str(name),
        CommandView::Add { group, timestamp, payload } => seq![CMD_ADD] + enc_str(group)
            + enc_stamped((timestamp, payload)),
        CommandView::AddRange { group, entries } => seq![CMD_ADD_RANGE] + enc_str(group) + le_bytes(
            entries.len(),
            4,
        ) + enc_stamped_list(entries),
        CommandView::Read { group, id } => seq![CMD_READ] + enc_str(group) + le_bytes(id as nat, 8),
        CommandView::ReadRange { group, start, end } => seq![CMD_READ_RANGE] + enc_str(group)
            + le_bytes(start as nat, 8) + le_bytes(end as nat, 8),
        CommandView::Remove { group, up_to_id } => seq![CMD_REMOVE] + enc_str(group) + le_bytes(
            up_to_id as nat,
            8,
        ),
        CommandView::ListGroups => seq![CMD_LIST_GROUPS],
        CommandView::GroupStats { group } => seq![CMD_GROUP_STATS] + enc_str(group),
        CommandView::SetKey { db, key, val, ttl_secs } => seq![CMD_SET] + enc_str(db) + enc_str(key)
            + enc_stamped((ttl_secs, val)),
        CommandView::GetKey { db, key } => seq![CMD_GET] + enc_str(db) + enc_str(key),
        CommandView::DelKey { db, key } => seq![CMD_DEL] + enc_str(db) + enc_str(key),
        CommandView::Keys { db } => seq![CMD_KEYS] + enc_str(db),
        CommandView::Flush { db } => seq![CMD_FLUSH] + enc_str(db),
        CommandView::LPush { key, val } => seq![LPUSH] + enc_str(list_db) + enc_str(key)
            + enc_bytes(val),
        CommandView::LPushRange { key, vals } => seq![LPUSH_RANGE] + enc_str(list_db) + enc_str(key)
            + le_bytes(vals.len(), 4) + enc_bytes_list(vals),
        CommandView::LPop { key } => seq![LPOP] + enc_str(list_db) + enc_str(key),
        CommandView::LPopRange { key, start, end } => seq![LPOP_RANGE] + enc_str(list_db) + enc_str(
            key,
        ) + le_bytes(start as nat, 4) + le_bytes(end as nat, 4),
        CommandView::LPopCount { key, count } => seq![LPOP_COUNT] + enc_str(list_db) + enc_str(key)
            + le_bytes(count as nat, 4),
        CommandView::LLen { key } => seq![LLEN] + enc_str(list_db) + enc_str(key),
        CommandView::LFlush { key } => seq![LFLUSH] + enc_str(list_db) + enc_str(key),
        CommandView::StartPipeline => Seq::empty(),
        CommandView::EndPipeline { id } => Seq::empty(),
        CommandView::HaRegisterFollower { addr } => seq![HA_REGISTER] + enc_str(addr),
        CommandView::HaHeartBeat => seq![HA_HEARTBEAT],
        CommandView::HaSync { entries } => seq![HA_SYNC] + le_bytes(entries.len(), 4)
            + enc_bytes_list(entries),
    }
}

/// Whether `field` stands in `buf` at `pos`.
pub open spec fn stands_at(buf: Seq<u8>, pos: nat, field: Seq<u8>) -> bool {
    pos + field.len() <= buf.len() && buf.subrange(pos as int, (pos + field.len()) as int) == field
}

/// Of two fields that stand in a row, each stands at its place.
pub proof fn lemma_stands_split(buf: Seq<u8>, pos: nat, a: Seq<u8>, b: Seq<u8>)
    requires
        stands_at(buf, pos, a + b),
    ensures
        stands_at(buf, pos, a),
        stands_at(buf, pos + a.len(), b),
{
    let whole = buf.subrange(pos as int, (pos + a.len() + b.len()) as int);
    assert(whole.subrange(0, a.len() as int) =~= a);
    assert(whole.subrange(a.len() as int, (a.len() + b.len()) as int) =~= b);
    assert(buf.subrange(pos as int, (pos + a.len()) as int) =~= whole.subrange(0, a.len() as int));
    assert(buf.subrange((pos + a.len()) as int, (pos + a.len() + b.len()) as int)
        =~= whole.subrange(a.len() as int, (a.len() + b.len()) as int));
}

pub proof fn lemma_take_uint(buf: Seq<u8>, pos: nat, x: nat)
    ensures
        stands_at(buf, pos, le_bytes(x, 2)) && x < 0x1_0000 ==> take_u16(buf, pos) == Ok::<
            (nat, nat),
            Seq<char>,
        >((x, pos + 2)),
        stands_at(buf, pos, le_bytes(x, 4)) && x < 0x1_0000_0000 ==> take_u32(buf, pos) == Ok::<
            (nat, nat),
            Seq<char>,
        >((x, pos + 4)),
        stands_at(buf, pos, le_bytes(x, 8)) && x < 0x1_0000_0000_0000_0000 ==> take_u64(buf, pos)
            == Ok::<(nat, nat), Seq<char>>((x, pos + 8)),
{
    broadcast use lemma_le_bytes_len;

    lemma_le_limits();
    if x < 0x1_0000 {
        lemma_le_round_trip(x, 2);
    }
    if x < 0x1_0000_0000 {
        lemma_le_round_trip(x, 4);
    }
    if x < 0x1_0000_0000_0000_0000 {
        lemma_le_round_trip(x, 8);
    }
}

pub proof fn lemma_take_str(buf: Seq<u8>, pos: nat, s: Seq<char>)
    requires
        stands_at(buf, pos, enc_str(s)),
        str_fits(s),
    ensures
        take_str(buf, pos) == Ok::<(Seq<char>, nat), Seq<char>>((s, pos + enc_str(s).len())),
{
    broadcast use lemma_le_bytes_len;

    let bytes = encode_utf8(s);
    lemma_stands_split(buf, pos, le_bytes(bytes.len(), 2), bytes);
    lemma_take_uint(buf, pos, bytes.len());
    crate::text::lemma_text_round_trip(s);
}

pub proof fn lemma_take_bytes(buf: Seq<u8>, pos: nat, b: Seq<u8>)
    requires
        stands_at(buf, pos, enc_bytes(b)),
        bytes_fit(b),
    ensures
        take_bytes(buf, pos) == Ok::<(Seq<u8>, nat), Seq<char>>((b, pos + enc_bytes(b).len())),
{
    broadcast use lemma_le_bytes_len;

    lemma_stands_split(buf, pos, le_bytes(b.len(), 4), b);
    lemma_take_uint(buf, pos, b.len());
}

pub proof fn lemma_take_stamped(buf: Seq<u8>, pos: nat, e: (u64, Seq<u8>))
    requires
        stands_at(buf, pos, enc_stamped(e)),
        bytes_fit(e.1),
    ensures
        take_stamped(buf, pos) == Ok::<((u64, Seq<u8>), nat), Seq<char>>(
            (e, pos + enc_stamped(e).len()),
        ),
{
    broadcast use lemma_le_bytes_len;

    lemma_stands_split(buf, pos, le_bytes(e.0 as nat, 8), enc_bytes(e.1));
    lemma_take_uint(buf, pos, e.0 as nat);
    lemma_take_bytes(buf, pos + 8, e.1);
}

pub proof fn lemma_take_bytes_list(buf: Seq<u8>, pos: nat, items: Seq<Seq<u8>>)
    requires
        stands_at(buf, pos, enc_bytes_list(items)),
        forall|i: int| 0 <= i < items.len() ==> bytes_fit(#[trigger] items[i]),
    ensures
        take_bytes_list(buf, pos, items.len()) == Ok::<(Seq<Seq<u8>>, nat), Seq<char>>(
            (items, pos + enc_bytes_list(items).len()),
        ),
    decreases items.len(),
{
    if items.len() > 0 {
        let rest = items.drop_first();
        lemma_stands_split(buf, pos, enc_bytes(items[0]), enc_bytes_list(rest));
        lemma_take_bytes(buf, pos, items[0]);
        assert forall|i: int| 0 <= i < rest.len() implies bytes_fit(#[trigger] rest[i]) by {
            assert(rest[i] == items[i + 1]);
        }
        lemma_take_bytes_list(buf, pos + enc_bytes(items[0]).len(), rest);
        assert(seq![items[0]] + rest =~= items);
    } else {
        assert(items =~= Seq::empty());
    }
}

pub proof fn lemma_take_stamped_list(buf: Seq<u8>, pos: nat, items: Seq<(u64, Seq<u8>)>)
    requires
        stands_at(buf, pos, enc_stamped_list(items)),
        forall|i: int| 0 <= i < items.len() ==> bytes_fit((#[trigger] items[i]).1),
    ensures
        take_stamped_list(buf, pos, items.len()) == Ok::<(Seq<(u64, Seq<u8>)>, nat), Seq<char>>(
            (items, pos + enc_stamped_list(items).len()),
        ),
    decreases items.len(),
{
    if items.len() > 0 {
        let rest = items.drop_first();
        lemma_stands_split(buf, pos, enc_stamped(items[0]), enc_stamped_list(rest));
        lemma_take_stamped(buf, pos, items[0]);
        assert forall|i: int| 0 <= i < rest.len() implies bytes_fit((#[trigger] rest[i]).1) by {
            assert(rest[i] == items[i + 1]);
        }
        lemma_take_stamped_list(buf, pos + enc_stamped(items[0]).len(), rest);
        assert(seq![items[0]] + rest =~= items);
    } else {
        assert(items =~= Seq::empty());
    }
}

proof fn lemma_take_counted_bytes(buf: Seq<u8>, pos: nat, items: Seq<Seq<u8>>)
    requires
        stands_at(buf, pos, le_bytes(items.len(), 4) + enc_bytes_list(items)),
        items.len() < 0x1_0000_0000,
        forall|i: int| 0 <= i < items.len() ==> bytes_fit(#[trigger] items[i]),
    ensures
        take_counted_bytes(buf, pos) matches Ok((got, _)) && got == items,
{
    broadcast use lemma_le_bytes_len;

    lemma_stands_split(buf, pos, le_bytes(items.len(), 4), enc_bytes_list(items));
    lemma_take_uint(buf, pos, items.len());
    lemma_take_bytes_list(buf, pos + 4, items);
}

proof fn lemma_take_counted_stamped(buf: Seq<u8>, pos: nat, items: Seq<(u64, Seq<u8>)>)
    requires
        stands_at(buf, pos, le_bytes(items.len(), 4) + enc_stamped_list(items)),
        items.len() < 0x1_0000_0000,
        forall|i: int| 0 <= i < items.len() ==> bytes_fit((#[trigger] items[i]).1),
    ensures
        take_counted_stamped(buf, pos) matches Ok((got, _)) && got == items,
{
    broadcast use lemma_le_bytes_len;

    lemma_stands_split(buf, pos, le_bytes(items.len(), 4), enc_stamped_list(items));
    lemma_take_uint(buf, pos, items.len());
    lemma_take_stamped_list(buf, pos + 4, items);
}

/// The fields behind the tag, `args`, stand in the frame at 1.
proof fn lemma_args_stand(tag: u8, args: Seq<u8>, rest: Seq<u8>)
    ensures
        stands_at(seq![tag] + args + rest, 1, args),
        (seq![tag] + args + rest)[0] == tag,
{
    assert((seq![tag] + args + rest).subrange(1, (1 + args.len()) as int) =~= args);
}

/// Two text fields, then `more`, stand in the frame at 1.
proof fn lemma_pair_stands(buf: Seq<u8>, a: Seq<char>, b: Seq<char>, more: Seq<u8>)
    requires
        str_fits(a),
        str_fits(b),
        stands_at(buf, 1, enc_str(a) + enc_str(b) + more),
    ensures
        take_str_pair(buf, 1) == Ok::<((Seq<char>, Seq<char>), nat), Seq<char>>(
            ((a, b), 1 + enc_str(a).len() + enc_str(b).len()),
        ),
        stands_at(buf, 1 + enc_str(a).len() + enc_str(b).len(), more),
{
    lemma_stands_split(buf, 1, enc_str(a) + enc_str(b), more);
    lemma_stands_split(buf, 1, enc_str(a), enc_str(b));
    lemma_take_str(buf, 1, a);
    lemma_take_str(buf, 1 + enc_str(a).len(), b);
}

/// One text field, then `more`, stand in the frame at 1.
proof fn lemma_single_stands(buf: Seq<u8>, a: Seq<char>, more: Seq<u8>)
    requires
        str_fits(a),
        stands_at(buf, 1, enc_str(a) + more),
    ensures
        take_str(buf, 1) == Ok::<(Seq<char>, nat), Seq<char>>((a, 1 + enc_str(a).len())),
        stands_at(buf, 1 + enc_str(a).len(), more),
{
    lemma_stands_split(buf, 1, enc_str(a), more);
    lemma_take_str(buf, 1, a);
}

proof fn lemma_parse_one_name(tag: u8, name: Seq<char>, rest: Seq<u8>)
    requires
        crate::proto::is_one_name_tag(tag),
        str_fits(name),
    ensures
        parse(seq![tag] + enc_str(name) + rest) == Ok::<CommandView, Seq<char>>(
            crate::proto::parsed_one(tag, name),
        ),
{
    let buf = seq![tag] + enc_str(name) + rest;
    lemma_args_stand(tag, enc_str(name), rest);
    lemma_take_str(buf, 1, name);
}

proof fn lemma_parse_two_names(tag: u8, a: Seq<char>, b: Seq<char>, rest: Seq<u8>)
    requires
        crate::proto::is_two_name_tag(tag),
        str_fits(a),
        str_fits(b),
    ensures
        parse(seq![tag] + enc_str(a) + enc_str(b) + rest) == Ok::<CommandView, Seq<char>>(
            crate::proto::parsed_two(tag, a, b),
        ),
{
    let args = enc_str(a) + enc_str(b);
    let buf = seq![tag] + enc_str(a) + enc_str(b) + rest;
    assert(buf =~= seq![tag] + args + rest);
    lemma_args_stand(tag, args, rest);
    assert(args =~= args + Seq::<u8>::empty());
    lemma_pair_stands(buf, a, b, Seq::empty());
}

/// In a frame of a tag, one text field and more fields, the text is read and the other
/// fields stand behind it.
proof fn lemma_group_frame(tag: u8, group: Seq<char>, more: Seq<u8>, enc: Seq<u8>, rest: Seq<u8>)
    requires
        str_fits(group),
        enc == seq![tag] + (enc_str(group) + more),
    ensures
        (enc + rest).len() > 0,
        (enc + rest)[0] == tag,
        take_str(enc + rest, 1) == Ok::<(Seq<char>, nat), Seq<char>>(
            (group, 1 + enc_str(group).len()),
        ),
        stands_at(enc + rest, 1 + enc_str(group).len(), more),
{
    lemma_args_stand(tag, enc_str(group) + more, rest);
    lemma_single_stands(enc + rest, group, more);
}

/// The same for a tag, two text fields and more fields.
proof fn lemma_key_frame(
    tag: u8,
    db: Seq<char>,
    key: Seq<char>,
    more: Seq<u8>,
    enc: Seq<u8>,
    rest: Seq<u8>,
)
    requires
        str_fits(db),
        str_fits(key),
        enc == seq![tag] + (enc_str(db) + enc_str(key) + more),
    ensures
        (enc + rest).len() > 0,
        (enc + rest)[0] == tag,
        take_str_pair(enc + rest, 1) == Ok::<((Seq<char>, Seq<char>), nat), Seq<char>>(
            ((db, key), 1 + enc_str(db).len() + enc_str(key).len()),
        ),
        stands_at(enc + rest, 1 + enc_str(db).len() + enc_str(key).len(), more),
{
    lemma_args_stand(tag, enc_str(db) + enc_str(key) + more, rest);
    lemma_pair_stands(enc + rest, db, key, more);
}

proof fn lemma_parse_group_command(c: CommandView, rest: Seq<u8>)
    requires
        command_fits(c),
        c is Add || c is AddRange || c is Read || c is ReadRange || c is Remove,
    ensures
        parse(encode_command(c, Seq::empty()) + rest) == Ok::<CommandView, Seq<char>>(c),
{
    broadcast use lemma_le_bytes_len;

    let enc = encode_command(c, Seq::empty());
    let buf = enc + rest;
    match c {
        CommandView::Add { group, timestamp, payload } => {
            let more = enc_stamped((timestamp, payload));
            assert(enc =~= seq![CMD_ADD] + (enc_str(group) + more));
            lemma_group_frame(CMD_ADD, group, more, enc, rest);
            lemma_take_stamped(buf, 1 + enc_str(group).len(), (timestamp, payload));
        },
        CommandView::AddRange { group, entries } => {
            let more = le_bytes(entries.len(), 4) + enc_stamped_list(entries);
            assert(enc =~= seq![CMD_ADD_RANGE] + (enc_str(group) + more));
            lemma_group_frame(CMD_ADD_RANGE, group, more, enc, rest);
            lemma_take_counted_stamped(buf, 1 + enc_str(group).len(), entries);
        },
        CommandView::Read { group, id } => {
            let more = le_bytes(id as nat, 8);
            assert(enc =~= seq![CMD_READ] + (enc_str(group) + more));
            lemma_group_frame(CMD_READ, group, more, enc, rest);
            lemma_take_uint(buf, 1 + enc_str(group).len(), id as nat);
        },
        CommandView::ReadRange { group, start, end } => {
            let more = le_bytes(start as nat, 8) + le_bytes(end as nat, 8);
            assert(enc =~= seq![CMD_READ_RANGE] + (enc_str(group) + more));
            lemma_group_frame(CMD_READ_RANGE, group, more, enc, rest);
            let p = 1 + enc_str(group).len();
            lemma_stands_split(buf, p, le_bytes(start as nat, 8), le_bytes(end as nat, 8));
            lemma_take_uint(buf, p, start as nat);
            lemma_take_uint(buf, p + 8, end as nat);
        },
        CommandView::Remove { group, up_to_id } => {
            let more = le_bytes(up_to_id as nat, 8);
            assert(enc =~= seq![CMD_REMOVE] + (enc_str(group) + more));
            lemma_group_frame(CMD_REMOVE, group, more, enc, rest);
            lemma_take_uint(buf, 1 + enc_str(group).len(), up_to_id as nat);
        },
        _ => {},
    }
}

#[verifier::rlimit(60)]
proof fn lemma_parse_key_command(c: CommandView, list_db: Seq<char>, rest: Seq<u8>)
    requires
        command_fits(c),
        str_fits(list_db),
        c is SetKey || c is LPush || c is LPushRange || c is LPopRange || c is LPopCount,
    ensures
        parse(encode_command(c, list_db) + rest) == Ok::<CommandView, Seq<char>>(c),
{
    broadcast use lemma_le_bytes_len;

    let enc = encode_command(c, list_db);
    let buf = enc + rest;
    match c {
        CommandView::SetKey { db, key, val, ttl_secs } => {
            let more = enc_stamped((ttl_secs, val));
            assert(enc =~= seq![CMD_SET] + (enc_str(db) + enc_str(key) + more));
            lemma_key_frame(CMD_SET, db, key, more, enc, rest);
            lemma_take_stamped(buf, 1 + enc_str(db).len() + enc_str(key).len(), (ttl_secs, val));
        },
        CommandView::LPush { key, val } => {
            let more = enc_bytes(val);
            assert(enc =~= seq![LPUSH] + (enc_str(list_db) + enc_str(key) + more));
            lemma_key_frame(LPUSH, list_db, key, more, enc, rest);
            lemma_take_bytes(buf, 1 + enc_str(list_db).len() + enc_str(key).len(), val);
        },
        CommandView::LPushRange { key, vals } => {
            let more = le_bytes(vals.len(), 4) + enc_bytes_list(vals);
            assert(enc =~= seq![LPUSH_RANGE] + (enc_str(list_db) + enc_str(key) + more));
            lemma_key_frame(LPUSH_RANGE, list_db, key, more, enc, rest);
            lemma_take_counted_bytes(buf, 1 + enc_str(list_db).len() + enc_str(key).len(), vals);
        },
        CommandView::LPopRange { key, start, end } => {
            let more = le_bytes(start as nat, 4) + le_bytes(end as nat, 4);
            assert(enc =~= seq![LPOP_RANGE] + (enc_str(list_db) + enc_str(key) + more));
            lemma_key_frame(LPOP_RANGE, list_db, key, more, enc, rest);
            let p = 1 + enc_str(list_db).len() + enc_str(key).len();
            lemma_stands_split(buf, p, le_bytes(start as nat, 4), le_bytes(end as nat, 4));
            lemma_take_uint(buf, p, start as nat);
            lemma_take_uint(buf, p + 4, end as nat);
        },
        CommandView::LPopCount { key, count } => {
            let more = le_bytes(count as nat, 4);
            assert(enc =~= seq![LPOP_COUNT] + (enc_str(list_db) + enc_str(key) + more));
            lemma_key_frame(LPOP_COUNT, list_db, key, more, enc, rest);
            lemma_take_uint(buf, 1 + enc_str(list_db).len() + enc_str(key).len(), count as nat);
        },
        _ => {},
    }
}

/// Parsing the frame of a command gives the command back, whatever bytes follow it.
pub proof fn law_parse_encoded_command(c: CommandView, list_db: Seq<char>, rest: Seq<u8>)
    requires
        command_fits(c),
        str_fits(list_db),
    ensures
        parse(encode_command(c, list_db) + rest) == Ok::<CommandView, Seq<char>>(c),
{
    match c {
        CommandView::CreateGroup { name } => lemma_parse_one_name(CMD_CREATE_GROUP, name, rest),
        CommandView::DropGroup { name } => lemma_parse_one_name(CMD_DROP_GROUP, name, rest),
        CommandView::GroupStats { group } => lemma_parse_one_name(CMD_GROUP_STATS, group, rest),
        CommandView::Keys { db } => lemma_parse_one_name(CMD_KEYS, db, rest),
        CommandView::Flush { db } => lemma_parse_one_name(CMD_FLUSH, db, rest),
        CommandView::HaRegisterFollower { addr } => lemma_parse_one_name(HA_REGISTER, addr, rest),
        CommandView::GetKey { db, key } => lemma_parse_two_names(CMD_GET, db, key, rest),
        CommandView::DelKey { db, key } => lemma_parse_two_names(CMD_DEL, db, key, rest),
        CommandView::LPop { key } => lemma_parse_two_names(LPOP, list_db, key, rest),
        CommandView::LLen { key } => lemma_parse_two_names(LLEN, list_db, key, rest),
        CommandView::LFlush { key } => lemma_parse_two_names(LFLUSH, list_db, key, rest),
        CommandView::HaSync { entries } => {
            let args = le_bytes(entries.len(), 4) + enc_bytes_list(entries);
            let buf = seq![HA_SYNC] + args + rest;
            assert(encode_command(c, list_db) + rest =~= buf);
            lemma_args_stand(HA_SYNC, args, rest);
            lemma_take_counted_bytes(buf, 1, entries);
        },
        CommandView::ListGroups => {},
        CommandView::HaHeartBeat => {},
        CommandView::SetKey { .. }
        | CommandView::LPush { .. }
        | CommandView::LPushRange { .. }
        | CommandView::LPopRange { .. }
        | CommandView::LPopCount { .. } => lemma_parse_key_command(c, list_db, rest),
        CommandView::StartPipeline => {},
        CommandView::EndPipeline { .. } => {},
        _ => {
            lemma_parse_group_command(c, rest);
            assert(encode_command(c, list_db) == encode_command(c, Seq::empty()));
        },
    }
}

/// The first byte of a frame tells which command it holds.
pub proof fn law_tags(c: CommandView, list_db: Seq<char>)
    ensures
        c is CreateGroup ==> encode_command(c, list_db)[0] == 0x01,
        c is DropGroup ==> encode_command(c, list_db)[0] == 0x02,
        c is Add ==> encode_command(c, list_db)[0] == 0x03,
        c is AddRange ==> encode_command(c, list_db)[0] == 0x04,
        c is Read ==> encode_command(c, list_db)[0] == 0x05,
        c is ReadRange ==> encode_command(c, list_db)[0] == 0x06,
        c is Remove ==> encode_command(c, list_db)[0] == 0x07,
        c is ListGroups ==> encode_command(c, list_db)[0] == 0x08,
        c is GroupStats ==> encode_command(c, list_db)[0] == 0x09,
        c is SetKey ==> encode_command(c, list_db)[0] == 0x10,
        c is GetKey ==> encode_command(c, list_db)[0] == 0x11,
        c is DelKey ==> encode_command(c, list_db)[0] == 0x12,
        c is Keys ==> encode_command(c, list_db)[0] == 0x13,
        c is Flush ==> encode_command(c, list_db)[0] == 0x14,
        c is LPush ==> encode_command(c, list_db)[0] == 0x15,
        c is LPushRange ==> encode_command(c, list_db)[0] == 0x16,
        c is LPop ==> encode_command(c, list_db)[0] == 0x17,
        c is LPopRange ==> encode_command(c, list_db)[0] == 0x18,
        c is LPopCount ==> encode_command(c, list_db)[0] == 0x19,
        c is LLen ==> encode_command(c, list_db)[0] == 0x20,
        c is LFlush ==> encode_command(c, list_db)[0] == 0x21,
        c is HaRegisterFollower ==> encode_command(c, list_db)[0] == 0x22,
        c is HaHeartBeat ==> encode_command(c, list_db)[0] == 0x23,
        c is HaSync ==> encode_command(c, list_db)[0] == 0x24,
{
}

/// Behind the tag of a frame stand its fields: a text as its length in two bytes and its UTF-8 form, bytes
/// as their length in four bytes and themselves, a number of a group in eight bytes and one of a list in
/// four.
pub proof fn law_frame_fields(
    name: Seq<char>,
    key: Seq<char>,
    val: Seq<u8>,
    a: u64,
    b: u64,
    start: u32,
    end: u32,
    list_db: Seq<char>,
)
    ensures
        ({
            let n = encode_utf8(name);
            let k = encode_utf8(key);
            let l = encode_utf8(list_db);
            &&& encode_command(CommandView::CreateGroup { name }, list_db) == seq![1u8] + (le_bytes(
                n.len(),
                2,
            ) + n)
            &&& encode_command(CommandView::Add { group: name, timestamp: a, payload: val }, list_db)
                == seq![3u8] + (le_bytes(n.len(), 2) + n) + (le_bytes(a as nat, 8) + (le_bytes(
                val.len(),
                4,
            ) + val))
            &&& encode_command(CommandView::Read { group: name, id: a }, list_db) == seq![5u8] + (
            le_bytes(n.len(), 2) + n) + le_bytes(a as nat, 8)
            &&& encode_command(CommandView::ReadRange { group: name, start: a, end: b }, list_db)
                == seq![6u8] + (le_bytes(n.len(), 2) + n) + le_bytes(a as nat, 8) + le_bytes(
                b as nat,
                8,
            )
            &&& encode_command(CommandView::SetKey { db: name, key, val, ttl_secs: a }, list_db)
                == seq![0x10u8] + (le_bytes(n.len(), 2) + n) + (le_bytes(k.len(), 2) + k) + (
            le_bytes(a as nat, 8) + (le_bytes(val.len(), 4) + val))
            &&& encode_command(CommandView::GetKey { db: name, key }, list_db) == seq![0x11u8] + (
            le_bytes(n.len(), 2) + n) + (le_bytes(k.len(), 2) + k)
            &&& encode_command(CommandView::LPush { key, val }, list_db) == seq![0x15u8] + (le_bytes(
                l.len(),
                2,
            ) + l) + (le_bytes(k.len(), 2) + k) + (le_bytes(val.len(), 4) + val)
            &&& encode_command(CommandView::LPopRange { key, start, end }, list_db) == seq![0x18u8] + (
            le_bytes(l.len(), 2) + l) + (le_bytes(k.len(), 2) + k) + le_bytes(start as nat, 4)
                + le_bytes(end as nat, 4)
        }),
{
}

/// Fields in a list stand one behind the other: those of a part, and then those of the rest.
pub proof fn law_field_lists(
    a: Seq<Seq<u8>>,
    b: Seq<Seq<u8>>,
    c: Seq<(u64, Seq<u8>)>,
    d: Seq<(u64, Seq<u8>)>,
)
    ensures
        enc_bytes_list(a + b) == enc_bytes_list(a) + enc_bytes_list(b),
        enc_stamped_list(c + d) == enc_stamped_list(c) + enc_stamped_list(d),
    decreases a.len() + c.len(),
{
    if a.len() > 0 {
        law_field_lists(a.drop_first(), b, c, d);
        assert((a + b).drop_first() =~= a.drop_first() + b);
        assert(enc_bytes_list(a + b) =~= enc_bytes_list(a) + enc_bytes_list(b));
    } else {
        assert(a + b =~= b);
        assert(enc_bytes_list(a) + enc_bytes_list(b) =~= enc_bytes_list(b));
    }
    if c.len() > 0 {
        law_field_lists(a, b, c.drop_first(), d);
        assert((c + d).drop_first() =~= c.drop_first() + d);
        assert(enc_stamped_list(c + d) =~= enc_stamped_list(c) + enc_stamped_list(d));
    } else {
        assert(c + d =~= d);
        assert(enc_stamped_list(c) + enc_stamped_list(d) =~= enc_stamped_list(d));
    }
}

} // verus!
