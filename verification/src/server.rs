//! What the server does with a command, and what it answers.

use crate::aof::AofView;
use crate::b64::{decoded, from_base64};
use crate::clock::is_reading;
use crate::db::{list_step_ok, DbView, DB};
use crate::groups::{pushed_all, taken};
use crate::kv::{db_of, kv_after_read, kv_found};
use crate::le::le_bytes;
use crate::pipeline::{Pipeline, PipelineManager};
use crate::proto::{own_slices, slices_view, Command, CommandView, ParseError};
use crate::response::{
    bytes_list_fields, enc_entry, entries_fields, err_reply, ok_reply, stats_fields,
    strings_fields, ResponseBuilder,
};
use crate::seg_list::{fitting, item_fits, items_of, ListError};
use crate::seg_log::{after, refusal, LogError};
use crate::views::{copy_bytes, copy_str, vecs_view};
use crate::wire::enc_bytes;
use vstd::prelude::*;

verus! {

/// What is left to do for a command.
pub enum Handled {
    /// Nothing but to send this reply.
    Reply(Vec<u8>),
    /// To register the follower at this address.
    Register(String),
    /// To apply the log entries in these JSON documents.
    Sync(Vec<Vec<u8>>),
}

/// Whether a command asks for a range that is one, and asks a list for no more than it has.
pub open spec fn command_ok(db: DbView, c: CommandView) -> bool {
    match c {
        CommandView::ReadRange { group, start, end } => db.logs.contains_key(group) ==> start
            <= end,
        CommandView::LPop { key } => list_step_ok(db.lists, AofView::ListPop { key }),
        CommandView::LPopRange { key, start, end } => list_step_ok(
            db.lists,
            AofView::ListPopRange { key, start: start as usize, end: end as usize },
        ),
        CommandView::LPopCount { key, count } => list_step_ok(
            db.lists,
            AofView::ListPopCount { key, count: count as usize },
        ),
        _ => true,
    }
}

/// The milliseconds in a number of seconds, as far as they fit in 64 bits.
pub open spec fn millis(secs: u64) -> i64 {
    secs.wrapping_mul(1000) as i64
}

/// What is said of a group that does not exist, and of one that does.
pub open spec fn group_missing(name: Seq<char>) -> Seq<char> {
    "group '"@ + name + "' not found"@
}

pub open spec fn group_exists(name: Seq<char>) -> Seq<char> {
    "group '"@ + name + "' already exists"@
}

/// What is said of a log that refuses a request.
pub open spec fn log_refuses(e: LogError) -> Seq<char> {
    "log error: "@ + e.text()
}

/// The answer to a request that succeeds with nothing to tell.
pub open spec fn ok_empty_reply() -> Seq<u8> {
    ok_reply(Seq::empty())
}

/// `reply` answers a command on the groups, and takes the database from `before` to `now`.
pub open spec fn answers_log(before: DbView, now: DbView, c: CommandView, reply: Seq<u8>) -> bool {
    match c {
        CommandView::CreateGroup { name } => if before.logs.contains_key(name) {
            now == before && reply == err_reply("failed to create group: "@ + group_exists(name))
        } else {
            now == before.log_wrote(AofView::LogCreateGroup { name }) && reply == ok_empty_reply()
        },
        CommandView::DropGroup { name } => if before.logs.contains_key(name) {
            now == before.log_wrote(AofView::LogDropGroup { name }) && reply == ok_empty_reply()
        } else {
            now == before && reply == err_reply("failed to drop group: "@ + group_missing(name))
        },
        CommandView::Add { group, timestamp, payload } => if !before.logs.contains_key(group) {
            now == before && reply == err_reply(
                "failed to append to log: "@ + group_missing(group),
            )
        } else if before.logs[group].takes(payload) {
            &&& now == before.log_wrote(AofView::LogAdd { group, timestamp, payload })
            &&& reply == ok_reply(le_bytes(before.logs[group].next_id as nat, 8))
        } else {
            now == before.log_refused(group, payload) && reply == err_reply(
                "failed to append to log: "@ + log_refuses(refusal(payload)),
            )
        },
        CommandView::AddRange { group, entries } => if entries.len() == 0 {
            now == before && reply == err_reply(
                "failed to append range to log: "@ + log_refuses(LogError::EntryNotFound),
            )
        } else if !before.logs.contains_key(group) {
            now == before && reply == err_reply(
                "failed to append range to log: "@ + group_missing(group),
            )
        } else {
            let log = before.logs[group];
            let n = taken(log, entries);
            if n == entries.len() {
                &&& now == before.log_wrote(AofView::LogAddRange { group, entries })
                &&& reply == ok_reply(
                    le_bytes(log.next_id as nat, 8) + le_bytes(
                        pushed_all(log, entries.drop_last()).next_id as nat,
                        8,
                    ),
                )
            } else {
                &&& now == before.log_wrote_part(group, entries, n).log_refused(
                    group,
                    entries[n as int].1,
                )
                &&& reply == err_reply(
                    "failed to append range to log: "@ + log_refuses(
                        refusal(entries[n as int].1),
                    ),
                )
            }
        },
        CommandView::Read { group, id } => {
            &&& now == before
            &&& reply == (if !before.logs.contains_key(group) {
                err_reply("failed to read from log: "@ + group_missing(group))
            } else if before.logs[group].entries.contains_key(id) {
                ok_reply(enc_entry(before.logs[group].entries[id].triple()))
            } else {
                err_reply("failed to read from log: "@ + log_refuses(LogError::EntryNotFound))
            })
        },
        CommandView::ReadRange { group, start, end } => {
            &&& now == before
            &&& reply == (if before.logs.contains_key(group) {
                ok_reply(entries_fields(before.logs[group].range(start, end)))
            } else {
                err_reply("failed to read range from log: "@ + group_missing(group))
            })
        },
        CommandView::Remove { group, up_to_id } => if before.logs.contains_key(group) {
            &&& now == before.log_wrote(AofView::LogRemove { group, up_to_id })
            &&& reply == ok_empty_reply()
        } else {
            now == before && reply == err_reply(
                "failed to remove from log: "@ + group_missing(group),
            )
        },
        CommandView::ListGroups => {
            &&& now == before
            &&& exists|names: Seq<Seq<char>>|
                {
                    &&& names.no_duplicates()
                    &&& #[trigger] names.to_set() == before.logs.dom()
                    &&& reply == ok_reply(strings_fields(names))
                }
        },
        CommandView::GroupStats { group } => {
            &&& now == before
            &&& if before.logs.contains_key(group) {
                let log = before.logs[group];
                reply == ok_reply(stats_fields(log.count as u64, log.segs, log.next_id))
            } else {
                reply == err_reply("failed to read group stats: "@ + group_missing(group))
            }
        },
        _ => false,
    }
}

/// `now` is the database after a write to the key-value store, whatever the clock read.
pub open spec fn kv_wrote_sometime(before: DbView, now: DbView, e: AofView) -> bool {
    exists|t: i64, used: i64| #[trigger] before.kv_wrote(now, e, t, used)
}

/// `reply` gives what a read of a key finds, whatever the clock reads.
pub open spec fn answers_get(
    before: DbView,
    now: DbView,
    db: Seq<char>,
    key: Seq<char>,
    reply: Seq<u8>,
) -> bool {
    exists|t: i64, used: i64|
        {
            &&& now == before.with_kv(#[trigger] kv_after_read(before.kv, db, key, t, used))
            &&& reply == (match kv_found(before.kv, db, key, t, used) {
                Some(item) => ok_reply(enc_bytes(item.val)),
                None => ok_empty_reply(),
            })
        }
}

/// A command reads the wall clock only where it writes or reads a key, and goes by what it reads
/// then: `was` are the readings of the clock before the command, and `is` are those after it.
pub open spec fn by_the_clock(
    before: DbView,
    now: DbView,
    c: CommandView,
    reply: Seq<u8>,
    was: Seq<i64>,
    is: Seq<i64>,
) -> bool {
    match c {
        CommandView::SetKey { db, key, val, ttl_secs } => exists|t: i64, used: i64|
            {
                &&& #[trigger] before.kv_wrote(
                    now,
                    AofView::KvSet { db, key, val, ttl: millis(ttl_secs) },
                    t,
                    used,
                )
                &&& is == was.push(t).push(used)
            },
        CommandView::GetKey { db, key } => exists|t: i64, used: i64|
            {
                &&& now == before.with_kv(#[trigger] kv_after_read(before.kv, db, key, t, used))
                &&& reply == (match kv_found(before.kv, db, key, t, used) {
                    Some(item) => ok_reply(enc_bytes(item.val)),
                    None => ok_empty_reply(),
                })
                &&& is_reading(t) && is_reading(used)
                &&& is == was.push(t).push(used)
            },
        _ => is == was,
    }
}

/// `reply` answers a command on the databases, and takes the database from `before` to `now`.
pub open spec fn answers_kv(before: DbView, now: DbView, c: CommandView, reply: Seq<u8>) -> bool {
    match c {
        CommandView::SetKey { db, key, val, ttl_secs } => {
            &&& reply == ok_empty_reply()
            &&& kv_wrote_sometime(
                before,
                now,
                AofView::KvSet { db, key, val, ttl: millis(ttl_secs) },
            )
        },
        CommandView::GetKey { db, key } => answers_get(before, now, db, key, reply),
        CommandView::DelKey { db, key } => if db_of(before.kv, db).contains_key(key) {
            before.kv_wrote(now, AofView::KvDel { db, key }, 0, 0) && reply == ok_empty_reply()
        } else {
            &&& now == before.with_kv(before.kv.insert(db, db_of(before.kv, db).remove(key)))
            &&& reply == err_reply("failed to del key: "@ + (key + " not found"@))
        },
        CommandView::Keys { db } => {
            &&& now == before
            &&& exists|keys: Seq<Seq<char>>|
                {
                    &&& keys.no_duplicates()
                    &&& #[trigger] keys.to_set() == db_of(before.kv, db).dom()
                    &&& reply == ok_reply(strings_fields(keys))
                }
        },
        CommandView::Flush { db } => {
            &&& before.kv_wrote(now, AofView::KvFlush { db }, 0, 0)
            &&& reply == ok_empty_reply()
        },
        _ => false,
    }
}

/// `reply` answers a command on the lists, and takes the database from `before` to `now`.
pub open spec fn answers_list(before: DbView, now: DbView, c: CommandView, reply: Seq<u8>) -> bool {
    match c {
        CommandView::LPush { key, val } => if item_fits(val) {
            &&& now == before.list_wrote(AofView::ListPush { key, payload: val })
            &&& reply == ok_empty_reply()
        } else {
            now == before && reply == err_reply(
                "failed to push: "@ + ListError::EntryTooLarge.text(),
            )
        },
        CommandView::LPushRange { key, vals } => {
            let e = AofView::ListPushRange { key, items: vals };
            if fitting(vals) == vals.len() {
                now == before.list_wrote(e) && reply == ok_empty_reply()
            } else {
                &&& now == before.list_wrote_part(key, vals, fitting(vals))
                &&& reply == err_reply("failed to push range: "@ + ListError::EntryTooLarge.text())
            }
        },
        CommandView::LPop { key } => if before.lists.contains_key(key) {
            &&& now == before.list_wrote(AofView::ListPop { key })
            &&& reply == ok_reply(enc_bytes(before.lists[key][0]))
        } else {
            now == before && reply == err_reply("failed to pop: "@ + ListError::KeyNotFound.text())
        },
        CommandView::LPopRange { key, start, end } => if !before.lists.contains_key(key) {
            now == before && reply == err_reply(
                "failed to pop range: "@ + ListError::KeyNotFound.text(),
            )
        } else if end > before.lists[key].len() {
            now == before && reply == err_reply(
                "failed to pop range: "@ + ListError::OutOfRange.text(),
            )
        } else {
            &&& now == before.list_wrote(
                AofView::ListPopRange { key, start: start as usize, end: end as usize },
            )
            &&& reply == ok_reply(
                bytes_list_fields(before.lists[key].subrange(start as int, end as int)),
            )
        },
        CommandView::LPopCount { key, count } => if before.lists.contains_key(key) {
            &&& now == before.list_wrote(AofView::ListPopCount { key, count: count as usize })
            &&& reply == ok_reply(bytes_list_fields(before.lists[key].take(count as int)))
        } else {
            now == before && reply == err_reply(
                "failed to pop count: "@ + ListError::KeyNotFound.text(),
            )
        },
        CommandView::LLen { key } => {
            &&& now == (DbView {
                lists: before.lists.insert(key, items_of(before.lists, key)),
                ..before
            })
            &&& reply == ok_reply(le_bytes(items_of(before.lists, key).len(), 8))
        },
        CommandView::LFlush { key } => if before.lists.contains_key(key) {
            now == before.list_wrote(AofView::ListFlush { key }) && reply == ok_empty_reply()
        } else {
            now == before && reply == err_reply(
                "failed to flush list: "@ + ListError::KeyNotFound.text(),
            )
        },
        _ => false,
    }
}

pub open spec fn is_log_command(c: CommandView) -> bool {
    c is CreateGroup || c is DropGroup || c is Add || c is AddRange || c is Read || c is ReadRange
        || c is Remove || c is ListGroups || c is GroupStats
}

pub open spec fn is_kv_command(c: CommandView) -> bool {
    c is SetKey || c is GetKey || c is DelKey || c is Keys || c is Flush
}

pub open spec fn is_list_command(c: CommandView) -> bool {
    c is LPush || c is LPushRange || c is LPop || c is LPopRange || c is LPopCount || c is LLen
        || c is LFlush
}

/// `reply` answers a command on the stores, and takes the database from `before` to `now`.
pub open spec fn answers(before: DbView, now: DbView, c: CommandView, reply: Seq<u8>) -> bool {
    if is_log_command(c) {
        answers_log(before, now, c, reply)
    } else if is_kv_command(c) {
        answers_kv(before, now, c, reply)
    } else if is_list_command(c) {
        answers_list(before, now, c, reply)
    } else {
        // An acknowledgement, or the end of a pipeline.
        now == before && reply == ok_empty_reply()
    }
}

/// Whether a command can be handled: it asks for a range that is one, and asks a list for no
/// more than it has.
pub fn admits(db: &DB, cmd: &Command<'_>) -> (r: bool)
    requires
        db.wf(),
    ensures
        r == command_ok(db@, cmd@),
{
    match cmd {
        Command::ReadRange { group, start, end } => !db.has_group(group) || *start <= *end,
        Command::LPop { key } => match db.list_length(key) {
            Some(n) => n > 0,
            None => true,
        },
        Command::LPopRange { key, start, end } => match db.list_length(key) {
            Some(n) => *end as usize > n || *start <= *end,
            None => true,
        },
        Command::LPopCount { key, count } => match db.list_length(key) {
            Some(n) => *count as usize <= n,
            None => true,
        },
        _ => true,
    }
}

/// Handles a command on the groups.
fn handle_log_command(db: &mut DB, cmd: Command<'_>, rb: &mut ResponseBuilder) -> (r: Vec<u8>)
    requires
        old(db).wf(),
        command_ok(old(db)@, cmd@),
        is_log_command(cmd@),
    ensures
        final(db).wf(),
        final(db).clock() == old(db).clock(),
        answers_log(old(db)@, final(db)@, cmd@, r@),
        final(rb)@ == r@,
{
    match cmd {
        Command::CreateGroup { name } => match db.log_create_group(name) {
            Ok(()) => copy_bytes(rb.ok_empty()),
            Err(e) => copy_bytes(rb.err(e.message().as_str())),
        },
        Command::DropGroup { name } => match db.log_drop_group(name) {
            Ok(()) => copy_bytes(rb.ok_empty()),
            Err(e) => copy_bytes(rb.err(e.message().as_str())),
        },
        Command::Add { group, timestamp, payload } => match db.log_add(group, timestamp, payload) {
            Ok(id) => copy_bytes(rb.ok_u64(id)),
            Err(e) => copy_bytes(rb.err(e.message().as_str())),
        },
        Command::AddRange { group, entries } => match db.log_add_range(group, entries.as_slice()) {
            Ok((first, last)) => copy_bytes(rb.ok_u64_pair(first, last)),
            Err(e) => copy_bytes(rb.err(e.message().as_str())),
        },
        Command::Read { group, id } => match db.log_read(group, id) {
            Ok((id, ts, data)) => copy_bytes(rb.ok_entry(id, ts, data.as_slice())),
            Err(e) => copy_bytes(rb.err(e.message().as_str())),
        },
        Command::ReadRange { group, start, end } => match db.log_read_range(group, start, end) {
            Ok(entries) => copy_bytes(rb.ok_entries(entries.as_slice())),
            Err(e) => copy_bytes(rb.err(e.message().as_str())),
        },
        Command::Remove { group, up_to_id } => match db.log_remove(group, up_to_id) {
            Ok(()) => copy_bytes(rb.ok_empty()),
            Err(e) => copy_bytes(rb.err(e.message().as_str())),
        },
        Command::ListGroups => match db.log_list_groups() {
            Ok(list) => copy_bytes(rb.ok_group_list(list)),
            Err(e) => copy_bytes(rb.err(e.message().as_str())),
        },
        Command::GroupStats { group } => match db.log_group_stats(group) {
            Ok(stats) => copy_bytes(
                rb.ok_stats(stats.total_entries, stats.total_segments, stats.next_id),
            ),
            Err(e) => copy_bytes(rb.err(e.message().as_str())),
        },
        _ => copy_bytes(rb.ok_empty()),
    }
}

/// Handles a command on the databases.
fn handle_kv_command(db: &mut DB, cmd: Command<'_>, rb: &mut ResponseBuilder) -> (r: Vec<u8>)
    requires
        old(db).wf(),
        is_kv_command(cmd@),
    ensures
        final(db).wf(),
        answers_kv(old(db)@, final(db)@, cmd@, r@),
        by_the_clock(old(db)@, final(db)@, cmd@, r@, old(db).clock(), final(db).clock()),
        final(rb)@ == r@,
{
    let ghost was = db@;
    match cmd {
        Command::SetKey { db: d, key, val, ttl_secs } => {
            let ttl: i64 = ttl_secs.wrapping_mul(1000) as i64;
            let done = db.kv_set(copy_str(d), copy_str(key), copy_bytes(val), ttl);
            assert(kv_wrote_sometime(
                was,
                db@,
                AofView::KvSet { db: d@, key: key@, val: val@, ttl: millis(ttl_secs) },
            ));
            match done {
                Ok(()) => copy_bytes(rb.ok_empty()),
                Err(e) => copy_bytes(rb.err(e.message().as_str())),
            }
        },
        Command::GetKey { db: d, key } => {
            let found = db.kv_get(copy_str(d), copy_str(key));
            let ghost (t, used) = choose|t: i64, used: i64|
                {
                    &&& db@ == was.with_kv(#[trigger] kv_after_read(was.kv, d@, key@, t, used))
                    &&& is_reading(t) && is_reading(used)
                    &&& db.clock() == old(db).clock().push(t).push(used)
                    &&& match found {
                        Ok(Some(e)) => kv_found(was.kv, d@, key@, t, used) == Some(e@),
                        Ok(None) => kv_found(was.kv, d@, key@, t, used) is None,
                        Err(_) => false,
                    }
                };
            let r = match found {
                Ok(Some(entry)) => copy_bytes(rb.ok_bytes(entry.val.as_slice())),
                Ok(None) => copy_bytes(rb.ok_empty()),
                Err(e) => copy_bytes(rb.err(e.message().as_str())),
            };
            assert(db@ == was.with_kv(kv_after_read(was.kv, d@, key@, t, used)));
            assert(answers_get(was, db@, d@, key@, r@));
            r
        },
        Command::DelKey { db: d, key } => match db.kv_del(copy_str(d), copy_str(key)) {
            Ok(()) => copy_bytes(rb.ok_empty()),
            Err(e) => copy_bytes(rb.err(e.message().as_str())),
        },
        Command::Keys { db: d } => match db.kv_keys(copy_str(d)) {
            Ok(keys) => copy_bytes(rb.ok_string_list(keys.as_slice())),
            Err(e) => copy_bytes(rb.err(e.message().as_str())),
        },
        Command::Flush { db: d } => match db.kv_flush(copy_str(d)) {
            Ok(()) => copy_bytes(rb.ok_empty()),
            Err(e) => copy_bytes(rb.err(e.message().as_str())),
        },
        _ => copy_bytes(rb.ok_empty()),
    }
}

/// Handles a command on the lists.
fn handle_list_command(db: &mut DB, cmd: Command<'_>, rb: &mut ResponseBuilder) -> (r: Vec<u8>)
    requires
        old(db).wf(),
        command_ok(old(db)@, cmd@),
        is_list_command(cmd@),
    ensures
        final(db).wf(),
        final(db).clock() == old(db).clock(),
        answers_list(old(db)@, final(db)@, cmd@, r@),
        final(rb)@ == r@,
{
    match cmd {
        Command::LPush { key, val } => match db.list_push(copy_str(key), copy_bytes(val)) {
            Ok(()) => copy_bytes(rb.ok_empty()),
            Err(e) => copy_bytes(rb.err(e.message().as_str())),
        },
        Command::LPushRange { key, vals } => match db.list_push_range(
            copy_str(key),
            own_slices(&vals),
        ) {
            Ok(()) => copy_bytes(rb.ok_empty()),
            Err(e) => copy_bytes(rb.err(e.message().as_str())),
        },
        Command::LPop { key } => match db.list_pop(copy_str(key)) {
            Ok(val) => copy_bytes(rb.ok_bytes(val.as_slice())),
            Err(e) => copy_bytes(rb.err(e.message().as_str())),
        },
        Command::LPopRange { key, start, end } => match db.list_pop_range(
            copy_str(key),
            start as usize,
            end as usize,
        ) {
            Ok(vals) => copy_bytes(rb.ok_bytes_list(vals.as_slice())),
            Err(e) => copy_bytes(rb.err(e.message().as_str())),
        },
        Command::LPopCount { key, count } => match db.list_pop_count(
            copy_str(key),
            count as usize,
        ) {
            Ok(vals) => copy_bytes(rb.ok_bytes_list(vals.as_slice())),
            Err(e) => copy_bytes(rb.err(e.message().as_str())),
        },
        Command::LLen { key } => match db.list_len(copy_str(key)) {
            Ok(n) => copy_bytes(rb.ok_u64(n as u64)),
            Err(e) => copy_bytes(rb.err(e.message().as_str())),
        },
        Command::LFlush { key } => match db.list_flush(copy_str(key)) {
            Ok(()) => copy_bytes(rb.ok_empty()),
            Err(e) => copy_bytes(rb.err(e.message().as_str())),
        },
        _ => copy_bytes(rb.ok_empty()),
    }
}

/// Decodes the documents that a leader sent.
fn decode_all(s: &Vec<&[u8]>) -> (r: Vec<Vec<u8>>)
    ensures
        vecs_view(r@) == decoded_all(slices_view(s@)),
{
    let mut r: Vec<Vec<u8>> = Vec::new();
    let mut i: usize = 0;
    while i < s.len()
        invariant
            i <= s@.len(),
            r@.len() == i,
            forall|j: int| 0 <= j < i ==> (#[trigger] r@[j])@ == decoded(s@[j]@),
        decreases s@.len() - i,
    {
        r.push(from_base64(s[i]));
        i = i + 1;
    }
    assert(vecs_view(r@) =~= decoded_all(slices_view(s@)));
    r
}

/// The documents in encoded ones.
pub open spec fn decoded_all(s: Seq<Seq<u8>>) -> Seq<Seq<u8>> {
    Seq::new(s.len(), |i: int| decoded(s[i]))
}

/// Handles a command: does what it asks for and builds the reply, or says what is left to do.
pub fn handle_command(
    db: &mut DB,
    pipelines: &mut PipelineManager,
    cmd: Command<'_>,
    rb: &mut ResponseBuilder,
) -> (r: Handled)
    requires
        old(db).wf(),
        command_ok(old(db)@, cmd@),
    ensures
        final(db).wf(),
        match cmd@ {
            CommandView::StartPipeline => {
                &&& r matches Handled::Reply(b)
                &&& b@ == ok_reply(le_bytes(old(pipelines).upcoming() as nat, 8))
                &&& final(db)@ == old(db)@
                &&& final(pipelines).upcoming() == after(old(pipelines).upcoming())
                &&& exists|p: Pipeline|
                    {
                        &&& p.id == old(pipelines).upcoming()
                        &&& p.commands@.len() == 0
                        &&& final(pipelines)@ == #[trigger] old(pipelines)@.insert(p.id, p)
                    }
            },
            CommandView::HaRegisterFollower { addr } => {
                &&& r matches Handled::Register(a)
                &&& a@ == addr
                &&& final(db)@ == old(db)@
                &&& *final(pipelines) == *old(pipelines)
            },
            CommandView::HaSync { entries } => {
                &&& r matches Handled::Sync(docs)
                &&& vecs_view(docs@) == decoded_all(entries)
                &&& final(db)@ == old(db)@
                &&& *final(pipelines) == *old(pipelines)
            },
            c => {
                &&& r matches Handled::Reply(b)
                &&& answers(old(db)@, final(db)@, c, b@)
                &&& by_the_clock(
                    old(db)@,
                    final(db)@,
                    c,
                    b@,
                    old(db).clock(),
                    final(db).clock(),
                )
                &&& *final(pipelines) == *old(pipelines)
            },
        },
        final(rb)@ == (match r {
            Handled::Reply(b) => b@,
            _ => old(rb)@,
        }),
{
    let ghost before = pipelines@;
    match cmd {
        Command::StartPipeline {  } => {
            let id: u64 = pipelines.start();
            proof {
                let p = choose|p: Pipeline|
                    {
                        &&& p.id == id
                        &&& p.commands@.len() == 0
                        &&& pipelines@ == #[trigger] before.insert(id, p)
                    };
                assert(pipelines@ == before.insert(p.id, p));
            }
            Handled::Reply(copy_bytes(rb.ok_u64(id)))
        },
        Command::EndPipeline { id: _ } => Handled::Reply(copy_bytes(rb.ok_empty())),
        Command::HaHeartBeat {  } => Handled::Reply(copy_bytes(rb.ok_empty())),
        Command::HaRegisterFollower { addr } => Handled::Register(copy_str(addr)),
        Command::HaSync { entries } => Handled::Sync(decode_all(&entries)),
        Command::SetKey { .. }
        | Command::GetKey { .. }
        | Command::DelKey { .. }
        | Command::Keys { .. }
        | Command::Flush { .. } => Handled::Reply(handle_kv_command(db, cmd, rb)),
        Command::LPush { .. }
        | Command::LPushRange { .. }
        | Command::LPop { .. }
        | Command::LPopRange { .. }
        | Command::LPopCount { .. }
        | Command::LLen { .. }
        | Command::LFlush { .. } => Handled::Reply(handle_list_command(db, cmd, rb)),
        _ => Handled::Reply(handle_log_command(db, cmd, rb)),
    }
}

/// The reply to a frame that holds no command.
pub fn parse_failure(e: &ParseError, rb: &mut ResponseBuilder) -> (r: Vec<u8>)
    ensures
        r@ == err_reply("parse error: "@ + e.0@),
        final(rb)@ == r@,
{
    let mut m = copy_str("parse error: ");
    m.append(e.0);
    copy_bytes(rb.err(m.as_str()))
}

/// A pop is let through where the list has what it asks for, or where there is no such list, and a range
/// of entries where it does not end before it starts. Everything else is let through.
pub proof fn law_admitted_commands(
    db: &DB,
    name: &str,
    a: u64,
    b: u64,
    start: u32,
    end: u32,
    popping: bool,
    counting: bool,
    ranging: bool,
    reading: bool,
    listing: bool,
)
    requires
        call_ensures(admits, (db, &Command::LPop { key: name }), popping),
        call_ensures(admits, (db, &Command::LPopCount { key: name, count: end }), counting),
        call_ensures(admits, (db, &Command::LPopRange { key: name, start, end }), ranging),
        call_ensures(admits, (db, &Command::ReadRange { group: name, start: a, end: b }), reading),
        call_ensures(admits, (db, &Command::ListGroups), listing),
    ensures
        popping <==> !db@.lists.contains_key(name@) || db@.lists[name@].len() > 0,
        counting <==> !db@.lists.contains_key(name@) || end <= db@.lists[name@].len(),
        ranging <==> !db@.lists.contains_key(name@) || end > db@.lists[name@].len() || start <= end,
        reading <==> !db@.logs.contains_key(name@) || a <= b,
        listing,
{
}

} // verus!
