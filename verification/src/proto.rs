//! The commands of the binary protocol: their wire form and their parser.

use crate::le::{le_bytes, le_value, lemma_le_bytes_of_value, read_le};
use crate::text::utf8_str;
use crate::views::{copy_bytes, vecs_view};
use vstd::prelude::*;
use vstd::utf8::{decode_utf8, encode_utf8, valid_utf8};

verus! {

pub const CMD_CREATE_GROUP: u8 = 0x01;

pub const CMD_DROP_GROUP: u8 = 0x02;

pub const CMD_ADD: u8 = 0x03;

pub const CMD_ADD_RANGE: u8 = 0x04;

pub const CMD_READ: u8 = 0x05;

pub const CMD_READ_RANGE: u8 = 0x06;

pub const CMD_REMOVE: u8 = 0x07;

pub const CMD_LIST_GROUPS: u8 = 0x08;

pub const CMD_GROUP_STATS: u8 = 0x09;

pub const CMD_SET: u8 = 0x10;

pub const CMD_GET: u8 = 0x11;

pub const CMD_DEL: u8 = 0x12;

pub const CMD_KEYS: u8 = 0x13;

pub const CMD_FLUSH: u8 = 0x14;

pub const LPUSH: u8 = 0x15;

pub const LPUSH_RANGE: u8 = 0x16;

pub const LPOP: u8 = 0x17;

pub const LPOP_RANGE: u8 = 0x18;

pub const LPOP_COUNT: u8 = 0x19;

pub const LLEN: u8 = 0x20;

pub const LFLUSH: u8 = 0x21;

pub const HA_REGISTER: u8 = 0x22;

pub const HA_HEARTBEAT: u8 = 0x23;

pub const HA_SYNC: u8 = 0x24;

pub const STATUS_OK: u8 = 0x00;

pub const STATUS_ERR: u8 = 0x01;

/// A command, borrowing its text and payloads from the frame it was parsed from.
#[derive(Debug)]
#[allow(inconsistent_fields)]
pub enum Command<'a> {
    CreateGroup { name: &'a str },
    DropGroup { name: &'a str },
    Add { group: &'a str, timestamp: u64, payload: &'a [u8] },
    AddRange { group: &'a str, entries: Vec<(u64, &'a [u8])> },
    Read { group: &'a str, id: u64 },
    ReadRange { group: &'a str, start: u64, end: u64 },
    Remove { group: &'a str, up_to_id: u64 },
    ListGroups,
    GroupStats { group: &'a str },
    SetKey { db: &'a str, key: &'a str, val: &'a [u8], ttl_secs: u64 },
    GetKey { db: &'a str, key: &'a str },
    DelKey { db: &'a str, key: &'a str },
    Keys { db: &'a str },
    Flush { db: &'a str },
    LPush { key: &'a str, val: &'a [u8] },
    LPushRange { key: &'a str, vals: Vec<&'a [u8]> },
    LPop { key: &'a str },
    LPopRange { key: &'a str, start: u32, end: u32 },
    LPopCount { key: &'a str, count: u32 },
    LLen { key: &'a str },
    LFlush { key: &'a str },
    StartPipeline {  },
    EndPipeline { id: u64 },
    /// A follower announces its address and is added to the followers.
    HaRegisterFollower { addr: &'a str },
    /// The leader asks for an acknowledgement.
    HaHeartBeat {  },
    /// The leader hands over encoded log entries.
    HaSync { entries: Vec<&'a [u8]> },
}

/// Why a frame holds no command.
#[derive(Debug)]
pub struct ParseError(pub &'static str);

/// What a [`Command`] says, by value.
#[allow(inconsistent_fields)]
pub enum CommandView {
    CreateGroup { name: Seq<char> },
    DropGroup { name: Seq<char> },
    Add { group: Seq<char>, timestamp: u64, payload: Seq<u8> },
    AddRange { group: Seq<char>, entries: Seq<(u64, Seq<u8>)> },
    Read { group: Seq<char>, id: u64 },
    ReadRange { group: Seq<char>, start: u64, end: u64 },
    Remove { group: Seq<char>, up_to_id: u64 },
    ListGroups,
    GroupStats { group: Seq<char> },
    SetKey { db: Seq<char>, key: Seq<char>, val: Seq<u8>, ttl_secs: u64 },
    GetKey { db: Seq<char>, key: Seq<char> },
    DelKey { db: Seq<char>, key: Seq<char> },
    Keys { db: Seq<char> },
    Flush { db: Seq<char> },
    LPush { key: Seq<char>, val: Seq<u8> },
    LPushRange { key: Seq<char>, vals: Seq<Seq<u8>> },
    LPop { key: Seq<char> },
    LPopRange { key: Seq<char>, start: u32, end: u32 },
    LPopCount { key: Seq<char>, count: u32 },
    LLen { key: Seq<char> },
    LFlush { key: Seq<char> },
    StartPipeline,
    EndPipeline { id: u64 },
    HaRegisterFollower { addr: Seq<char> },
    HaHeartBeat,
    HaSync { entries: Seq<Seq<u8>> },
}

/// The contents of borrowed byte strings.
pub open spec fn slices_view(s: Seq<&[u8]>) -> Seq<Seq<u8>> {
    Seq::new(s.len(), |i: int| s[i]@)
}

/// Copies borrowed byte strings.
pub(crate) fn own_slices(s: &Vec<&[u8]>) -> (r: Vec<Vec<u8>>)
    ensures
        vecs_view(r@) == slices_view(s@),
{
    let mut r: Vec<Vec<u8>> = Vec::new();
    let mut i: usize = 0;
    while i < s.len()
        invariant
            i <= s@.len(),
            r@.len() == i,
            forall|j: int| 0 <= j < i ==> (#[trigger] r@[j])@ == s@[j]@,
        decreases s@.len() - i,
    {
        r.push(copy_bytes(s[i]));
        i = i + 1;
    }
    assert(vecs_view(r@) =~= slices_view(s@));
    r
}

/// The contents of timestamped borrowed byte strings.
pub open spec fn stamped_view(s: Seq<(u64, &[u8])>) -> Seq<(u64, Seq<u8>)> {
    Seq::new(s.len(), |i: int| (s[i].0, s[i].1@))
}

impl<'a> View for Command<'a> {
    type V = CommandView;

    open spec fn view(&self) -> CommandView {
        match *self {
            Command::CreateGroup { name } => CommandView::CreateGroup { name: name@ },
            Command::DropGroup { name } => CommandView::DropGroup { name: name@ },
            Command::Add { group, timestamp, payload } => CommandView::Add {
                group: group@,
                timestamp,
                payload: payload@,
            },
            Command::AddRange { group, entries } => CommandView::AddRange {
                group: group@,
                entries: stamped_view(entries@),
            },
            Command::Read { group, id } => CommandView::Read { group: group@, id },
            Command::ReadRange { group, start, end } => CommandView::ReadRange {
                group: group@,
                start,
                end,
            },
            Command::Remove { group, up_to_id } => CommandView::Remove { group: group@, up_to_id },
            Command::ListGroups => CommandView::ListGroups,
            Command::GroupStats { group } => CommandView::GroupStats { group: group@ },
            Command::SetKey { db, key, val, ttl_secs } => CommandView::SetKey {
                db: db@,
                key: key@,
                val: val@,
                ttl_secs,
            },
            Command::GetKey { db, key } => CommandView::GetKey { db: db@, key: key@ },
            Command::DelKey { db, key } => CommandView::DelKey { db: db@, key: key@ },
            Command::Keys { db } => CommandView::Keys { db: db@ },
            Command::Flush { db } => CommandView::Flush { db: db@ },
            Command::LPush { key, val } => CommandView::LPush { key: key@, val: val@ },
            Command::LPushRange { key, vals } => CommandView::LPushRange {
                key: key@,
                vals: slices_view(vals@),
            },
            Command::LPop { key } => CommandView::LPop { key: key@ },
            Command::LPopRange { key, start, end } => CommandView::LPopRange {
                key: key@,
                start,
                end,
            },
            Command::LPopCount { key, count } => CommandView::LPopCount { key: key@, count },
            Command::LLen { key } => CommandView::LLen { key: key@ },
            Command::LFlush { key } => CommandView::LFlush { key: key@ },
            Command::StartPipeline {  } => CommandView::StartPipeline,
            Command::EndPipeline { id } => CommandView::EndPipeline { id },
            Command::HaRegisterFollower { addr } => CommandView::HaRegisterFollower { addr: addr@ },
            Command::HaHeartBeat {  } => CommandView::HaHeartBeat,
            Command::HaSync { entries } => CommandView::HaSync { entries: slices_view(entries@) },
        }
    }
}

/// What reading a field at a position gives: the value and the position behind it, or the
/// reason why there is none.
pub type Taken<T> = Result<(T, nat), Seq<char>>;

/// The `n`-byte integer at `pos`, or `eof` where the frame ends first.
pub open spec fn take_uint(buf: Seq<u8>, pos: nat, n: nat, eof: Seq<char>) -> Taken<nat> {
    if pos + n > buf.len() {
        Err(eof)
    } else {
        Ok((le_value(buf.subrange(pos as int, (pos + n) as int)), pos + n))
    }
}

pub open spec fn take_u16(buf: Seq<u8>, pos: nat) -> Taken<nat> {
    take_uint(buf, pos, 2, "unexpected EOF reading u16"@)
}

pub open spec fn take_u32(buf: Seq<u8>, pos: nat) -> Taken<nat> {
    take_uint(buf, pos, 4, "unexpected EOF reading u32"@)
}

pub open spec fn take_u64(buf: Seq<u8>, pos: nat) -> Taken<nat> {
    take_uint(buf, pos, 8, "unexpected EOF reading u64"@)
}

/// A text field: a two-byte length, then that many bytes of UTF-8.
pub open spec fn take_str(buf: Seq<u8>, pos: nat) -> Taken<Seq<char>> {
    match take_u16(buf, pos) {
        Err(e) => Err(e),
        Ok((len, p)) => if p + len > buf.len() {
            Err("unexpected EOF reading string"@)
        } else {
            let bytes = buf.subrange(p as int, (p + len) as int);
            if valid_utf8(bytes) {
                Ok((decode_utf8(bytes), p + len))
            } else {
                Err("invalid UTF-8"@)
            }
        },
    }
}

/// A byte field: a four-byte length, then that many bytes.
pub open spec fn take_bytes(buf: Seq<u8>, pos: nat) -> Taken<Seq<u8>> {
    match take_u32(buf, pos) {
        Err(e) => Err(e),
        Ok((len, p)) => if p + len > buf.len() {
            Err("unexpected EOF reading bytes"@)
        } else {
            Ok((buf.subrange(p as int, (p + len) as int), p + len))
        },
    }
}

/// Two text fields.
pub open spec fn take_str_pair(buf: Seq<u8>, pos: nat) -> Taken<(Seq<char>, Seq<char>)> {
    match take_str(buf, pos) {
        Err(e) => Err(e),
        Ok((a, p)) => match take_str(buf, p) {
            Err(e) => Err(e),
            Ok((b, q)) => Ok(((a, b), q)),
        },
    }
}

/// A timestamp, then a byte field.
pub open spec fn take_stamped(buf: Seq<u8>, pos: nat) -> Taken<(u64, Seq<u8>)> {
    match take_u64(buf, pos) {
        Err(e) => Err(e),
        Ok((ts, p)) => match take_bytes(buf, p) {
            Err(e) => Err(e),
            Ok((b, q)) => Ok(((ts as u64, b), q)),
        },
    }
}

/// `count` byte fields.
pub open spec fn take_bytes_list(buf: Seq<u8>, pos: nat, count: nat) -> Taken<Seq<Seq<u8>>>
    decreases count,
{
    if count == 0 {
        Ok((Seq::empty(), pos))
    } else {
        match take_bytes(buf, pos) {
            Err(e) => Err(e),
            Ok((b, p)) => match take_bytes_list(buf, p, (count - 1) as nat) {
                Err(e) => Err(e),
                Ok((rest, q)) => Ok((seq![b] + rest, q)),
            },
        }
    }
}

/// `count` timestamped byte fields.
pub open spec fn take_stamped_list(buf: Seq<u8>, pos: nat, count: nat) -> Taken<
    Seq<(u64, Seq<u8>)>,
>
    decreases count,
{
    if count == 0 {
        Ok((Seq::empty(), pos))
    } else {
        match take_stamped(buf, pos) {
            Err(e) => Err(e),
            Ok((b, p)) => match take_stamped_list(buf, p, (count - 1) as nat) {
                Err(e) => Err(e),
                Ok((rest, q)) => Ok((seq![b] + rest, q)),
            },
        }
    }
}

/// A byte field list behind its four-byte count.
pub open spec fn take_counted_bytes(buf: Seq<u8>, pos: nat) -> Taken<Seq<Seq<u8>>> {
    match take_u32(buf, pos) {
        Err(e) => Err(e),
        Ok((count, p)) => take_bytes_list(buf, p, count),
    }
}

/// Timestamped byte fields behind their four-byte count.
pub open spec fn take_counted_stamped(buf: Seq<u8>, pos: nat) -> Taken<Seq<(u64, Seq<u8>)>> {
    match take_u32(buf, pos) {
        Err(e) => Err(e),
        Ok((count, p)) => take_stamped_list(buf, p, count),
    }
}

/// The command in a frame whose tag has the single text argument `name`.
pub open spec fn parsed_one(tag: u8, name: Seq<char>) -> CommandView {
    if tag == CMD_CREATE_GROUP {
        CommandView::CreateGroup { name }
    } else if tag == CMD_DROP_GROUP {
        CommandView::DropGroup { name }
    } else if tag == CMD_GROUP_STATS {
        CommandView::GroupStats { group: name }
    } else if tag == CMD_KEYS {
        CommandView::Keys { db: name }
    } else if tag == CMD_FLUSH {
        CommandView::Flush { db: name }
    } else {
        CommandView::HaRegisterFollower { addr: name }
    }
}

/// The command in a frame whose tag has the text arguments `db` and `key` and nothing more.
pub open spec fn parsed_two(tag: u8, db: Seq<char>, key: Seq<char>) -> CommandView {
    if tag == CMD_GET {
        CommandView::GetKey { db, key }
    } else if tag == CMD_DEL {
        CommandView::DelKey { db, key }
    } else if tag == LPOP {
        CommandView::LPop { key }
    } else if tag == LLEN {
        CommandView::LLen { key }
    } else {
        CommandView::LFlush { key }
    }
}

/// The commands on a log group that take more than its name.
pub open spec fn parse_group_args(tag: u8, frame: Seq<u8>) -> Result<CommandView, Seq<char>> {
    match take_str(frame, 1) {
        Err(e) => Err(e),
        Ok((group, p)) => if tag == CMD_ADD {
            match take_stamped(frame, p) {
                Err(e) => Err(e),
                Ok(((timestamp, payload), _)) => Ok(CommandView::Add { group, timestamp, payload }),
            }
        } else if tag == CMD_ADD_RANGE {
            match take_counted_stamped(frame, p) {
                Err(e) => Err(e),
                Ok((entries, _)) => Ok(CommandView::AddRange { group, entries }),
            }
        } else {
            match take_u64(frame, p) {
                Err(e) => Err(e),
                Ok((a, q)) => if tag == CMD_READ {
                    Ok(CommandView::Read { group, id: a as u64 })
                } else if tag == CMD_REMOVE {
                    Ok(CommandView::Remove { group, up_to_id: a as u64 })
                } else {
                    match take_u64(frame, q) {
                        Err(e) => Err(e),
                        Ok((b, _)) => Ok(
                            CommandView::ReadRange { group, start: a as u64, end: b as u64 },
                        ),
                    }
                },
            }
        },
    }
}

/// The commands on a key of a database that take more than the two names.
pub open spec fn parse_key_args(tag: u8, frame: Seq<u8>) -> Result<CommandView, Seq<char>> {
    match take_str_pair(frame, 1) {
        Err(e) => Err(e),
        Ok(((db, key), p)) => if tag == CMD_SET {
            match take_stamped(frame, p) {
                Err(e) => Err(e),
                Ok(((ttl_secs, val), _)) => Ok(CommandView::SetKey { db, key, val, ttl_secs }),
            }
        } else if tag == LPUSH {
            match take_bytes(frame, p) {
                Err(e) => Err(e),
                Ok((val, _)) => Ok(CommandView::LPush { key, val }),
            }
        } else if tag == LPUSH_RANGE {
            match take_counted_bytes(frame, p) {
                Err(e) => Err(e),
                Ok((vals, _)) => Ok(CommandView::LPushRange { key, vals }),
            }
        } else {
            match take_u32(frame, p) {
                Err(e) => Err(e),
                Ok((a, q)) => if tag == LPOP_COUNT {
                    Ok(CommandView::LPopCount { key, count: a as u32 })
                } else {
                    match take_u32(frame, q) {
                        Err(e) => Err(e),
                        Ok((b, _)) => Ok(
                            CommandView::LPopRange { key, start: a as u32, end: b as u32 },
                        ),
                    }
                },
            }
        },
    }
}

pub open spec fn is_one_name_tag(tag: u8) -> bool {
    tag == CMD_CREATE_GROUP || tag == CMD_DROP_GROUP || tag == CMD_GROUP_STATS || tag == CMD_KEYS
        || tag == CMD_FLUSH || tag == HA_REGISTER
}

pub open spec fn is_group_tag(tag: u8) -> bool {
    tag == CMD_ADD || tag == CMD_ADD_RANGE || tag == CMD_READ || tag == CMD_READ_RANGE || tag
        == CMD_REMOVE
}

pub open spec fn is_two_name_tag(tag: u8) -> bool {
    tag == CMD_GET || tag == CMD_DEL || tag == LPOP || tag == LLEN || tag == LFLUSH
}

pub open spec fn is_key_tag(tag: u8) -> bool {
    tag == CMD_SET || tag == LPUSH || tag == LPUSH_RANGE || tag == LPOP_RANGE || tag == LPOP_COUNT
}

/// The command in a frame, or the reason why there is none. Bytes behind the last field of a
/// command are ignored.
pub open spec fn parse(frame: Seq<u8>) -> Result<CommandView, Seq<char>> {
    if frame.len() == 0 {
        Err("empty frame"@)
    } else {
        let tag = frame[0];
        if is_one_name_tag(tag) {
            match take_str(frame, 1) {
                Err(e) => Err(e),
                Ok((name, _)) => Ok(parsed_one(tag, name)),
            }
        } else if is_two_name_tag(tag) {
            match take_str_pair(frame, 1) {
                Err(e) => Err(e),
                Ok(((db, key), _)) => Ok(parsed_two(tag, db, key)),
            }
        } else if is_group_tag(tag) {
            parse_group_args(tag, frame)
        } else if is_key_tag(tag) {
            parse_key_args(tag, frame)
        } else if tag == CMD_LIST_GROUPS {
            Ok(CommandView::ListGroups)
        } else if tag == HA_HEARTBEAT {
            Ok(CommandView::HaHeartBeat)
        } else if tag == HA_SYNC {
            match take_counted_bytes(frame, 1) {
                Err(e) => Err(e),
                Ok((entries, _)) => Ok(CommandView::HaSync { entries }),
            }
        } else {
            Err("unknown command tag"@)
        }
    }
}

/// A position in a frame.
pub(crate) struct Cursor<'a> {
    pub(crate) buf: &'a [u8],
    pub(crate) pos: usize,
}

impl<'a> Cursor<'a> {
    pub(crate) open spec fn wf(&self) -> bool {
        self.pos <= self.buf.len()
    }

    /// What reading one field says of the cursor before and after.
    pub(crate) open spec fn took<T, U>(before: Self, after: Self, got: Result<T, ParseError>, val: U, want: Taken<U>) -> bool {
        &&& after.wf()
        &&& after.buf@ == before.buf@
        &&& match got {
            Ok(_) => want == Ok::<(U, nat), Seq<char>>((val, after.pos as nat)),
            Err(e) => want == Err::<(U, nat), Seq<char>>(e.0@),
        }
    }

    pub(crate) fn new(buf: &'a [u8]) -> (c: Self)
        ensures
            c.wf(),
            c.buf@ == buf@,
            c.pos == 0,
    {
        Cursor { buf, pos: 0 }
    }

    fn remaining(&self) -> (n: usize)
        requires
            self.wf(),
        ensures
            n == self.buf.len() - self.pos,
    {
        self.buf.len() - self.pos
    }

    pub(crate) fn read_u8(&mut self) -> (r: Result<u8, ParseError>)
        requires
            old(self).wf(),
        ensures
            final(self).wf(),
            final(self).buf@ == old(self).buf@,
            match r {
                Ok(v) => old(self).pos < old(self).buf@.len() && v == old(self).buf@[old(self).pos as int] && final(self).pos == old(self).pos + 1,
                Err(e) => old(self).pos == old(self).buf@.len() && e.0@
                    == "unexpected EOF reading u8"@,
            },
    {
        if self.remaining() < 1 {
            return Err(ParseError("unexpected EOF reading u8"));
        }
        let v: u8 = self.buf[self.pos];
        self.pos = self.pos + 1;
        Ok(v)
    }

    pub(crate) fn read_u16_le(&mut self) -> (r: Result<u16, ParseError>)
        requires
            old(self).wf(),
        ensures
            Self::took(
                *old(self),
                *final(self),
                r,
                r->Ok_0 as nat,
                take_u16(old(self).buf@, old(self).pos as nat),
            ),
    {
        if self.remaining() < 2 {
            return Err(ParseError("unexpected EOF reading u16"));
        }
        let v: u64 = read_le(self.buf, self.pos, 2);
        proof {
            crate::le::lemma_le_limits();
            crate::le::lemma_le_value_bound(self.buf@.subrange(self.pos as int, self.pos + 2));
        }
        self.pos = self.pos + 2;
        Ok(v as u16)
    }

    pub(crate) fn read_u32_le(&mut self) -> (r: Result<u32, ParseError>)
        requires
            old(self).wf(),
        ensures
            Self::took(
                *old(self),
                *final(self),
                r,
                r->Ok_0 as nat,
                take_u32(old(self).buf@, old(self).pos as nat),
            ),
    {
        if self.remaining() < 4 {
            return Err(ParseError("unexpected EOF reading u32"));
        }
        let v: u64 = read_le(self.buf, self.pos, 4);
        proof {
            crate::le::lemma_le_limits();
            crate::le::lemma_le_value_bound(self.buf@.subrange(self.pos as int, self.pos + 4));
        }
        self.pos = self.pos + 4;
        Ok(v as u32)
    }

    pub(crate) fn read_u64_le(&mut self) -> (r: Result<u64, ParseError>)
        requires
            old(self).wf(),
        ensures
            Self::took(
                *old(self),
                *final(self),
                r,
                r->Ok_0 as nat,
                take_u64(old(self).buf@, old(self).pos as nat),
            ),
    {
        if self.remaining() < 8 {
            return Err(ParseError("unexpected EOF reading u64"));
        }
        let v: u64 = read_le(self.buf, self.pos, 8);
        self.pos = self.pos + 8;
        Ok(v)
    }

    pub(crate) fn read_str(&mut self) -> (r: Result<&'a str, ParseError>)
        requires
            old(self).wf(),
        ensures
            Self::took(
                *old(self),
                *final(self),
                r,
                r->Ok_0@,
                take_str(old(self).buf@, old(self).pos as nat),
            ),
    {
        let len: usize = self.read_u16_le()? as usize;
        if self.remaining() < len {
            return Err(ParseError("unexpected EOF reading string"));
        }
        match utf8_str(vstd::slice::slice_subrange(self.buf, self.pos, self.pos + len)) {
            Some(s) => {
                self.pos = self.pos + len;
                Ok(s)
            },
            None => Err(ParseError("invalid UTF-8")),
        }
    }

    pub(crate) fn read_bytes(&mut self) -> (r: Result<&'a [u8], ParseError>)
        requires
            old(self).wf(),
        ensures
            Self::took(
                *old(self),
                *final(self),
                r,
                r->Ok_0@,
                take_bytes(old(self).buf@, old(self).pos as nat),
            ),
    {
        let len: usize = self.read_u32_le()? as usize;
        if self.remaining() < len {
            return Err(ParseError("unexpected EOF reading bytes"));
        }
        let slice = vstd::slice::slice_subrange(self.buf, self.pos, self.pos + len);
        self.pos = self.pos + len;
        Ok(slice)
    }
}

/// Reads `count` byte fields.
pub(crate) fn read_bytes_list<'a>(cur: &mut Cursor<'a>, count: usize) -> (r: Result<Vec<&'a [u8]>, ParseError>)
    requires
        old(cur).wf(),
    ensures
        Cursor::took(
            *old(cur),
            *final(cur),
            r,
            slices_view(r->Ok_0@),
            take_bytes_list(old(cur).buf@, old(cur).pos as nat, count as nat),
        ),
{
    let mut vals: Vec<&'a [u8]> = Vec::new();
    let mut i: usize = 0;
    let ghost start = cur.pos as nat;
    while i < count
        invariant
            i <= count,
            cur.wf(),
            cur.buf@ == old(cur).buf@,
            start == old(cur).pos,
            take_bytes_list(cur.buf@, start, count as nat) == (match take_bytes_list(
                cur.buf@,
                cur.pos as nat,
                (count - i) as nat,
            ) {
                Err(e) => Err(e),
                Ok((rest, q)) => Ok((slices_view(vals@) + rest, q)),
            }),
        decreases count - i,
    {
        let val = cur.read_bytes()?;
        proof {
            assert forall|rest: Seq<Seq<u8>>| #[trigger]
                (slices_view(vals@) + (seq![val@] + rest)) == slices_view(vals@.push(val)) + rest by {
                assert(slices_view(vals@) + (seq![val@] + rest) =~= slices_view(vals@.push(val))
                    + rest);
            }
        }
        vals.push(val);
        i = i + 1;
    }
    proof {
        assert(slices_view(vals@) + Seq::<Seq<u8>>::empty() =~= slices_view(vals@));
    }
    Ok(vals)
}

/// Reads `count` timestamped byte fields.
fn read_stamped_list<'a>(cur: &mut Cursor<'a>, count: usize) -> (r: Result<
    Vec<(u64, &'a [u8])>,
    ParseError,
>)
    requires
        old(cur).wf(),
    ensures
        Cursor::took(
            *old(cur),
            *final(cur),
            r,
            stamped_view(r->Ok_0@),
            take_stamped_list(old(cur).buf@, old(cur).pos as nat, count as nat),
        ),
{
    let mut vals: Vec<(u64, &'a [u8])> = Vec::new();
    let mut i: usize = 0;
    let ghost start = cur.pos as nat;
    while i < count
        invariant
            i <= count,
            cur.wf(),
            cur.buf@ == old(cur).buf@,
            start == old(cur).pos,
            take_stamped_list(cur.buf@, start, count as nat) == (match take_stamped_list(
                cur.buf@,
                cur.pos as nat,
                (count - i) as nat,
            ) {
                Err(e) => Err(e),
                Ok((rest, q)) => Ok((stamped_view(vals@) + rest, q)),
            }),
        decreases count - i,
    {
        let ts: u64 = cur.read_u64_le()?;
        let payload = cur.read_bytes()?;
        let ghost val = (ts, payload@);
        proof {
            assert forall|rest: Seq<(u64, Seq<u8>)>| #[trigger]
                (stamped_view(vals@) + (seq![val] + rest)) == stamped_view(
                vals@.push((ts, payload)),
            ) + rest by {
                assert(stamped_view(vals@) + (seq![val] + rest) =~= stamped_view(
                    vals@.push((ts, payload)),
                ) + rest);
            }
        }
        vals.push((ts, payload));
        i = i + 1;
    }
    proof {
        assert(stamped_view(vals@) + Seq::<(u64, Seq<u8>)>::empty() =~= stamped_view(vals@));
    }
    Ok(vals)
}

/// Parses the command in a frame.
#[verifier::rlimit(80)]
pub fn parse_command(frame: &[u8]) -> (r: Result<Command<'_>, ParseError>)
    ensures
        match r {
            Ok(c) => parse(frame@) == Ok::<CommandView, Seq<char>>(c@),
            Err(e) => parse(frame@) == Err::<CommandView, Seq<char>>(e.0@),
        },
{
    if frame.is_empty() {
        return Err(ParseError("empty frame"));
    }
    let mut cur = Cursor::new(frame);
    let tag: u8 = cur.read_u8()?;
    match tag {
        CMD_CREATE_GROUP => Ok(Command::CreateGroup { name: cur.read_str()? }),
        CMD_DROP_GROUP => Ok(Command::DropGroup { name: cur.read_str()? }),
        CMD_ADD => {
            let group = cur.read_str()?;
            let timestamp: u64 = cur.read_u64_le()?;
            let payload = cur.read_bytes()?;
            Ok(Command::Add { group, timestamp, payload })
        },
        CMD_ADD_RANGE => {
            let group = cur.read_str()?;
            let count: usize = cur.read_u32_le()? as usize;
            let entries = read_stamped_list(&mut cur, count)?;
            Ok(Command::AddRange { group, entries })
        },
        CMD_READ => {
            let group = cur.read_str()?;
            let id: u64 = cur.read_u64_le()?;
            Ok(Command::Read { group, id })
        },
        CMD_READ_RANGE => {
            let group = cur.read_str()?;
            let start: u64 = cur.read_u64_le()?;
            let end: u64 = cur.read_u64_le()?;
            Ok(Command::ReadRange { group, start, end })
        },
        CMD_REMOVE => {
            let group = cur.read_str()?;
            let up_to_id: u64 = cur.read_u64_le()?;
            Ok(Command::Remove { group, up_to_id })
        },
        CMD_LIST_GROUPS => Ok(Command::ListGroups),
        CMD_GROUP_STATS => Ok(Command::GroupStats { group: cur.read_str()? }),
        CMD_SET => {
            let db = cur.read_str()?;
            let key = cur.read_str()?;
            let ttl_secs: u64 = cur.read_u64_le()?;
            let val = cur.read_bytes()?;
            Ok(Command::SetKey { db, key, val, ttl_secs })
        },
        CMD_GET => {
            let db = cur.read_str()?;
            let key = cur.read_str()?;
            Ok(Command::GetKey { db, key })
        },
        CMD_DEL => {
            let db = cur.read_str()?;
            let key = cur.read_str()?;
            Ok(Command::DelKey { db, key })
        },
        CMD_KEYS => Ok(Command::Keys { db: cur.read_str()? }),
        CMD_FLUSH => Ok(Command::Flush { db: cur.read_str()? }),
        LPUSH => {
            let _db = cur.read_str()?;
            let key = cur.read_str()?;
            let val = cur.read_bytes()?;
            Ok(Command::LPush { key, val })
        },
        LPUSH_RANGE => {
            let _db = cur.read_str()?;
            let key = cur.read_str()?;
            let count: usize = cur.read_u32_le()? as usize;
            let vals = read_bytes_list(&mut cur, count)?;
            Ok(Command::LPushRange { key, vals })
        },
        LPOP => {
            let _db = cur.read_str()?;
            let key = cur.read_str()?;
            Ok(Command::LPop { key })
        },
        LPOP_RANGE => {
            let _db = cur.read_str()?;
            let key = cur.read_str()?;
            let start: u32 = cur.read_u32_le()?;
            let end: u32 = cur.read_u32_le()?;
            Ok(Command::LPopRange { key, start, end })
        },
        LPOP_COUNT => {
            let _db = cur.read_str()?;
            let key = cur.read_str()?;
            let count: u32 = cur.read_u32_le()?;
            Ok(Command::LPopCount { key, count })
        },
        LLEN => {
            let _db = cur.read_str()?;
            let key = cur.read_str()?;
            Ok(Command::LLen { key })
        },
        LFLUSH => {
            let _db = cur.read_str()?;
            let key = cur.read_str()?;
            Ok(Command::LFlush { key })
        },
        HA_REGISTER => Ok(Command::HaRegisterFollower { addr: cur.read_str()? }),
        HA_HEARTBEAT => Ok(Command::HaHeartBeat {  }),
        HA_SYNC => {
            let count: usize = cur.read_u32_le()? as usize;
            let entries = read_bytes_list(&mut cur, count)?;
            Ok(Command::HaSync { entries })
        },
        _ => Err(ParseError("unknown command tag")),
    }
}

/// A field that is read from a frame is all there, and is what stands in the frame. Where the frame ends
/// before the field does, and where a text is not UTF-8, there is no such field.
pub proof fn law_fields_are_whole(buf: Seq<u8>, pos: nat, n: nat, eof: Seq<char>)
    ensures
        pos + n > buf.len() ==> take_uint(buf, pos, n, eof) is Err,
        take_uint(buf, pos, n, eof) matches Ok((v, p)) ==> p == pos + n && p <= buf.len() && le_bytes(
            v,
            n,
        ) == buf.subrange(pos as int, p as int),
        pos + 2 > buf.len() ==> take_str(buf, pos) is Err,
        take_str(buf, pos) matches Ok((s, p)) ==> {
            &&& pos + 2 <= p <= buf.len()
            &&& encode_utf8(s) == buf.subrange(pos as int + 2, p as int)
            &&& le_bytes((p - pos - 2) as nat, 2) == buf.subrange(pos as int, pos as int + 2)
        },
        pos + 4 > buf.len() ==> take_bytes(buf, pos) is Err,
        take_bytes(buf, pos) matches Ok((b, p)) ==> {
            &&& pos + 4 <= p <= buf.len()
            &&& b == buf.subrange(pos as int + 4, p as int)
            &&& le_bytes(b.len(), 4) == buf.subrange(pos as int, pos as int + 4)
        },
{
    if pos + n <= buf.len() {
        lemma_le_bytes_of_value(buf.subrange(pos as int, (pos + n) as int));
    }
    if pos + 2 <= buf.len() {
        lemma_le_bytes_of_value(buf.subrange(pos as int, (pos + 2) as int));
        if let Ok((s, p)) = take_str(buf, pos) {
            vstd::utf8::decode_utf8_encode_utf8(buf.subrange(pos as int + 2, p as int));
        }
    }
    if pos + 4 <= buf.len() {
        lemma_le_bytes_of_value(buf.subrange(pos as int, (pos + 4) as int));
    }
}

/// A frame is refused where it is empty, where it starts with no tag of a command, and where the first
/// text that its command needs is not all there.
pub proof fn law_frames_are_refused(frame: &[u8], r: Result<Command<'_>, ParseError>)
    requires
        call_ensures(parse_command, (frame,), r),
    ensures
        frame@.len() == 0 ==> (r matches Err(e) && e.0@ == "empty frame"@),
        frame@.len() > 0 && frame@[0] >= 0x25 ==> (r matches Err(e) && e.0@ == "unknown command tag"@),
        r is Ok && frame@.len() < 3 ==> r matches Ok(Command::ListGroups) || r matches Ok(
            Command::HaHeartBeat {  },
        ),
{
}

} // verus!
