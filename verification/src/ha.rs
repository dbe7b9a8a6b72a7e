//! Replication: which followers there are, what is sent to them, and when they are given up.

use crate::aof::{entries_view, AofEntry, AofView};
use crate::b64::{encoded, law_base64_round_trip};
use crate::le::{le_bytes, push_le};
use crate::proto::{
    parse, parse_command, Command, CommandView, ParseError, HA_HEARTBEAT, HA_REGISTER, HA_SYNC,
    STATUS_OK,
};
use crate::response::{framed, push_byte_field, push_str_field};
use crate::server::decoded_all;
use crate::strmap::StrMap;
use crate::text::same_text;
use crate::views::{copy_str, push_bytes, strings_view};
use crate::wire::{
    command_fits, enc_bytes, enc_bytes_list, encode_command, law_parse_encoded_command, str_fits,
};
use vstd::prelude::*;
use vstd::utf8::encode_utf8;

verus! {

/// The addresses of the followers.
pub struct HaConf {
    pub followers: Vec<String>,
}

impl HaConf {
    pub fn new() -> (r: Self)
        ensures
            r.followers@.len() == 0,
    {
        HaConf { followers: Vec::new() }
    }
}

/// How many writes are sent at a time where nothing else is configured.
pub const DEFAULT_BUFFER_SIZE: usize = 100;

/// How many heartbeats a follower may miss.
pub const MAX_MISSED: u8 = 3;

/// Which texts are not `addr`.
pub open spec fn other_than(addr: Seq<char>) -> spec_fn(Seq<char>) -> bool {
    |f: Seq<char>| f != addr
}

/// What is known of the followers, and what is to be sent to them.
pub ghost struct HaView {
    pub followers: Seq<Seq<char>>,
    /// How many heartbeats a follower has missed.
    pub missed: Map<Seq<char>, u8>,
    /// The writes that have not been sent yet.
    pub pending: Seq<AofView>,
    pub buffer_size: nat,
}

impl HaView {
    /// How many heartbeats a follower has missed.
    pub open spec fn missed_by(self, addr: Seq<char>) -> u8 {
        if self.missed.contains_key(addr) {
            self.missed[addr]
        } else {
            0
        }
    }

    /// After a follower missed a heartbeat: the miss is counted, or the follower is dropped where
    /// it has missed too many before.
    pub open spec fn after_miss(self, addr: Seq<char>) -> HaView {
        if self.missed_by(addr) >= MAX_MISSED {
            HaView {
                followers: self.followers.filter(other_than(addr)),
                missed: self.missed.remove(addr),
                ..self
            }
        } else {
            HaView {
                missed: self.missed.insert(addr, (self.missed_by(addr) + 1) as u8),
                ..self
            }
        }
    }

    /// After a round of heartbeats: each of the addresses was asked, and some of them answered.
    pub open spec fn after_round(self, asked: Seq<Seq<char>>, answered: Seq<bool>) -> HaView
        decreases asked.len(),
    {
        if asked.len() == 0 {
            self
        } else {
            let before = self.after_round(asked.drop_last(), answered.drop_last());
            if answered.last() {
                before
            } else {
                before.after_miss(asked.last())
            }
        }
    }

    /// After rounds of heartbeats, in each of which the followers that there are were asked.
    pub open spec fn after_rounds(self, rounds: Seq<Seq<bool>>) -> HaView
        decreases rounds.len(),
    {
        if rounds.len() == 0 {
            self
        } else {
            let before = self.after_rounds(rounds.drop_last());
            before.after_round(before.followers, rounds.last())
        }
    }

    /// Whether in each of the rounds the followers that there are answered or not, and `f`, while
    /// it is one of them, answered as `answer` says.
    pub open spec fn answers(self, rounds: Seq<Seq<bool>>, f: Seq<char>, answer: bool) -> bool
        decreases rounds.len(),
    {
        rounds.len() > 0 ==> {
            let before = self.after_rounds(rounds.drop_last());
            &&& self.answers(rounds.drop_last(), f, answer)
            &&& rounds.last().len() == before.followers.len()
            &&& forall|i: int|
                0 <= i < before.followers.len() && #[trigger] before.followers[i] == f
                    ==> rounds.last()[i] == answer
        }
    }
}

/// Looks after the followers.
pub struct HaManager {
    conf: HaConf,
    follower_timeout: StrMap<u8>,
    uncommitted_events: Vec<AofEntry>,
    buffer_size: usize,
}

impl View for HaManager {
    type V = HaView;

    closed spec fn view(&self) -> HaView {
        HaView {
            followers: strings_view(self.conf.followers@),
            missed: self.follower_timeout@,
            pending: entries_view(self.uncommitted_events@),
            buffer_size: self.buffer_size as nat,
        }
    }
}

impl HaManager {
    pub closed spec fn wf(&self) -> bool {
        self.follower_timeout.wf()
    }

    /// A manager of the given followers that sends `buffer_size` writes at a time.
    pub fn new(conf: HaConf, buffer_size: Option<usize>) -> (r: Self)
        ensures
            r.wf(),
            r@ == (HaView {
                followers: strings_view(conf.followers@),
                missed: Map::empty(),
                pending: Seq::empty(),
                buffer_size: (match buffer_size {
                    Some(n) => n as nat,
                    None => DEFAULT_BUFFER_SIZE as nat,
                }),
            }),
    {
        let size: usize = match buffer_size {
            Some(n) => n,
            None => DEFAULT_BUFFER_SIZE,
        };
        let r = HaManager {
            conf,
            follower_timeout: StrMap::new(),
            uncommitted_events: Vec::new(),
            buffer_size: size,
        };
        assert(r@.pending =~= Seq::empty());
        r
    }

    /// Takes in a write. Once there are enough, gives those that are to be sent.
    pub fn push_event(&mut self, entry: AofEntry) -> (r: Option<Vec<AofEntry>>)
        requires
            old(self).wf(),
        ensures
            final(self).wf(),
            match r {
                Some(batch) => {
                    &&& old(self)@.pending.len() + 1 >= old(self)@.buffer_size
                    &&& entries_view(batch@) == old(self)@.pending.push(entry@)
                    &&& final(self)@ == (HaView { pending: Seq::empty(), ..old(self)@ })
                },
                None => {
                    &&& old(self)@.pending.len() + 1 < old(self)@.buffer_size
                    &&& final(self)@ == (HaView {
                        pending: old(self)@.pending.push(entry@),
                        ..old(self)@
                    })
                },
            },
    {
        let ghost before = self.uncommitted_events@;
        self.uncommitted_events.push(entry);
        assert(entries_view(self.uncommitted_events@) =~= entries_view(before).push(entry@));
        if self.uncommitted_events.len() >= self.buffer_size {
            let mut batch: Vec<AofEntry> = Vec::new();
            batch.append(&mut self.uncommitted_events);
            proof {
                assert(entries_view(batch@) =~= entries_view(before).push(entry@));
                assert(self@.pending =~= Seq::empty());
            }
            return Some(batch);
        }
        None
    }

    /// The addresses of the followers.
    pub fn followers(&self) -> (r: Vec<String>)
        ensures
            strings_view(r@) == self@.followers,
    {
        let mut r: Vec<String> = Vec::new();
        let mut i: usize = 0;
        while i < self.conf.followers.len()
            invariant
                i <= self.conf.followers@.len(),
                r@.len() == i,
                forall|j: int| 0 <= j < i ==> (#[trigger] r@[j])@ == self.conf.followers@[j]@,
            decreases self.conf.followers@.len() - i,
        {
            r.push(copy_str(self.conf.followers[i].as_str()));
            i = i + 1;
        }
        assert(strings_view(r@) =~= self@.followers);
        r
    }

    /// Adds a follower, if it has answered a heartbeat.
    pub fn register_follower(&mut self, addr: &str, heartbeat: Result<(), String>) -> (r: Result<
        (),
        String,
    >)
        requires
            old(self).wf(),
        ensures
            final(self).wf(),
            match heartbeat {
                Ok(()) => {
                    &&& r is Ok
                    &&& final(self)@ == (HaView {
                        followers: old(self)@.followers.push(addr@),
                        ..old(self)@
                    })
                },
                Err(e) => {
                    &&& r matches Err(m) && m@ == "failed to register follower: "@ + e@
                    &&& final(self)@ == old(self)@
                },
            },
    {
        match heartbeat {
            Ok(()) => {
                let ghost before = self.conf.followers@;
                self.conf.followers.push(copy_str(addr));
                assert(strings_view(self.conf.followers@) =~= strings_view(before).push(addr@));
                Ok(())
            },
            Err(e) => {
                let mut m = copy_str("failed to register follower: ");
                m.append(e.as_str());
                Err(m)
            },
        }
    }

    /// Takes note of a heartbeat that a follower did not answer.
    pub fn missed_heartbeat(&mut self, addr: &str)
        requires
            old(self).wf(),
        ensures
            final(self).wf(),
            final(self)@ == old(self)@.after_miss(addr@),
    {
        let count: u8 = match self.follower_timeout.get(addr) {
            Some(n) => *n,
            None => 0,
        };
        if count >= MAX_MISSED {
            self.drop_follower(addr);
            let _ = self.follower_timeout.remove(addr);
        } else {
            self.follower_timeout.insert(copy_str(addr), count + 1);
        }
    }

    /// Takes note of a round of heartbeats, given who was asked and whether each of them answered.
    pub fn heartbeat_followers(&mut self, asked: &Vec<String>, answered: &Vec<bool>)
        requires
            old(self).wf(),
            asked@.len() == answered@.len(),
        ensures
            final(self).wf(),
            final(self)@ == old(self)@.after_round(strings_view(asked@), answered@),
    {
        let ghost all = strings_view(asked@);
        let mut i: usize = 0;
        while i < asked.len()
            invariant
                i <= asked@.len(),
                asked@.len() == answered@.len(),
                all == strings_view(asked@),
                self.wf(),
                self@ == old(self)@.after_round(all.take(i as int), answered@.take(i as int)),
            decreases asked@.len() - i,
        {
            proof {
                assert(all.take(i + 1).drop_last() =~= all.take(i as int));
                assert(answered@.take(i + 1).drop_last() =~= answered@.take(i as int));
            }
            if !answered[i] {
                self.missed_heartbeat(asked[i].as_str());
            }
            i = i + 1;
        }
        assert(all.take(i as int) =~= all);
        assert(answered@.take(i as int) =~= answered@);
    }

    /// Drops a follower from the list.
    fn drop_follower(&mut self, addr: &str)
        ensures
            final(self).follower_timeout == old(self).follower_timeout,
            final(self).uncommitted_events == old(self).uncommitted_events,
            final(self).buffer_size == old(self).buffer_size,
            final(self)@.followers == old(self)@.followers.filter(other_than(addr@)),
    {
        reveal(Seq::filter);
        let ghost all = strings_view(self.conf.followers@);
        let ghost want = other_than(addr@);
        let mut kept: Vec<String> = Vec::new();
        let mut i: usize = 0;
        assert(strings_view(kept@) =~= all.take(0).filter(want));
        while i < self.conf.followers.len()
            invariant
                *self == *old(self),
                i <= self.conf.followers@.len(),
                all == strings_view(self.conf.followers@),
                want == other_than(addr@),
                strings_view(kept@) == all.take(i as int).filter(want),
            decreases self.conf.followers@.len() - i,
        {
            reveal(Seq::filter);
            let ghost before = kept@;
            assert(all.take(i + 1).drop_last() =~= all.take(i as int));
            if !same_text(self.conf.followers[i].as_str(), addr) {
                let name = copy_str(self.conf.followers[i].as_str());
                kept.push(name);
                assert(strings_view(kept@) =~= strings_view(before).push(name@));
            }
            i = i + 1;
        }
        assert(all.take(i as int) =~= all);
        self.conf.followers = kept;
    }
}

/// The frame by which a follower registers with its master.
pub fn register_frame(addr: &str) -> (r: Vec<u8>)
    ensures
        r@ == encode_command(CommandView::HaRegisterFollower { addr: addr@ }, Seq::empty()),
{
    let mut frame: Vec<u8> = Vec::new();
    frame.push(HA_REGISTER);
    assert(frame@ =~= seq![HA_REGISTER]);
    push_str_field(&mut frame, addr);
    frame
}

/// The frame by which a leader asks a follower for a sign of life.
pub fn heartbeat_frame() -> (r: Vec<u8>)
    ensures
        r@ == encode_command(CommandView::HaHeartBeat, Seq::empty()),
{
    let mut frame: Vec<u8> = Vec::new();
    frame.push(HA_HEARTBEAT);
    assert(frame@ =~= seq![HA_HEARTBEAT]);
    frame
}

/// The bytes of texts.
pub open spec fn texts_bytes(s: Seq<Seq<char>>) -> Seq<Seq<u8>> {
    Seq::new(s.len(), |i: int| encode_utf8(s[i]))
}

/// The frame by which a leader hands over encoded log entries.
pub fn sync_frame(entries: &Vec<String>) -> (r: Vec<u8>)
    ensures
        r@ == encode_command(
            CommandView::HaSync { entries: texts_bytes(strings_view(entries@)) },
            Seq::empty(),
        ),
{
    let ghost all = texts_bytes(strings_view(entries@));
    let mut frame: Vec<u8> = Vec::new();
    frame.push(HA_SYNC);
    push_le(&mut frame, entries.len() as u64, 4);
    assert(frame@ =~= seq![HA_SYNC] + le_bytes(all.len(), 4));
    let ghost head = frame@;
    let mut i: usize = 0;
    assert(all.skip(0) =~= all);
    while i < entries.len()
        invariant
            i <= entries@.len(),
            all == texts_bytes(strings_view(entries@)),
            frame@ + enc_bytes_list(all.skip(i as int)) == head + enc_bytes_list(all),
        decreases entries@.len() - i,
    {
        let ghost before = frame@;
        push_byte_field(&mut frame, entries[i].as_str().as_bytes());
        proof {
            let rest = all.skip(i as int);
            assert(rest[0] == encode_utf8(entries@[i as int]@));
            assert(rest.drop_first() =~= all.skip(i + 1));
            assert(before + (enc_bytes(rest[0]) + enc_bytes_list(rest.drop_first())) =~= frame@
                + enc_bytes_list(rest.drop_first()));
        }
        i = i + 1;
    }
    assert(frame@ + enc_bytes_list(all.skip(i as int)) =~= frame@);
    frame
}

/// A frame with its length in front.
pub fn with_length(frame: &[u8]) -> (r: Vec<u8>)
    ensures
        r@ == framed(frame@),
{
    let mut r: Vec<u8> = Vec::new();
    push_le(&mut r, frame.len() as u64, 4);
    push_bytes(&mut r, frame);
    assert(r@ =~= framed(frame@));
    r
}

/// Whether a reply is an acknowledgement; if not, `otherwise` says what went wrong.
fn acknowledged(reply: &[u8], otherwise: &str) -> (r: Result<(), String>)
    requires
        reply@.len() > 0,
    ensures
        match r {
            Ok(()) => reply@[0] == STATUS_OK,
            Err(m) => reply@[0] != STATUS_OK && m@ == otherwise@,
        },
{
    if reply[0] == STATUS_OK {
        Ok(())
    } else {
        Err(copy_str(otherwise))
    }
}

/// What a master's reply says of the registration of a follower.
pub fn check_registration(reply: &[u8], master: &str) -> (r: Result<(), String>)
    requires
        reply@.len() > 0,
    ensures
        match r {
            Ok(()) => reply@[0] == STATUS_OK,
            Err(m) => reply@[0] != STATUS_OK && m@ == "failed to register to master with addr: "@
                + master@,
        },
{
    let mut m = copy_str("failed to register to master with addr: ");
    m.append(master);
    acknowledged(reply, m.as_str())
}

/// What a follower's reply says to a heartbeat.
pub fn check_heartbeat(reply: &[u8]) -> (r: Result<(), String>)
    requires
        reply@.len() > 0,
    ensures
        match r {
            Ok(()) => reply@[0] == STATUS_OK,
            Err(m) => reply@[0] != STATUS_OK && m@ == "heartbeat did not respond successfully"@,
        },
{
    acknowledged(reply, "heartbeat did not respond successfully")
}

/// What a follower's reply says to entries that were handed over.
pub fn check_sync(reply: &[u8]) -> (r: Result<(), String>)
    requires
        reply@.len() > 0,
    ensures
        match r {
            Ok(()) => reply@[0] == STATUS_OK,
            Err(m) => reply@[0] != STATUS_OK && m@ == "sync failed"@,
        },
{
    acknowledged(reply, "sync failed")
}

/// The frames of replication are read by the other side as what they are.
pub proof fn law_replication_frames_parse(addr: Seq<char>, entries: Seq<Seq<u8>>)
    requires
        str_fits(addr),
        command_fits(CommandView::HaSync { entries }),
    ensures
        parse(encode_command(CommandView::HaRegisterFollower { addr }, Seq::empty())) == Ok::<
            CommandView,
            Seq<char>,
        >(CommandView::HaRegisterFollower { addr }),
        parse(encode_command(CommandView::HaHeartBeat, Seq::empty())) == Ok::<
            CommandView,
            Seq<char>,
        >(CommandView::HaHeartBeat),
        parse(encode_command(CommandView::HaSync { entries }, Seq::empty())) == Ok::<
            CommandView,
            Seq<char>,
        >(CommandView::HaSync { entries }),
{
    let none = Seq::<char>::empty();
    let e = Seq::<u8>::empty();
    assert(encode_utf8(none).len() == 0);
    let a = CommandView::HaRegisterFollower { addr };
    let b = CommandView::HaHeartBeat;
    let c = CommandView::HaSync { entries };
    law_parse_encoded_command(a, none, e);
    law_parse_encoded_command(b, none, e);
    law_parse_encoded_command(c, none, e);
    assert(encode_command(a, none) + e =~= encode_command(a, none));
    assert(encode_command(b, none) + e =~= encode_command(b, none));
    assert(encode_command(c, none) + e =~= encode_command(c, none));
}

/// The documents that a leader encodes and hands over are the documents that a follower gets.
pub proof fn law_sync_round_trip(docs: Seq<Seq<u8>>)
    ensures
        decoded_all(texts_bytes(Seq::new(docs.len(), |i: int| encoded(docs[i])))) == docs,
{
    let sent = texts_bytes(Seq::new(docs.len(), |i: int| encoded(docs[i])));
    assert forall|i: int| 0 <= i < docs.len() implies decoded_all(sent)[i] == docs[i] by {
        law_base64_round_trip(docs[i]);
    }
    assert(decoded_all(sent) =~= docs);
}

/// A follower that answers no heartbeat is dropped at the fourth, and not before.
pub proof fn law_dead_follower_is_dropped(ha: HaView, addr: Seq<char>)
    requires
        ha.followers.contains(addr),
        ha.missed_by(addr) == 0,
    ensures
        ({
            let third = ha.after_miss(addr).after_miss(addr).after_miss(addr);
            &&& third.followers == ha.followers
            &&& !third.after_miss(addr).followers.contains(addr)
            &&& third.after_miss(addr).missed_by(addr) == 0
        }),
{
    let want = other_than(addr);
    let left = ha.followers.filter(want);
    if left.contains(addr) {
        ha.followers.lemma_filter_pred(want, left.index_of(addr));
    }
}

/// Every other follower stays, whatever one of them misses.
pub proof fn law_other_followers_stay(ha: HaView, addr: Seq<char>, other: Seq<char>)
    requires
        other != addr,
        ha.followers.contains(other),
    ensures
        ha.after_miss(addr).followers.contains(other),
        ha.after_miss(addr).missed_by(other) == ha.missed_by(other),
{
    let i = ha.followers.index_of(other);
    ha.followers.lemma_filter_contains(other_than(addr), i);
}

/// What a miss leaves of the list of followers: no one joins it, and the one that is dropped is
/// not in it.
proof fn lemma_after_miss(ha: HaView, addr: Seq<char>, other: Seq<char>)
    ensures
        ha.after_miss(addr).followers.contains(other) ==> ha.followers.contains(other),
        ha.missed_by(addr) >= MAX_MISSED ==> !ha.after_miss(addr).followers.contains(addr),
        ha.missed_by(addr) < MAX_MISSED ==> ha.after_miss(addr).followers == ha.followers,
        ha.missed_by(addr) < MAX_MISSED ==> ha.after_miss(addr).missed_by(addr) == ha.missed_by(
            addr,
        ) + 1,
        other != addr ==> ha.after_miss(addr).missed_by(other) == ha.missed_by(other),
        other != addr ==> (ha.after_miss(addr).followers.contains(other)
            <==> ha.followers.contains(other)),
{
    let want = other_than(addr);
    let left = ha.followers.filter(want);
    if left.contains(addr) {
        ha.followers.lemma_filter_pred(want, left.index_of(addr));
    }
    if left.contains(other) {
        ha.followers.lemma_filter_contains_rev(want, other);
    }
    if ha.followers.contains(other) && other != addr {
        ha.followers.lemma_filter_contains(want, ha.followers.index_of(other));
    }
}

/// What a part of a round leaves of a follower that was not asked or answered, and of one that is
/// not in the list.
proof fn lemma_round(ha: HaView, asked: Seq<Seq<char>>, answered: Seq<bool>, f: Seq<char>)
    requires
        asked.len() == answered.len(),
    ensures
        ({
            let after = ha.after_round(asked, answered);
            &&& after.followers.contains(f) ==> ha.followers.contains(f)
            &&& (forall|j: int| 0 <= j < asked.len() && #[trigger] asked[j] == f ==> answered[j])
                ==> after.missed_by(f) == ha.missed_by(f) && (after.followers.contains(f)
                <==> ha.followers.contains(f))
        }),
    decreases asked.len(),
{
    if asked.len() > 0 {
        let a = asked.drop_last();
        let b = answered.drop_last();
        lemma_round(ha, a, b, f);
        lemma_after_miss(ha.after_round(a, b), asked.last(), f);
        if forall|j: int| 0 <= j < asked.len() && #[trigger] asked[j] == f ==> answered[j] {
            assert forall|j: int| 0 <= j < a.len() && #[trigger] a[j] == f implies b[j] by {
                assert(asked[j] == f);
            }
            assert(asked[asked.len() - 1] == asked.last());
        }
    }
}

/// A follower that has missed too many heartbeats before, and misses the one of this part of a
/// round, is not in the list behind it.
proof fn lemma_round_drops(ha: HaView, asked: Seq<Seq<char>>, answered: Seq<bool>, i: int)
    requires
        asked.len() == answered.len(),
        0 <= i < asked.len(),
        !answered[i],
        ha.missed_by(asked[i]) >= MAX_MISSED,
    ensures
        !ha.after_round(asked, answered).followers.contains(asked[i]),
    decreases asked.len(),
{
    let a = asked.drop_last();
    let b = answered.drop_last();
    let f = asked[i];
    let before = ha.after_round(a, b);
    lemma_after_miss(before, asked.last(), f);
    if exists|j: int| 0 <= j < a.len() && #[trigger] a[j] == f && !b[j] {
        let j = choose|j: int| 0 <= j < a.len() && #[trigger] a[j] == f && !b[j];
        lemma_round_drops(ha, a, b, j);
    } else {
        lemma_round(ha, a, b, f);
        assert(i == asked.len() - 1) by {
            if i < a.len() {
                assert(a[i] == f && !b[i]);
            }
        }
    }
}

/// In a round of heartbeats each follower is asked, whatever the others answer. One that answers
/// stays, one that does not answer after it has missed as many as it may is dropped, and one that
/// may still miss some stays, with one more miss. No one is dropped for the misses of another.
pub proof fn law_heartbeat_round(ha: HaView, answered: Seq<bool>, i: int)
    requires
        answered.len() == ha.followers.len(),
        0 <= i < ha.followers.len(),
    ensures
        ({
            let f = ha.followers[i];
            let after = ha.after_round(ha.followers, answered);
            &&& (forall|j: int|
                0 <= j < ha.followers.len() && #[trigger] ha.followers[j] == f ==> answered[j])
                ==> after.followers.contains(f) && after.missed_by(f) == ha.missed_by(f)
            &&& !answered[i] && ha.missed_by(f) >= MAX_MISSED ==> !after.followers.contains(f)
            &&& !answered[i] && ha.missed_by(f) < MAX_MISSED && ha.followers.no_duplicates()
                ==> after.followers.contains(f) && after.missed_by(f) == ha.missed_by(f) + 1
        }),
{
    let all = ha.followers;
    let f = all[i];
    lemma_round(ha, all, answered, f);
    if !answered[i] && ha.missed_by(f) >= MAX_MISSED {
        lemma_round_drops(ha, all, answered, i);
    }
    if !answered[i] && ha.missed_by(f) < MAX_MISSED && all.no_duplicates() {
        lemma_round_counts(ha, all, answered, i);
    }
}

/// A follower that is asked once in a part of a round, does not answer, and may still miss some,
/// has one more miss behind it.
proof fn lemma_round_counts(ha: HaView, asked: Seq<Seq<char>>, answered: Seq<bool>, i: int)
    requires
        asked.len() == answered.len(),
        asked.no_duplicates(),
        0 <= i < asked.len(),
        !answered[i],
        ha.missed_by(asked[i]) < MAX_MISSED,
    ensures
        ha.after_round(asked, answered).missed_by(asked[i]) == ha.missed_by(asked[i]) + 1,
        ha.after_round(asked, answered).followers.contains(asked[i]) <==> ha.followers.contains(
            asked[i],
        ),
    decreases asked.len(),
{
    let a = asked.drop_last();
    let b = answered.drop_last();
    let f = asked[i];
    lemma_after_miss(ha.after_round(a, b), asked.last(), f);
    if i < a.len() {
        assert(a[i] == f);
        lemma_round_counts(ha, a, b, i);
        assert(asked[asked.len() - 1] != f);
    } else {
        lemma_round(ha, a, b, f);
    }
}

/// No one is in the list twice, if no one was before.
proof fn lemma_filter_unique(s: Seq<Seq<char>>, addr: Seq<char>)
    requires
        s.no_duplicates(),
    ensures
        s.filter(other_than(addr)).no_duplicates(),
    decreases s.len(),
{
    reveal(Seq::filter);
    if s.len() > 0 {
        let rest = s.drop_last();
        let left = rest.filter(other_than(addr));
        lemma_filter_unique(rest, addr);
        if left.contains(s.last()) {
            rest.lemma_filter_contains_rev(other_than(addr), s.last());
            let j = rest.index_of(s.last());
            assert(s[j] == s[s.len() - 1]);
        }
        assert(!left.contains(s.last()));
    }
}

proof fn lemma_round_unique(ha: HaView, asked: Seq<Seq<char>>, answered: Seq<bool>)
    requires
        ha.followers.no_duplicates(),
    ensures
        ha.after_round(asked, answered).followers.no_duplicates(),
    decreases asked.len(),
{
    if asked.len() > 0 {
        lemma_round_unique(ha, asked.drop_last(), answered.drop_last());
        lemma_filter_unique(
            ha.after_round(asked.drop_last(), answered.drop_last()).followers,
            asked.last(),
        );
    }
}

/// Dead followers are detected: one that answers in no round stays through as many rounds as it
/// may miss, is dropped in the next, and does not come back. One that answers in every round stays
/// through all of them, whatever the others answer.
pub proof fn law_heartbeats_detect_dead_followers(
    ha: HaView,
    rounds: Seq<Seq<bool>>,
    f: Seq<char>,
)
    requires
        ha.followers.contains(f),
        ha.followers.no_duplicates(),
        ha.missed_by(f) == 0,
    ensures
        ha.after_rounds(rounds).followers.no_duplicates(),
        ha.answers(rounds, f, true) ==> ha.after_rounds(rounds).followers.contains(f)
            && ha.after_rounds(rounds).missed_by(f) == 0,
        ha.answers(rounds, f, false) && rounds.len() <= MAX_MISSED ==> ha.after_rounds(
            rounds,
        ).followers.contains(f) && ha.after_rounds(rounds).missed_by(f) == rounds.len(),
        ha.answers(rounds, f, false) && rounds.len() > MAX_MISSED ==> !ha.after_rounds(
            rounds,
        ).followers.contains(f),
    decreases rounds.len(),
{
    if rounds.len() > 0 {
        let rest = rounds.drop_last();
        let before = ha.after_rounds(rest);
        law_heartbeats_detect_dead_followers(ha, rest, f);
        lemma_round_unique(before, before.followers, rounds.last());
        if rounds.last().len() == before.followers.len() {
            lemma_round(before, before.followers, rounds.last(), f);
            if before.followers.contains(f) {
                let i = before.followers.index_of(f);
                assert(before.followers[i] == f);
                law_heartbeat_round(before, rounds.last(), i);
            }
        }
    }
}

/// A follower that answers is registered behind the others, and one that does not is not.
pub proof fn law_follower_is_registered(
    ha: &mut HaManager,
    addr: &str,
    heartbeat: Result<(), String>,
    r: Result<(), String>,
    after: &HaManager,
    followers: Vec<String>,
)
    requires
        call_ensures(HaManager::register_follower, (ha, addr, heartbeat), r),
        call_ensures(HaManager::followers, (after,), followers),
        final(ha)@ == after@,
    ensures
        r is Ok <==> heartbeat is Ok,
        heartbeat is Ok ==> strings_view(followers@) == old(ha)@.followers.push(addr@),
        heartbeat is Err ==> strings_view(followers@) == old(ha)@.followers,
        final(ha)@.pending == old(ha)@.pending && final(ha)@.missed == old(ha)@.missed,
{
}

/// Writes are kept for the followers until there are as many as are sent at a time. Then all of them
/// are handed out, in order, and none is kept.
pub proof fn law_writes_are_batched(
    ha: &mut HaManager,
    entry: AofEntry,
    r: Option<Vec<AofEntry>>,
)
    requires
        call_ensures(HaManager::push_event, (ha, entry), r),
    ensures
        r is Some <==> old(ha)@.pending.len() + 1 >= old(ha)@.buffer_size,
        ({
            let out = match r {
                Some(batch) => entries_view(batch@),
                None => Seq::empty(),
            };
            &&& out + final(ha)@.pending == old(ha)@.pending.push(entry@)
            &&& r is Some ==> final(ha)@.pending.len() == 0
        }),
        final(ha)@.followers == old(ha)@.followers,
{
    let all = old(ha)@.pending.push(entry@);
    match r {
        Some(batch) => {
            assert(entries_view(batch@) + final(ha)@.pending =~= all);
        },
        None => {
            assert(Seq::empty() + final(ha)@.pending =~= all);
        },
    }
}

/// A follower that has missed no heartbeat is still a follower after it has missed three in a row, and is
/// none after it has missed four.
pub proof fn law_four_misses_drop_a_follower(
    a: &mut HaManager,
    b: &mut HaManager,
    c: &mut HaManager,
    d: &mut HaManager,
    addr: &str,
    third: &HaManager,
    fourth: &HaManager,
    after_three: Vec<String>,
    after_four: Vec<String>,
)
    requires
        call_ensures(HaManager::missed_heartbeat, (a, addr), ()),
        call_ensures(HaManager::missed_heartbeat, (b, addr), ()),
        call_ensures(HaManager::missed_heartbeat, (c, addr), ()),
        call_ensures(HaManager::missed_heartbeat, (d, addr), ()),
        call_ensures(HaManager::followers, (third,), after_three),
        call_ensures(HaManager::followers, (fourth,), after_four),
        final(a)@ == old(b)@,
        final(b)@ == old(c)@,
        final(c)@ == old(d)@,
        final(c)@ == third@,
        final(d)@ == fourth@,
        old(a)@.missed_by(addr@) == 0,
    ensures
        strings_view(after_three@) == old(a)@.followers,
        !strings_view(after_four@).contains(addr@),
{
    lemma_after_miss(old(a)@, addr@, addr@);
    lemma_after_miss(old(b)@, addr@, addr@);
    lemma_after_miss(old(c)@, addr@, addr@);
    lemma_after_miss(old(d)@, addr@, addr@);
}

/// The address that a follower registers is the address that its master is told.
#[verifier::rlimit(50)]
pub proof fn law_register_frame_is_parsed(
    addr: &str,
    frame: Vec<u8>,
    body: &[u8],
    r: Result<Command<'_>, ParseError>,
)
    requires
        call_ensures(register_frame, (addr,), frame),
        call_ensures(parse_command, (body,), r),
        body@ == frame@,
        str_fits(addr@),
    ensures
        r matches Ok(Command::HaRegisterFollower { addr: got }) && got@ == addr@,
{
    law_replication_frames_parse(addr@, Seq::empty());
}

/// A heartbeat is understood as one.
#[verifier::rlimit(50)]
pub proof fn law_heartbeat_frame_is_parsed(
    frame: Vec<u8>,
    body: &[u8],
    r: Result<Command<'_>, ParseError>,
)
    requires
        call_ensures(heartbeat_frame, (), frame),
        call_ensures(parse_command, (body,), r),
        body@ == frame@,
    ensures
        r matches Ok(Command::HaHeartBeat {  }),
{
    assert(encode_utf8(Seq::empty()).len() == 0);
    law_replication_frames_parse(Seq::empty(), Seq::empty());
}

/// The documents that a leader hands over are the documents that a follower finds in the frame, in order.
#[verifier::rlimit(50)]
pub proof fn law_sync_frame_is_parsed(
    entries: &Vec<String>,
    frame: Vec<u8>,
    body: &[u8],
    r: Result<Command<'_>, ParseError>,
    i: int,
)
    requires
        call_ensures(sync_frame, (entries,), frame),
        call_ensures(parse_command, (body,), r),
        body@ == frame@,
        command_fits(CommandView::HaSync { entries: texts_bytes(strings_view(entries@)) }),
        0 <= i < entries@.len(),
    ensures
        r matches Ok(Command::HaSync { entries: got }) && got@.len() == entries@.len() && got@[i]@
            == encode_utf8(entries@[i]@),
{
    let all = texts_bytes(strings_view(entries@));
    assert(encode_utf8(Seq::empty()).len() == 0);
    law_replication_frames_parse(Seq::empty(), all);
    let got = (r->Ok_0)->HaSync_entries@;
    assert(crate::proto::slices_view(got) == all);
    assert(crate::proto::slices_view(got).len() == got.len());
    assert(crate::proto::slices_view(got)[i] == got[i]@);
}

/// A reply counts as an acknowledgement by its first byte alone.
pub proof fn law_acknowledgement(
    reply: &[u8],
    master: &str,
    a: Result<(), String>,
    b: Result<(), String>,
    c: Result<(), String>,
)
    requires
        reply@.len() > 0,
        call_ensures(check_registration, (reply, master), a),
        call_ensures(check_heartbeat, (reply,), b),
        call_ensures(check_sync, (reply,), c),
    ensures
        a is Ok <==> reply@[0] == 0,
        b is Ok <==> reply@[0] == 0,
        c is Ok <==> reply@[0] == 0,
{
}

/// A follower that answers every heartbeat of a round stays, and one that does not, and has missed three
/// already, does not stay.
pub proof fn law_round_of_heartbeats(
    ha: &mut HaManager,
    asked: &Vec<String>,
    answered: &Vec<bool>,
    after: &HaManager,
    followers: Vec<String>,
    i: int,
)
    requires
        call_ensures(HaManager::heartbeat_followers, (ha, asked, answered), ()),
        call_ensures(HaManager::followers, (after,), followers),
        final(ha)@ == after@,
        strings_view(asked@) == old(ha)@.followers,
        old(ha)@.followers.no_duplicates(),
        answered@.len() == asked@.len(),
        0 <= i < asked@.len(),
    ensures
        answered@[i] ==> strings_view(followers@).contains(asked@[i]@),
        !answered@[i] && old(ha)@.missed_by(asked@[i]@) >= 3 ==> !strings_view(
            followers@,
        ).contains(asked@[i]@),
        !answered@[i] && old(ha)@.missed_by(asked@[i]@) < 3 ==> strings_view(followers@).contains(
            asked@[i]@,
        ),
{
    assert(strings_view(asked@)[i] == asked@[i]@);
    law_heartbeat_round(old(ha)@, answered@, i);
}

/// Those who look after followers start with the followers that are configured, with nothing to send, and
/// with a hundred writes at a time where nothing else is configured.
pub proof fn law_new_manager(conf: HaConf, buffer_size: Option<usize>, ha: HaManager, followers: Vec<String>)
    requires
        call_ensures(HaManager::new, (conf, buffer_size), ha),
        call_ensures(HaManager::followers, (&ha,), followers),
    ensures
        strings_view(followers@) == strings_view(conf.followers@),
        ha@.pending.len() == 0,
        buffer_size is None ==> ha@.buffer_size == 100,
        buffer_size matches Some(n) ==> ha@.buffer_size == n,
{
}

} // verus!
