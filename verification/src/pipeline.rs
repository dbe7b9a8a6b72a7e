//! Pipelines: batches of writes that run as one job, and the order in which jobs run.

use crate::aof::AofView;
use crate::db::{list_step_ok, DBError, DbView, Undo, DB};
use crate::groups::GroupError;
use crate::kv::{db_of, made_room, written, DbItems, KvError};
use crate::seg_list::{item_fits, pushed, ListError};
use crate::seg_log::refusal;
use crate::views::copy_str;
use std::collections::BTreeMap;
use vstd::prelude::*;

verus! {

/// What a job needs for itself while it runs.
#[derive(Debug, Clone, Copy, PartialEq, Eq, Hash, Structural)]
pub enum Resource {
    Kv,
    List,
    Log,
}

/// A write of a pipeline.
#[derive(Debug, Clone)]
pub enum PipelineCommand {
    KvSet { db: String, key: String, val: Vec<u8>, ttl: i64 },
    KvDel { db: String, key: String },
    KvFlush { db: String },
    ListPush { key: String, payload: Vec<u8> },
    ListPop { key: String },
    ListFlush { key: String },
    LogAdd { group: String, timestamp: u64, payload: Vec<u8> },
}

impl View for PipelineCommand {
    type V = AofView;

    /// The write, as it is logged.
    open spec fn view(&self) -> AofView {
        match *self {
            PipelineCommand::KvSet { db, key, val, ttl } => AofView::KvSet {
                db: db@,
                key: key@,
                val: val@,
                ttl,
            },
            PipelineCommand::KvDel { db, key } => AofView::KvDel { db: db@, key: key@ },
            PipelineCommand::KvFlush { db } => AofView::KvFlush { db: db@ },
            PipelineCommand::ListPush { key, payload } => AofView::ListPush {
                key: key@,
                payload: payload@,
            },
            PipelineCommand::ListPop { key } => AofView::ListPop { key: key@ },
            PipelineCommand::ListFlush { key } => AofView::ListFlush { key: key@ },
            PipelineCommand::LogAdd { group, timestamp, payload } => AofView::LogAdd {
                group: group@,
                timestamp,
                payload: payload@,
            },
        }
    }
}

/// What a write needs.
pub open spec fn resource_of(e: AofView) -> Resource {
    match e.category() {
        crate::aof::EntryCategory::Kv => Resource::Kv,
        crate::aof::EntryCategory::List => Resource::List,
        crate::aof::EntryCategory::Log => Resource::Log,
    }
}

impl PipelineCommand {
    /// What the write needs.
    pub fn resource(&self) -> (r: Resource)
        ensures
            r == resource_of(self@),
    {
        match self {
            PipelineCommand::KvSet { .. }
            | PipelineCommand::KvDel { .. }
            | PipelineCommand::KvFlush { .. } => Resource::Kv,
            PipelineCommand::ListPush { .. }
            | PipelineCommand::ListPop { .. }
            | PipelineCommand::ListFlush { .. } => Resource::List,
            PipelineCommand::LogAdd { .. } => Resource::Log,
        }
    }
}

/// What commands say.
pub open spec fn commands_view(s: Seq<PipelineCommand>) -> Seq<AofView> {
    Seq::new(s.len(), |i: int| s[i]@)
}

/// Why a pipeline fails.
#[derive(Debug)]
pub enum PipelineError {
    SendError,
    ExecError(DBError),
}

impl PipelineError {
    /// What the error says of itself.
    pub open spec fn text(self) -> Seq<char> {
        match self {
            PipelineError::SendError => "pipeline channel closed"@,
            PipelineError::ExecError(e) => "pipeline exec error: "@ + e.text(),
        }
    }

    pub fn message(&self) -> (r: String)
        ensures
            r@ == self.text(),
    {
        match self {
            PipelineError::SendError => copy_str("pipeline channel closed"),
            PipelineError::ExecError(e) => {
                let mut r = copy_str("pipeline exec error: ");
                let m = e.message();
                r.append(m.as_str());
                r
            },
        }
    }
}

/// A batch of writes that is being put together.
#[derive(Debug)]
pub struct Pipeline {
    pub id: u64,
    pub commands: Vec<PipelineCommand>,
}

impl Pipeline {
    /// A pipeline with one more command.
    pub open spec fn extended(before: Pipeline, after: Pipeline, e: AofView) -> bool {
        &&& after.id == before.id
        &&& commands_view(after.commands@) == commands_view(before.commands@).push(e)
    }

    fn new(id: u64) -> (r: Self)
        ensures
            r.id == id,
            r.commands@.len() == 0,
    {
        Pipeline { id, commands: Vec::new() }
    }

    /// Adds a command.
    pub fn push(&mut self, c: PipelineCommand) -> (r: &mut Self)
        ensures
            Self::extended(*old(self), *r, c@),
            *final(self) == *final(r),
    {
        let ghost before = self.commands@;
        self.commands.push(c);
        assert(commands_view(self.commands@) =~= commands_view(before).push(c@));
        self
    }

    pub fn kv_set(&mut self, db: String, key: String, val: Vec<u8>, ttl: i64) -> (r: &mut Self)
        ensures
            Self::extended(
                *old(self),
                *r,
                AofView::KvSet { db: db@, key: key@, val: val@, ttl },
            ),
            *final(self) == *final(r),
    {
        self.push(PipelineCommand::KvSet { db, key, val, ttl })
    }

    pub fn kv_del(&mut self, db: String, key: String) -> (r: &mut Self)
        ensures
            Self::extended(*old(self), *r, AofView::KvDel { db: db@, key: key@ }),
            *final(self) == *final(r),
    {
        self.push(PipelineCommand::KvDel { db, key })
    }

    pub fn kv_flush(&mut self, db: String) -> (r: &mut Self)
        ensures
            Self::extended(*old(self), *r, AofView::KvFlush { db: db@ }),
            *final(self) == *final(r),
    {
        self.push(PipelineCommand::KvFlush { db })
    }

    pub fn list_push(&mut self, key: String, payload: Vec<u8>) -> (r: &mut Self)
        ensures
            Self::extended(*old(self), *r, AofView::ListPush { key: key@, payload: payload@ }),
            *final(self) == *final(r),
    {
        self.push(PipelineCommand::ListPush { key, payload })
    }

    pub fn list_pop(&mut self, key: String) -> (r: &mut Self)
        ensures
            Self::extended(*old(self), *r, AofView::ListPop { key: key@ }),
            *final(self) == *final(r),
    {
        self.push(PipelineCommand::ListPop { key })
    }

    pub fn list_flush(&mut self, key: String) -> (r: &mut Self)
        ensures
            Self::extended(*old(self), *r, AofView::ListFlush { key: key@ }),
            *final(self) == *final(r),
    {
        self.push(PipelineCommand::ListFlush { key })
    }

    pub fn log_add(&mut self, group: String, timestamp: u64, payload: Vec<u8>) -> (r: &mut Self)
        ensures
            Self::extended(
                *old(self),
                *r,
                AofView::LogAdd { group: group@, timestamp, payload: payload@ },
            ),
            *final(self) == *final(r),
    {
        self.push(PipelineCommand::LogAdd { group, timestamp, payload })
    }

    /// The job of a pipeline that is complete. `ticket` tells its result apart from others.
    pub fn end(self, ticket: u64) -> (r: PipelineJob)
        ensures
            r.ticket == ticket,
            r.commands == self.commands,
    {
        PipelineJob { ticket, commands: self.commands }
    }
}

/// A batch of writes that waits to run.
#[derive(Debug)]
pub struct PipelineJob {
    pub ticket: u64,
    pub commands: Vec<PipelineCommand>,
}

/// How many running jobs hold each resource.
#[derive(Debug, Clone, Copy, PartialEq, Eq, Structural)]
pub struct LockState {
    pub kv_holders: u32,
    pub list_holders: u32,
    pub log_holders: u32,
}

impl Default for LockState {
    fn default() -> (r: Self)
        ensures
            r.kv_holders == 0,
            r.list_holders == 0,
            r.log_holders == 0,
    {
        LockState { kv_holders: 0, list_holders: 0, log_holders: 0 }
    }
}

/// How often a resource occurs.
pub open spec fn count_of(resources: Seq<Resource>, r: Resource) -> nat
    decreases resources.len(),
{
    if resources.len() == 0 {
        0
    } else {
        count_of(resources.drop_last(), r) + if resources.last() == r {
            1nat
        } else {
            0
        }
    }
}

impl LockState {
    /// How many jobs hold a resource.
    pub open spec fn holders(self, r: Resource) -> u32 {
        match r {
            Resource::Kv => self.kv_holders,
            Resource::List => self.list_holders,
            Resource::Log => self.log_holders,
        }
    }

    /// Whether none of the resources is held.
    pub open spec fn free(self, resources: Seq<Resource>) -> bool {
        forall|i: int| 0 <= i < resources.len() ==> self.holders(#[trigger] resources[i]) == 0
    }

    /// Whether the resources can be taken: none of them is held.
    pub fn can_acquire(&self, resources: &[Resource]) -> (ok: bool)
        ensures
            ok == self.free(resources@),
    {
        let mut i: usize = 0;
        while i < resources.len()
            invariant
                i <= resources@.len(),
                forall|j: int| 0 <= j < i ==> self.holders(#[trigger] resources@[j]) == 0,
            decreases resources@.len() - i,
        {
            let held: u32 = match resources[i] {
                Resource::Kv => self.kv_holders,
                Resource::List => self.list_holders,
                Resource::Log => self.log_holders,
            };
            if held > 0 {
                assert(self.holders(resources@[i as int]) != 0);
                return false;
            }
            i = i + 1;
        }
        true
    }

    /// Takes the resources.
    pub fn acquire(&mut self, resources: &[Resource])
        requires
            forall|r: Resource| #[trigger]
                old(self).holders(r) + count_of(resources@, r) <= u32::MAX,
        ensures
            forall|r: Resource| #[trigger]
                final(self).holders(r) == old(self).holders(r) + count_of(resources@, r),
    {
        let mut i: usize = 0;
        assert(resources@.take(0) =~= Seq::empty());
        while i < resources.len()
            invariant
                i <= resources@.len(),
                forall|r: Resource| #[trigger]
                    old(self).holders(r) + count_of(resources@, r) <= u32::MAX,
                forall|r: Resource| #[trigger]
                    self.holders(r) == old(self).holders(r) + count_of(
                        resources@.take(i as int),
                        r,
                    ),
            decreases resources@.len() - i,
        {
            let r: Resource = resources[i];
            let ghost before = *self;
            proof {
                let t = resources@.take(i + 1);
                assert(t.drop_last() =~= resources@.take(i as int));
                assert(t.last() == r);
                assert(self.holders(r) == old(self).holders(r) + count_of(
                    resources@.take(i as int),
                    r,
                ));
                lemma_count_prefix(resources@, i + 1, r);
                assert(old(self).holders(r) + count_of(resources@, r) <= u32::MAX);
            }
            match r {
                Resource::Kv => {
                    self.kv_holders = self.kv_holders + 1;
                },
                Resource::List => {
                    self.list_holders = self.list_holders + 1;
                },
                Resource::Log => {
                    self.log_holders = self.log_holders + 1;
                },
            }
            proof {
                assert forall|x: Resource| #[trigger]
                    self.holders(x) == old(self).holders(x) + count_of(
                        resources@.take(i + 1),
                        x,
                    ) by {
                    assert(before.holders(x) == old(self).holders(x) + count_of(
                        resources@.take(i as int),
                        x,
                    ));
                }
            }
            i = i + 1;
        }
        assert(resources@.take(i as int) =~= resources@);
    }

    /// Gives the resources back. A resource that nobody holds stays free.
    pub fn release(&mut self, resources: &[Resource])
        ensures
            forall|r: Resource| #[trigger]
                final(self).holders(r) == (if old(self).holders(r) > count_of(resources@, r) {
                    old(self).holders(r) - count_of(resources@, r)
                } else {
                    0
                }),
    {
        let mut i: usize = 0;
        assert(resources@.take(0) =~= Seq::empty());
        while i < resources.len()
            invariant
                i <= resources@.len(),
                forall|r: Resource| #[trigger]
                    self.holders(r) == (if old(self).holders(r) > count_of(
                        resources@.take(i as int),
                        r,
                    ) {
                        old(self).holders(r) - count_of(resources@.take(i as int), r)
                    } else {
                        0
                    }),
            decreases resources@.len() - i,
        {
            let r: Resource = resources[i];
            let ghost before = *self;
            proof {
                let t = resources@.take(i + 1);
                assert(t.drop_last() =~= resources@.take(i as int));
                assert(t.last() == r);
                assert(self.holders(r) >= 0);
            }
            match r {
                Resource::Kv => {
                    self.kv_holders = self.kv_holders.saturating_sub(1);
                },
                Resource::List => {
                    self.list_holders = self.list_holders.saturating_sub(1);
                },
                Resource::Log => {
                    self.log_holders = self.log_holders.saturating_sub(1);
                },
            }
            proof {
                assert forall|x: Resource| #[trigger]
                    self.holders(x) == (if old(self).holders(x) > count_of(
                        resources@.take(i + 1),
                        x,
                    ) {
                        old(self).holders(x) - count_of(resources@.take(i + 1), x)
                    } else {
                        0
                    }) by {
                    assert(before.holders(x) >= 0);
                }
            }
            i = i + 1;
        }
        assert(resources@.take(i as int) =~= resources@);
    }
}

proof fn lemma_count_prefix(resources: Seq<Resource>, n: int, r: Resource)
    requires
        0 <= n <= resources.len(),
    ensures
        count_of(resources.take(n), r) <= count_of(resources, r) <= resources.len(),
    decreases resources.len(),
{
    if n < resources.len() {
        lemma_count_prefix(resources.drop_last(), n, r);
        assert(resources.drop_last().take(n) =~= resources.take(n));
    } else {
        assert(resources.take(n) =~= resources);
        if n > 0 {
            lemma_count_prefix(resources.drop_last(), n - 1, r);
        }
    }
}

/// The resources that writes need, each once, in the order in which they are needed first.
pub open spec fn needed(entries: Seq<AofView>) -> Seq<Resource>
    decreases entries.len(),
{
    if entries.len() == 0 {
        Seq::empty()
    } else {
        let rest = needed(entries.drop_last());
        let r = resource_of(entries.last());
        if rest.contains(r) {
            rest
        } else {
            rest.push(r)
        }
    }
}

/// The resources that commands need, each once.
pub fn unique_resources(commands: &[PipelineCommand]) -> (r: Vec<Resource>)
    ensures
        r@ == needed(commands_view(commands@)),
{
    let ghost all = commands_view(commands@);
    let mut seen: Vec<Resource> = Vec::new();
    let mut i: usize = 0;
    assert(all.take(0) =~= Seq::empty());
    while i < commands.len()
        invariant
            i <= commands@.len(),
            all == commands_view(commands@),
            seen@ == needed(all.take(i as int)),
        decreases commands@.len() - i,
    {
        let r = commands[i].resource();
        proof {
            assert(all.take(i + 1).drop_last() =~= all.take(i as int));
            assert(all.take(i + 1).last() == all[i as int]);
        }
        let mut j: usize = 0;
        let mut found: bool = false;
        while j < seen.len()
            invariant
                j <= seen@.len(),
                found == exists|k: int| 0 <= k < j && #[trigger] seen@[k] == r,
            decreases seen@.len() - j,
        {
            if seen[j] == r {
                found = true;
            }
            j = j + 1;
        }
        assert(found == seen@.contains(r));
        if !found {
            seen.push(r);
        }
        i = i + 1;
    }
    assert(all.take(i as int) =~= all);
    seen
}

/// A job that waits to run, with how many commands it has and what it needs.
#[derive(Debug)]
pub struct QueuedJob {
    pub op_count: usize,
    pub resources: Vec<Resource>,
    pub job: PipelineJob,
}

impl QueuedJob {
    pub open spec fn wf(self) -> bool {
        &&& self.op_count == self.job.commands@.len()
        &&& self.resources@ == needed(commands_view(self.job.commands@))
    }
}

/// Jobs with fewer commands stand before jobs with more.
pub open spec fn by_size(queue: Seq<QueuedJob>) -> bool {
    forall|i: int, j: int|
        0 <= i < j < queue.len() ==> (#[trigger] queue[i]).op_count <= (
        #[trigger] queue[j]).op_count
}

/// Who holds what, and which jobs wait.
pub struct LockManager {
    pub state: LockState,
    pub queue: Vec<QueuedJob>,
}

impl LockManager {
    /// The queue is in order, and no resource is held twice.
    pub open spec fn wf(self) -> bool {
        &&& by_size(self.queue@)
        &&& forall|i: int| 0 <= i < self.queue@.len() ==> (#[trigger] self.queue@[i]).wf()
        &&& forall|r: Resource| #[trigger] self.state.holders(r) <= 1
    }

    pub fn new() -> (r: Self)
        ensures
            r.wf(),
            r.queue@.len() == 0,
            forall|x: Resource| #[trigger] r.state.holders(x) == 0,
    {
        LockManager { state: LockState::default(), queue: Vec::new() }
    }

    /// Puts a job behind those that have no more commands than it.
    pub fn enqueue(&mut self, job: PipelineJob)
        requires
            old(self).wf(),
        ensures
            final(self).wf(),
            final(self).state == old(self).state,
            exists|p: int, q: QueuedJob|
                {
                    &&& 0 <= p <= old(self).queue@.len()
                    &&& q.wf()
                    &&& q.job == job
                    &&& final(self).queue@ == #[trigger] old(self).queue@.insert(p, q)
                    &&& forall|i: int|
                        0 <= i < p ==> (#[trigger] old(self).queue@[i]).op_count <= q.op_count
                    &&& forall|i: int|
                        p <= i < old(self).queue@.len() ==> (#[trigger] old(self).queue@[i]).op_count
                            > q.op_count
                },
    {
        let resources = unique_resources(job.commands.as_slice());
        let op_count: usize = job.commands.len();
        let queued = QueuedJob { op_count, resources, job };
        let mut lo: usize = 0;
        let mut hi: usize = self.queue.len();
        while lo < hi
            invariant
                lo <= hi <= self.queue@.len(),
                *self == *old(self),
                by_size(self.queue@),
                forall|i: int| 0 <= i < lo ==> (#[trigger] self.queue@[i]).op_count <= op_count,
                forall|i: int|
                    hi <= i < self.queue@.len() ==> (#[trigger] self.queue@[i]).op_count > op_count,
            decreases hi - lo,
        {
            let mid: usize = lo + (hi - lo) / 2;
            if self.queue[mid].op_count <= op_count {
                lo = mid + 1;
            } else {
                hi = mid;
            }
        }
        self.queue.insert(lo, queued);
        proof {
            let o = old(self).queue@;
            let n = self.queue@;
            assert(n == o.insert(lo as int, queued));
            assert forall|i: int, j: int| 0 <= i < j < n.len() implies (#[trigger] n[i]).op_count
                <= (#[trigger] n[j]).op_count by {
                let a = if i < lo { i } else { i - 1 };
                let b = if j < lo { j } else { j - 1 };
                if i != lo && j != lo {
                    assert(o[a].op_count <= o[b].op_count);
                } else if i == lo {
                    assert(o[b].op_count > op_count);
                } else {
                    assert(o[a].op_count <= op_count);
                }
            }
            assert forall|i: int| 0 <= i < n.len() implies (#[trigger] n[i]).wf() by {
                if i < lo {
                    assert(n[i] == o[i]);
                } else if i > lo {
                    assert(n[i] == o[i - 1]);
                }
            }
        }
    }

    /// Takes the resources, if none of them is held.
    pub fn try_acquire(&mut self, resources: &[Resource]) -> (ok: bool)
        requires
            old(self).wf(),
            resources@.no_duplicates(),
        ensures
            final(self).wf(),
            final(self).queue == old(self).queue,
            ok == old(self).state.free(resources@),
            ok ==> forall|r: Resource| #[trigger]
                final(self).state.holders(r) == (if resources@.contains(r) {
                    1
                } else {
                    old(self).state.holders(r)
                }),
            !ok ==> final(self).state == old(self).state,
    {
        if !self.state.can_acquire(resources) {
            return false;
        }
        proof {
            assert forall|r: Resource| #[trigger] self.state.holders(r) + count_of(resources@, r)
                <= u32::MAX by {
                lemma_count_unique(resources@, r);
            }
        }
        let ghost before = self.state;
        self.state.acquire(resources);
        proof {
            assert forall|r: Resource| #[trigger]
                self.state.holders(r) == (if resources@.contains(r) {
                    1
                } else {
                    before.holders(r)
                }) by {
                lemma_count_unique(resources@, r);
                assert(self.state.holders(r) == before.holders(r) + count_of(resources@, r));
                if resources@.contains(r) {
                    assert(before.holders(resources@[resources@.index_of(r)]) == 0);
                }
            }
        }
        true
    }

    /// Gives resources back.
    pub fn release(&mut self, resources: &[Resource])
        requires
            old(self).wf(),
            resources@.no_duplicates(),
        ensures
            final(self).wf(),
            final(self).queue == old(self).queue,
            forall|r: Resource| #[trigger]
                final(self).state.holders(r) == (if resources@.contains(r) {
                    0
                } else {
                    old(self).state.holders(r)
                }),
    {
        let ghost before = self.state;
        self.state.release(resources);
        proof {
            assert forall|r: Resource| #[trigger]
                self.state.holders(r) == (if resources@.contains(r) {
                    0
                } else {
                    before.holders(r)
                }) by {
                lemma_count_unique(resources@, r);
                assert(before.holders(r) <= 1);
            }
        }
    }

    /// Takes the first job out of the queue whose resources are all free.
    pub fn try_pop_runnable(&mut self) -> (r: Option<(PipelineJob, Vec<Resource>)>)
        requires
            old(self).wf(),
        ensures
            final(self).wf(),
            final(self).state == old(self).state,
            match r {
                Some((job, resources)) => exists|p: int|
                    {
                        &&& 0 <= p < old(self).queue@.len()
                        &&& old(self).queue@[p].job == job
                        &&& old(self).queue@[p].resources == resources
                        &&& resources@ == needed(commands_view(job.commands@))
                        &&& resources@.no_duplicates()
                        &&& old(self).state.free(resources@)
                        &&& final(self).queue@ == #[trigger] old(self).queue@.remove(p)
                        &&& forall|i: int|
                            0 <= i < p ==> !old(self).state.free(
                                (#[trigger] old(self).queue@[i]).resources@,
                            )
                    },
                None => {
                    &&& final(self).queue@ == old(self).queue@
                    &&& forall|i: int|
                        0 <= i < old(self).queue@.len() ==> !old(self).state.free(
                            (#[trigger] old(self).queue@[i]).resources@,
                        )
                },
            },
    {
        let mut i: usize = 0;
        while i < self.queue.len()
            invariant
                i <= self.queue@.len(),
                *self == *old(self),
                self.wf(),
                forall|j: int|
                    0 <= j < i ==> !self.state.free((#[trigger] self.queue@[j]).resources@),
            decreases self.queue@.len() - i,
        {
            if self.state.can_acquire(self.queue[i].resources.as_slice()) {
                let ghost o = self.queue@;
                let queued = self.queue.remove(i);
                proof {
                    let n = self.queue@;
                    assert(n == o.remove(i as int));
                    lemma_needed_unique(commands_view(queued.job.commands@));
                    assert forall|a: int, b: int| 0 <= a < b < n.len() implies (
                    #[trigger] n[a]).op_count <= (#[trigger] n[b]).op_count by {
                        let x = if a < i { a } else { a + 1 };
                        let y = if b < i { b } else { b + 1 };
                        assert(o[x].op_count <= o[y].op_count);
                    }
                    assert forall|a: int| 0 <= a < n.len() implies (#[trigger] n[a]).wf() by {
                        let x = if a < i { a } else { a + 1 };
                        assert(n[a] == o[x]);
                    }
                }
                return Some((queued.job, queued.resources));
            }
            i = i + 1;
        }
        None
    }
}

proof fn lemma_count_unique(resources: Seq<Resource>, r: Resource)
    requires
        resources.no_duplicates(),
    ensures
        count_of(resources, r) == (if resources.contains(r) {
            1nat
        } else {
            0
        }),
    decreases resources.len(),
{
    if resources.len() > 0 {
        let t = resources.drop_last();
        lemma_count_unique(t, r);
        if t.contains(r) {
            let i = t.index_of(r);
            assert(resources[i] == r);
            assert(resources[i] != resources[resources.len() - 1]);
        }
        if resources.last() == r {
            assert(resources[resources.len() - 1] == r);
        }
        if resources.contains(r) && resources.last() != r {
            let i = resources.index_of(r);
            assert(t[i] == r);
        }
    }
}

/// The resources that writes need are each listed once.
pub proof fn lemma_needed_unique(entries: Seq<AofView>)
    ensures
        needed(entries).no_duplicates(),
    decreases entries.len(),
{
    if entries.len() > 0 {
        let rest = needed(entries.drop_last());
        lemma_needed_unique(entries.drop_last());
        let r = resource_of(entries.last());
        if !rest.contains(r) {
            assert forall|i: int, j: int|
                0 <= i < rest.push(r).len() && 0 <= j < rest.push(r).len() && i
                    != j implies rest.push(r)[i] != rest.push(r)[j] by {
                if i == rest.len() {
                    assert(rest.contains(rest[j]));
                } else if j == rest.len() {
                    assert(rest.contains(rest[i]));
                }
            }
        }
    }
}

/// Every write of a job is to a store that the job holds while it runs.
pub proof fn law_job_holds_what_it_writes(entries: Seq<AofView>, i: int)
    requires
        0 <= i < entries.len(),
    ensures
        needed(entries).contains(resource_of(entries[i])),
    decreases entries.len(),
{
    let rest = needed(entries.drop_last());
    let r = resource_of(entries.last());
    let x = resource_of(entries[i]);
    if i < entries.len() - 1 {
        law_job_holds_what_it_writes(entries.drop_last(), i);
        assert(entries.drop_last()[i] == entries[i]);
        let j = rest.index_of(x);
        assert(needed(entries)[j] == x);
    } else if !rest.contains(r) {
        assert(needed(entries)[rest.len() as int] == r);
    }
}

/// Whether a write succeeds.
pub open spec fn succeeds(db: DbView, e: AofView) -> bool {
    match e {
        AofView::KvDel { db: d, key } => db_of(db.kv, d).contains_key(key),
        AofView::ListPush { key, payload } => item_fits(payload),
        AofView::ListPop { key } => db.lists.contains_key(key),
        AofView::ListFlush { key } => db.lists.contains_key(key),
        AofView::LogAdd { group, timestamp, payload } => db.logs.contains_key(group)
            && db.logs[group].takes(payload),
        _ => true,
    }
}

/// `after` is the database after a write that succeeded while the clock read `now` and `used`.
pub open spec fn wrote(before: DbView, after: DbView, e: AofView, now: i64, used: i64) -> bool {
    match resource_of(e) {
        Resource::Kv => before.kv_wrote(after, e, now, used),
        Resource::List => after == before.list_wrote(e),
        Resource::Log => after == before.log_wrote(e),
    }
}

/// The database after a write that failed: a database that was asked for exists from then on, and
/// a log may have moved on to a segment that it does not get.
pub open spec fn after_failure(before: DbView, e: AofView) -> DbView {
    match e {
        AofView::KvDel { db, key } => before.with_kv(
            before.kv.insert(db, db_of(before.kv, db).remove(key)),
        ),
        AofView::LogAdd { group, timestamp, payload } => if before.logs.contains_key(group) {
            before.log_refused(group, payload)
        } else {
            before
        },
        _ => before,
    }
}

/// The error of a write that failed.
pub open spec fn is_failure(db: DbView, e: AofView, err: DBError) -> bool {
    match e {
        AofView::KvDel { db: d, key } => err matches DBError::KVDelError(KvError::KeyNotFound(k))
            && k@ == key,
        AofView::ListPush { key, payload } => err == DBError::ListPushError(
            ListError::EntryTooLarge,
        ),
        AofView::ListPop { key } => err == DBError::ListPopError(ListError::KeyNotFound),
        AofView::ListFlush { key } => err == DBError::ListFlushError(ListError::KeyNotFound),
        AofView::LogAdd { group, timestamp, payload } => if db.logs.contains_key(group) {
            err == DBError::LogAppendError(GroupError::LogError(refusal(payload)))
        } else {
            err matches DBError::LogAppendError(GroupError::GroupNotFound(n)) && n@ == group
        },
        _ => false,
    }
}

/// Runs one command of a pipeline.
pub fn execute_command(db: &mut DB, cmd: PipelineCommand) -> (r: Result<(), DBError>)
    requires
        old(db).wf(),
        list_step_ok(old(db)@.lists, cmd@),
    ensures
        final(db).wf(),
        match r {
            Ok(()) => {
                &&& succeeds(old(db)@, cmd@)
                &&& exists|now: i64, used: i64| #[trigger]
                    wrote(old(db)@, final(db)@, cmd@, now, used)
            },
            Err(e) => {
                &&& !succeeds(old(db)@, cmd@)
                &&& final(db)@ == after_failure(old(db)@, cmd@)
                &&& is_failure(old(db)@, cmd@, e)
            },
        },
{
    let ghost e = cmd@;
    let ghost was = db@;
    let r = match cmd {
        PipelineCommand::KvSet { db: d, key, val, ttl } => {
            let r = db.kv_set(d, key, val, ttl);
            proof {
                let (now, used) = choose|now: i64, used: i64| #[trigger]
                    was.kv_wrote(db@, e, now, used);
                assert(wrote(was, db@, e, now, used));
            }
            r
        },
        PipelineCommand::KvDel { db: d, key } => db.kv_del(d, key),
        PipelineCommand::KvFlush { db: d } => db.kv_flush(d),
        PipelineCommand::ListPush { key, payload } => db.list_push(key, payload),
        PipelineCommand::ListPop { key } => match db.list_pop(key) {
            Ok(_) => Ok(()),
            Err(e) => Err(e),
        },
        PipelineCommand::ListFlush { key } => db.list_flush(key),
        PipelineCommand::LogAdd { group, timestamp, payload } => match db.log_add(
            group.as_str(),
            timestamp,
            payload.as_slice(),
        ) {
            Ok(_) => Ok(()),
            Err(e) => Err(e),
        },
    };
    proof {
        if r is Ok && !(e is KvSet) {
            assert(wrote(was, db@, e, 0, 0));
        }
    }
    r
}

/// Whether a command asks a list for an item that it has, or for one of a list that does not
/// exist.
pub fn admits_command(db: &DB, cmd: &PipelineCommand) -> (r: bool)
    requires
        db.wf(),
    ensures
        r == list_step_ok(db@.lists, cmd@),
{
    match cmd {
        PipelineCommand::ListPop { key } => match db.list_length(key.as_str()) {
            Some(n) => n > 0,
            None => true,
        },
        _ => true,
    }
}

/// `states` are the databases before, between and after commands that all succeed, while the
/// clock reads `times`, a pair for each command.
pub open spec fn job_trace(
    states: Seq<DbView>,
    entries: Seq<AofView>,
    times: Seq<(i64, i64)>,
) -> bool {
    &&& states.len() == entries.len() + 1
    &&& times.len() == entries.len()
    &&& forall|i: int|
        0 <= i < entries.len() ==> {
            &&& succeeds(states[i], #[trigger] entries[i])
            &&& wrote(states[i], states[i + 1], entries[i], times[i].0, times[i].1)
        }
}

/// The commands, one after the other, can all succeed and take the database from `before` to
/// `after`.
pub open spec fn runs(before: DbView, after: DbView, entries: Seq<AofView>) -> bool {
    exists|states: Seq<DbView>, times: Seq<(i64, i64)>| #[trigger]
        job_trace(states, entries, times) && states.first() == before && states.last() == after
}

/// However the commands before it succeed, no command pops from a list that is empty.
pub open spec fn job_ok(db: DbView, entries: Seq<AofView>) -> bool {
    forall|i: int, mid: DbView|
        0 <= i < entries.len() && #[trigger] runs(db, mid, entries.take(i)) ==> list_step_ok(
            mid.lists,
            entries[i],
        )
}

proof fn lemma_runs_none(db: DbView)
    ensures
        runs(db, db, Seq::empty()),
{
    assert(job_trace(seq![db], Seq::empty(), Seq::empty()));
}

proof fn lemma_runs_push(
    before: DbView,
    mid: DbView,
    after: DbView,
    entries: Seq<AofView>,
    e: AofView,
    now: i64,
    used: i64,
)
    requires
        runs(before, mid, entries),
        succeeds(mid, e),
        wrote(mid, after, e, now, used),
    ensures
        runs(before, after, entries.push(e)),
{
    let (states, times) = choose|states: Seq<DbView>, times: Seq<(i64, i64)>| #[trigger]
        job_trace(states, entries, times) && states.first() == before && states.last() == mid;
    let all = entries.push(e);
    let states1 = states.push(after);
    let times1 = times.push((now, used));
    assert forall|i: int| 0 <= i < all.len() implies {
        &&& succeeds(states1[i], #[trigger] all[i])
        &&& wrote(states1[i], states1[i + 1], all[i], times1[i].0, times1[i].1)
    } by {
        if i < entries.len() {
            assert(all[i] == entries[i]);
        }
    }
    assert(job_trace(states1, all, times1));
}

/// `now` is what a command leaves of the database, whether it succeeds or not.
pub open spec fn leaves(before: DbView, now: DbView, e: AofView) -> bool {
    if succeeds(before, e) {
        exists|t: i64, used: i64| #[trigger] wrote(before, now, e, t, used)
    } else {
        now == after_failure(before, e)
    }
}

/// How a command is taken back, whether it succeeds or not.
fn undo_of(db: &DB, cmd: &PipelineCommand) -> (r: Undo)
    requires
        db.wf(),
        list_step_ok(db@.lists, cmd@),
    ensures
        forall|now: DbView| #[trigger] leaves(db@, now, cmd@) ==> r.restores(db@, now),
{
    let ghost e = cmd@;
    let r = match cmd {
        PipelineCommand::KvSet { db: d, .. } => db.undo_kv(d.as_str()),
        PipelineCommand::KvDel { db: d, .. } => db.undo_kv(d.as_str()),
        PipelineCommand::KvFlush { db: d } => db.undo_kv(d.as_str()),
        PipelineCommand::ListPush { key, .. } => db.undo_push(key.as_str()),
        PipelineCommand::ListPop { key } => db.undo_pop(key.as_str()),
        PipelineCommand::ListFlush { key } => db.undo_flush(key.as_str()),
        PipelineCommand::LogAdd { group, .. } => db.undo_add(group.as_str()),
    };
    proof {
        assert forall|now: DbView| #[trigger] leaves(db@, now, e) implies r.restores(db@, now) by {
            if succeeds(db@, e) {
                let (t, used) = choose|t: i64, used: i64| #[trigger] wrote(db@, now, e, t, used);
                match e {
                    AofView::KvSet { db: d, key, val, ttl } => {
                        let base = choose|base: DbItems| #[trigger]
                            made_room(db_of(db@.kv, d), base) && now.kv == db@.kv.insert(
                                d,
                                base.insert(key, written(val, ttl, t, used)),
                            );
                        assert(now.kv.remove(d) =~= db@.kv.remove(d));
                    },
                    AofView::KvDel { db: d, key } => {
                        assert(now.kv.remove(d) =~= db@.kv.remove(d));
                    },
                    AofView::KvFlush { db: d } => {
                        assert(now.kv.remove(d) =~= db@.kv.remove(d));
                    },
                    AofView::ListPush { key, payload } => {
                        assert(now.lists == pushed(db@.lists, key, payload));
                    },
                    AofView::LogAdd { group, timestamp, payload } => {
                        assert(now.logs == db@.logs.insert(
                            group,
                            db@.logs[group].pushed(timestamp, payload),
                        ));
                    },
                    _ => {},
                }
            } else if let AofView::KvDel { db: d, key } = e {
                assert(now.kv.remove(d) =~= db@.kv.remove(d));
            }
        }
    }
    r
}

/// Takes commands back, from the last to the first, and forgets what was logged since then.
fn roll_back(
    db: &mut DB,
    undos: Vec<Undo>,
    kept: (usize, usize),
    Ghost(states): Ghost<Seq<DbView>>,
)
    requires
        old(db).wf(),
        states.len() == undos@.len() + 1,
        same_stores(states.last(), old(db)@),
        forall|j: int|
            0 <= j < undos@.len() ==> (#[trigger] undos@[j]).restores(states[j], states[j + 1]),
        kept.0 == states[0].aof.len() <= old(db)@.aof.len(),
        kept.1 == states[0].events.len() <= old(db)@.events.len(),
        old(db)@.aof.take(kept.0 as int) == states[0].aof,
        old(db)@.events.take(kept.1 as int) == states[0].events,
        old(db)@.listening == states[0].listening,
    ensures
        final(db).wf(),
        final(db)@ == states[0],
{
    let ghost all = undos@;
    let mut left = undos;
    while left.len() > 0
        invariant
            db.wf(),
            left@.len() <= all.len(),
            left@ == all.take(left@.len() as int),
            states.len() == all.len() + 1,
            same_stores(states[left@.len() as int], db@),
            forall|j: int|
                0 <= j < all.len() ==> (#[trigger] all[j]).restores(states[j], states[j + 1]),
            db@.aof == old(db)@.aof,
            db@.events == old(db)@.events,
            db@.listening == old(db)@.listening,
        decreases left@.len(),
    {
        let ghost n = left@.len() - 1;
        if let Some(undo) = left.pop() {
            proof {
                assert(undo == all[n]);
                assert(undo.restores(states[n], states[n + 1]));
                assert(undo.restores(states[n], db@));
                assert(left@ =~= all.take(n));
            }
            db.undo(undo, Ghost(states[n]));
        }
    }
    db.forget_writes(kept);
}

/// Two databases with the same contents in their stores.
pub open spec fn same_stores(a: DbView, b: DbView) -> bool {
    a.kv == b.kv && a.logs == b.logs && a.lists == b.lists
}

/// Runs the commands of a job in order. A job is done as a whole or not at all: where a command
/// fails, those before it are taken back, and nothing is logged. The same goes for a command that
/// asks a list for more than it has, of which there is nothing to tell.
pub fn run_job(db: &mut DB, commands: Vec<PipelineCommand>) -> (r: Option<Result<(), PipelineError>>)
    requires
        old(db).wf(),
    ensures
        final(db).wf(),
        ({
            let all = commands_view(commands@);
            match r {
                Some(Ok(())) => runs(old(db)@, final(db)@, all),
                Some(Err(PipelineError::ExecError(e))) => {
                    &&& final(db)@ == old(db)@
                    &&& exists|n: int, mid: DbView|
                        {
                            &&& 0 <= n < all.len()
                            &&& #[trigger] runs(old(db)@, mid, all.take(n))
                            &&& list_step_ok(mid.lists, all[n])
                            &&& !succeeds(mid, all[n])
                            &&& is_failure(mid, all[n], e)
                        }
                },
                Some(Err(PipelineError::SendError)) => false,
                None => {
                    &&& final(db)@ == old(db)@
                    &&& exists|n: int, mid: DbView|
                        {
                            &&& 0 <= n < all.len()
                            &&& #[trigger] runs(old(db)@, mid, all.take(n))
                            &&& !list_step_ok(mid.lists, all[n])
                        }
                },
            }
        }),
{
    let ghost all = commands_view(commands@);
    let ghost was = db@;
    let mut left = commands;
    let mut i: usize = 0;
    let n: usize = left.len();
    let mut undos: Vec<Undo> = Vec::new();
    let ghost mut states = seq![was];
    let kept = db.kept_writes();
    proof {
        assert(all.take(0) =~= Seq::empty());
        lemma_runs_none(was);
        assert(was.aof.take(was.aof.len() as int) =~= was.aof);
        assert(was.events.take(was.events.len() as int) =~= was.events);
    }
    while i < n
        invariant
            i <= n,
            n == all.len(),
            all == commands_view(commands@),
            left@.len() == n - i,
            forall|j: int| 0 <= j < n - i ==> (#[trigger] left@[j])@ == all[i + j],
            db.wf(),
            was == old(db)@,
            runs(was, db@, all.take(i as int)),
            undos@.len() == i,
            states.len() == i + 1,
            states[0] == was,
            states.last() == db@,
            forall|j: int|
                0 <= j < undos@.len() ==> (#[trigger] undos@[j]).restores(states[j], states[j + 1]),
            kept.0 == was.aof.len() <= db@.aof.len(),
            kept.1 == was.events.len() <= db@.events.len(),
            db@.aof.take(kept.0 as int) == was.aof,
            db@.events.take(kept.1 as int) == was.events,
            db@.listening == was.listening,
        decreases n - i,
    {
        let ghost mid = db@;
        let ghost before = left@;
        let cmd = left.remove(0);
        proof {
            assert(before[0]@ == all[i + 0]);
            assert(cmd@ == all[i as int]);
            assert forall|j: int| 0 <= j < n - i - 1 implies (#[trigger] left@[j])@ == all[i + 1
                + j] by {
                assert(before[j + 1]@ == all[i + (j + 1)]);
            }
        }
        if !admits_command(db, &cmd) {
            assert(runs(was, mid, all.take(i as int)));
            roll_back(db, undos, kept, Ghost(states));
            return None;
        }
        undos.push(undo_of(db, &cmd));
        let done = execute_command(db, cmd);
        proof {
            assert(leaves(mid, db@, all[i as int]));
            states = states.push(db@);
            assert forall|j: int| 0 <= j < undos@.len() implies (#[trigger] undos@[j]).restores(
                states[j],
                states[j + 1],
            ) by {
                if j < i {
                    assert(undos@[j].restores(states[j], states[j + 1]));
                }
            }
            lemma_leaves_keeps(mid, db@, all[i as int], kept.0 as int, kept.1 as int);
        }
        match done {
            Ok(()) => {
                proof {
                    let (now, used) = choose|now: i64, used: i64| #[trigger]
                        wrote(mid, db@, all[i as int], now, used);
                    lemma_runs_push(was, mid, db@, all.take(i as int), all[i as int], now, used);
                    assert(all.take(i + 1) =~= all.take(i as int).push(all[i as int]));
                }
            },
            Err(e) => {
                assert(runs(was, mid, all.take(i as int)));
                roll_back(db, undos, kept, Ghost(states));
                return Some(Err(PipelineError::ExecError(e)));
            },
        }
        i = i + 1;
    }
    assert(all.take(i as int) =~= all);
    Some(Ok(()))
}

/// A command keeps what was logged before it.
proof fn lemma_leaves_keeps(before: DbView, now: DbView, e: AofView, a: int, b: int)
    requires
        leaves(before, now, e),
        0 <= a <= before.aof.len(),
        0 <= b <= before.events.len(),
    ensures
        now.aof.len() >= before.aof.len(),
        now.events.len() >= before.events.len(),
        now.aof.take(a) == before.aof.take(a),
        now.events.take(b) == before.events.take(b),
        now.listening == before.listening,
{
    if succeeds(before, e) {
        let (t, used) = choose|t: i64, used: i64| #[trigger] wrote(before, now, e, t, used);
        assert(wrote(before, now, e, t, used));
    }
    assert(now.aof.take(a) =~= before.aof.take(a));
    assert(now.events.take(b) =~= before.events.take(b));
}

/// Runs the commands of a job in order. A job is done as a whole or not at all: where a command
/// fails, those before it are taken back, and nothing is logged.
pub fn execute_job(db: &mut DB, commands: Vec<PipelineCommand>) -> (r: Result<(), PipelineError>)
    requires
        old(db).wf(),
        job_ok(old(db)@, commands_view(commands@)),
    ensures
        final(db).wf(),
        ({
            let all = commands_view(commands@);
            match r {
                Ok(()) => runs(old(db)@, final(db)@, all),
                Err(PipelineError::ExecError(e)) => {
                    &&& final(db)@ == old(db)@
                    &&& exists|n: int, mid: DbView|
                        {
                            &&& 0 <= n < all.len()
                            &&& #[trigger] runs(old(db)@, mid, all.take(n))
                            &&& !succeeds(mid, all[n])
                            &&& is_failure(mid, all[n], e)
                        }
                },
                Err(PipelineError::SendError) => false,
            }
        }),
{
    match run_job(db, commands) {
        Some(r) => r,
        None => Ok(()),
    }
}

/// `std::collections::BTreeMap::get_mut`: borrows the value of a key for change, and changes
/// nothing else.
#[verifier::external_body]
fn map_get_mut<'a, V>(m: &'a mut BTreeMap<u64, V>, k: &u64) -> (r: Option<&'a mut V>)
    ensures
        match r {
            Some(v) => {
                &&& old(m)@.contains_key(*k)
                &&& *v == old(m)@[*k]
                &&& final(m)@ == old(m)@.insert(*k, *final(v))
            },
            None => !old(m)@.contains_key(*k) && final(m)@ == old(m)@,
        },
{
    m.get_mut(k)
}

/// The pipelines that are being put together, by id.
pub struct PipelineManager {
    pipelines: BTreeMap<u64, Pipeline>,
    next_id: u64,
}

impl View for PipelineManager {
    type V = Map<u64, Pipeline>;

    closed spec fn view(&self) -> Map<u64, Pipeline> {
        self.pipelines@
    }
}

impl PipelineManager {
    /// The id of the pipeline that is started next.
    pub closed spec fn upcoming(&self) -> u64 {
        self.next_id
    }

    pub fn new() -> (r: Self)
        ensures
            r@ == Map::<u64, Pipeline>::empty(),
            r.upcoming() == 0,
    {
        PipelineManager { pipelines: BTreeMap::new(), next_id: 0 }
    }

    /// Starts an empty pipeline and gives its id.
    pub fn start(&mut self) -> (id: u64)
        ensures
            id == old(self).upcoming(),
            final(self).upcoming() == crate::seg_log::after(id),
            exists|p: Pipeline|
                {
                    &&& p.id == id
                    &&& p.commands@.len() == 0
                    &&& final(self)@ == #[trigger] old(self)@.insert(id, p)
                },
    {
        broadcast use vstd::std_specs::btree::group_btree_axioms;
        broadcast use vstd::laws_cmp::group_laws_cmp;

        let id: u64 = self.next_id;
        self.next_id = self.next_id.wrapping_add(1);
        let p = Pipeline::new(id);
        self.pipelines.insert(id, p);
        assert(self@ == old(self)@.insert(id, p));
        id
    }

    /// Borrows a pipeline, to add commands to it.
    pub fn get(&mut self, id: u64) -> (r: Option<&mut Pipeline>)
        ensures
            final(self).upcoming() == old(self).upcoming(),
            match r {
                Some(p) => {
                    &&& old(self)@.contains_key(id)
                    &&& *p == old(self)@[id]
                    &&& final(self)@ == old(self)@.insert(id, *final(p))
                },
                None => !old(self)@.contains_key(id) && final(self)@ == old(self)@,
            },
    {
        map_get_mut(&mut self.pipelines, &id)
    }

    /// Takes a pipeline out.
    pub fn take(&mut self, id: u64) -> (r: Option<Pipeline>)
        ensures
            final(self).upcoming() == old(self).upcoming(),
            final(self)@ == old(self)@.remove(id),
            r == (if old(self)@.contains_key(id) {
                Some(old(self)@[id])
            } else {
                None
            }),
    {
        broadcast use vstd::std_specs::btree::group_btree_axioms;
        broadcast use vstd::laws_cmp::group_laws_cmp;

        let r = self.pipelines.remove(&id);
        assert(self@ =~= old(self)@.remove(id));
        r
    }

    /// Drops a pipeline.
    pub fn remove(&mut self, id: u64)
        ensures
            final(self).upcoming() == old(self).upcoming(),
            final(self)@ == old(self)@.remove(id),
    {
        let _ = self.take(id);
    }
}

/// `after` is `before` with the resources taken.
pub open spec fn acquired(before: LockState, after: LockState, resources: Seq<Resource>) -> bool {
    forall|r: Resource| #[trigger]
        after.holders(r) == before.holders(r) + count_of(resources, r)
}

/// `after` is `before` with the resources given back.
pub open spec fn released(before: LockState, after: LockState, resources: Seq<Resource>) -> bool {
    forall|r: Resource| #[trigger]
        after.holders(r) == (if before.holders(r) > count_of(resources, r) {
            before.holders(r) - count_of(resources, r)
        } else {
            0
        })
}

/// Giving back what was taken leaves the locks as they were.
pub proof fn law_release_undoes_acquire(
    before: LockState,
    between: LockState,
    after: LockState,
    resources: Seq<Resource>,
)
    requires
        acquired(before, between, resources),
        released(between, after, resources),
    ensures
        after == before,
{
    assert forall|r: Resource| #[trigger] after.holders(r) == before.holders(r) by {
        assert(between.holders(r) == before.holders(r) + count_of(resources, r));
    }
    assert(after.holders(Resource::Kv) == before.holders(Resource::Kv));
    assert(after.holders(Resource::List) == before.holders(Resource::List));
    assert(after.holders(Resource::Log) == before.holders(Resource::Log));
}

/// Two jobs run at the same time only if they need different resources, and two jobs that need
/// different resources can run at the same time: while a job holds its resources, another that
/// could run before can still run if and only if the two have no resource in common.
pub proof fn law_jobs_run_in_parallel_iff_disjoint(
    before: LockState,
    after: LockState,
    held: Seq<Resource>,
    wanted: Seq<Resource>,
)
    requires
        acquired(before, after, held),
        before.free(wanted),
    ensures
        after.free(wanted) <==> forall|i: int|
            0 <= i < wanted.len() ==> !held.contains(#[trigger] wanted[i]),
{
    assert forall|i: int| 0 <= i < wanted.len() implies (after.holders(#[trigger] wanted[i]) == 0
        <==> !held.contains(wanted[i])) by {
        lemma_count_zero(held, wanted[i]);
        assert(before.holders(wanted[i]) == 0);
        assert(after.holders(wanted[i]) == before.holders(wanted[i]) + count_of(held, wanted[i]));
    }
    if after.free(wanted) {
        assert forall|i: int| 0 <= i < wanted.len() implies !held.contains(#[trigger] wanted[i]) by {
            assert(after.holders(wanted[i]) == 0);
        }
    }
}

proof fn lemma_count_zero(resources: Seq<Resource>, r: Resource)
    ensures
        count_of(resources, r) == 0 <==> !resources.contains(r),
    decreases resources.len(),
{
    if resources.len() > 0 {
        let t = resources.drop_last();
        lemma_count_zero(t, r);
        if t.contains(r) {
            assert(resources[t.index_of(r)] == r);
        }
        if resources.last() == r {
            assert(resources[resources.len() - 1] == r);
        }
        if resources.contains(r) && resources.last() != r {
            assert(t[resources.index_of(r)] == r);
        }
    }
}

/// Of the jobs that can run, the one that is taken out of the queue first has the fewest commands.
pub proof fn law_smaller_jobs_run_first(manager: LockManager, p: int, i: int)
    requires
        manager.wf(),
        0 <= p < manager.queue@.len(),
        0 <= i < manager.queue@.len(),
        forall|j: int|
            0 <= j < p ==> !manager.state.free((#[trigger] manager.queue@[j]).resources@),
        manager.state.free(manager.queue@[i].resources@),
    ensures
        manager.queue@[p].op_count <= manager.queue@[i].op_count,
{
    if i < p {
        assert(!manager.state.free(manager.queue@[i].resources@));
    } else if p < i {
        assert(manager.queue@[p].op_count <= manager.queue@[i].op_count);
    }
}

/// Each write of a job is logged: after a job that ran to its end, the log has grown by its
/// commands, in order.
pub proof fn law_job_is_logged(before: DbView, after: DbView, entries: Seq<AofView>)
    requires
        runs(before, after, entries),
    ensures
        after.aof == before.aof + entries,
{
    let (states, times) = choose|states: Seq<DbView>, times: Seq<(i64, i64)>| #[trigger]
        job_trace(states, entries, times) && states.first() == before && states.last() == after;
    lemma_trace_logged(states, entries, times, entries.len() as int);
    assert(entries.take(entries.len() as int) =~= entries);
}

proof fn lemma_trace_logged(
    states: Seq<DbView>,
    entries: Seq<AofView>,
    times: Seq<(i64, i64)>,
    n: int,
)
    requires
        job_trace(states, entries, times),
        0 <= n <= entries.len(),
    ensures
        states[n].aof == states[0].aof + entries.take(n),
    decreases n,
{
    if n == 0 {
        assert(states[0].aof + entries.take(0) =~= states[0].aof);
    } else {
        lemma_trace_logged(states, entries, times, n - 1);
        assert(wrote(
            states[n - 1],
            states[n - 1 + 1],
            entries[n - 1],
            times[n - 1].0,
            times[n - 1].1,
        ));
        assert(states[n].aof == states[n - 1].aof.push(entries[n - 1]));
        assert(entries.take(n) =~= entries.take(n - 1).push(entries[n - 1]));
        assert(states[0].aof + entries.take(n) =~= (states[0].aof + entries.take(n - 1)).push(
            entries[n - 1],
        ));
    }
}

/// A job needs the stores that its commands write to, each once, and no others.
pub proof fn law_job_needs_its_stores(
    commands: &[PipelineCommand],
    resources: Vec<Resource>,
    i: int,
    j: int,
    k: int,
)
    requires
        call_ensures(unique_resources, (commands,), resources),
    ensures
        0 <= i < commands@.len() ==> resources@.contains(
            match commands@[i] {
                PipelineCommand::KvSet { .. }
                | PipelineCommand::KvDel { .. }
                | PipelineCommand::KvFlush { .. } => Resource::Kv,
                PipelineCommand::LogAdd { .. } => Resource::Log,
                _ => Resource::List,
            },
        ),
        0 <= j < k < resources@.len() ==> resources@[j] != resources@[k],
        0 <= j < resources@.len() ==> exists|n: int|
            0 <= n < commands@.len() && resource_of((#[trigger] commands@[n])@) == resources@[j],
{
    let all = commands_view(commands@);
    lemma_needed_unique(all);
    if 0 <= i < commands@.len() {
        law_job_holds_what_it_writes(all, i);
        assert(all[i] == commands@[i]@);
    }
    if 0 <= j < resources@.len() {
        lemma_needed_only(all, resources@[j]);
        let n = choose|n: int|
            0 <= n < all.len() && resource_of(#[trigger] all[n]) == resources@[j];
        assert(all[n] == commands@[n]@);
    }
}

proof fn lemma_needed_only(entries: Seq<AofView>, r: Resource)
    requires
        needed(entries).contains(r),
    ensures
        exists|n: int| 0 <= n < entries.len() && resource_of(#[trigger] entries[n]) == r,
    decreases entries.len(),
{
    if entries.len() > 0 {
        let rest = entries.drop_last();
        let k = needed(entries).index_of(r);
        if k < needed(rest).len() {
            assert(needed(rest)[k] == r);
            lemma_needed_only(rest, r);
            let n = choose|n: int| 0 <= n < rest.len() && resource_of(#[trigger] rest[n]) == r;
            assert(entries[n] == rest[n]);
        } else {
            assert(entries[entries.len() - 1] == entries.last());
        }
    }
}

/// A command that is added to a pipeline stands behind the others, as it was given, and the job that the
/// pipeline makes has the commands of the pipeline.
#[verifier::rlimit(50)]
pub proof fn law_pipeline_keeps_commands(
    p: &mut Pipeline,
    q: &mut Pipeline,
    done: Pipeline,
    ticket: u64,
    db: String,
    key: String,
    val: Vec<u8>,
    ttl: i64,
    group: String,
    timestamp: u64,
    payload: Vec<u8>,
    job: PipelineJob,
)
    requires
        call_ensures(Pipeline::end, (done, ticket), job),
        *q == done,
    ensures
        job.ticket == ticket,
        call_ensures(Pipeline::kv_set, (p, db, key, val, ttl), q) ==> commands_view(job.commands@)
            == commands_view(old(p).commands@).push(
            AofView::KvSet { db: db@, key: key@, val: val@, ttl },
        ),
        call_ensures(Pipeline::kv_del, (p, db, key), q) ==> commands_view(job.commands@)
            == commands_view(old(p).commands@).push(AofView::KvDel { db: db@, key: key@ }),
        call_ensures(Pipeline::kv_flush, (p, db), q) ==> commands_view(job.commands@)
            == commands_view(old(p).commands@).push(AofView::KvFlush { db: db@ }),
        call_ensures(Pipeline::list_push, (p, key, payload), q) ==> commands_view(job.commands@)
            == commands_view(old(p).commands@).push(
            AofView::ListPush { key: key@, payload: payload@ },
        ),
        call_ensures(Pipeline::list_pop, (p, key), q) ==> commands_view(job.commands@)
            == commands_view(old(p).commands@).push(AofView::ListPop { key: key@ }),
        call_ensures(Pipeline::list_flush, (p, key), q) ==> commands_view(job.commands@)
            == commands_view(old(p).commands@).push(AofView::ListFlush { key: key@ }),
        call_ensures(Pipeline::log_add, (p, group, timestamp, payload), q) ==> commands_view(
            job.commands@,
        ) == commands_view(old(p).commands@).push(
            AofView::LogAdd { group: group@, timestamp, payload: payload@ },
        ),
{
}

/// A job that is queued where no other waits is the job that is taken out, with the stores that its
/// commands write to, once these are free.
#[verifier::rlimit(50)]
pub proof fn law_queued_job_is_run(
    first: &mut LockManager,
    second: &mut LockManager,
    job: PipelineJob,
    r: Option<(PipelineJob, Vec<Resource>)>,
)
    requires
        call_ensures(LockManager::enqueue, (first, job), ()),
        call_ensures(LockManager::try_pop_runnable, (second,), r),
        *final(first) == *old(second),
        old(first).queue@.len() == 0,
        old(first).state.kv_holders == 0 && old(first).state.list_holders == 0 && old(
            first,
        ).state.log_holders == 0,
    ensures
        r matches Some(run) && run.0 == job && run.1@ == needed(commands_view(job.commands@)),
        final(second).queue@.len() == 0,
{
    let (p, q) = choose|p: int, q: QueuedJob|
        {
            &&& 0 <= p <= old(first).queue@.len()
            &&& q.wf()
            &&& q.job == job
            &&& final(first).queue@ == #[trigger] old(first).queue@.insert(p, q)
        };
    let queue = old(second).queue@;
    assert(queue.len() == 1);
    assert(queue[0] == q);
    assert(old(second).state.free(queue[0].resources@));
    if r is None {
        assert(!old(second).state.free(queue[0].resources@));
    }
}

/// A command that succeeds is logged, as it was given, and does what it says to its store. One that fails
/// is not logged.
#[verifier::rlimit(50)]
pub proof fn law_executed_command(
    db: &mut DB,
    cmd: PipelineCommand,
    r: Result<(), DBError>,
)
    requires
        call_ensures(execute_command, (db, cmd), r),
        list_step_ok(old(db)@.lists, cmd@),
    ensures
        r is Ok ==> final(db)@.aof == old(db)@.aof.push(cmd@),
        r is Err ==> final(db)@.aof == old(db)@.aof && final(db)@.lists == old(db)@.lists,
        r is Ok ==> match cmd {
            PipelineCommand::KvSet { db: d, key, val, ttl } => {
                &&& db_of(final(db)@.kv, d@).contains_key(key@)
                &&& db_of(final(db)@.kv, d@)[key@].val == val@
                &&& ttl == 0 ==> db_of(final(db)@.kv, d@)[key@].ttl == 0
            },
            PipelineCommand::KvDel { db: d, key } => {
                &&& db_of(old(db)@.kv, d@).contains_key(key@)
                &&& !db_of(final(db)@.kv, d@).contains_key(key@)
            },
            PipelineCommand::KvFlush { db: d } => db_of(final(db)@.kv, d@).dom() == Set::<
                Seq<char>,
            >::empty(),
            PipelineCommand::ListPush { key, payload } => final(db)@.lists[key@]
                == crate::seg_list::items_of(old(db)@.lists, key@).push(payload@),
            PipelineCommand::ListPop { key } => seq![old(db)@.lists[key@][0]]
                + final(db)@.lists[key@] == old(db)@.lists[key@],
            PipelineCommand::ListFlush { key } => final(db)@.lists[key@].len() == 0,
            PipelineCommand::LogAdd { group, timestamp, payload } => {
                let id = old(db)@.logs[group@].next_id;
                final(db)@.logs[group@].entries[id].triple() == (id, timestamp, payload@)
            },
        },
{
    if r is Ok {
        let (now, used) = choose|now: i64, used: i64| #[trigger]
            wrote(old(db)@, final(db)@, cmd@, now, used);
        assert(wrote(old(db)@, final(db)@, cmd@, now, used));
        match cmd {
            PipelineCommand::KvSet { db: d, key, val, ttl } => {
                crate::db::law_logged_key(
                    old(db)@.kv,
                    final(db)@.kv,
                    cmd@,
                    now,
                    used,
                    Seq::empty(),
                    Seq::empty(),
                );
            },
            PipelineCommand::KvFlush { db: d } => {
                assert(db_of(final(db)@.kv, d@).dom() =~= Set::empty());
            },
            PipelineCommand::ListPush { key, payload } => {
                crate::db::law_logged_list(old(db)@.lists, cmd@, key@);
                assert(final(db)@.lists[key@] =~= crate::seg_list::items_of(
                    old(db)@.lists,
                    key@,
                ).push(payload@));
            },
            PipelineCommand::ListPop { key } => {
                crate::db::law_logged_list(old(db)@.lists, cmd@, key@);
            },
            _ => {},
        }
    }
}

/// A job that runs to its end is logged, command by command and in order. One that does not leaves the
/// database as it was, and nothing of it is logged.
pub proof fn law_job_is_done_or_not(
    db: &mut DB,
    commands: Vec<PipelineCommand>,
    r: Option<Result<(), PipelineError>>,
)
    requires
        call_ensures(run_job, (db, commands), r),
    ensures
        r matches Some(Ok(_)) ==> final(db)@.aof == old(db)@.aof + commands_view(commands@),
        !(r matches Some(Ok(_))) ==> final(db)@ == old(db)@,
{
    if r matches Some(Ok(_)) {
        law_job_is_logged(old(db)@, final(db)@, commands_view(commands@));
    }
}

/// A pipeline that is started is empty, is found by its id, and is taken out once. Pipelines that are
/// started one after the other have different ids.
pub proof fn law_pipeline_is_started(
    first: &mut PipelineManager,
    second: &mut PipelineManager,
    third: &mut PipelineManager,
    fourth: &mut PipelineManager,
    id: u64,
    other: u64,
    taken: Option<Pipeline>,
    again: Option<Pipeline>,
)
    requires
        call_ensures(PipelineManager::start, (first,), id),
        call_ensures(PipelineManager::start, (second,), other),
        call_ensures(PipelineManager::take, (third, id), taken),
        call_ensures(PipelineManager::take, (fourth, id), again),
        final(first)@ == old(second)@,
        final(first).upcoming() == old(second).upcoming(),
        final(second)@ == old(third)@,
        final(third)@ == old(fourth)@,
    ensures
        other != id,
        taken matches Some(p) && p.id == id && p.commands@.len() == 0,
        again is None,
{
    let p = choose|p: Pipeline|
        {
            &&& p.id == id
            &&& p.commands@.len() == 0
            &&& final(first)@ == #[trigger] old(first)@.insert(id, p)
        };
    let q = choose|q: Pipeline|
        {
            &&& q.id == other
            &&& q.commands@.len() == 0
            &&& final(second)@ == #[trigger] old(second)@.insert(other, q)
        };
}

/// A job that holds stores keeps others from them until it gives them back.
pub proof fn law_held_stores_are_not_taken(
    first: &mut LockManager,
    second: &mut LockManager,
    third: &mut LockManager,
    resources: &[Resource],
    wanted: &[Resource],
    ok: bool,
    meanwhile: bool,
    i: int,
    j: int,
)
    requires
        call_ensures(LockManager::try_acquire, (first, resources), ok),
        call_ensures(LockManager::try_acquire, (second, wanted), meanwhile),
        call_ensures(LockManager::release, (third, resources), ()),
        final(first).state == old(second).state,
        final(first).state == old(third).state,
        ok,
        0 <= i < resources@.len(),
        0 <= j < wanted@.len(),
        wanted@[j] == resources@[i],
    ensures
        !meanwhile,
        final(third).state == old(first).state,
{
    let r = resources@[i];
    assert(resources@.contains(r));
    assert(final(first).state.holders(r) == 1);
    assert(old(second).state.holders(wanted@[j]) == 1);
    assert forall|x: Resource| #[trigger] final(third).state.holders(x) == old(first).state.holders(
        x,
    ) by {
        if resources@.contains(x) {
            let k = resources@.index_of(x);
            assert(old(first).state.holders(resources@[k]) == 0);
        }
        assert(final(first).state.holders(x) == old(third).state.holders(x));
    }
    assert(final(third).state.holders(Resource::Kv) == old(first).state.holders(Resource::Kv));
    assert(final(third).state.holders(Resource::List) == old(first).state.holders(Resource::List));
    assert(final(third).state.holders(Resource::Log) == old(first).state.holders(Resource::Log));
}

/// What is said of a pipeline that fails.
pub proof fn law_pipeline_errors_say(e: &PipelineError, m: String, inner: String)
    requires
        call_ensures(PipelineError::message, (e,), m),
        *e matches PipelineError::ExecError(why) ==> call_ensures(DBError::message, (&why,), inner),
    ensures
        e is SendError ==> m@ == "pipeline channel closed"@,
        e is ExecError ==> m@ == "pipeline exec error: "@ + inner@,
{
}

/// A job that may be run is logged, command by command and in order, where it succeeds. Where it fails it
/// leaves the database as it was.
pub proof fn law_executed_job(
    db: &mut DB,
    commands: Vec<PipelineCommand>,
    r: Result<(), PipelineError>,
)
    requires
        call_ensures(execute_job, (db, commands), r),
    ensures
        r is Ok ==> final(db)@.aof == old(db)@.aof + commands_view(commands@),
        r is Err ==> final(db)@ == old(db)@ && r->Err_0 is ExecError,
{
    if r is Ok {
        law_job_is_logged(old(db)@, final(db)@, commands_view(commands@));
    }
}

} // verus!
