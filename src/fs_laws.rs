use crate::addr::Addr;
use crate::fs::{read_into, read_len, resized, written, FsModel};
use vstd::prelude::*;

verus! {

/// The disk of a node reached for the first time holds no file: opening any
/// path on it fails.
pub proof fn lemma_fresh_disk_is_empty(m: FsModel, a: Addr, p: Seq<char>)
    requires
        m.wf(),
        !m.has_disk(a),
    ensures
        m.handle(a).1 < m.handle(a).0.disks.len(),
        m.handle(a).0.open(m.handle(a).1, p) is None,
{
}

/// Reaching the disk of a node twice gives the same disk and changes nothing
/// the second time; the disk belongs to that node.
pub proof fn lemma_handle_idempotent(m: FsModel, a: Addr)
    requires
        m.wf(),
    ensures
        m.handle(a).0.wf(),
        m.handle(a).1 < m.handle(a).0.disks.len(),
        m.handle(a).0.disks[m.handle(a).1 as int].0 == a,
        m.handle(a).0.handle(a) == m.handle(a),
{
    lemma_handle_wf(m, a);
    let (m1, d) = m.handle(a);
    if !m.has_disk(a) {
        assert(m1.disks[d as int].0 == a);
    }
    assert(m1.disks[d as int].0 == a);
    assert(m1.has_disk(a));
    let c = m1.disk_of(a);
    assert(c == d) by {
        if c < d {
            assert(m1.disks[c as int].0 != m1.disks[d as int].0);
        } else if c > d {
            assert(m1.disks[d as int].0 != m1.disks[c as int].0);
        }
    }
}

/// The disks of two different nodes are different disks and share no file:
/// no inode is reachable from both, and creating a file on one leaves the
/// other's files as they were.
pub proof fn lemma_disks_isolated(m: FsModel, a: Addr, b: Addr, p: Seq<char>, q: Seq<char>)
    requires
        m.wf(),
        a != b,
    ensures
        ({
            let (m1, da) = m.handle(a);
            let (m2, db) = m1.handle(b);
            &&& da != db
            &&& m2.disks[da as int].0 == a
            &&& m2.disks[db as int].0 == b
            &&& m2.open(da, p) is Some && m2.open(db, q) is Some ==> m2.open(da, p) != m2.open(db, q)
            &&& m2.create(da, p).0.disks[db as int] == m2.disks[db as int]
        }),
{
    lemma_handle_idempotent(m, a);
    let (m1, da) = m.handle(a);
    lemma_handle_idempotent(m1, b);
    let (m2, db) = m1.handle(b);
    assert(m2.disks[da as int] == m1.disks[da as int]);
    if m2.open(da, p) is Some && m2.open(db, q) is Some {
        assert(m2.disks[da as int].1.contains_key(p));
        assert(m2.disks[db as int].1.contains_key(q));
    }
}

/// Creating the same path twice on one disk gives the same inode, and the
/// second call changes nothing: no second inode is made, and a later open
/// finds that inode.
pub proof fn lemma_create_idempotent(m: FsModel, d: nat, p: Seq<char>)
    requires
        m.wf(),
        d < m.disks.len(),
    ensures
        m.create(d, p).0.create(d, p) == m.create(d, p),
        m.create(d, p).0.create(d, p).1 == m.create(d, p).1,
        m.create(d, p).0.open(d, p) == Some(m.create(d, p).1),
        m.create(d, p).1 < m.create(d, p).0.data.len(),
        m.create(d, p).0.data.len() <= m.data.len() + 1,
{
}

/// A read at or past the end of a file copies nothing and leaves the buffer
/// as it was.
pub proof fn lemma_read_past_end(content: Seq<u8>, buf: Seq<u8>, off: int)
    requires
        off >= content.len(),
    ensures
        read_len(content, buf.len(), off) == 0,
        read_into(content, buf, off) == buf,
{
    assert(read_into(content, buf, off) =~= buf);
}

/// Setting a length below the current one keeps that many leading bytes;
/// setting one above keeps every byte and appends zeros.
pub proof fn lemma_set_len_truncates_or_zero_extends(content: Seq<u8>, n: nat)
    ensures
        n <= content.len() ==> resized(content, n) == content.subrange(0, n as int),
        n > content.len() ==> resized(content, n).subrange(0, content.len() as int) == content
            && forall|i: int| content.len() <= i < n ==> #[trigger] resized(content, n)[i] == 0u8,
{
    if n <= content.len() {
        assert(resized(content, n) =~= content.subrange(0, n as int));
    } else {
        assert(resized(content, n).subrange(0, content.len() as int) =~= content);
    }
}

/// A write is never torn by a power failure of its node: if the file was
/// made durable just before the write, the failure removes the whole write;
/// if it was made durable just after, the whole write survives.
pub proof fn lemma_write_survives_whole_or_not_at_all(
    m: FsModel,
    a: Addr,
    d: nat,
    p: Seq<char>,
    bytes: Seq<u8>,
    off: int,
)
    requires
        m.wf(),
        d < m.disks.len(),
        m.disks[d as int].0 == a,
        m.disks[d as int].1.contains_key(p),
    ensures
        ({
            let i = m.disks[d as int].1[p];
            &&& m.sync(i).write(i, bytes, off).power_fail(a).data[i as int] == m.data[i as int]
            &&& m.write(i, bytes, off).sync(i).power_fail(a).data[i as int] == written(
                m.data[i as int],
                bytes,
                off,
            )
        }),
{
    let i = m.disks[d as int].1[p];
    let m1 = m.sync(i).write(i, bytes, off);
    assert(m1.disks[d as int].1.contains_key(p));
    assert(m1.owns(a, i as int));
    let m2 = m.write(i, bytes, off).sync(i);
    assert(m2.disks[d as int].1.contains_key(p));
    assert(m2.owns(a, i as int));
}

/// One filesystem operation, with everything that decides its outcome: the
/// disk or inode it acts on (for a write, also whether the handle may write)
/// and its arguments.
pub enum FsOp {
    Reach(Addr),
    Open(nat, Seq<char>),
    Create(nat, Seq<char>),
    Read(nat, Seq<u8>, int),
    Write(nat, bool, Seq<u8>, int),
    SetLen(nat, nat),
    Sync(nat),
    PowerFail(Addr),
}

/// What an operation hands back to its caller.
pub enum FsOutcome {
    Disk(nat),
    Opened(Option<nat>),
    Created(nat),
    Read(nat, Seq<u8>),
    Done,
    Denied,
}

/// The state after an operation and what it returns, as the operations'
/// contracts give them.
pub open spec fn step(m: FsModel, op: FsOp) -> (FsModel, FsOutcome) {
    match op {
        FsOp::Reach(a) => (m.handle(a).0, FsOutcome::Disk(m.handle(a).1)),
        FsOp::Open(d, p) => (m, FsOutcome::Opened(m.open(d, p))),
        FsOp::Create(d, p) => (m.create(d, p).0, FsOutcome::Created(m.create(d, p).1)),
        FsOp::Read(i, buf, off) => (
            m,
            FsOutcome::Read(
                read_len(m.data[i as int], buf.len(), off),
                read_into(m.data[i as int], buf, off),
            ),
        ),
        FsOp::Write(i, can_write, bytes, off) => if can_write {
            (m.write(i, bytes, off), FsOutcome::Done)
        } else {
            (m, FsOutcome::Denied)
        },
        FsOp::SetLen(i, n) => (m.set_len(i, n), FsOutcome::Done),
        FsOp::Sync(i) => (m.sync(i), FsOutcome::Done),
        FsOp::PowerFail(a) => (m.power_fail(a), FsOutcome::Done),
    }
}

/// The state after a sequence of operations, and what each returned.
pub open spec fn run(m: FsModel, ops: Seq<FsOp>) -> (FsModel, Seq<FsOutcome>)
    decreases ops.len(),
{
    if ops.len() == 0 {
        (m, Seq::empty())
    } else {
        let (m1, out) = step(m, ops[0]);
        let (m2, outs) = run(m1, ops.drop_first());
        (m2, seq![out].add(outs))
    }
}

/// Runs are reproducible: every simulation made with one seed starts from the
/// same state, and the same operations then leave the same files behind and
/// return the same results, errors included, one by one.
pub proof fn lemma_runs_reproducible(m1: FsModel, m2: FsModel, ops: Seq<FsOp>)
    requires
        m1 == FsModel::empty(),
        m2 == FsModel::empty(),
    ensures
        run(m1, ops) == run(m2, ops),
        run(m1, ops).1.len() == ops.len(),
{
    lemma_run_len(m1, ops);
}

proof fn lemma_run_len(m: FsModel, ops: Seq<FsOp>)
    ensures
        run(m, ops).1.len() == ops.len(),
    decreases ops.len(),
{
    if ops.len() > 0 {
        lemma_run_len(step(m, ops[0]).0, ops.drop_first());
    }
}

/// Reaching a disk keeps the model well formed.
proof fn lemma_handle_wf(m: FsModel, a: Addr)
    requires
        m.wf(),
    ensures
        m.handle(a).0.wf(),
{
    let m1 = m.handle(a).0;
    if !m.has_disk(a) {
        assert forall|d1: int, d2: int| 0 <= d1 < d2 < m1.disks.len() implies m1.disks[d1].0 != m1.disks[d2].0 by {
            if d2 == m.disks.len() {
                assert(m.disks[d1].0 != a);
            }
        }
        assert forall|d: int, p: Seq<char>|
            0 <= d < m1.disks.len() && #[trigger] m1.disks[d].1.contains_key(p) implies m1.disks[d].1[p] < m1.data.len() by {
            if d < m.disks.len() {
                assert(m.disks[d].1.contains_key(p));
            }
        }
        assert forall|d1: int, p1: Seq<char>, d2: int, p2: Seq<char>|
            0 <= d1 < m1.disks.len() && 0 <= d2 < m1.disks.len()
                && #[trigger] m1.disks[d1].1.contains_key(p1)
                && #[trigger] m1.disks[d2].1.contains_key(p2) && (d1 != d2 || p1 != p2)
                implies m1.disks[d1].1[p1] != m1.disks[d2].1[p2] by {
            assert(d1 < m.disks.len() && d2 < m.disks.len());
            assert(m.disks[d1].1.contains_key(p1));
            assert(m.disks[d2].1.contains_key(p2));
        }
    }
}

} // verus!
