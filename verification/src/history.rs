//! What holds of an engine over the whole of its use.
use std::sync::Arc;
use vstd::prelude::*;

use crate::block;
use crate::iterators::Contents;
use crate::lsm_storage;
use crate::lsm_storage::{LsmStorageInner, LsmStorageOptions, WriteBatchRecord};
use crate::mem_table::MemTable;
use crate::sorted;
use crate::table::builder;
use crate::table::SsTable;

verus! {

broadcast use crate::key::group_key_order;

/// What can be done to an engine.
pub enum Op {
    /// A value is put for a key.
    Put(Seq<u8>, Seq<u8>),
    /// A key is deleted.
    Delete(Seq<u8>),
    /// The memtable is frozen.
    Freeze,
    /// The earliest immutable memtable, if there is one, is flushed.
    Flush,
}

/// The key and the value of a write are short enough to be stored.
pub open spec fn op_short(op: Op) -> bool {
    match op {
        Op::Put(k, v) => k.len() < 65536 && v.len() < 65536,
        Op::Delete(k) => k.len() < 65536,
        Op::Freeze => true,
        Op::Flush => true,
    }
}

/// `after` is `before` once a value was written for a key.
pub open spec fn wrote(
    before: LsmStorageInner,
    k: Seq<u8>,
    v: Seq<u8>,
    after: LsmStorageInner,
) -> bool {
    exists|m: MemTable| #[trigger] before.written(k, v, &m, &after)
}

/// `after` is `before` once its earliest immutable memtable was flushed.
pub open spec fn flushed(before: LsmStorageInner, after: LsmStorageInner) -> bool {
    exists|t: SsTable, begun: LsmStorageInner|
        #![trigger before.flush_begun(&t, &begun)]
        before.flush_begun(&t, &begun) && begun.flush_finished(&t, &after)
}

/// `after` is `before` once `op` was done to it.
pub open spec fn step(before: LsmStorageInner, op: Op, after: LsmStorageInner) -> bool {
    match op {
        Op::Put(k, v) => wrote(before, k, v, after),
        Op::Delete(k) => wrote(before, k, Seq::empty(), after),
        Op::Freeze => before.frozen(&before.state.memtable, &after),
        Op::Flush => if before.state.imm_memtables@.len() == 0 {
            after == before
        } else {
            flushed(before, after)
        },
    }
}

/// The states through which an engine goes when these things are done to it.
pub open spec fn trace(states: Seq<LsmStorageInner>, ops: Seq<Op>) -> bool {
    &&& states.len() == ops.len() + 1
    &&& forall|i: int| 0 <= i < ops.len() ==> step(states[i], #[trigger] ops[i], states[i + 1])
}

/// An engine goes from `before` to `after` when these things are done to it.
pub open spec fn leads(before: LsmStorageInner, ops: Seq<Op>, after: LsmStorageInner) -> bool {
    exists|states: Seq<LsmStorageInner>| #[trigger]
        trace(states, ops) && states[0] == before && states.last() == after
}

/// What a lookup of `k` gives after the last write of it; nothing if it was not
/// written.
pub open spec fn last_write(ops: Seq<Op>, k: Seq<u8>) -> Option<Option<Seq<u8>>>
    decreases ops.len(),
{
    if ops.len() == 0 {
        None
    } else {
        match ops.last() {
            Op::Put(q, v) if q == k => Some(
                if v.len() > 0 {
                    Some(v)
                } else {
                    None
                },
            ),
            Op::Delete(q) if q == k => Some(None),
            _ => last_write(ops.drop_last(), k),
        }
    }
}

/// The keys and values of a memtable are short enough to be stored.
pub open spec fn memtable_short(m: &MemTable) -> bool {
    forall|i: int| 0 <= i < m.entries().len() ==> block::entry_storable(#[trigger] m.entries()[i])
}

/// The keys and values of all memtables are short enough to be stored.
pub open spec fn pairs_short(s: &LsmStorageInner) -> bool {
    &&& memtable_short(&s.state.memtable)
    &&& forall|i: int|
        0 <= i < s.state.imm_memtables@.len() ==> memtable_short(
            &*(#[trigger] s.state.imm_memtables@[i]),
        )
}

/// A table can hold the pairs of the earliest immutable memtable, if there is
/// one, and no table has its number.
pub open spec fn flush_fits(s: &LsmStorageInner) -> bool {
    s.state.imm_memtables@.len() > 0 ==> {
        &&& builder::table_storable(
            s.state.imm_memtables@.last().entries(),
            s.options.block_size,
        )
        &&& !s.state.sstables@.contains_key(s.next_sst_id)
    }
}

/// The blocks of the table into which the earliest immutable memtable would be
/// flushed stay below 4 GiB.
pub open spec fn flush_bounded(s: &LsmStorageInner) -> bool {
    s.state.imm_memtables@.len() > 0 ==> builder::encoded_blocks(
        builder::all_blocks(s.state.imm_memtables@.last().entries(), s.options.block_size),
    ).len() < 0x1_0000_0000
}

/// What a step does to what an engine holds.
pub open spec fn effect(m: Contents, op: Op) -> Contents {
    match op {
        Op::Put(k, v) => m.insert(k, v),
        Op::Delete(k) => m.insert(k, Seq::empty()),
        Op::Freeze => m,
        Op::Flush => m,
    }
}

/// What these things do, one after the other, to what an engine holds.
pub open spec fn effects(m: Contents, ops: Seq<Op>) -> Contents
    decreases ops.len(),
{
    if ops.len() == 0 {
        m
    } else {
        effect(effects(m, ops.drop_last()), ops.last())
    }
}

/// The write that a record of a batch stands for.
pub open spec fn op_of(record: WriteBatchRecord<&[u8]>) -> Op {
    match record {
        WriteBatchRecord::Put(k, v) => Op::Put(k@, v@),
        WriteBatchRecord::Del(k) => Op::Delete(k@),
    }
}

/// The writes that a batch stands for.
pub open spec fn ops_of(batch: Seq<WriteBatchRecord<&[u8]>>) -> Seq<Op> {
    Seq::new(batch.len(), |i: int| op_of(batch[i]))
}

/// Doing nothing leads nowhere else.
pub proof fn lemma_leads_nowhere(s: LsmStorageInner)
    ensures
        leads(s, Seq::empty(), s),
{
    let states = seq![s];
    assert(trace(states, Seq::empty()));
}

/// One more step leads on.
pub proof fn lemma_leads_on(
    before: LsmStorageInner,
    ops: Seq<Op>,
    mid: LsmStorageInner,
    op: Op,
    after: LsmStorageInner,
)
    requires
        leads(before, ops, mid),
        step(mid, op, after),
    ensures
        leads(before, ops.push(op), after),
{
    let states = choose|states: Seq<LsmStorageInner>| #[trigger]
        trace(states, ops) && states[0] == before && states.last() == mid;
    let more = states.push(after);
    let all = ops.push(op);
    assert forall|i: int| 0 <= i < all.len() implies step(
        more[i],
        #[trigger] all[i],
        more[i + 1],
    ) by {
        assert(more[i] == states[i]);
        if i < ops.len() {
            assert(all[i] == ops[i]);
            assert(more[i + 1] == states[i + 1]);
        }
    }
    assert(trace(more, all));
}

proof fn lemma_written_short(
    before: &LsmStorageInner,
    k: Seq<u8>,
    v: Seq<u8>,
    m: &MemTable,
    after: &LsmStorageInner,
)
    requires
        before.wf(),
        pairs_short(before),
        before.written(k, v, m, after),
        k.len() < 65536,
        v.len() < 65536,
    ensures
        pairs_short(after),
{
    let es = m.entries();
    let old_es = before.state.memtable.entries();
    assert forall|i: int| 0 <= i < es.len() implies block::entry_storable(#[trigger] es[i]) by {
        sorted::lemma_map_of(es, i);
        if es[i].0 != k {
            assert(before.state.memtable.contents().contains_key(es[i].0));
            let j = choose|j: int| sorted::has_key_at(old_es, es[i].0, j);
            sorted::lemma_map_of(old_es, j);
            assert(block::entry_storable(old_es[j]));
        }
    }
    lemma_imm_short(before, m, after);
}

/// Memtables that are frozen stay as they are.
proof fn lemma_imm_short(before: &LsmStorageInner, m: &MemTable, after: &LsmStorageInner)
    requires
        pairs_short(before),
        memtable_short(m),
        before.frozen(m, after) || (after.state.memtable == *m && after.state.imm_memtables@
            == before.state.imm_memtables@),
    ensures
        pairs_short(after),
{
    let imm = after.state.imm_memtables@;
    if before.frozen(m, after) {
        assert forall|i: int| 0 <= i < imm.len() implies memtable_short(
            &*(#[trigger] imm[i]),
        ) by {
            if i > 0 {
                assert(imm[i] == before.state.imm_memtables@[i - 1]);
            }
        }
    }
}

/// One step of a well-formed engine: it stays well-formed, keeps its tables on
/// file and, while numbers last, the latest first; and what it holds changes
/// only by what is written.
pub proof fn law_step(before: LsmStorageInner, op: Op, after: LsmStorageInner)
    requires
        before.wf(),
        step(before, op, after),
        op is Flush ==> flush_fits(&before),
    ensures
        after.wf(),
        after.contents() == effect(before.contents(), op),
        after.options == before.options,
        before.tables_on_file() ==> after.tables_on_file(),
        before.newest_first() && before.next_sst_id < usize::MAX ==> after.newest_first(),
{
    match op {
        Op::Put(k, v) => {
            let m = choose|m: MemTable| #[trigger] before.written(k, v, &m, &after);
            before.law_write(k, v, &m, &after);
        },
        Op::Delete(k) => {
            let m = choose|m: MemTable| #[trigger] before.written(k, Seq::empty(), &m, &after);
            before.law_write(k, Seq::empty(), &m, &after);
        },
        Op::Freeze => {
            before.law_freeze_keeps_contents(&after);
        },
        Op::Flush => {
            if before.state.imm_memtables@.len() > 0 {
                let (t, begun) = choose|t: SsTable, begun: LsmStorageInner|
                    #![trigger before.flush_begun(&t, &begun)]
                    before.flush_begun(&t, &begun) && begun.flush_finished(&t, &after);
                before.law_flush_keeps_contents(&t, &begun, &after);
            }
        },
    }
}

/// What was done to an engine but for the last of it is a history too.
proof fn lemma_trace_init(states: Seq<LsmStorageInner>, ops: Seq<Op>)
    requires
        trace(states, ops),
        ops.len() > 0,
    ensures
        trace(states.drop_last(), ops.drop_last()),
        states.drop_last()[0] == states[0],
        states.drop_last().last() == states[ops.len() - 1],
        step(states[ops.len() - 1], ops.last(), states.last()),
{
    let init = ops.drop_last();
    let s = states.drop_last();
    assert forall|i: int| 0 <= i < init.len() implies step(
        s[i],
        #[trigger] init[i],
        s[i + 1],
    ) by {
        assert(init[i] == ops[i]);
        assert(s[i] == states[i] && s[i + 1] == states[i + 1]);
    }
    let n = ops.len() - 1;
    assert(step(states[n], ops[n], states[n + 1]));
}

/// A key reads as the last write of it says, whatever else was done, and
/// wherever freezes and flushes fell in between; one that was not written reads
/// as it did at the start. What is flushed must fit in a table, under a number
/// that no table has.
pub proof fn law_history(states: Seq<LsmStorageInner>, ops: Seq<Op>, k: Seq<u8>)
    requires
        trace(states, ops),
        states[0].wf(),
        forall|i: int|
            0 <= i < ops.len() && (#[trigger] ops[i]) is Flush ==> flush_fits(&states[i]),
    ensures
        states.last().wf(),
        states[0].tables_on_file() ==> states.last().tables_on_file(),
        states.last().contents() == effects(states[0].contents(), ops),
        lsm_storage::lookup(states.last().contents(), k) == match last_write(ops, k) {
            Some(found) => found,
            None => lsm_storage::lookup(states[0].contents(), k),
        },
    decreases ops.len(),
{
    if ops.len() > 0 {
        let n = ops.len() - 1;
        let init = ops.drop_last();
        let s = states.drop_last();
        lemma_trace_init(states, ops);
        assert forall|i: int| 0 <= i < init.len() && (#[trigger] init[i]) is Flush implies flush_fits(
            &s[i],
        ) by {
            assert(init[i] == ops[i]);
            assert(s[i] == states[i]);
        }
        law_history(s, init, k);
        assert(ops[n] is Flush ==> flush_fits(&states[n]));
        law_step(states[n], ops[n], states.last());
    }
}

/// As long as numbers last, an engine that has the latest first keeps it so, and
/// no table ever has the next number.
pub proof fn law_numbers_fresh(states: Seq<LsmStorageInner>, ops: Seq<Op>)
    requires
        trace(states, ops),
        states[0].wf(),
        states[0].newest_first(),
        forall|i: int| 0 <= i < ops.len() ==> (#[trigger] states[i]).next_sst_id < usize::MAX,
        forall|i: int|
            0 <= i < ops.len() && (#[trigger] ops[i]) is Flush
                && states[i].state.imm_memtables@.len() > 0 ==> builder::table_storable(
                states[i].state.imm_memtables@.last().entries(),
                states[i].options.block_size,
            ),
    ensures
        states.last().wf(),
        states.last().newest_first(),
        !states.last().state.sstables@.contains_key(states.last().next_sst_id),
        forall|i: int|
            0 <= i < ops.len() && (#[trigger] ops[i]) is Flush ==> flush_fits(&states[i]),
    decreases ops.len(),
{
    if ops.len() > 0 {
        let n = ops.len() - 1;
        let init = ops.drop_last();
        let s = states.drop_last();
        lemma_trace_init(states, ops);
        assert(forall|i: int| 0 <= i < init.len() ==> #[trigger] init[i] == ops[i]);
        assert(forall|i: int| 0 <= i < s.len() ==> #[trigger] s[i] == states[i]);
        law_numbers_fresh(s, init);
        assert(s.last() == states[n]);
        assert(ops[n] is Flush ==> flush_fits(&states[n]));
        assert(states[n].next_sst_id < usize::MAX);
        law_step(states[n], ops[n], states.last());
        assert forall|i: int| 0 <= i < ops.len() && (#[trigger] ops[i]) is Flush implies flush_fits(
            &states[i],
        ) by {
            if i < n {
                assert(init[i] == ops[i]);
                assert(s[i] == states[i]);
            }
        }
    }
}

/// Keys and values that are short enough stay so in the memtables.
proof fn lemma_step_short(before: LsmStorageInner, op: Op, after: LsmStorageInner)
    requires
        before.wf(),
        pairs_short(&before),
        op_short(op),
        step(before, op, after),
    ensures
        pairs_short(&after),
        after.options == before.options,
{
    match op {
        Op::Put(k, v) => {
            let m = choose|m: MemTable| #[trigger] before.written(k, v, &m, &after);
            lemma_written_short(&before, k, v, &m, &after);
        },
        Op::Delete(k) => {
            let m = choose|m: MemTable| #[trigger] before.written(k, Seq::empty(), &m, &after);
            lemma_written_short(&before, k, Seq::empty(), &m, &after);
        },
        Op::Freeze => {
            lemma_imm_short(&before, &before.state.memtable, &after);
        },
        Op::Flush => {
            let imm = before.state.imm_memtables@;
            assert forall|i: int| 0 <= i < after.state.imm_memtables@.len() implies memtable_short(
                &*(#[trigger] after.state.imm_memtables@[i]),
            ) by {
                assert(after.state.imm_memtables@[i] == imm[i]);
            }
        },
    }
}

/// Short pairs always fit in a table with small blocks that stays below 4 GiB:
/// if an engine starts with such pairs, and no others are written, each flush
/// fits while numbers last.
pub proof fn law_short_pairs_fit(states: Seq<LsmStorageInner>, ops: Seq<Op>)
    requires
        trace(states, ops),
        states[0].wf(),
        states[0].newest_first(),
        pairs_short(&states[0]),
        states[0].options.block_size <= 65536,
        forall|i: int| 0 <= i < ops.len() ==> op_short(#[trigger] ops[i]),
        forall|i: int| 0 <= i < ops.len() ==> (#[trigger] states[i]).next_sst_id < usize::MAX,
        forall|i: int|
            0 <= i < ops.len() && (#[trigger] ops[i]) is Flush ==> flush_bounded(&states[i]),
    ensures
        states.last().wf(),
        states.last().newest_first(),
        pairs_short(&states.last()),
        states.last().options == states[0].options,
        forall|i: int|
            0 <= i < ops.len() && (#[trigger] ops[i]) is Flush ==> flush_fits(&states[i]),
    decreases ops.len(),
{
    if ops.len() > 0 {
        let n = ops.len() - 1;
        let init = ops.drop_last();
        let s = states.drop_last();
        lemma_trace_init(states, ops);
        assert(forall|i: int| 0 <= i < init.len() ==> #[trigger] init[i] == ops[i]);
        assert(forall|i: int| 0 <= i < s.len() ==> #[trigger] s[i] == states[i]);
        law_short_pairs_fit(s, init);
        let before = states[n];
        assert(s.last() == before);
        assert(before.next_sst_id < usize::MAX);
        assert(op_short(ops[n]));
        if ops[n] is Flush && before.state.imm_memtables@.len() > 0 {
            let imm = before.state.imm_memtables@;
            assert(imm[imm.len() - 1].wf());
            assert(memtable_short(&*imm[imm.len() - 1]));
            builder::law_small_blocks_storable(imm.last().entries(), before.options.block_size);
            assert(flush_bounded(&states[n]));
            assert(flush_fits(&before));
        }
        law_step(before, ops[n], states.last());
        lemma_step_short(before, ops[n], states.last());
        assert forall|i: int| 0 <= i < ops.len() && (#[trigger] ops[i]) is Flush implies flush_fits(
            &states[i],
        ) by {
            if i < n {
                assert(init[i] == ops[i]);
                assert(s[i] == states[i]);
            }
        }
    }
}

/// An engine that was just opened starts with short pairs: nothing is left to be
/// flushed.
pub proof fn law_opened_is_short(
    s: &LsmStorageInner,
    options: LsmStorageOptions,
    files: Seq<(usize, Vec<u8>)>,
)
    requires
        s.loaded(options, files),
    ensures
        pairs_short(s),
{
}

/// The memtables that wait to be flushed, from latest to earliest: the current
/// one if anything was written into it, and the immutable ones.
pub open spec fn pending(s: &LsmStorageInner) -> Seq<Arc<MemTable>> {
    if s.state.memtable.entries().len() > 0 {
        seq![Arc::new(s.state.memtable)] + s.state.imm_memtables@
    } else {
        s.state.imm_memtables@
    }
}

/// Freezing the memtable unless it is empty, and then flushing once, leaves an
/// empty memtable. If anything waits to be flushed, the earliest of it has
/// become the latest table of L0; else nothing has changed. What the engine
/// holds is the same.
pub proof fn law_force_flush(
    before: LsmStorageInner,
    frozen: LsmStorageInner,
    after: LsmStorageInner,
)
    requires
        before.wf(),
        if before.state.memtable.entries().len() > 0 {
            before.frozen(&before.state.memtable, &frozen)
        } else {
            frozen == before
        },
        step(frozen, Op::Flush, after),
        flush_fits(&frozen),
    ensures
        after.wf(),
        before.newest_first() && before.next_sst_id < usize::MAX - 1 ==> after.newest_first(),
        after.contents() == before.contents(),
        after.state.memtable.entries().len() == 0,
        pending(&before).len() == 0 ==> after == before,
        pending(&before).len() > 0 ==> {
            let id = frozen.next_sst_id;
            &&& after.state.imm_memtables@ == pending(&before).drop_last()
            &&& after.state.l0_sstables@ == seq![id] + before.state.l0_sstables@
            &&& after.state.sstables@.contains_key(id)
            &&& after.state.table(id).entries() == pending(&before).last().entries()
        },
{
    if before.state.memtable.entries().len() > 0 {
        before.law_freeze_keeps_contents(&frozen);
        assert(frozen.state.imm_memtables@ =~= seq![frozen.state.imm_memtables@[0]]
            + frozen.state.imm_memtables@.drop_first());
        assert(frozen.state.imm_memtables@ =~= pending(&before));
    }
    assert(frozen.state.imm_memtables@ == pending(&before));
    if pending(&before).len() > 0 {
        let (t, begun) = choose|t: SsTable, begun: LsmStorageInner|
            #![trigger frozen.flush_begun(&t, &begun)]
            frozen.flush_begun(&t, &begun) && begun.flush_finished(&t, &after);
        frozen.law_flush_keeps_contents(&t, &begun, &after);
        builder::law_table_read_back(
            t,
            pending(&before).last().entries(),
            before.options.block_size,
            frozen.next_sst_id,
        );
    }
}

/// Descending numbers are given by which they are.
proof fn lemma_descending_unique(a: Seq<usize>, b: Seq<usize>)
    requires
        forall|i: int, j: int| #![trigger a[i], a[j]] 0 <= i < j < a.len() ==> a[j] < a[i],
        forall|i: int, j: int| #![trigger b[i], b[j]] 0 <= i < j < b.len() ==> b[j] < b[i],
        forall|x: usize| #[trigger] a.contains(x) == b.contains(x),
    ensures
        a == b,
    decreases a.len(),
{
    if a.len() == 0 {
        if b.len() > 0 {
            assert(b.contains(b[0]));
            assert(a.contains(b[0]));
        }
        assert(a =~= b);
    } else {
        assert(a.contains(a[0]));
        assert(b.contains(a[0]));
        let i = b.index_of(a[0]);
        assert(b.contains(b[0]));
        assert(a.contains(b[0]));
        let j = a.index_of(b[0]);
        assert(a[0] == b[0]);
        let x = a.drop_first();
        let y = b.drop_first();
        assert forall|v: usize| #[trigger] x.contains(v) == y.contains(v) by {
            if x.contains(v) {
                let l = x.index_of(v);
                assert(a[l + 1] == v);
                assert(a.contains(v));
                assert(b.contains(v));
                let m = b.index_of(v);
                assert(y[m - 1] == v);
            }
            if y.contains(v) {
                let l = y.index_of(v);
                assert(b[l + 1] == v);
                assert(b.contains(v));
                assert(a.contains(v));
                let m = a.index_of(v);
                assert(x[m - 1] == v);
            }
        }
        lemma_descending_unique(x, y);
        assert(a =~= seq![a[0]] + x);
        assert(b =~= seq![b[0]] + y);
    }
}

/// The files are those of the tables of the engine, each once, in any order.
pub open spec fn files_of(s: &LsmStorageInner, files: Seq<(usize, Vec<u8>)>) -> bool {
    &&& forall|i: int|
        0 <= i < files.len() ==> s.state.sstables@.contains_key((#[trigger] files[i]).0)
            && files[i].1@ == s.state.table(files[i].0).file@
    &&& forall|id: usize| #[trigger]
        s.state.sstables@.contains_key(id) ==> lsm_storage::has_file(files, id)
    &&& forall|i: int, j: int|
        #![trigger files[i], files[j]]
        0 <= i < j < files.len() ==> files[i].0 != files[j].0
}

/// Once all memtables of an engine are flushed, the files of its tables can be
/// loaded, and the engine that loads them holds what it held.
pub proof fn law_reopen(
    before: LsmStorageInner,
    options: LsmStorageOptions,
    files: Seq<(usize, Vec<u8>)>,
    after: LsmStorageInner,
)
    requires
        before.wf(),
        before.newest_first(),
        before.tables_on_file(),
        pending(&before).len() == 0,
        files_of(&before, files),
        after.loaded(options, files),
    ensures
        lsm_storage::loadable(files),
        after.contents() == before.contents(),
{
    let a = before.state.l0_sstables@;
    let b = after.state.l0_sstables@;
    law_files_loadable(before, files);
    assert forall|id: usize| #[trigger] a.contains(id) == b.contains(id) by {
        if a.contains(id) {
            let i = a.index_of(id);
            assert(before.state.sstables@.contains_key(a[i]));
            let j = choose|j: int| 0 <= j < files.len() && (#[trigger] files[j]).0 == id;
            assert(after.state.sstables@.contains_key(files[j].0));
        }
        if b.contains(id) {
            let i = b.index_of(id);
            assert(after.state.sstables@.contains_key(b[i]));
            let j = choose|j: int| 0 <= j < files.len() && (#[trigger] files[j]).0 == id;
            assert(before.state.sstables@.contains_key(files[j].0));
        }
    }
    lemma_descending_unique(a, b);
    assert forall|i: int| 0 <= i < a.len() implies before.state.l0_layers()[i]
        == #[trigger] after.state.l0_layers()[i] by {
        let id = a[i];
        assert(before.state.sstables@.contains_key(a[i]));
        let j = choose|j: int| 0 <= j < files.len() && (#[trigger] files[j]).0 == id;
        before.state.table(id).law_file_unique(&after.state.table(id), files[j].1@);
    }
    assert(before.state.l0_layers() =~= after.state.l0_layers());
    let none = Map::<Seq<u8>, Seq<u8>>::empty();
    let layers = before.state.l0_layers();
    assert(before.state.memtable.contents() =~= none);
    assert(before.state.mem_layers() =~= seq![none]);
    crate::iterators::lemma_layered_concat(seq![none], layers);
    crate::iterators::lemma_layered_one(none);
    assert(crate::iterators::layered(layers).union_prefer_right(none)
        =~= crate::iterators::layered(layers));
}

/// The files of the tables of an engine can be loaded.
pub proof fn law_files_loadable(before: LsmStorageInner, files: Seq<(usize, Vec<u8>)>)
    requires
        before.wf(),
        before.newest_first(),
        before.tables_on_file(),
        files_of(&before, files),
    ensures
        lsm_storage::loadable(files),
{
    assert forall|i: int| 0 <= i < files.len() implies !#[trigger] lsm_storage::unfit(
        files,
        i,
    ) by {
        let id = files[i].0;
        assert(before.state.sstables@.contains_key(id));
        let t = before.state.table(id);
        assert(t.stored_as(files[i].1@));
        let j = before.state.l0_sstables@.index_of(id);
        assert(before.state.l0_sstables@[j] == id);
        assert(t.wf());
        assert(lsm_storage::holds_table(files[i].1@));
    }
}

/// One write after others changes what is held for its key and for no other; a
/// delete leaves an empty value there. Freezing and flushing change nothing.
pub proof fn law_effects(m: Contents, ops: Seq<Op>, k: Seq<u8>, v: Seq<u8>)
    ensures
        effects(m, Seq::empty()) == m,
        effects(m, ops.push(Op::Put(k, v))) == effects(m, ops).insert(k, v),
        effects(m, ops.push(Op::Delete(k))) == effects(m, ops).insert(k, Seq::empty()),
        effects(m, ops.push(Op::Freeze)) == effects(m, ops),
        effects(m, ops.push(Op::Flush)) == effects(m, ops),
{
    assert(ops.push(Op::Put(k, v)).drop_last() =~= ops);
    assert(ops.push(Op::Delete(k)).drop_last() =~= ops);
    assert(ops.push(Op::Freeze).drop_last() =~= ops);
    assert(ops.push(Op::Flush).drop_last() =~= ops);
}

/// A batch stands for its writes, in its order.
pub proof fn law_batch(batch: Seq<WriteBatchRecord<&[u8]>>, i: int)
    requires
        0 <= i < batch.len(),
    ensures
        ops_of(batch).len() == batch.len(),
        match batch[i] {
            WriteBatchRecord::Put(k, v) => ops_of(batch)[i] == Op::Put(k@, v@),
            WriteBatchRecord::Del(k) => ops_of(batch)[i] == Op::Delete(k@),
        },
{
}

/// The last write of a key counts; writes of other keys do not.
pub proof fn law_last_write(ops: Seq<Op>, k: Seq<u8>, q: Seq<u8>, v: Seq<u8>)
    ensures
        last_write(Seq::empty(), k) is None,
        v.len() > 0 ==> last_write(ops.push(Op::Put(k, v)), k) == Some(Some(v)),
        v.len() == 0 ==> last_write(ops.push(Op::Put(k, v)), k) == Some(None::<Seq<u8>>),
        last_write(ops.push(Op::Delete(k)), k) == Some(None::<Seq<u8>>),
        q != k ==> last_write(ops.push(Op::Put(q, v)), k) == last_write(ops, k),
        q != k ==> last_write(ops.push(Op::Delete(q)), k) == last_write(ops, k),
        last_write(ops.push(Op::Freeze), k) == last_write(ops, k),
        last_write(ops.push(Op::Flush), k) == last_write(ops, k),
{
    assert(ops.push(Op::Put(k, v)).drop_last() =~= ops);
    assert(ops.push(Op::Put(q, v)).drop_last() =~= ops);
    assert(ops.push(Op::Delete(q)).drop_last() =~= ops);
    assert(ops.push(Op::Freeze).drop_last() =~= ops);
    assert(ops.push(Op::Flush).drop_last() =~= ops);
}

/// Things are done to an engine one after the other: none of them leaves it as
/// it is, and the last of them is done to what the others led to.
pub proof fn law_leads(before: LsmStorageInner, ops: Seq<Op>, op: Op, after: LsmStorageInner)
    ensures
        leads(before, Seq::empty(), after) == (after == before),
        leads(before, ops.push(op), after) == exists|mid: LsmStorageInner| #[trigger]
            leads(before, ops, mid) && step(mid, op, after),
{
    if leads(before, Seq::empty(), after) {
        let states = choose|states: Seq<LsmStorageInner>| #[trigger]
            trace(states, Seq::empty()) && states[0] == before && states.last() == after;
        assert(states.last() == states[0]);
    }
    lemma_leads_nowhere(before);
    let all = ops.push(op);
    if leads(before, all, after) {
        let states = choose|states: Seq<LsmStorageInner>| #[trigger]
            trace(states, all) && states[0] == before && states.last() == after;
        let first = states.drop_last();
        assert forall|i: int| 0 <= i < ops.len() implies step(
            first[i],
            #[trigger] ops[i],
            first[i + 1],
        ) by {
            assert(all[i] == ops[i]);
            assert(step(states[i], all[i], states[i + 1]));
        }
        assert(trace(first, ops));
        assert(leads(before, ops, first.last()));
        assert(all[ops.len() as int] == op);
    }
    if exists|mid: LsmStorageInner| #[trigger] leads(before, ops, mid) && step(mid, op, after) {
        let mid = choose|mid: LsmStorageInner| #[trigger]
            leads(before, ops, mid) && step(mid, op, after);
        lemma_leads_on(before, ops, mid, op, after);
    }
}

/// Writes change the memtables only, and never leave a memtable behind that is
/// larger than a table should be. What is frozen goes in front of what was
/// frozen before.
pub proof fn law_batch_state(
    before: LsmStorageInner,
    batch: Seq<WriteBatchRecord<&[u8]>>,
    after: LsmStorageInner,
)
    requires
        leads(before, ops_of(batch), after),
    ensures
        batch.len() == 0 ==> after == before,
        batch.len() > 0 ==> after.state.memtable.size() <= before.options.target_sst_size,
        after.state.imm_memtables@.len() >= before.state.imm_memtables@.len(),
        after.state.imm_memtables@.len() <= before.state.imm_memtables@.len() + batch.len(),
        after.state.imm_memtables@.skip(
            after.state.imm_memtables@.len() - before.state.imm_memtables@.len(),
        ) == before.state.imm_memtables@,
        after.state.l0_sstables@ == before.state.l0_sstables@,
        after.state.levels == before.state.levels,
        after.state.sstables == before.state.sstables,
        after.options == before.options,
        after.compaction_controller == before.compaction_controller,
        after.compaction_filters == before.compaction_filters,
    decreases batch.len(),
{
    if batch.len() == 0 {
        assert(ops_of(batch) =~= Seq::<Op>::empty());
        law_leads(before, Seq::empty(), Op::Freeze, after);
        assert(after.state.imm_memtables@.skip(0) =~= before.state.imm_memtables@);
    } else {
        let rest = batch.drop_last();
        let op = op_of(batch.last());
        assert(ops_of(batch) =~= ops_of(rest).push(op));
        law_leads(before, ops_of(rest), op, after);
        let mid = choose|mid: LsmStorageInner| #[trigger]
            leads(before, ops_of(rest), mid) && step(mid, op, after);
        law_batch_state(before, rest, mid);
        let (k, v) = match batch.last() {
            WriteBatchRecord::Put(k, v) => (k@, v@),
            WriteBatchRecord::Del(k) => (k@, Seq::<u8>::empty()),
        };
        assert(wrote(mid, k, v, after));
        let m = choose|m: MemTable| #[trigger] mid.written(k, v, &m, &after);
        mid.law_written_state(k, v, &m, &after);
        let x = before.state.imm_memtables@;
        let y = mid.state.imm_memtables@;
        let z = after.state.imm_memtables@;
        let a = y.len() - x.len();
        let b = z.len() - x.len();
        assert forall|i: int| 0 <= i < x.len() implies #[trigger] z.skip(b)[i] == x[i] by {
            assert(y.skip(a)[i] == x[i]);
            assert(y[a + i] == x[i]);
        }
        assert(z.skip(b) =~= x);
    }
}

} // verus!
