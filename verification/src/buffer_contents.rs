//! What the mesh buffer ends up holding. The GPU plays the manager's
//! commands on its buffers, then its pending writes are written; a map from
//! mesh ids to their bytes says what each mesh should read back as. Every
//! operation of the manager keeps each entry reading back as its mesh was
//! last stored: adding or rewriting a mesh stores its new bytes, freeing one
//! leaves the others alone, flushing turns pending writes into commands
//! without changing what is read, and handing the commands to the GPU moves
//! their effect into its buffers.

use vstd::prelude::*;
use vstd::set_lib::set_int_range;
use crate::mesh_manager::{
    AllocError, GpuCommand, MeshEntry, MeshId, MeshManager, WriteOperation, apply_ops, apply_write, emitted_writes, flushed, freed,
    Gap, free_set, gap_insertion_index, lemma_batched_in_arena, lemma_batching_preserves_writes, merged_around, op_bytes,
    added, copies_match, detached_placement, entries_apart_from_gaps, entries_disjoint, entry_gap_disjoint,
    entry_insertion_index, is_first_fit, is_reallocation, lemma_packed, lemma_total_len_bounded, lemma_total_len_remove,
    no_fit, ops_in_arena, packed, placement_gaps, released_gaps, total_len, updated, writes_match,
};

verus! {

/// What the GPU holds while it plays buffer commands: the current buffer
/// and the buffer it replaced last, byte by byte.
pub type GpuBuffers = (Map<int, u8>, Map<int, u8>);

/// Every position of `buf` holds a byte.
pub open spec fn total(buf: Map<int, u8>) -> bool {
    forall|x: int| #[trigger] buf.dom().contains(x)
}

/// A new buffer: zero at every position.
pub open spec fn zeroed() -> Map<int, u8> {
    Map::new(|x: int| true, |x: int| 0u8)
}

/// The `length` bytes of `buf` from position `from` on.
pub open spec fn bytes_at(buf: Map<int, u8>, from: int, length: int) -> Seq<u8> {
    Seq::new(length as nat, |i: int| buf[from + i])
}

/// The GPU buffers after playing command `c` on `st`.
pub open spec fn play_command(st: GpuBuffers, c: GpuCommand) -> GpuBuffers {
    match c {
        GpuCommand::WriteBuffer { offset, data } => (apply_write(st.0, offset as int, data@), st.1),
        GpuCommand::Reallocate { capacity } => (zeroed(), st.0),
        GpuCommand::CopyFromPrevious { from, to, length } => (
            apply_write(st.0, to as int, bytes_at(st.1, from as int, length as int)),
            st.1,
        ),
    }
}

/// The GPU buffers after playing the commands `cmds`, in order, on `st`.
pub open spec fn play(st: GpuBuffers, cmds: Seq<GpuCommand>) -> GpuBuffers
    decreases cmds.len(),
{
    if cmds.len() == 0 {
        st
    } else {
        play_command(play(st, cmds.drop_last()), cmds.last())
    }
}

/// The contents of the buffer once the GPU has played the commands of `m`
/// on `st` and the pending writes of `m` have been written.
pub open spec fn pending_contents(m: MeshManager, st: GpuBuffers) -> Map<int, u8> {
    apply_ops(play(st, m.commands@).0, m.arena@, m.write_operations@)
}

/// Write `w` writes position `x`.
pub open spec fn covers(w: WriteOperation, x: int) -> bool {
    w.offset <= x < w.offset + w.len
}

/// The index of the last write of `ops` that writes position `x`, if any.
pub open spec fn last_cover(ops: Seq<WriteOperation>, x: int) -> Option<int>
    decreases ops.len(),
{
    if ops.len() == 0 {
        None
    } else if covers(ops.last(), x) {
        Some(ops.len() - 1)
    } else {
        last_cover(ops.drop_last(), x)
    }
}

/// Position `x` of entry `e` ends up holding byte `x - e.position` of
/// `content`: the last pending write over `x` is one of `e`'s mesh and
/// writes that byte, or no pending write covers `x` and the commands of
/// `m` played on `st` leave that byte there.
pub open spec fn byte_stored(m: MeshManager, st: GpuBuffers, e: MeshEntry, content: Seq<u8>, x: int) -> bool {
    let b = content[x - e.position];
    match last_cover(m.write_operations@, x) {
        Some(k) => {
            let w = m.write_operations@[k];
            w.mesh_id == e.id && op_bytes(m.arena@, w)[x - w.offset] == b
        },
        None => play(st, m.commands@).0[x] == b,
    }
}

/// Entry `e` is stored as the mesh contents `cm` say: its region ends up
/// holding `cm[e.id]`, which is as long as the region.
pub open spec fn entry_stored(m: MeshManager, st: GpuBuffers, cm: Map<MeshId, Seq<u8>>, e: MeshEntry) -> bool {
    &&& cm.dom().contains(e.id)
    &&& cm[e.id].len() == e.length
    &&& forall|x: int| e.position <= x < e.position + e.length ==> #[trigger] byte_stored(m, st, e, cm[e.id], x)
}

/// Every entry of `m` is stored as `cm` says, once the GPU has played the
/// commands of `m` on `st` and the pending writes have been written.
pub open spec fn meshes_stored(m: MeshManager, st: GpuBuffers, cm: Map<MeshId, Seq<u8>>) -> bool {
    forall|i: int| 0 <= i < m.data@.len() ==> #[trigger] entry_stored(m, st, cm, m.data@[i])
}

/// Every entry of `m` reads back as `cm` says in the buffer contents that
/// the commands of `m`, played on `st`, and its pending writes leave.
pub open spec fn reads_back(m: MeshManager, st: GpuBuffers, cm: Map<MeshId, Seq<u8>>) -> bool {
    &&& forall|i: int|
        0 <= i < m.data@.len() ==> cm.dom().contains(#[trigger] m.data@[i].id) && cm[m.data@[i].id].len() == m.data@[i].length
    &&& forall|i: int, x: int|
        #![trigger m.data@[i], pending_contents(m, st)[x]]
        0 <= i < m.data@.len() && m.data@[i].position <= x < m.data@[i].position + m.data@[i].length
            ==> pending_contents(m, st)[x] == cm[m.data@[i].id][x - m.data@[i].position]
}

/// The byte that writing `ops` over `buf` leaves at `x`: that of the last
/// write over `x`, or the byte `buf` held.
proof fn lemma_apply_ops_at(buf: Map<int, u8>, arena: Seq<u8>, ops: Seq<WriteOperation>, x: int)
    requires
        total(buf),
        ops_in_arena(ops, arena.len() as int),
    ensures
        total(apply_ops(buf, arena, ops)),
        apply_ops(buf, arena, ops)[x] == match last_cover(ops, x) {
            Some(k) => op_bytes(arena, ops[k])[x - ops[k].offset],
            None => buf[x],
        },
    decreases ops.len(),
{
    if ops.len() > 0 {
        let init = ops.drop_last();
        let w = ops.last();
        assert forall|j: int| 0 <= j < init.len() implies (#[trigger] init[j]).arena_offset + init[j].len <= arena.len() by {
            assert(init[j] == ops[j]);
        }
        lemma_apply_ops_at(buf, arena, init, x);
        lemma_last_cover_bounds(init, x);
        assert(ops[ops.len() - 1] == w);
        assert(w.arena_offset + w.len <= arena.len());
        let before = apply_ops(buf, arena, init);
        assert(total(apply_ops(buf, arena, ops))) by {
            assert forall|y: int| #[trigger] apply_ops(buf, arena, ops).dom().contains(y) by {
                assert(before.dom().contains(y));
            }
        }
        if !covers(w, x) {
            match last_cover(init, x) {
                Some(k) => {
                    assert(init[k] == ops[k]);
                },
                None => {},
            }
        }
    }
}

/// Keeping the writes that satisfy `pred` keeps the last write over `x`
/// when that write satisfies `pred`, and adds none where there was none.
proof fn lemma_last_cover_filter(ops: Seq<WriteOperation>, pred: spec_fn(WriteOperation) -> bool, x: int)
    ensures
        last_cover(ops, x) is None ==> last_cover(ops.filter(pred), x) is None,
        (last_cover(ops, x) is Some && pred(ops[last_cover(ops, x)->0])) ==> {
            let f = ops.filter(pred);
            &&& last_cover(f, x) is Some
            &&& 0 <= last_cover(f, x)->0 < f.len()
            &&& f[last_cover(f, x)->0] == ops[last_cover(ops, x)->0]
        },
    decreases ops.len(),
{
    reveal(Seq::filter);
    if ops.len() > 0 {
        let init = ops.drop_last();
        let w = ops.last();
        lemma_last_cover_filter(init, pred, x);
        lemma_last_cover_bounds(init, x);
        let fi = init.filter(pred);
        assert(ops[ops.len() - 1] == w);
        if pred(w) {
            assert(ops.filter(pred) == fi.push(w));
            assert(fi.push(w).drop_last() =~= fi);
            if !covers(w, x) {
                match last_cover(init, x) {
                    Some(k) => {
                        assert(init[k] == ops[k]);
                        if pred(ops[k]) {
                            let k2 = last_cover(fi, x)->0;
                            assert(fi.push(w)[k2] == fi[k2]);
                        }
                    },
                    None => {},
                }
            }
        } else {
            assert(ops.filter(pred) == fi);
            if !covers(w, x) {
                match last_cover(init, x) {
                    Some(k) => {
                        assert(init[k] == ops[k]);
                    },
                    None => {},
                }
            }
        }
    }
}

/// Appending a write that does not write `x` leaves the last write over `x` as it was.
proof fn lemma_last_cover_push(ops: Seq<WriteOperation>, w: WriteOperation, x: int)
    ensures
        covers(w, x) ==> last_cover(ops.push(w), x) == Some(ops.len() as int),
        !covers(w, x) ==> last_cover(ops.push(w), x) == last_cover(ops, x),
        forall|k: int| 0 <= k < ops.len() ==> #[trigger] ops.push(w)[k] == ops[k],
        ops.push(w)[ops.len() as int] == w,
{
    assert(ops.push(w).drop_last() =~= ops);
}

/// The last write over a position is one of the writes, and writes it.
proof fn lemma_last_cover_bounds(ops: Seq<WriteOperation>, x: int)
    ensures
        last_cover(ops, x) is Some ==> (0 <= last_cover(ops, x)->0 < ops.len() && covers(ops[last_cover(ops, x)->0], x)),
    decreases ops.len(),
{
    if ops.len() > 0 {
        lemma_last_cover_bounds(ops.drop_last(), x);
        if !covers(ops.last(), x) {
            match last_cover(ops.drop_last(), x) {
                Some(k) => {
                    assert(ops.drop_last()[k] == ops[k]);
                },
                None => {},
            }
        }
    }
}

/// Playing commands keeps both buffers holding a byte at every position.
proof fn lemma_play_total(st: GpuBuffers, cmds: Seq<GpuCommand>)
    requires
        total(st.0),
        total(st.1),
    ensures
        total(play(st, cmds).0),
        total(play(st, cmds).1),
    decreases cmds.len(),
{
    if cmds.len() > 0 {
        lemma_play_total(st, cmds.drop_last());
        let s = play(st, cmds.drop_last());
        assert forall|y: int| #[trigger] play(st, cmds).0.dom().contains(y) by {
            assert(s.0.dom().contains(y));
        }
    }
}

/// Position `x` of entry `i` reads back as `cm` says.
proof fn lemma_stored_byte_reads_back(m: MeshManager, st: GpuBuffers, cm: Map<MeshId, Seq<u8>>, i: int, x: int)
    requires
        m.wf(),
        total(st.0),
        total(st.1),
        meshes_stored(m, st, cm),
        0 <= i < m.data@.len(),
        m.data@[i].position <= x < m.data@[i].position + m.data@[i].length,
    ensures
        cm.dom().contains(m.data@[i].id),
        cm[m.data@[i].id].len() == m.data@[i].length,
        pending_contents(m, st)[x] == cm[m.data@[i].id][x - m.data@[i].position],
{
    let e = m.data@[i];
    assert(entry_stored(m, st, cm, e));
    assert(byte_stored(m, st, e, cm[e.id], x));
    lemma_play_total(st, m.commands@);
    lemma_apply_ops_at(play(st, m.commands@).0, m.arena@, m.write_operations@, x);
}

/// A manager whose entries are stored as `cm` says reads them back as `cm` says.
pub proof fn lemma_stored_reads_back(m: MeshManager, st: GpuBuffers, cm: Map<MeshId, Seq<u8>>)
    requires
        m.wf(),
        total(st.0),
        total(st.1),
        meshes_stored(m, st, cm),
    ensures
        reads_back(m, st, cm),
{
    assert forall|i: int| 0 <= i < m.data@.len() implies cm.dom().contains(#[trigger] m.data@[i].id) && cm[m.data@[i].id].len()
        == m.data@[i].length by {
        assert(entry_stored(m, st, cm, m.data@[i]));
    }
    assert forall|i: int, x: int|
        #![trigger m.data@[i], pending_contents(m, st)[x]]
        0 <= i < m.data@.len() && m.data@[i].position <= x < m.data@[i].position + m.data@[i].length
            implies pending_contents(m, st)[x] == cm[m.data@[i].id][x - m.data@[i].position] by {
        lemma_stored_byte_reads_back(m, st, cm, i, x);
    }
}

/// Playing one more command of `cmds` after its first `j`.
proof fn lemma_play_step(st: GpuBuffers, cmds: Seq<GpuCommand>, j: int)
    requires
        0 <= j < cmds.len(),
    ensures
        play(st, cmds.take(j + 1)) == play_command(play(st, cmds.take(j)), cmds[j]),
{
    assert(cmds.take(j + 1).drop_last() =~= cmds.take(j));
    assert(cmds.take(j + 1).last() == cmds[j]);
}

/// Playing buffer writes that match the writes `w` writes `w` over the
/// current buffer and leaves the previous one alone.
proof fn lemma_play_writes(st: GpuBuffers, cmds: Seq<GpuCommand>, n0: int, w: Seq<WriteOperation>, arena: Seq<u8>, j: int)
    requires
        0 <= n0,
        0 <= j <= w.len(),
        n0 + w.len() <= cmds.len(),
        writes_match(cmds, n0, w, arena),
    ensures
        play(st, cmds.take(n0 + j)) == (
            apply_ops(play(st, cmds.take(n0)).0, arena, w.take(j)),
            play(st, cmds.take(n0)).1,
        ),
    decreases j,
{
    if j == 0 {
        assert(w.take(0) =~= Seq::<WriteOperation>::empty());
    } else {
        lemma_play_writes(st, cmds, n0, w, arena, j - 1);
        lemma_play_step(st, cmds, n0 + j - 1);
        assert(w.take(j).drop_last() =~= w.take(j - 1));
        assert(w.take(j).last() == w[j - 1]);
        assert(cmds[n0 + (j - 1)] matches GpuCommand::WriteBuffer { offset, data } && offset == w[j - 1].offset && data@
            == op_bytes(arena, w[j - 1]));
    }
}

/// After a flush, the commands alone leave in the buffer what the commands
/// and the pending writes left before it.
proof fn lemma_flush_contents(pre: MeshManager, post: MeshManager, st: GpuBuffers)
    requires
        pre.wf(),
        flushed(pre, post),
    ensures
        play(st, post.commands@).0 == pending_contents(pre, st),
{
    let ops = pre.write_operations@;
    if ops.len() == 0 {
        assert(pending_contents(pre, st) == play(st, pre.commands@).0);
    } else {
        let n0 = pre.commands@.len() as int;
        let w = emitted_writes(ops, pre.schedule_batch);
        let cmds = post.commands@;
        assert(pre.arena.len() == pre.arena@.len());
        lemma_play_writes(st, cmds, n0, w, pre.arena@, w.len() as int);
        assert(cmds.take(n0) =~= pre.commands@);
        assert(cmds.take(n0 + w.len()) =~= cmds);
        assert(w.take(w.len() as int) =~= w);
        if pre.schedule_batch {
            lemma_batching_preserves_writes(play(st, pre.commands@).0, pre.arena@, ops);
        }
    }
}

/// A flush keeps every entry stored as it was.
pub proof fn lemma_flush_keeps_meshes(pre: MeshManager, post: MeshManager, st: GpuBuffers, cm: Map<MeshId, Seq<u8>>)
    requires
        pre.wf(),
        flushed(pre, post),
        total(st.0),
        total(st.1),
        meshes_stored(pre, st, cm),
    ensures
        meshes_stored(post, st, cm),
{
    lemma_flush_contents(pre, post, st);
    assert forall|i: int| 0 <= i < post.data@.len() implies #[trigger] entry_stored(post, st, cm, post.data@[i]) by {
        let e = post.data@[i];
        assert(pre.data@[i] == e);
        assert(entry_stored(pre, st, cm, e));
        assert forall|x: int| e.position <= x < e.position + e.length implies #[trigger] byte_stored(post, st, e, cm[e.id], x) by {
            lemma_stored_byte_reads_back(pre, st, cm, i, x);
        }
    }
}

/// Handing the queued commands to the GPU keeps every entry stored as it
/// was, the GPU buffers being those the commands leave.
pub proof fn lemma_take_keeps_meshes(
    pre: MeshManager,
    post: MeshManager,
    taken: Seq<GpuCommand>,
    st: GpuBuffers,
    cm: Map<MeshId, Seq<u8>>,
)
    requires
        taken == pre.commands@,
        post.commands@.len() == 0,
        post.data@ == pre.data@,
        post.write_operations@ == pre.write_operations@,
        post.arena@ == pre.arena@,
        meshes_stored(pre, st, cm),
    ensures
        meshes_stored(post, play(st, taken), cm),
{
    assert forall|i: int| 0 <= i < post.data@.len() implies #[trigger] entry_stored(post, play(st, taken), cm, post.data@[i]) by {
        let e = post.data@[i];
        assert(pre.data@[i] == e);
        assert(entry_stored(pre, st, cm, e));
        assert forall|x: int| e.position <= x < e.position + e.length implies #[trigger] byte_stored(post, play(st, taken), e, cm[e.id], x) by {
            assert(byte_stored(pre, st, e, cm[e.id], x));
        }
    }
}

/// Freeing a mesh keeps every other entry stored as it was.
pub proof fn lemma_free_keeps_meshes(
    pre: MeshManager,
    post: MeshManager,
    id: MeshId,
    r: Result<(), AllocError>,
    st: GpuBuffers,
    cm: Map<MeshId, Seq<u8>>,
)
    requires
        pre.wf(),
        freed(pre, post, id, r),
        meshes_stored(pre, st, cm),
    ensures
        meshes_stored(post, st, cm),
{
    if r is Err {
        assert forall|i: int| 0 <= i < post.data@.len() implies #[trigger] entry_stored(post, st, cm, post.data@[i]) by {
            let e = post.data@[i];
            assert(entry_stored(pre, st, cm, pre.data@[i]));
            assert forall|x: int| e.position <= x < e.position + e.length implies #[trigger] byte_stored(post, st, e, cm[e.id], x) by {
                assert(byte_stored(pre, st, e, cm[e.id], x));
            }
        }
    } else {
        let i0 = choose|i: int| 0 <= i < pre.data@.len() && (#[trigger] pre.data@[i]).id == id && {
            let e = pre.data@[i];
            &&& post.data@ == pre.data@.remove(i)
            &&& exists|k: int|
                gap_insertion_index(pre.gaps@, e.position as int, k) && post.gaps@
                    == merged_around(pre.gaps@.insert(k, Gap { position: e.position, length: e.length }), e.position as int)
            &&& free_set(post.gaps@) == free_set(pre.gaps@) + set_int_range(e.position as int, e.position + e.length)
            &&& post.free_ids@ == pre.free_ids@.push(id)
            &&& post.write_operations@ == pre.write_operations@.filter(|w: WriteOperation| w.mesh_id != id)
        };
        let pred = |w: WriteOperation| w.mesh_id != id;
        assert(post.write_operations@ == pre.write_operations@.filter(pred));
        assert forall|j: int| 0 <= j < post.data@.len() implies #[trigger] entry_stored(post, st, cm, post.data@[j]) by {
            let oj = if j < i0 { j } else { j + 1 };
            let e = post.data@[j];
            assert(e == pre.data@[oj]);
            assert(e.id != id) by {
                if oj < i0 {
                    assert(pre.data@[oj].id != pre.data@[i0].id);
                } else {
                    assert(pre.data@[i0].id != pre.data@[oj].id);
                }
            }
            assert(entry_stored(pre, st, cm, pre.data@[oj]));
            assert forall|x: int| e.position <= x < e.position + e.length implies #[trigger] byte_stored(post, st, e, cm[e.id], x) by {
                assert(byte_stored(pre, st, e, cm[e.id], x));
                lemma_last_cover_filter(pre.write_operations@, pred, x);
            }
        }
    }
}

/// A byte stays stored when a write elsewhere is appended, with its bytes
/// staged after the others.
proof fn lemma_byte_after_push(
    pre: MeshManager,
    post: MeshManager,
    w: WriteOperation,
    extra: Seq<u8>,
    st: GpuBuffers,
    e: MeshEntry,
    content: Seq<u8>,
    x: int,
)
    requires
        ops_in_arena(pre.write_operations@, pre.arena@.len() as int),
        post.write_operations@ == pre.write_operations@.push(w),
        post.arena@ == pre.arena@ + extra,
        post.commands@ == pre.commands@,
        !covers(w, x),
        byte_stored(pre, st, e, content, x),
    ensures
        byte_stored(post, st, e, content, x),
{
    let ops = pre.write_operations@;
    lemma_last_cover_push(ops, w, x);
    lemma_last_cover_bounds(ops, x);
    match last_cover(ops, x) {
        Some(k) => {
            assert(ops[k].arena_offset + ops[k].len <= pre.arena@.len());
            assert(op_bytes(post.arena@, ops[k]) =~= op_bytes(pre.arena@, ops[k]));
        },
        None => {},
    }
}

/// A byte of an entry is stored when the last write is the one that wrote
/// `content` over the entry's whole region.
proof fn lemma_byte_of_last_write(post: MeshManager, st: GpuBuffers, e: MeshEntry, content: Seq<u8>, x: int)
    requires
        post.write_operations@.len() > 0,
        post.write_operations@.last().mesh_id == e.id,
        post.write_operations@.last().offset == e.position,
        post.write_operations@.last().len == e.length,
        op_bytes(post.arena@, post.write_operations@.last()) == content,
        e.position <= x < e.position + e.length,
    ensures
        byte_stored(post, st, e, content, x),
{
    let ops = post.write_operations@;
    assert(ops[ops.len() - 1] == ops.last());
}

/// The staged bytes of the last write appended with its bytes at the end of the arena.
proof fn lemma_appended_bytes(arena: Seq<u8>, data: Seq<u8>, w: WriteOperation)
    requires
        w.arena_offset == arena.len(),
        w.len == data.len(),
    ensures
        op_bytes(arena + data, w) == data,
{
    assert(op_bytes(arena + data, w) =~= data);
}

/// Replaying the copies of a reallocation: each entry of `data` lands in
/// its packed region of the new buffer with the bytes it had in the buffer
/// replaced, which the copies leave alone.
proof fn lemma_play_copies(st: GpuBuffers, cmds: Seq<GpuCommand>, base: int, data: Seq<MeshEntry>, j: int)
    requires
        0 <= base,
        0 <= j <= data.len(),
        base + data.len() <= cmds.len(),
        copies_match(cmds, base, data),
        total(play(st, cmds.take(base)).0),
        total_len(data) <= usize::MAX,
    ensures
        play(st, cmds.take(base + j)).1 == play(st, cmds.take(base)).1,
        total(play(st, cmds.take(base + j)).0),
        forall|i: int, x: int|
            #![trigger packed(data)[i], play(st, cmds.take(base + j)).0[x]]
            0 <= i < j && packed(data)[i].position <= x < packed(data)[i].position + packed(data)[i].length
                ==> play(st, cmds.take(base + j)).0[x] == play(st, cmds.take(base)).1[data[i].position + (x
                - packed(data)[i].position)],
    decreases j,
{
    if j > 0 {
        lemma_play_copies(st, cmds, base, data, j - 1);
        lemma_play_step(st, cmds, base + j - 1);
        lemma_packed(data);
        let prev = play(st, cmds.take(base + j - 1));
        let now = play(st, cmds.take(base + j));
        let c = j - 1;
        assert(cmds[base + c] matches GpuCommand::CopyFromPrevious { from, to, length } && from == data[c].position && to
            == packed(data)[c].position && length == data[c].length);
        assert(base + j - 1 == base + (j - 1));
        assert forall|y: int| #[trigger] now.0.dom().contains(y) by {
            assert(prev.0.dom().contains(y));
        }
        assert forall|i: int, x: int|
            #![trigger packed(data)[i], now.0[x]]
            0 <= i < j && packed(data)[i].position <= x < packed(data)[i].position + packed(data)[i].length
                implies now.0[x] == play(st, cmds.take(base)).1[data[i].position + (x - packed(data)[i].position)] by {
            if i < c {
                assert(packed(data)[i].position + packed(data)[i].length <= packed(data)[c].position);
                assert(prev.0.dom().contains(x));
                assert(now.0[x] == prev.0[x]);
            } else {
                assert(prev.0.dom().contains(x));
            }
        }
    }
}

/// Replaying a reallocation: every entry of `data` lands in its packed
/// region of the new buffer with the bytes the old buffer held in its
/// region, once the pending writes `ops` were written there.
proof fn lemma_play_reallocation(
    st: GpuBuffers,
    cmds: Seq<GpuCommand>,
    old_cmds: Seq<GpuCommand>,
    ops: Seq<WriteOperation>,
    sb: bool,
    arena: Seq<u8>,
    data: Seq<MeshEntry>,
    needed: int,
)
    requires
        total(st.0),
        total(st.1),
        is_reallocation(cmds, old_cmds, ops, sb, arena, data, needed),
        ops_in_arena(ops, arena.len() as int),
        arena.len() <= usize::MAX,
        total_len(data) <= usize::MAX,
    ensures
        forall|i: int, x: int|
            #![trigger packed(data)[i], play(st, cmds).0[x]]
            0 <= i < data.len() && packed(data)[i].position <= x < packed(data)[i].position + packed(data)[i].length
                ==> play(st, cmds).0[x] == apply_ops(play(st, old_cmds).0, arena, ops)[data[i].position + (x
                - packed(data)[i].position)],
{
    let n0 = old_cmds.len() as int;
    let w = if ops.len() > 0 { emitted_writes(ops, sb) } else { Seq::<WriteOperation>::empty() };
    assert(cmds.take(n0) =~= old_cmds);
    lemma_play_writes(st, cmds, n0, w, arena, w.len() as int);
    assert(w.take(w.len() as int) =~= w);
    let c0 = play(st, old_cmds).0;
    let m = apply_ops(c0, arena, ops);
    assert(apply_ops(c0, arena, w) == m) by {
        if ops.len() > 0 && sb {
            lemma_batching_preserves_writes(c0, arena, ops);
        }
    }
    let r = n0 + w.len();
    lemma_play_step(st, cmds, r);
    assert(play(st, cmds.take(r + 1)) == (zeroed(), m));
    assert(total(zeroed()));
    lemma_play_copies(st, cmds, r + 1, data, data.len() as int);
    assert(cmds.take(r + 1 + data.len()) =~= cmds);
}

/// The new mesh of an `add_data` has an id that no entry had.
proof fn lemma_added_id_fresh(pre: MeshManager, post: MeshManager, data: Seq<u8>, id: MeshId)
    requires
        pre.wf(),
        added(pre, post, data, Ok(id)),
    ensures
        forall|i: int| 0 <= i < pre.data@.len() ==> (#[trigger] pre.data@[i]).id != id,
{
    if pre.free_ids@.len() > 0 {
        assert forall|i: int| 0 <= i < pre.data@.len() implies (#[trigger] pre.data@[i]).id != id by {
            assert(pre.data@[i].id != pre.free_ids@[pre.free_ids@.len() - 1]);
        }
    }
}

/// Adding a mesh stores it, and keeps every other entry stored as it was.
pub proof fn lemma_add_keeps_meshes(
    pre: MeshManager,
    post: MeshManager,
    data: Seq<u8>,
    id: MeshId,
    st: GpuBuffers,
    cm: Map<MeshId, Seq<u8>>,
)
    requires
        pre.wf(),
        post.wf(),
        added(pre, post, data, Ok(id)),
        total(st.0),
        total(st.1),
        meshes_stored(pre, st, cm),
    ensures
        meshes_stored(post, st, cm.insert(id, data)),
{
    let n = data.len() as int;
    let grow = pre.must_grow(n);
    let data1 = pre.data_before_place(n);
    let gaps1 = pre.gaps_before_place(n);
    let cm2 = cm.insert(id, data);
    let k = choose|k: int| #![trigger pre.gaps_before_place(n)[k]] {
        &&& is_first_fit(gaps1, n, k)
        &&& post.gaps@ == if gaps1[k].length == 0 {
            gaps1.remove(k)
        } else {
            gaps1.update(k, Gap { position: (gaps1[k].position + n) as usize, length: (gaps1[k].length - n) as usize })
        }
        &&& exists|ins: int| entry_insertion_index(data1, gaps1[k].position as int, ins)
            && post.data@ == data1.insert(ins, MeshEntry { id, position: gaps1[k].position, length: n as usize })
        &&& post.write_operations@ == pre.ops_before_place(n).push(
            WriteOperation { mesh_id: id, offset: gaps1[k].position, len: n as usize, arena_offset: pre.arena_before_place(n).len() as usize },
        )
    };
    let ins = choose|ins: int| entry_insertion_index(data1, gaps1[k].position as int, ins)
        && post.data@ == data1.insert(ins, MeshEntry { id, position: gaps1[k].position, length: n as usize });
    let new_entry = MeshEntry { id, position: gaps1[k].position, length: n as usize };
    let w = WriteOperation { mesh_id: id, offset: gaps1[k].position, len: n as usize, arena_offset: pre.arena_before_place(n).len() as usize };
    assert(post.arena.len() == post.arena@.len());
    assert(pre.arena.len() == pre.arena@.len());
    lemma_added_id_fresh(pre, post, data, id);
    lemma_total_len_bounded(pre.data@, pre.capacity as int);
    assert(post.write_operations@.last() == w);
    lemma_appended_bytes(pre.arena_before_place(n), data, w);
    assert(post.data@[ins] == new_entry);
    assert forall|j: int| 0 <= j < post.data@.len() implies #[trigger] entry_stored(post, st, cm2, post.data@[j]) by {
        if j == ins {
            assert forall|x: int| new_entry.position <= x < new_entry.position + new_entry.length implies #[trigger] byte_stored(
                post,
                st,
                new_entry,
                cm2[new_entry.id],
                x,
            ) by {
                lemma_byte_of_last_write(post, st, new_entry, data, x);
            }
        } else {
            let oj = if j < ins { j } else { j - 1 };
            let f = post.data@[j];
            assert(f == data1[oj]);
            if j < ins {
                assert(entries_disjoint(post.data@[j], post.data@[ins]));
            } else {
                assert(entries_disjoint(post.data@[ins], post.data@[j]));
            }
            if !grow {
                assert(data1 == pre.data@);
                assert(f.id != id);
                assert(entry_stored(pre, st, cm, pre.data@[oj]));
                assert forall|x: int| f.position <= x < f.position + f.length implies #[trigger] byte_stored(post, st, f, cm2[f.id], x) by {
                    assert(byte_stored(pre, st, f, cm[f.id], x));
                    lemma_byte_after_push(pre, post, w, data, st, f, cm[f.id], x);
                }
            } else {
                let g = pre.data@[oj];
                assert(f == packed(pre.data@)[oj]);
                assert(f.id == g.id && f.length == g.length);
                assert(g.id != id);
                assert(entry_stored(pre, st, cm, g));
                lemma_play_reallocation(
                    st,
                    post.commands@,
                    pre.commands@,
                    pre.write_operations@,
                    pre.schedule_batch,
                    pre.arena@,
                    pre.data@,
                    pre.needed_for(n),
                );
                assert(post.write_operations@ =~= Seq::<WriteOperation>::empty().push(w));
                assert forall|x: int| f.position <= x < f.position + f.length implies #[trigger] byte_stored(post, st, f, cm2[f.id], x) by {
                    assert(!covers(w, x));
                    lemma_last_cover_push(Seq::<WriteOperation>::empty(), w, x);
                    assert(last_cover(post.write_operations@, x) is None);
                    let y = g.position + (x - f.position);
                    lemma_stored_byte_reads_back(pre, st, cm, oj, y);
                }
            }
        }
    }
}

/// Rewriting mesh `pre.data[i]` in place, with `data`, stores it and keeps
/// every other entry stored as it was.
proof fn lemma_update_in_place(
    pre: MeshManager,
    post: MeshManager,
    i: int,
    data: Seq<u8>,
    st: GpuBuffers,
    cm: Map<MeshId, Seq<u8>>,
)
    requires
        pre.wf(),
        post.wf(),
        0 <= i < pre.data@.len(),
        post.data@ == pre.data@.update(i, MeshEntry { id: pre.data@[i].id, position: pre.data@[i].position, length: data.len() as usize }),
        post.write_operations@ == pre.write_operations@.push(
            WriteOperation { mesh_id: pre.data@[i].id, offset: pre.data@[i].position, len: data.len() as usize, arena_offset: pre.arena@.len() as usize },
        ),
        post.arena@ == pre.arena@ + data,
        post.commands@ == pre.commands@,
        meshes_stored(pre, st, cm),
    ensures
        meshes_stored(post, st, cm.insert(pre.data@[i].id, data)),
{
    let e = pre.data@[i];
    let id = e.id;
    let w = WriteOperation { mesh_id: id, offset: e.position, len: data.len() as usize, arena_offset: pre.arena@.len() as usize };
    let cm2 = cm.insert(id, data);
    assert(post.arena.len() == post.arena@.len());
    assert(post.write_operations@.last() == w);
    lemma_appended_bytes(pre.arena@, data, w);
    assert forall|j: int| 0 <= j < post.data@.len() implies #[trigger] entry_stored(post, st, cm2, post.data@[j]) by {
        let f = post.data@[j];
        if j == i {
            assert forall|x: int| f.position <= x < f.position + f.length implies #[trigger] byte_stored(post, st, f, cm2[f.id], x) by {
                lemma_byte_of_last_write(post, st, f, data, x);
            }
        } else {
            assert(f == pre.data@[j]);
            if j < i {
                assert(pre.data@[j].id != pre.data@[i].id);
                assert(entries_disjoint(post.data@[j], post.data@[i]));
            } else {
                assert(pre.data@[i].id != pre.data@[j].id);
                assert(entries_disjoint(post.data@[i], post.data@[j]));
            }
            assert(entry_stored(pre, st, cm, pre.data@[j]));
            assert forall|x: int| f.position <= x < f.position + f.length implies #[trigger] byte_stored(post, st, f, cm2[f.id], x) by {
                assert(byte_stored(pre, st, f, cm[f.id], x));
                lemma_byte_after_push(pre, post, w, data, st, f, cm[f.id], x);
            }
        }
    }
}

/// Writing mesh `pre.data[i]` elsewhere, its entry dropped, keeps every
/// other entry stored as it was.
proof fn lemma_update_detached(
    pre: MeshManager,
    post: MeshManager,
    i: int,
    data: Seq<u8>,
    st: GpuBuffers,
    cm: Map<MeshId, Seq<u8>>,
)
    requires
        pre.wf(),
        post.wf(),
        total(st.0),
        total(st.1),
        0 <= i < pre.data@.len(),
        entries_apart_from_gaps(pre.data@.remove(i), released_gaps(pre.gaps@, pre.data@[i])),
        detached_placement(post, pre.data@.remove(i), released_gaps(pre.gaps@, pre.data@[i]),
            pre.write_operations@, pre.arena@, pre.schedule_batch, pre.commands@,
            pre.capacity, pre.data@[i].id, data),
        meshes_stored(pre, st, cm),
    ensures
        meshes_stored(post, st, cm.insert(pre.data@[i].id, data)),
{
    let e = pre.data@[i];
    let id = e.id;
    let d1 = pre.data@.remove(i);
    let g1 = released_gaps(pre.gaps@, e);
    let n = data.len() as int;
    let grow = no_fit(g1, n);
    let needed = total_len(d1) + n;
    let arena1 = if grow && pre.write_operations@.len() > 0 { Seq::<u8>::empty() } else { pre.arena@ };
    let ops1 = if grow { Seq::<WriteOperation>::empty() } else { pre.write_operations@ };
    let pg = placement_gaps(d1, g1, n);
    let k = choose|k: int| #![trigger placement_gaps(d1, g1, n)[k]] {
        &&& is_first_fit(pg, n, k)
        &&& post.gaps@ == crate::mesh_manager::consume_gaps(pg, k, n)
        &&& post.write_operations@ == ops1.push(
            WriteOperation { mesh_id: id, offset: pg[k].position, len: n as usize, arena_offset: arena1.len() as usize },
        )
    };
    let w = WriteOperation { mesh_id: id, offset: pg[k].position, len: n as usize, arena_offset: arena1.len() as usize };
    let cm2 = cm.insert(id, data);
    assert(post.arena.len() == post.arena@.len());
    assert(pre.arena.len() == pre.arena@.len());
    lemma_total_len_bounded(pre.data@, pre.capacity as int);
    lemma_total_len_remove(pre.data@, i);
    assert forall|j: int| 0 <= j < post.data@.len() implies #[trigger] entry_stored(post, st, cm2, post.data@[j]) by {
        let oj = if j < i { j } else { j + 1 };
        let g = pre.data@[oj];
        assert(d1[j] == g);
        assert(g.id != id) by {
            if oj < i {
                assert(pre.data@[oj].id != pre.data@[i].id);
            } else {
                assert(pre.data@[i].id != pre.data@[oj].id);
            }
        }
        assert(entry_stored(pre, st, cm, g));
        if !grow {
            assert(pg == g1);
            assert(post.data@[j] == g);
            assert(entry_gap_disjoint(d1[j], g1[k]));
            assert forall|x: int| g.position <= x < g.position + g.length implies #[trigger] byte_stored(post, st, g, cm2[g.id], x) by {
                assert(byte_stored(pre, st, g, cm[g.id], x));
                lemma_byte_after_push(pre, post, w, data, st, g, cm[g.id], x);
            }
        } else {
            let f = post.data@[j];
            assert(f == packed(d1)[j]);
            lemma_packed(d1);
            assert(k == 0);
            lemma_play_reallocation(
                st,
                post.commands@,
                pre.commands@,
                pre.write_operations@,
                pre.schedule_batch,
                pre.arena@,
                d1,
                needed,
            );
            assert(post.write_operations@ =~= Seq::<WriteOperation>::empty().push(w));
            assert forall|x: int| f.position <= x < f.position + f.length implies #[trigger] byte_stored(post, st, f, cm2[f.id], x) by {
                assert(!covers(w, x));
                lemma_last_cover_push(Seq::<WriteOperation>::empty(), w, x);
                let y = g.position + (x - f.position);
                lemma_stored_byte_reads_back(pre, st, cm, oj, y);
            }
        }
    }
}

/// Rewriting a mesh stores it where an entry still records it, and keeps
/// every other entry stored as it was; an unknown id changes nothing.
pub proof fn lemma_update_keeps_meshes(
    pre: MeshManager,
    post: MeshManager,
    id: MeshId,
    data: Seq<u8>,
    r: Result<(), AllocError>,
    st: GpuBuffers,
    cm: Map<MeshId, Seq<u8>>,
)
    requires
        pre.wf(),
        post.wf(),
        updated(pre, post, id, data, r),
        total(st.0),
        total(st.1),
        meshes_stored(pre, st, cm),
    ensures
        meshes_stored(post, st, if r is Ok { cm.insert(id, data) } else { cm }),
{
    if r is Err {
        assert forall|i: int| 0 <= i < post.data@.len() implies #[trigger] entry_stored(post, st, cm, post.data@[i]) by {
            let e = post.data@[i];
            assert(entry_stored(pre, st, cm, pre.data@[i]));
            assert forall|x: int| e.position <= x < e.position + e.length implies #[trigger] byte_stored(post, st, e, cm[e.id], x) by {
                assert(byte_stored(pre, st, e, cm[e.id], x));
            }
        }
    } else {
        let i = choose|i: int|
            0 <= i < pre.data@.len() && (#[trigger] pre.data@[i]).id == id && {
                let e = pre.data@[i];
                let n = data.len() as int;
                let end = e.position + e.length;
                let written = WriteOperation { mesh_id: id, offset: e.position, len: n as usize, arena_offset: pre.arena@.len() as usize };
                let resized = pre.data@.update(i, MeshEntry { id: e.id, position: e.position, length: n as usize });
                if n <= e.length {
                    &&& post.data@ == resized
                    &&& post.write_operations@ == pre.write_operations@.push(written)
                    &&& post.arena@ == pre.arena@ + data
                    &&& post.commands@ == pre.commands@
                } else if crate::mesh_manager::first_gap_at(pre.gaps@, end) is Some && n <= e.length
                    + pre.gaps@[crate::mesh_manager::first_gap_at(pre.gaps@, end)->0].length {
                    &&& post.data@ == resized
                    &&& post.write_operations@ == pre.write_operations@.push(written)
                    &&& post.arena@ == pre.arena@ + data
                    &&& post.commands@ == pre.commands@
                } else {
                    &&& entries_apart_from_gaps(pre.data@.remove(i), released_gaps(pre.gaps@, e))
                    &&& detached_placement(post, pre.data@.remove(i), released_gaps(pre.gaps@, e),
                        pre.write_operations@, pre.arena@, pre.schedule_batch, pre.commands@,
                        pre.capacity, id, data)
                }
            };
        let e = pre.data@[i];
        let n = data.len() as int;
        let end = e.position + e.length;
        if n <= e.length || (crate::mesh_manager::first_gap_at(pre.gaps@, end) is Some && n <= e.length
            + pre.gaps@[crate::mesh_manager::first_gap_at(pre.gaps@, end)->0].length) {
            lemma_update_in_place(pre, post, i, data, st, cm);
        } else {
            lemma_update_detached(pre, post, i, data, st, cm);
        }
    }
}

/// A manager without entries stores every mesh it has: none.
pub proof fn lemma_empty_stored(m: MeshManager, st: GpuBuffers, cm: Map<MeshId, Seq<u8>>)
    requires
        m.data@.len() == 0,
    ensures
        meshes_stored(m, st, cm),
{
}

} // verus!
