use vstd::prelude::*;
use vstd::set_lib::set_int_range;
use crate::capacity::{lemma_single_grown_capacity_bounds, single_grown_capacity, single_grown_capacity_exec};

verus! {

/// Identifier of a mesh stored in the shared mesh buffer.
pub type MeshId = u32;

/// Smallest capacity, in bytes, of a GPU buffer.
pub const BUFFER_MIN_CAPACITY: u32 = 4096;

/// Largest number of bytes the mesh buffer can be asked to hold: its
/// capacity is a `u32`.
pub const MAX_GROWABLE_BYTES: usize = 4294967295;

/// Capacity of a GPU buffer created to hold `needed` bytes: a quarter more
/// than asked, computed in single precision and rounded up to a whole byte,
/// at most `u32::MAX` and never less than `BUFFER_MIN_CAPACITY`.
pub open spec fn grown_capacity(needed: int) -> int {
    single_grown_capacity(needed as nat)
}

/// A mesh's vertex bytes, to be stored under the mesh `id`.
pub struct DataEntry<'a> {
    pub id: MeshId,
    pub data: &'a [u8],
}

impl<'a> DataEntry<'a> {
    pub fn new(id: MeshId, data: &'a [u8]) -> (e: DataEntry<'a>)
        ensures
            e.id == id,
            e.data@ == data@,
    {
        DataEntry { id, data }
    }
}

/// Why the mesh buffer refused a request.
#[derive(Clone, Copy, Debug, PartialEq, Eq, Structural)]
pub enum AllocError {
    InvalidId,
    NotEnoughSpace,
}

impl AllocError {
    /// The error's numeric code.
    pub fn to_u8(self) -> (r: u8)
        ensures
            r == (match self {
                AllocError::InvalidId => 0u8,
                AllocError::NotEnoughSpace => 1u8,
            }),
    {
        match self {
            AllocError::InvalidId => 0,
            AllocError::NotEnoughSpace => 1,
        }
    }
}

/// The region `[position, position + length)` of the buffer that holds a mesh.
#[derive(Clone, Copy, Debug, PartialEq, Eq, Structural)]
pub struct MeshEntry {
    pub id: MeshId,
    pub position: usize,
    pub length: usize,
}

/// A free region `[position, position + length)` of the buffer.
#[derive(Clone, Copy, Debug, PartialEq, Eq, Structural)]
pub struct Gap {
    pub position: usize,
    pub length: usize,
}

impl Gap {
    pub fn new(position: usize, length: usize) -> (g: Gap)
        ensures
            g.position == position,
            g.length == length,
    {
        Gap { position, length }
    }
}

/// A pending write of `len` bytes, taken from the staging arena at
/// `arena_offset`, to the buffer at `offset`.
#[derive(Clone, Copy, Debug, PartialEq, Eq, Structural)]
pub struct WriteOperation {
    pub mesh_id: MeshId,
    pub offset: usize,
    pub len: usize,
    pub arena_offset: usize,
}

/// Work for the GPU, in the order it must be done.
#[derive(Debug)]
pub enum GpuCommand {
    /// Write `data` into the current buffer at `offset`.
    WriteBuffer { offset: usize, data: Vec<u8> },
    /// Replace the current buffer by a new one of `capacity` bytes; the old
    /// buffer is kept for the copies that follow, then destroyed.
    Reallocate { capacity: u32 },
    /// Copy `length` bytes from the previous buffer at `from` to the current one at `to`.
    CopyFromPrevious { from: usize, to: usize, length: usize },
}

/// Two half-open ranges `[p1, p1 + l1)` and `[p2, p2 + l2)` share no position.
pub open spec fn ranges_disjoint(p1: int, l1: int, p2: int, l2: int) -> bool {
    l1 == 0 || l2 == 0 || p1 + l1 <= p2 || p2 + l2 <= p1
}

pub open spec fn entries_disjoint(a: MeshEntry, b: MeshEntry) -> bool {
    ranges_disjoint(a.position as int, a.length as int, b.position as int, b.length as int)
}

pub open spec fn gaps_disjoint(a: Gap, b: Gap) -> bool {
    ranges_disjoint(a.position as int, a.length as int, b.position as int, b.length as int)
}

pub open spec fn entry_gap_disjoint(a: MeshEntry, b: Gap) -> bool {
    ranges_disjoint(a.position as int, a.length as int, b.position as int, b.length as int)
}

/// Position `x` lies in the region of entry `e`.
pub open spec fn in_entry(e: MeshEntry, x: int) -> bool {
    e.position <= x < e.position + e.length
}

/// Sum of the lengths of the entries.
pub open spec fn total_len(data: Seq<MeshEntry>) -> int
    decreases data.len(),
{
    if data.len() == 0 {
        0
    } else {
        total_len(data.drop_last()) + data.last().length
    }
}

/// The set of buffer positions covered by the entries.
pub open spec fn covered(data: Seq<MeshEntry>) -> Set<int>
    decreases data.len(),
{
    if data.len() == 0 {
        Set::empty()
    } else {
        covered(data.drop_last()) + set_int_range(
            data.last().position as int,
            data.last().position + data.last().length,
        )
    }
}

/// Entries that pairwise share no position and lie below `cap`.
pub open spec fn entries_fit(data: Seq<MeshEntry>, cap: int) -> bool {
    &&& forall|i: int| 0 <= i < data.len() ==> #[trigger] data[i].position + data[i].length <= cap
    &&& forall|i: int, j: int|
        0 <= i < j < data.len() ==> entries_disjoint(#[trigger] data[i], #[trigger] data[j])
}

proof fn lemma_covered(data: Seq<MeshEntry>, cap: int)
    requires
        entries_fit(data, cap),
    ensures
        covered(data).finite(),
        covered(data).len() == total_len(data),
        covered(data).subset_of(set_int_range(0, cap)),
        forall|x: int|
            covered(data).contains(x) ==> exists|i: int|
                0 <= i < data.len() && #[trigger] in_entry(data[i], x),
    decreases data.len(),
{
    if data.len() > 0 {
        let d = data.drop_last();
        assert(entries_fit(d, cap)) by {
            assert forall|i: int| 0 <= i < d.len() implies #[trigger] d[i].position + d[i].length <= cap by {
                assert(d[i] == data[i]);
            }
            assert forall|i: int, j: int| 0 <= i < j < d.len() implies entries_disjoint(#[trigger] d[i], #[trigger] d[j]) by {
                assert(d[i] == data[i]);
                assert(d[j] == data[j]);
            }
        }
        lemma_covered(d, cap);
        let e = data.last();
        let r = set_int_range(e.position as int, e.position + e.length);
        vstd::set_lib::lemma_int_range(e.position as int, e.position + e.length);
        assert(covered(d).disjoint(r)) by {
            assert forall|x: int| covered(d).contains(x) implies !r.contains(x) by {
                let i = choose|i: int| 0 <= i < d.len() && #[trigger] in_entry(d[i], x);
                assert(d[i] == data[i]);
                assert(entries_disjoint(data[i], data[data.len() - 1]));
            }
        }
        vstd::set_lib::lemma_set_disjoint_lens(covered(d), r);
        assert forall|x: int| covered(data).contains(x) implies exists|i: int|
            0 <= i < data.len() && #[trigger] in_entry(data[i], x) by {
            if covered(d).contains(x) {
                let i = choose|i: int| 0 <= i < d.len() && #[trigger] in_entry(d[i], x);
                assert(d[i] == data[i]);
                assert(in_entry(data[i], x));
            } else {
                assert(data[data.len() - 1] == e);
                assert(in_entry(data[data.len() - 1], x));
            }
        }
        assert(data[data.len() - 1].position + data[data.len() - 1].length <= cap);
    }
}

/// The sum of the lengths of entries that share no position and lie below
/// `cap` is at most `cap`.
pub proof fn lemma_total_len_bounded(data: Seq<MeshEntry>, cap: int)
    requires
        entries_fit(data, cap),
        cap >= 0,
    ensures
        0 <= total_len(data) <= cap,
{
    lemma_covered(data, cap);
    vstd::set_lib::lemma_int_range(0, cap);
    vstd::set_lib::lemma_len_subset(covered(data), set_int_range(0, cap));
}


/// Gaps that pairwise share no position and lie below `cap`.
pub open spec fn gaps_fit(gaps: Seq<Gap>, cap: int) -> bool {
    &&& forall|k: int| 0 <= k < gaps.len() ==> #[trigger] gaps[k].position + gaps[k].length <= cap
    &&& forall|k: int, l: int|
        0 <= k < l < gaps.len() ==> gaps_disjoint(#[trigger] gaps[k], #[trigger] gaps[l])
}

/// No entry shares a position with a gap.
pub open spec fn entries_apart_from_gaps(data: Seq<MeshEntry>, gaps: Seq<Gap>) -> bool {
    forall|i: int, k: int|
        0 <= i < data.len() && 0 <= k < gaps.len() ==> entry_gap_disjoint(#[trigger] data[i], #[trigger] gaps[k])
}

/// Entries are ordered by position.
pub open spec fn entries_sorted(data: Seq<MeshEntry>) -> bool {
    forall|i: int, j: int| 0 <= i < j < data.len() ==> (#[trigger] data[i]).position <= (#[trigger] data[j]).position
}

/// Whether some entry holds the mesh `id`.
pub open spec fn has_id(data: Seq<MeshEntry>, id: MeshId) -> bool {
    exists|i: int| 0 <= i < data.len() && (#[trigger] data[i]).id == id
}

/// `k` is the first gap that can hold `needed` bytes.
pub open spec fn is_first_fit(gaps: Seq<Gap>, needed: int, k: int) -> bool {
    &&& 0 <= k < gaps.len()
    &&& gaps[k].length >= needed
    &&& forall|j: int| 0 <= j < k ==> (#[trigger] gaps[j]).length < needed
}

/// No gap can hold `needed` bytes.
pub open spec fn no_fit(gaps: Seq<Gap>, needed: int) -> bool {
    forall|j: int| 0 <= j < gaps.len() ==> (#[trigger] gaps[j]).length < needed
}

/// Index of the first gap whose position is greater than `position`, or the
/// number of gaps when there is none.
pub open spec fn gap_insertion_index(gaps: Seq<Gap>, position: int, k: int) -> bool {
    &&& 0 <= k <= gaps.len()
    &&& forall|j: int| 0 <= j < k ==> (#[trigger] gaps[j]).position <= position
    &&& k < gaps.len() ==> gaps[k].position > position
}

/// Index of the first entry whose position is greater than `position`, or the
/// number of entries when there is none.
pub open spec fn entry_insertion_index(data: Seq<MeshEntry>, position: int, k: int) -> bool {
    &&& 0 <= k <= data.len()
    &&& forall|j: int| 0 <= j < k ==> (#[trigger] data[j]).position <= position
    &&& k < data.len() ==> data[k].position > position
}

/// The bytes that a pending write takes from the staging arena.
pub open spec fn op_bytes(arena: Seq<u8>, op: WriteOperation) -> Seq<u8> {
    arena.subrange(op.arena_offset as int, op.arena_offset + op.len)
}

/// Position `x` lies in gap `g`.
pub open spec fn in_gap(g: Gap, x: int) -> bool {
    g.position <= x < g.position + g.length
}

/// The set of free buffer positions: those inside some gap.
pub open spec fn free_set(gaps: Seq<Gap>) -> Set<int> {
    Set::new(|x: int| exists|k: int| 0 <= k < gaps.len() && #[trigger] in_gap(gaps[k], x))
}

/// Index of the first gap that starts at `position`.
pub open spec fn is_first_gap_at(gaps: Seq<Gap>, position: int, c: int) -> bool {
    &&& 0 <= c < gaps.len()
    &&& gaps[c].position == position
    &&& forall|j: int| 0 <= j < c ==> (#[trigger] gaps[j]).position != position
}

/// Merges gap `c` into the gap before it when they touch; gives the gaps and
/// the index of the gap that now holds `c`'s region.
pub open spec fn merge_with_previous(gaps: Seq<Gap>, c: int) -> (Seq<Gap>, int) {
    if c > 0 && gaps[c - 1].position + gaps[c - 1].length == gaps[c].position {
        (
            gaps.update(
                c - 1,
                Gap { position: gaps[c - 1].position, length: (gaps[c - 1].length + gaps[c].length) as usize },
            ).remove(c),
            c - 1,
        )
    } else {
        (gaps, c)
    }
}

/// Merges the gap after `c` into gap `c` when they touch.
pub open spec fn merge_with_next(gaps: Seq<Gap>, c: int) -> Seq<Gap> {
    if c + 1 < gaps.len() && gaps[c + 1].position == gaps[c].position + gaps[c].length {
        gaps.update(
            c,
            Gap { position: gaps[c].position, length: (gaps[c].length + gaps[c + 1].length) as usize },
        ).remove(c + 1)
    } else {
        gaps
    }
}

/// The gaps after merging the first gap that starts at `position` with the
/// gaps it touches on either side.
pub open spec fn merged_around(gaps: Seq<Gap>, position: int) -> Seq<Gap> {
    if exists|c: int| is_first_gap_at(gaps, position, c) {
        let c = choose|c: int| is_first_gap_at(gaps, position, c);
        let (g1, c1) = merge_with_previous(gaps, c);
        merge_with_next(g1, c1)
    } else {
        gaps
    }
}

/// A range that shares no position with two touching ranges shares none with their union.
proof fn lemma_disjoint_from_union(rp: int, rl: int, ap: int, al: int, bl: int)
    requires
        rl >= 0,
        al >= 0,
        bl >= 0,
        ranges_disjoint(rp, rl, ap, al),
        ranges_disjoint(rp, rl, ap + al, bl),
    ensures
        ranges_disjoint(rp, rl, ap, al + bl),
{
}

/// Merging a gap with the previous one keeps the gaps apart and below `cap`,
/// keeps them apart from the entries, and frees the same positions.
proof fn lemma_merge_with_previous(gaps: Seq<Gap>, data: Seq<MeshEntry>, c: int, cap: int)
    requires
        gaps_fit(gaps, cap),
        entries_apart_from_gaps(data, gaps),
        0 <= c < gaps.len(),
        cap <= u32::MAX,
    ensures
        ({
            let (g1, c1) = merge_with_previous(gaps, c);
            &&& gaps_fit(g1, cap)
            &&& entries_apart_from_gaps(data, g1)
            &&& free_set(g1) == free_set(gaps)
            &&& 0 <= c1 < g1.len()
        }),
{
    let (g1, c1) = merge_with_previous(gaps, c);
    if c > 0 && gaps[c - 1].position + gaps[c - 1].length == gaps[c].position {
        let a = gaps[c - 1];
        let b = gaps[c];
        let big = Gap { position: a.position, length: (a.length + b.length) as usize };
        let u = gaps.update(c - 1, big);
        assert(g1 == u.remove(c));
        assert forall|k: int| 0 <= k < g1.len() implies #[trigger] g1[k].position + g1[k].length <= cap by {
            if k < c { assert(g1[k] == u[k]); } else { assert(g1[k] == gaps[k + 1]); }
        }
        assert forall|k: int, l: int| 0 <= k < l < g1.len() implies gaps_disjoint(#[trigger] g1[k], #[trigger] g1[l]) by {
            let ok = if k < c { k } else { k + 1 };
            let ol = if l < c { l } else { l + 1 };
            if k == c - 1 {
                assert(gaps_disjoint(gaps[c - 1], gaps[ol]));
                assert(gaps_disjoint(gaps[c], gaps[ol]));
                lemma_disjoint_from_union(gaps[ol].position as int, gaps[ol].length as int, a.position as int, a.length as int, b.length as int);
            } else if l == c - 1 {
                assert(gaps_disjoint(gaps[ok], gaps[c - 1]));
                assert(gaps_disjoint(gaps[ok], gaps[c]));
                lemma_disjoint_from_union(gaps[ok].position as int, gaps[ok].length as int, a.position as int, a.length as int, b.length as int);
            } else {
                assert(g1[k] == gaps[ok]);
                assert(g1[l] == gaps[ol]);
                assert(gaps_disjoint(gaps[ok], gaps[ol]));
            }
        }
        assert forall|i: int, k: int| 0 <= i < data.len() && 0 <= k < g1.len() implies entry_gap_disjoint(#[trigger] data[i], #[trigger] g1[k]) by {
            if k == c - 1 {
                assert(entry_gap_disjoint(data[i], gaps[c - 1]));
                assert(entry_gap_disjoint(data[i], gaps[c]));
                lemma_disjoint_from_union(data[i].position as int, data[i].length as int, a.position as int, a.length as int, b.length as int);
            } else if k < c - 1 {
                assert(g1[k] == gaps[k]);
                assert(entry_gap_disjoint(data[i], gaps[k]));
            } else {
                assert(g1[k] == gaps[k + 1]);
                assert(entry_gap_disjoint(data[i], gaps[k + 1]));
            }
        }
        assert forall|x: int| free_set(g1).contains(x) == free_set(gaps).contains(x) by {
            if free_set(g1).contains(x) {
                let k = choose|k: int| 0 <= k < g1.len() && #[trigger] in_gap(g1[k], x);
                if k == c - 1 {
                    if x < b.position { assert(in_gap(gaps[c - 1], x)); } else { assert(in_gap(gaps[c], x)); }
                } else if k < c - 1 {
                    assert(g1[k] == gaps[k]);
                    assert(in_gap(gaps[k], x));
                } else {
                    assert(g1[k] == gaps[k + 1]);
                    assert(in_gap(gaps[k + 1], x));
                }
            }
            if free_set(gaps).contains(x) {
                let k = choose|k: int| 0 <= k < gaps.len() && #[trigger] in_gap(gaps[k], x);
                if k == c - 1 || k == c {
                    assert(in_gap(g1[c - 1], x));
                } else if k < c - 1 {
                    assert(g1[k] == gaps[k]);
                    assert(in_gap(g1[k], x));
                } else {
                    assert(g1[k - 1] == gaps[k]);
                    assert(in_gap(g1[k - 1], x));
                }
            }
        }
        assert(free_set(g1) =~= free_set(gaps));
    }
}

/// Merging a gap with the next one keeps the gaps apart and below `cap`,
/// keeps them apart from the entries, and frees the same positions.
proof fn lemma_merge_with_next(gaps: Seq<Gap>, data: Seq<MeshEntry>, c: int, cap: int)
    requires
        gaps_fit(gaps, cap),
        entries_apart_from_gaps(data, gaps),
        0 <= c < gaps.len(),
        cap <= u32::MAX,
    ensures
        gaps_fit(merge_with_next(gaps, c), cap),
        entries_apart_from_gaps(data, merge_with_next(gaps, c)),
        free_set(merge_with_next(gaps, c)) == free_set(gaps),
{
    let g1 = merge_with_next(gaps, c);
    if c + 1 < gaps.len() && gaps[c + 1].position == gaps[c].position + gaps[c].length {
        let a = gaps[c];
        let b = gaps[c + 1];
        let big = Gap { position: a.position, length: (a.length + b.length) as usize };
        let u = gaps.update(c, big);
        assert(g1 == u.remove(c + 1));
        assert forall|k: int| 0 <= k < g1.len() implies #[trigger] g1[k].position + g1[k].length <= cap by {
            if k <= c { assert(g1[k] == u[k]); } else { assert(g1[k] == gaps[k + 1]); }
        }
        assert forall|k: int, l: int| 0 <= k < l < g1.len() implies gaps_disjoint(#[trigger] g1[k], #[trigger] g1[l]) by {
            let ok = if k <= c { k } else { k + 1 };
            let ol = if l <= c { l } else { l + 1 };
            if k == c {
                assert(gaps_disjoint(gaps[c], gaps[ol]));
                assert(gaps_disjoint(gaps[c + 1], gaps[ol]));
                lemma_disjoint_from_union(gaps[ol].position as int, gaps[ol].length as int, a.position as int, a.length as int, b.length as int);
            } else if l == c {
                assert(gaps_disjoint(gaps[ok], gaps[c]));
                assert(gaps_disjoint(gaps[ok], gaps[c + 1]));
                lemma_disjoint_from_union(gaps[ok].position as int, gaps[ok].length as int, a.position as int, a.length as int, b.length as int);
            } else {
                assert(g1[k] == gaps[ok]);
                assert(g1[l] == gaps[ol]);
                assert(gaps_disjoint(gaps[ok], gaps[ol]));
            }
        }
        assert forall|i: int, k: int| 0 <= i < data.len() && 0 <= k < g1.len() implies entry_gap_disjoint(#[trigger] data[i], #[trigger] g1[k]) by {
            if k == c {
                assert(entry_gap_disjoint(data[i], gaps[c]));
                assert(entry_gap_disjoint(data[i], gaps[c + 1]));
                lemma_disjoint_from_union(data[i].position as int, data[i].length as int, a.position as int, a.length as int, b.length as int);
            } else if k < c {
                assert(g1[k] == gaps[k]);
                assert(entry_gap_disjoint(data[i], gaps[k]));
            } else {
                assert(g1[k] == gaps[k + 1]);
                assert(entry_gap_disjoint(data[i], gaps[k + 1]));
            }
        }
        assert forall|x: int| free_set(g1).contains(x) == free_set(gaps).contains(x) by {
            if free_set(g1).contains(x) {
                let k = choose|k: int| 0 <= k < g1.len() && #[trigger] in_gap(g1[k], x);
                if k == c {
                    if x < b.position { assert(in_gap(gaps[c], x)); } else { assert(in_gap(gaps[c + 1], x)); }
                } else if k < c {
                    assert(g1[k] == gaps[k]);
                    assert(in_gap(gaps[k], x));
                } else {
                    assert(g1[k] == gaps[k + 1]);
                    assert(in_gap(gaps[k + 1], x));
                }
            }
            if free_set(gaps).contains(x) {
                let k = choose|k: int| 0 <= k < gaps.len() && #[trigger] in_gap(gaps[k], x);
                if k == c || k == c + 1 {
                    assert(in_gap(g1[c], x));
                } else if k < c {
                    assert(g1[k] == gaps[k]);
                    assert(in_gap(g1[k], x));
                } else {
                    assert(g1[k - 1] == gaps[k]);
                    assert(in_gap(g1[k - 1], x));
                }
            }
        }
        assert(free_set(g1) =~= free_set(gaps));
    }
}

/// Merging around a position keeps the gaps apart and below `cap`, keeps
/// them apart from the entries, and frees the same positions.
proof fn lemma_merged_around(gaps: Seq<Gap>, data: Seq<MeshEntry>, position: int, cap: int)
    requires
        gaps_fit(gaps, cap),
        entries_apart_from_gaps(data, gaps),
        cap <= u32::MAX,
    ensures
        gaps_fit(merged_around(gaps, position), cap),
        entries_apart_from_gaps(data, merged_around(gaps, position)),
        free_set(merged_around(gaps, position)) == free_set(gaps),
{
    if exists|c: int| is_first_gap_at(gaps, position, c) {
        let c = choose|c: int| is_first_gap_at(gaps, position, c);
        lemma_merge_with_previous(gaps, data, c, cap);
        let (g1, c1) = merge_with_previous(gaps, c);
        lemma_merge_with_next(g1, data, c1, cap);
    }
}

/// Write `b` continues write `a`, both in the arena and in the buffer.
pub open spec fn contiguous(a: WriteOperation, b: WriteOperation) -> bool {
    a.arena_offset + a.len == b.arena_offset && a.offset + a.len == b.offset
}

/// Adds `op` to the batched writes `acc`, extending the last write when `op` continues it.
pub open spec fn batch_step(acc: Seq<WriteOperation>, op: WriteOperation) -> Seq<WriteOperation> {
    if acc.len() > 0 && contiguous(acc.last(), op) {
        acc.update(
            acc.len() - 1,
            WriteOperation {
                mesh_id: acc.last().mesh_id,
                offset: acc.last().offset,
                len: (acc.last().len + op.len) as usize,
                arena_offset: acc.last().arena_offset,
            },
        )
    } else {
        acc.push(op)
    }
}

/// The writes `ops` with every run of contiguous writes joined into one.
pub open spec fn batched(ops: Seq<WriteOperation>) -> Seq<WriteOperation>
    decreases ops.len(),
{
    if ops.len() == 0 {
        ops
    } else {
        batch_step(batched(ops.drop_last()), ops.last())
    }
}

/// Buffer contents `buf` after writing `bytes` at `offset`.
pub open spec fn apply_write(buf: Map<int, u8>, offset: int, bytes: Seq<u8>) -> Map<int, u8> {
    Map::new(
        |x: int| buf.dom().contains(x) || (offset <= x < offset + bytes.len()),
        |x: int| if offset <= x < offset + bytes.len() { bytes[x - offset] } else { buf[x] },
    )
}

/// Buffer contents `buf` after the writes `ops`, in order, with bytes taken from `arena`.
pub open spec fn apply_ops(buf: Map<int, u8>, arena: Seq<u8>, ops: Seq<WriteOperation>) -> Map<int, u8>
    decreases ops.len(),
{
    if ops.len() == 0 {
        buf
    } else {
        apply_write(apply_ops(buf, arena, ops.drop_last()), ops.last().offset as int, op_bytes(arena, ops.last()))
    }
}

/// Every write takes its bytes from inside the arena.
pub open spec fn ops_in_arena(ops: Seq<WriteOperation>, arena_len: int) -> bool {
    forall|w: int| 0 <= w < ops.len() ==> (#[trigger] ops[w]).arena_offset + ops[w].len <= arena_len
}

/// Joining contiguous writes keeps them inside the arena and the buffer.
pub proof fn lemma_batched_bounds(ops: Seq<WriteOperation>, arena_len: int, cap: int)
    requires
        arena_len <= usize::MAX,
        ops_in_arena(ops, arena_len),
        forall|w: int| 0 <= w < ops.len() ==> (#[trigger] ops[w]).offset + ops[w].len <= cap,
    ensures
        ops_in_arena(batched(ops), arena_len),
        forall|w: int| 0 <= w < batched(ops).len() ==> (#[trigger] batched(ops)[w]).offset + batched(ops)[w].len <= cap,
        batched(ops).len() <= ops.len(),
    decreases ops.len(),
{
    if ops.len() > 0 {
        let init = ops.drop_last();
        assert forall|w: int| 0 <= w < init.len() implies (#[trigger] init[w]).arena_offset + init[w].len <= arena_len
            && init[w].offset + init[w].len <= cap by {
            assert(init[w] == ops[w]);
        }
        lemma_batched_bounds(init, arena_len, cap);
        assert(ops[ops.len() - 1] == ops.last());
    }
}

/// Joining contiguous writes keeps them inside the arena.
pub proof fn lemma_batched_in_arena(ops: Seq<WriteOperation>, arena_len: int)
    requires
        arena_len <= usize::MAX,
        ops_in_arena(ops, arena_len),
    ensures
        ops_in_arena(batched(ops), arena_len),
    decreases ops.len(),
{
    if ops.len() > 0 {
        let init = ops.drop_last();
        assert forall|w: int| 0 <= w < init.len() implies (#[trigger] init[w]).arena_offset + init[w].len <= arena_len by {
            assert(init[w] == ops[w]);
        }
        lemma_batched_in_arena(init, arena_len);
        assert(ops[ops.len() - 1] == ops.last());
    }
}

/// Joining contiguous writes changes nothing of what they write: the
/// batched writes leave any buffer exactly as the unbatched writes do.
pub proof fn lemma_batching_preserves_writes(buf: Map<int, u8>, arena: Seq<u8>, ops: Seq<WriteOperation>)
    requires
        ops_in_arena(ops, arena.len() as int),
        arena.len() <= usize::MAX,
    ensures
        apply_ops(buf, arena, batched(ops)) == apply_ops(buf, arena, ops),
    decreases ops.len(),
{
    if ops.len() > 0 {
        let init = ops.drop_last();
        let op = ops.last();
        assert(ops[ops.len() - 1] == op);
        assert forall|w: int| 0 <= w < init.len() implies (#[trigger] init[w]).arena_offset + init[w].len <= arena.len() by {
            assert(init[w] == ops[w]);
        }
        lemma_batching_preserves_writes(buf, arena, init);
        lemma_batched_in_arena(init, arena.len() as int);
        let b = batched(init);
        assert(b.push(op).drop_last() =~= b);
        if b.len() > 0 && contiguous(b.last(), op) {
            let last = b.last();
            let merged = WriteOperation {
                mesh_id: last.mesh_id,
                offset: last.offset,
                len: (last.len + op.len) as usize,
                arena_offset: last.arena_offset,
            };
            let nb = b.update(b.len() - 1, merged);
            assert(nb.drop_last() =~= b.drop_last());
            assert(nb.last() == merged);
            assert(b[b.len() - 1] == last);
            assert(last.arena_offset + last.len <= arena.len());
            let m0 = apply_ops(buf, arena, b.drop_last());
            assert(op_bytes(arena, merged) =~= op_bytes(arena, last) + op_bytes(arena, op));
            assert(apply_write(m0, merged.offset as int, op_bytes(arena, merged)) =~= apply_write(
                apply_write(m0, last.offset as int, op_bytes(arena, last)),
                op.offset as int,
                op_bytes(arena, op),
            ));
        }
    }
}

/// The writes that a flush hands to the GPU: batched when a batch is scheduled.
pub open spec fn emitted_writes(ops: Seq<WriteOperation>, schedule_batch: bool) -> Seq<WriteOperation> {
    if schedule_batch { batched(ops) } else { ops }
}

/// From index `start` on, `cmds` writes each of `writes`, in order, with its bytes from `arena`.
pub open spec fn writes_match(cmds: Seq<GpuCommand>, start: int, writes: Seq<WriteOperation>, arena: Seq<u8>) -> bool {
    forall|i: int|
        0 <= i < writes.len() ==> (#[trigger] cmds[start + i] matches GpuCommand::WriteBuffer { offset, data }
            && offset == writes[i].offset && data@ == op_bytes(arena, writes[i]))
}

/// The entries laid out back to back from position 0, in the same order.
pub open spec fn packed(data: Seq<MeshEntry>) -> Seq<MeshEntry> {
    Seq::new(
        data.len(),
        |i: int| MeshEntry { id: data[i].id, position: total_len(data.take(i)) as usize, length: data[i].length },
    )
}

/// From index `start` on, `cmds` copies each entry of `data` to its place in `packed(data)`.
pub open spec fn copies_match(cmds: Seq<GpuCommand>, start: int, data: Seq<MeshEntry>) -> bool {
    forall|i: int|
        0 <= i < data.len() ==> (#[trigger] cmds[start + i] matches GpuCommand::CopyFromPrevious { from, to, length }
            && from == data[i].position && to == packed(data)[i].position && length == data[i].length)
}

/// `cmds` is `old_cmds` followed by the flush of the pending writes (if
/// any), the creation of a buffer of `grown_capacity(needed)` bytes, and the
/// copies of every entry of `data` to its packed place.
pub open spec fn is_reallocation(
    cmds: Seq<GpuCommand>,
    old_cmds: Seq<GpuCommand>,
    ops: Seq<WriteOperation>,
    schedule_batch: bool,
    arena: Seq<u8>,
    data: Seq<MeshEntry>,
    needed: int,
) -> bool {
    let w = if ops.len() > 0 { emitted_writes(ops, schedule_batch) } else { Seq::<WriteOperation>::empty() };
    let n0 = old_cmds.len() as int;
    &&& cmds.len() == n0 + w.len() + 1 + data.len()
    &&& forall|i: int| 0 <= i < n0 ==> #[trigger] cmds[i] == old_cmds[i]
    &&& writes_match(cmds, n0, w, arena)
    &&& cmds[n0 + w.len()] == (GpuCommand::Reallocate { capacity: grown_capacity(needed) as u32 })
    &&& copies_match(cmds, n0 + w.len() + 1, data)
}

pub(crate) proof fn lemma_total_len_remove(data: Seq<MeshEntry>, i: int)
    requires
        0 <= i < data.len(),
    ensures
        total_len(data.remove(i)) == total_len(data) - data[i].length,
    decreases data.len(),
{
    if i < data.len() - 1 {
        assert(data.remove(i).drop_last() =~= data.drop_last().remove(i));
        lemma_total_len_remove(data.drop_last(), i);
        assert(data.remove(i).last() == data.last());
    } else {
        assert(data.remove(i) =~= data.drop_last());
    }
}

proof fn lemma_total_len_take_step(data: Seq<MeshEntry>, i: int)
    requires
        0 <= i < data.len(),
    ensures
        total_len(data.take(i + 1)) == total_len(data.take(i)) + data[i].length,
{
    assert(data.take(i + 1).drop_last() =~= data.take(i));
    assert(data.take(i + 1).last() == data[i]);
}

proof fn lemma_total_len_take_mono(data: Seq<MeshEntry>, i: int, j: int)
    requires
        0 <= i <= j <= data.len(),
    ensures
        total_len(data.take(i)) <= total_len(data.take(j)),
    decreases j - i,
{
    if i < j {
        lemma_total_len_take_step(data, j - 1);
        lemma_total_len_take_mono(data, i, j - 1);
    }
}

/// Entries laid out back to back are apart, ordered, and end at the sum of their lengths.
pub(crate) proof fn lemma_packed(data: Seq<MeshEntry>)
    requires
        total_len(data) <= usize::MAX,
    ensures
        forall|i: int, j: int| 0 <= i < j < data.len() ==> packed(data)[i].position + packed(data)[i].length <= packed(data)[j].position,
        forall|i: int| 0 <= i < data.len() ==> packed(data)[i].position + packed(data)[i].length <= total_len(data),
{
    assert(data.take(data.len() as int) =~= data);
    assert forall|i: int, j: int| 0 <= i < j < data.len() implies packed(data)[i].position + packed(data)[i].length <= packed(data)[j].position by {
        lemma_total_len_take_step(data, i);
        lemma_total_len_take_mono(data, i + 1, j);
        lemma_total_len_take_mono(data, j, data.len() as int);
        lemma_total_len_take_mono(data, 0, i);
        assert(data.take(0) =~= Seq::<MeshEntry>::empty());
    }
    assert forall|i: int| 0 <= i < data.len() implies packed(data)[i].position + packed(data)[i].length <= total_len(data) by {
        lemma_total_len_take_step(data, i);
        lemma_total_len_take_mono(data, i + 1, data.len() as int);
        lemma_total_len_take_mono(data, 0, i);
        assert(data.take(0) =~= Seq::<MeshEntry>::empty());
    }
}

/// The gaps after taking `n` bytes from the front of gap `k` (a gap that
/// was already empty is dropped).
pub open spec fn place_gaps(gaps: Seq<Gap>, k: int, n: int) -> Seq<Gap> {
    if gaps[k].length == 0 {
        gaps.remove(k)
    } else {
        gaps.update(k, Gap { position: (gaps[k].position + n) as usize, length: (gaps[k].length - n) as usize })
    }
}

/// The gaps after writing `n` bytes at the front of gap `k`, which is
/// dropped once empty.
pub open spec fn consume_gaps(gaps: Seq<Gap>, k: int, n: int) -> Seq<Gap> {
    if gaps[k].length == n {
        gaps.remove(k)
    } else {
        gaps.update(k, Gap { position: (gaps[k].position + n) as usize, length: (gaps[k].length - n) as usize })
    }
}

/// The gaps among which `n` bytes get placed: the current ones, or, when
/// none can hold them, the single gap left after moving `data` into a larger buffer.
pub open spec fn placement_gaps(data: Seq<MeshEntry>, gaps: Seq<Gap>, n: int) -> Seq<Gap> {
    if no_fit(gaps, n) {
        seq![
            Gap {
                position: total_len(data) as usize,
                length: (grown_capacity(total_len(data) + n) - total_len(data)) as usize,
            },
        ]
    } else {
        gaps
    }
}

/// The first gap that starts at `position`, if any.
pub open spec fn first_gap_at(gaps: Seq<Gap>, position: int) -> Option<int> {
    if exists|c: int| is_first_gap_at(gaps, position, c) {
        Some(choose|c: int| is_first_gap_at(gaps, position, c))
    } else {
        None
    }
}

/// The gaps after the region of `e` is given up: it joins the gap that
/// follows it, or becomes a new gap placed before the first gap that starts after it.
pub open spec fn released_gaps(gaps: Seq<Gap>, e: MeshEntry) -> Seq<Gap> {
    match first_gap_at(gaps, e.position + e.length) {
        Some(c) => gaps.update(c, Gap { position: e.position, length: (gaps[c].length + e.length) as usize }),
        None => {
            let k = choose|k: int| gap_insertion_index(gaps, e.position as int, k);
            gaps.insert(k, Gap { position: e.position, length: e.length })
        },
    }
}

/// Placing an entry at the front of a gap that can hold it keeps entries
/// and gaps apart, below `cap`, and entries ordered.
proof fn lemma_place_entry(data: Seq<MeshEntry>, gaps: Seq<Gap>, cap: int, k: int, n: int, id: MeshId, ins: int)
    requires
        entries_fit(data, cap),
        gaps_fit(gaps, cap),
        entries_apart_from_gaps(data, gaps),
        entries_sorted(data),
        0 <= k < gaps.len(),
        0 <= n <= gaps[k].length,
        entry_insertion_index(data, gaps[k].position as int, ins),
        0 <= cap <= u32::MAX,
    ensures
        ({
            let e = MeshEntry { id, position: gaps[k].position, length: n as usize };
            let d2 = data.insert(ins, e);
            let g2 = place_gaps(gaps, k, n);
            &&& entries_fit(d2, cap)
            &&& gaps_fit(g2, cap)
            &&& entries_apart_from_gaps(d2, g2)
            &&& entries_sorted(d2)
        }),
{
    let e = MeshEntry { id, position: gaps[k].position, length: n as usize };
    let d2 = data.insert(ins, e);
    let g2 = place_gaps(gaps, k, n);
    let g = gaps[k];
    assert forall|i: int| 0 <= i < d2.len() implies #[trigger] d2[i].position + d2[i].length <= cap by {
        if i < ins { assert(d2[i] == data[i]); } else if i > ins { assert(d2[i] == data[i - 1]); }
    }
    assert forall|i: int, j: int| 0 <= i < j < d2.len() implies entries_disjoint(#[trigger] d2[i], #[trigger] d2[j])
        && d2[i].position <= d2[j].position by {
        let oi = if i < ins { i } else { i - 1 };
        let oj = if j < ins { j } else { j - 1 };
        if i == ins {
            assert(d2[j] == data[oj]);
            assert(entry_gap_disjoint(data[oj], g));
        } else if j == ins {
            assert(d2[i] == data[oi]);
            assert(entry_gap_disjoint(data[oi], g));
        } else {
            assert(d2[i] == data[oi]);
            assert(d2[j] == data[oj]);
        }
    }
    assert forall|a: int| 0 <= a < g2.len() implies #[trigger] g2[a].position + g2[a].length <= cap by {
        if g.length == 0 {
            if a < k { assert(g2[a] == gaps[a]); } else { assert(g2[a] == gaps[a + 1]); }
        } else if a != k {
            assert(g2[a] == gaps[a]);
        }
    }
    assert forall|a: int, b: int| 0 <= a < b < g2.len() implies gaps_disjoint(#[trigger] g2[a], #[trigger] g2[b]) by {
        if g.length == 0 {
            let oa = if a < k { a } else { a + 1 };
            let ob = if b < k { b } else { b + 1 };
            assert(g2[a] == gaps[oa]);
            assert(g2[b] == gaps[ob]);
        } else {
            if a == k { assert(gaps_disjoint(g, gaps[b])); } else if b == k { assert(gaps_disjoint(gaps[a], g)); }
            else { assert(g2[a] == gaps[a]); assert(g2[b] == gaps[b]); }
        }
    }
    assert forall|i: int, a: int| 0 <= i < d2.len() && 0 <= a < g2.len() implies entry_gap_disjoint(#[trigger] d2[i], #[trigger] g2[a]) by {
        let oi = if i < ins { i } else { i - 1 };
        let oa = if g.length == 0 && a >= k { a + 1 } else { a };
        if g.length == 0 {
            assert(g2[a] == gaps[oa]);
            if i == ins {
                assert(n == 0);
            } else {
                assert(d2[i] == data[oi]);
            }
        } else if i == ins {
            if a != k {
                assert(g2[a] == gaps[a]);
                assert(gaps_disjoint(g, gaps[a]) || gaps_disjoint(gaps[a], g));
                if a < k { assert(gaps_disjoint(gaps[a], g)); } else { assert(gaps_disjoint(g, gaps[a])); }
            }
        } else {
            assert(d2[i] == data[oi]);
            assert(entry_gap_disjoint(data[oi], g));
            if a != k { assert(g2[a] == gaps[a]); }
        }
    }
}

/// The GPU sub-allocator: meshes live in one shared vertex buffer of
/// `capacity` bytes, as regions (`data`) separated by free regions (`gaps`).
/// Writes are staged in `arena` and turned into GPU commands by `flush`.
pub struct MeshManager {
    pub capacity: u32,
    pub data: Vec<MeshEntry>,
    pub gaps: Vec<Gap>,
    pub next_id: MeshId,
    pub free_ids: Vec<MeshId>,
    pub write_operations: Vec<WriteOperation>,
    pub schedule_batch: bool,
    pub arena: Vec<u8>,
    pub commands: Vec<GpuCommand>,
}

/// What `free_data(id)` does to the manager `pre`, leaving `post` and giving `r`.
pub open spec fn freed(pre: MeshManager, post: MeshManager, id: MeshId, r: Result<(), AllocError>) -> bool {
    &&& r is Err <==> !has_id(pre.data@, id)
    &&& r is Err ==> r == Err::<(), AllocError>(AllocError::InvalidId) && post.data@ == pre.data@
        && post.gaps@ == pre.gaps@ && post.free_ids@ == pre.free_ids@
        && post.write_operations@ == pre.write_operations@
    &&& r is Ok ==> exists|i: int|
        0 <= i < pre.data@.len() && (#[trigger] pre.data@[i]).id == id && {
            let e = pre.data@[i];
            &&& post.data@ == pre.data@.remove(i)
            &&& exists|k: int|
                gap_insertion_index(pre.gaps@, e.position as int, k) && post.gaps@
                    == merged_around(pre.gaps@.insert(k, Gap { position: e.position, length: e.length }), e.position as int)
            &&& free_set(post.gaps@) == free_set(pre.gaps@) + set_int_range(
                e.position as int,
                e.position + e.length,
            )
            &&& post.free_ids@ == pre.free_ids@.push(id)
            &&& post.write_operations@ == pre.write_operations@.filter(
                |w: WriteOperation| w.mesh_id != id,
            )
        }
    &&& post.capacity == pre.capacity
    &&& post.next_id == pre.next_id
    &&& post.arena@ == pre.arena@
    &&& post.commands@ == pre.commands@
    &&& post.schedule_batch == pre.schedule_batch
}

/// What `flush()` does to the manager `pre`, leaving `post`: the pending
/// writes, batched when a batch is scheduled, follow the queued commands as
/// buffer writes, and nothing is pending any more.
pub open spec fn flushed(pre: MeshManager, post: MeshManager) -> bool {
    &&& pre.write_operations@.len() == 0 ==> post.commands@ == pre.commands@ && post.arena@ == pre.arena@
        && post.schedule_batch == pre.schedule_batch
    &&& pre.write_operations@.len() > 0 ==> {
        let emitted = emitted_writes(pre.write_operations@, pre.schedule_batch);
        &&& post.commands@.len() == pre.commands@.len() + emitted.len()
        &&& forall|i: int| 0 <= i < pre.commands@.len() ==> #[trigger] post.commands@[i] == pre.commands@[i]
        &&& writes_match(post.commands@, pre.commands@.len() as int, emitted, pre.arena@)
        &&& post.arena@.len() == 0
        &&& !post.schedule_batch
    }
    &&& post.write_operations@.len() == 0
    &&& post.capacity == pre.capacity
    &&& post.data@ == pre.data@
    &&& post.gaps@ == pre.gaps@
    &&& post.next_id == pre.next_id
    &&& post.free_ids@ == pre.free_ids@
}

/// What `add_data(data)` does to the manager `pre`, leaving `post` and giving `r`.
pub open spec fn added(pre: MeshManager, post: MeshManager, data: Seq<u8>, r: Result<MeshId, AllocError>) -> bool {
    &&& r is Ok
    &&& ({
        let id = r->Ok_0;
        let n = data.len() as int;
        let grow = pre.must_grow(n);
        let data1 = pre.data_before_place(n);
        let gaps1 = pre.gaps_before_place(n);
        &&& pre.free_ids@.len() > 0 ==> id == pre.free_ids@.last() && post.free_ids@
            == pre.free_ids@.drop_last() && post.next_id == pre.next_id
        &&& pre.free_ids@.len() == 0 ==> id == pre.next_id && post.next_id == pre.next_id
            + 1 && post.free_ids@ == pre.free_ids@
        &&& post.capacity == if grow { grown_capacity(pre.needed_for(n)) as u32 } else { pre.capacity }
        &&& grow ==> is_reallocation(post.commands@, pre.commands@, pre.write_operations@,
            pre.schedule_batch, pre.arena@, pre.data@, pre.needed_for(n))
        &&& !grow ==> post.commands@ == pre.commands@
        &&& exists|k: int| #![trigger pre.gaps_before_place(n)[k]] {
            &&& is_first_fit(gaps1, n, k)
            &&& post.gaps@ == if gaps1[k].length == 0 {
                gaps1.remove(k)
            } else {
                gaps1.update(k, Gap { position: (gaps1[k].position + n) as usize, length: (gaps1[k].length - n) as usize })
            }
            &&& exists|ins: int| entry_insertion_index(data1, gaps1[k].position as int, ins)
                && post.data@ == data1.insert(ins, MeshEntry { id, position: gaps1[k].position, length: n as usize })
            &&& post.write_operations@ == pre.ops_before_place(n).push(
                WriteOperation { mesh_id: id, offset: gaps1[k].position, len: n as usize, arena_offset: pre.arena_before_place(n).len() as usize },
            )
        }
        &&& post.arena@ == pre.arena_before_place(n) + data
        &&& post.schedule_batch
    })
}

/// Freed ids are recycled, the last freed first: when `free_data(k)`
/// succeeds and the next call is `add_data`, the new mesh gets the id `k`.
pub proof fn lemma_freed_id_reused(
    pre: MeshManager,
    mid: MeshManager,
    post: MeshManager,
    k: MeshId,
    data: Seq<u8>,
    r: Result<MeshId, AllocError>,
)
    requires
        freed(pre, mid, k, Ok(())),
        added(mid, post, data, r),
    ensures
        r == Ok::<MeshId, AllocError>(k),
        post.free_ids@ == pre.free_ids@,
{
    let i = choose|i: int|
        0 <= i < pre.data@.len() && (#[trigger] pre.data@[i]).id == k && {
            let e = pre.data@[i];
            &&& mid.data@ == pre.data@.remove(i)
            &&& exists|g: int|
                gap_insertion_index(pre.gaps@, e.position as int, g) && mid.gaps@
                    == merged_around(pre.gaps@.insert(g, Gap { position: e.position, length: e.length }), e.position as int)
            &&& free_set(mid.gaps@) == free_set(pre.gaps@) + set_int_range(e.position as int, e.position + e.length)
            &&& mid.free_ids@ == pre.free_ids@.push(k)
            &&& mid.write_operations@ == pre.write_operations@.filter(|w: WriteOperation| w.mesh_id != k)
        };
    assert(mid.free_ids@.last() == k);
    assert(mid.free_ids@.drop_last() =~= pre.free_ids@);
}

/// A freed id stays first in line: when `free_data(k)` succeeds, any later
/// calls that leave the free ids as that free left them (updates, flushes,
/// handing over the commands, a failed free, or a free followed by an add;
/// see the lemmas below) are followed by an `add_data` that gives `k`.
pub proof fn lemma_freed_id_reused_later(
    pre: MeshManager,
    after_free: MeshManager,
    mid: MeshManager,
    post: MeshManager,
    k: MeshId,
    data: Seq<u8>,
    r: Result<MeshId, AllocError>,
)
    requires
        freed(pre, after_free, k, Ok(())),
        mid.free_ids@ == after_free.free_ids@,
        added(mid, post, data, r),
    ensures
        r == Ok::<MeshId, AllocError>(k),
{
    let i = choose|i: int|
        0 <= i < pre.data@.len() && (#[trigger] pre.data@[i]).id == k && {
            let e = pre.data@[i];
            &&& after_free.data@ == pre.data@.remove(i)
            &&& exists|g: int|
                gap_insertion_index(pre.gaps@, e.position as int, g) && after_free.gaps@
                    == merged_around(pre.gaps@.insert(g, Gap { position: e.position, length: e.length }), e.position as int)
            &&& free_set(after_free.gaps@) == free_set(pre.gaps@) + set_int_range(e.position as int, e.position + e.length)
            &&& after_free.free_ids@ == pre.free_ids@.push(k)
            &&& after_free.write_operations@ == pre.write_operations@.filter(|w: WriteOperation| w.mesh_id != k)
        };
    assert(mid.free_ids@.last() == k);
}

/// Updating a mesh, whatever the answer, leaves the free ids as they were.
pub proof fn lemma_update_keeps_free_ids(pre: MeshManager, post: MeshManager, id: MeshId, data: Seq<u8>, r: Result<(), AllocError>)
    requires
        updated(pre, post, id, data, r),
    ensures
        post.free_ids@ == pre.free_ids@,
{
}

/// A flush leaves the free ids as they were.
pub proof fn lemma_flush_keeps_free_ids(pre: MeshManager, post: MeshManager)
    requires
        flushed(pre, post),
    ensures
        post.free_ids@ == pre.free_ids@,
{
}

/// A refused free leaves the free ids as they were.
pub proof fn lemma_failed_free_keeps_free_ids(pre: MeshManager, post: MeshManager, id: MeshId, r: Result<(), AllocError>)
    requires
        freed(pre, post, id, r),
        r is Err,
    ensures
        post.free_ids@ == pre.free_ids@,
{
}

/// Replacing the bytes of mesh `id` by `n` bytes keeps the stored bytes
/// within `MAX_GROWABLE_BYTES` (an id that no entry holds is refused).
pub open spec fn update_fits(m: MeshManager, id: MeshId, n: int) -> bool {
    forall|i: int|
        0 <= i < m.data@.len() && (#[trigger] m.data@[i]).id == id ==> total_len(m.data@) - m.data@[i].length + n
            <= MAX_GROWABLE_BYTES
}

/// What `update_data` of `data` for mesh `id` does to the manager `pre`,
/// leaving `post` and giving `r`.
pub open spec fn updated(pre: MeshManager, post: MeshManager, id: MeshId, data: Seq<u8>, r: Result<(), AllocError>) -> bool {
    &&& r is Err <==> !has_id(pre.data@, id)
    &&& r is Err ==> r == Err::<(), AllocError>(AllocError::InvalidId) && post.data@ == pre.data@
        && post.gaps@ == pre.gaps@ && post.write_operations@ == pre.write_operations@
        && post.arena@ == pre.arena@ && post.commands@ == pre.commands@
        && post.capacity == pre.capacity
    &&& r is Ok ==> exists|i: int|
        0 <= i < pre.data@.len() && (#[trigger] pre.data@[i]).id == id && {
            let e = pre.data@[i];
            let n = data.len() as int;
            let end = e.position + e.length;
            let written = WriteOperation { mesh_id: id, offset: e.position, len: n as usize, arena_offset: pre.arena@.len() as usize };
            let resized = pre.data@.update(i, MeshEntry { id: e.id, position: e.position, length: n as usize });
            if n <= e.length {
                &&& post.data@ == resized
                &&& post.gaps@ == if n == e.length {
                    pre.gaps@
                } else {
                    match first_gap_at(pre.gaps@, end) {
                        Some(c) => pre.gaps@.update(c, Gap { position: (e.position + n) as usize, length: (pre.gaps@[c].length + e.length - n) as usize }),
                        None => {
                            let k = choose|k: int| gap_insertion_index(pre.gaps@, e.position as int, k);
                            pre.gaps@.insert(k, Gap { position: (e.position + n) as usize, length: (e.length - n) as usize })
                        },
                    }
                }
                &&& post.write_operations@ == pre.write_operations@.push(written)
                &&& post.arena@ == pre.arena@ + data
                &&& post.commands@ == pre.commands@
                &&& post.capacity == pre.capacity
                &&& post.schedule_batch
            } else if first_gap_at(pre.gaps@, end) is Some && n <= e.length + pre.gaps@[first_gap_at(pre.gaps@, end)->0].length {
                let c = first_gap_at(pre.gaps@, end)->0;
                let rest = e.length + pre.gaps@[c].length - n;
                &&& post.data@ == resized
                &&& post.gaps@ == if rest == 0 {
                    pre.gaps@.remove(c)
                } else {
                    pre.gaps@.update(c, Gap { position: (e.position + n) as usize, length: rest as usize })
                }
                &&& post.write_operations@ == pre.write_operations@.push(written)
                &&& post.arena@ == pre.arena@ + data
                &&& post.commands@ == pre.commands@
                &&& post.capacity == pre.capacity
                &&& post.schedule_batch
            } else {
                &&& entries_apart_from_gaps(pre.data@.remove(i), released_gaps(pre.gaps@, e))
                &&& detached_placement(post, pre.data@.remove(i), released_gaps(pre.gaps@, e),
                    pre.write_operations@, pre.arena@, pre.schedule_batch, pre.commands@,
                    pre.capacity, id, data)
            }
        }
    &&& post.next_id == pre.next_id
    &&& post.free_ids@ == pre.free_ids@
}

/// `m` results from writing `bytes` for mesh `id` at the front of the first
/// gap of `gaps` that can hold them, after moving `data` into a larger buffer
/// when none can, starting from entries `data`, gaps `gaps`, pending writes
/// `ops`, staged bytes `arena`, batch flag `sb`, commands `cmds` and capacity `cap`.
pub open spec fn detached_placement(
    m: MeshManager,
    data: Seq<MeshEntry>,
    gaps: Seq<Gap>,
    ops: Seq<WriteOperation>,
    arena: Seq<u8>,
    sb: bool,
    cmds: Seq<GpuCommand>,
    cap: u32,
    id: MeshId,
    bytes: Seq<u8>,
) -> bool {
    let n = bytes.len() as int;
    let grow = no_fit(gaps, n);
    let needed = total_len(data) + n;
    let arena1 = if grow && ops.len() > 0 { Seq::<u8>::empty() } else { arena };
    let ops1 = if grow { Seq::<WriteOperation>::empty() } else { ops };
    &&& m.data@ == if grow { packed(data) } else { data }
    &&& m.capacity == if grow { grown_capacity(needed) as u32 } else { cap }
    &&& grow ==> is_reallocation(m.commands@, cmds, ops, sb, arena, data, needed)
    &&& !grow ==> m.commands@ == cmds
    &&& exists|k: int| #![trigger placement_gaps(data, gaps, n)[k]] {
        &&& is_first_fit(placement_gaps(data, gaps, n), n, k)
        &&& m.gaps@ == consume_gaps(placement_gaps(data, gaps, n), k, n)
        &&& m.write_operations@ == ops1.push(
            WriteOperation { mesh_id: id, offset: placement_gaps(data, gaps, n)[k].position, len: n as usize, arena_offset: arena1.len() as usize },
        )
    }
    &&& m.arena@ == arena1 + bytes
    &&& m.schedule_batch
}

/// `b` bytes counted in whole mebibytes, whole kibibytes and bytes.
pub fn bytes_conversion(b: u32) -> (r: (u32, u32, u32))
    ensures
        r.0 == b / 1024 / 1024,
        r.1 == b / 1024,
        r.2 == b,
{
    let kb = b / 1024;
    let mb = kb / 1024;
    (mb, kb, b)
}

impl MeshManager {
    /// The length of the stored meshes and the buffer's capacity, each
    /// counted in mebibytes, kibibytes and bytes.
    pub fn buffer_memory_usage(&self) -> (r: ((u32, u32, u32), (u32, u32, u32)))
        requires
            self.wf(),
        ensures
            r.0 == ((total_len(self.data@) / 1024 / 1024) as u32, (total_len(self.data@) / 1024) as u32, total_len(self.data@) as u32),
            r.1 == (self.capacity / 1024 / 1024, self.capacity / 1024, self.capacity),
    {
        let length = self.total_data_length();
        proof {
            lemma_total_len_bounded(self.data@, self.capacity as int);
        }
        (bytes_conversion(length as u32), bytes_conversion(self.capacity))
    }

    /// Hands over the buffer commands queued so far, in order, leaving none.
    pub fn take_commands(&mut self) -> (r: Vec<GpuCommand>)
        ensures
            r@ == old(self).commands@,
            final(self).commands@.len() == 0,
            final(self).capacity == old(self).capacity,
            final(self).data@ == old(self).data@,
            final(self).gaps@ == old(self).gaps@,
            final(self).next_id == old(self).next_id,
            final(self).free_ids@ == old(self).free_ids@,
            final(self).write_operations@ == old(self).write_operations@,
            final(self).schedule_batch == old(self).schedule_batch,
            final(self).arena@ == old(self).arena@,
            old(self).wf() ==> final(self).wf(),
    {
        let mut taken: Vec<GpuCommand> = Vec::new();
        std::mem::swap(&mut taken, &mut self.commands);
        taken
    }

    /// The allocator's invariant.
    pub open spec fn wf(&self) -> bool {
        let cap = self.capacity as int;
        &&& entries_fit(self.data@, cap)
        &&& gaps_fit(self.gaps@, cap)
        &&& entries_apart_from_gaps(self.data@, self.gaps@)
        &&& entries_sorted(self.data@)
        &&& forall|i: int, j: int|
            0 <= i < j < self.data@.len() ==> (#[trigger] self.data@[i]).id != (#[trigger] self.data@[j]).id
        &&& forall|i: int, j: int|
            0 <= i < j < self.free_ids@.len() ==> #[trigger] self.free_ids@[i] != #[trigger] self.free_ids@[j]
        &&& forall|i: int, k: int|
            0 <= i < self.data@.len() && 0 <= k < self.free_ids@.len() ==> (#[trigger] self.data@[i]).id
                != #[trigger] self.free_ids@[k]
        &&& forall|i: int| 0 <= i < self.data@.len() ==> (#[trigger] self.data@[i]).id < self.next_id
        &&& forall|k: int| 0 <= k < self.free_ids@.len() ==> #[trigger] self.free_ids@[k] < self.next_id
        &&& forall|w: int|
            0 <= w < self.write_operations@.len() ==> {
                &&& (#[trigger] self.write_operations@[w]).arena_offset + self.write_operations@[w].len
                    <= self.arena@.len()
                &&& self.write_operations@[w].offset + self.write_operations@[w].len <= cap
            }
    }

    /// A new identifier can be handed out without overflowing.
    pub open spec fn can_issue_id(&self) -> bool {
        self.free_ids@.len() > 0 || self.next_id < u32::MAX
    }

    /// An empty allocator over a buffer of no capacity.
    pub fn new() -> (m: MeshManager)
        ensures
            m.wf(),
            m.capacity == 0,
            m.data@.len() == 0,
            m.gaps@.len() == 0,
            m.next_id == 0,
            m.free_ids@.len() == 0,
            m.write_operations@.len() == 0,
            !m.schedule_batch,
            m.arena@.len() == 0,
            m.commands@.len() == 0,
    {
        MeshManager {
            capacity: 0,
            data: Vec::new(),
            gaps: Vec::new(),
            next_id: 0,
            free_ids: Vec::new(),
            write_operations: Vec::new(),
            schedule_batch: false,
            arena: Vec::new(),
            commands: Vec::new(),
        }
    }

    /// Sum of the lengths of all stored meshes.
    pub fn total_data_length(&self) -> (r: usize)
        requires
            self.wf(),
        ensures
            r == total_len(self.data@),
    {
        let mut sum: usize = 0;
        let mut i: usize = 0;
        proof {
            assert(self.data@.take(0) =~= Seq::<MeshEntry>::empty());
        }
        while i < self.data.len()
            invariant
                self.wf(),
                i <= self.data@.len(),
                sum == total_len(self.data@.take(i as int)),
            decreases self.data@.len() - i,
        {
            let ghost t = self.data@.take(i + 1);
            proof {
                assert(t.drop_last() =~= self.data@.take(i as int));
                assert(entries_fit(t, self.capacity as int)) by {
                    assert forall|a: int| 0 <= a < t.len() implies #[trigger] t[a].position + t[a].length <= self.capacity by {
                        assert(t[a] == self.data@[a]);
                    }
                    assert forall|a: int, b: int| 0 <= a < b < t.len() implies entries_disjoint(#[trigger] t[a], #[trigger] t[b]) by {
                        assert(t[a] == self.data@[a]);
                        assert(t[b] == self.data@[b]);
                    }
                }
                lemma_total_len_bounded(t, self.capacity as int);
            }
            sum = sum + self.data[i].length;
            i = i + 1;
        }
        proof {
            assert(self.data@.take(i as int) =~= self.data@);
        }
        sum
    }

    /// The first gap that can hold `needed` bytes.
    pub(crate) fn find_place(&self, needed: usize) -> (r: Option<usize>)
        ensures
            match r {
                Some(k) => is_first_fit(self.gaps@, needed as int, k as int),
                None => no_fit(self.gaps@, needed as int),
            },
    {
        let mut k: usize = 0;
        while k < self.gaps.len()
            invariant
                k <= self.gaps@.len(),
                forall|j: int| 0 <= j < k ==> (#[trigger] self.gaps@[j]).length < needed,
            decreases self.gaps@.len() - k,
        {
            if self.gaps[k].length >= needed {
                return Some(k);
            }
            k = k + 1;
        }
        None
    }

    /// The gap that starts where `entry` ends, if any.
    fn get_data_next_gap(&self, entry: &MeshEntry) -> (r: Option<usize>)
        requires
            entry.position + entry.length <= usize::MAX,
        ensures
            match r {
                Some(k) => k < self.gaps@.len() && self.gaps@[k as int].position == entry.position + entry.length
                    && forall|j: int| 0 <= j < k ==> (#[trigger] self.gaps@[j]).position != entry.position + entry.length,
                None => forall|j: int| 0 <= j < self.gaps@.len() ==> (#[trigger] self.gaps@[j]).position != entry.position + entry.length,
            },
    {
        let position = entry.position + entry.length;
        let mut k: usize = 0;
        while k < self.gaps.len()
            invariant
                k <= self.gaps@.len(),
                position == entry.position + entry.length,
                forall|j: int| 0 <= j < k ==> (#[trigger] self.gaps@[j]).position != position,
            decreases self.gaps@.len() - k,
        {
            if self.gaps[k].position == position {
                return Some(k);
            }
            k = k + 1;
        }
        None
    }

    /// Stages `data` to be written at `position` for mesh `mesh_id`.
    fn write_at(&mut self, position: usize, data: &[u8], mesh_id: MeshId)
        ensures
            final(self).arena@ == old(self).arena@ + data@,
            final(self).write_operations@ == old(self).write_operations@.push(
                WriteOperation { mesh_id, offset: position, len: data@.len() as usize, arena_offset: old(self).arena@.len() as usize },
            ),
            final(self).schedule_batch,
            final(self).capacity == old(self).capacity,
            final(self).data@ == old(self).data@,
            final(self).gaps@ == old(self).gaps@,
            final(self).next_id == old(self).next_id,
            final(self).free_ids@ == old(self).free_ids@,
            final(self).commands@ == old(self).commands@,
    {
        let arena_offset = self.arena.len();
        let mut i: usize = 0;
        while i < data.len()
            invariant
                i <= data@.len(),
                self.arena@ == old(self).arena@ + data@.subrange(0, i as int),
                arena_offset == old(self).arena@.len(),
                self.capacity == old(self).capacity,
                self.data@ == old(self).data@,
                self.gaps@ == old(self).gaps@,
                self.next_id == old(self).next_id,
                self.free_ids@ == old(self).free_ids@,
                self.commands@ == old(self).commands@,
                self.write_operations@ == old(self).write_operations@,
            decreases data@.len() - i,
        {
            self.arena.push(data[i]);
            i = i + 1;
        }
        proof {
            assert(data@.subrange(0, data@.len() as int) =~= data@);
        }
        self.write_operations.push(WriteOperation { mesh_id, offset: position, len: data.len(), arena_offset });
        self.schedule_batch = true;
    }

    /// Inserts `gap` before the first gap that starts after `position`.
    fn insert_gap_after(&mut self, gap: Gap, position: usize)
        ensures
            exists|k: int|
                gap_insertion_index(old(self).gaps@, position as int, k) && final(self).gaps@ == old(self).gaps@.insert(k, gap),
            final(self).capacity == old(self).capacity,
            final(self).data@ == old(self).data@,
            final(self).next_id == old(self).next_id,
            final(self).free_ids@ == old(self).free_ids@,
            final(self).commands@ == old(self).commands@,
            final(self).write_operations@ == old(self).write_operations@,
            final(self).arena@ == old(self).arena@,
            final(self).schedule_batch == old(self).schedule_batch,
    {
        let mut k: usize = 0;
        while k < self.gaps.len() && self.gaps[k].position <= position
            invariant
                k <= self.gaps@.len(),
                forall|j: int| 0 <= j < k ==> (#[trigger] self.gaps@[j]).position <= position,
            decreases self.gaps@.len() - k,
        {
            k = k + 1;
        }
        assert(gap_insertion_index(self.gaps@, position as int, k as int));
        self.gaps.insert(k, gap);
    }

    /// Takes the front of gap `gap_index` to store `entry`'s bytes, staging their write.
    fn consume_gap_for(&mut self, gap_index: usize, entry: &DataEntry)
        requires
            gap_index < old(self).gaps@.len(),
            old(self).gaps@[gap_index as int].length >= entry.data@.len(),
            gaps_fit(old(self).gaps@, old(self).capacity as int),
        ensures
            ({
                let g = old(self).gaps@[gap_index as int];
                let n = entry.data@.len();
                &&& final(self).arena@ == old(self).arena@ + entry.data@
                &&& final(self).write_operations@ == old(self).write_operations@.push(
                    WriteOperation { mesh_id: entry.id, offset: g.position, len: n as usize, arena_offset: old(self).arena@.len() as usize },
                )
                &&& final(self).gaps@ == if g.length == n {
                    old(self).gaps@.remove(gap_index as int)
                } else {
                    old(self).gaps@.update(gap_index as int, Gap { position: (g.position + n) as usize, length: (g.length - n) as usize })
                }
            }),
            final(self).schedule_batch,
            final(self).capacity == old(self).capacity,
            final(self).data@ == old(self).data@,
            final(self).next_id == old(self).next_id,
            final(self).free_ids@ == old(self).free_ids@,
            final(self).commands@ == old(self).commands@,
    {
        let position = self.gaps[gap_index].position;
        let data_length = entry.data.len();
        self.write_at(position, entry.data, entry.id);
        let g = self.gaps[gap_index];
        let new_gap = Gap { position: g.position + data_length, length: g.length - data_length };
        self.gaps.set(gap_index, new_gap);
        if new_gap.length == 0 {
            self.gaps.remove(gap_index);
        }
    }

    /// Merges the first gap that starts at `position` with the gaps it touches.
    fn try_merge_gap(&mut self, position: usize)
        requires
            gaps_fit(old(self).gaps@, old(self).capacity as int),
        ensures
            final(self).gaps@ == merged_around(old(self).gaps@, position as int),
            final(self).capacity == old(self).capacity,
            final(self).data@ == old(self).data@,
            final(self).next_id == old(self).next_id,
            final(self).free_ids@ == old(self).free_ids@,
            final(self).commands@ == old(self).commands@,
            final(self).write_operations@ == old(self).write_operations@,
            final(self).arena@ == old(self).arena@,
            final(self).schedule_batch == old(self).schedule_batch,
    {
        let mut c: usize = 0;
        while c < self.gaps.len() && self.gaps[c].position != position
            invariant
                c <= self.gaps@.len(),
                forall|j: int| 0 <= j < c ==> (#[trigger] self.gaps@[j]).position != position,
            decreases self.gaps@.len() - c,
        {
            c = c + 1;
        }
        if c == self.gaps.len() {
            assert(!exists|c: int| is_first_gap_at(self.gaps@, position as int, c));
            return;
        }
        let ghost g0 = self.gaps@;
        assert(is_first_gap_at(g0, position as int, c as int));
        assert forall|c2: int| is_first_gap_at(g0, position as int, c2) implies c2 == c by {
            if c2 < c {
                assert(g0[c2].position != position);
            } else if c2 > c {
                assert(g0[c as int].position != position);
            }
        }
        let mut current_index = c;
        if current_index > 0 {
            let prev = self.gaps[current_index - 1];
            let curr = self.gaps[current_index];
            if prev.position + prev.length == curr.position {
                self.gaps.set(current_index - 1, Gap { position: prev.position, length: prev.length + curr.length });
                self.gaps.remove(current_index);
                current_index = current_index - 1;
            }
        }
        let ghost g1 = self.gaps@;
        assert((g1, current_index as int) == merge_with_previous(g0, c as int));
        let current = self.gaps[current_index];
        let curr_end = current.position + current.length;
        if current_index + 1 < self.gaps.len() {
            let next = self.gaps[current_index + 1];
            if next.position == curr_end {
                self.gaps.set(current_index, Gap { position: current.position, length: current.length + next.length });
                self.gaps.remove(current_index + 1);
            }
        }
    }

    /// Index of the entry that holds mesh `id`.
    pub(crate) fn find_entry(&self, id: MeshId) -> (r: Option<usize>)
        ensures
            match r {
                Some(i) => i < self.data@.len() && self.data@[i as int].id == id,
                None => !has_id(self.data@, id),
            },
    {
        let mut i: usize = 0;
        while i < self.data.len()
            invariant
                i <= self.data@.len(),
                forall|j: int| 0 <= j < i ==> (#[trigger] self.data@[j]).id != id,
            decreases self.data@.len() - i,
        {
            if self.data[i].id == id {
                return Some(i);
            }
            i = i + 1;
        }
        None
    }

    /// Drops the pending writes of mesh `id`.
    fn discard_writes_of(&mut self, id: MeshId)
        requires
            forall|w: int|
                0 <= w < old(self).write_operations@.len() ==> {
                    &&& (#[trigger] old(self).write_operations@[w]).arena_offset + old(self).write_operations@[w].len
                        <= old(self).arena@.len()
                    &&& old(self).write_operations@[w].offset + old(self).write_operations@[w].len <= old(self).capacity
                },
        ensures
            final(self).write_operations@ == old(self).write_operations@.filter(|w: WriteOperation| w.mesh_id != id),
            forall|w: int|
                0 <= w < final(self).write_operations@.len() ==> {
                    &&& (#[trigger] final(self).write_operations@[w]).arena_offset + final(self).write_operations@[w].len
                        <= final(self).arena@.len()
                    &&& final(self).write_operations@[w].offset + final(self).write_operations@[w].len <= final(self).capacity
                },
            final(self).capacity == old(self).capacity,
            final(self).data@ == old(self).data@,
            final(self).gaps@ == old(self).gaps@,
            final(self).next_id == old(self).next_id,
            final(self).free_ids@ == old(self).free_ids@,
            final(self).commands@ == old(self).commands@,
            final(self).arena@ == old(self).arena@,
            final(self).schedule_batch == old(self).schedule_batch,
    {
        let ghost ops = self.write_operations@;
        let ghost pred = |w: WriteOperation| w.mesh_id != id;
        let mut kept: Vec<WriteOperation> = Vec::new();
        let mut i: usize = 0;
        proof {
            reveal(Seq::filter);
            assert(ops.take(0) =~= Seq::<WriteOperation>::empty());
        }
        while i < self.write_operations.len()
            invariant
                i <= ops.len(),
                self.write_operations@ == ops,
                kept@ == ops.take(i as int).filter(pred),
                pred == (|w: WriteOperation| w.mesh_id != id),
                forall|w: int|
                    0 <= w < kept@.len() ==> {
                        &&& (#[trigger] kept@[w]).arena_offset + kept@[w].len <= self.arena@.len()
                        &&& kept@[w].offset + kept@[w].len <= self.capacity
                    },
                forall|w: int|
                    0 <= w < ops.len() ==> {
                        &&& (#[trigger] ops[w]).arena_offset + ops[w].len <= self.arena@.len()
                        &&& ops[w].offset + ops[w].len <= self.capacity
                    },
            decreases ops.len() - i,
        {
            let op = self.write_operations[i];
            proof {
                reveal(Seq::filter);
                assert(ops.take(i + 1).drop_last() =~= ops.take(i as int));
                assert(ops.take(i + 1).last() == op);
            }
            if op.mesh_id != id {
                kept.push(op);
            }
            i = i + 1;
        }
        proof {
            assert(ops.take(ops.len() as int) =~= ops);
        }
        self.write_operations = kept;
    }

    /// Frees the region of mesh `id`: it becomes a gap, merged with the gaps
    /// it touches, its pending writes are dropped and its id can be reused.
    pub fn free_data(&mut self, id: MeshId) -> (r: Result<(), AllocError>)
        requires
            old(self).wf(),
        ensures
            final(self).wf(),
            freed(*old(self), *final(self), id, r),
    {
        let data_index = match self.find_entry(id) {
            Some(i) => i,
            None => {
                return Err(AllocError::InvalidId);
            },
        };
        let ghost old_data = self.data@;
        let ghost old_gaps = self.gaps@;
        let entry = self.data[data_index];
        let (position, length) = (entry.position, entry.length);
        let gap = Gap::new(position, length);
        let ghost cap = self.capacity as int;
        self.insert_gap_after(gap, position);
        let ghost gaps1 = self.gaps@;
        let ghost k = choose|k: int| gap_insertion_index(old_gaps, position as int, k) && gaps1 == old_gaps.insert(k, gap);
        let ghost rest = old_data.remove(data_index as int);
        proof {
            assert(gaps_fit(gaps1, cap)) by {
                assert forall|a: int| 0 <= a < gaps1.len() implies #[trigger] gaps1[a].position + gaps1[a].length <= cap by {
                    if a < k { assert(gaps1[a] == old_gaps[a]); } else if a > k { assert(gaps1[a] == old_gaps[a - 1]); }
                }
                assert forall|a: int, b: int| 0 <= a < b < gaps1.len() implies gaps_disjoint(#[trigger] gaps1[a], #[trigger] gaps1[b]) by {
                    let oa = if a < k { a } else { a - 1 };
                    let ob = if b < k { b } else { b - 1 };
                    if a == k {
                        assert(entry_gap_disjoint(old_data[data_index as int], old_gaps[ob]));
                    } else if b == k {
                        assert(entry_gap_disjoint(old_data[data_index as int], old_gaps[oa]));
                    } else {
                        assert(gaps1[a] == old_gaps[oa]);
                        assert(gaps1[b] == old_gaps[ob]);
                    }
                }
            }
            assert(entries_apart_from_gaps(rest, gaps1)) by {
                assert forall|i: int, a: int| 0 <= i < rest.len() && 0 <= a < gaps1.len() implies entry_gap_disjoint(#[trigger] rest[i], #[trigger] gaps1[a]) by {
                    let oi = if i < data_index { i } else { i + 1 };
                    assert(rest[i] == old_data[oi]);
                    if a == k {
                        if oi < data_index {
                            assert(entries_disjoint(old_data[oi], old_data[data_index as int]));
                        } else {
                            assert(entries_disjoint(old_data[data_index as int], old_data[oi]));
                        }
                    } else if a < k {
                        assert(gaps1[a] == old_gaps[a]);
                    } else {
                        assert(gaps1[a] == old_gaps[a - 1]);
                    }
                }
            }
            lemma_merged_around(gaps1, rest, position as int, cap);
            assert(free_set(gaps1) =~= free_set(old_gaps) + set_int_range(position as int, position + length)) by {
                assert forall|x: int| free_set(gaps1).contains(x) == (free_set(old_gaps) + set_int_range(position as int, position + length)).contains(x) by {
                    if free_set(gaps1).contains(x) {
                        let a = choose|a: int| 0 <= a < gaps1.len() && #[trigger] in_gap(gaps1[a], x);
                        if a < k { assert(gaps1[a] == old_gaps[a]); assert(in_gap(old_gaps[a], x)); }
                        else if a > k { assert(gaps1[a] == old_gaps[a - 1]); assert(in_gap(old_gaps[a - 1], x)); }
                    }
                    if free_set(old_gaps).contains(x) {
                        let a = choose|a: int| 0 <= a < old_gaps.len() && #[trigger] in_gap(old_gaps[a], x);
                        if a < k { assert(gaps1[a] == old_gaps[a]); assert(in_gap(gaps1[a], x)); }
                        else { assert(gaps1[a + 1] == old_gaps[a]); assert(in_gap(gaps1[a + 1], x)); }
                    }
                    if set_int_range(position as int, position + length).contains(x) {
                        assert(in_gap(gaps1[k], x));
                    }
                }
            }
        }
        self.try_merge_gap(position);
        self.data.remove(data_index);
        self.discard_writes_of(id);
        self.free_ids.push(id);
        proof {
            let d = self.data@;
            assert(d == rest);
            assert(entries_fit(d, cap)) by {
                assert forall|i: int| 0 <= i < d.len() implies #[trigger] d[i].position + d[i].length <= cap by {
                    if i < data_index { assert(d[i] == old_data[i]); } else { assert(d[i] == old_data[i + 1]); }
                }
                assert forall|i: int, j: int| 0 <= i < j < d.len() implies entries_disjoint(#[trigger] d[i], #[trigger] d[j]) by {
                    let oi = if i < data_index { i } else { i + 1 };
                    let oj = if j < data_index { j } else { j + 1 };
                    assert(d[i] == old_data[oi]);
                    assert(d[j] == old_data[oj]);
                }
            }
            assert forall|i: int, j: int| 0 <= i < j < d.len() implies (#[trigger] d[i]).position <= (#[trigger] d[j]).position && d[i].id != d[j].id by {
                let oi = if i < data_index { i } else { i + 1 };
                let oj = if j < data_index { j } else { j + 1 };
                assert(d[i] == old_data[oi]);
                assert(d[j] == old_data[oj]);
            }
            let f = self.free_ids@;
            let of = old(self).free_ids@;
            assert forall|i: int, j: int| 0 <= i < j < f.len() implies #[trigger] f[i] != #[trigger] f[j] by {
                if j == f.len() - 1 {
                    assert(f[i] == of[i]);
                    assert(old_data[data_index as int].id != of[i]);
                }
            }
            assert forall|i: int, a: int| 0 <= i < d.len() && 0 <= a < f.len() implies (#[trigger] d[i]).id != #[trigger] f[a] by {
                let oi = if i < data_index { i } else { i + 1 };
                assert(d[i] == old_data[oi]);
                if a == f.len() - 1 {
                    if oi < data_index { assert(old_data[oi].id != old_data[data_index as int].id); }
                    else { assert(old_data[data_index as int].id != old_data[oi].id); }
                } else {
                    assert(f[a] == of[a]);
                }
            }
            assert forall|i: int| 0 <= i < d.len() implies (#[trigger] d[i]).id < self.next_id by {
                let oi = if i < data_index { i } else { i + 1 };
                assert(d[i] == old_data[oi]);
            }
            assert forall|a: int| 0 <= a < f.len() implies #[trigger] f[a] < self.next_id by {
                if a < f.len() - 1 { assert(f[a] == of[a]); }
            }
            assert(old_data[data_index as int].id == id);
        }
        Ok(())
    }

    /// Joins the pending writes that continue one another.
    fn batch_commands(&mut self)
        requires
            ops_in_arena(old(self).write_operations@, old(self).arena@.len() as int),
            forall|w: int| 0 <= w < old(self).write_operations@.len() ==>
                (#[trigger] old(self).write_operations@[w]).offset + old(self).write_operations@[w].len <= old(self).capacity,
        ensures
            final(self).write_operations@ == batched(old(self).write_operations@),
            final(self).capacity == old(self).capacity,
            final(self).data@ == old(self).data@,
            final(self).gaps@ == old(self).gaps@,
            final(self).next_id == old(self).next_id,
            final(self).free_ids@ == old(self).free_ids@,
            final(self).commands@ == old(self).commands@,
            final(self).arena@ == old(self).arena@,
            final(self).schedule_batch == old(self).schedule_batch,
    {
        let ghost ops = self.write_operations@;
        let ghost cap = self.capacity as int;
        let arena_len = self.arena.len();
        let mut acc: Vec<WriteOperation> = Vec::new();
        let mut i: usize = 0;
        proof {
            assert(ops.take(0) =~= Seq::<WriteOperation>::empty());
        }
        while i < self.write_operations.len()
            invariant
                i <= ops.len(),
                self.write_operations@ == ops,
                acc@ == batched(ops.take(i as int)),
                ops_in_arena(ops, self.arena@.len() as int),
                forall|w: int| 0 <= w < ops.len() ==> (#[trigger] ops[w]).offset + ops[w].len <= cap,
                cap == self.capacity,
                arena_len == self.arena@.len(),
            decreases ops.len() - i,
        {
            let op = self.write_operations[i];
            let ghost pre = ops.take(i as int);
            proof {
                assert(ops.take(i + 1).drop_last() =~= pre);
                assert(ops.take(i + 1).last() == op);
                assert forall|w: int| 0 <= w < pre.len() implies (#[trigger] pre[w]).arena_offset + pre[w].len
                    <= self.arena@.len() && pre[w].offset + pre[w].len <= cap by {
                    assert(pre[w] == ops[w]);
                }
                lemma_batched_bounds(pre, self.arena@.len() as int, cap);
            }
            let n = acc.len();
            if n > 0 {
                let last = acc[n - 1];
                proof {
                    assert(acc@[n - 1] == acc@.last());
                }
                if last.arena_offset + last.len == op.arena_offset && last.offset + last.len == op.offset {
                    acc.set(n - 1, WriteOperation {
                        mesh_id: last.mesh_id,
                        offset: last.offset,
                        len: last.len + op.len,
                        arena_offset: last.arena_offset,
                    });
                    i = i + 1;
                    continue;
                }
            }
            acc.push(op);
            i = i + 1;
        }
        proof {
            assert(ops.take(ops.len() as int) =~= ops);
        }
        self.write_operations = acc;
    }

    /// Turns the pending writes, batched when a batch is scheduled, into GPU
    /// buffer writes, and empties the staging arena.
    pub fn flush(&mut self)
        requires
            old(self).wf(),
        ensures
            final(self).wf(),
            flushed(*old(self), *final(self)),
    {
        if self.write_operations.len() == 0 {
            return;
        }
        let ghost old_ops = self.write_operations@;
        let arena_len0 = self.arena.len();
        if self.schedule_batch {
            self.batch_commands();
            self.schedule_batch = false;
            proof {
                lemma_batched_bounds(old_ops, self.arena@.len() as int, self.capacity as int);
            }
        }
        let ghost emitted = self.write_operations@;
        let ghost base = self.commands@;
        let arena_len = self.arena.len();
        let mut w: usize = 0;
        while w < self.write_operations.len()
            invariant
                w <= emitted.len(),
                self.write_operations@ == emitted,
                ops_in_arena(emitted, self.arena@.len() as int),
                arena_len == self.arena@.len(),
                self.arena@ == old(self).arena@,
                self.capacity == old(self).capacity,
                self.data@ == old(self).data@,
                self.gaps@ == old(self).gaps@,
                self.next_id == old(self).next_id,
                self.free_ids@ == old(self).free_ids@,
                !self.schedule_batch,
                emitted == if old(self).schedule_batch { batched(old(self).write_operations@) } else { old(self).write_operations@ },
                base == old(self).commands@,
                self.commands@.len() == base.len() + w,
                forall|i: int| 0 <= i < base.len() ==> #[trigger] self.commands@[i] == base[i],
                forall|i: int|
                    0 <= i < w ==> (#[trigger] self.commands@[base.len() + i] matches GpuCommand::WriteBuffer {
                        offset,
                        data,
                    } && offset == emitted[i].offset && data@ == op_bytes(self.arena@, emitted[i])),
            decreases emitted.len() - w,
        {
            let op = self.write_operations[w];
            let mut bytes: Vec<u8> = Vec::new();
            let mut j: usize = 0;
            while j < op.len
                invariant
                    j <= op.len,
                    op.arena_offset + op.len <= self.arena@.len(),
                    arena_len == self.arena@.len(),
                    bytes@ == self.arena@.subrange(op.arena_offset as int, op.arena_offset + j),
                decreases op.len - j,
            {
                bytes.push(self.arena[op.arena_offset + j]);
                j = j + 1;
                proof {
                    assert(bytes@ =~= self.arena@.subrange(op.arena_offset as int, op.arena_offset + j));
                }
            }
            self.commands.push(GpuCommand::WriteBuffer { offset: op.offset, data: bytes });
            w = w + 1;
        }
        self.write_operations.clear();
        self.arena.clear();
    }

    /// Moves every mesh into a new buffer able to hold `needed` bytes, back
    /// to back in their current order, leaving one gap at the end.
    fn reallocate_defragment(&mut self, needed: usize)
        requires
            old(self).wf(),
            total_len(old(self).data@) <= needed <= MAX_GROWABLE_BYTES,
        ensures
            final(self).wf(),
            final(self).capacity == grown_capacity(needed as int),
            final(self).data@ == packed(old(self).data@),
            final(self).gaps@ == seq![
                Gap {
                    position: total_len(old(self).data@) as usize,
                    length: (grown_capacity(needed as int) - total_len(old(self).data@)) as usize,
                },
            ],
            is_reallocation(
                final(self).commands@,
                old(self).commands@,
                old(self).write_operations@,
                old(self).schedule_batch,
                old(self).arena@,
                old(self).data@,
                needed as int,
            ),
            final(self).write_operations@.len() == 0,
            old(self).write_operations@.len() > 0 ==> final(self).arena@.len() == 0 && !final(self).schedule_batch,
            old(self).write_operations@.len() == 0 ==> final(self).arena@ == old(self).arena@
                && final(self).schedule_batch == old(self).schedule_batch,
            final(self).next_id == old(self).next_id,
            final(self).free_ids@ == old(self).free_ids@,
    {
        let ghost old_data = self.data@;
        proof {
            lemma_packed(old_data);
            lemma_total_len_bounded(old_data, self.capacity as int);
        }
        if self.write_operations.len() > 0 {
            self.flush();
        }
        let ghost n1 = self.commands@.len();
        let capacity = single_grown_capacity_exec(needed as u32);
        proof {
            lemma_single_grown_capacity_bounds(needed as nat);
        }
        assert(capacity == grown_capacity(needed as int));
        self.commands.push(GpuCommand::Reallocate { capacity });
        let ghost cmds1 = self.commands@;
        let ghost arena1 = self.arena@;
        let ghost sb1 = self.schedule_batch;
        let mut current: usize = 0;
        let mut i: usize = 0;
        proof {
            assert(old_data.take(0) =~= Seq::<MeshEntry>::empty());
            assert(packed(old_data).take(0) + old_data.skip(0) =~= old_data);
        }
        while i < self.data.len()
            invariant
                i <= old_data.len(),
                self.data@.len() == old_data.len(),
                self.data@ == packed(old_data).take(i as int) + old_data.skip(i as int),
                current == total_len(old_data.take(i as int)),
                total_len(old_data) <= needed,
                self.commands@.len() == cmds1.len() + i,
                cmds1.len() == n1 + 1,
                forall|j: int| 0 <= j < cmds1.len() ==> #[trigger] self.commands@[j] == cmds1[j],
                forall|k: int|
                    0 <= k < i ==> (#[trigger] self.commands@[cmds1.len() + k] matches GpuCommand::CopyFromPrevious {
                        from,
                        to,
                        length,
                    } && from == old_data[k].position && to == packed(old_data)[k].position && length
                        == old_data[k].length),
                self.gaps@ == old(self).gaps@ || old(self).write_operations@.len() > 0,
                gaps_fit(self.gaps@, old(self).capacity as int),
                self.capacity == old(self).capacity,
                self.next_id == old(self).next_id,
                self.free_ids@ == old(self).free_ids@,
                self.write_operations@.len() == 0 || old(self).write_operations@.len() == 0,
                self.write_operations@ == old(self).write_operations@ || old(self).write_operations@.len() > 0,
                self.arena@ == arena1,
                self.schedule_batch == sb1,
            decreases old_data.len() - i,
        {
            let e = self.data[i];
            proof {
                assert(self.data@[i as int] == old_data[i as int]);
                lemma_total_len_take_step(old_data, i as int);
                lemma_total_len_take_mono(old_data, i + 1, old_data.len() as int);
                assert(old_data.take(old_data.len() as int) =~= old_data);
            }
            self.commands.push(GpuCommand::CopyFromPrevious { from: e.position, to: current, length: e.length });
            self.data.set(i, MeshEntry { id: e.id, position: current, length: e.length });
            current = current + e.length;
            i = i + 1;
            proof {
                assert(self.data@ =~= packed(old_data).take(i as int) + old_data.skip(i as int));
            }
        }
        self.gaps.clear();
        self.gaps.push(Gap::new(current, capacity as usize - current));
        self.capacity = capacity;
        proof {
            let d = self.data@;
            let p = packed(old_data);
            assert(old_data.take(old_data.len() as int) =~= old_data);
            assert(packed(old_data).take(old_data.len() as int) + old_data.skip(old_data.len() as int) =~= p);
            assert(d == p);
            assert forall|i: int, j: int| 0 <= i < j < d.len() implies entries_disjoint(#[trigger] d[i], #[trigger] d[j])
                && d[i].position <= d[j].position && d[i].id != d[j].id by {
                assert(old_data[i].id != old_data[j].id);
            }
            assert forall|i: int, k: int| 0 <= i < d.len() && 0 <= k < self.gaps@.len() implies entry_gap_disjoint(#[trigger] d[i], #[trigger] self.gaps@[k]) by {
            }
            assert forall|i: int| 0 <= i < d.len() implies (#[trigger] d[i]).id < self.next_id by {
                assert(d[i].id == old_data[i].id);
            }
            assert forall|i: int, k: int| 0 <= i < d.len() && 0 <= k < self.free_ids@.len() implies (#[trigger] d[i]).id != #[trigger] self.free_ids@[k] by {
                assert(d[i].id == old_data[i].id);
            }
        }
    }

    /// Whether storing `n` more bytes needs a larger buffer.
    pub open spec fn must_grow(&self, n: int) -> bool {
        no_fit(self.gaps@, n)
    }

    /// Bytes that the buffer must hold after storing `n` more bytes.
    pub open spec fn needed_for(&self, n: int) -> int {
        total_len(self.data@) + n
    }

    /// The entries among which `n` more bytes get placed.
    pub open spec fn data_before_place(&self, n: int) -> Seq<MeshEntry> {
        if self.must_grow(n) { packed(self.data@) } else { self.data@ }
    }

    /// The gaps among which `n` more bytes get placed.
    pub open spec fn gaps_before_place(&self, n: int) -> Seq<Gap> {
        placement_gaps(self.data@, self.gaps@, n)
    }

    /// The staged bytes before `n` more bytes get staged.
    pub open spec fn arena_before_place(&self, n: int) -> Seq<u8> {
        if self.must_grow(n) && self.write_operations@.len() > 0 { Seq::<u8>::empty() } else { self.arena@ }
    }

    /// The pending writes before the write of `n` more bytes.
    pub open spec fn ops_before_place(&self, n: int) -> Seq<WriteOperation> {
        if self.must_grow(n) { Seq::<WriteOperation>::empty() } else { self.write_operations@ }
    }

    /// Stores `data` as a new mesh in the first gap that can hold it; when
    /// none can, first moves every mesh into a larger buffer. Gives the new
    /// mesh's id.
    pub fn add_data(&mut self, data: &[u8]) -> (r: Result<MeshId, AllocError>)
        requires
            old(self).wf(),
            old(self).can_issue_id(),
            old(self).must_grow(data@.len() as int) ==> old(self).needed_for(data@.len() as int) <= MAX_GROWABLE_BYTES,
        ensures
            final(self).wf(),
            added(*old(self), *final(self), data@, r),
    {
        let n = data.len();
        let mut index = self.find_place(n);
        if index.is_none() {
            let needed = self.total_data_length() + n;
            self.reallocate_defragment(needed);
            index = self.find_place(n);
            proof {
                lemma_total_len_bounded(old(self).data@, old(self).capacity as int);
                lemma_single_grown_capacity_bounds(needed as nat);
                assert(self.gaps@[0].length >= n);
            }
        }
        let ghost mid = *self;
        proof {
            assert(mid.data@ == old(self).data_before_place(n as int));
            assert(mid.gaps@ == old(self).gaps_before_place(n as int));
            assert(mid.arena@ == old(self).arena_before_place(n as int));
            assert(mid.write_operations@ == old(self).ops_before_place(n as int));
        }
        let index = match index {
            Some(k) => k,
            None => {
                return Err(AllocError::NotEnoughSpace);
            },
        };
        let g = self.gaps[index];
        let position = g.position;
        let gap_length = g.length;
        let new_gap = Gap { position: g.position + n, length: g.length - n };
        self.gaps.set(index, new_gap);
        if gap_length == 0 {
            self.gaps.remove(index);
        }
        let id = self.get_new_id();
        self.write_at(position, data, id);
        let entry = MeshEntry { id, position, length: n };
        let mut ins: usize = 0;
        while ins < self.data.len() && self.data[ins].position <= position
            invariant
                ins <= self.data@.len(),
                forall|j: int| 0 <= j < ins ==> (#[trigger] self.data@[j]).position <= position,
            decreases self.data@.len() - ins,
        {
            ins = ins + 1;
        }
        assert(entry_insertion_index(self.data@, position as int, ins as int));
        self.data.insert(ins, entry);
        proof {
            lemma_place_entry(mid.data@, mid.gaps@, mid.capacity as int, index as int, n as int, id, ins as int);
            Self::lemma_place_ids(mid, id, ins as int, position, n);
            assert(self.gaps@ == place_gaps(mid.gaps@, index as int, n as int));
        }
        Ok(id)
    }

    /// The identifier handed out for a new entry keeps identifiers unique.
    proof fn lemma_place_ids(mid: MeshManager, id: MeshId, ins: int, position: usize, n: usize)
        requires
            mid.wf(),
            mid.can_issue_id(),
            mid.free_ids@.len() > 0 ==> id == mid.free_ids@.last(),
            mid.free_ids@.len() == 0 ==> id == mid.next_id,
            0 <= ins <= mid.data@.len(),
        ensures
            ({
                let d2 = mid.data@.insert(ins, MeshEntry { id, position, length: n });
                let f2 = if mid.free_ids@.len() > 0 { mid.free_ids@.drop_last() } else { mid.free_ids@ };
                let next2 = if mid.free_ids@.len() > 0 { mid.next_id } else { (mid.next_id + 1) as u32 };
                &&& forall|i: int, j: int| 0 <= i < j < d2.len() ==> (#[trigger] d2[i]).id != (#[trigger] d2[j]).id
                &&& forall|i: int, j: int| 0 <= i < j < f2.len() ==> #[trigger] f2[i] != #[trigger] f2[j]
                &&& forall|i: int, k: int| 0 <= i < d2.len() && 0 <= k < f2.len() ==> (#[trigger] d2[i]).id != #[trigger] f2[k]
                &&& forall|i: int| 0 <= i < d2.len() ==> (#[trigger] d2[i]).id < next2
                &&& forall|k: int| 0 <= k < f2.len() ==> #[trigger] f2[k] < next2
            }),
    {
        let d = mid.data@;
        let f = mid.free_ids@;
        let d2 = d.insert(ins, MeshEntry { id, position, length: n });
        let f2 = if f.len() > 0 { f.drop_last() } else { f };
        let next2 = if f.len() > 0 { mid.next_id } else { (mid.next_id + 1) as u32 };
        assert forall|i: int, j: int| 0 <= i < j < d2.len() implies (#[trigger] d2[i]).id != (#[trigger] d2[j]).id by {
            let oi = if i < ins { i } else { i - 1 };
            let oj = if j < ins { j } else { j - 1 };
            if i == ins {
                assert(d2[j] == d[oj]);
                if f.len() > 0 { assert(d[oj].id != f[f.len() - 1]); }
            } else if j == ins {
                assert(d2[i] == d[oi]);
                if f.len() > 0 { assert(d[oi].id != f[f.len() - 1]); }
            } else {
                assert(d2[i] == d[oi]);
                assert(d2[j] == d[oj]);
            }
        }
        assert forall|i: int, j: int| 0 <= i < j < f2.len() implies #[trigger] f2[i] != #[trigger] f2[j] by {
            assert(f2[i] == f[i]);
            assert(f2[j] == f[j]);
        }
        assert forall|i: int, k: int| 0 <= i < d2.len() && 0 <= k < f2.len() implies (#[trigger] d2[i]).id != #[trigger] f2[k] by {
            assert(f2[k] == f[k]);
            if i == ins {
                assert(f[k] != f[f.len() - 1]);
            } else {
                let oi = if i < ins { i } else { i - 1 };
                assert(d2[i] == d[oi]);
            }
        }
        assert forall|i: int| 0 <= i < d2.len() implies (#[trigger] d2[i]).id < next2 by {
            if i == ins {
                if f.len() > 0 { assert(f[f.len() - 1] < mid.next_id); }
            } else {
                let oi = if i < ins { i } else { i - 1 };
                assert(d2[i] == d[oi]);
            }
        }
        assert forall|k: int| 0 <= k < f2.len() implies #[trigger] f2[k] < next2 by {
            assert(f2[k] == f[k]);
        }
    }

    /// Rewrites entry `index` in place with `entry`'s bytes, no longer than
    /// its current ones; the freed tail joins the gap that follows the
    /// entry, or becomes a new gap.
    fn shrink_in_place(&mut self, index: usize, entry: &DataEntry)
        requires
            old(self).wf(),
            index < old(self).data@.len(),
            old(self).data@[index as int].id == entry.id,
            entry.data@.len() <= old(self).data@[index as int].length,
        ensures
            final(self).wf(),
            ({
                let e = old(self).data@[index as int];
                let n = entry.data@.len() as int;
                let end = e.position + e.length;
                &&& final(self).data@ == old(self).data@.update(index as int, MeshEntry { id: e.id, position: e.position, length: n as usize })
                &&& final(self).gaps@ == if n == e.length {
                    old(self).gaps@
                } else if exists|c: int| is_first_gap_at(old(self).gaps@, end, c) {
                    let c = choose|c: int| is_first_gap_at(old(self).gaps@, end, c);
                    old(self).gaps@.update(c, Gap { position: (e.position + n) as usize, length: (old(self).gaps@[c].length + e.length - n) as usize })
                } else {
                    let k = choose|k: int| gap_insertion_index(old(self).gaps@, e.position as int, k);
                    old(self).gaps@.insert(k, Gap { position: (e.position + n) as usize, length: (e.length - n) as usize })
                }
                &&& final(self).write_operations@ == old(self).write_operations@.push(
                    WriteOperation { mesh_id: entry.id, offset: e.position, len: n as usize, arena_offset: old(self).arena@.len() as usize },
                )
                &&& final(self).arena@ == old(self).arena@ + entry.data@
            }),
            final(self).schedule_batch,
            final(self).capacity == old(self).capacity,
            final(self).next_id == old(self).next_id,
            final(self).free_ids@ == old(self).free_ids@,
            final(self).commands@ == old(self).commands@,
    {
        let ghost cap = self.capacity as int;
        let e = self.data[index];
        let position = e.position;
        let old_len = e.length;
        let new_len = entry.data.len();
        let ghost d0 = self.data@;
        let ghost g0 = self.gaps@;
        let ghost end0 = position + old_len;
        proof {
            assert(d0[index as int].position + d0[index as int].length <= cap);
        }
        self.write_at(position, entry.data, entry.id);
        if new_len < old_len {
            match self.get_data_next_gap(&e) {
                Some(k) => {
                    let g = self.gaps[k];
                    let delta = old_len - new_len;
                    self.gaps.set(k, Gap { position: g.position - delta, length: g.length + delta });
                    proof {
                        let end = position + old_len;
                        assert(is_first_gap_at(g0, end, k as int));
                        assert forall|c2: int| is_first_gap_at(g0, end, c2) implies c2 == k by {
                            if c2 < k { assert(g0[c2].position != end); }
                            else if c2 > k { assert(g0[k as int].position != end); }
                        }
                        let ng = self.gaps@[k as int];
                        assert forall|a: int| 0 <= a < self.gaps@.len() && a != k implies gaps_disjoint(#[trigger] self.gaps@[a], ng) && gaps_disjoint(ng, self.gaps@[a]) by {
                            assert(self.gaps@[a] == g0[a]);
                            assert(entry_gap_disjoint(d0[index as int], g0[a]));
                            if a < k { assert(gaps_disjoint(g0[a], g0[k as int])); } else { assert(gaps_disjoint(g0[k as int], g0[a])); }
                        }
                        assert forall|i: int| 0 <= i < d0.len() && i != index implies entry_gap_disjoint(#[trigger] d0[i], ng) by {
                            assert(entry_gap_disjoint(d0[i], g0[k as int]));
                            if i < index { assert(entries_disjoint(d0[i], d0[index as int])); } else { assert(entries_disjoint(d0[index as int], d0[i])); }
                        }
                    }
                },
                None => {
                    proof {
                        assert(!exists|c: int| is_first_gap_at(g0, end0, c));
                        assert forall|a: int| 0 <= a < g0.len() implies gaps_disjoint(#[trigger] g0[a], Gap { position: (position + new_len) as usize, length: (old_len - new_len) as usize }) by {
                            assert(entry_gap_disjoint(d0[index as int], g0[a]));
                        }
                    }
                    self.insert_gap_after(Gap::new(position + new_len, old_len - new_len), position);
                },
            }
        }
        self.data.set(index, MeshEntry { id: e.id, position, length: new_len });
    }

    /// Rewrites entry `index` with `entry`'s longer bytes, spreading into the
    /// gap `k` that follows it.
    fn grow_in_place(&mut self, index: usize, k: usize, entry: &DataEntry)
        requires
            old(self).wf(),
            index < old(self).data@.len(),
            old(self).data@[index as int].id == entry.id,
            k < old(self).gaps@.len(),
            old(self).gaps@[k as int].position == old(self).data@[index as int].position + old(self).data@[index as int].length,
            entry.data@.len() <= old(self).data@[index as int].length + old(self).gaps@[k as int].length,
        ensures
            final(self).wf(),
            ({
                let e = old(self).data@[index as int];
                let g = old(self).gaps@[k as int];
                let n = entry.data@.len() as int;
                let rest = e.length + g.length - n;
                &&& final(self).data@ == old(self).data@.update(index as int, MeshEntry { id: e.id, position: e.position, length: n as usize })
                &&& final(self).gaps@ == if rest == 0 {
                    old(self).gaps@.remove(k as int)
                } else {
                    old(self).gaps@.update(k as int, Gap { position: (e.position + n) as usize, length: rest as usize })
                }
                &&& final(self).write_operations@ == old(self).write_operations@.push(
                    WriteOperation { mesh_id: entry.id, offset: e.position, len: n as usize, arena_offset: old(self).arena@.len() as usize },
                )
                &&& final(self).arena@ == old(self).arena@ + entry.data@
            }),
            final(self).schedule_batch,
            final(self).capacity == old(self).capacity,
            final(self).next_id == old(self).next_id,
            final(self).free_ids@ == old(self).free_ids@,
            final(self).commands@ == old(self).commands@,
    {
        let ghost cap = self.capacity as int;
        let ghost d0 = self.data@;
        let ghost g0 = self.gaps@;
        let e = self.data[index];
        let position = e.position;
        let old_len = e.length;
        let new_len = entry.data.len();
        let gap_length = self.gaps[k].length;
        proof {
            assert(g0[k as int].position + g0[k as int].length <= cap);
        }
        self.write_at(position, entry.data, entry.id);
        let ng = Gap { position: position + new_len, length: old_len + gap_length - new_len };
        self.gaps.set(k, ng);
        if ng.length == 0 {
            self.gaps.remove(k);
        }
        self.data.set(index, MeshEntry { id: e.id, position, length: new_len });
        proof {
            let d = self.data@;
            let g = self.gaps@;
            let ne = d[index as int];
            assert forall|a: int| 0 <= a < g0.len() && a != k implies gaps_disjoint(g0[a], ng) && entry_gap_disjoint(ne, #[trigger] g0[a]) by {
                assert(entry_gap_disjoint(d0[index as int], g0[a]));
                if a < k { assert(gaps_disjoint(g0[a], g0[k as int])); } else { assert(gaps_disjoint(g0[k as int], g0[a])); }
                lemma_disjoint_from_union(g0[a].position as int, g0[a].length as int, position as int, old_len as int, gap_length as int);
            }
            assert forall|i: int| 0 <= i < d0.len() && i != index implies entry_gap_disjoint(#[trigger] d0[i], ng) && entries_disjoint(d0[i], ne) by {
                assert(entry_gap_disjoint(d0[i], g0[k as int]));
                if i < index { assert(entries_disjoint(d0[i], d0[index as int])); } else { assert(entries_disjoint(d0[index as int], d0[i])); }
                lemma_disjoint_from_union(d0[i].position as int, d0[i].length as int, position as int, old_len as int, gap_length as int);
            }
            assert(entries_fit(d, cap)) by {
                assert forall|i: int, j: int| 0 <= i < j < d.len() implies entries_disjoint(#[trigger] d[i], #[trigger] d[j]) by {
                    if i != index && j != index { assert(d[i] == d0[i]); assert(d[j] == d0[j]); }
                }
            }
            assert(gaps_fit(g, cap)) by {
                assert forall|a: int, b: int| 0 <= a < b < g.len() implies gaps_disjoint(#[trigger] g[a], #[trigger] g[b]) by {
                    if ng.length == 0 {
                        let oa = if a < k { a } else { a + 1 };
                        let ob = if b < k { b } else { b + 1 };
                        assert(g[a] == g0[oa]);
                        assert(g[b] == g0[ob]);
                    } else if a != k && b != k {
                        assert(g[a] == g0[a]);
                        assert(g[b] == g0[b]);
                    } else if a == k {
                        assert(g[b] == g0[b]);
                    } else {
                        assert(g[a] == g0[a]);
                    }
                }
            }
            assert(entries_apart_from_gaps(d, g)) by {
                assert forall|i: int, a: int| 0 <= i < d.len() && 0 <= a < g.len() implies entry_gap_disjoint(#[trigger] d[i], #[trigger] g[a]) by {
                    let oa = if ng.length == 0 && a >= k { a + 1 } else { a };
                    if ng.length == 0 || a != k {
                        assert(g[a] == g0[oa]);
                        if i != index { assert(d[i] == d0[i]); }
                    } else if i != index {
                        assert(d[i] == d0[i]);
                    }
                }
            }
        }
    }

    /// Gives up the region of entry `index`: it joins the gap that follows
    /// it, or becomes a new gap, and the entry is dropped.
    fn release_entry(&mut self, index: usize)
        requires
            old(self).wf(),
            index < old(self).data@.len(),
        ensures
            final(self).wf(),
            ({
                let e = old(self).data@[index as int];
                let end = e.position + e.length;
                &&& final(self).data@ == old(self).data@.remove(index as int)
                &&& final(self).gaps@ == if exists|c: int| is_first_gap_at(old(self).gaps@, end, c) {
                    let c = choose|c: int| is_first_gap_at(old(self).gaps@, end, c);
                    old(self).gaps@.update(c, Gap { position: e.position, length: (old(self).gaps@[c].length + e.length) as usize })
                } else {
                    let k = choose|k: int| gap_insertion_index(old(self).gaps@, e.position as int, k);
                    old(self).gaps@.insert(k, Gap { position: e.position, length: e.length })
                }
            }),
            final(self).write_operations@ == old(self).write_operations@,
            final(self).arena@ == old(self).arena@,
            final(self).schedule_batch == old(self).schedule_batch,
            final(self).capacity == old(self).capacity,
            final(self).next_id == old(self).next_id,
            final(self).free_ids@ == old(self).free_ids@,
            final(self).commands@ == old(self).commands@,
    {
        let ghost cap = self.capacity as int;
        let ghost d0 = self.data@;
        let ghost g0 = self.gaps@;
        let e = self.data[index];
        let position = e.position;
        let old_len = e.length;
        let ghost end0 = position + old_len;
        proof {
            assert(d0[index as int].position + d0[index as int].length <= cap);
        }
        match self.get_data_next_gap(&e) {
            Some(k) => {
                let gap_length = self.gaps[k].length;
                proof {
                    assert(g0[k as int].position + g0[k as int].length <= cap);
                    assert(is_first_gap_at(g0, end0, k as int));
                    assert forall|c2: int| is_first_gap_at(g0, end0, c2) implies c2 == k by {
                        if c2 < k { assert(g0[c2].position != end0); }
                        else if c2 > k { assert(g0[k as int].position != end0); }
                    }
                }
                let ng = Gap { position, length: gap_length + old_len };
                self.gaps.set(k, ng);
                proof {
                    assert forall|a: int| 0 <= a < g0.len() && a != k implies gaps_disjoint(#[trigger] g0[a], ng) by {
                        assert(entry_gap_disjoint(d0[index as int], g0[a]));
                        if a < k { assert(gaps_disjoint(g0[a], g0[k as int])); } else { assert(gaps_disjoint(g0[k as int], g0[a])); }
                        lemma_disjoint_from_union(g0[a].position as int, g0[a].length as int, position as int, old_len as int, gap_length as int);
                    }
                    assert forall|i: int| 0 <= i < d0.len() && i != index implies entry_gap_disjoint(#[trigger] d0[i], ng) by {
                        assert(entry_gap_disjoint(d0[i], g0[k as int]));
                        if i < index { assert(entries_disjoint(d0[i], d0[index as int])); } else { assert(entries_disjoint(d0[index as int], d0[i])); }
                        lemma_disjoint_from_union(d0[i].position as int, d0[i].length as int, position as int, old_len as int, gap_length as int);
                    }
                }
            },
            None => {
                proof {
                    assert(!exists|c: int| is_first_gap_at(g0, end0, c));
                    assert forall|a: int| 0 <= a < g0.len() implies gaps_disjoint(#[trigger] g0[a], Gap { position, length: old_len }) by {
                        assert(entry_gap_disjoint(d0[index as int], g0[a]));
                    }
                }
                self.insert_gap_after(Gap::new(position, old_len), position);
                proof {
                    let k = choose|k: int| gap_insertion_index(g0, position as int, k) && self.gaps@ == g0.insert(k, Gap { position, length: old_len });
                    assert forall|k2: int| gap_insertion_index(g0, position as int, k2) implies k2 == k by {
                        if k2 < k { assert(g0[k2].position > position); assert(g0[k2].position <= position); }
                        else if k2 > k { assert(g0[k].position > position); assert(g0[k].position <= position); }
                    }
                }
            },
        }
        self.data.remove(index);
        proof {
            let d = self.data@;
            let g = self.gaps@;
            assert(entries_fit(d, cap)) by {
                assert forall|i: int| 0 <= i < d.len() implies #[trigger] d[i].position + d[i].length <= cap by {
                    if i < index { assert(d[i] == d0[i]); } else { assert(d[i] == d0[i + 1]); }
                }
                assert forall|i: int, j: int| 0 <= i < j < d.len() implies entries_disjoint(#[trigger] d[i], #[trigger] d[j]) by {
                    let oi = if i < index { i } else { i + 1 };
                    let oj = if j < index { j } else { j + 1 };
                    assert(d[i] == d0[oi]);
                    assert(d[j] == d0[oj]);
                }
            }
            assert forall|i: int, j: int| 0 <= i < j < d.len() implies (#[trigger] d[i]).position <= (#[trigger] d[j]).position && d[i].id != d[j].id by {
                let oi = if i < index { i } else { i + 1 };
                let oj = if j < index { j } else { j + 1 };
                assert(d[i] == d0[oi]);
                assert(d[j] == d0[oj]);
            }
            assert forall|i: int, a: int| 0 <= i < d.len() && 0 <= a < self.free_ids@.len() implies (#[trigger] d[i]).id != #[trigger] self.free_ids@[a] && d[i].id < self.next_id by {
                let oi = if i < index { i } else { i + 1 };
                assert(d[i] == d0[oi]);
            }
            assert forall|i: int| 0 <= i < d.len() implies (#[trigger] d[i]).id < self.next_id by {
                let oi = if i < index { i } else { i + 1 };
                assert(d[i] == d0[oi]);
            }
            assert(entries_apart_from_gaps(d, g)) by {
                assert forall|i: int, a: int| 0 <= i < d.len() && 0 <= a < g.len() implies entry_gap_disjoint(#[trigger] d[i], #[trigger] g[a]) by {
                    let oi = if i < index { i } else { i + 1 };
                    assert(d[i] == d0[oi]);
                }
            }
        }
    }

    /// Writes `entry`'s bytes at the front of the first gap that can hold
    /// them, first moving every mesh into a larger buffer when none can. No
    /// entry records the written region.
    fn place_detached(&mut self, entry: &DataEntry)
        requires
            old(self).wf(),
            old(self).must_grow(entry.data@.len() as int) ==> old(self).needed_for(entry.data@.len() as int)
                <= MAX_GROWABLE_BYTES,
        ensures
            final(self).wf(),
            detached_placement(*final(self), old(self).data@, old(self).gaps@, old(self).write_operations@,
                old(self).arena@, old(self).schedule_batch, old(self).commands@, old(self).capacity, entry.id, entry.data@),
            final(self).next_id == old(self).next_id,
            final(self).free_ids@ == old(self).free_ids@,
    {
        let n = entry.data.len();
        let mut index = self.find_place(n);
        if index.is_none() {
            let needed = self.total_data_length() + n;
            self.reallocate_defragment(needed);
            index = self.find_place(n);
            proof {
                lemma_total_len_bounded(old(self).data@, old(self).capacity as int);
                lemma_single_grown_capacity_bounds(needed as nat);
                assert(self.gaps@[0].length >= n);
            }
        }
        let ghost mid = *self;
        proof {
            assert(mid.data@ == old(self).data_before_place(n as int));
            assert(mid.gaps@ == old(self).gaps_before_place(n as int));
            assert(mid.arena@ == old(self).arena_before_place(n as int));
            assert(mid.write_operations@ == old(self).ops_before_place(n as int));
        }
        match index {
            Some(k) => {
                proof {
                    assert(mid.gaps@[k as int].position + mid.gaps@[k as int].length <= mid.capacity);
                }
                self.consume_gap_for(k, entry);
                proof {
                    let g = self.gaps@;
                    let g0 = mid.gaps@;
                    let d = self.data@;
                    let cap = self.capacity as int;
                    assert(g == consume_gaps(g0, k as int, n as int));
                    assert(gaps_fit(g, cap)) by {
                        assert forall|a: int| 0 <= a < g.len() implies #[trigger] g[a].position + g[a].length <= cap by {
                            if g0[k as int].length == n {
                                if a < k { assert(g[a] == g0[a]); } else { assert(g[a] == g0[a + 1]); }
                            } else if a != k {
                                assert(g[a] == g0[a]);
                            }
                        }
                        assert forall|a: int, b: int| 0 <= a < b < g.len() implies gaps_disjoint(#[trigger] g[a], #[trigger] g[b]) by {
                            if g0[k as int].length == n {
                                let oa = if a < k { a } else { a + 1 };
                                let ob = if b < k { b } else { b + 1 };
                                assert(g[a] == g0[oa]);
                                assert(g[b] == g0[ob]);
                            } else if a == k {
                                assert(gaps_disjoint(g0[k as int], g0[b]));
                            } else if b == k {
                                assert(gaps_disjoint(g0[a], g0[k as int]));
                            } else {
                                assert(g[a] == g0[a]);
                                assert(g[b] == g0[b]);
                            }
                        }
                    }
                    assert(entries_apart_from_gaps(d, g)) by {
                        assert forall|i: int, a: int| 0 <= i < d.len() && 0 <= a < g.len() implies entry_gap_disjoint(#[trigger] d[i], #[trigger] g[a]) by {
                            if g0[k as int].length == n {
                                let oa = if a < k { a } else { a + 1 };
                                assert(g[a] == g0[oa]);
                            } else if a == k {
                                assert(entry_gap_disjoint(d[i], g0[k as int]));
                            } else {
                                assert(g[a] == g0[a]);
                            }
                        }
                    }
                }
            },
            None => {},
        }
    }

    /// Replaces the bytes of mesh `entry.id`: in place when they fit in its
    /// region (joined with the gap that follows it); otherwise the region is
    /// given up and the bytes are written into the first gap that can hold
    /// them, growing the buffer when none can. In that last case no entry
    /// records the mesh any more.
    pub fn update_data(&mut self, entry: DataEntry) -> (r: Result<(), AllocError>)
        requires
            old(self).wf(),
            update_fits(*old(self), entry.id, entry.data@.len() as int),
        ensures
            final(self).wf(),
            updated(*old(self), *final(self), entry.id, entry.data@, r),
    {
        let index = match self.find_entry(entry.id) {
            Some(i) => i,
            None => {
                return Err(AllocError::InvalidId);
            },
        };
        let e = self.data[index];
        let position = e.position;
        let old_len = e.length;
        let new_len = entry.data.len();
        let ghost end0 = position + old_len;
        proof {
            assert(old(self).data@[index as int].position + old(self).data@[index as int].length <= old(self).capacity);
        }
        if new_len <= old_len {
            self.shrink_in_place(index, &entry);
            return Ok(());
        }
        match self.get_data_next_gap(&e) {
            Some(k) => {
                proof {
                    let g0 = old(self).gaps@;
                    assert(is_first_gap_at(g0, end0, k as int));
                    assert forall|c2: int| is_first_gap_at(g0, end0, c2) implies c2 == k by {
                        if c2 < k { assert(g0[c2].position != end0); }
                        else if c2 > k { assert(g0[k as int].position != end0); }
                    }
                    assert(first_gap_at(g0, end0) == Some(k as int));
                    assert(g0[k as int].position + g0[k as int].length <= old(self).capacity);
                }
                let gap_length = self.gaps[k].length;
                if new_len <= old_len + gap_length {
                    self.grow_in_place(index, k, &entry);
                    return Ok(());
                }
            },
            None => {
                proof {
                    assert(!exists|c: int| is_first_gap_at(old(self).gaps@, end0, c));
                    assert(first_gap_at(old(self).gaps@, end0) is None);
                }
            },
        }
        self.release_entry(index);
        proof {
            assert(self.gaps@ == released_gaps(old(self).gaps@, e));
            lemma_total_len_remove(old(self).data@, index as int);
        }
        self.place_detached(&entry);
        Ok(())
    }

    /// A mesh identifier: the last one freed, or a new one.
    fn get_new_id(&mut self) -> (id: MeshId)
        requires
            old(self).can_issue_id(),
        ensures
            old(self).free_ids@.len() > 0 ==> id == old(self).free_ids@.last() && final(self).free_ids@
                == old(self).free_ids@.drop_last() && final(self).next_id == old(self).next_id,
            old(self).free_ids@.len() == 0 ==> id == old(self).next_id && final(self).next_id == old(self).next_id
                + 1 && final(self).free_ids@ == old(self).free_ids@,
            final(self).capacity == old(self).capacity,
            final(self).data@ == old(self).data@,
            final(self).gaps@ == old(self).gaps@,
            final(self).commands@ == old(self).commands@,
            final(self).write_operations@ == old(self).write_operations@,
            final(self).arena@ == old(self).arena@,
            final(self).schedule_batch == old(self).schedule_batch,
    {
        match self.free_ids.pop() {
            Some(id) => id,
            None => {
                let id = self.next_id;
                self.next_id = self.next_id + 1;
                id
            },
        }
    }
}

} // verus!
