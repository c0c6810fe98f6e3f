use vstd::prelude::*;
use crate::meshing::Direction;

verus! {

/// Side of the square of faces meshed at once: one chunk face.
pub const MASK_SIZE: usize = 16;
/// Number of cells of a face mask.
pub const MASK_CELLS: usize = 256;

/// One cell of a face mask: a block face to mesh, or none. `visited` marks
/// cells that need no (more) meshing: cells without a face, and faces
/// already merged into a quad.
#[derive(Clone, Copy, Debug, PartialEq, Eq, Structural)]
pub struct FaceMask {
    pub visited: bool,
    pub block_id: u32,
    pub face: Direction,
    pub ao: u8,
}

impl FaceMask {
    /// A cell without a face.
    pub open spec fn spec_empty() -> FaceMask {
        FaceMask { visited: true, block_id: 0, face: Direction::Left, ao: 0 }
    }

    pub fn empty() -> (m: FaceMask)
        ensures
            m == FaceMask::spec_empty(),
    {
        FaceMask { visited: true, block_id: 0, face: Direction::Left, ao: 0 }
    }

    pub fn from(visited: bool, block_id: u32, face: Direction, ao: u8) -> (m: FaceMask)
        ensures
            m == (FaceMask { visited, block_id, face, ao }),
    {
        FaceMask { visited, block_id, face, ao }
    }

    pub fn get_visited(&self) -> (r: bool)
        ensures
            r == self.visited,
    {
        self.visited
    }

    pub fn set_visited(&mut self, visited: bool)
        ensures
            *final(self) == (FaceMask { visited, ..*old(self) }),
    {
        self.visited = visited;
    }

    pub fn get_block_id(&self) -> (r: u32)
        ensures
            r == self.block_id,
    {
        self.block_id
    }

    pub fn get_face(&self) -> (r: Direction)
        ensures
            r == self.face,
    {
        self.face
    }

    pub fn get_ao(&self) -> (r: u8)
        ensures
            r == self.ao,
    {
        self.ao
    }

    /// Two cells show the same face: same texture, direction and lighting.
    pub open spec fn same_data(self, other: FaceMask) -> bool {
        self.block_id == other.block_id && self.face == other.face && self.ao == other.ao
    }

    pub fn data_eq(&self, other: &FaceMask) -> (r: bool)
        ensures
            r == self.same_data(*other),
    {
        self.block_id == other.block_id && self.face == other.face && self.ao == other.ao
    }
}

/// Index of mask cell `(u, v)`.
pub open spec fn cell(u: int, v: int) -> int {
    u * 16 + v
}

/// A rectangle of identical faces, `width` cells along `u` and `height`
/// cells along `v` from cell `(u, v)`.
#[derive(Clone, Copy, Debug, PartialEq, Eq, Structural)]
pub struct GreedyQuad {
    pub u: usize,
    pub v: usize,
    pub width: usize,
    pub height: usize,
    pub face: FaceMask,
}

/// Cell `(u, v)` lies in quad `q`.
pub open spec fn in_quad(q: GreedyQuad, u: int, v: int) -> bool {
    q.u <= u < q.u + q.width && q.v <= v < q.v + q.height
}

/// Some quad of `qs` holds cell `(u, v)`.
pub open spec fn covered_by(qs: Seq<GreedyQuad>, u: int, v: int) -> bool {
    exists|i: int| 0 <= i < qs.len() && #[trigger] in_quad(qs[i], u, v)
}

/// Quad `q` lies in the mask, starts at its own face, and holds only cells
/// of `m` that are to be meshed and show that face.
pub open spec fn quad_fits(m: Seq<FaceMask>, q: GreedyQuad) -> bool {
    &&& 1 <= q.width && 1 <= q.height
    &&& q.u + q.width <= 16 && q.v + q.height <= 16
    &&& q.face == m[cell(q.u as int, q.v as int)]
    &&& !q.face.visited
    &&& forall|u: int, v: int| #[trigger] in_quad(q, u, v) ==> !m[cell(u, v)].visited && m[cell(u, v)].same_data(q.face)
}

/// Quads `a` and `b` share no cell.
pub open spec fn quads_apart(a: GreedyQuad, b: GreedyQuad) -> bool {
    a.u + a.width <= b.u || b.u + b.width <= a.u || a.v + a.height <= b.v || b.v + b.height <= a.v
}

/// `qs` covers exactly the cells of `m` to be meshed, each once, with
/// quads of identical faces.
pub open spec fn greedy_cover(m: Seq<FaceMask>, qs: Seq<GreedyQuad>) -> bool {
    &&& forall|i: int| 0 <= i < qs.len() ==> quad_fits(m, #[trigger] qs[i])
    &&& forall|i: int, j: int| 0 <= i < j < qs.len() ==> quads_apart(#[trigger] qs[i], #[trigger] qs[j])
    &&& forall|u: int, v: int| 0 <= u < 16 && 0 <= v < 16 && !m[cell(u, v)].visited ==> covered_by(qs, u, v)
}

/// Cell `(u, v)` comes before cell `(u0, v0)` in the scan order: by `u`, then by `v`.
pub open spec fn scanned_before(u: int, v: int, u0: int, v0: int) -> bool {
    u < u0 || (u == u0 && v < v0)
}

/// Cell `(u, v)` needs no face from a new quad: it had none to mesh in `m`,
/// or a quad of `prev` already holds it.
pub open spec fn done_cell(m: Seq<FaceMask>, prev: Seq<GreedyQuad>, u: int, v: int) -> bool {
    m[cell(u, v)].visited || covered_by(prev, u, v)
}

/// Cell `(u, v)` stops a quad showing `face` from growing over it.
pub open spec fn blocks_growth(m: Seq<FaceMask>, prev: Seq<GreedyQuad>, face: FaceMask, u: int, v: int) -> bool {
    done_cell(m, prev, u, v) || !m[cell(u, v)].same_data(face)
}

/// `q` is the quad the greedy scan makes after the quads `prev`: it starts
/// at the first cell in scan order still to be meshed, is as wide along
/// `u` as its first row allows, then as high along `v` as whole rows allow.
pub open spec fn greedy_step(m: Seq<FaceMask>, prev: Seq<GreedyQuad>, q: GreedyQuad) -> bool {
    &&& forall|u: int, v: int|
        0 <= u < 16 && 0 <= v < 16 && scanned_before(u, v, q.u as int, q.v as int) ==> #[trigger] done_cell(m, prev, u, v)
    &&& q.u + q.width == 16 || blocks_growth(m, prev, q.face, q.u + q.width, q.v as int)
    &&& q.v + q.height == 16 || exists|u: int|
        q.u <= u < q.u + q.width && #[trigger] blocks_growth(m, prev, q.face, u, q.v + q.height)
}

/// Each quad of `qs` is the one the greedy scan makes after those before it.
pub open spec fn greedy_steps(m: Seq<FaceMask>, qs: Seq<GreedyQuad>) -> bool {
    forall|k: int| 0 <= k < qs.len() ==> greedy_step(m, qs.take(k), #[trigger] qs[k])
}

/// `qs` is the cover of `m` that the greedy scan makes, quad after quad.
pub open spec fn greedy_scan(m: Seq<FaceMask>, qs: Seq<GreedyQuad>) -> bool {
    greedy_cover(m, qs) && greedy_steps(m, qs)
}

/// Every cell `(u, v)` lies in at most one quad of a cover: a face is never
/// drawn twice.
pub proof fn lemma_cover_unique(m: Seq<FaceMask>, qs: Seq<GreedyQuad>, u: int, v: int, i: int, j: int)
    requires
        greedy_cover(m, qs),
        0 <= i < qs.len(),
        0 <= j < qs.len(),
        in_quad(qs[i], u, v),
        in_quad(qs[j], u, v),
    ensures
        i == j,
{
    if i < j {
        assert(quads_apart(qs[i], qs[j]));
    } else if j < i {
        assert(quads_apart(qs[j], qs[i]));
    }
}

/// Two quads that are not apart share a cell.
proof fn lemma_not_apart_shares(a: GreedyQuad, b: GreedyQuad)
    requires
        a.width >= 1 && a.height >= 1 && b.width >= 1 && b.height >= 1,
        !quads_apart(a, b),
    ensures
        ({
            let u = if a.u >= b.u { a.u as int } else { b.u as int };
            let v = if a.v >= b.v { a.v as int } else { b.v as int };
            in_quad(a, u, v) && in_quad(b, u, v)
        }),
{
}

/// A cell of a quad that fits the mask and shares no cell with the quads
/// `prev` is still to be meshed, and shows the quad's face.
proof fn lemma_fresh_cell(m: Seq<FaceMask>, prev: Seq<GreedyQuad>, q: GreedyQuad, u: int, v: int)
    requires
        quad_fits(m, q),
        forall|i: int| 0 <= i < prev.len() ==> quads_apart(#[trigger] prev[i], q),
        in_quad(q, u, v),
    ensures
        !done_cell(m, prev, u, v),
        !blocks_growth(m, prev, q.face, u, v),
{
    if covered_by(prev, u, v) {
        let i = choose|i: int| 0 <= i < prev.len() && #[trigger] in_quad(prev[i], u, v);
        assert(quads_apart(prev[i], q));
    }
}

/// After the quads `prev`, the greedy scan can make one quad only.
proof fn lemma_step_unique(m: Seq<FaceMask>, prev: Seq<GreedyQuad>, q1: GreedyQuad, q2: GreedyQuad)
    requires
        quad_fits(m, q1),
        quad_fits(m, q2),
        forall|i: int| 0 <= i < prev.len() ==> quads_apart(#[trigger] prev[i], q1),
        forall|i: int| 0 <= i < prev.len() ==> quads_apart(#[trigger] prev[i], q2),
        greedy_step(m, prev, q1),
        greedy_step(m, prev, q2),
    ensures
        q1 == q2,
{
    let (u1, v1) = (q1.u as int, q1.v as int);
    let (u2, v2) = (q2.u as int, q2.v as int);
    if scanned_before(u1, v1, u2, v2) {
        assert(done_cell(m, prev, u1, v1));
        lemma_fresh_cell(m, prev, q1, u1, v1);
    }
    if scanned_before(u2, v2, u1, v1) {
        assert(done_cell(m, prev, u2, v2));
        lemma_fresh_cell(m, prev, q2, u2, v2);
    }
    assert(u1 == u2 && v1 == v2);
    assert(q1.face == q2.face);
    if q1.width < q2.width {
        lemma_fresh_cell(m, prev, q2, u1 + q1.width, v1);
    }
    if q2.width < q1.width {
        lemma_fresh_cell(m, prev, q1, u2 + q2.width, v2);
    }
    assert(q1.width == q2.width);
    if q1.height < q2.height {
        let u = choose|u: int| q1.u <= u < q1.u + q1.width && #[trigger] blocks_growth(m, prev, q1.face, u, v1 + q1.height);
        lemma_fresh_cell(m, prev, q2, u, v1 + q1.height);
    }
    if q2.height < q1.height {
        let u = choose|u: int| q2.u <= u < q2.u + q2.width && #[trigger] blocks_growth(m, prev, q2.face, u, v2 + q2.height);
        lemma_fresh_cell(m, prev, q1, u, v2 + q2.height);
    }
}

/// Two greedy scans of one mask agree on their first `k` quads.
proof fn lemma_scan_prefix(m: Seq<FaceMask>, qs1: Seq<GreedyQuad>, qs2: Seq<GreedyQuad>, k: int)
    requires
        greedy_scan(m, qs1),
        greedy_scan(m, qs2),
        0 <= k <= qs1.len(),
        k <= qs2.len(),
    ensures
        qs1.take(k) == qs2.take(k),
    decreases k,
{
    if k > 0 {
        lemma_scan_prefix(m, qs1, qs2, k - 1);
        let prev = qs1.take(k - 1);
        assert(greedy_step(m, qs1.take(k - 1), qs1[k - 1]));
        assert(greedy_step(m, qs2.take(k - 1), qs2[k - 1]));
        assert forall|i: int| 0 <= i < prev.len() implies quads_apart(#[trigger] prev[i], qs1[k - 1]) by {
            assert(quads_apart(qs1[i], qs1[k - 1]));
        }
        assert forall|i: int| 0 <= i < prev.len() implies quads_apart(#[trigger] prev[i], qs2[k - 1]) by {
            assert(qs2.take(k - 1)[i] == qs2[i]);
            assert(quads_apart(qs2[i], qs2[k - 1]));
        }
        assert(quad_fits(m, qs1[k - 1]));
        assert(quad_fits(m, qs2[k - 1]));
        lemma_step_unique(m, prev, qs1[k - 1], qs2[k - 1]);
        assert(qs1.take(k) =~= qs2.take(k)) by {
            assert forall|i: int| 0 <= i < k implies qs1.take(k)[i] == qs2.take(k)[i] by {
                if i < k - 1 {
                    assert(qs1.take(k - 1)[i] == qs2.take(k - 1)[i]);
                }
            }
        }
    }
}

/// A scan that has made `qs1` leaves no cell to mesh, so a scan cannot make
/// a quad more.
proof fn lemma_scan_no_longer(m: Seq<FaceMask>, qs1: Seq<GreedyQuad>, qs2: Seq<GreedyQuad>)
    requires
        greedy_scan(m, qs1),
        greedy_scan(m, qs2),
    ensures
        qs2.len() <= qs1.len(),
{
    if qs1.len() < qs2.len() {
        let n = qs1.len() as int;
        lemma_scan_prefix(m, qs1, qs2, n);
        let q = qs2[n];
        assert(quad_fits(m, q));
        assert(in_quad(q, q.u as int, q.v as int));
        assert(covered_by(qs1, q.u as int, q.v as int));
        let i = choose|i: int| 0 <= i < qs1.len() && #[trigger] in_quad(qs1[i], q.u as int, q.v as int);
        assert(qs1.take(n)[i] == qs2.take(n)[i]);
        assert(quads_apart(qs2[i], qs2[n]));
    }
}

/// The greedy scan of a mask is determined by the mask: two scans of one
/// mask make the same quads, in the same order.
pub proof fn lemma_greedy_scan_unique(m: Seq<FaceMask>, qs1: Seq<GreedyQuad>, qs2: Seq<GreedyQuad>)
    requires
        greedy_scan(m, qs1),
        greedy_scan(m, qs2),
    ensures
        qs1 == qs2,
{
    lemma_scan_no_longer(m, qs1, qs2);
    lemma_scan_no_longer(m, qs2, qs1);
    lemma_scan_prefix(m, qs1, qs2, qs1.len() as int);
    assert(qs1.take(qs1.len() as int) =~= qs1);
    assert(qs2.take(qs2.len() as int) =~= qs2);
}

/// The data of every cell is unchanged; only `visited` may differ.
pub open spec fn same_faces(a: Seq<FaceMask>, b: Seq<FaceMask>) -> bool {
    a.len() == b.len() && forall|c: int| 0 <= c < a.len() ==> (#[trigger] a[c]).same_data(b[c])
}

/// The merge so far: every cell keeps its face, a cell is visited when it
/// was from the start or lies in a quad made so far, and the quads made so
/// far fit the starting mask `m0` and are apart.
pub open spec fn merge_state(now: Seq<FaceMask>, m0: Seq<FaceMask>, qs: Seq<GreedyQuad>) -> bool {
    &&& now.len() == 256
    &&& same_faces(now, m0)
    &&& forall|u: int, v: int|
        0 <= u < 16 && 0 <= v < 16 ==> (#[trigger] now[cell(u, v)]).visited == (m0[cell(u, v)].visited || covered_by(qs, u, v))
    &&& forall|i: int| 0 <= i < qs.len() ==> quad_fits(m0, #[trigger] qs[i])
    &&& forall|i: int, j: int| 0 <= i < j < qs.len() ==> quads_apart(#[trigger] qs[i], #[trigger] qs[j])
}

/// The rectangle of `q` is being grown over `start`: its cells are marked
/// visited in `now`, were all to be meshed in `start` and show `q.face`.
pub open spec fn growing(now: Seq<FaceMask>, start: Seq<FaceMask>, q: GreedyQuad) -> bool {
    &&& now.len() == 256
    &&& same_faces(now, start)
    &&& q.u + q.width <= 16 && q.v + q.height <= 16 && q.width >= 1 && q.height >= 1
    &&& forall|u: int, v: int|
        0 <= u < 16 && 0 <= v < 16 ==> (#[trigger] now[cell(u, v)]).visited == (start[cell(u, v)].visited || in_quad(q, u, v))
    &&& forall|u: int, v: int|
        #![trigger in_quad(q, u, v)]
        in_quad(q, u, v) ==> !start[cell(u, v)].visited && start[cell(u, v)].same_data(q.face)
}

/// Adding a finished quad keeps the merge state.
proof fn lemma_add_quad(now: Seq<FaceMask>, start: Seq<FaceMask>, m0: Seq<FaceMask>, qs: Seq<GreedyQuad>, q: GreedyQuad)
    requires
        merge_state(start, m0, qs),
        growing(now, start, q),
        q.face == start[cell(q.u as int, q.v as int)],
        q.u < 16 && q.v < 16,
    ensures
        merge_state(now, m0, qs.push(q)),
{
    let qs2 = qs.push(q);
    assert(in_quad(q, q.u as int, q.v as int));
    assert(!start[cell(q.u as int, q.v as int)].visited);
    assert(start[cell(q.u as int, q.v as int)].same_data(m0[cell(q.u as int, q.v as int)]));
    assert(!m0[cell(q.u as int, q.v as int)].visited);
    assert(q.face == m0[cell(q.u as int, q.v as int)]);
    assert forall|c: int| 0 <= c < now.len() implies (#[trigger] now[c]).same_data(m0[c]) by {
        assert(now[c].same_data(start[c]));
        assert(start[c].same_data(m0[c]));
    }
    assert(quad_fits(m0, q)) by {
        assert forall|u: int, v: int| #[trigger] in_quad(q, u, v) implies !m0[cell(u, v)].visited && m0[cell(u, v)].same_data(q.face) by {
            assert(0 <= cell(u, v) < 256);
            assert(!start[cell(u, v)].visited);
            assert(start[cell(u, v)].same_data(m0[cell(u, v)]));
            assert(start[cell(u, v)] == start[cell(u, v)]);
            assert(!(start[cell(u, v)]).visited == !(m0[cell(u, v)].visited || covered_by(qs, u, v)));
        }
    }
    assert forall|i: int| 0 <= i < qs2.len() implies quad_fits(m0, #[trigger] qs2[i]) by {
        if i < qs.len() { assert(qs2[i] == qs[i]); }
    }
    assert forall|i: int, j: int| 0 <= i < j < qs2.len() implies quads_apart(#[trigger] qs2[i], #[trigger] qs2[j]) by {
        if j == qs.len() {
            assert(qs2[i] == qs[i]);
            assert(qs2[j] == q);
            if !quads_apart(qs[i], q) {
                assert(quad_fits(m0, qs[i]));
                lemma_not_apart_shares(qs[i], q);
                let u = if qs[i].u >= q.u { qs[i].u as int } else { q.u as int };
                let v = if qs[i].v >= q.v { qs[i].v as int } else { q.v as int };
                assert(in_quad(qs[i], u, v));
                assert(covered_by(qs, u, v));
                assert(start[cell(u, v)].visited);
                assert(in_quad(q, u, v));
            }
        } else {
            assert(qs2[i] == qs[i]);
            assert(qs2[j] == qs[j]);
        }
    }
    assert forall|u: int, v: int| 0 <= u < 16 && 0 <= v < 16 implies (#[trigger] now[cell(u, v)]).visited == (m0[cell(u, v)].visited
        || covered_by(qs2, u, v)) by {
        assert(start[cell(u, v)].visited == (m0[cell(u, v)].visited || covered_by(qs, u, v)));
        if covered_by(qs, u, v) {
            let i = choose|i: int| 0 <= i < qs.len() && #[trigger] in_quad(qs[i], u, v);
            assert(qs2[i] == qs[i]);
            assert(in_quad(qs2[i], u, v));
        }
        if in_quad(q, u, v) {
            assert(in_quad(qs2[qs.len() as int], u, v));
        }
        if covered_by(qs2, u, v) {
            let i = choose|i: int| 0 <= i < qs2.len() && #[trigger] in_quad(qs2[i], u, v);
            if i < qs.len() {
                assert(qs2[i] == qs[i]);
                assert(covered_by(qs, u, v));
            }
        }
    }
}

/// Whether the cells `(u .. u + width, v)` are all to be meshed and show `face`.
fn row_matches(mask: &Vec<FaceMask>, u: usize, width: usize, v: usize, face: &FaceMask) -> (r: bool)
    requires
        mask@.len() == 256,
        u + width <= 16,
        v < 16,
    ensures
        r == forall|u2: int| u <= u2 < u + width ==> !mask@[cell(u2, v as int)].visited && (#[trigger] mask@[cell(u2, v as int)]).same_data(*face),
{
    let mut u2 = u;
    while u2 < u + width
        invariant
            u <= u2 <= u + width,
            u + width <= 16,
            v < 16,
            mask@.len() == 256,
            forall|u3: int| u <= u3 < u2 ==> !mask@[cell(u3, v as int)].visited && (#[trigger] mask@[cell(u3, v as int)]).same_data(*face),
        decreases u + width - u2,
    {
        let m = mask[u2 * 16 + v];
        assert(mask@[cell(u2 as int, v as int)] == m);
        if m.visited || !m.data_eq(face) {
            return false;
        }
        u2 = u2 + 1;
    }
    true
}

/// Merges the faces of a 16 x 16 mask into as few rectangles as the
/// greedy scan finds: for each face not yet merged, in row order, the
/// rectangle grows along `u` as far as identical faces go, then along `v`
/// as long as whole rows match. The quads are appended to `quads`; every
/// cell ends visited.
pub fn greedy_merge(mask: &mut Vec<FaceMask>, quads: &mut Vec<GreedyQuad>)
    requires
        old(mask)@.len() == 256,
    ensures
        final(mask)@.len() == 256,
        same_faces(final(mask)@, old(mask)@),
        forall|c: int| 0 <= c < 256 ==> (#[trigger] final(mask)@[c]).visited,
        final(quads)@.len() >= old(quads)@.len(),
        final(quads)@.subrange(0, old(quads)@.len() as int) == old(quads)@,
        greedy_scan(old(mask)@, final(quads)@.subrange(old(quads)@.len() as int, final(quads)@.len() as int)),
{
    let ghost m0 = mask@;
    let ghost base = quads@;
    let mut u: usize = 0;
    proof {
        assert(quads@.subrange(base.len() as int, quads@.len() as int) =~= Seq::<GreedyQuad>::empty());
        assert forall|c: int| 0 <= c < m0.len() implies (#[trigger] m0[c]).same_data(m0[c]) by {}
    }
    while u < MASK_SIZE
        invariant
            u <= 16,
            quads@.len() >= base.len(),
            quads@.subrange(0, base.len() as int) == base,
            merge_state(mask@, m0, quads@.subrange(base.len() as int, quads@.len() as int)),
            greedy_steps(m0, quads@.subrange(base.len() as int, quads@.len() as int)),
            forall|u2: int, v2: int| 0 <= u2 < u && 0 <= v2 < 16 ==> (#[trigger] mask@[cell(u2, v2)]).visited,
        decreases 16 - u,
    {
        let mut v: usize = 0;
        while v < MASK_SIZE
            invariant
                u < 16,
                v <= 16,
                quads@.len() >= base.len(),
                quads@.subrange(0, base.len() as int) == base,
                merge_state(mask@, m0, quads@.subrange(base.len() as int, quads@.len() as int)),
                greedy_steps(m0, quads@.subrange(base.len() as int, quads@.len() as int)),
                forall|u2: int, v2: int|
                    0 <= u2 < 16 && 0 <= v2 < 16 && (u2 < u || (u2 == u && v2 < v)) ==> (#[trigger] mask@[cell(u2, v2)]).visited,
            decreases 16 - v,
        {
            let face = mask[u * 16 + v];
            if face.get_visited() {
                v = v + 1;
                continue;
            }
            let ghost start = mask@;
            let ghost qs = quads@.subrange(base.len() as int, quads@.len() as int);
            proof {
                assert forall|uu: int, vv: int|
                    0 <= uu < 16 && 0 <= vv < 16 && scanned_before(uu, vv, u as int, v as int) implies #[trigger] done_cell(m0, qs, uu, vv) by {
                    assert(start[cell(uu, vv)].visited);
                }
            }
            mask.set(u * 16 + v, FaceMask { visited: true, ..face });
            let mut width: usize = 1;
            let mut height: usize = 1;
            proof {
                let q = GreedyQuad { u, v, width, height, face };
                assert(start[cell(u as int, v as int)] == face);
                assert forall|c: int| 0 <= c < mask@.len() implies (#[trigger] mask@[c]).same_data(start[c]) by {}
                assert forall|uu: int, vv: int| 0 <= uu < 16 && 0 <= vv < 16 implies (#[trigger] mask@[cell(uu, vv)]).visited
                    == (start[cell(uu, vv)].visited || in_quad(q, uu, vv)) by {
                    if uu != u || vv != v {
                        assert(cell(uu, vv) != cell(u as int, v as int));
                    }
                }
                assert(growing(mask@, start, q));
            }
            let mut u2: usize = u + 1;
            while u2 < MASK_SIZE && width < MASK_SIZE && !mask[u2 * 16 + v].get_visited() && mask[u2 * 16 + v].data_eq(&face)
                invariant
                    u < 16,
                    v < 16,
                    u2 == u + width,
                    u2 <= 16,
                    height == 1,
                    growing(mask@, start, GreedyQuad { u, v, width, height, face }),
                decreases 16 - u2,
            {
                let m = mask[u2 * 16 + v];
                proof {
                    let q = GreedyQuad { u, v, width, height, face };
                    assert(mask@[cell(u2 as int, v as int)] == m);
                    assert(!in_quad(q, u2 as int, v as int));
                    assert(!start[cell(u2 as int, v as int)].visited);
                    assert(start[cell(u2 as int, v as int)].same_data(face));
                }
                mask.set(u2 * 16 + v, FaceMask { visited: true, ..m });
                width = width + 1;
                u2 = u2 + 1;
                proof {
                    let q = GreedyQuad { u, v, width, height, face };
                    assert forall|uu: int, vv: int| 0 <= uu < 16 && 0 <= vv < 16 implies (#[trigger] mask@[cell(uu, vv)]).visited
                        == (start[cell(uu, vv)].visited || in_quad(q, uu, vv)) by {
                        if uu != u2 - 1 || vv != v {
                            assert(cell(uu, vv) != cell(u2 - 1, v as int));
                        }
                    }
                    assert forall|uu: int, vv: int| #[trigger] in_quad(q, uu, vv) implies !start[cell(uu, vv)].visited
                        && start[cell(uu, vv)].same_data(q.face) by {
                        if uu < u2 - 1 {
                            assert(in_quad(GreedyQuad { u, v, width: (width - 1) as usize, height, face }, uu, vv));
                        }
                    }
                }
            }
            proof {
                if u + width < 16 {
                    let c = cell(u + width, v as int);
                    assert(!in_quad(GreedyQuad { u, v, width, height, face }, u + width, v as int));
                    assert(mask@[c].same_data(start[c]));
                    assert(start[c].same_data(m0[c]));
                    assert(blocks_growth(m0, qs, face, u + width, v as int));
                }
            }
            let mut v2: usize = v + 1;
            while v2 < MASK_SIZE && height < MASK_SIZE && row_matches(mask, u, width, v2, &face)
                invariant
                    u < 16,
                    v < 16,
                    v2 == v + height,
                    v2 <= 16,
                    u + width <= 16,
                    width >= 1,
                    growing(mask@, start, GreedyQuad { u, v, width, height, face }),
                decreases 16 - v2,
            {
                let ghost before = mask@;
                let ghost q0 = GreedyQuad { u, v, width, height, face };
                proof {
                    assert forall|uu: int| u <= uu < u + width implies !start[cell(uu, v2 as int)].visited
                        && start[cell(uu, v2 as int)].same_data(face) by {
                        assert(!before[cell(uu, v2 as int)].visited && before[cell(uu, v2 as int)].same_data(face));
                        assert(!in_quad(q0, uu, v2 as int));
                        assert(before[cell(uu, v2 as int)].same_data(start[cell(uu, v2 as int)]));
                    }
                }
                let mut u3: usize = u;
                while u3 < u + width
                    invariant
                        u <= u3 <= u + width,
                        u + width <= 16,
                        v2 < 16,
                        mask@.len() == 256,
                        same_faces(mask@, before),
                        forall|uu: int, vv: int|
                            0 <= uu < 16 && 0 <= vv < 16 ==> (#[trigger] mask@[cell(uu, vv)]).visited == (before[cell(uu, vv)].visited
                                || (vv == v2 && u <= uu < u3)),
                    decreases u + width - u3,
                {
                    let m = mask[u3 * 16 + v2];
                    mask.set(u3 * 16 + v2, FaceMask { visited: true, ..m });
                    u3 = u3 + 1;
                    proof {
                        assert forall|uu: int, vv: int| 0 <= uu < 16 && 0 <= vv < 16 implies (#[trigger] mask@[cell(uu, vv)]).visited
                            == (before[cell(uu, vv)].visited || (vv == v2 && u <= uu < u3)) by {
                            if uu != u3 - 1 || vv != v2 {
                                assert(cell(uu, vv) != cell(u3 - 1, v2 as int));
                            }
                        }
                        assert forall|c: int| 0 <= c < mask@.len() implies (#[trigger] mask@[c]).same_data(before[c]) by {}
                    }
                }
                height = height + 1;
                v2 = v2 + 1;
                proof {
                    let q = GreedyQuad { u, v, width, height, face };
                    assert forall|c: int| 0 <= c < mask@.len() implies (#[trigger] mask@[c]).same_data(start[c]) by {
                        assert(mask@[c].same_data(before[c]));
                        assert(before[c].same_data(start[c]));
                    }
                    assert forall|uu: int, vv: int| 0 <= uu < 16 && 0 <= vv < 16 implies (#[trigger] mask@[cell(uu, vv)]).visited
                        == (start[cell(uu, vv)].visited || in_quad(q, uu, vv)) by {
                        assert(before[cell(uu, vv)].visited == (start[cell(uu, vv)].visited || in_quad(q0, uu, vv)));
                    }
                    assert forall|uu: int, vv: int| #[trigger] in_quad(q, uu, vv) implies !start[cell(uu, vv)].visited
                        && start[cell(uu, vv)].same_data(q.face) by {
                        if vv < v2 - 1 {
                            assert(in_quad(q0, uu, vv));
                        }
                    }
                }
            }
            let q = GreedyQuad { u, v, width, height, face };
            proof {
                if v + height < 16 {
                    let uu = choose|uu: int|
                        u <= uu < u + width && !(!mask@[cell(uu, v2 as int)].visited && mask@[cell(uu, v2 as int)].same_data(face));
                    let c = cell(uu, v2 as int);
                    assert(!in_quad(q, uu, v2 as int));
                    assert(mask@[c].same_data(start[c]));
                    assert(start[c].same_data(m0[c]));
                    assert(blocks_growth(m0, qs, face, uu, v2 as int));
                }
                assert(greedy_step(m0, qs, q));
            }
            quads.push(q);
            proof {
                let qs3 = qs.push(q);
                assert forall|k: int| 0 <= k < qs3.len() implies greedy_step(m0, qs3.take(k), #[trigger] qs3[k]) by {
                    if k < qs.len() {
                        assert(qs3.take(k) =~= qs.take(k));
                        assert(qs3[k] == qs[k]);
                    } else {
                        assert(qs3.take(k) =~= qs);
                    }
                }
                let qs2 = quads@.subrange(base.len() as int, quads@.len() as int);
                assert(qs2 =~= qs.push(q));
                lemma_add_quad(mask@, start, m0, qs, q);
                assert(quads@.subrange(0, base.len() as int) =~= base);
                assert forall|u4: int, v4: int|
                    0 <= u4 < 16 && 0 <= v4 < 16 && (u4 < u || (u4 == u && v4 < v + height)) implies (#[trigger] mask@[cell(u4, v4)]).visited by {
                    if u4 == u && v4 >= v {
                        assert(in_quad(q, u4, v4));
                    } else {
                        assert(start[cell(u4, v4)].visited);
                    }
                }
            }
            v = v + height;
        }
        u = u + 1;
    }
    proof {
        let qs = quads@.subrange(base.len() as int, quads@.len() as int);
        assert forall|c: int| 0 <= c < 256 implies (#[trigger] mask@[c]).visited by {
            let uu = c / 16;
            let vv = c % 16;
            assert(c == cell(uu, vv));
        }
        assert forall|uu: int, vv: int| 0 <= uu < 16 && 0 <= vv < 16 && !m0[cell(uu, vv)].visited implies covered_by(qs, uu, vv) by {
            assert(mask@[cell(uu, vv)].visited);
        }
    }
}

} // verus!
