//! Regions of a garden map, with the fences around them and their prices.
use crate::text::{lines_of, text_lines};
use crate::utils::{chars_of, manhattan, PointT, RectT};
use vstd::prelude::*;

verus! {

/// A fence between a cell of a region and a neighbouring cell outside it.
#[derive(PartialEq, Eq, Hash, Clone, Copy, Debug, Structural)]
pub struct Fence {
    pub inside: PointT,
    pub outside: PointT,
}

impl Fence {
    /// The fence between two neighbouring cells.
    pub fn new(in_: PointT, out: PointT) -> (r: Fence)
        requires
            manhattan(in_@, out@) == 1,
        ensures
            r == (Fence { inside: in_, outside: out }),
    {
        Fence { inside: in_, outside: out }
    }
}

/// A region: its plant, how many cells it covers, and the fences around it.
pub struct Area {
    pub id: char,
    pub area: i64,
    pub fences: Vec<Fence>,
}

/// The map, its bounds, and the regions found so far.
pub struct Garden {
    pub map: Vec<Vec<Option<char>>>,
    pub bounds: RectT,
    pub areas: Vec<Area>,
}

/// The grid rows, each a sequence of cells.
pub open spec fn grid(map: Seq<Vec<Option<char>>>) -> Seq<Seq<Option<char>>> {
    map.map_values(|r: Vec<Option<char>>| r@)
}

/// The map is a rectangle of `width` by `height` cells, small enough to index.
pub open spec fn rectangular(g: Seq<Seq<Option<char>>>, bounds: RectT) -> bool {
    &&& bounds.x == 0
    &&& bounds.y == 0
    &&& bounds.height == g.len()
    &&& forall|y: int| 0 <= y < g.len() ==> (#[trigger] g[y]).len() == bounds.width
    &&& 0 <= bounds.width
    &&& bounds.width * bounds.height <= 0x1000_0000
    &&& bounds.width <= 0x1000_0000
    &&& bounds.height <= 0x1000_0000
}

/// Whether `p` is a cell of the map.
pub open spec fn in_grid(b: RectT, p: (int, int)) -> bool {
    0 <= p.0 < b.width && 0 <= p.1 < b.height
}

/// The content of cell `p`.
pub open spec fn cell(g: Seq<Seq<Option<char>>>, p: (int, int)) -> Option<char> {
    g[p.1][p.0]
}

/// A fence that a region of plant `id` may have: from a cell holding `id`
/// to a neighbouring cell off the map or not holding `id`.
pub open spec fn is_boundary(g: Seq<Seq<Option<char>>>, b: RectT, id: char, f: Fence) -> bool {
    &&& manhattan(f.inside@, f.outside@) == 1
    &&& in_grid(b, f.inside@)
    &&& cell(g, f.inside@) == Some(id)
    &&& !(in_grid(b, f.outside@) && cell(g, f.outside@) == Some(id))
}

/// The index of cell `p` in a row-major flat table.
pub open spec fn flat(b: RectT, p: (int, int)) -> int {
    p.1 * b.width + p.0
}

/// How many cells of `r` are not yet marked.
pub open spec fn unmarked(r: Seq<bool>) -> nat
    decreases r.len(),
{
    if r.len() == 0 {
        0
    } else {
        unmarked(r.drop_last()) + if r.last() {
            0nat
        } else {
            1nat
        }
    }
}

proof fn lemma_unmarked_mark(r: Seq<bool>, i: int)
    requires
        0 <= i < r.len(),
        !r[i],
    ensures
        unmarked(r.update(i, true)) + 1 == unmarked(r),
    decreases r.len(),
{
    let u = r.update(i, true);
    if i == r.len() - 1 {
        assert(u.drop_last() =~= r.drop_last());
    } else {
        lemma_unmarked_mark(r.drop_last(), i);
        assert(u.drop_last() =~= r.drop_last().update(i, true));
    }
}

proof fn lemma_unmarked_bound(r: Seq<bool>)
    ensures
        unmarked(r) <= r.len(),
    decreases r.len(),
{
    if r.len() > 0 {
        lemma_unmarked_bound(r.drop_last());
    }
}

/// The cell one step from `p` in direction `k`: up, right, down, left.
pub open spec fn neighbour(p: (int, int), k: int) -> (int, int) {
    if k == 0 {
        (p.0, p.1 - 1)
    } else if k == 1 {
        (p.0 + 1, p.1)
    } else if k == 2 {
        (p.0, p.1 + 1)
    } else {
        (p.0 - 1, p.1)
    }
}

/// The cells marked in `after` but not in `before` hold `id`.
pub open spec fn marks_hold(g: Seq<Seq<Option<char>>>, b: RectT, before: Seq<bool>, after: Seq<bool>, id: char) -> bool {
    forall|x: int, y: int|
        0 <= x < b.width && 0 <= y < b.height && #[trigger] after[flat(b, (x, y))] && !before[flat(b, (x, y))]
            ==> cell(g, (x, y)) == Some(id)
}

/// Every fence of `fs` from position `from` on is a boundary fence of `id`.
pub open spec fn boundary_fences(g: Seq<Seq<Option<char>>>, b: RectT, id: char, fs: Seq<Fence>, from: int) -> bool {
    forall|i: int| from <= i < fs.len() ==> is_boundary(g, b, id, #[trigger] fs[i])
}

/// Cell `c` of the map holds `id`.
pub open spec fn holds(g: Seq<Seq<Option<char>>>, b: RectT, c: (int, int), id: char) -> bool {
    in_grid(b, c) && cell(g, c) == Some(id)
}

/// Cell `(x, y)` is marked in `after` but was not in `before`.
pub open spec fn newly_at(b: RectT, before: Seq<bool>, after: Seq<bool>, x: int, y: int) -> bool {
    in_grid(b, (x, y)) && after[flat(b, (x, y))] && !before[flat(b, (x, y))]
}

/// Every neighbour holding `id` of a cell marked since `before` is marked too.
pub open spec fn closed(g: Seq<Seq<Option<char>>>, b: RectT, before: Seq<bool>, after: Seq<bool>, id: char) -> bool {
    forall|x: int, y: int, k: int|
        #![trigger newly_at(b, before, after, x, y), neighbour((x, y), k)]
        0 <= k < 4 && newly_at(b, before, after, x, y) && holds(g, b, neighbour((x, y), k), id)
            ==> after[flat(b, neighbour((x, y), k))]
}

/// Some entry of the work list is about cell `c`.
pub open spec fn pending(stack: Seq<(PointT, Option<PointT>)>, c: (int, int)) -> bool {
    exists|j: int| 0 <= j < stack.len() && (#[trigger] stack[j]).0@ == c
}

impl Garden {
    /// Reads the map, one row per line and one cell per character; the
    /// bounds span the first line's width and the number of lines.
    pub fn parse(input: &str) -> (r: Garden)
        requires
            lines_of(input@).len() > 0,
            lines_of(input@).len() <= i64::MAX,
            lines_of(input@)[0].len() <= i64::MAX,
        ensures
            r.map@.len() == lines_of(input@).len(),
            forall|y: int|
                0 <= y < r.map@.len() ==> (#[trigger] r.map@[y])@ == lines_of(input@)[y].map_values(
                    |c: char| Some(c),
                ),
            r.bounds == (RectT {
                x: 0,
                y: 0,
                width: lines_of(input@)[0].len() as i64,
                height: lines_of(input@).len() as i64,
            }),
            r.areas@.len() == 0,
    {
        let text = chars_of(input);
        let lines = text_lines(&text);
        let ghost ls = lines_of(input@);
        let mut map: Vec<Vec<Option<char>>> = Vec::new();
        let mut y: usize = 0;
        while y < lines.len()
            invariant
                0 <= y <= lines.len(),
                lines.len() == ls.len(),
                forall|k: int| 0 <= k < lines.len() ==> (#[trigger] lines[k])@ == ls[k],
                map@.len() == y,
                forall|k: int| 0 <= k < y ==> (#[trigger] map@[k])@ == ls[k].map_values(|c: char| Some(c)),
            decreases lines.len() - y,
        {
            let mut row: Vec<Option<char>> = Vec::new();
            let mut x: usize = 0;
            while x < lines[y].len()
                invariant
                    0 <= x <= lines[y as int]@.len(),
                    y < lines.len(),
                    row@ =~= lines[y as int]@.take(x as int).map_values(|c: char| Some(c)),
                decreases lines[y as int]@.len() - x,
            {
                row.push(Some(lines[y][x]));
                x += 1;
            }
            assert(lines[y as int]@.take(x as int) =~= lines[y as int]@);
            map.push(row);
            y += 1;
        }
        let bounds = RectT { x: 0, y: 0, width: lines[0].len() as i64, height: lines.len() as i64 };
        Garden { map, bounds, areas: Vec::new() }
    }

    /// Marks the cells holding `id` that can be reached from `p` through
    /// unmarked neighbouring cells holding `id`, and adds a fence for each step
    /// from a marked cell to a cell that does not hold `id`. Returns how many
    /// cells it marked.
    pub fn rec_map_area(
        &self,
        id: char,
        p: PointT,
        prev: Option<PointT>,
        out_visited: &mut Vec<bool>,
        out_fences: &mut Vec<Fence>,
    ) -> (r: i64)
        requires
            rectangular(grid(self.map@), self.bounds),
            old(out_visited)@.len() == self.bounds.width * self.bounds.height,
            prev is Some ==> in_grid(self.bounds, prev.unwrap()@) && cell(grid(self.map@), prev.unwrap()@)
                == Some(id) && manhattan(prev.unwrap()@, p@) == 1,
            -1 <= p.x <= self.bounds.width,
            -1 <= p.y <= self.bounds.height,
        ensures
            final(out_visited)@.len() == old(out_visited)@.len(),
            forall|i: int| 0 <= i < old(out_visited)@.len() && old(out_visited)@[i] ==> #[trigger] final(out_visited)@[i],
            marks_hold(grid(self.map@), self.bounds, old(out_visited)@, final(out_visited)@, id),
            r == unmarked(old(out_visited)@) - unmarked(final(out_visited)@),
            final(out_fences)@.len() >= old(out_fences)@.len(),
            final(out_fences)@.len() <= old(out_fences)@.len() + 1 + 4 * r,
            0 <= r <= old(out_visited)@.len(),
            final(out_fences)@.subrange(0, old(out_fences)@.len() as int) == old(out_fences)@,
            boundary_fences(grid(self.map@), self.bounds, id, final(out_fences)@, old(out_fences)@.len() as int),
            holds(grid(self.map@), self.bounds, p@, id) && !old(out_visited)@[flat(self.bounds, p@)]
                ==> final(out_visited)@[flat(self.bounds, p@)],
            closed(grid(self.map@), self.bounds, old(out_visited)@, final(out_visited)@, id),
    {
        let ghost g = grid(self.map@);
        let ghost b = self.bounds;
        let ghost v0 = out_visited@;
        let ghost f0 = out_fences@;
        let w = self.bounds.width;
        let h = self.bounds.height;
        let mut stack: Vec<(PointT, Option<PointT>)> = Vec::new();
        stack.push((p, prev));
        let mut size: i64 = 0;
        proof {
            lemma_unmarked_bound(v0);
        }
        while stack.len() > 0
            invariant
                g == grid(self.map@),
                b == self.bounds,
                w == b.width,
                h == b.height,
                rectangular(g, b),
                out_visited@.len() == w * h,
                v0.len() == w * h,
                forall|i: int| 0 <= i < v0.len() && v0[i] ==> #[trigger] out_visited@[i],
                marks_hold(g, b, v0, out_visited@, id),
                unmarked(out_visited@) <= unmarked(v0),
                size == unmarked(v0) - unmarked(out_visited@),
                unmarked(v0) <= v0.len(),
                out_fences@.len() >= f0.len(),
                out_fences@.len() - f0.len() + stack.len() <= 1 + 4 * size,
                out_fences@.subrange(0, f0.len() as int) == f0,
                boundary_fences(g, b, id, out_fences@, f0.len() as int),
                holds(g, b, p@, id) && !v0[flat(b, p@)] ==> out_visited@[flat(b, p@)] || (stack.len()
                    > 0 && stack@[0].0 == p),
                forall|x: int, y: int, k: int|
                    #![trigger newly_at(b, v0, out_visited@, x, y), neighbour((x, y), k)]
                    0 <= k < 4 && newly_at(b, v0, out_visited@, x, y) && holds(g, b, neighbour((x, y), k), id)
                        ==> out_visited@[flat(b, neighbour((x, y), k))] || pending(stack@, neighbour((x, y), k)),
                forall|k: int|
                    0 <= k < stack.len() ==> {
                        let (q, from) = #[trigger] stack@[k];
                        &&& -1 <= q.x <= w
                        &&& -1 <= q.y <= h
                        &&& from is Some ==> in_grid(b, from.unwrap()@) && cell(g, from.unwrap()@) == Some(id)
                            && manhattan(from.unwrap()@, q@) == 1
                    },
            decreases 4 * unmarked(out_visited@) + stack.len(),
        {
            let ghost st0 = stack@;
            let (q, from) = stack.pop().unwrap();
            assert(stack@ == st0.drop_last() && st0.last() == (q, from));
            let inside = 0 <= q.x && q.x < w && 0 <= q.y && q.y < h;
            if inside {
                assert(0 <= q.y * w + q.x < w * h) by (nonlinear_arith)
                    requires
                        0 <= q.x < w,
                        0 <= q.y < h,
                ;
                let idx = (q.y * w + q.x) as usize;
                if out_visited[idx] {
                    proof {
                        lemma_pop_unmarked(g, b, v0, out_visited@, st0, q, id);
                    }
                    continue;
                }
                let row = &self.map[q.y as usize];
                assert(0 <= q.y < g.len());
                assert(g[q.y as int] == self.map@[q.y as int]@);
                assert(*row == self.map@[q.y as int]);
                assert(g[q.y as int].len() == b.width);
                assert(row@.len() == w);
                let here_id = match row[q.x as usize] {
                    Some(c) => c == id,
                    None => false,
                };
                assert(here_id == (cell(g, q@) == Some(id)));
                if here_id {
                    let ghost before = out_visited@;
                    proof {
                        lemma_unmarked_mark(before, idx as int);
                    }
                    out_visited.set(idx, true);
                    assert forall|x: int, y: int|
                        0 <= x < b.width && 0 <= y < b.height && #[trigger] out_visited@[flat(b, (x, y))]
                            && !v0[flat(b, (x, y))] implies cell(g, (x, y)) == Some(id) by {
                        assert(0 <= y * b.width + x < b.width * b.height) by (nonlinear_arith)
                            requires
                                0 <= x < b.width,
                                0 <= y < b.height,
                        ;
                        if flat(b, (x, y)) == idx as int {
                            assert(y * b.width + x == q.y * w + q.x);
                            lemma_flat_injective(b.width as int, x, y, q.x as int, q.y as int);
                        } else {
                            assert(before[flat(b, (x, y))]);
                        }
                    }
                    size = size + 1;
                    stack.push((PointT { x: q.x, y: q.y - 1 }, Some(q)));
                    stack.push((PointT { x: q.x + 1, y: q.y }, Some(q)));
                    stack.push((PointT { x: q.x, y: q.y + 1 }, Some(q)));
                    stack.push((PointT { x: q.x - 1, y: q.y }, Some(q)));
                    proof {
                        lemma_pop_mark(g, b, v0, before, st0, stack@, q, idx as int, id);
                        if holds(g, b, p@, id) {
                            assert(0 <= p.y * b.width + p.x < b.width * b.height) by (nonlinear_arith)
                                requires
                                    0 <= p.x < b.width,
                                    0 <= p.y < b.height,
                            ;
                        }
                        if holds(g, b, p@, id) && !v0[flat(b, p@)] && !before[flat(b, p@)] {
                            assert(st0.len() > 0 && st0[0].0 == p);
                            if st0.len() == 1 {
                                assert(q == p);
                                assert(idx as int == flat(b, q@));
                                assert(out_visited@[idx as int]);
                            } else {
                                assert(stack@[0] == st0[0]);
                            }
                        }
                    }
                    continue;
                }
            }
            match from {
                Some(f) => {
                    let ghost old_fences = out_fences@;
                    out_fences.push(Fence::new(f, q));
                    assert(out_fences@.subrange(0, f0.len() as int) =~= old_fences.subrange(0, f0.len() as int));
                    assert forall|i: int| f0.len() <= i < out_fences@.len() implies is_boundary(g, b, id, #[trigger] out_fences@[i]) by {
                        if i < old_fences.len() {
                            assert(out_fences@[i] == old_fences[i]);
                        } else {
                            if in_grid(b, q@) {
                                assert(g[q.y as int][q.x as int] != Some(id));
                            }
                        }
                    }
                },
                None => {},
            }
            proof {
                lemma_pop_unmarked(g, b, v0, out_visited@, st0, q, id);
            }
        }
        size
    }
}

proof fn lemma_pop_unmarked(
    g: Seq<Seq<Option<char>>>,
    b: RectT,
    v0: Seq<bool>,
    vis: Seq<bool>,
    st: Seq<(PointT, Option<PointT>)>,
    q: PointT,
    id: char,
)
    requires
        st.len() > 0,
        st.last().0 == q,
        holds(g, b, q@, id) ==> vis[flat(b, q@)],
        forall|x: int, y: int, k: int|
            #![trigger newly_at(b, v0, vis, x, y), neighbour((x, y), k)]
            0 <= k < 4 && newly_at(b, v0, vis, x, y) && holds(g, b, neighbour((x, y), k), id)
                ==> vis[flat(b, neighbour((x, y), k))] || pending(st, neighbour((x, y), k)),
    ensures
        forall|x: int, y: int, k: int|
            #![trigger newly_at(b, v0, vis, x, y), neighbour((x, y), k)]
            0 <= k < 4 && newly_at(b, v0, vis, x, y) && holds(g, b, neighbour((x, y), k), id)
                ==> vis[flat(b, neighbour((x, y), k))] || pending(st.drop_last(), neighbour((x, y), k)),
{
    let rest = st.drop_last();
    assert forall|x: int, y: int, k: int|
        #![trigger newly_at(b, v0, vis, x, y), neighbour((x, y), k)]
        0 <= k < 4 && newly_at(b, v0, vis, x, y) && holds(g, b, neighbour((x, y), k), id) implies vis[flat(
            b,
            neighbour((x, y), k),
        )] || pending(rest, neighbour((x, y), k)) by {
        let n = neighbour((x, y), k);
        if !vis[flat(b, n)] {
            let j = choose|j: int| 0 <= j < st.len() && (#[trigger] st[j]).0@ == n;
            if j == st.len() - 1 {
                assert(n == q@);
            } else {
                assert(rest[j] == st[j]);
            }
        }
    }
}

proof fn lemma_pop_mark(
    g: Seq<Seq<Option<char>>>,
    b: RectT,
    v0: Seq<bool>,
    vis: Seq<bool>,
    st: Seq<(PointT, Option<PointT>)>,
    st2: Seq<(PointT, Option<PointT>)>,
    q: PointT,
    idx: int,
    id: char,
)
    requires
        st.len() > 0,
        st.last().0 == q,
        in_grid(b, q@),
        b.width >= 0,
        idx == flat(b, q@),
        0 <= idx < vis.len(),
        v0.len() == vis.len(),
        vis.len() == b.width * b.height,
        st2.len() == st.len() + 3,
        forall|j: int| 0 <= j < st.len() - 1 ==> st2[j] == st[j],
        st2[st.len() - 1].0@ == neighbour(q@, 0),
        st2[st.len() as int].0@ == neighbour(q@, 1),
        st2[st.len() as int + 1].0@ == neighbour(q@, 2),
        st2[st.len() as int + 2].0@ == neighbour(q@, 3),
        forall|x: int, y: int, k: int|
            #![trigger newly_at(b, v0, vis, x, y), neighbour((x, y), k)]
            0 <= k < 4 && newly_at(b, v0, vis, x, y) && holds(g, b, neighbour((x, y), k), id)
                ==> vis[flat(b, neighbour((x, y), k))] || pending(st, neighbour((x, y), k)),
    ensures
        forall|x: int, y: int, k: int|
            #![trigger newly_at(b, v0, vis.update(idx, true), x, y), neighbour((x, y), k)]
            0 <= k < 4 && newly_at(b, v0, vis.update(idx, true), x, y) && holds(g, b, neighbour((x, y), k), id)
                ==> vis.update(idx, true)[flat(b, neighbour((x, y), k))] || pending(st2, neighbour((x, y), k)),
{
    let vis2 = vis.update(idx, true);
    assert forall|x: int, y: int, k: int|
        #![trigger newly_at(b, v0, vis2, x, y), neighbour((x, y), k)]
        0 <= k < 4 && newly_at(b, v0, vis2, x, y) && holds(g, b, neighbour((x, y), k), id) implies vis2[flat(
            b,
            neighbour((x, y), k),
        )] || pending(st2, neighbour((x, y), k)) by {
        let n = neighbour((x, y), k);
        assert(0 <= y * b.width + x < b.width * b.height) by (nonlinear_arith)
            requires
                0 <= x < b.width,
                0 <= y < b.height,
        ;
        assert(0 <= n.1 * b.width + n.0 < b.width * b.height) by (nonlinear_arith)
            requires
                0 <= n.0 < b.width,
                0 <= n.1 < b.height,
        ;
        if flat(b, (x, y)) == idx {
            lemma_flat_injective(b.width as int, x, y, q.x as int, q.y as int);
            assert((x, y) == q@);
            let j = st.len() - 1 + k;
            assert(st2[j].0@ == n);
        } else {
            assert(newly_at(b, v0, vis, x, y));
            if !vis2[flat(b, n)] {
                assert(!vis[flat(b, n)]);
                let j = choose|j: int| 0 <= j < st.len() && (#[trigger] st[j]).0@ == n;
                if j == st.len() - 1 {
                    assert(n == q@);
                    assert(flat(b, n) == idx);
                } else {
                    assert(st2[j] == st[j]);
                }
            }
        }
    }
}

proof fn lemma_flat_injective(w: int, x1: int, y1: int, x2: int, y2: int)
    requires
        0 <= x1 < w,
        0 <= x2 < w,
        0 <= y1,
        0 <= y2,
        y1 * w + x1 == y2 * w + x2,
    ensures
        x1 == x2,
        y1 == y2,
{
    if y1 < y2 {
        assert(y1 * w + w <= y2 * w) by (nonlinear_arith)
            requires
                y1 < y2,
                w > 0,
        ;
    } else if y2 < y1 {
        assert(y2 * w + w <= y1 * w) by (nonlinear_arith)
            requires
                y2 < y1,
                w > 0,
        ;
    }
}

/// The price of the areas with fences counted one by one: each area's cell
/// count times its number of fences, summed.
pub open spec fn fence_price(areas: Seq<Area>) -> int
    decreases areas.len(),
{
    if areas.len() == 0 {
        0
    } else {
        fence_price(areas.drop_last()) + areas.last().area * areas.last().fences@.len()
    }
}

/// The fence one step back along the side that `f` lies on.
pub open spec fn along_before(f: Fence) -> Fence {
    let dx: int = if f.inside.x == f.outside.x { 1 } else { 0 };
    let dy: int = if f.inside.y == f.outside.y { 1 } else { 0 };
    Fence {
        inside: PointT { x: (f.inside.x - dx) as i64, y: (f.inside.y - dy) as i64 },
        outside: PointT { x: (f.outside.x - dx) as i64, y: (f.outside.y - dy) as i64 },
    }
}

/// How many straight sides the fences form: the fences among the first `k`
/// that have no fence right before them along their side.
pub open spec fn side_starts(fs: Seq<Fence>, k: int) -> nat
    decreases k,
{
    if k <= 0 {
        0
    } else {
        side_starts(fs, k - 1) + if fs.contains(along_before(fs[k - 1])) {
            0nat
        } else {
            1nat
        }
    }
}

/// The price of the areas with each straight side counted once.
pub open spec fn side_price(areas: Seq<Area>) -> int
    decreases areas.len(),
{
    if areas.len() == 0 {
        0
    } else {
        side_price(areas.drop_last()) + areas.last().area * side_starts(
            areas.last().fences@,
            areas.last().fences@.len() as int,
        )
    }
}

/// Cell counts are not negative, and fence coordinates can step back by one.
pub open spec fn areas_ok(areas: Seq<Area>) -> bool {
    forall|i: int|
        0 <= i < areas.len() ==> {
            let a = #[trigger] areas[i];
            &&& a.area >= 0
            &&& a.fences@.len() <= i64::MAX
            &&& forall|j: int|
                0 <= j < a.fences@.len() ==> {
                    let f = #[trigger] a.fences@[j];
                    f.inside.x > i64::MIN && f.inside.y > i64::MIN && f.outside.x > i64::MIN
                        && f.outside.y > i64::MIN
                }
        }
}

proof fn lemma_fence_price_prefix(areas: Seq<Area>, k: int)
    requires
        0 <= k <= areas.len(),
        areas_ok(areas),
    ensures
        fence_price(areas.take(k)) <= fence_price(areas),
        0 <= fence_price(areas.take(k)),
    decreases areas.len() - k,
{
    assert(areas_ok(areas.take(k))) by {
        assert forall|i: int| 0 <= i < areas.take(k).len() implies #[trigger] areas.take(k)[i] == areas[i] by {}
    }
    lemma_fence_price_nonneg(areas.take(k));
    if k < areas.len() {
        assert(areas.take(k + 1).drop_last() =~= areas.take(k));
        let a = areas[k];
        assert(a.area >= 0);
        assert(a.area * a.fences@.len() >= 0) by (nonlinear_arith)
            requires
                a.area >= 0,
        ;
        lemma_fence_price_prefix(areas, k + 1);
    } else {
        assert(areas.take(k) =~= areas);
        lemma_fence_price_nonneg(areas);
    }
}

proof fn lemma_fence_price_nonneg(areas: Seq<Area>)
    requires
        areas_ok(areas),
    ensures
        0 <= fence_price(areas),
    decreases areas.len(),
{
    if areas.len() > 0 {
        let a = areas.last();
        assert(areas[areas.len() - 1] == a);
        assert(a.area * a.fences@.len() >= 0) by (nonlinear_arith)
            requires
                a.area >= 0,
        ;
        assert(areas_ok(areas.drop_last())) by {
            assert forall|i: int| 0 <= i < areas.drop_last().len() implies #[trigger] areas.drop_last()[i] == areas[i] by {}
        }
        lemma_fence_price_nonneg(areas.drop_last());
    }
}

proof fn lemma_side_price_prefix(areas: Seq<Area>, k: int)
    requires
        0 <= k <= areas.len(),
        areas_ok(areas),
    ensures
        side_price(areas.take(k)) <= side_price(areas),
        0 <= side_price(areas.take(k)),
    decreases areas.len() - k,
{
    assert(areas_ok(areas.take(k))) by {
        assert forall|i: int| 0 <= i < areas.take(k).len() implies #[trigger] areas.take(k)[i] == areas[i] by {}
    }
    lemma_side_price_nonneg(areas.take(k));
    if k < areas.len() {
        assert(areas.take(k + 1).drop_last() =~= areas.take(k));
        let a = areas[k];
        let n = side_starts(a.fences@, a.fences@.len() as int);
        assert(a.area * n >= 0) by (nonlinear_arith)
            requires
                a.area >= 0,
        ;
        lemma_side_price_prefix(areas, k + 1);
    } else {
        assert(areas.take(k) =~= areas);
        lemma_side_price_nonneg(areas);
    }
}

proof fn lemma_side_price_nonneg(areas: Seq<Area>)
    requires
        areas_ok(areas),
    ensures
        0 <= side_price(areas),
    decreases areas.len(),
{
    if areas.len() > 0 {
        let a = areas.last();
        assert(areas[areas.len() - 1] == a);
        let n = side_starts(a.fences@, a.fences@.len() as int);
        assert(a.area * n >= 0) by (nonlinear_arith)
            requires
                a.area >= 0,
        ;
        assert(areas_ok(areas.drop_last())) by {
            assert forall|i: int| 0 <= i < areas.drop_last().len() implies #[trigger] areas.drop_last()[i] == areas[i] by {}
        }
        lemma_side_price_nonneg(areas.drop_last());
    }
}

fn has_fence(fs: &Vec<Fence>, f: Fence) -> (r: bool)
    ensures
        r == fs@.contains(f),
{
    let mut i: usize = 0;
    while i < fs.len()
        invariant
            0 <= i <= fs.len(),
            forall|k: int| 0 <= k < i ==> fs@[k] != f,
        decreases fs.len() - i,
    {
        if fs[i] == f {
            return true;
        }
        i += 1;
    }
    false
}

fn sides_of(fs: &Vec<Fence>) -> (r: i64)
    requires
        fs@.len() <= i64::MAX,
        forall|j: int|
            0 <= j < fs@.len() ==> {
                let f = #[trigger] fs@[j];
                f.inside.x > i64::MIN && f.inside.y > i64::MIN && f.outside.x > i64::MIN
                    && f.outside.y > i64::MIN
            },
    ensures
        r == side_starts(fs@, fs@.len() as int),
{
    let mut n: i64 = 0;
    let mut i: usize = 0;
    while i < fs.len()
        invariant
            0 <= i <= fs.len(),
            n == side_starts(fs@, i as int),
            n <= i,
            fs@.len() <= i64::MAX,
            forall|j: int|
                0 <= j < fs@.len() ==> {
                    let f = #[trigger] fs@[j];
                    f.inside.x > i64::MIN && f.inside.y > i64::MIN && f.outside.x > i64::MIN
                        && f.outside.y > i64::MIN
                },
        decreases fs.len() - i,
    {
        let f = fs[i];
        assert(fs@[i as int] == f);
        let dx: i64 = if f.inside.x == f.outside.x {
            1
        } else {
            0
        };
        let dy: i64 = if f.inside.y == f.outside.y {
            1
        } else {
            0
        };
        let before = Fence {
            inside: PointT { x: f.inside.x - dx, y: f.inside.y - dy },
            outside: PointT { x: f.outside.x - dx, y: f.outside.y - dy },
        };
        assert(before == along_before(f));
        if !has_fence(fs, before) {
            n += 1;
        }
        i += 1;
    }
    n
}

impl Garden {
    /// Splits the map into regions: every cell not yet in a region starts a
    /// new one, made of the cells holding the same plant that it reaches.
    pub fn build_areas(&mut self)
        requires
            rectangular(grid(old(self).map@), old(self).bounds),
        ensures
            final(self).map == old(self).map,
            final(self).bounds == old(self).bounds,
            areas_ok(final(self).areas@),
            forall|i: int|
                0 <= i < final(self).areas@.len() ==> boundary_fences(
                    grid(final(self).map@),
                    final(self).bounds,
                    (#[trigger] final(self).areas@[i]).id,
                    final(self).areas@[i].fences@,
                    0,
                ),
    {
        let ghost g = grid(self.map@);
        let w = self.bounds.width;
        let h = self.bounds.height;
        let cells = (w * h) as usize;
        self.areas = Vec::new();
        let mut taken: Vec<bool> = Vec::new();
        while taken.len() < cells
            invariant
                taken@.len() <= cells,
            decreases cells - taken@.len(),
        {
            taken.push(false);
        }
        let mut y: i64 = 0;
        while y < h
            invariant
                0 <= y <= h,
                g == grid(self.map@),
                w == self.bounds.width,
                h == self.bounds.height,
                cells == w * h,
                taken@.len() == cells,
                rectangular(g, self.bounds),
                self.map == old(self).map,
                self.bounds == old(self).bounds,
                areas_ok(self.areas@),
                forall|i: int|
                    0 <= i < self.areas@.len() ==> boundary_fences(
                        g,
                        self.bounds,
                        (#[trigger] self.areas@[i]).id,
                        self.areas@[i].fences@,
                        0,
                    ),
            decreases h - y,
        {
            let mut x: i64 = 0;
            while x < w
                invariant
                    0 <= x <= w,
                    0 <= y < h,
                    g == grid(self.map@),
                    w == self.bounds.width,
                    h == self.bounds.height,
                    cells == w * h,
                    taken@.len() == cells,
                    rectangular(g, self.bounds),
                    self.map == old(self).map,
                    self.bounds == old(self).bounds,
                    areas_ok(self.areas@),
                    forall|i: int|
                        0 <= i < self.areas@.len() ==> boundary_fences(
                            g,
                            self.bounds,
                            (#[trigger] self.areas@[i]).id,
                            self.areas@[i].fences@,
                            0,
                        ),
                decreases w - x,
            {
                assert(0 <= y * w + x < w * h) by (nonlinear_arith)
                    requires
                        0 <= x < w,
                        0 <= y < h,
                ;
                let idx = (y * w + x) as usize;
                let row = &self.map[y as usize];
                assert(g[y as int] == self.map@[y as int]@);
                let start = row[x as usize];
                if !taken[idx] {
                    if let Some(chr) = start {
                        let mut visited: Vec<bool> = Vec::new();
                        while visited.len() < cells
                            invariant
                                visited@.len() <= cells,
                            decreases cells - visited@.len(),
                        {
                            visited.push(false);
                        }
                        let mut fences: Vec<Fence> = Vec::new();
                        let size = self.rec_map_area(chr, PointT { x, y }, None, &mut visited, &mut fences);
                        proof {
                            lemma_unmarked_bound(visited@);
                        }
                        let mut k: usize = 0;
                        while k < cells
                            invariant
                                0 <= k <= cells,
                                taken@.len() == cells,
                                visited@.len() == cells,
                            decreases cells - k,
                        {
                            if visited[k] {
                                taken.set(k, true);
                            }
                            k += 1;
                        }
                        assert(fences@.len() <= i64::MAX);
                        let area = Area { id: chr, area: size, fences };
                        let ghost before = self.areas@;
                        let ghost ga = area;
                        self.areas.push(area);
                        assert(self.areas@ == before.push(ga));
                        proof {
                            lemma_areas_push(g, self.bounds, before, ga);
                        }
                    }
                }
                x += 1;
            }
            y += 1;
        }
    }

    /// Each region's cell count times its number of fences, summed.
    pub fn get_part1(&self) -> (r: i64)
        requires
            areas_ok(self.areas@),
            fence_price(self.areas@) <= i64::MAX,
        ensures
            r == fence_price(self.areas@),
    {
        let mut acc: i64 = 0;
        let mut k: usize = 0;
        while k < self.areas.len()
            invariant
                0 <= k <= self.areas.len(),
                areas_ok(self.areas@),
                fence_price(self.areas@) <= i64::MAX,
                acc == fence_price(self.areas@.take(k as int)),
            decreases self.areas.len() - k,
        {
            proof {
                lemma_fence_price_prefix(self.areas@, k as int);
                lemma_fence_price_prefix(self.areas@, k + 1);
                assert(self.areas@.take(k + 1).drop_last() =~= self.areas@.take(k as int));
            }
            let a = &self.areas[k];
            assert(self.areas@.take(k + 1).last() == *a);
            assert(a.area >= 0);
            let n = a.fences.len() as i64;
            assert(0 <= a.area * n) by (nonlinear_arith)
                requires
                    a.area >= 0,
                    n >= 0,
            ;
            acc = acc + a.area * n;
            k += 1;
        }
        assert(self.areas@.take(k as int) =~= self.areas@);
        acc
    }

    /// Each region's cell count times its number of straight sides, summed.
    pub fn get_part2(&self) -> (r: i64)
        requires
            areas_ok(self.areas@),
            side_price(self.areas@) <= i64::MAX,
        ensures
            r == side_price(self.areas@),
    {
        let mut acc: i64 = 0;
        let mut k: usize = 0;
        while k < self.areas.len()
            invariant
                0 <= k <= self.areas.len(),
                areas_ok(self.areas@),
                side_price(self.areas@) <= i64::MAX,
                acc == side_price(self.areas@.take(k as int)),
            decreases self.areas.len() - k,
        {
            proof {
                lemma_side_price_prefix(self.areas@, k as int);
                lemma_side_price_prefix(self.areas@, k + 1);
                assert(self.areas@.take(k + 1).drop_last() =~= self.areas@.take(k as int));
            }
            let a = &self.areas[k];
            assert(self.areas@.take(k + 1).last() == *a);
            assert(a.area >= 0);
            let n = sides_of(&a.fences);
            assert(0 <= a.area * n) by (nonlinear_arith)
                requires
                    a.area >= 0,
                    n >= 0,
            ;
            acc = acc + a.area * n;
            k += 1;
        }
        assert(self.areas@.take(k as int) =~= self.areas@);
        acc
    }
}

proof fn lemma_areas_push(g: Seq<Seq<Option<char>>>, b: RectT, before: Seq<Area>, a: Area)
    requires
        areas_ok(before),
        forall|i: int|
            0 <= i < before.len() ==> boundary_fences(g, b, (#[trigger] before[i]).id, before[i].fences@, 0),
        a.area >= 0,
        a.fences@.len() <= i64::MAX,
        boundary_fences(g, b, a.id, a.fences@, 0),
        rectangular(g, b),
    ensures
        areas_ok(before.push(a)),
        forall|i: int|
            0 <= i < before.push(a).len() ==> boundary_fences(
                g,
                b,
                (#[trigger] before.push(a)[i]).id,
                before.push(a)[i].fences@,
                0,
            ),
{
    let after = before.push(a);
    assert forall|i: int| 0 <= i < after.len() implies {
        let x = #[trigger] after[i];
        &&& x.area >= 0
        &&& x.fences@.len() <= i64::MAX
        &&& forall|j: int|
            0 <= j < x.fences@.len() ==> {
                let f = #[trigger] x.fences@[j];
                f.inside.x > i64::MIN && f.inside.y > i64::MIN && f.outside.x > i64::MIN
                    && f.outside.y > i64::MIN
            }
    } by {
        if i < before.len() {
            assert(after[i] == before[i]);
        } else {
            assert(after[i] == a);
            assert forall|j: int| 0 <= j < a.fences@.len() implies {
                let f = #[trigger] a.fences@[j];
                f.inside.x > i64::MIN && f.inside.y > i64::MIN && f.outside.x > i64::MIN
                    && f.outside.y > i64::MIN
            } by {
                assert(is_boundary(g, b, a.id, a.fences@[j]));
            }
        }
    }
    assert forall|i: int| 0 <= i < after.len() implies boundary_fences(
        g,
        b,
        (#[trigger] after[i]).id,
        after[i].fences@,
        0,
    ) by {
        if i < before.len() {
            assert(after[i] == before[i]);
        } else {
            assert(after[i] == a);
        }
    }
}

} // verus!
