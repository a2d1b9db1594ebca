//! Bounding boxes of connected regions of differing pixels.
//!
//! Two differing pixels belong to the same region when a chain of differing
//! pixels joins them, each step moving to one of the 8 surrounding pixels.
use vstd::prelude::*;

verus! {

/// A bounding box around a region of differing pixels.
#[derive(Debug, Clone, Copy)]
pub struct BoundingBox {
    pub x: u32,
    pub y: u32,
    pub width: u32,
    pub height: u32,
}

/// A pixel position `(x, y)`.
pub type Cell = (int, int);

/// Whether `c` lies in a `w` x `h` image.
pub open spec fn in_image(w: int, h: int, c: Cell) -> bool {
    0 <= c.0 < w && 0 <= c.1 < h
}

/// Index of `c` in a row-major mask of rows `w` wide.
pub open spec fn cell_index(w: int, c: Cell) -> int {
    c.1 * w + c.0
}

/// Whether `c` is a differing pixel of the mask.
pub open spec fn is_diff(mask: Seq<bool>, w: int, h: int, c: Cell) -> bool {
    in_image(w, h, c) && mask[cell_index(w, c)]
}

/// Whether `a` and `b` are distinct and one of the 8 neighbours of each other.
pub open spec fn touching(a: Cell, b: Cell) -> bool {
    a != b && -1 <= a.0 - b.0 <= 1 && -1 <= a.1 - b.1 <= 1
}

/// Whether `p` is a non-empty chain of differing pixels, each touching the next.
pub open spec fn is_diff_path(mask: Seq<bool>, w: int, h: int, p: Seq<Cell>) -> bool {
    &&& p.len() > 0
    &&& forall|i: int| 0 <= i < p.len() ==> is_diff(mask, w, h, #[trigger] p[i])
    &&& forall|i: int| 0 <= i < p.len() - 1 ==> touching(#[trigger] p[i], p[i + 1])
}

/// Whether a chain of differing pixels leads from `a` to `b`.
#[verifier::opaque]
pub open spec fn connected(mask: Seq<bool>, w: int, h: int, a: Cell, b: Cell) -> bool {
    exists|p: Seq<Cell>| is_diff_path(mask, w, h, p) && p[0] == a && p.last() == b
}

/// Number of cells `(x', y)` with `x' < x` that satisfy `pred`.
pub open spec fn row_count(pred: spec_fn(Cell) -> bool, y: int, x: int) -> int
    decreases x,
{
    if x <= 0 {
        0
    } else {
        row_count(pred, y, x - 1) + if pred((x - 1, y)) {
            1int
        } else {
            0int
        }
    }
}

/// Number of cells in the first `y` rows of width `w` that satisfy `pred`.
pub open spec fn grid_count(pred: spec_fn(Cell) -> bool, w: int, y: int) -> int
    decreases y,
{
    if y <= 0 {
        0
    } else {
        grid_count(pred, w, y - 1) + row_count(pred, y - 1, w)
    }
}

/// Number of pixels in the region of `r`.
pub open spec fn component_area(mask: Seq<bool>, w: int, h: int, r: Cell) -> int {
    grid_count(|c: Cell| connected(mask, w, h, r, c), w, h)
}

/// Whether `b` is the smallest box holding every pixel of the region of `r`.
pub open spec fn bounds_component(mask: Seq<bool>, w: int, h: int, r: Cell, b: BoundingBox) -> bool {
    &&& b.width >= 1
    &&& b.height >= 1
    &&& forall|c: Cell|
        #[trigger] connected(mask, w, h, r, c) ==> b.x <= c.0 < b.x + b.width && b.y <= c.1 < b.y + b.height
    &&& exists|c: Cell| #[trigger] connected(mask, w, h, r, c) && c.0 == b.x
    &&& exists|c: Cell| #[trigger] connected(mask, w, h, r, c) && c.0 == b.x + b.width - 1
    &&& exists|c: Cell| #[trigger] connected(mask, w, h, r, c) && c.1 == b.y
    &&& exists|c: Cell| #[trigger] connected(mask, w, h, r, c) && c.1 == b.y + b.height - 1
}

/// `reps` picks one pixel of each region listed in `boxes`: `boxes[i]` bounds
/// the region of `reps[i]`, the regions are pairwise distinct, each has at
/// least `min_area` pixels, and every region that large is listed.
#[verifier::opaque]
pub open spec fn regions_witness(
    mask: Seq<bool>,
    w: int,
    h: int,
    min_area: int,
    boxes: Seq<BoundingBox>,
    reps: Seq<Cell>,
) -> bool {
    &&& reps.len() == boxes.len()
    &&& forall|i: int|
        0 <= i < reps.len() ==> {
            &&& is_diff(mask, w, h, #[trigger] reps[i])
            &&& component_area(mask, w, h, reps[i]) >= min_area
            &&& bounds_component(mask, w, h, reps[i], boxes[i])
        }
    &&& forall|i: int, j: int|
        0 <= i < reps.len() && 0 <= j < reps.len() && i != j ==> !connected(
            mask,
            w,
            h,
            #[trigger] reps[i],
            #[trigger] reps[j],
        )
    &&& forall|c: Cell|
        is_diff(mask, w, h, c) && component_area(mask, w, h, c) >= min_area ==> exists|i: int|
            0 <= i < reps.len() && #[trigger] connected(mask, w, h, reps[i], c)
}

/// `boxes` lists exactly one box per region of at least `min_area` pixels.
pub open spec fn regions_of(mask: Seq<bool>, w: int, h: int, min_area: int, boxes: Seq<BoundingBox>) -> bool {
    exists|reps: Seq<Cell>| regions_witness(mask, w, h, min_area, boxes, reps)
}

/// Whether `a` comes no later than `b` in row-major order of their corners.
pub open spec fn box_before(a: BoundingBox, b: BoundingBox) -> bool {
    a.y < b.y || (a.y == b.y && a.x <= b.x)
}

/// Whether `boxes` is ordered by top edge, then left edge.
pub open spec fn sorted_by_position(boxes: Seq<BoundingBox>) -> bool {
    forall|i: int, j: int| 0 <= i < j < boxes.len() ==> box_before(#[trigger] boxes[i], #[trigger] boxes[j])
}

// ----- connectivity lemmas -----

/// A region is the same seen from either end.
pub proof fn lemma_connected_symmetric(mask: Seq<bool>, w: int, h: int, a: Cell, b: Cell)
    requires
        connected(mask, w, h, a, b),
    ensures
        connected(mask, w, h, b, a),
{
    reveal(connected);
    let p = choose|p: Seq<Cell>| is_diff_path(mask, w, h, p) && p[0] == a && p.last() == b;
    let q = p.reverse();
    assert forall|i: int| 0 <= i < q.len() implies is_diff(mask, w, h, #[trigger] q[i]) by {
        assert(q[i] == p[p.len() - 1 - i]);
    }
    assert forall|i: int| 0 <= i < q.len() - 1 implies touching(#[trigger] q[i], q[i + 1]) by {
        let k = p.len() - 2 - i;
        assert(q[i] == p[k + 1]);
        assert(q[i + 1] == p[k]);
        assert(touching(p[k], p[k + 1]));
    }
    assert(q[0] == b);
    assert(q.last() == a);
    assert(is_diff_path(mask, w, h, q));
}

/// Chains join: regions are equivalence classes.
pub proof fn lemma_connected_transitive(mask: Seq<bool>, w: int, h: int, a: Cell, b: Cell, c: Cell)
    requires
        connected(mask, w, h, a, b),
        connected(mask, w, h, b, c),
    ensures
        connected(mask, w, h, a, c),
{
    reveal(connected);
    let p = choose|p: Seq<Cell>| is_diff_path(mask, w, h, p) && p[0] == a && p.last() == b;
    let q = choose|q: Seq<Cell>| is_diff_path(mask, w, h, q) && q[0] == b && q.last() == c;
    let r = p + q.drop_first();
    assert forall|i: int| 0 <= i < r.len() implies is_diff(mask, w, h, #[trigger] r[i]) by {
        if i < p.len() {
            assert(r[i] == p[i]);
        } else {
            assert(r[i] == q[i - p.len() + 1]);
        }
    }
    assert forall|i: int| 0 <= i < r.len() - 1 implies touching(#[trigger] r[i], r[i + 1]) by {
        if i < p.len() - 1 {
            assert(r[i] == p[i]);
            assert(r[i + 1] == p[i + 1]);
        } else if i == p.len() - 1 {
            assert(r[i] == p[i]);
            assert(r[i] == q[0]);
            assert(r[i + 1] == q[1]);
            assert(touching(q[0], q[1]));
        } else {
            let k = i - p.len() + 1;
            assert(r[i] == q[k]);
            assert(r[i + 1] == q[k + 1]);
            assert(touching(q[k], q[k + 1]));
        }
    }
    if q.len() == 1 {
        assert(r =~= p);
    } else {
        assert(r.last() == q.last());
    }
    assert(is_diff_path(mask, w, h, r));
}

/// Extending a chain by one touching differing pixel.
proof fn lemma_path_push(mask: Seq<bool>, w: int, h: int, p: Seq<Cell>, d: Cell)
    requires
        is_diff_path(mask, w, h, p),
        is_diff(mask, w, h, d),
        touching(p.last(), d),
    ensures
        is_diff_path(mask, w, h, p.push(d)),
        p.push(d)[0] == p[0],
        p.push(d).last() == d,
{
    let q = p.push(d);
    assert forall|i: int| 0 <= i < q.len() implies is_diff(mask, w, h, #[trigger] q[i]) by {
        if i < p.len() {
            assert(q[i] == p[i]);
        }
    }
    assert forall|i: int| 0 <= i < q.len() - 1 implies touching(#[trigger] q[i], q[i + 1]) by {
        if i < p.len() - 1 {
            assert(q[i] == p[i]);
            assert(q[i + 1] == p[i + 1]);
        } else {
            assert(q[i] == p.last());
        }
    }
}


// ----- labelling -----

/// The label stored for cell `c`.
pub open spec fn label_of(labels: Seq<usize>, w: int, c: Cell) -> int {
    labels[cell_index(w, c)] as int
}

/// Every differing pixel touching `c` carries the label of `c`.
pub open spec fn closed_at(mask: Seq<bool>, w: int, h: int, labels: Seq<usize>, c: Cell) -> bool {
    forall|d: Cell|
        #[trigger] touching(c, d) && is_diff(mask, w, h, d) ==> label_of(labels, w, d) == label_of(labels, w, c)
}

/// `wit[c]` is a chain from the seed of `c`'s label to `c`.
pub open spec fn witnessed(
    mask: Seq<bool>,
    w: int,
    h: int,
    labels: Seq<usize>,
    seeds: Seq<Cell>,
    wit: Map<Cell, Seq<Cell>>,
    c: Cell,
) -> bool {
    &&& wit.contains_key(c)
    &&& is_diff_path(mask, w, h, wit[c])
    &&& wit[c][0] == seeds[label_of(labels, w, c) - 1]
    &&& wit[c].last() == c
}

/// The cell held in a stack slot.
pub open spec fn cell_of(p: (u32, u32)) -> Cell {
    (p.0 as int, p.1 as int)
}

/// Whether `c` waits in `stack`.
pub open spec fn pending(stack: Seq<(u32, u32)>, c: Cell) -> bool {
    exists|i: int| 0 <= i < stack.len() && cell_of(#[trigger] stack[i]) == c
}

/// Cell `c` comes before `(x, y)` in row-major order.
pub open spec fn before(c: Cell, x: int, y: int) -> bool {
    c.1 < y || (c.1 == y && c.0 < x)
}

/// The facts the labelling keeps between steps, apart from closure.
pub open spec fn labelling_ok(
    mask: Seq<bool>,
    w: int,
    h: int,
    labels: Seq<usize>,
    ncomp: int,
    seeds: Seq<Cell>,
    wit: Map<Cell, Seq<Cell>>,
) -> bool {
    &&& labels.len() == w * h
    &&& mask.len() == w * h
    &&& seeds.len() == ncomp
    &&& forall|c: Cell|
        in_image(w, h, c) ==> #[trigger] label_of(labels, w, c) <= ncomp && (label_of(labels, w, c) != 0
            ==> is_diff(mask, w, h, c) && witnessed(mask, w, h, labels, seeds, wit, c))
    &&& forall|l: int|
        1 <= l <= ncomp ==> is_diff(mask, w, h, #[trigger] seeds[l - 1]) && label_of(labels, w, seeds[l - 1])
            == l
}

proof fn lemma_index_bounds(w: int, h: int, c: Cell)
    requires
        in_image(w, h, c),
    ensures
        0 <= cell_index(w, c) < w * h,
{
    assert(0 <= c.1 * w + c.0 < w * h) by (nonlinear_arith)
        requires
            0 <= c.0 < w,
            0 <= c.1 < h,
    ;
}

proof fn lemma_index_injective(w: int, h: int, a: Cell, b: Cell)
    requires
        in_image(w, h, a),
        in_image(w, h, b),
        cell_index(w, a) == cell_index(w, b),
    ensures
        a == b,
{
    assert(a.1 == b.1) by (nonlinear_arith)
        requires
            0 <= a.0 < w,
            0 <= b.0 < w,
            a.1 * w + a.0 == b.1 * w + b.0,
    ;
}

/// Every pixel touching `c` is one of its window cells.
proof fn lemma_touching_is_window_cell(c: Cell, d: Cell, w: int, h: int)
    requires
        touching(c, d),
        in_image(w, h, d),
    ensures
        ({
            let t = (d.1 - c.1 + 1) * 3 + (d.0 - c.0 + 1);
            0 <= t < 9 && crate::antialias::is_neighbour(c.0, c.1, w, h, t) && crate::antialias::window_cell(
                c.0,
                c.1,
                t,
            ) == d
        }),
{
    let dx = d.0 - c.0 + 1;
    let dy = d.1 - c.1 + 1;
    let t = dy * 3 + dx;
    assert(0 <= dx < 3 && 0 <= dy < 3);
    assert(t % 3 == dx && t / 3 == dy) by (nonlinear_arith)
        requires
            0 <= dx < 3,
            0 <= dy < 3,
            t == dy * 3 + dx,
    ;
}

/// Window cell `t` of `(x, y)` and whether it is a neighbour inside the image.
fn window_neighbour(x: u32, y: u32, width: u32, height: u32, t: u32) -> (r: (bool, u32, u32))
    requires
        x < width,
        y < height,
        t < 9,
    ensures
        r.0 == crate::antialias::is_neighbour(x as int, y as int, width as int, height as int, t as int),
        r.0 ==> cell_of((r.1, r.2)) == crate::antialias::window_cell(x as int, y as int, t as int),
        r.0 ==> r.1 < width && r.2 < height,
{
    let dx = t % 3;
    let dy = t / 3;
    if t == 4 {
        return (false, 0, 0);
    }
    if dx == 0 && x == 0 {
        return (false, 0, 0);
    }
    if dy == 0 && y == 0 {
        return (false, 0, 0);
    }
    if dx == 2 && x + 1 >= width {
        return (false, 0, 0);
    }
    if dy == 2 && y + 1 >= height {
        return (false, 0, 0);
    }
    let nx = if dx == 0 { x - 1 } else if dx == 1 { x } else { x + 1 };
    let ny = if dy == 0 { y - 1 } else if dy == 1 { y } else { y + 1 };
    (true, nx, ny)
}


/// Indices of labelled cells.
pub open spec fn labelled_set(labels: Seq<usize>, done: Set<int>) -> bool {
    &&& done.finite()
    &&& forall|i: int| #[trigger] done.contains(i) <==> (0 <= i < labels.len() && labels[i] != 0)
}

proof fn lemma_done_bound(labels: Seq<usize>, done: Set<int>)
    requires
        labelled_set(labels, done),
    ensures
        done.len() <= labels.len(),
{
    vstd::set_lib::lemma_int_range(0, labels.len() as int);
    assert(done.subset_of(vstd::set_lib::set_int_range(0, labels.len() as int)));
    vstd::set_lib::lemma_len_subset(done, vstd::set_lib::set_int_range(0, labels.len() as int));
}

/// Gives label `label` to cell `d` (index `i`), which had none.
proof fn lemma_label_cell(
    mask: Seq<bool>,
    w: int,
    h: int,
    labels: Seq<usize>,
    labels2: Seq<usize>,
    d: Cell,
    label: int,
)
    requires
        labels.len() == w * h,
        in_image(w, h, d),
        label_of(labels, w, d) == 0,
        labels2 == labels.update(cell_index(w, d), label as usize),
    ensures
        forall|c: Cell| in_image(w, h, c) && c != d ==> label_of(labels2, w, c) == label_of(labels, w, c),
        forall|c: Cell|
            in_image(w, h, c) && label_of(labels, w, c) != 0 && closed_at(mask, w, h, labels, c) ==> closed_at(
                mask,
                w,
                h,
                labels2,
                c,
            ),
{
    assert forall|c: Cell| in_image(w, h, c) && c != d implies label_of(labels2, w, c) == label_of(
        labels,
        w,
        c,
    ) by {
        lemma_index_bounds(w, h, c);
        lemma_index_bounds(w, h, d);
        if cell_index(w, c) == cell_index(w, d) {
            lemma_index_injective(w, h, c, d);
        }
    }
    assert forall|c: Cell|
        in_image(w, h, c) && label_of(labels, w, c) != 0 && closed_at(mask, w, h, labels, c) implies closed_at(
        mask,
        w,
        h,
        labels2,
        c,
    ) by {
        assert(c != d);
        assert forall|e: Cell| #[trigger] touching(c, e) && is_diff(mask, w, h, e) implies label_of(
            labels2,
            w,
            e,
        ) == label_of(labels2, w, c) by {
            assert(label_of(labels, w, e) == label_of(labels, w, c));
            assert(e != d);
        }
    }
}

/// What the scan of the neighbours of `cur` keeps, after `t` window cells.
pub open spec fn visit_state(
    mask: Seq<bool>,
    w: int,
    h: int,
    labels: Seq<usize>,
    stack: Seq<(u32, u32)>,
    label: int,
    cur: Cell,
    t: int,
    seeds2: Seq<Cell>,
    wit2: Map<Cell, Seq<Cell>>,
    done2: Set<int>,
    old_labels: Seq<usize>,
    seed: Cell,
) -> bool {
    &&& w * h <= usize::MAX
    &&& in_image(w, h, cur)
    &&& labelling_ok(mask, w, h, labels, label, seeds2, wit2)
    &&& labelled_set(labels, done2)
    &&& done2.len() <= w * h
    &&& label_of(labels, w, cur) == label
    &&& forall|c: Cell|
        in_image(w, h, c) && #[trigger] label_of(labels, w, c) != 0 ==> closed_at(mask, w, h, labels, c) || pending(
            stack,
            c,
        ) || c == cur
    &&& forall|i: int|
        0 <= i < stack.len() ==> in_image(w, h, cell_of(#[trigger] stack[i])) && label_of(labels, w, cell_of(stack[i]))
            == label
    &&& forall|s: int|
        0 <= s < t && crate::antialias::is_neighbour(cur.0, cur.1, w, h, s) && is_diff(
            mask,
            w,
            h,
            #[trigger] crate::antialias::window_cell(cur.0, cur.1, s),
        ) ==> label_of(labels, w, crate::antialias::window_cell(cur.0, cur.1, s)) == label
    &&& forall|c: Cell|
        in_image(w, h, c) && #[trigger] label_of(old_labels, w, c) != 0 ==> label_of(labels, w, c) == label_of(
            old_labels,
            w,
            c,
        )
    &&& label_of(labels, w, seed) == label
    &&& label == seeds2.len()
    &&& label >= 1
    &&& in_image(w, h, seed)
}

/// Labels window cell `t` of `(cx, cy)` and queues it when it is an
/// unlabelled differing pixel.
fn visit_neighbour(
    mask: &[bool],
    width: u32,
    height: u32,
    labels: &mut Vec<usize>,
    stack: &mut Vec<(u32, u32)>,
    label: usize,
    cx: u32,
    cy: u32,
    t: u32,
    Ghost(seeds2): Ghost<Seq<Cell>>,
    Ghost(wit2): Ghost<Map<Cell, Seq<Cell>>>,
    Ghost(done2): Ghost<Set<int>>,
    Ghost(old_labels): Ghost<Seq<usize>>,
    Ghost(seed): Ghost<Cell>,
) -> (r: (Ghost<Map<Cell, Seq<Cell>>>, Ghost<Set<int>>))
    requires
        cx < width,
        cy < height,
        t < 9,
        visit_state(
            mask@,
            width as int,
            height as int,
            old(labels)@,
            old(stack)@,
            label as int,
            (cx as int, cy as int),
            t as int,
            seeds2,
            wit2,
            done2,
            old_labels,
            seed,
        ),
    ensures
        visit_state(
            mask@,
            width as int,
            height as int,
            final(labels)@,
            final(stack)@,
            label as int,
            (cx as int, cy as int),
            t + 1,
            seeds2,
            r.0@,
            r.1@,
            old_labels,
            seed,
        ),
        2 * (width * height - r.1@.len()) + final(stack)@.len() <= 2 * (width * height - done2.len()) + old(
            stack,
        )@.len(),
{
    let ghost w = width as int;
    let ghost h = height as int;
    let ghost cur: Cell = (cx as int, cy as int);
    let ghost mut wit3 = wit2;
    let ghost mut done3 = done2;
    let (ok, nx, ny) = window_neighbour(cx, cy, width, height, t);
    if ok {
        let ghost d: Cell = (nx as int, ny as int);
        proof {
            lemma_index_bounds(w, h, d);
        }
        let nidx: usize = (ny as usize) * (width as usize) + (nx as usize);
        if mask[nidx] && labels[nidx] == 0 {
            let ghost labels_before = labels@;
            let ghost stack_prev = stack@;
            labels.set(nidx, label);
            stack.push((nx, ny));
            proof {
                lemma_label_cell(mask@, w, h, labels_before, labels@, d, label as int);
                assert(label_of(labels_before, w, cur) != 0);
                assert(witnessed(mask@, w, h, labels_before, seeds2, wit2, cur));
                assert(touching(cur, d));
                lemma_path_push(mask@, w, h, wit2[cur], d);
                let ghost new_path = wit2[cur].push(d);
                wit3 = wit2.insert(d, new_path);
                done3 = done2.insert(nidx as int);
                assert(labelled_set(labels@, done3)) by {
                    assert forall|i: int| #[trigger] done3.contains(i) <==> (0 <= i < labels@.len() && labels@[i]
                        != 0) by {
                        if 0 <= i < labels@.len() && i != nidx as int {
                            assert(labels@[i] == labels_before[i]);
                        }
                    }
                }
                assert(!done2.contains(nidx as int));
                lemma_done_bound(labels@, done3);
                assert forall|c: Cell| in_image(w, h, c) implies #[trigger] label_of(labels@, w, c) <= label && (
                label_of(labels@, w, c) != 0 ==> is_diff(mask@, w, h, c) && witnessed(
                    mask@,
                    w,
                    h,
                    labels@,
                    seeds2,
                    wit3,
                    c,
                )) by {
                    if c != d {
                        assert(label_of(labels@, w, c) == label_of(labels_before, w, c));
                        if label_of(labels@, w, c) != 0 {
                            assert(witnessed(mask@, w, h, labels_before, seeds2, wit2, c));
                            assert(wit3[c] == wit2[c]);
                        }
                    }
                }
                assert forall|l: int| 1 <= l <= label implies is_diff(mask@, w, h, #[trigger] seeds2[l - 1])
                    && label_of(labels@, w, seeds2[l - 1]) == l by {
                    assert(label_of(labels_before, w, seeds2[l - 1]) == l);
                }
                assert forall|c: Cell| in_image(w, h, c) && #[trigger] label_of(labels@, w, c) != 0 implies closed_at(
                    mask@,
                    w,
                    h,
                    labels@,
                    c,
                ) || pending(stack@, c) || c == cur by {
                    if c == d {
                        assert(cell_of(stack@[stack@.len() - 1]) == c);
                    } else {
                        assert(label_of(labels@, w, c) == label_of(labels_before, w, c));
                        if !closed_at(mask@, w, h, labels@, c) && c != cur {
                            assert(!closed_at(mask@, w, h, labels_before, c));
                            let i = choose|i: int| 0 <= i < stack_prev.len() && cell_of(#[trigger] stack_prev[i]) == c;
                            assert(stack@[i] == stack_prev[i]);
                        }
                    }
                }
                assert forall|i: int| 0 <= i < stack@.len() implies in_image(w, h, cell_of(#[trigger] stack@[i]))
                    && label_of(labels@, w, cell_of(stack@[i])) == label by {
                    if i < stack_prev.len() {
                        assert(stack@[i] == stack_prev[i]);
                        assert(label_of(labels@, w, cell_of(stack_prev[i])) == label_of(labels_before, w, cell_of(stack_prev[i])));
                    }
                }
                assert forall|s: int|
                    0 <= s < t + 1 && crate::antialias::is_neighbour(cur.0, cur.1, w, h, s) && is_diff(
                        mask@,
                        w,
                        h,
                        #[trigger] crate::antialias::window_cell(cur.0, cur.1, s),
                    ) implies label_of(labels@, w, crate::antialias::window_cell(cur.0, cur.1, s)) == label by {
                    let e = crate::antialias::window_cell(cur.0, cur.1, s);
                    if s < t && e != d {
                        assert(label_of(labels@, w, e) == label_of(labels_before, w, e));
                    }
                }
                assert forall|c: Cell|
                    in_image(w, h, c) && #[trigger] label_of(old_labels, w, c) != 0 implies label_of(labels@, w, c)
                        == label_of(old_labels, w, c) by {
                    if c != d {
                        assert(label_of(labels@, w, c) == label_of(labels_before, w, c));
                    }
                }
                assert(seed != d);
                assert(label_of(labels@, w, seed) == label_of(labels_before, w, seed));
            }
        } else {
            proof {
                if is_diff(mask@, w, h, d) {
                    let l = label_of(labels@, w, d);
                    assert(l != 0);
                    assert(touching(d, cur));
                    if closed_at(mask@, w, h, labels@, d) {
                        assert(label_of(labels@, w, cur) == l);
                    } else if d != cur {
                        let i = choose|i: int| 0 <= i < stack@.len() && cell_of(#[trigger] stack@[i]) == d;
                        assert(label_of(labels@, w, cell_of(stack@[i])) == label);
                    }
                }
            }
        }
    }
    (Ghost(wit3), Ghost(done3))
}

/// Labels with `label` the whole region around the unlabelled differing pixel
/// `(sx, sy)`, keeping every labelled pixel's neighbourhood consistent.
fn fill_region(
    mask: &[bool],
    width: u32,
    height: u32,
    labels: &mut Vec<usize>,
    label: usize,
    sx: u32,
    sy: u32,
    Ghost(seeds): Ghost<Seq<Cell>>,
    Ghost(wit): Ghost<Map<Cell, Seq<Cell>>>,
    Ghost(done): Ghost<Set<int>>,
) -> (r: (Ghost<Map<Cell, Seq<Cell>>>, Ghost<Set<int>>))
    requires
        width as int * height as int <= usize::MAX,
        labelling_ok(mask@, width as int, height as int, old(labels)@, label - 1, seeds, wit),
        labelled_set(old(labels)@, done),
        forall|c: Cell|
            in_image(width as int, height as int, c) && label_of(old(labels)@, width as int, c) != 0 ==> closed_at(
                mask@,
                width as int,
                height as int,
                old(labels)@,
                c,
            ),
        sx < width,
        sy < height,
        is_diff(mask@, width as int, height as int, (sx as int, sy as int)),
        label_of(old(labels)@, width as int, (sx as int, sy as int)) == 0,
        label == seeds.len() + 1,
    ensures
        labelling_ok(
            mask@,
            width as int,
            height as int,
            final(labels)@,
            label as int,
            seeds.push((sx as int, sy as int)),
            r.0@,
        ),
        labelled_set(final(labels)@, r.1@),
        forall|c: Cell|
            in_image(width as int, height as int, c) && label_of(final(labels)@, width as int, c) != 0 ==> closed_at(
                mask@,
                width as int,
                height as int,
                final(labels)@,
                c,
            ),
        forall|c: Cell|
            in_image(width as int, height as int, c) && label_of(old(labels)@, width as int, c) != 0 ==> label_of(
                final(labels)@,
                width as int,
                c,
            ) == label_of(old(labels)@, width as int, c),
        label_of(final(labels)@, width as int, (sx as int, sy as int)) == label,
{
    let ghost w = width as int;
    let ghost h = height as int;
    let ghost seed: Cell = (sx as int, sy as int);
    let ghost seeds2 = seeds.push(seed);
    let ghost old_labels = labels@;
    proof {
        lemma_index_bounds(w, h, seed);
    }
    let sidx: usize = (sy as usize) * (width as usize) + (sx as usize);
    labels.set(sidx, label);
    let ghost mut wit2 = wit.insert(seed, seq![seed]);
    let ghost mut done2 = done.insert(sidx as int);
    proof {
        lemma_label_cell(mask@, w, h, old_labels, labels@, seed, label as int);
        assert(is_diff_path(mask@, w, h, seq![seed]) && seq![seed][0] == seed && seq![seed].last() == seed);
        assert forall|c: Cell| in_image(w, h, c) implies label_of(labels@, w, c) <= label && (label_of(
            labels@,
            w,
            c,
        ) != 0 ==> is_diff(mask@, w, h, c) && witnessed(mask@, w, h, labels@, seeds2, wit2, c)) by {
            if c != seed && label_of(labels@, w, c) != 0 {
                assert(witnessed(mask@, w, h, old_labels, seeds, wit, c));
                assert(wit2[c] == wit[c]);
                assert(seeds2[label_of(labels@, w, c) - 1] == seeds[label_of(labels@, w, c) - 1]);
            }
        }
        assert forall|l: int| 1 <= l <= label implies is_diff(mask@, w, h, #[trigger] seeds2[l - 1]) && label_of(
            labels@,
            w,
            seeds2[l - 1],
        ) == l by {
            if l < label {
                assert(seeds2[l - 1] == seeds[l - 1]);
                assert(label_of(old_labels, w, seeds[l - 1]) == l);
            }
        }
        assert(labelled_set(labels@, done2)) by {
            assert forall|i: int| #[trigger] done2.contains(i) <==> (0 <= i < labels@.len() && labels@[i] != 0) by {
                if 0 <= i < labels@.len() && i != sidx as int {
                    assert(labels@[i] == old_labels[i]);
                }
            }
        }
    }
    let mut stack: Vec<(u32, u32)> = Vec::new();
    stack.push((sx, sy));
    proof {
        assert(cell_of(stack@[0]) == seed);
        assert forall|c: Cell| in_image(w, h, c) && label_of(labels@, w, c) != 0 implies closed_at(
            mask@,
            w,
            h,
            labels@,
            c,
        ) || pending(stack@, c) by {
            if c == seed {
                assert(cell_of(stack@[0]) == c);
            }
        }
        lemma_done_bound(labels@, done2);
    }
    while stack.len() > 0
        invariant
            w == width as int,
            h == height as int,
            w * h <= usize::MAX,
            labelling_ok(mask@, w, h, labels@, label as int, seeds2, wit2),
            labelled_set(labels@, done2),
            forall|c: Cell|
                in_image(w, h, c) && label_of(labels@, w, c) != 0 ==> closed_at(mask@, w, h, labels@, c)
                    || pending(stack@, c),
            forall|i: int|
                0 <= i < stack@.len() ==> in_image(w, h, cell_of(#[trigger] stack@[i])) && label_of(
                    labels@,
                    w,
                    cell_of(stack@[i]),
                ) == label,
            forall|c: Cell|
                in_image(w, h, c) && label_of(old_labels, w, c) != 0 ==> label_of(labels@, w, c) == label_of(
                    old_labels,
                    w,
                    c,
                ),
            label_of(labels@, w, seed) == label,
            label as int == seeds2.len(),
            done2.len() <= w * h,
            label >= 1,
            in_image(w, h, seed),
        decreases 2 * (w * h - done2.len()) + stack.len(),
    {
        let ghost m0 = 2 * (w * h - done2.len()) + stack.len();
        let ghost stack_before = stack@;
        let (cx, cy) = stack.pop().unwrap();
        let ghost cur: Cell = (cx as int, cy as int);
        proof {
            assert(stack_before[stack_before.len() - 1] == (cx, cy));
            assert(stack@ =~= stack_before.drop_last());
            assert forall|c: Cell| in_image(w, h, c) && label_of(labels@, w, c) != 0 implies closed_at(
                mask@,
                w,
                h,
                labels@,
                c,
            ) || pending(stack@, c) || c == cur by {
                if !closed_at(mask@, w, h, labels@, c) {
                    let i = choose|i: int| 0 <= i < stack_before.len() && cell_of(#[trigger] stack_before[i]) == c;
                    if i < stack_before.len() - 1 {
                        assert(stack@[i] == stack_before[i]);
                    }
                }
            }
            assert(in_image(w, h, cur) && label_of(labels@, w, cur) == label) by {
                assert(cell_of(stack_before[stack_before.len() - 1]) == cur);
            }
            assert forall|i: int| 0 <= i < stack@.len() implies in_image(w, h, cell_of(#[trigger] stack@[i]))
                && label_of(labels@, w, cell_of(stack@[i])) == label by {
                assert(stack@[i] == stack_before[i]);
            }
            assert(visit_state(mask@, w, h, labels@, stack@, label as int, cur, 0, seeds2, wit2, done2, old_labels, seed));
        }
        let mut t: u32 = 0;
        while t < 9
            invariant
                w == width as int,
                h == height as int,
                cx < width,
                cy < height,
                cur == (cx as int, cy as int),
                t <= 9,
                visit_state(mask@, w, h, labels@, stack@, label as int, cur, t as int, seeds2, wit2, done2, old_labels, seed),
                2 * (w * h - done2.len()) + stack.len() < m0,
            decreases 9 - t,
        {
            let ghost len_before = 2 * (w * h - done2.len()) + stack.len();
            let (g_wit, g_done) = visit_neighbour(
                mask,
                width,
                height,
                labels,
                &mut stack,
                label,
                cx,
                cy,
                t,
                Ghost(seeds2),
                Ghost(wit2),
                Ghost(done2),
                Ghost(old_labels),
                Ghost(seed),
            );
            proof {
                wit2 = g_wit@;
                done2 = g_done@;
            }
            t = t + 1;
        }
        proof {
            assert(closed_at(mask@, w, h, labels@, cur)) by {
                assert forall|d: Cell| #[trigger] touching(cur, d) && is_diff(mask@, w, h, d) implies label_of(
                    labels@,
                    w,
                    d,
                ) == label_of(labels@, w, cur) by {
                    lemma_touching_is_window_cell(cur, d, w, h);
                    let s = (d.1 - cur.1 + 1) * 3 + (d.0 - cur.0 + 1);
                    assert(crate::antialias::window_cell(cx as int, cy as int, s) == d);
                }
            }
        }
    }
    (Ghost(wit2), Ghost(done2))
}


/// Labels of cells: differing pixels carry the number of their region,
/// counted from 1, and `seeds[l - 1]` is a pixel of region `l`.
pub open spec fn labels_are_regions(
    mask: Seq<bool>,
    w: int,
    h: int,
    labels: Seq<usize>,
    ncomp: int,
    seeds: Seq<Cell>,
) -> bool {
    &&& labels.len() == w * h
    &&& seeds.len() == ncomp
    &&& forall|c: Cell|
        in_image(w, h, c) ==> #[trigger] label_of(labels, w, c) <= ncomp && (label_of(labels, w, c) != 0
            <==> is_diff(mask, w, h, c))
    &&& forall|l: int|
        1 <= l <= ncomp ==> is_diff(mask, w, h, #[trigger] seeds[l - 1]) && label_of(labels, w, seeds[l - 1])
            == l
    &&& forall|a: Cell, b: Cell|
        is_diff(mask, w, h, a) && is_diff(mask, w, h, b) ==> (label_of(labels, w, a) == label_of(labels, w, b)
            <==> #[trigger] connected(mask, w, h, a, b))
}

proof fn lemma_same_label_connected(
    mask: Seq<bool>,
    w: int,
    h: int,
    labels: Seq<usize>,
    ncomp: int,
    seeds: Seq<Cell>,
    wit: Map<Cell, Seq<Cell>>,
    a: Cell,
    b: Cell,
)
    requires
        labelling_ok(mask, w, h, labels, ncomp, seeds, wit),
        in_image(w, h, a),
        in_image(w, h, b),
        label_of(labels, w, a) != 0,
        label_of(labels, w, a) == label_of(labels, w, b),
    ensures
        connected(mask, w, h, a, b),
{
    reveal(connected);
    assert(witnessed(mask, w, h, labels, seeds, wit, a));
    assert(witnessed(mask, w, h, labels, seeds, wit, b));
    let s = seeds[label_of(labels, w, a) - 1];
    assert(connected(mask, w, h, s, a));
    assert(connected(mask, w, h, s, b));
    lemma_connected_symmetric(mask, w, h, s, a);
    lemma_connected_transitive(mask, w, h, a, s, b);
}

proof fn lemma_connected_same_label(
    mask: Seq<bool>,
    w: int,
    h: int,
    labels: Seq<usize>,
    a: Cell,
    b: Cell,
)
    requires
        labels.len() == w * h,
        forall|c: Cell| is_diff(mask, w, h, c) ==> #[trigger] label_of(labels, w, c) != 0,
        forall|c: Cell|
            in_image(w, h, c) && #[trigger] label_of(labels, w, c) != 0 ==> closed_at(mask, w, h, labels, c),
        connected(mask, w, h, a, b),
    ensures
        label_of(labels, w, a) == label_of(labels, w, b),
{
    reveal(connected);
    let p = choose|p: Seq<Cell>| is_diff_path(mask, w, h, p) && p[0] == a && p.last() == b;
    lemma_path_one_label(mask, w, h, labels, p, p.len() - 1);
}

proof fn lemma_path_one_label(mask: Seq<bool>, w: int, h: int, labels: Seq<usize>, p: Seq<Cell>, i: int)
    requires
        labels.len() == w * h,
        forall|c: Cell| is_diff(mask, w, h, c) ==> #[trigger] label_of(labels, w, c) != 0,
        forall|c: Cell|
            in_image(w, h, c) && #[trigger] label_of(labels, w, c) != 0 ==> closed_at(mask, w, h, labels, c),
        is_diff_path(mask, w, h, p),
        0 <= i < p.len(),
    ensures
        label_of(labels, w, p[i]) == label_of(labels, w, p[0]),
    decreases i,
{
    if i > 0 {
        lemma_path_one_label(mask, w, h, labels, p, i - 1);
        assert(is_diff(mask, w, h, p[i - 1]));
        assert(label_of(labels, w, p[i - 1]) != 0);
        assert(closed_at(mask, w, h, labels, p[i - 1]));
        assert(touching(p[i - 1], p[i]));
        assert(is_diff(mask, w, h, p[i]));
    }
}

/// Labels every region of the mask.
fn label_regions(mask: &[bool], width: u32, height: u32) -> (r: (Vec<usize>, usize, Ghost<Seq<Cell>>))
    requires
        width as int * height as int <= usize::MAX,
        mask@.len() == width as int * height as int,
    ensures
        labels_are_regions(mask@, width as int, height as int, r.0@, r.1 as int, r.2@),
{
    let ghost w = width as int;
    let ghost h = height as int;
    let total: usize = (width as usize) * (height as usize);
    let mut labels: Vec<usize> = Vec::new();
    let mut i: usize = 0;
    while i < total
        invariant
            labels@.len() == i,
            i <= total,
            forall|j: int| 0 <= j < i ==> labels@[j] == 0,
        decreases total - i,
    {
        labels.push(0);
        i = i + 1;
    }
    let ghost mut seeds: Seq<Cell> = Seq::empty();
    let ghost mut wit: Map<Cell, Seq<Cell>> = Map::empty();
    let ghost mut done: Set<int> = Set::empty();
    let mut ncomp: usize = 0;
    proof {
        assert forall|c: Cell| in_image(w, h, c) implies #[trigger] label_of(labels@, w, c) == 0 by {
            lemma_index_bounds(w, h, c);
        }
        assert(labelled_set(labels@, done)) by {
            assert forall|i: int| #[trigger] done.contains(i) <==> (0 <= i < labels@.len() && labels@[i] != 0) by {}
        }
    }
    let mut y: u32 = 0;
    while y < height
        invariant
            w == width as int,
            h == height as int,
            w * h <= usize::MAX,
            mask@.len() == w * h,
            total as int == w * h,
            y <= height,
            labelling_ok(mask@, w, h, labels@, ncomp as int, seeds, wit),
            labelled_set(labels@, done),
            forall|c: Cell|
                in_image(w, h, c) && #[trigger] label_of(labels@, w, c) != 0 ==> closed_at(mask@, w, h, labels@, c),
            forall|c: Cell|
                is_diff(mask@, w, h, c) && c.1 < y ==> #[trigger] label_of(labels@, w, c) != 0,
        decreases height - y,
    {
        let mut x: u32 = 0;
        while x < width
            invariant
                w == width as int,
                h == height as int,
                w * h <= usize::MAX,
                mask@.len() == w * h,
                total as int == w * h,
                y < height,
                x <= width,
                labelling_ok(mask@, w, h, labels@, ncomp as int, seeds, wit),
                labelled_set(labels@, done),
                forall|c: Cell|
                    in_image(w, h, c) && #[trigger] label_of(labels@, w, c) != 0 ==> closed_at(mask@, w, h, labels@, c),
                forall|c: Cell|
                    is_diff(mask@, w, h, c) && before(c, x as int, y as int) ==> #[trigger] label_of(labels@, w, c)
                        != 0,
            decreases width - x,
        {
            let ghost c0: Cell = (x as int, y as int);
            proof {
                lemma_index_bounds(w, h, c0);
                lemma_done_bound(labels@, done);
            }
            let idx: usize = (y as usize) * (width as usize) + (x as usize);
            if mask[idx] && labels[idx] == 0 {
                proof {
                    // every label in use is at most ncomp, and there are at most w * h of them
                    assert(ncomp as int == seeds.len());
                    assert forall|l: int| 1 <= l <= ncomp implies #[trigger] seeds[l - 1] != c0 by {
                        assert(label_of(labels@, w, seeds[l - 1]) == l);
                    }
                    lemma_seeds_bound(mask@, w, h, labels@, ncomp as int, seeds, wit, done);
                    vstd::set_lib::lemma_int_range(0, w * h);
                    assert(!done.contains(idx as int));
                    assert(done.insert(idx as int).subset_of(vstd::set_lib::set_int_range(0, w * h)));
                    vstd::set_lib::lemma_len_subset(done.insert(idx as int), vstd::set_lib::set_int_range(0, w * h));
                }
                let ghost labels_before = labels@;
                let (g_wit, g_done) = fill_region(
                    mask,
                    width,
                    height,
                    &mut labels,
                    ncomp + 1,
                    x,
                    y,
                    Ghost(seeds),
                    Ghost(wit),
                    Ghost(done),
                );
                proof {
                    seeds = seeds.push(c0);
                    wit = g_wit@;
                    done = g_done@;
                    assert forall|c: Cell|
                        is_diff(mask@, w, h, c) && before(c, x as int + 1, y as int) implies #[trigger] label_of(
                        labels@,
                        w,
                        c,
                    ) != 0 by {
                        if c != c0 {
                            assert(label_of(labels_before, w, c) != 0);
                        }
                    }
                }
                ncomp = ncomp + 1;
            } else {
                proof {
                    assert forall|c: Cell|
                        is_diff(mask@, w, h, c) && before(c, x as int + 1, y as int) implies #[trigger] label_of(
                        labels@,
                        w,
                        c,
                    ) != 0 by {
                        if c == c0 {
                            assert(mask@[cell_index(w, c0)]);
                        }
                    }
                }
            }
            x = x + 1;
        }
        y = y + 1;
    }
    proof {
        assert forall|c: Cell| is_diff(mask@, w, h, c) implies #[trigger] label_of(labels@, w, c) != 0 by {
            assert(c.1 < y);
        }
        assert forall|a: Cell, b: Cell|
            is_diff(mask@, w, h, a) && is_diff(mask@, w, h, b) implies (label_of(labels@, w, a) == label_of(
            labels@,
            w,
            b,
        ) <==> #[trigger] connected(mask@, w, h, a, b)) by {
            if label_of(labels@, w, a) == label_of(labels@, w, b) {
                lemma_same_label_connected(mask@, w, h, labels@, ncomp as int, seeds, wit, a, b);
            }
            if connected(mask@, w, h, a, b) {
                lemma_connected_same_label(mask@, w, h, labels@, a, b);
            }
        }
        assert forall|c: Cell| in_image(w, h, c) implies #[trigger] label_of(labels@, w, c) <= ncomp && (label_of(
            labels@,
            w,
            c,
        ) != 0 <==> is_diff(mask@, w, h, c)) by {}
    }
    (labels, ncomp, Ghost(seeds))
}

/// Distinct labels in use are at most the number of labelled cells, so a
/// new label still fits.
proof fn lemma_seeds_bound(
    mask: Seq<bool>,
    w: int,
    h: int,
    labels: Seq<usize>,
    ncomp: int,
    seeds: Seq<Cell>,
    wit: Map<Cell, Seq<Cell>>,
    done: Set<int>,
)
    requires
        labelling_ok(mask, w, h, labels, ncomp, seeds, wit),
        labelled_set(labels, done),
        w * h <= usize::MAX,
        0 <= ncomp,
    ensures
        ncomp <= done.len(),
{
    // the seed indices are distinct labelled cells
    let seed_idx = Set::new(|i: int| exists|l: int| 1 <= l <= ncomp && i == cell_index(w, #[trigger] seeds[l - 1]));
    assert(seed_idx.subset_of(done)) by {
        assert forall|i: int| seed_idx.contains(i) implies done.contains(i) by {
            let l = choose|l: int| 1 <= l <= ncomp && i == cell_index(w, #[trigger] seeds[l - 1]);
            assert(label_of(labels, w, seeds[l - 1]) == l);
            lemma_index_bounds(w, h, seeds[l - 1]);
        }
    }
    vstd::set_lib::lemma_len_subset(seed_idx, done);
    lemma_seed_count(mask, w, h, labels, ncomp, seeds, ncomp);
    let s2 = Set::new(|i: int| exists|l: int| 1 <= l <= ncomp && i == cell_index(w, #[trigger] seeds[l - 1]));
    assert(s2 == seed_idx);
}

/// The indices of the first `n` seeds form a set of `n` elements.
proof fn lemma_seed_count(mask: Seq<bool>, w: int, h: int, labels: Seq<usize>, ncomp: int, seeds: Seq<Cell>, n: int)
    requires
        0 <= n <= ncomp,
        seeds.len() == ncomp,
        forall|l: int|
            1 <= l <= ncomp ==> is_diff(mask, w, h, #[trigger] seeds[l - 1]) && label_of(labels, w, seeds[l - 1])
                == l,
    ensures
        ({
            let s = Set::new(|i: int| exists|l: int| 1 <= l <= n && i == cell_index(w, #[trigger] seeds[l - 1]));
            s.finite() && s.len() == n
        }),
    decreases n,
{
    let s = Set::new(|i: int| exists|l: int| 1 <= l <= n && i == cell_index(w, #[trigger] seeds[l - 1]));
    if n == 0 {
        assert(s =~= Set::empty());
    } else {
        lemma_seed_count(mask, w, h, labels, ncomp, seeds, n - 1);
        let prev = Set::new(|i: int| exists|l: int| 1 <= l <= n - 1 && i == cell_index(w, #[trigger] seeds[l - 1]));
        let k = cell_index(w, seeds[n - 1]);
        assert(s =~= prev.insert(k)) by {
            assert forall|i: int| s.contains(i) <==> prev.insert(k).contains(i) by {
                if s.contains(i) {
                    let l = choose|l: int| 1 <= l <= n && i == cell_index(w, #[trigger] seeds[l - 1]);
                    if l < n {
                        assert(prev.contains(i));
                    }
                }
                if prev.contains(i) {
                    let l = choose|l: int| 1 <= l <= n - 1 && i == cell_index(w, #[trigger] seeds[l - 1]);
                    assert(s.contains(i));
                }
            }
        }
        assert(!prev.contains(k)) by {
            if prev.contains(k) {
                let l = choose|l: int| 1 <= l <= n - 1 && k == cell_index(w, #[trigger] seeds[l - 1]);
                assert(label_of(labels, w, seeds[l - 1]) == l);
                assert(label_of(labels, w, seeds[n - 1]) == n);
            }
        }
    }
}


// ----- per-region bounds -----

/// Running bounds and pixel count of one region.
#[derive(Clone, Copy)]
struct RegionAcc {
    min_x: u32,
    min_y: u32,
    max_x: u32,
    max_y: u32,
    area: usize,
}

/// Cells that carry label `l`.
pub open spec fn has_label(labels: Seq<usize>, w: int, h: int, l: int) -> spec_fn(Cell) -> bool {
    |c: Cell| in_image(w, h, c) && label_of(labels, w, c) == l
}

/// Number of cells before `(x, y)` in row-major order that satisfy `pred`.
pub open spec fn prefix_count(pred: spec_fn(Cell) -> bool, w: int, x: int, y: int) -> int {
    grid_count(pred, w, y) + row_count(pred, y, x)
}

/// `acc` holds the bounds and the count of the cells before `(x, y)` that
/// satisfy `pred`.
spec fn acc_matches(pred: spec_fn(Cell) -> bool, w: int, x: int, y: int, acc: RegionAcc) -> bool {
    &&& acc.area as int == prefix_count(pred, w, x, y)
    &&& acc.area == 0 ==> forall|c: Cell| #[trigger] pred(c) ==> !before(c, x, y)
    &&& acc.area > 0 ==> {
        &&& forall|c: Cell|
            #[trigger] pred(c) && before(c, x, y) ==> acc.min_x <= c.0 <= acc.max_x && acc.min_y <= c.1
                <= acc.max_y
        &&& exists|c: Cell| #[trigger] pred(c) && before(c, x, y) && c.0 == acc.min_x
        &&& exists|c: Cell| #[trigger] pred(c) && before(c, x, y) && c.0 == acc.max_x
        &&& exists|c: Cell| #[trigger] pred(c) && before(c, x, y) && c.1 == acc.min_y
        &&& exists|c: Cell| #[trigger] pred(c) && before(c, x, y) && c.1 == acc.max_y
    }
}

proof fn lemma_row_count_bounds(pred: spec_fn(Cell) -> bool, y: int, x: int)
    requires
        x >= 0,
    ensures
        0 <= row_count(pred, y, x) <= x,
    decreases x,
{
    if x > 0 {
        lemma_row_count_bounds(pred, y, x - 1);
    }
}

proof fn lemma_grid_count_bounds(pred: spec_fn(Cell) -> bool, w: int, y: int)
    requires
        y >= 0,
        w >= 0,
    ensures
        0 <= grid_count(pred, w, y) <= y * w,
    decreases y,
{
    if y > 0 {
        lemma_grid_count_bounds(pred, w, y - 1);
        lemma_row_count_bounds(pred, y - 1, w);
        assert((y - 1) * w + w == y * w) by (nonlinear_arith);
    }
}

proof fn lemma_row_count_ext(p: spec_fn(Cell) -> bool, q: spec_fn(Cell) -> bool, y: int, x: int)
    requires
        forall|i: int| 0 <= i < x ==> #[trigger] p((i, y)) == q((i, y)),
    ensures
        row_count(p, y, x) == row_count(q, y, x),
    decreases x,
{
    if x > 0 {
        lemma_row_count_ext(p, q, y, x - 1);
        assert(p((x - 1, y)) == q((x - 1, y)));
    }
}

/// Counting cells depends only on the predicate inside the counted rows.
proof fn lemma_grid_count_ext(p: spec_fn(Cell) -> bool, q: spec_fn(Cell) -> bool, w: int, y: int)
    requires
        forall|c: Cell| 0 <= c.0 < w && 0 <= c.1 < y ==> #[trigger] p(c) == q(c),
    ensures
        grid_count(p, w, y) == grid_count(q, w, y),
    decreases y,
{
    if y > 0 {
        lemma_grid_count_ext(p, q, w, y - 1);
        assert forall|i: int| 0 <= i < w implies #[trigger] p((i, y - 1)) == q((i, y - 1)) by {
            let c: Cell = (i, y - 1);
            assert(p(c) == q(c));
        }
        lemma_row_count_ext(p, q, y - 1, w);
    }
}

/// Folds cell `(x, y)`, which carries label `l`, into `acc`.
fn acc_add(acc: RegionAcc, x: u32, y: u32) -> (r: RegionAcc)
    requires
        acc.area < usize::MAX,
    ensures
        r.area == acc.area + 1,
        acc.area == 0 ==> r.min_x == x && r.max_x == x && r.min_y == y && r.max_y == y,
        acc.area > 0 ==> {
            &&& r.min_x == if x < acc.min_x { x } else { acc.min_x }
            &&& r.max_x == if x > acc.max_x { x } else { acc.max_x }
            &&& r.min_y == if y < acc.min_y { y } else { acc.min_y }
            &&& r.max_y == if y > acc.max_y { y } else { acc.max_y }
        },
{
    if acc.area == 0 {
        RegionAcc { min_x: x, min_y: y, max_x: x, max_y: y, area: 1 }
    } else {
        RegionAcc {
            min_x: if x < acc.min_x { x } else { acc.min_x },
            min_y: if y < acc.min_y { y } else { acc.min_y },
            max_x: if x > acc.max_x { x } else { acc.max_x },
            max_y: if y > acc.max_y { y } else { acc.max_y },
            area: acc.area + 1,
        }
    }
}

/// `acc_matches` after one more cell of a row.
proof fn lemma_acc_step(pred: spec_fn(Cell) -> bool, w: int, x: int, y: int, acc: RegionAcc, acc2: RegionAcc)
    requires
        0 <= x < w,
        acc_matches(pred, w, x, y, acc),
        pred((x, y)) ==> {
            &&& acc2.area == acc.area + 1
            &&& acc.area == 0 ==> acc2.min_x == x && acc2.max_x == x && acc2.min_y == y && acc2.max_y == y
            &&& acc.area > 0 ==> {
                &&& acc2.min_x == if x < acc.min_x { x } else { acc.min_x as int }
                &&& acc2.max_x == if x > acc.max_x { x } else { acc.max_x as int }
                &&& acc2.min_y == if y < acc.min_y { y } else { acc.min_y as int }
                &&& acc2.max_y == if y > acc.max_y { y } else { acc.max_y as int }
            }
        },
        !pred((x, y)) ==> acc2 == acc,
    ensures
        acc_matches(pred, w, x + 1, y, acc2),
{
    let c0: Cell = (x, y);
    assert(row_count(pred, y, x + 1) == row_count(pred, y, x) + if pred(c0) { 1int } else { 0int });
    assert forall|c: Cell| before(c, x + 1, y) <==> before(c, x, y) || c == c0 by {}
    if pred(c0) {
        if acc.area == 0 {
            assert forall|c: Cell| #[trigger] pred(c) && before(c, x + 1, y) implies acc2.min_x <= c.0 <= acc2.max_x
                && acc2.min_y <= c.1 <= acc2.max_y by {
                assert(c == c0);
            }
            assert(pred(c0) && before(c0, x + 1, y));
        } else {
            let wx1 = choose|c: Cell| #[trigger] pred(c) && before(c, x, y) && c.0 == acc.min_x;
            let wx2 = choose|c: Cell| #[trigger] pred(c) && before(c, x, y) && c.0 == acc.max_x;
            let wy1 = choose|c: Cell| #[trigger] pred(c) && before(c, x, y) && c.1 == acc.min_y;
            let wy2 = choose|c: Cell| #[trigger] pred(c) && before(c, x, y) && c.1 == acc.max_y;
            assert(pred(wx1) && before(wx1, x + 1, y));
            assert(pred(wx2) && before(wx2, x + 1, y));
            assert(pred(wy1) && before(wy1, x + 1, y));
            assert(pred(wy2) && before(wy2, x + 1, y));
            assert(pred(c0) && before(c0, x + 1, y));
        }
    } else {
        if acc.area > 0 {
            let wx1 = choose|c: Cell| #[trigger] pred(c) && before(c, x, y) && c.0 == acc.min_x;
            let wx2 = choose|c: Cell| #[trigger] pred(c) && before(c, x, y) && c.0 == acc.max_x;
            let wy1 = choose|c: Cell| #[trigger] pred(c) && before(c, x, y) && c.1 == acc.min_y;
            let wy2 = choose|c: Cell| #[trigger] pred(c) && before(c, x, y) && c.1 == acc.max_y;
            assert(pred(wx1) && before(wx1, x + 1, y));
            assert(pred(wx2) && before(wx2, x + 1, y));
            assert(pred(wy1) && before(wy1, x + 1, y));
            assert(pred(wy2) && before(wy2, x + 1, y));
        }
    }
}

/// `acc_matches` carries over from the end of a row to the start of the next.
proof fn lemma_acc_next_row(pred: spec_fn(Cell) -> bool, w: int, y: int, acc: RegionAcc)
    requires
        w >= 0,
        acc_matches(pred, w, w, y, acc),
        forall|c: Cell| #[trigger] pred(c) ==> 0 <= c.0 < w,
    ensures
        acc_matches(pred, w, 0, y + 1, acc),
{
    assert(grid_count(pred, w, y + 1) == grid_count(pred, w, y) + row_count(pred, y, w));
    assert(row_count(pred, y + 1, 0) == 0);
    assert forall|c: Cell| #[trigger] pred(c) implies (before(c, 0, y + 1) <==> before(c, w, y)) by {}
    if acc.area > 0 {
        let wx1 = choose|c: Cell| #[trigger] pred(c) && before(c, w, y) && c.0 == acc.min_x;
        let wx2 = choose|c: Cell| #[trigger] pred(c) && before(c, w, y) && c.0 == acc.max_x;
        let wy1 = choose|c: Cell| #[trigger] pred(c) && before(c, w, y) && c.1 == acc.min_y;
        let wy2 = choose|c: Cell| #[trigger] pred(c) && before(c, w, y) && c.1 == acc.max_y;
        assert(pred(wx1) && before(wx1, 0, y + 1));
        assert(pred(wx2) && before(wx2, 0, y + 1));
        assert(pred(wy1) && before(wy1, 0, y + 1));
        assert(pred(wy2) && before(wy2, 0, y + 1));
    }
}


proof fn lemma_prefix_bound(pred: spec_fn(Cell) -> bool, w: int, h: int, x: int, y: int)
    requires
        0 <= x < w,
        0 <= y < h,
    ensures
        prefix_count(pred, w, x, y) < w * h,
{
    lemma_grid_count_bounds(pred, w, y);
    lemma_row_count_bounds(pred, y, x);
    assert(y * w + x < w * h) by (nonlinear_arith)
        requires
            0 <= x < w,
            0 <= y < h,
    ;
}

/// Bounds and pixel count of every labelled region, in label order.
fn collect_bounds(labels: &Vec<usize>, width: u32, height: u32, ncomp: usize) -> (r: Vec<RegionAcc>)
    requires
        width as int * height as int <= usize::MAX,
        labels@.len() == width as int * height as int,
        forall|c: Cell| in_image(width as int, height as int, c) ==> #[trigger] label_of(labels@, width as int, c) <= ncomp,
    ensures
        r@.len() == ncomp,
        forall|l: int|
            1 <= l <= ncomp ==> acc_matches(
                has_label(labels@, width as int, height as int, l),
                width as int,
                0,
                height as int,
                #[trigger] r@[l - 1],
            ),
{
    let ghost w = width as int;
    let ghost h = height as int;
    let mut accs: Vec<RegionAcc> = Vec::new();
    let mut i: usize = 0;
    while i < ncomp
        invariant
            accs@.len() == i,
            i <= ncomp,
            forall|j: int| 0 <= j < i ==> (#[trigger] accs@[j]).area == 0,
        decreases ncomp - i,
    {
        accs.push(RegionAcc { min_x: 0, min_y: 0, max_x: 0, max_y: 0, area: 0 });
        i = i + 1;
    }
    proof {
        assert forall|l: int| 1 <= l <= ncomp implies acc_matches(
            has_label(labels@, w, h, l),
            w,
            0,
            0,
            #[trigger] accs@[l - 1],
        ) by {
            assert(accs@[l - 1].area == 0);
            let pred = has_label(labels@, w, h, l);
            assert(grid_count(pred, w, 0) == 0);
            assert(row_count(pred, 0, 0) == 0);
        }
    }
    let mut y: u32 = 0;
    while y < height
        invariant
            w == width as int,
            h == height as int,
            w * h <= usize::MAX,
            labels@.len() == w * h,
            forall|c: Cell| in_image(w, h, c) ==> #[trigger] label_of(labels@, w, c) <= ncomp,
            y <= height,
            accs@.len() == ncomp,
            forall|l: int|
                1 <= l <= ncomp ==> acc_matches(
                    has_label(labels@, w, h, l),
                    w,
                    0,
                    y as int,
                    #[trigger] accs@[l - 1],
                ),
        decreases height - y,
    {
        let mut x: u32 = 0;
        while x < width
            invariant
                w == width as int,
                h == height as int,
                w * h <= usize::MAX,
                labels@.len() == w * h,
                forall|c: Cell| in_image(w, h, c) ==> #[trigger] label_of(labels@, w, c) <= ncomp,
                y < height,
                x <= width,
                accs@.len() == ncomp,
                forall|l: int|
                    1 <= l <= ncomp ==> acc_matches(
                        has_label(labels@, w, h, l),
                        w,
                        x as int,
                        y as int,
                        #[trigger] accs@[l - 1],
                    ),
            decreases width - x,
        {
            let ghost c0: Cell = (x as int, y as int);
            proof {
                lemma_index_bounds(w, h, c0);
            }
            let idx: usize = (y as usize) * (width as usize) + (x as usize);
            let l0: usize = labels[idx];
            let ghost accs_before = accs@;
            if l0 != 0 {
                proof {
                    assert(label_of(labels@, w, c0) == l0);
                    lemma_prefix_bound(has_label(labels@, w, h, l0 as int), w, h, x as int, y as int);
                    assert(acc_matches(has_label(labels@, w, h, l0 as int), w, x as int, y as int, accs@[l0 - 1]));
                }
                let a = acc_add(accs[l0 - 1], x, y);
                accs.set(l0 - 1, a);
            }
            proof {
                assert forall|l: int| 1 <= l <= ncomp implies acc_matches(
                    has_label(labels@, w, h, l),
                    w,
                    x as int + 1,
                    y as int,
                    #[trigger] accs@[l - 1],
                ) by {
                    let pred = has_label(labels@, w, h, l);
                    assert(acc_matches(pred, w, x as int, y as int, accs_before[l - 1]));
                    assert(pred(c0) == (label_of(labels@, w, c0) == l));
                    lemma_acc_step(pred, w, x as int, y as int, accs_before[l - 1], accs@[l - 1]);
                }
            }
            x = x + 1;
        }
        proof {
            assert forall|l: int| 1 <= l <= ncomp implies acc_matches(
                has_label(labels@, w, h, l),
                w,
                0,
                y as int + 1,
                #[trigger] accs@[l - 1],
            ) by {
                let pred = has_label(labels@, w, h, l);
                lemma_acc_next_row(pred, w, y as int, accs@[l - 1]);
            }
        }
        y = y + 1;
    }
    accs
}


// ----- assembling the result -----

/// The box described by an accumulator.
spec fn box_of(acc: RegionAcc) -> BoundingBox {
    BoundingBox {
        x: acc.min_x,
        y: acc.min_y,
        width: (acc.max_x - acc.min_x + 1) as u32,
        height: (acc.max_y - acc.min_y + 1) as u32,
    }
}

proof fn lemma_connected_ends_differ(mask: Seq<bool>, w: int, h: int, a: Cell, b: Cell)
    requires
        connected(mask, w, h, a, b),
    ensures
        is_diff(mask, w, h, a),
        is_diff(mask, w, h, b),
{
    reveal(connected);
    let p = choose|p: Seq<Cell>| is_diff_path(mask, w, h, p) && p[0] == a && p.last() == b;
    assert(is_diff(mask, w, h, p[0]));
    assert(is_diff(mask, w, h, p[p.len() - 1]));
}

/// The region of a pixel labelled `l` is exactly the set of cells labelled `l`.
proof fn lemma_region_is_label(
    mask: Seq<bool>,
    w: int,
    h: int,
    labels: Seq<usize>,
    ncomp: int,
    seeds: Seq<Cell>,
    r: Cell,
    l: int,
)
    requires
        labels_are_regions(mask, w, h, labels, ncomp, seeds),
        is_diff(mask, w, h, r),
        label_of(labels, w, r) == l,
    ensures
        forall|c: Cell| connected(mask, w, h, r, c) <==> #[trigger] has_label(labels, w, h, l)(c),
        component_area(mask, w, h, r) == grid_count(has_label(labels, w, h, l), w, h),
{
    let pred = has_label(labels, w, h, l);
    assert(label_of(labels, w, r) != 0);
    assert forall|c: Cell| connected(mask, w, h, r, c) <==> #[trigger] pred(c) by {
        if connected(mask, w, h, r, c) {
            lemma_connected_ends_differ(mask, w, h, r, c);
        }
        if pred(c) {
            assert(label_of(labels, w, c) != 0);
            assert(is_diff(mask, w, h, c));
        }
    }
    let conn = |c: Cell| connected(mask, w, h, r, c);
    assert forall|c: Cell| 0 <= c.0 < w && 0 <= c.1 < h implies #[trigger] conn(c) == pred(c) by {}
    lemma_grid_count_ext(conn, pred, w, h);
}

/// Bounds kept for a predicate give the box of a region that is exactly
/// the cells satisfying it.
proof fn lemma_box_from_acc(mask: Seq<bool>, w: int, h: int, s: Cell, pred: spec_fn(Cell) -> bool, acc: RegionAcc)
    requires
        acc_matches(pred, w, 0, h, acc),
        forall|c: Cell| connected(mask, w, h, s, c) <==> #[trigger] pred(c),
        forall|c: Cell| #[trigger] pred(c) ==> in_image(w, h, c),
        pred(s),
        w <= u32::MAX,
        h <= u32::MAX,
    ensures
        acc.area > 0,
        acc.min_x <= acc.max_x < w,
        acc.min_y <= acc.max_y < h,
        bounds_component(mask, w, h, s, box_of(acc)),
{
    assert(before(s, 0, h));
    assert(acc.area > 0);
    let b = box_of(acc);
    let wx1 = choose|c: Cell| #[trigger] pred(c) && before(c, 0, h) && c.0 == acc.min_x;
    let wx2 = choose|c: Cell| #[trigger] pred(c) && before(c, 0, h) && c.0 == acc.max_x;
    let wy1 = choose|c: Cell| #[trigger] pred(c) && before(c, 0, h) && c.1 == acc.min_y;
    let wy2 = choose|c: Cell| #[trigger] pred(c) && before(c, 0, h) && c.1 == acc.max_y;
    assert(acc.min_x <= wx1.0 <= acc.max_x);
    assert(acc.min_y <= wy1.1 <= acc.max_y);
    assert(in_image(w, h, wx2) && in_image(w, h, wy2));
    assert(b.width == acc.max_x - acc.min_x + 1);
    assert(b.height == acc.max_y - acc.min_y + 1);
    assert forall|c: Cell| #[trigger] connected(mask, w, h, s, c) implies b.x <= c.0 < b.x + b.width && b.y <= c.1
        < b.y + b.height by {
        assert(pred(c));
        assert(before(c, 0, h));
    }
    assert(connected(mask, w, h, s, wx1) && wx1.0 == b.x);
    assert(connected(mask, w, h, s, wx2) && wx2.0 == b.x + b.width - 1);
    assert(connected(mask, w, h, s, wy1) && wy1.1 == b.y);
    assert(connected(mask, w, h, s, wy2) && wy2.1 == b.y + b.height - 1);
}

/// The seed of label `l` and the accumulator of `l` give that region's box.
proof fn lemma_region_box(
    mask: Seq<bool>,
    w: int,
    h: int,
    labels: Seq<usize>,
    ncomp: int,
    seeds: Seq<Cell>,
    l: int,
    acc: RegionAcc,
)
    requires
        labels_are_regions(mask, w, h, labels, ncomp, seeds),
        1 <= l <= ncomp,
        acc_matches(has_label(labels, w, h, l), w, 0, h, acc),
        w <= u32::MAX,
        h <= u32::MAX,
    ensures
        is_diff(mask, w, h, seeds[l - 1]),
        component_area(mask, w, h, seeds[l - 1]) == acc.area,
        acc.area > 0,
        acc.min_x <= acc.max_x < w,
        acc.min_y <= acc.max_y < h,
        bounds_component(mask, w, h, seeds[l - 1], box_of(acc)),
{
    let s = seeds[l - 1];
    let pred = has_label(labels, w, h, l);
    assert(is_diff(mask, w, h, s) && label_of(labels, w, s) == l);
    lemma_region_is_label(mask, w, h, labels, ncomp, seeds, s, l);
    assert(pred(s));
    assert forall|c: Cell| #[trigger] pred(c) implies in_image(w, h, c) by {}
    lemma_box_from_acc(mask, w, h, s, pred, acc);
}

/// One box per region of at least `min_area` pixels, in label order.
fn assemble_boxes(
    accs: &Vec<RegionAcc>,
    min_area: u32,
    Ghost(mask): Ghost<Seq<bool>>,
    Ghost(w): Ghost<int>,
    Ghost(h): Ghost<int>,
    Ghost(labels): Ghost<Seq<usize>>,
    Ghost(seeds): Ghost<Seq<Cell>>,
) -> (r: (Vec<BoundingBox>, Ghost<Seq<Cell>>))
    requires
        labels_are_regions(mask, w, h, labels, accs@.len() as int, seeds),
        forall|l: int|
            1 <= l <= accs@.len() ==> acc_matches(has_label(labels, w, h, l), w, 0, h, #[trigger] accs@[l - 1]),
        w <= u32::MAX,
        h <= u32::MAX,
    ensures
        regions_witness(mask, w, h, min_area as int, r.0@, r.1@),
{
    let ghost ncomp = accs@.len() as int;
    let mut boxes: Vec<BoundingBox> = Vec::new();
    let ghost mut reps: Seq<Cell> = Seq::empty();
    let ghost mut labs: Seq<int> = Seq::empty();
    let mut idx: usize = 0;
    while idx < accs.len()
        invariant
            0 <= idx <= ncomp,
            ncomp == accs@.len(),
            w <= u32::MAX,
            h <= u32::MAX,
            labels_are_regions(mask, w, h, labels, ncomp, seeds),
            forall|k: int|
                1 <= k <= ncomp ==> acc_matches(has_label(labels, w, h, k), w, 0, h, #[trigger] accs@[k - 1]),
            reps.len() == boxes@.len(),
            labs.len() == boxes@.len(),
            forall|i: int|
                0 <= i < labs.len() ==> {
                    &&& 1 <= #[trigger] labs[i] <= idx
                    &&& reps[i] == seeds[labs[i] - 1]
                    &&& boxes@[i] == box_of(accs@[labs[i] - 1])
                    &&& accs@[labs[i] - 1].area >= min_area
                },
            forall|i: int, j: int| 0 <= i < j < labs.len() ==> #[trigger] labs[i] < #[trigger] labs[j],
            forall|k: int|
                1 <= k <= idx && #[trigger] accs@[k - 1].area >= min_area ==> exists|i: int|
                    0 <= i < labs.len() && labs[i] == k,
        decreases ncomp - idx,
    {
        let acc = accs[idx];
        let ghost l: int = idx + 1;
        assert(acc == accs@[l - 1]);
        if acc.area >= min_area as usize {
            proof {
                lemma_region_box(mask, w, h, labels, ncomp, seeds, l, acc);
            }
            let b = BoundingBox {
                x: acc.min_x,
                y: acc.min_y,
                width: acc.max_x - acc.min_x + 1,
                height: acc.max_y - acc.min_y + 1,
            };
            let ghost labs_before = labs;
            boxes.push(b);
            proof {
                reps = reps.push(seeds[idx as int]);
                labs = labs.push(l);
                assert forall|k: int|
                    1 <= k <= idx + 1 && #[trigger] accs@[k - 1].area >= min_area implies exists|i: int|
                        0 <= i < labs.len() && labs[i] == k by {
                    if k < l {
                        let i = choose|i: int| 0 <= i < labs_before.len() && labs_before[i] == k;
                        assert(labs[i] == k);
                    } else {
                        assert(labs[labs.len() - 1] == k);
                    }
                }
            }
        } else {
            proof {
                assert forall|k: int|
                    1 <= k <= idx + 1 && #[trigger] accs@[k - 1].area >= min_area implies exists|i: int|
                        0 <= i < labs.len() && labs[i] == k by {
                    if k < l {
                        let i = choose|i: int| 0 <= i < labs.len() && labs[i] == k;
                    }
                }
            }
        }
        idx = idx + 1;
    }
    proof {
        reveal(regions_witness);
        assert forall|i: int| 0 <= i < reps.len() implies {
            &&& is_diff(mask, w, h, #[trigger] reps[i])
            &&& component_area(mask, w, h, reps[i]) >= min_area
            &&& bounds_component(mask, w, h, reps[i], boxes@[i])
        } by {
            lemma_region_box(mask, w, h, labels, ncomp, seeds, labs[i], accs@[labs[i] - 1]);
        }
        assert forall|i: int, j: int|
            0 <= i < reps.len() && 0 <= j < reps.len() && i != j implies !connected(
            mask,
            w,
            h,
            #[trigger] reps[i],
            #[trigger] reps[j],
        ) by {
            assert(label_of(labels, w, seeds[labs[i] - 1]) == labs[i]);
            assert(label_of(labels, w, seeds[labs[j] - 1]) == labs[j]);
            if i < j {
                assert(labs[i] < labs[j]);
            } else {
                assert(labs[j] < labs[i]);
            }
        }
        assert forall|c: Cell|
            is_diff(mask, w, h, c) && component_area(mask, w, h, c) >= min_area implies exists|i: int|
            0 <= i < reps.len() && #[trigger] connected(mask, w, h, reps[i], c) by {
            let k = label_of(labels, w, c);
            assert(1 <= k <= ncomp);
            lemma_region_is_label(mask, w, h, labels, ncomp, seeds, c, k);
            lemma_region_box(mask, w, h, labels, ncomp, seeds, k, accs@[k - 1]);
            lemma_region_is_label(mask, w, h, labels, ncomp, seeds, seeds[k - 1], k);
            assert(accs@[k - 1].area >= min_area);
            let i = choose|i: int| 0 <= i < labs.len() && labs[i] == k;
            assert(reps[i] == seeds[k - 1]);
            assert(has_label(labels, w, h, k)(c));
            assert(connected(mask, w, h, reps[i], c));
        }
    }
    (boxes, Ghost(reps))
}


// ----- ordering -----

spec fn swapped<T>(s: Seq<T>, i: int, j: int) -> Seq<T> {
    s.update(i, s[j]).update(j, s[i])
}

/// Exchanging two entries of both lists keeps them a valid listing.
proof fn lemma_witness_swap(
    mask: Seq<bool>,
    w: int,
    h: int,
    min_area: int,
    boxes: Seq<BoundingBox>,
    reps: Seq<Cell>,
    i: int,
    j: int,
)
    requires
        regions_witness(mask, w, h, min_area, boxes, reps),
        0 <= i < boxes.len(),
        0 <= j < boxes.len(),
    ensures
        regions_witness(mask, w, h, min_area, swapped(boxes, i, j), swapped(reps, i, j)),
{
    reveal(regions_witness);
    let b2 = swapped(boxes, i, j);
    let r2 = swapped(reps, i, j);
    let perm = |k: int| if k == i { j } else if k == j { i } else { k };
    assert forall|k: int| 0 <= k < r2.len() implies r2[k] == reps[perm(k)] && b2[k] == boxes[perm(k)] by {}
    assert forall|k: int| 0 <= k < r2.len() implies {
        &&& is_diff(mask, w, h, #[trigger] r2[k])
        &&& component_area(mask, w, h, r2[k]) >= min_area
        &&& bounds_component(mask, w, h, r2[k], b2[k])
    } by {
        assert(r2[k] == reps[perm(k)]);
    }
    assert forall|a: int, b: int|
        0 <= a < r2.len() && 0 <= b < r2.len() && a != b implies !connected(
        mask,
        w,
        h,
        #[trigger] r2[a],
        #[trigger] r2[b],
    ) by {
        assert(r2[a] == reps[perm(a)]);
        assert(r2[b] == reps[perm(b)]);
    }
    assert forall|c: Cell|
        is_diff(mask, w, h, c) && component_area(mask, w, h, c) >= min_area implies exists|k: int|
        0 <= k < r2.len() && #[trigger] connected(mask, w, h, r2[k], c) by {
        let k = choose|k: int| 0 <= k < reps.len() && #[trigger] connected(mask, w, h, reps[k], c);
        assert(r2[perm(k)] == reps[k]);
    }
}

/// Orders boxes by top edge, then left edge.
fn sort_boxes(
    boxes: &mut Vec<BoundingBox>,
    Ghost(mask): Ghost<Seq<bool>>,
    Ghost(w): Ghost<int>,
    Ghost(h): Ghost<int>,
    Ghost(min_area): Ghost<int>,
    Ghost(reps): Ghost<Seq<Cell>>,
) -> (r: Ghost<Seq<Cell>>)
    requires
        regions_witness(mask, w, h, min_area, old(boxes)@, reps),
    ensures
        regions_witness(mask, w, h, min_area, final(boxes)@, r@),
        sorted_by_position(final(boxes)@),
{
    let ghost mut gr = reps;
    let n = boxes.len();
    let mut i: usize = 0;
    while i < n
        invariant
            n == boxes@.len(),
            i <= n,
            regions_witness(mask, w, h, min_area, boxes@, gr),
            forall|a: int, b: int| 0 <= a < b < i ==> box_before(#[trigger] boxes@[a], #[trigger] boxes@[b]),
            forall|a: int, b: int| 0 <= a < i <= b < n ==> box_before(#[trigger] boxes@[a], #[trigger] boxes@[b]),
        decreases n - i,
    {
        let mut m: usize = i;
        let mut k: usize = i + 1;
        while k < n
            invariant
                n == boxes@.len(),
                i < n,
                i <= m < n,
                i + 1 <= k <= n,
                forall|b: int| i <= b < k ==> box_before(boxes@[m as int], #[trigger] boxes@[b]),
            decreases n - k,
        {
            let bk = boxes[k];
            let bm = boxes[m];
            if bk.y < bm.y || (bk.y == bm.y && bk.x < bm.x) {
                m = k;
            }
            k = k + 1;
        }
        let ghost before_swap = boxes@;
        let bi = boxes[i];
        let bm = boxes[m];
        boxes.set(i, bm);
        boxes.set(m, bi);
        proof {
            assert(boxes@ == swapped(before_swap, i as int, m as int));
            lemma_witness_swap(mask, w, h, min_area, before_swap, gr, i as int, m as int);
            gr = swapped(gr, i as int, m as int);
            assert forall|a: int, b: int| 0 <= a < b < i + 1 implies box_before(
                #[trigger] boxes@[a],
                #[trigger] boxes@[b],
            ) by {
                if b == i {
                    assert(boxes@[a] == before_swap[a]);
                    assert(box_before(before_swap[a], before_swap[m as int]));
                } else {
                    assert(boxes@[a] == before_swap[a]);
                    assert(boxes@[b] == before_swap[b]);
                }
            }
            assert forall|a: int, b: int| 0 <= a < i + 1 <= b < n implies box_before(
                #[trigger] boxes@[a],
                #[trigger] boxes@[b],
            ) by {
                if a == i {
                    if b == m {
                        assert(boxes@[b] == before_swap[i as int]);
                    } else {
                        assert(boxes@[b] == before_swap[b]);
                    }
                } else {
                    assert(boxes@[a] == before_swap[a]);
                    if b == m {
                        assert(boxes@[b] == before_swap[i as int]);
                    } else {
                        assert(boxes@[b] == before_swap[b]);
                    }
                }
            }
        }
        i = i + 1;
    }
    Ghost(gr)
}

/// Detects the regions of differing pixels (8-connected) and returns the
/// bounding box of every region with at least `min_area` pixels, ordered by
/// top edge, then left edge. Regions below `min_area` are treated as noise.
pub fn detect_diff_regions(img_width: u32, img_height: u32, diff_mask: &[bool], min_area: u32) -> (r: Vec<
    BoundingBox,
>)
    requires
        diff_mask@.len() == img_width as int * img_height as int,
    ensures
        regions_of(diff_mask@, img_width as int, img_height as int, min_area as int, r@),
        sorted_by_position(r@),
{
    let ghost w = img_width as int;
    let ghost h = img_height as int;
    let n = diff_mask.len();
    assert(w * h == n as int);
    let (labels, ncomp, Ghost(seeds)) = label_regions(diff_mask, img_width, img_height);
    let accs = collect_bounds(&labels, img_width, img_height, ncomp);
    let (mut boxes, Ghost(reps)) = assemble_boxes(
        &accs,
        min_area,
        Ghost(diff_mask@),
        Ghost(w),
        Ghost(h),
        Ghost(labels@),
        Ghost(seeds),
    );
    let Ghost(sorted_reps) = sort_boxes(&mut boxes, Ghost(diff_mask@), Ghost(w), Ghost(h), Ghost(min_area as int), Ghost(reps));
    proof {
        assert(regions_witness(diff_mask@, w, h, min_area as int, boxes@, sorted_reps));
    }
    boxes
}


// ----- laws -----

/// Every pixel joined to another by a chain is itself a differing pixel.
pub proof fn lemma_connected_is_diff(mask: Seq<bool>, w: int, h: int, a: Cell, c: Cell)
    requires
        connected(mask, w, h, a, c),
    ensures
        is_diff(mask, w, h, c),
        is_diff(mask, w, h, a),
{
    reveal(connected);
    let p = choose|p: Seq<Cell>| is_diff_path(mask, w, h, p) && p[0] == a && p.last() == c;
    assert(is_diff(mask, w, h, p[p.len() - 1]));
    assert(is_diff(mask, w, h, p[0]));
}

proof fn lemma_witness_entry(
    mask: Seq<bool>,
    w: int,
    h: int,
    min_area: int,
    boxes: Seq<BoundingBox>,
    reps: Seq<Cell>,
    i: int,
)
    requires
        regions_witness(mask, w, h, min_area, boxes, reps),
        0 <= i < boxes.len(),
    ensures
        reps.len() == boxes.len(),
        is_diff(mask, w, h, reps[i]),
        bounds_component(mask, w, h, reps[i], boxes[i]),
{
    reveal(regions_witness);
}

/// Without differing pixels there are no regions.
pub proof fn lemma_no_diff_no_regions(mask: Seq<bool>, w: int, h: int, min_area: int, boxes: Seq<BoundingBox>)
    requires
        regions_of(mask, w, h, min_area, boxes),
        forall|i: int| 0 <= i < mask.len() ==> !mask[i],
        mask.len() == w * h,
    ensures
        boxes.len() == 0,
{
    let reps = choose|reps: Seq<Cell>| regions_witness(mask, w, h, min_area, boxes, reps);
    if boxes.len() > 0 {
        lemma_witness_entry(mask, w, h, min_area, boxes, reps, 0);
        let c = reps[0];
        assert(is_diff(mask, w, h, c));
        assert(0 <= cell_index(w, c) < w * h) by (nonlinear_arith)
            requires
                0 <= c.0 < w,
                0 <= c.1 < h,
                cell_index(w, c) == c.1 * w + c.0,
        ;
    }
}

/// Every region's box lies inside the image, and the region has at least
/// `min_area` pixels.
pub proof fn lemma_regions_inside_image(
    mask: Seq<bool>,
    w: int,
    h: int,
    min_area: int,
    boxes: Seq<BoundingBox>,
    i: int,
)
    requires
        regions_of(mask, w, h, min_area, boxes),
        0 <= i < boxes.len(),
    ensures
        boxes[i].x + boxes[i].width <= w,
        boxes[i].y + boxes[i].height <= h,
        boxes[i].width >= 1,
        boxes[i].height >= 1,
{
    let reps = choose|reps: Seq<Cell>| regions_witness(mask, w, h, min_area, boxes, reps);
    lemma_witness_entry(mask, w, h, min_area, boxes, reps, i);
    let r = reps[i];
    let b = boxes[i];
    assert(bounds_component(mask, w, h, r, b));
    let cx = choose|c: Cell| #[trigger] connected(mask, w, h, r, c) && c.0 == b.x + b.width - 1;
    let cy = choose|c: Cell| #[trigger] connected(mask, w, h, r, c) && c.1 == b.y + b.height - 1;
    lemma_connected_is_diff(mask, w, h, r, cx);
    lemma_connected_is_diff(mask, w, h, r, cy);
}

} // verus!
