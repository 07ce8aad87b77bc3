use crate::direction::{reselect_direction, Direction};
use crate::node::{GNode, NodeType};
use vstd::prelude::*;

verus! {

/// An opaque, stable handle to one cell of a `Maze`: an index into its arena.
#[derive(Clone, Copy, PartialEq, Eq, Structural, Debug)]
pub struct Cursor {
    pub index: usize,
}

impl Cursor {
    /// A cursor for a raw index; nothing checks that the index is in range.
    pub fn unsafe_new(index: usize) -> (r: Cursor)
        ensures
            r.index == index,
    {
        Cursor { index: index }
    }

    pub fn index(&self) -> (r: usize)
        ensures
            r == self.index,
    {
        self.index
    }
}

pub type Node = GNode<Cursor>;

/// An append-only arena of cells linked by cursors.
#[derive(Clone)]
pub struct Maze {
    pub nodes: Vec<Node>,
}

impl View for Maze {
    type V = Seq<Node>;

    open spec fn view(&self) -> Seq<Node> {
        self.nodes@
    }
}

/// The neighbor index of node `i` in direction `d`, if that edge exists.
pub open spec fn lk(m: Seq<Node>, i: int, d: Direction) -> Option<int> {
    match m[i].nbr(d) {
        Some(c) => Some(c.index as int),
        None => None,
    }
}

/// The arena index of the cell at column `x`, row `y` of a `w` by `h` plane,
/// following the order in which `make_plane` creates cells: the root first,
/// then per column the next column's row-0 cell followed by the column itself.
pub open spec fn cell_index(w: int, h: int, x: int, y: int) -> int {
    if y == 0 {
        if x == 0 {
            0
        } else {
            1 + (x - 1) * h
        }
    } else {
        1 + x * h + (if x < w - 1 {
            1int
        } else {
            0int
        }) + (y - 1)
    }
}

/// The links of the cell at `(x, y)` are exactly the four grid neighbors.
pub open spec fn grid_cell_ok(m: Seq<Node>, w: int, h: int, x: int, y: int) -> bool {
    let i = cell_index(w, h, x, y);
    &&& 0 <= i < m.len()
    &&& lk(m, i, Direction::Up) == (if y > 0 {
        Some(cell_index(w, h, x, y - 1))
    } else {
        None::<int>
    })
    &&& lk(m, i, Direction::Down) == (if y < h - 1 {
        Some(cell_index(w, h, x, y + 1))
    } else {
        None::<int>
    })
    &&& lk(m, i, Direction::Left) == (if x > 0 {
        Some(cell_index(w, h, x - 1, y))
    } else {
        None::<int>
    })
    &&& lk(m, i, Direction::Right) == (if x < w - 1 {
        Some(cell_index(w, h, x + 1, y))
    } else {
        None::<int>
    })
}

/// The arena holds exactly a fully linked `w` by `h` rectangular plane.
pub open spec fn is_grid(m: Seq<Node>, w: int, h: int) -> bool {
    &&& 1 <= w
    &&& 1 <= h
    &&& m.len() == w * h
    &&& forall|x: int, y: int|
        0 <= x < w && 0 <= y < h ==> #[trigger] grid_cell_ok(m, w, h, x, y)
}

/// Roles after plane construction: the root is `Start`, the bottom-right
/// corner is `End` (which wins when the two coincide), all others `Regular`.
pub open spec fn grid_types(m: Seq<Node>, w: int, h: int) -> bool {
    forall|x: int, y: int|
        0 <= x < w && 0 <= y < h ==> (#[trigger] m[cell_index(w, h, x, y)].n_type) == (if x == w - 1
            && y == h - 1 {
            NodeType::End
        } else if x == 0 && y == 0 {
            NodeType::Start
        } else {
            NodeType::Regular
        })
}

/// Wall flags agree across every shared edge, and boundary walls stand.
pub open spec fn wall_sym_at(m: Seq<Node>, w: int, h: int, x: int, y: int) -> bool {
    let i = cell_index(w, h, x, y);
    &&& (x < w - 1 ==> m[i].wall(Direction::Right) == m[cell_index(w, h, x + 1, y)].wall(
        Direction::Left,
    ))
    &&& (y < h - 1 ==> m[i].wall(Direction::Down) == m[cell_index(w, h, x, y + 1)].wall(
        Direction::Up,
    ))
    &&& (x == 0 ==> m[i].wall(Direction::Left))
    &&& (x == w - 1 ==> m[i].wall(Direction::Right))
    &&& (y == 0 ==> m[i].wall(Direction::Up))
    &&& (y == h - 1 ==> m[i].wall(Direction::Down))
}

pub open spec fn grid_walls_sym(m: Seq<Node>, w: int, h: int) -> bool {
    forall|x: int, y: int| 0 <= x < w && 0 <= y < h ==> #[trigger] wall_sym_at(m, w, h, x, y)
}

/// Every cell-index of the plane lies inside the arena.
pub proof fn lemma_cell_index_bounds(w: int, h: int, x: int, y: int)
    requires
        1 <= w,
        1 <= h,
        0 <= x < w,
        0 <= y < h,
    ensures
        0 <= cell_index(w, h, x, y) < w * h,
{
    if y == 0 {
        if x == 0 {
            assert(0 < w * h) by (nonlinear_arith)
                requires
                    1 <= w && 1 <= h,
            ;
        } else {
            assert(1 + (x - 1) * h < w * h) by (nonlinear_arith)
                requires
                    1 <= h && 1 <= x < w,
            ;
            assert(0 <= (x - 1) * h) by (nonlinear_arith)
                requires
                    1 <= h && 1 <= x,
            ;
        }
    } else {
        if x < w - 1 {
            assert(1 + x * h + 1 + (y - 1) < w * h) by (nonlinear_arith)
                requires
                    1 <= h && 0 <= x < w - 1 && 1 <= y < h,
            ;
        } else {
            assert(1 + x * h + (y - 1) < w * h) by (nonlinear_arith)
                requires
                    1 <= h && x == w - 1 && 1 <= w && 1 <= y < h,
            ;
        }
        assert(0 <= x * h) by (nonlinear_arith)
            requires
                0 <= x && 0 <= h,
        ;
    }
}

/// Distinct coordinates of the plane have distinct cell-indices.
pub proof fn lemma_cell_index_injective(w: int, h: int, x1: int, y1: int, x2: int, y2: int)
    requires
        1 <= w,
        1 <= h,
        0 <= x1 < w,
        0 <= y1 < h,
        0 <= x2 < w,
        0 <= y2 < h,
        (x1, y1) != (x2, y2),
    ensures
        cell_index(w, h, x1, y1) != cell_index(w, h, x2, y2),
{
    if y1 == 0 && y2 == 0 {
        if x1 != x2 {
            assert(x1 >= 1 && x2 >= 1 ==> (1 + (x1 - 1) * h != 1 + (x2 - 1) * h))
                by (nonlinear_arith)
                requires
                    1 <= h && x1 != x2,
            ;
            if x1 == 0 {
                assert(1 + (x2 - 1) * h > 0) by (nonlinear_arith)
                    requires
                        1 <= h && 1 <= x2,
                ;
            }
            if x2 == 0 {
                assert(1 + (x1 - 1) * h > 0) by (nonlinear_arith)
                    requires
                        1 <= h && 1 <= x1,
                ;
            }
        }
    } else if y1 == 0 && y2 >= 1 {
        lemma_cell_index_row0_vs_inner(w, h, x1, x2, y2);
    } else if y2 == 0 && y1 >= 1 {
        lemma_cell_index_row0_vs_inner(w, h, x2, x1, y1);
    } else {
        // both inner rows
        if x1 == x2 {
            assert(cell_index(w, h, x1, y1) != cell_index(w, h, x2, y2));
        } else if x1 < x2 {
            lemma_cell_index_inner_vs_inner(w, h, x1, y1, x2, y2);
        } else {
            lemma_cell_index_inner_vs_inner(w, h, x2, y2, x1, y1);
        }
    }
}

proof fn lemma_cell_index_row0_vs_inner(w: int, h: int, x1: int, x2: int, y2: int)
    requires
        1 <= w,
        1 <= h,
        0 <= x1 < w,
        0 <= x2 < w,
        1 <= y2 < h,
    ensures
        cell_index(w, h, x1, 0) != cell_index(w, h, x2, y2),
{
    let r2: int = if x2 < w - 1 {
        1
    } else {
        0
    };
    if x1 == 0 {
        assert(1 + x2 * h + r2 + (y2 - 1) > 0) by (nonlinear_arith)
            requires
                1 <= h && 0 <= x2 && 1 <= y2 && 0 <= r2,
        ;
    } else {
        // 1 + (x1-1)*h vs 1 + x2*h + r2 + y2 - 1
        if x1 - 1 <= x2 {
            // rhs >= x2*h + y2 > (x1-1)*h unless equality forces x2 == x1-1, r2 == 0, y2 == 1;
            // but r2 == 0 means x2 == w-1, so x1 == w which is out of range.
            assert((x1 - 1) * h <= x2 * h) by (nonlinear_arith)
                requires
                    1 <= h && x1 - 1 <= x2,
            ;
            if (x1 - 1) * h == x2 * h + r2 + y2 - 1 {
                assert(x2 * h <= (x1 - 1) * h);
                assert(r2 + y2 - 1 == (x1 - 1) * h - x2 * h);
                assert((x1 - 1) * h - x2 * h == (x1 - 1 - x2) * h) by (nonlinear_arith);
                if x1 - 1 == x2 {
                    assert(r2 + y2 - 1 == 0);
                    assert(r2 == 0 && y2 == 1);
                    assert(x2 == w - 1);
                    assert(x1 == w);
                    assert(false);
                } else {
                    assert(x1 - 1 - x2 <= -1);
                    assert((x1 - 1 - x2) * h <= -h) by (nonlinear_arith)
                        requires
                            1 <= h && x1 - 1 - x2 <= -1,
                    ;
                    assert(r2 + y2 - 1 >= 1);
                    assert(false);
                }
            }
        } else {
            // x1 - 1 > x2: (x1-1)*h >= (x2+1)*h = x2*h + h > x2*h + r2 + y2 - 1
            assert((x1 - 1) * h >= x2 * h + h) by (nonlinear_arith)
                requires
                    1 <= h && x1 - 1 >= x2 + 1,
            ;
            assert(r2 + y2 - 1 <= 1 + h - 1 - 1);
        }
    }
}

proof fn lemma_cell_index_inner_vs_inner(w: int, h: int, x1: int, y1: int, x2: int, y2: int)
    requires
        1 <= w,
        1 <= h,
        0 <= x1 < w,
        0 <= x2 < w,
        1 <= y1 < h,
        1 <= y2 < h,
        x1 < x2,
    ensures
        cell_index(w, h, x1, y1) != cell_index(w, h, x2, y2),
{
    let r1: int = if x1 < w - 1 {
        1
    } else {
        0
    };
    let r2: int = if x2 < w - 1 {
        1
    } else {
        0
    };
    // lhs = 1 + x1*h + r1 + y1 - 1 <= 1 + x1*h + 1 + h - 2 = x1*h + h = (x1+1)*h
    // rhs = 1 + x2*h + r2 + y2 - 1 >= 1 + x2*h >= 1 + (x1+1)*h > lhs
    assert(x1 * h + h == (x1 + 1) * h) by (nonlinear_arith);
    assert((x1 + 1) * h <= x2 * h) by (nonlinear_arith)
        requires
            1 <= h && x1 + 1 <= x2,
    ;
}

/// Every arena index of a plane is the cell-index of exactly one coordinate.
pub proof fn lemma_cell_index_surjective(w: int, h: int, i: int)
    requires
        1 <= w,
        1 <= h,
        0 <= i < w * h,
    ensures
        exists|x: int, y: int|
            0 <= x < w && 0 <= y < h && i == #[trigger] cell_index(w, h, x, y),
{
    if i == 0 {
        assert(cell_index(w, h, 0, 0) == 0);
    } else {
        let j = i - 1;
        let b = j / h;
        let p = j % h;
        vstd::arithmetic::div_mod::lemma_fundamental_div_mod(j, h);
        vstd::arithmetic::div_mod::lemma_mod_bound(j, h);
        assert(0 <= p < h);
        assert(b >= 0) by (nonlinear_arith)
            requires
                j >= 0 && h >= 1 && j == h * b + p && 0 <= p < h,
        ;
        assert(b <= w - 1) by (nonlinear_arith)
            requires
                j < w * h - 1 + 1 && h >= 1 && j == h * b + p && 0 <= p < h,
        ;
        if b < w - 1 {
            if p == 0 {
                assert(cell_index(w, h, b + 1, 0) == 1 + b * h);
                assert(1 + b * h == i) by (nonlinear_arith)
                    requires
                        j == h * b + p && p == 0 && j == i - 1,
                ;
            } else {
                assert(cell_index(w, h, b, p) == 1 + b * h + 1 + (p - 1));
                assert(1 + b * h + 1 + (p - 1) == i) by (nonlinear_arith)
                    requires
                        j == h * b + p && j == i - 1,
                ;
            }
        } else {
            // b == w - 1: the last column, cell (w-1, p+1)
            assert(p + 1 <= h - 1) by (nonlinear_arith)
                requires
                    j <= w * h - 2 && h >= 1 && j == h * b + p && b == w - 1 && 0 <= p,
            ;
            assert(cell_index(w, h, w - 1, p + 1) == 1 + (w - 1) * h + (p + 1 - 1));
            assert(1 + (w - 1) * h + p == i) by (nonlinear_arith)
                requires
                    j == h * b + p && b == w - 1 && j == i - 1,
            ;
        }
    }
}

/// The cursor reached from node `i` after `k` steps to the right, if every
/// step crosses an existing edge.
pub open spec fn walk_right(m: Seq<Node>, i: int, k: nat) -> Option<int>
    decreases k,
{
    if k == 0 {
        Some(i)
    } else if 0 <= i < m.len() {
        match lk(m, i, Direction::Right) {
            Some(j) => walk_right(m, j, (k - 1) as nat),
            None => None,
        }
    } else {
        None
    }
}

/// The cursor reached from node `i` after `k` steps downward.
pub open spec fn walk_down(m: Seq<Node>, i: int, k: nat) -> Option<int>
    decreases k,
{
    if k == 0 {
        Some(i)
    } else if 0 <= i < m.len() {
        match lk(m, i, Direction::Down) {
            Some(j) => walk_down(m, j, (k - 1) as nat),
            None => None,
        }
    } else {
        None
    }
}

/// The cursor reached from the root by `x` steps right, then `y` steps down.
pub open spec fn walk(m: Seq<Node>, x: nat, y: nat) -> Option<int> {
    match walk_right(m, 0, x) {
        Some(i) => walk_down(m, i, y),
        None => None,
    }
}

/// One more step appended at the end of a rightward walk.
pub open spec fn step_dir(m: Seq<Node>, o: Option<int>, d: Direction) -> Option<int> {
    match o {
        Some(j) => if 0 <= j < m.len() {
            lk(m, j, d)
        } else {
            None
        },
        None => None,
    }
}

proof fn lemma_walk_right_snoc(m: Seq<Node>, i: int, k: nat)
    ensures
        walk_right(m, i, (k + 1) as nat) == step_dir(m, walk_right(m, i, k), Direction::Right),
    decreases k,
{
    reveal_with_fuel(walk_right, 2);
    if k > 0 {
        if 0 <= i < m.len() {
            match lk(m, i, Direction::Right) {
                Some(j) => {
                    lemma_walk_right_snoc(m, j, (k - 1) as nat);
                },
                None => {},
            }
        }
    }
}

proof fn lemma_walk_down_snoc(m: Seq<Node>, i: int, k: nat)
    ensures
        walk_down(m, i, (k + 1) as nat) == step_dir(m, walk_down(m, i, k), Direction::Down),
    decreases k,
{
    reveal_with_fuel(walk_down, 2);
    if k > 0 {
        if 0 <= i < m.len() {
            match lk(m, i, Direction::Down) {
                Some(j) => {
                    lemma_walk_down_snoc(m, j, (k - 1) as nat);
                },
                None => {},
            }
        }
    }
}

proof fn lemma_walk_right_mono(m: Seq<Node>, i: int, j: nat, k: nat)
    requires
        j <= k,
        walk_right(m, i, k) is Some,
    ensures
        walk_right(m, i, j) is Some,
    decreases k - j,
{
    if j < k {
        lemma_walk_right_snoc(m, i, (k - 1) as nat);
        lemma_walk_right_mono(m, i, j, (k - 1) as nat);
    }
}

proof fn lemma_walk_down_mono(m: Seq<Node>, i: int, j: nat, k: nat)
    requires
        j <= k,
        walk_down(m, i, k) is Some,
    ensures
        walk_down(m, i, j) is Some,
    decreases k - j,
{
    if j < k {
        lemma_walk_down_snoc(m, i, (k - 1) as nat);
        lemma_walk_down_mono(m, i, j, (k - 1) as nat);
    }
}

impl Maze {
    /// A graph with no cells at all.
    pub fn empty() -> (r: Maze)
        ensures
            r@.len() == 0,
    {
        Maze { nodes: vec![] }
    }

    /// A graph holding exactly one fresh `Start` cell, the root.
    pub fn new() -> (r: Maze)
        ensures
            r@.len() == 1,
            r@[0] == GNode::<Cursor>::spec_new(NodeType::Start),
    {
        Maze { nodes: vec![Node::unsafe_new(NodeType::Start)] }
    }

    /// The cell that `cursor` refers to, by value.
    pub fn at(&self, cursor: Cursor) -> (n: Node)
        requires
            cursor.index < self@.len(),
        ensures
            n == self@[cursor.index as int],
    {
        self.nodes[cursor.index]
    }

    /// A reference to the cell that `cursor` refers to.
    pub fn get(&self, cursor: Cursor) -> (n: &Node)
        requires
            cursor.index < self@.len(),
        ensures
            *n == self@[cursor.index as int],
    {
        &(self.nodes[cursor.index])
    }

    /// The fixed root handle, position `(0, 0)`.
    pub fn get_root(&self) -> (r: Cursor)
        ensures
            r.index == 0,
    {
        Cursor { index: 0 }
    }

    /// Appends a fresh cell of role `node_type`, wired as the neighbor of
    /// `cursor` in direction `dir` with the reverse link back.
    pub fn add(&mut self, cursor: Cursor, dir: Direction, node_type: NodeType) -> (r: Cursor)
        requires
            cursor.index < old(self)@.len(),
            node_type != NodeType::Start,
        ensures
            r.index == old(self)@.len(),
            final (self)@ == old(self)@.update(
                cursor.index as int,
                old(self)@[cursor.index as int].with_nbr(dir, Some(r)),
            ).push(GNode::<Cursor>::spec_new(node_type).with_nbr(dir.rev(), Some(cursor))),
    {
        let mut new_node = Node::new(node_type);
        let ret_cursor = Cursor::unsafe_new(self.nodes.len());
        new_node.set_neighbor(dir.reverse(), cursor);
        self.nodes.push(new_node);
        let mut link_node = self.nodes[cursor.index];
        link_node.set_neighbor(dir, ret_cursor);
        self.nodes[cursor.index] = link_node;
        proof {
            assert(final (self)@ =~= old(self)@.update(
                cursor.index as int,
                old(self)@[cursor.index as int].with_nbr(dir, Some(ret_cursor)),
            ).push(GNode::<Cursor>::spec_new(node_type).with_nbr(dir.rev(), Some(cursor))));
        }
        ret_cursor
    }

    /// Moves `cursor` to its neighbor in direction `dir`, which must exist.
    pub fn cursor_move(&self, cursor: &mut Cursor, dir: Direction)
        requires
            old(cursor).index < self@.len(),
            lk(self@, old(cursor).index as int, dir) is Some,
        ensures
            Some(final (cursor).index as int) == lk(self@, old(cursor).index as int, dir),
    {
        *cursor = self.get(*cursor).get_neighbor(dir);
    }

    /// Walks `x` cells right from the root, then `y` cells down.
    pub fn by_coords(&self, x: usize, y: usize) -> (r: Cursor)
        requires
            walk(self@, x as nat, y as nat) is Some,
        ensures
            Some(r.index as int) == walk(self@, x as nat, y as nat),
    {
        let mut cursor = self.get_root();
        proof {
            lemma_walk_right_mono(self@, 0, 0, x as nat);
        }
        for i in 0..x
            invariant
                walk(self@, x as nat, y as nat) is Some,
                Some(cursor.index as int) == walk_right(self@, 0, i as nat),
        {
            proof {
                lemma_walk_right_mono(self@, 0, (i + 1) as nat, x as nat);
                lemma_walk_right_snoc(self@, 0, i as nat);
            }
            self.cursor_move(&mut cursor, Direction::Right);
        }
        let ghost mid = cursor.index as int;
        for i in 0..y
            invariant
                walk(self@, x as nat, y as nat) is Some,
                Some(mid) == walk_right(self@, 0, x as nat),
                Some(cursor.index as int) == walk_down(self@, mid, i as nat),
        {
            proof {
                lemma_walk_down_mono(self@, mid, (i + 1) as nat, y as nat);
                lemma_walk_down_snoc(self@, mid, i as nat);
            }
            self.cursor_move(&mut cursor, Direction::Down);
        }
        cursor
    }

    /// Wires two existing cells as neighbors across `dir`, both ways.
    pub fn add_edge(&mut self, cur_a: Cursor, cur_b: Cursor, dir: Direction)
        requires
            cur_a.index < old(self)@.len(),
            cur_b.index < old(self)@.len(),
        ensures
            final (self)@ == old(self)@.update(
                cur_a.index as int,
                old(self)@[cur_a.index as int].with_nbr(dir, Some(cur_b)),
            ).update(
                cur_b.index as int,
                old(self)@.update(
                    cur_a.index as int,
                    old(self)@[cur_a.index as int].with_nbr(dir, Some(cur_b)),
                )[cur_b.index as int].with_nbr(dir.rev(), Some(cur_a)),
            ),
    {
        let mut node_a = self.nodes[cur_a.index];
        node_a.set_neighbor(dir, cur_b);
        self.nodes[cur_a.index] = node_a;
        let mut node_b = self.nodes[cur_b.index];
        node_b.set_neighbor(dir.reverse(), cur_a);
        self.nodes[cur_b.index] = node_b;
    }

    /// Clears the wall flags on both ends of the edge from `cur_a` towards
    /// `dir`, with `cur_b` the cell on the far side.
    pub fn remove_walls(&mut self, cur_a: Cursor, cur_b: Cursor, dir: Direction)
        requires
            cur_a.index < old(self)@.len(),
            cur_b.index < old(self)@.len(),
        ensures
            final (self)@ == old(self)@.update(
                cur_a.index as int,
                old(self)@[cur_a.index as int].without_wall(dir),
            ).update(
                cur_b.index as int,
                old(self)@.update(
                    cur_a.index as int,
                    old(self)@[cur_a.index as int].without_wall(dir),
                )[cur_b.index as int].without_wall(dir.rev()),
            ),
    {
        let mut node_a = self.nodes[cur_a.index];
        node_a.remove_wall(dir);
        self.nodes[cur_a.index] = node_a;
        let mut node_b = self.nodes[cur_b.index];
        node_b.remove_wall(dir.reverse());
        self.nodes[cur_b.index] = node_b;
    }

    /// The visited flag of every cell, in arena order.
    pub fn get_visiteds(&self) -> (r: Vec<bool>)
        ensures
            r@.len() == self@.len(),
            forall|i: int| 0 <= i < self@.len() ==> r@[i] == self@[i].visited(),
    {
        let mut ret_vec: Vec<bool> = vec![];
        for k in 0..self.nodes.len()
            invariant
                ret_vec@.len() == k,
                forall|i: int| 0 <= i < k ==> ret_vec@[i] == self@[i].visited(),
        {
            ret_vec.push(self.nodes[k].is_visited());
        }
        ret_vec
    }

    /// Marks the cell at `cursor` visited.
    fn visit_at(&mut self, cursor: Cursor)
        requires
            cursor.index < old(self)@.len(),
        ensures
            final (self)@ == old(self)@.update(
                cursor.index as int,
                old(self)@[cursor.index as int].with_visited(),
            ),
    {
        let mut node = self.nodes[cursor.index];
        node.visit();
        self.nodes[cursor.index] = node;
    }

    /// Replaces the role of the cell at `cursor`.
    fn set_type_at(&mut self, cursor: Cursor, t: NodeType)
        requires
            cursor.index < old(self)@.len(),
        ensures
            final (self)@ == old(self)@.update(
                cursor.index as int,
                old(self)@[cursor.index as int].with_type(t),
            ),
    {
        let mut node = self.nodes[cursor.index];
        node.set_type(t);
        self.nodes[cursor.index] = node;
    }

    /// The extent of a fully linked plane, found by walking right from the
    /// root until the row ends and then down until the column ends.
    pub fn size(&self) -> (r: (usize, usize))
        requires
            exists|w: int, h: int| is_grid(self@, w, h),
        ensures
            forall|w: int, h: int| is_grid(self@, w, h) ==> r.0 == w && r.1 == h,
    {
        let ghost (gw, gh): (int, int) = choose|w: int, h: int| is_grid(self@, w, h);
        proof {
            assert(gw <= gw * gh) by (nonlinear_arith)
                requires
                    1 <= gw && 1 <= gh,
            ;
            assert(gh <= gw * gh) by (nonlinear_arith)
                requires
                    1 <= gw && 1 <= gh,
            ;
            assert(grid_cell_ok(self@, gw, gh, 0, 0));
        }
        let cursor = self.get_root();
        let mut x: usize = 1;
        let mut y: usize = 1;
        let mut next = self.at(cursor).get_neighbor_option(Direction::Right);
        proof {
            assert forall|w: int, h: int| #[trigger] is_grid(self@, w, h) implies (match next {
                Some(c) => 1 < w && c.index as int == cell_index(w, h, 1, 0),
                None => 1 == w,
            }) by {
                assert(grid_cell_ok(self@, w, h, 0, 0));
            }
        }
        while next.is_some()
            invariant
                is_grid(self@, gw, gh),
                1 <= x <= gw,
                gw <= gw * gh,
                self@.len() == gw * gh,
                forall|w: int, h: int|
                    #[trigger] is_grid(self@, w, h) ==> x <= w && (match next {
                        Some(c) => x < w && c.index as int == cell_index(w, h, x as int, 0),
                        None => x == w,
                    }),
            decreases gw - x,
        {
            let c = next.unwrap();
            proof {
                assert(x < gw);
                vstd::std_specs::vec::axiom_spec_len(&self.nodes);
                assert(gw <= self@.len());
                lemma_cell_index_bounds(gw, gh, x as int, 0);
                assert(grid_cell_ok(self@, gw, gh, x as int, 0));
            }
            x = x + 1;
            next = self.at(c).get_neighbor_option(Direction::Right);
            proof {
                assert forall|w: int, h: int| #[trigger] is_grid(self@, w, h) implies x <= w && (
                match next {
                    Some(cc) => x < w && cc.index as int == cell_index(w, h, x as int, 0),
                    None => x == w,
                }) by {
                    assert(grid_cell_ok(self@, w, h, (x - 1) as int, 0));
                }
            }
        }
        next = self.at(cursor).get_neighbor_option(Direction::Down);
        proof {
            assert forall|w: int, h: int| #[trigger] is_grid(self@, w, h) implies (match next {
                Some(c) => 1 < h && c.index as int == cell_index(w, h, 0, 1),
                None => 1 == h,
            }) by {
                assert(grid_cell_ok(self@, w, h, 0, 0));
            }
        }
        while next.is_some()
            invariant
                is_grid(self@, gw, gh),
                1 <= y <= gh,
                gh <= gw * gh,
                self@.len() == gw * gh,
                forall|w: int, h: int|
                    #[trigger] is_grid(self@, w, h) ==> y <= h && (match next {
                        Some(c) => y < h && c.index as int == cell_index(w, h, 0, y as int),
                        None => y == h,
                    }),
            decreases gh - y,
        {
            let c = next.unwrap();
            proof {
                assert(y < gh);
                vstd::std_specs::vec::axiom_spec_len(&self.nodes);
                assert(gh <= self@.len());
                lemma_cell_index_bounds(gw, gh, 0, y as int);
                assert(grid_cell_ok(self@, gw, gh, 0, y as int));
            }
            y = y + 1;
            next = self.at(c).get_neighbor_option(Direction::Down);
            proof {
                assert forall|w: int, h: int| #[trigger] is_grid(self@, w, h) implies y <= h && (
                match next {
                    Some(cc) => y < h && cc.index as int == cell_index(w, h, 0, y as int),
                    None => y == h,
                }) by {
                    assert(grid_cell_ok(self@, w, h, 0, (y - 1) as int));
                }
            }
        }
        (x, y)
    }
}

// A first construction pass builds the plane column block by column block:
// the root exists from the start; block `cx` first appends the row-0 cell of
// column `cx + 1` (unless at the last column) and then grows column `cx`
// downward cell by cell.  The predicates below describe every intermediate
// arena exactly: `rm` is the largest column whose row-0 cell exists, and
// column `cx` has grown down to row `cy`.
spec fn p1_ex(h: int, rm: int, cx: int, cy: int, a: int, b: int) -> bool {
    (b == 0 && 0 <= a <= rm) || (1 <= b < h && 0 <= a && (a < cx || (a == cx && b <= cy)))
}

spec fn p1_node_ok(m: Seq<Node>, w: int, h: int, rm: int, cx: int, cy: int, a: int, b: int) -> bool {
    let i = cell_index(w, h, a, b);
    &&& 0 <= i < m.len()
    &&& lk(m, i, Direction::Up) == (if b > 0 {
        Some(cell_index(w, h, a, b - 1))
    } else {
        None::<int>
    })
    &&& lk(m, i, Direction::Down) == (if b < h - 1 && p1_ex(h, rm, cx, cy, a, b + 1) {
        Some(cell_index(w, h, a, b + 1))
    } else {
        None::<int>
    })
    &&& lk(m, i, Direction::Left) == (if b == 0 && a > 0 {
        Some(cell_index(w, h, a - 1, 0))
    } else {
        None::<int>
    })
    &&& lk(m, i, Direction::Right) == (if b == 0 && a + 1 <= rm {
        Some(cell_index(w, h, a + 1, 0))
    } else {
        None::<int>
    })
    &&& m[i].cell_data.all_walls()
    &&& !m[i].visited()
    &&& m[i].n_type == (if a == 0 && b == 0 {
        NodeType::Start
    } else {
        NodeType::Regular
    })
}

spec fn p1_state(m: Seq<Node>, w: int, h: int, rm: int, cx: int, cy: int) -> bool {
    &&& m.len() == rm + 1 + cx * (h - 1) + cy
    &&& forall|a: int, b: int|
        p1_ex(h, rm, cx, cy, a, b) ==> #[trigger] p1_node_ok(m, w, h, rm, cx, cy, a, b)
}

// The second pass stitches the horizontal links of the inner rows, edge by
// edge: every edge strictly before column `xp`, plus those of column `xp`
// strictly before row `yp`, has been wired.
spec fn p2_done(xp: int, yp: int, a: int, b: int) -> bool {
    a < xp || (a == xp && b < yp)
}

spec fn p2_node_ok(m: Seq<Node>, w: int, h: int, xp: int, yp: int, a: int, b: int) -> bool {
    let i = cell_index(w, h, a, b);
    &&& 0 <= i < m.len()
    &&& lk(m, i, Direction::Up) == (if b > 0 {
        Some(cell_index(w, h, a, b - 1))
    } else {
        None::<int>
    })
    &&& lk(m, i, Direction::Down) == (if b < h - 1 {
        Some(cell_index(w, h, a, b + 1))
    } else {
        None::<int>
    })
    &&& lk(m, i, Direction::Left) == (if a > 0 && (b == 0 || p2_done(xp, yp, a - 1, b)) {
        Some(cell_index(w, h, a - 1, b))
    } else {
        None::<int>
    })
    &&& lk(m, i, Direction::Right) == (if a < w - 1 && (b == 0 || p2_done(xp, yp, a, b)) {
        Some(cell_index(w, h, a + 1, b))
    } else {
        None::<int>
    })
    &&& m[i].cell_data.all_walls()
    &&& !m[i].visited()
    &&& m[i].n_type == (if a == 0 && b == 0 {
        NodeType::Start
    } else {
        NodeType::Regular
    })
}

spec fn p2_state(m: Seq<Node>, w: int, h: int, xp: int, yp: int) -> bool {
    &&& m.len() == w * h
    &&& forall|a: int, b: int|
        0 <= a < w && 0 <= b < h ==> #[trigger] p2_node_ok(m, w, h, xp, yp, a, b)
}

proof fn lemma_chain_right(m: Seq<Node>, w: int, h: int, x: int)
    requires
        1 <= w,
        1 <= h,
        0 <= x < w,
        forall|a: int|
            0 <= a < x ==> 0 <= #[trigger] cell_index(w, h, a, 0) < m.len() && lk(
                m,
                cell_index(w, h, a, 0),
                Direction::Right,
            ) == Some(cell_index(w, h, a + 1, 0)),
    ensures
        walk_right(m, 0, x as nat) == Some(cell_index(w, h, x, 0)),
    decreases x,
{
    if x == 0 {
    } else {
        lemma_chain_right(m, w, h, x - 1);
        lemma_walk_right_snoc(m, 0, (x - 1) as nat);
    }
}

proof fn lemma_chain_down(m: Seq<Node>, w: int, h: int, x: int, y: int)
    requires
        1 <= w,
        1 <= h,
        0 <= x < w,
        0 <= y < h,
        forall|b: int|
            0 <= b < y ==> 0 <= #[trigger] cell_index(w, h, x, b) < m.len() && lk(
                m,
                cell_index(w, h, x, b),
                Direction::Down,
            ) == Some(cell_index(w, h, x, b + 1)),
    ensures
        walk_down(m, cell_index(w, h, x, 0), y as nat) == Some(cell_index(w, h, x, y)),
    decreases y,
{
    if y == 0 {
    } else {
        lemma_chain_down(m, w, h, x, y - 1);
        lemma_walk_down_snoc(m, cell_index(w, h, x, 0), (y - 1) as nat);
    }
}

proof fn lemma_walk_to_cell(m: Seq<Node>, w: int, h: int, x: int, y: int)
    requires
        1 <= w,
        1 <= h,
        0 <= x < w,
        0 <= y < h,
        forall|a: int|
            0 <= a < x ==> 0 <= #[trigger] cell_index(w, h, a, 0) < m.len() && lk(
                m,
                cell_index(w, h, a, 0),
                Direction::Right,
            ) == Some(cell_index(w, h, a + 1, 0)),
        forall|b: int|
            0 <= b < y ==> 0 <= #[trigger] cell_index(w, h, x, b) < m.len() && lk(
                m,
                cell_index(w, h, x, b),
                Direction::Down,
            ) == Some(cell_index(w, h, x, b + 1)),
    ensures
        walk(m, x as nat, y as nat) == Some(cell_index(w, h, x, y)),
{
    lemma_chain_right(m, w, h, x);
    lemma_chain_down(m, w, h, x, y);
}

proof fn lemma_p1_walk(m: Seq<Node>, w: int, h: int, rm: int, cx: int, cy: int, x: int, y: int)
    requires
        1 <= w,
        1 <= h,
        0 <= rm <= w - 1,
        p1_state(m, w, h, rm, cx, cy),
        0 <= x <= rm,
        0 <= y < h,
        y == 0 || (x < cx || (x == cx && y <= cy)),
    ensures
        walk(m, x as nat, y as nat) == Some(cell_index(w, h, x, y)),
{
    assert forall|a: int| 0 <= a < x implies 0 <= #[trigger] cell_index(w, h, a, 0) < m.len() && lk(
        m,
        cell_index(w, h, a, 0),
        Direction::Right,
    ) == Some(cell_index(w, h, a + 1, 0)) by {
        assert(p1_ex(h, rm, cx, cy, a, 0));
        assert(p1_node_ok(m, w, h, rm, cx, cy, a, 0));
    }
    assert forall|b: int| 0 <= b < y implies 0 <= #[trigger] cell_index(w, h, x, b) < m.len() && lk(
        m,
        cell_index(w, h, x, b),
        Direction::Down,
    ) == Some(cell_index(w, h, x, b + 1)) by {
        assert(p1_ex(h, rm, cx, cy, x, b));
        assert(p1_node_ok(m, w, h, rm, cx, cy, x, b));
        assert(p1_ex(h, rm, cx, cy, x, b + 1));
    }
    lemma_walk_to_cell(m, w, h, x, y);
}

proof fn lemma_p2_walk(m: Seq<Node>, w: int, h: int, xp: int, yp: int, x: int, y: int)
    requires
        1 <= w,
        1 <= h,
        p2_state(m, w, h, xp, yp),
        0 <= x < w,
        0 <= y < h,
    ensures
        walk(m, x as nat, y as nat) == Some(cell_index(w, h, x, y)),
{
    assert forall|a: int| 0 <= a < x implies 0 <= #[trigger] cell_index(w, h, a, 0) < m.len() && lk(
        m,
        cell_index(w, h, a, 0),
        Direction::Right,
    ) == Some(cell_index(w, h, a + 1, 0)) by {
        assert(p2_node_ok(m, w, h, xp, yp, a, 0));
    }
    assert forall|b: int| 0 <= b < y implies 0 <= #[trigger] cell_index(w, h, x, b) < m.len() && lk(
        m,
        cell_index(w, h, x, b),
        Direction::Down,
    ) == Some(cell_index(w, h, x, b + 1)) by {
        assert(p2_node_ok(m, w, h, xp, yp, x, b));
    }
    lemma_walk_to_cell(m, w, h, x, y);
}

proof fn lemma_p1_add_right(
    m: Seq<Node>,
    m2: Seq<Node>,
    w: int,
    h: int,
    cx: int,
    c: Cursor,
    r: Cursor,
)
    requires
        1 <= w,
        1 <= h,
        0 <= cx < w - 1,
        p1_state(m, w, h, cx, cx, 0),
        c.index as int == cell_index(w, h, cx, 0),
        r.index as int == m.len(),
        m2 == m.update(
            c.index as int,
            m[c.index as int].with_nbr(Direction::Right, Some(r)),
        ).push(GNode::<Cursor>::spec_new(NodeType::Regular).with_nbr(Direction::Left, Some(c))),
    ensures
        p1_state(m2, w, h, cx + 1, cx, 0),
{
    assert(m.len() == cx + 1 + cx * (h - 1));
    assert(cell_index(w, h, cx + 1, 0) == 1 + cx * h);
    assert(cx + 1 + cx * (h - 1) == 1 + cx * h) by (nonlinear_arith);
    let ci = c.index as int;
    let ni = m.len() as int;
    assert(p1_ex(h, cx, cx, 0, cx, 0));
    assert(p1_node_ok(m, w, h, cx, cx, 0, cx, 0));
    assert(0 <= ci < m.len());
    assert(m2.len() == cx + 2 + cx * (h - 1));
    assert forall|a: int, b: int| p1_ex(h, cx + 1, cx, 0, a, b) implies #[trigger] p1_node_ok(
        m2,
        w,
        h,
        cx + 1,
        cx,
        0,
        a,
        b,
    ) by {
        if b == 0 && a == cx + 1 {
            // the fresh cell
            assert(m2[ni] == GNode::<Cursor>::spec_new(NodeType::Regular).with_nbr(
                Direction::Left,
                Some(c),
            ));
            assert(cell_index(w, h, a, b) == ni);
        } else {
            assert(p1_ex(h, cx, cx, 0, a, b));
            assert(p1_node_ok(m, w, h, cx, cx, 0, a, b));
            let i = cell_index(w, h, a, b);
            lemma_cell_index_bounds(w, h, a, b);
            if a == cx && b == 0 {
                assert(i == ci);
                assert(m2[i] == m[i].with_nbr(Direction::Right, Some(r)));
                assert(1 + cx * h == cx + 1 + cx * (h - 1)) by (nonlinear_arith);
                assert(cell_index(w, h, cx + 1, 0) == ni);
            } else {
                lemma_cell_index_injective(w, h, a, b, cx, 0);
                assert(m2[i] == m[i]);
            }
        }
    }
}

proof fn lemma_p1_add_down(
    m: Seq<Node>,
    m2: Seq<Node>,
    w: int,
    h: int,
    rm: int,
    cx: int,
    cy: int,
    c: Cursor,
    r: Cursor,
)
    requires
        1 <= w,
        1 <= h,
        0 <= cx < w,
        0 <= cy <= h - 2,
        rm == (if cx < w - 1 {
            cx + 1
        } else {
            cx
        }),
        p1_state(m, w, h, rm, cx, cy),
        c.index as int == cell_index(w, h, cx, cy),
        r.index as int == m.len(),
        m2 == m.update(
            c.index as int,
            m[c.index as int].with_nbr(Direction::Down, Some(r)),
        ).push(GNode::<Cursor>::spec_new(NodeType::Regular).with_nbr(Direction::Up, Some(c))),
    ensures
        p1_state(m2, w, h, rm, cx, cy + 1),
{
    let ci = c.index as int;
    let ni = m.len() as int;
    assert(m.len() == rm + 1 + cx * (h - 1) + cy);
    assert(p1_ex(h, rm, cx, cy, cx, cy));
    assert(p1_node_ok(m, w, h, rm, cx, cy, cx, cy));
    assert(0 <= ci < m.len());
    if cx < w - 1 {
        assert(cell_index(w, h, cx, cy + 1) == 1 + cx * h + 1 + cy);
        assert(rm + 1 + cx * (h - 1) + cy == 1 + cx * h + 1 + cy) by (nonlinear_arith)
            requires
                rm == cx + 1,
        ;
    } else {
        assert(cell_index(w, h, cx, cy + 1) == 1 + cx * h + cy);
        assert(rm + 1 + cx * (h - 1) + cy == 1 + cx * h + cy) by (nonlinear_arith)
            requires
                rm == cx,
        ;
    }
    assert(cell_index(w, h, cx, cy + 1) == ni);
    assert forall|a: int, b: int| p1_ex(h, rm, cx, cy + 1, a, b) implies #[trigger] p1_node_ok(
        m2,
        w,
        h,
        rm,
        cx,
        cy + 1,
        a,
        b,
    ) by {
        if a == cx && b == cy + 1 {
            // the fresh cell
            assert(m2[ni] == GNode::<Cursor>::spec_new(NodeType::Regular).with_nbr(
                Direction::Up,
                Some(c),
            ));
        } else {
            assert(p1_ex(h, rm, cx, cy, a, b));
            assert(p1_node_ok(m, w, h, rm, cx, cy, a, b));
            let i = cell_index(w, h, a, b);
            lemma_cell_index_bounds(w, h, a, b);
            if a == cx && b == cy {
                assert(i == ci);
                assert(m2[i] == m[i].with_nbr(Direction::Down, Some(r)));
            } else {
                lemma_cell_index_injective(w, h, a, b, cx, cy);
                assert(m2[i] == m[i]);
                if b < h - 1 {
                    // the down slot of an untouched cell answers for the same
                    // unchanged set of existing cells
                    assert(p1_ex(h, rm, cx, cy + 1, a, b + 1) == p1_ex(h, rm, cx, cy, a, b + 1));
                }
            }
        }
    }
}

proof fn lemma_p1_block_end(m: Seq<Node>, w: int, h: int, rm: int, cx: int)
    requires
        1 <= w,
        1 <= h,
        0 <= cx < w,
        p1_state(m, w, h, rm, cx, h - 1),
    ensures
        p1_state(m, w, h, rm, cx + 1, 0),
{
    assert(rm + 1 + cx * (h - 1) + (h - 1) == rm + 1 + (cx + 1) * (h - 1) + 0) by (nonlinear_arith);
    assert forall|a: int, b: int| p1_ex(h, rm, cx + 1, 0, a, b) implies #[trigger] p1_node_ok(
        m,
        w,
        h,
        rm,
        cx + 1,
        0,
        a,
        b,
    ) by {
        assert(p1_ex(h, rm, cx, h - 1, a, b));
        assert(p1_node_ok(m, w, h, rm, cx, h - 1, a, b));
        if b < h - 1 {
            assert(p1_ex(h, rm, cx + 1, 0, a, b + 1) == p1_ex(h, rm, cx, h - 1, a, b + 1));
        }
    }
}

proof fn lemma_p1_to_p2(m: Seq<Node>, w: int, h: int)
    requires
        1 <= w,
        1 <= h,
        p1_state(m, w, h, w - 1, w, 0),
    ensures
        p2_state(m, w, h, 0, 1),
{
    assert((w - 1) + 1 + w * (h - 1) + 0 == w * h) by (nonlinear_arith);
    assert forall|a: int, b: int| 0 <= a < w && 0 <= b < h implies #[trigger] p2_node_ok(
        m,
        w,
        h,
        0,
        1,
        a,
        b,
    ) by {
        assert(p1_ex(h, w - 1, w, 0, a, b));
        assert(p1_node_ok(m, w, h, w - 1, w, 0, a, b));
        if b < h - 1 {
            assert(p1_ex(h, w - 1, w, 0, a, b + 1));
        }
    }
}

proof fn lemma_p2_add_edge(
    m: Seq<Node>,
    m2: Seq<Node>,
    w: int,
    h: int,
    xp: int,
    yp: int,
    ca: Cursor,
    cb: Cursor,
)
    requires
        1 <= w,
        1 <= h,
        0 <= xp < w - 1,
        1 <= yp < h,
        p2_state(m, w, h, xp, yp),
        ca.index as int == cell_index(w, h, xp, yp),
        cb.index as int == cell_index(w, h, xp + 1, yp),
        m2 == m.update(
            ca.index as int,
            m[ca.index as int].with_nbr(Direction::Right, Some(cb)),
        ).update(
            cb.index as int,
            m.update(
                ca.index as int,
                m[ca.index as int].with_nbr(Direction::Right, Some(cb)),
            )[cb.index as int].with_nbr(Direction::Left, Some(ca)),
        ),
    ensures
        p2_state(m2, w, h, xp, yp + 1),
{
    let ia = ca.index as int;
    let ib = cb.index as int;
    assert(p2_node_ok(m, w, h, xp, yp, xp, yp));
    assert(p2_node_ok(m, w, h, xp, yp, xp + 1, yp));
    assert(0 <= ia < m.len());
    assert(0 <= ib < m.len());
    lemma_cell_index_injective(w, h, xp, yp, xp + 1, yp);
    assert forall|a: int, b: int| 0 <= a < w && 0 <= b < h implies #[trigger] p2_node_ok(
        m2,
        w,
        h,
        xp,
        yp + 1,
        a,
        b,
    ) by {
        assert(p2_node_ok(m, w, h, xp, yp, a, b));
        let i = cell_index(w, h, a, b);
        lemma_cell_index_bounds(w, h, a, b);
        if a == xp && b == yp {
            assert(i == ia);
            assert(m2[i] == m[i].with_nbr(Direction::Right, Some(cb)));
        } else if a == xp + 1 && b == yp {
            assert(i == ib);
            assert(m2[i] == m[i].with_nbr(Direction::Left, Some(ca)));
        } else {
            lemma_cell_index_injective(w, h, a, b, xp, yp);
            lemma_cell_index_injective(w, h, a, b, xp + 1, yp);
            assert(m2[i] == m[i]);
        }
    }
}

proof fn lemma_p2_row_end(m: Seq<Node>, w: int, h: int, xp: int)
    requires
        1 <= w,
        1 <= h,
        0 <= xp < w - 1,
        p2_state(m, w, h, xp, h),
    ensures
        p2_state(m, w, h, xp + 1, 1),
{
    assert forall|a: int, b: int| 0 <= a < w && 0 <= b < h implies #[trigger] p2_node_ok(
        m,
        w,
        h,
        xp + 1,
        1,
        a,
        b,
    ) by {
        assert(p2_node_ok(m, w, h, xp, h, a, b));
    }
}

/// Builds a fully connected `side_length_x` by `side_length_y` plane: all
/// grid links wired both ways, every wall standing, nothing visited, the
/// root marked `Start` and the bottom-right corner marked `End`.
pub fn make_plane(side_length_x: usize, side_length_y: usize) -> (r: Maze)
    requires
        1 <= side_length_x,
        1 <= side_length_y,
    ensures
        is_grid(r@, side_length_x as int, side_length_y as int),
        grid_types(r@, side_length_x as int, side_length_y as int),
        forall|i: int|
            0 <= i < r@.len() ==> (#[trigger] r@[i]).cell_data.all_walls() && !r@[i].visited(),
{
    let ghost gw = side_length_x as int;
    let ghost gh = side_length_y as int;
    let mut maze = Maze::new();
    proof {
        assert forall|a: int, b: int| p1_ex(gh, 0, 0, 0, a, b) implies #[trigger] p1_node_ok(
            maze@,
            gw,
            gh,
            0,
            0,
            0,
            a,
            b,
        ) by {
            assert(a == 0 && b == 0);
        }
        assert(p1_state(maze@, gw, gh, 0, 0, 0));
    }
    let mut cursor: Cursor;
    for x in 0..side_length_x
        invariant
            1 <= side_length_x,
            1 <= side_length_y,
            gw == side_length_x as int,
            gh == side_length_y as int,
            p1_state(
                maze@,
                gw,
                gh,
                if (x as int) < gw {
                    x as int
                } else {
                    gw - 1
                },
                x as int,
                0,
            ),
    {
        proof {
            lemma_p1_walk(maze@, gw, gh, x as int, x as int, 0, x as int, 0);
        }
        cursor = maze.by_coords(x, 0);
        proof {
            assert(p1_ex(gh, x as int, x as int, 0, x as int, 0));
            assert(p1_node_ok(maze@, gw, gh, x as int, x as int, 0, x as int, 0));
        }
        if x < side_length_x - 1 {
            let ghost m0 = maze@;
            let added = maze.add(cursor, Direction::Right, NodeType::Regular);
            proof {
                lemma_p1_add_right(m0, maze@, gw, gh, x as int, cursor, added);
            }
        }
        let ghost rm2: int = if (x as int) < gw - 1 {
            x as int + 1
        } else {
            x as int
        };
        for y in 0..side_length_y - 1
            invariant
                1 <= side_length_x,
                1 <= side_length_y,
                gw == side_length_x as int,
                gh == side_length_y as int,
                x < side_length_x,
                rm2 == (if (x as int) < gw - 1 {
                    x as int + 1
                } else {
                    x as int
                }),
                p1_state(maze@, gw, gh, rm2, x as int, y as int),
        {
            proof {
                lemma_p1_walk(maze@, gw, gh, rm2, x as int, y as int, x as int, y as int);
            }
            cursor = maze.by_coords(x, y);
            proof {
                assert(p1_ex(gh, rm2, x as int, y as int, x as int, y as int));
                assert(p1_node_ok(maze@, gw, gh, rm2, x as int, y as int, x as int, y as int));
            }
            let ghost m0 = maze@;
            let added = maze.add(cursor, Direction::Down, NodeType::Regular);
            proof {
                lemma_p1_add_down(
                    m0,
                    maze@,
                    gw,
                    gh,
                    rm2,
                    x as int,
                    y as int,
                    cursor,
                    added,
                );
            }
        }
        proof {
            lemma_p1_block_end(maze@, gw, gh, rm2, x as int);
        }
    }
    proof {
        lemma_p1_to_p2(maze@, gw, gh);
    }
    for x in 0..side_length_x - 1
        invariant
            1 <= side_length_x,
            1 <= side_length_y,
            gw == side_length_x as int,
            gh == side_length_y as int,
            p2_state(maze@, gw, gh, x as int, 1),
    {
        for y in 1..side_length_y
            invariant
                1 <= side_length_x,
                1 <= side_length_y,
                gw == side_length_x as int,
                gh == side_length_y as int,
                x < side_length_x - 1,
                1 <= y,
                p2_state(maze@, gw, gh, x as int, y as int),
        {
            proof {
                lemma_p2_walk(maze@, gw, gh, x as int, y as int, x as int, y as int);
                lemma_p2_walk(maze@, gw, gh, x as int, y as int, x as int + 1, y as int);
                lemma_cell_index_bounds(gw, gh, x as int, y as int);
                lemma_cell_index_bounds(gw, gh, x as int + 1, y as int);
            }
            proof {
                assert(p2_node_ok(maze@, gw, gh, x as int, y as int, x as int, y as int));
                assert(p2_node_ok(maze@, gw, gh, x as int, y as int, x as int + 1, y as int));
            }
            let cursor_a = maze.by_coords(x, y);
            let cursor_b = maze.by_coords(x + 1, y);
            let ghost m0 = maze@;
            maze.add_edge(cursor_a, cursor_b, Direction::Right);
            proof {
                lemma_p2_add_edge(m0, maze@, gw, gh, x as int, y as int, cursor_a, cursor_b);
            }
        }
        proof {
            lemma_p2_row_end(maze@, gw, gh, x as int);
        }
    }
    proof {
        lemma_p2_walk(maze@, gw, gh, gw - 1, 1, gw - 1, gh - 1);
        assert(p2_node_ok(maze@, gw, gh, gw - 1, 1, gw - 1, gh - 1));
    }
    let cursor = maze.by_coords(side_length_x - 1, side_length_y - 1);
    let ghost m1 = maze@;
    maze.set_type_at(cursor, NodeType::End);
    proof {
        let m2 = maze@;
        let ei = cell_index(gw, gh, gw - 1, gh - 1);
        assert(p2_node_ok(m1, gw, gh, gw - 1, 1, gw - 1, gh - 1));
        assert(0 <= ei < m1.len());
        assert forall|x: int, y: int| 0 <= x < gw && 0 <= y < gh implies #[trigger] grid_cell_ok(
            m2,
            gw,
            gh,
            x,
            y,
        ) by {
            assert(p2_node_ok(m1, gw, gh, gw - 1, 1, x, y));
            let i = cell_index(gw, gh, x, y);
            if x == gw - 1 && y == gh - 1 {
                assert(m2[i] == m1[i].with_type(NodeType::End));
            } else {
                lemma_cell_index_injective(gw, gh, x, y, gw - 1, gh - 1);
                assert(m2[i] == m1[i]);
            }
            assert(lk(m2, i, Direction::Up) == lk(m1, i, Direction::Up));
            assert(lk(m2, i, Direction::Down) == lk(m1, i, Direction::Down));
            assert(lk(m2, i, Direction::Left) == lk(m1, i, Direction::Left));
            assert(lk(m2, i, Direction::Right) == lk(m1, i, Direction::Right));
        }
        assert(is_grid(m2, gw, gh));
        assert forall|x: int, y: int| 0 <= x < gw && 0 <= y < gh implies (#[trigger] m2[cell_index(
            gw,
            gh,
            x,
            y,
        )].n_type) == (if x == gw - 1 && y == gh - 1 {
            NodeType::End
        } else if x == 0 && y == 0 {
            NodeType::Start
        } else {
            NodeType::Regular
        }) by {
            assert(p2_node_ok(m1, gw, gh, gw - 1, 1, x, y));
            let i = cell_index(gw, gh, x, y);
            if x == gw - 1 && y == gh - 1 {
                assert(m2[i] == m1[i].with_type(NodeType::End));
            } else {
                lemma_cell_index_injective(gw, gh, x, y, gw - 1, gh - 1);
                assert(m2[i] == m1[i]);
            }
        }
        assert(grid_types(m2, gw, gh));
        assert forall|i: int| 0 <= i < m2.len() implies (#[trigger] m2[i]).cell_data.all_walls()
            && !m2[i].visited() by {
            lemma_cell_index_surjective(gw, gh, i);
            let (x, y): (int, int) = choose|x: int, y: int|
                0 <= x < gw && 0 <= y < gh && i == #[trigger] cell_index(gw, gh, x, y);
            assert(p2_node_ok(m1, gw, gh, gw - 1, 1, x, y));
            if x == gw - 1 && y == gh - 1 {
                assert(m2[i] == m1[i].with_type(NodeType::End));
            } else {
                lemma_cell_index_injective(gw, gh, x, y, gw - 1, gh - 1);
                assert(m2[i] == m1[i]);
            }
        }
    }
    maze
}

/// How many of this node's down and right walls have been removed.  Summed
/// over the arena this counts each carved wall-pair of a plane exactly once,
/// since wall removal keeps shared edges in step and boundary walls stand.
pub open spec fn open_dr(n: Node) -> int {
    (if !n.wall(Direction::Down) {
        1int
    } else {
        0int
    }) + (if !n.wall(Direction::Right) {
        1int
    } else {
        0int
    })
}

/// The number of wall-pairs removed from a plane.
pub open spec fn removed_total(m: Seq<Node>) -> int
    decreases m.len(),
{
    if m.len() == 0 {
        0
    } else {
        removed_total(m.drop_last()) + open_dr(m.last())
    }
}

/// The number of cells not yet visited.
pub open spec fn unvisited_count(m: Seq<Node>) -> int
    decreases m.len(),
{
    if m.len() == 0 {
        0
    } else {
        unvisited_count(m.drop_last()) + (if !m.last().visited() {
            1int
        } else {
            0int
        })
    }
}

proof fn lemma_removed_update(m: Seq<Node>, i: int, n: Node)
    requires
        0 <= i < m.len(),
    ensures
        removed_total(m.update(i, n)) == removed_total(m) - open_dr(m[i]) + open_dr(n),
    decreases m.len(),
{
    let m2 = m.update(i, n);
    if i == m.len() - 1 {
        assert(m2.drop_last() =~= m.drop_last());
        assert(m2.last() == n);
    } else {
        assert(m2.drop_last() =~= m.drop_last().update(i, n));
        assert(m2.last() == m.last());
        lemma_removed_update(m.drop_last(), i, n);
    }
}

proof fn lemma_unvisited_update(m: Seq<Node>, i: int, n: Node)
    requires
        0 <= i < m.len(),
    ensures
        unvisited_count(m.update(i, n)) == unvisited_count(m) - (if !m[i].visited() {
            1int
        } else {
            0int
        }) + (if !n.visited() {
            1int
        } else {
            0int
        }),
    decreases m.len(),
{
    let m2 = m.update(i, n);
    if i == m.len() - 1 {
        assert(m2.drop_last() =~= m.drop_last());
        assert(m2.last() == n);
    } else {
        assert(m2.drop_last() =~= m.drop_last().update(i, n));
        assert(m2.last() == m.last());
        lemma_unvisited_update(m.drop_last(), i, n);
    }
}

proof fn lemma_unvisited_zero(m: Seq<Node>)
    ensures
        0 <= unvisited_count(m) <= m.len(),
        (unvisited_count(m) == 0) <==> (forall|i: int|
            0 <= i < m.len() ==> (#[trigger] m[i]).visited()),
    decreases m.len(),
{
    if m.len() > 0 {
        lemma_unvisited_zero(m.drop_last());
        assert(forall|i: int| 0 <= i < m.len() - 1 ==> m.drop_last()[i] == m[i]);
        if unvisited_count(m) == 0 {
            assert forall|i: int| 0 <= i < m.len() implies (#[trigger] m[i]).visited() by {
                if i < m.len() - 1 {
                    assert(m.drop_last()[i] == m[i]);
                } else {
                    assert(m.last() == m[i]);
                }
            }
        }
        if forall|i: int| 0 <= i < m.len() ==> (#[trigger] m[i]).visited() {
            assert(m.last().visited());
        }
    }
}

proof fn lemma_fresh_counts(m: Seq<Node>)
    requires
        forall|i: int|
            0 <= i < m.len() ==> (#[trigger] m[i]).cell_data.all_walls() && !m[i].visited(),
    ensures
        removed_total(m) == 0,
        unvisited_count(m) == m.len(),
    decreases m.len(),
{
    if m.len() > 0 {
        assert(forall|i: int| 0 <= i < m.len() - 1 ==> m.drop_last()[i] == m[i]);
        lemma_fresh_counts(m.drop_last());
        assert(m.last() == m[m.len() - 1]);
    }
}

/// The node a query across direction `d` sees: the neighbor when the edge
/// exists, otherwise a stand-in already-visited cell, so that the grid
/// boundary is never offered as a carving candidate.
pub open spec fn neighbor_view(m: Seq<Node>, i: int, d: Direction) -> Node {
    match lk(m, i, d) {
        Some(j) => m[j],
        None => GNode::<Cursor>::spec_new(NodeType::Regular).with_visited(),
    }
}

/// All neighbor handles of node `i` lie inside the arena.
pub open spec fn links_ok(m: Seq<Node>, i: int) -> bool {
    forall|d: Direction|
        match #[trigger] lk(m, i, d) {
            Some(j) => 0 <= j < m.len(),
            None => true,
        }
}

/// Direction `d` is no carving candidate at node `i`: either the neighbor is
/// already visited or there is no neighbor there at all.
pub open spec fn dir_blocked(m: Seq<Node>, i: int, d: Direction) -> bool {
    match lk(m, i, d) {
        Some(j) => m[j].visited(),
        None => true,
    }
}

/// The blocked directions at node `i`, in the fixed order up, down, left,
/// right.
pub open spec fn blocked_dirs(m: Seq<Node>, i: int) -> Seq<Direction> {
    (if dir_blocked(m, i, Direction::Up) {
        seq![Direction::Up]
    } else {
        Seq::<Direction>::empty()
    }) + (if dir_blocked(m, i, Direction::Down) {
        seq![Direction::Down]
    } else {
        Seq::<Direction>::empty()
    }) + (if dir_blocked(m, i, Direction::Left) {
        seq![Direction::Left]
    } else {
        Seq::<Direction>::empty()
    }) + (if dir_blocked(m, i, Direction::Right) {
        seq![Direction::Right]
    } else {
        Seq::<Direction>::empty()
    })
}

proof fn lemma_blocked_dirs(m: Seq<Node>, i: int)
    ensures
        blocked_dirs(m, i).len() <= 4,
        blocked_dirs(m, i).len() == 4 ==> (forall|d: Direction| dir_blocked(m, i, d)),
        forall|d: Direction| #[trigger] dir_blocked(m, i, d) ==> blocked_dirs(m, i).contains(d),
        forall|d: Direction| blocked_dirs(m, i).contains(d) ==> #[trigger] dir_blocked(m, i, d),
{
    let s = blocked_dirs(m, i);
    let l0: int = if dir_blocked(m, i, Direction::Up) {
        1
    } else {
        0
    };
    let l1: int = if dir_blocked(m, i, Direction::Down) {
        1
    } else {
        0
    };
    let l2: int = if dir_blocked(m, i, Direction::Left) {
        1
    } else {
        0
    };
    let l3: int = if dir_blocked(m, i, Direction::Right) {
        1
    } else {
        0
    };
    assert(s.len() == l0 + l1 + l2 + l3);
    assert(blocked_dirs(m, i).len() == 4 ==> (forall|d: Direction| dir_blocked(m, i, d))) by {
        if s.len() == 4 {
            assert forall|d: Direction| dir_blocked(m, i, d) by {
                match d {
                    Direction::Up => assert(l0 == 1),
                    Direction::Down => assert(l1 == 1),
                    Direction::Left => assert(l2 == 1),
                    Direction::Right => assert(l3 == 1),
                }
            }
        }
    }
    assert forall|d: Direction| #[trigger] dir_blocked(m, i, d) implies s.contains(d) by {
        match d {
            Direction::Up => {
                assert(s[0] == Direction::Up);
            },
            Direction::Down => {
                assert(s[l0] == Direction::Down);
            },
            Direction::Left => {
                assert(s[l0 + l1] == Direction::Left);
            },
            Direction::Right => {
                assert(s[l0 + l1 + l2] == Direction::Right);
            },
        }
    }
    assert forall|d: Direction| s.contains(d) implies #[trigger] dir_blocked(m, i, d) by {
        let k = choose|k: int| 0 <= k < s.len() && s[k] == d;
        if k < l0 {
            assert(s[k] == Direction::Up && l0 == 1);
        } else if k < l0 + l1 {
            assert(s[k] == Direction::Down && l1 == 1);
        } else if k < l0 + l1 + l2 {
            assert(s[k] == Direction::Left && l2 == 1);
        } else {
            assert(s[k] == Direction::Right && l3 == 1);
        }
    }
}

/// Neighbor handles of a plane stay inside the arena and never point back at
/// their own cell.
pub proof fn lemma_grid_links_ok(m: Seq<Node>, w: int, h: int, i: int)
    requires
        is_grid(m, w, h),
        0 <= i < m.len(),
    ensures
        links_ok(m, i),
        forall|d: Direction|
            match #[trigger] lk(m, i, d) {
                Some(j) => 0 <= j < m.len() && j != i,
                None => true,
            },
{
    lemma_cell_index_surjective(w, h, i);
    let (x, y): (int, int) = choose|x: int, y: int|
        0 <= x < w && 0 <= y < h && i == #[trigger] cell_index(w, h, x, y);
    assert(grid_cell_ok(m, w, h, x, y));
    assert forall|d: Direction|
        match #[trigger] lk(m, i, d) {
            Some(j) => 0 <= j < m.len() && j != i,
            None => true,
        } by {
        match d {
            Direction::Up => {
                if y > 0 {
                    lemma_cell_index_bounds(w, h, x, y - 1);
                    lemma_cell_index_injective(w, h, x, y, x, y - 1);
                }
            },
            Direction::Down => {
                if y < h - 1 {
                    lemma_cell_index_bounds(w, h, x, y + 1);
                    lemma_cell_index_injective(w, h, x, y, x, y + 1);
                }
            },
            Direction::Left => {
                if x > 0 {
                    lemma_cell_index_bounds(w, h, x - 1, y);
                    lemma_cell_index_injective(w, h, x, y, x - 1, y);
                }
            },
            Direction::Right => {
                if x < w - 1 {
                    lemma_cell_index_bounds(w, h, x + 1, y);
                    lemma_cell_index_injective(w, h, x, y, x + 1, y);
                }
            },
        }
    }
}

/// A square plane of the given side length.
pub fn make_square_plane(side_length: usize) -> (r: Maze)
    requires
        1 <= side_length,
    ensures
        is_grid(r@, side_length as int, side_length as int),
        grid_types(r@, side_length as int, side_length as int),
        forall|i: int|
            0 <= i < r@.len() ==> (#[trigger] r@[i]).cell_data.all_walls() && !r@[i].visited(),
{
    make_plane(side_length, side_length)
}

impl Maze {
    /// The cell seen across direction `dir` from `cursor`: the neighbor when
    /// the edge exists, else a stand-in cell that is already visited.
    fn neighbor_cell(&self, cursor: Cursor, dir: Direction) -> (n: Node)
        requires
            cursor.index < self@.len(),
            links_ok(self@, cursor.index as int),
        ensures
            n == neighbor_view(self@, cursor.index as int, dir),
    {
        match self.at(cursor).get_neighbor_option(dir) {
            Some(cur_b) => *self.get(cur_b),
            None => {
                let mut new_node = Node::new(NodeType::Regular);
                new_node.visit();
                new_node
            },
        }
    }

    /// A throwaway four-cell graph holding what `cursor` sees in each of the
    /// four directions, in the order up, down, left, right; a missing
    /// neighbor is reported as an already-visited stand-in cell.
    pub fn get_neighbors(&self, cursor: Cursor) -> (r: Maze)
        requires
            cursor.index < self@.len(),
            links_ok(self@, cursor.index as int),
        ensures
            r@.len() == 4,
            r@[0] == neighbor_view(self@, cursor.index as int, Direction::Up),
            r@[1] == neighbor_view(self@, cursor.index as int, Direction::Down),
            r@[2] == neighbor_view(self@, cursor.index as int, Direction::Left),
            r@[3] == neighbor_view(self@, cursor.index as int, Direction::Right),
    {
        let mut ret_maze = Maze::empty();
        ret_maze.nodes.push(self.neighbor_cell(cursor, Direction::Up));
        ret_maze.nodes.push(self.neighbor_cell(cursor, Direction::Down));
        ret_maze.nodes.push(self.neighbor_cell(cursor, Direction::Left));
        ret_maze.nodes.push(self.neighbor_cell(cursor, Direction::Right));
        ret_maze
    }

    /// The directions around `cursor` that carving must not take: the
    /// neighbor there is already visited, or the edge leaves the grid.
    pub fn visited_directions(&self, cursor: Cursor) -> (r: Vec<Direction>)
        requires
            cursor.index < self@.len(),
            links_ok(self@, cursor.index as int),
        ensures
            r@ == blocked_dirs(self@, cursor.index as int),
    {
        let temp = self.get_neighbors(cursor).get_visiteds();
        let mut ret_vec: Vec<Direction> = vec![];
        if temp[0] {
            ret_vec.push(Direction::Up);
        }
        if temp[1] {
            ret_vec.push(Direction::Down);
        }
        if temp[2] {
            ret_vec.push(Direction::Left);
        }
        if temp[3] {
            ret_vec.push(Direction::Right);
        }
        proof {
            assert(ret_vec@ =~= blocked_dirs(self@, cursor.index as int));
        }
        ret_vec
    }

    /// Whether any cell is still unvisited, read off the visited flags as a
    /// renderer would.
    fn some_unvisited(&self) -> (r: bool)
        ensures
            r == exists|i: int| 0 <= i < self@.len() && !(#[trigger] self@[i]).visited(),
    {
        let v = self.get_visiteds();
        for k in 0..v.len()
            invariant
                v@.len() == self@.len(),
                forall|i: int| 0 <= i < self@.len() ==> v@[i] == (#[trigger] self@[i]).visited(),
                forall|i: int| 0 <= i < k ==> (#[trigger] self@[i]).visited(),
        {
            if !v[k] {
                proof {
                    assert(!self@[k as int].visited());
                }
                return true;
            }
        }
        false
    }
}

/// A carving step removes both wall flags of one intact edge between a
/// visited cell and an unvisited one: exactly one wall-pair goes, every
/// link, role and visited flag stays, and walls stay in step across edges.
#[verifier::rlimit(100)]
#[verifier::spinoff_prover]
proof fn lemma_carve_step(
    m: Seq<Node>,
    m2: Seq<Node>,
    w: int,
    h: int,
    ca: Cursor,
    cb: Cursor,
    d: Direction,
)
    requires
        is_grid(m, w, h),
        grid_types(m, w, h),
        grid_walls_sym(m, w, h),
        ca.index < m.len(),
        lk(m, ca.index as int, d) == Some(cb.index as int),
        !m[cb.index as int].visited(),
        m[cb.index as int].cell_data.all_walls(),
        m2 == m.update(ca.index as int, m[ca.index as int].without_wall(d)).update(
            cb.index as int,
            m.update(
                ca.index as int,
                m[ca.index as int].without_wall(d),
            )[cb.index as int].without_wall(d.rev()),
        ),
    ensures
        m2.len() == m.len(),
        removed_total(m2) == removed_total(m) + 1,
        unvisited_count(m2) == unvisited_count(m),
        is_grid(m2, w, h),
        grid_types(m2, w, h),
        grid_walls_sym(m2, w, h),
        forall|i: int| 0 <= i < m.len() ==> (#[trigger] m2[i]).visited() == m[i].visited(),
        forall|i: int, dd: Direction| 0 <= i < m.len() ==> #[trigger] lk(m2, i, dd) == lk(m, i, dd),
        forall|i: int|
            0 <= i < m.len() && i != ca.index && i != cb.index ==> (#[trigger] m2[i]) == m[i],
{
    let ia = ca.index as int;
    let ib = cb.index as int;
    lemma_grid_links_ok(m, w, h, ia);
    assert(0 <= ib < m.len() && ib != ia);
    lemma_cell_index_surjective(w, h, ia);
    let (x, y): (int, int) = choose|x: int, y: int|
        0 <= x < w && 0 <= y < h && ia == #[trigger] cell_index(w, h, x, y);
    assert(grid_cell_ok(m, w, h, x, y));
    assert(wall_sym_at(m, w, h, x, y));
    let ma = m.update(ia, m[ia].without_wall(d));
    assert(ma[ib] == m[ib]);
    lemma_removed_update(m, ia, m[ia].without_wall(d));
    lemma_removed_update(ma, ib, m[ib].without_wall(d.rev()));
    lemma_unvisited_update(m, ia, m[ia].without_wall(d));
    lemma_unvisited_update(ma, ib, m[ib].without_wall(d.rev()));
    // the removed pair is counted once, at whichever end holds its down or
    // right flag; wall symmetry shows that flag stood before the step
    match d {
        Direction::Up => {
            assert(y > 0 && ib == cell_index(w, h, x, y - 1));
            assert(open_dr(ma[ia]) == open_dr(m[ia]));
            assert(open_dr(m[ib].without_wall(Direction::Down)) == open_dr(m[ib]) + 1);
        },
        Direction::Down => {
            assert(y < h - 1 && ib == cell_index(w, h, x, y + 1));
            assert(m[ia].wall(Direction::Down) == m[ib].wall(Direction::Up));
            assert(open_dr(ma[ia]) == open_dr(m[ia]) + 1);
            assert(open_dr(m[ib].without_wall(Direction::Up)) == open_dr(m[ib]));
        },
        Direction::Left => {
            assert(x > 0 && ib == cell_index(w, h, x - 1, y));
            assert(open_dr(ma[ia]) == open_dr(m[ia]));
            assert(open_dr(m[ib].without_wall(Direction::Right)) == open_dr(m[ib]) + 1);
        },
        Direction::Right => {
            assert(x < w - 1 && ib == cell_index(w, h, x + 1, y));
            assert(m[ia].wall(Direction::Right) == m[ib].wall(Direction::Left));
            assert(open_dr(ma[ia]) == open_dr(m[ia]) + 1);
            assert(open_dr(m[ib].without_wall(Direction::Left)) == open_dr(m[ib]));
        },
    }
    let (nx, ny): (int, int) = match d {
        Direction::Up => (x, y - 1),
        Direction::Down => (x, y + 1),
        Direction::Left => (x - 1, y),
        Direction::Right => (x + 1, y),
    };
    lemma_cell_index_injective(w, h, x, y, nx, ny);
    assert(ib == cell_index(w, h, nx, ny));
    // every wall flag other than the two cleared ones keeps its value
    assert forall|j: int, dd: Direction| 0 <= j < m.len() implies #[trigger] m2[j].wall(dd) == (if (
    j == ia && dd == d) || (j == ib && dd == d.rev()) {
        false
    } else {
        m[j].wall(dd)
    }) by {
        if j == ia {
            assert(m2[j] == m[j].without_wall(d));
        } else if j == ib {
            assert(m2[j] == m[j].without_wall(d.rev()));
        } else {
            assert(m2[j] == m[j]);
        }
    }
    assert forall|x2: int, y2: int| 0 <= x2 < w && 0 <= y2 < h implies #[trigger] grid_cell_ok(
        m2,
        w,
        h,
        x2,
        y2,
    ) by {
        assert(grid_cell_ok(m, w, h, x2, y2));
        let i2 = cell_index(w, h, x2, y2);
        assert(m2[i2].up == m[i2].up && m2[i2].down == m[i2].down && m2[i2].left == m[i2].left
            && m2[i2].right == m[i2].right);
    }
    assert forall|x2: int, y2: int| 0 <= x2 < w && 0 <= y2 < h implies (#[trigger] m2[cell_index(
        w,
        h,
        x2,
        y2,
    )].n_type) == m[cell_index(w, h, x2, y2)].n_type by {
        assert(grid_cell_ok(m, w, h, x2, y2));
    }
    assert(grid_types(m2, w, h));
    lemma_carve_sym(m, m2, w, h, x, y, nx, ny, d);
}

/// Clearing the two wall flags of one shared edge keeps wall flags in step
/// across every edge of the plane.
#[verifier::rlimit(100)]
#[verifier::spinoff_prover]
proof fn lemma_carve_sym(
    m: Seq<Node>,
    m2: Seq<Node>,
    w: int,
    h: int,
    x: int,
    y: int,
    nx: int,
    ny: int,
    d: Direction,
)
    requires
        1 <= w,
        1 <= h,
        0 <= x < w,
        0 <= y < h,
        0 <= nx < w,
        0 <= ny < h,
        match d {
            Direction::Up => nx == x && ny == y - 1,
            Direction::Down => nx == x && ny == y + 1,
            Direction::Left => nx == x - 1 && ny == y,
            Direction::Right => nx == x + 1 && ny == y,
        },
        grid_walls_sym(m, w, h),
        m.len() == w * h,
        m2.len() == m.len(),
        forall|j: int, dd: Direction|
            0 <= j < m.len() ==> #[trigger] m2[j].wall(dd) == (if (j == cell_index(w, h, x, y) && dd
                == d) || (j == cell_index(w, h, nx, ny) && dd == d.rev()) {
                false
            } else {
                m[j].wall(dd)
            }),
    ensures
        grid_walls_sym(m2, w, h),
{
    lemma_cell_index_bounds(w, h, x, y);
    lemma_cell_index_bounds(w, h, nx, ny);
    assert forall|x2: int, y2: int| 0 <= x2 < w && 0 <= y2 < h implies #[trigger] wall_sym_at(
        m2,
        w,
        h,
        x2,
        y2,
    ) by {
        assert(wall_sym_at(m, w, h, x2, y2));
        lemma_cell_index_bounds(w, h, x2, y2);
        if (x2, y2) != (x, y) {
            lemma_cell_index_injective(w, h, x2, y2, x, y);
        }
        if (x2, y2) != (nx, ny) {
            lemma_cell_index_injective(w, h, x2, y2, nx, ny);
        }
        if x2 < w - 1 {
            assert(wall_sym_at(m, w, h, x2 + 1, y2));
            lemma_cell_index_bounds(w, h, x2 + 1, y2);
            if (x2 + 1, y2) != (x, y) {
                lemma_cell_index_injective(w, h, x2 + 1, y2, x, y);
            }
            if (x2 + 1, y2) != (nx, ny) {
                lemma_cell_index_injective(w, h, x2 + 1, y2, nx, ny);
            }
        }
        if y2 < h - 1 {
            assert(wall_sym_at(m, w, h, x2, y2 + 1));
            lemma_cell_index_bounds(w, h, x2, y2 + 1);
            if (x2, y2 + 1) != (x, y) {
                lemma_cell_index_injective(w, h, x2, y2 + 1, x, y);
            }
            if (x2, y2 + 1) != (nx, ny) {
                lemma_cell_index_injective(w, h, x2, y2 + 1, nx, ny);
            }
        }
    }
}

/// In a plane where every visited cell has only visited neighbors and the
/// root is visited, every cell is visited: the grid is connected.
proof fn lemma_closed_all_visited(m: Seq<Node>, w: int, h: int)
    requires
        is_grid(m, w, h),
        m[0].visited(),
        forall|i: int|
            0 <= i < m.len() && (#[trigger] m[i]).visited() ==> (forall|d: Direction|
                match #[trigger] lk(m, i, d) {
                    Some(j) => m[j].visited(),
                    None => true,
                }),
    ensures
        forall|i: int| 0 <= i < m.len() ==> (#[trigger] m[i]).visited(),
{
    assert forall|i: int| 0 <= i < m.len() implies (#[trigger] m[i]).visited() by {
        lemma_cell_index_surjective(w, h, i);
        let (x, y): (int, int) = choose|x: int, y: int|
            0 <= x < w && 0 <= y < h && i == #[trigger] cell_index(w, h, x, y);
        lemma_cell_visited(m, w, h, x, y);
    }
}

proof fn lemma_cell_visited(m: Seq<Node>, w: int, h: int, x: int, y: int)
    requires
        is_grid(m, w, h),
        m[0].visited(),
        forall|i: int|
            0 <= i < m.len() && (#[trigger] m[i]).visited() ==> (forall|d: Direction|
                match #[trigger] lk(m, i, d) {
                    Some(j) => m[j].visited(),
                    None => true,
                }),
        0 <= x < w,
        0 <= y < h,
    ensures
        m[cell_index(w, h, x, y)].visited(),
    decreases x + y,
{
    if x == 0 && y == 0 {
        assert(cell_index(w, h, 0, 0) == 0);
    } else if x > 0 {
        lemma_cell_visited(m, w, h, x - 1, y);
        assert(grid_cell_ok(m, w, h, x - 1, y));
        let j = cell_index(w, h, x - 1, y);
        assert(lk(m, j, Direction::Right) == Some(cell_index(w, h, x, y)));
    } else {
        lemma_cell_visited(m, w, h, x, y - 1);
        assert(grid_cell_ok(m, w, h, x, y - 1));
        let j = cell_index(w, h, x, y - 1);
        assert(lk(m, j, Direction::Down) == Some(cell_index(w, h, x, y)));
    }
}

/// Whether any stack entry refers to arena index `i`.
pub open spec fn in_stack(st: Seq<Cursor>, i: int) -> bool {
    exists|k: int| 0 <= k < st.len() && (#[trigger] st[k]).index == i
}

/// Marking one cell visited keeps the whole structure: links, roles and
/// walls, and lowers the unvisited count exactly when the cell was new.
proof fn lemma_visit_preserves(m: Seq<Node>, m2: Seq<Node>, w: int, h: int, ic: int)
    requires
        is_grid(m, w, h),
        grid_types(m, w, h),
        grid_walls_sym(m, w, h),
        0 <= ic < m.len(),
        m2 == m.update(ic, m[ic].with_visited()),
    ensures
        m2.len() == m.len(),
        is_grid(m2, w, h),
        grid_types(m2, w, h),
        grid_walls_sym(m2, w, h),
        removed_total(m2) == removed_total(m),
        unvisited_count(m2) == unvisited_count(m) - (if !m[ic].visited() {
            1int
        } else {
            0int
        }),
        m2[ic].visited(),
        forall|i: int| 0 <= i < m.len() && i != ic ==> (#[trigger] m2[i]) == m[i],
        forall|i: int|
            0 <= i < m.len() ==> ((#[trigger] m2[i]).visited() == (m[i].visited() || i == ic)),
        forall|i: int, dd: Direction| 0 <= i < m.len() ==> #[trigger] lk(m2, i, dd) == lk(m, i, dd),
{
    lemma_removed_update(m, ic, m[ic].with_visited());
    lemma_unvisited_update(m, ic, m[ic].with_visited());
    assert forall|x2: int, y2: int| 0 <= x2 < w && 0 <= y2 < h implies #[trigger] grid_cell_ok(
        m2,
        w,
        h,
        x2,
        y2,
    ) by {
        assert(grid_cell_ok(m, w, h, x2, y2));
    }
    assert forall|x2: int, y2: int| 0 <= x2 < w && 0 <= y2 < h implies (#[trigger] m2[cell_index(
        w,
        h,
        x2,
        y2,
    )].n_type) == m[cell_index(w, h, x2, y2)].n_type by {
        assert(grid_cell_ok(m, w, h, x2, y2));
    }
    assert(grid_types(m2, w, h));
    assert forall|x2: int, y2: int| 0 <= x2 < w && 0 <= y2 < h implies #[trigger] wall_sym_at(
        m2,
        w,
        h,
        x2,
        y2,
    ) by {
        assert(grid_cell_ok(m, w, h, x2, y2));
        assert(wall_sym_at(m, w, h, x2, y2));
        if x2 < w - 1 {
            assert(grid_cell_ok(m, w, h, x2 + 1, y2));
        }
        if y2 < h - 1 {
            assert(grid_cell_ok(m, w, h, x2, y2 + 1));
        }
    }
}

/// Every link of a fully built plane is mirrored: the cell on the far side
/// links straight back, and the two wall flags on the shared edge agree.
pub proof fn lemma_linked_pairs_symmetric(m: Seq<Node>, w: int, h: int, i: int, d: Direction)
    requires
        is_grid(m, w, h),
        grid_walls_sym(m, w, h),
        0 <= i < m.len(),
        lk(m, i, d) is Some,
    ensures
        match lk(m, i, d) {
            Some(j) => 0 <= j < m.len() && lk(m, j, d.rev()) == Some(i) && m[i].wall(d)
                == m[j].wall(d.rev()),
            None => false,
        },
{
    lemma_cell_index_surjective(w, h, i);
    let (x, y): (int, int) = choose|x: int, y: int|
        0 <= x < w && 0 <= y < h && i == #[trigger] cell_index(w, h, x, y);
    assert(grid_cell_ok(m, w, h, x, y));
    match d {
        Direction::Up => {
            assert(y > 0);
            assert(grid_cell_ok(m, w, h, x, y - 1));
            assert(wall_sym_at(m, w, h, x, y - 1));
        },
        Direction::Down => {
            assert(y < h - 1);
            assert(grid_cell_ok(m, w, h, x, y + 1));
            assert(wall_sym_at(m, w, h, x, y));
        },
        Direction::Left => {
            assert(x > 0);
            assert(grid_cell_ok(m, w, h, x - 1, y));
            assert(wall_sym_at(m, w, h, x - 1, y));
        },
        Direction::Right => {
            assert(x < w - 1);
            assert(grid_cell_ok(m, w, h, x + 1, y));
            assert(wall_sym_at(m, w, h, x, y));
        },
    }
}

/// Carves a perfect maze: builds the plane, then walks it depth-first with
/// an explicit backtracking stack, removing the wall-pair towards a randomly
/// chosen unvisited neighbor, until every cell has been visited.  Exactly
/// `width * height - 1` wall-pairs are removed.
pub fn generate_maze(side_length_x: usize, side_length_y: usize) -> (r: Maze)
    requires
        1 <= side_length_x,
        1 <= side_length_y,
    ensures
        is_grid(r@, side_length_x as int, side_length_y as int),
        grid_types(r@, side_length_x as int, side_length_y as int),
        grid_walls_sym(r@, side_length_x as int, side_length_y as int),
        forall|i: int| 0 <= i < r@.len() ==> (#[trigger] r@[i]).visited(),
        removed_total(r@) == side_length_x * side_length_y - 1,
{
    let ghost gw = side_length_x as int;
    let ghost gh = side_length_y as int;
    let mut maze = make_plane(side_length_x, side_length_y);
    proof {
        lemma_fresh_counts(maze@);
        assert forall|x2: int, y2: int| 0 <= x2 < gw && 0 <= y2 < gh implies #[trigger] wall_sym_at(
            maze@,
            gw,
            gh,
            x2,
            y2,
        ) by {
            assert(grid_cell_ok(maze@, gw, gh, x2, y2));
            if x2 < gw - 1 {
                assert(grid_cell_ok(maze@, gw, gh, x2 + 1, y2));
            }
            if y2 < gh - 1 {
                assert(grid_cell_ok(maze@, gw, gh, x2, y2 + 1));
            }
        }
    }
    proof {
        assert(1 <= gw * gh) by (nonlinear_arith)
            requires
                1 <= gw && 1 <= gh,
        ;
        assert(!maze@[0].visited());
        lemma_unvisited_zero(maze@);
    }
    let mut cursor = maze.get_root();
    let mut stack: Vec<Cursor> = vec![];
    while maze.some_unvisited()
        invariant
            is_grid(maze@, gw, gh),
            grid_types(maze@, gw, gh),
            grid_walls_sym(maze@, gw, gh),
            cursor.index < maze@.len(),
            maze@[0].visited() || cursor.index == 0,
            removed_total(maze@) == maze@.len() - unvisited_count(maze@) + (if !maze@[cursor.index
                as int].visited() {
                1int
            } else {
                0int
            }) - 1,
            forall|k: int|
                0 <= k < stack@.len() ==> (#[trigger] stack@[k]).index < maze@.len()
                    && maze@[stack@[k].index as int].visited(),
            forall|i: int|
                0 <= i < maze@.len() && (#[trigger] maze@[i]).visited() && !in_stack(stack@, i) && i
                    != cursor.index ==> (forall|d: Direction|
                    match #[trigger] lk(maze@, i, d) {
                        Some(j) => maze@[j].visited(),
                        None => true,
                    }),
            forall|i: int|
                0 <= i < maze@.len() && !(#[trigger] maze@[i]).visited() && i != cursor.index
                    ==> maze@[i].cell_data.all_walls(),
            0 <= unvisited_count(maze@) <= maze@.len(),
            (unvisited_count(maze@) == 0) <==> (forall|i: int|
                0 <= i < maze@.len() ==> (#[trigger] maze@[i]).visited()),
        ensures
            is_grid(maze@, gw, gh),
            grid_types(maze@, gw, gh),
            grid_walls_sym(maze@, gw, gh),
            forall|i: int| 0 <= i < maze@.len() ==> (#[trigger] maze@[i]).visited(),
            removed_total(maze@) == maze@.len() - 1,
        decreases (unvisited_count(maze@) - (if !maze@[cursor.index as int].visited() {
            1int
        } else {
            0int
        })), stack@.len(),
    {
        let ghost m0 = maze@;
        maze.visit_at(cursor);
        let ghost m1 = maze@;
        proof {
            lemma_visit_preserves(m0, m1, gw, gh, cursor.index as int);
            lemma_unvisited_zero(m1);
            // visiting the current cell keeps every other cell's duties
            assert forall|i: int|
                0 <= i < m1.len() && (#[trigger] m1[i]).visited() && !in_stack(stack@, i) && i
                    != cursor.index implies (forall|d: Direction|
                match #[trigger] lk(m1, i, d) {
                    Some(j) => m1[j].visited(),
                    None => true,
                }) by {
                assert(m0[i].visited());
                assert forall|d: Direction|
                    match #[trigger] lk(m1, i, d) {
                        Some(j) => m1[j].visited(),
                        None => true,
                    } by {
                    assert(lk(m1, i, d) == lk(m0, i, d));
                    lemma_grid_links_ok(m0, gw, gh, i);
                    match lk(m0, i, d) {
                        Some(j) => {
                            assert(m0[j].visited());
                        },
                        None => {},
                    }
                }
            }
        }
        proof {
            lemma_grid_links_ok(m1, gw, gh, cursor.index as int);
        }
        let dirs = maze.visited_directions(cursor);
        if dirs.len() < 4 {
            proof {
                lemma_blocked_dirs(m1, cursor.index as int);
                assert(!(dirs@.contains(Direction::Up) && dirs@.contains(Direction::Down)
                    && dirs@.contains(Direction::Left) && dirs@.contains(Direction::Right)));
            }
            let new_dir = reselect_direction(dirs);
            proof {
                assert(!dir_blocked(m1, cursor.index as int, new_dir));
            }
            let new_cur = maze.at(cursor).get_neighbor(new_dir);
            let ghost s_pre = stack@;
            stack.push(cursor);
            maze.remove_walls(cursor, new_cur, new_dir);
            let ghost m2 = maze@;
            proof {
                lemma_carve_step(m1, m2, gw, gh, cursor, new_cur, new_dir);
                lemma_unvisited_zero(m2);
                assert(!m2[new_cur.index as int].visited());
                assert(unvisited_count(m2) >= 1);
                // the old cursor now sits on the stack; everything it owed is
                // deferred, and nothing else changed hands
                assert(in_stack(stack@, cursor.index as int)) by {
                    assert(stack@[stack@.len() - 1].index == cursor.index);
                }
                assert forall|k: int|
                    0 <= k < stack@.len() implies (#[trigger] stack@[k]).index < m2.len()
                        && m2[stack@[k].index as int].visited() by {
                    if k < stack@.len() - 1 {
                        assert(stack@[k].index < m1.len() && m1[stack@[k].index as int].visited());
                    }
                }
                assert forall|i: int|
                    0 <= i < m2.len() && (#[trigger] m2[i]).visited() && !in_stack(stack@, i) && i
                        != new_cur.index implies (forall|d: Direction|
                    match #[trigger] lk(m2, i, d) {
                        Some(j) => m2[j].visited(),
                        None => true,
                    }) by {
                    assert(!in_stack(s_pre, i)) by {
                        if in_stack(s_pre, i) {
                            let k = choose|k: int|
                                0 <= k < s_pre.len() && (#[trigger] s_pre[k]).index == i;
                            assert(stack@[k].index == i);
                        }
                    }
                    assert(i != cursor.index) by {
                        if i == cursor.index {
                            assert(in_stack(stack@, i));
                        }
                    }
                    assert(m1[i].visited());
                    assert forall|d: Direction|
                        match #[trigger] lk(m2, i, d) {
                            Some(j) => m2[j].visited(),
                            None => true,
                        } by {
                        assert(lk(m2, i, d) == lk(m1, i, d));
                        lemma_grid_links_ok(m1, gw, gh, i);
                        match lk(m1, i, d) {
                            Some(j) => {
                                assert(m1[j].visited());
                            },
                            None => {},
                        }
                    }
                }
            }
            cursor = new_cur;
        } else if !stack.is_empty() {
            let ghost s0 = stack@;
            let ghost old_cur = cursor;
            proof {
                lemma_blocked_dirs(m1, cursor.index as int);
                assert(blocked_dirs(m1, cursor.index as int).len() == 4);
            }
            cursor = stack.pop().unwrap();
            proof {
                assert(stack@ == s0.drop_last());
                assert(cursor == s0.last());
                assert(m1[cursor.index as int].visited());
                assert forall|i: int|
                    0 <= i < m1.len() && (#[trigger] m1[i]).visited() && !in_stack(stack@, i) && i
                        != cursor.index implies (forall|d: Direction|
                    match #[trigger] lk(m1, i, d) {
                        Some(j) => m1[j].visited(),
                        None => true,
                    }) by {
                    if i == old_cur.index as int {
                        assert forall|d: Direction|
                            match #[trigger] lk(m1, i, d) {
                                Some(j) => m1[j].visited(),
                                None => true,
                            } by {
                            assert(dir_blocked(m1, i, d));
                        }
                    } else {
                        assert(!in_stack(s0, i)) by {
                            if in_stack(s0, i) {
                                let k = choose|k: int|
                                    0 <= k < s0.len() && (#[trigger] s0[k]).index == i;
                                if k < s0.len() - 1 {
                                    assert(stack@[k].index == i);
                                } else {
                                    assert(s0[k] == cursor);
                                }
                            }
                        }
                    }
                }
            }
        } else {
            proof {
                lemma_blocked_dirs(m1, cursor.index as int);
                assert(blocked_dirs(m1, cursor.index as int).len() == 4);
                assert forall|i: int|
                    0 <= i < m1.len() && (#[trigger] m1[i]).visited() implies (forall|
                    d: Direction,
                |
                    match #[trigger] lk(m1, i, d) {
                        Some(j) => m1[j].visited(),
                        None => true,
                    }) by {
                    if i != cursor.index {
                        assert(!in_stack(stack@, i));
                    } else {
                        assert forall|d: Direction|
                            match #[trigger] lk(m1, i, d) {
                                Some(j) => m1[j].visited(),
                                None => true,
                            } by {
                            assert(dir_blocked(m1, cursor.index as int, d));
                        }
                    }
                }
                lemma_closed_all_visited(m1, gw, gh);
                lemma_unvisited_zero(m1);
                assert(removed_total(m1) == m1.len() - 1);
            }
            break ;
        }
    }
    proof {
        lemma_unvisited_zero(maze@);
    }
    maze
}

/// The walk lemma for a finished plane: the cursor for `(x, y)` is found by
/// walking `x` cells right and `y` cells down from the root.
pub proof fn lemma_grid_walk(m: Seq<Node>, w: int, h: int, x: int, y: int)
    requires
        is_grid(m, w, h),
        0 <= x < w,
        0 <= y < h,
    ensures
        walk(m, x as nat, y as nat) == Some(cell_index(w, h, x, y)),
{
    assert forall|a: int| 0 <= a < x implies 0 <= #[trigger] cell_index(w, h, a, 0) < m.len() && lk(
        m,
        cell_index(w, h, a, 0),
        Direction::Right,
    ) == Some(cell_index(w, h, a + 1, 0)) by {
        assert(grid_cell_ok(m, w, h, a, 0));
    }
    assert forall|b: int| 0 <= b < y implies 0 <= #[trigger] cell_index(w, h, x, b) < m.len() && lk(
        m,
        cell_index(w, h, x, b),
        Direction::Down,
    ) == Some(cell_index(w, h, x, b + 1)) by {
        assert(grid_cell_ok(m, w, h, x, b));
    }
    lemma_walk_to_cell(m, w, h, x, y);
}

/// The text form of a neighbor slot: the index in parentheses, or `None`.
pub open spec fn opening_chars(opening: Option<Cursor>) -> Seq<char> {
    match opening {
        Some(c) => "Some(("@ + crate::strutil::dec_chars(c.index as nat) + "))"@,
        None => "None"@,
    }
}

fn display_opening(opening: Option<Cursor>) -> (r: String)
    ensures
        r@ == opening_chars(opening),
{
    match opening {
        Some(c) => {
            let mut s = "Some((".to_owned();
            s.push_str(crate::strutil::usize_to_string(c.index).as_str());
            s.push_str("))");
            proof {
                assert(s@ =~= opening_chars(opening));
            }
            s
        },
        None => "None".to_owned(),
    }
}

impl GNode<Cursor> {
    /// The text form of one cell: its role, the four neighbor slots, and the
    /// carving state, one line each.
    pub open spec fn display_chars(self) -> Seq<char> {
        self.n_type.display_chars() + "\n"@ + opening_chars(self.up) + "\n"@ + opening_chars(
            self.down,
        ) + "\n"@ + opening_chars(self.left) + "\n"@ + opening_chars(self.right) + "\n"@
            + self.cell_data.display_chars()
    }

    pub fn display(&self) -> (r: String)
        ensures
            r@ == self.display_chars(),
    {
        let mut s = self.n_type.display();
        s.push_str("\n");
        s.push_str(display_opening(self.up).as_str());
        s.push_str("\n");
        s.push_str(display_opening(self.down).as_str());
        s.push_str("\n");
        s.push_str(display_opening(self.left).as_str());
        s.push_str("\n");
        s.push_str(display_opening(self.right).as_str());
        s.push_str("\n");
        s.push_str(self.cell_data.display().as_str());
        proof {
            assert(s@ =~= self.display_chars());
        }
        s
    }
}

/// A carved square maze of the given side length.
pub fn generate_square_maze(side_length: usize) -> (r: Maze)
    requires
        1 <= side_length,
    ensures
        is_grid(r@, side_length as int, side_length as int),
        grid_types(r@, side_length as int, side_length as int),
        grid_walls_sym(r@, side_length as int, side_length as int),
        forall|i: int| 0 <= i < r@.len() ==> (#[trigger] r@[i]).visited(),
        removed_total(r@) == side_length * side_length - 1,
{
    generate_maze(side_length, side_length)
}

} // verus!
