use crate::direction::Direction;
use vstd::prelude::*;

verus! {

/// The role of a cell: the first-created root, the last corner, or anything else.
#[derive(Clone, Copy, PartialEq, Eq, Structural, Debug)]
pub enum NodeType {
    Regular,
    Start,
    End,
}

impl NodeType {
    /// The label used when a node is rendered as text.
    pub open spec fn display_chars(self) -> Seq<char> {
        match self {
            NodeType::Start => "Start"@,
            NodeType::Regular => "Regular"@,
            NodeType::End => "End"@,
        }
    }

    pub fn display(&self) -> (r: String)
        ensures
            r@ == self.display_chars(),
    {
        match *self {
            NodeType::Start => "Start".to_owned(),
            NodeType::Regular => "Regular".to_owned(),
            NodeType::End => "End".to_owned(),
        }
    }
}

pub type Wall = bool;

/// The per-cell state touched by carving: four wall flags and a visited flag.
#[derive(Clone, Copy)]
pub struct CellData {
    pub up: Wall,
    pub down: Wall,
    pub left: Wall,
    pub right: Wall,
    pub visited: bool,
}

impl CellData {
    /// The wall flag on the edge leaving in direction `d`.
    pub open spec fn wall(self, d: Direction) -> bool {
        match d {
            Direction::Up => self.up,
            Direction::Down => self.down,
            Direction::Left => self.left,
            Direction::Right => self.right,
        }
    }

    /// All four walls are standing.
    pub open spec fn all_walls(self) -> bool {
        self.up && self.down && self.left && self.right
    }

    /// This cell with the wall flag towards `d` cleared.
    pub open spec fn without_wall(self, d: Direction) -> CellData {
        match d {
            Direction::Up => CellData { up: false, ..self },
            Direction::Down => CellData { down: false, ..self },
            Direction::Left => CellData { left: false, ..self },
            Direction::Right => CellData { right: false, ..self },
        }
    }

    /// A fresh cell: every wall standing, not yet visited.
    pub open spec fn spec_new() -> CellData {
        CellData { up: true, down: true, left: true, right: true, visited: false }
    }

    pub open spec fn display_chars(self) -> Seq<char> {
        visited_chars(self.visited) + "\n"@ + wall_chars(self.up) + "\n"@ + wall_chars(self.down)
            + "\n"@ + wall_chars(self.left) + "\n"@ + wall_chars(self.right)
    }

    fn new() -> (r: CellData)
        ensures
            r == CellData::spec_new(),
    {
        CellData { up: true, down: true, left: true, right: true, visited: false }
    }

    pub fn display(&self) -> (r: String)
        ensures
            r@ == self.display_chars(),
    {
        let mut s = display_visited(self.visited);
        s.push_str("\n");
        s.push_str(display_wall(self.up).as_str());
        s.push_str("\n");
        s.push_str(display_wall(self.down).as_str());
        s.push_str("\n");
        s.push_str(display_wall(self.left).as_str());
        s.push_str("\n");
        s.push_str(display_wall(self.right).as_str());
        proof {
            assert(s@ =~= self.display_chars());
        }
        s
    }

    pub fn visit(&mut self)
        ensures
            *final (self) == (CellData { visited: true, ..*old(self) }),
    {
        self.visited = true;
    }

    pub fn remove_wall(&mut self, dir: Direction)
        ensures
            *final (self) == old(self).without_wall(dir),
            !final (self).wall(dir),
            forall|d: Direction| d != dir ==> final (self).wall(d) == old(self).wall(d),
            final (self).visited == old(self).visited,
    {
        match dir {
            Direction::Up => self.up = false,
            Direction::Down => self.down = false,
            Direction::Left => self.left = false,
            Direction::Right => self.right = false,
        }
    }
}

pub open spec fn wall_chars(w: Wall) -> Seq<char> {
    if w {
        "Wall"@
    } else {
        "No Wall"@
    }
}

pub open spec fn visited_chars(v: bool) -> Seq<char> {
    if v {
        "Visited"@
    } else {
        "Not Visited"@
    }
}

fn display_wall(wall: Wall) -> (r: String)
    ensures
        r@ == wall_chars(wall),
{
    match wall {
        true => "Wall".to_owned(),
        false => "No Wall".to_owned(),
    }
}

fn display_visited(visited: bool) -> (r: String)
    ensures
        r@ == visited_chars(visited),
{
    match visited {
        true => "Visited".to_owned(),
        false => "Not Visited".to_owned(),
    }
}

/// One cell of the grid: optional neighbor handles for the four directions,
/// a role tag, and the carving state.
#[derive(Clone, Copy)]
pub struct GNode<Neighbor> {
    pub up: Option<Neighbor>,
    pub down: Option<Neighbor>,
    pub left: Option<Neighbor>,
    pub right: Option<Neighbor>,
    pub n_type: NodeType,
    pub cell_data: CellData,
}

impl<N> GNode<N> {
    /// The neighbor handle in direction `d`, if that edge exists.
    pub open spec fn nbr(self, d: Direction) -> Option<N> {
        match d {
            Direction::Up => self.up,
            Direction::Down => self.down,
            Direction::Left => self.left,
            Direction::Right => self.right,
        }
    }

    /// The wall flag on the edge leaving in direction `d`.
    pub open spec fn wall(self, d: Direction) -> bool {
        self.cell_data.wall(d)
    }

    pub open spec fn visited(self) -> bool {
        self.cell_data.visited
    }

    /// This node with the neighbor slot for `d` replaced by `v`.
    pub open spec fn with_nbr(self, d: Direction, v: Option<N>) -> GNode<N> {
        match d {
            Direction::Up => GNode { up: v, ..self },
            Direction::Down => GNode { down: v, ..self },
            Direction::Left => GNode { left: v, ..self },
            Direction::Right => GNode { right: v, ..self },
        }
    }

    /// This node with the wall flag towards `d` cleared.
    pub open spec fn without_wall(self, d: Direction) -> GNode<N> {
        GNode { cell_data: self.cell_data.without_wall(d), ..self }
    }

    /// This node with the visited flag set.
    pub open spec fn with_visited(self) -> GNode<N> {
        GNode { cell_data: CellData { visited: true, ..self.cell_data }, ..self }
    }

    /// This node with the role replaced.
    pub open spec fn with_type(self, t: NodeType) -> GNode<N> {
        GNode { n_type: t, ..self }
    }

    /// A node as `unsafe_new` builds it: no neighbors, fresh cell state.
    pub open spec fn spec_new(n_type: NodeType) -> GNode<N> {
        GNode {
            up: None,
            down: None,
            left: None,
            right: None,
            n_type: n_type,
            cell_data: CellData::spec_new(),
        }
    }

    pub fn unsafe_new(n_type: NodeType) -> (r: GNode<N>)
        ensures
            r == GNode::<N>::spec_new(n_type),
    {
        GNode {
            up: None,
            down: None,
            left: None,
            right: None,
            n_type: n_type,
            cell_data: CellData::new(),
        }
    }

    /// A fresh non-root node; only the implicit first cell may be `Start`.
    pub fn new(n_type: NodeType) -> (r: GNode<N>)
        requires
            n_type != NodeType::Start,
        ensures
            r == GNode::<N>::spec_new(n_type),
    {
        GNode::unsafe_new(n_type)
    }

    /// The neighbor in direction `dir`, which must exist.
    pub fn get_neighbor(self, dir: Direction) -> (r: N)
        requires
            self.nbr(dir) is Some,
        ensures
            Some(r) == self.nbr(dir),
    {
        match dir {
            Direction::Up => self.up.unwrap(),
            Direction::Down => self.down.unwrap(),
            Direction::Left => self.left.unwrap(),
            Direction::Right => self.right.unwrap(),
        }
    }

    pub fn get_neighbor_option(self, dir: Direction) -> (r: Option<N>)
        ensures
            r == self.nbr(dir),
    {
        match dir {
            Direction::Up => self.up,
            Direction::Down => self.down,
            Direction::Left => self.left,
            Direction::Right => self.right,
        }
    }

    /// Overwrites the neighbor slot for `dir`; every other field is kept.
    pub fn update_neighbor(&mut self, dir: Direction, new: Option<N>)
        ensures
            *final (self) == old(self).with_nbr(dir, new),
            final (self).nbr(dir) == new,
            forall|d: Direction| d != dir ==> final (self).nbr(d) == old(self).nbr(d),
            final (self).n_type == old(self).n_type,
            final (self).cell_data == old(self).cell_data,
    {
        match dir {
            Direction::Up => {
                self.up = new;
            },
            Direction::Down => {
                self.down = new;
            },
            Direction::Left => {
                self.left = new;
            },
            Direction::Right => {
                self.right = new;
            },
        }
    }

    pub fn set_neighbor(&mut self, dir: Direction, neighbor: N)
        ensures
            *final (self) == old(self).with_nbr(dir, Some(neighbor)),
            final (self).nbr(dir) == Some(neighbor),
            forall|d: Direction| d != dir ==> final (self).nbr(d) == old(self).nbr(d),
            final (self).n_type == old(self).n_type,
            final (self).cell_data == old(self).cell_data,
    {
        self.update_neighbor(dir, Some(neighbor));
    }

    pub fn set_type(&mut self, n_type: NodeType)
        ensures
            *final (self) == (GNode { n_type: n_type, ..*old(self) }),
    {
        self.n_type = n_type;
    }

    /// Clears this node's wall flag towards `dir`; links are untouched.
    pub fn remove_wall(&mut self, dir: Direction)
        ensures
            *final (self) == old(self).without_wall(dir),
            !final (self).wall(dir),
            forall|d: Direction| d != dir ==> final (self).wall(d) == old(self).wall(d),
            final (self).visited() == old(self).visited(),
            final (self).n_type == old(self).n_type,
            forall|d: Direction| final (self).nbr(d) == old(self).nbr(d),
    {
        self.cell_data.remove_wall(dir);
    }

    pub fn visit(&mut self)
        ensures
            *final (self) == old(self).with_visited(),
            final (self).visited(),
            forall|d: Direction| final (self).wall(d) == old(self).wall(d),
            final (self).n_type == old(self).n_type,
            forall|d: Direction| final (self).nbr(d) == old(self).nbr(d),
    {
        self.cell_data.visit();
    }

    pub fn is_visited(&self) -> (r: bool)
        ensures
            r == self.visited(),
    {
        self.cell_data.visited
    }

    pub fn is_not_visited(&self) -> (r: bool)
        ensures
            r == !self.visited(),
    {
        !(self.cell_data.visited)
    }

    pub fn has_wall(&self, dir: Direction) -> (r: bool)
        ensures
            r == self.wall(dir),
    {
        match dir {
            Direction::Up => self.cell_data.up,
            Direction::Down => self.cell_data.down,
            Direction::Left => self.cell_data.left,
            Direction::Right => self.cell_data.right,
        }
    }

    pub fn has_no_wall(&self, dir: Direction) -> (r: bool)
        ensures
            r == !self.wall(dir),
    {
        !(self.has_wall(dir))
    }
}

} // verus!
