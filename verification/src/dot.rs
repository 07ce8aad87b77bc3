use crate::direction::Direction;
use crate::maze::{cell_index, grid_walls_sym, is_grid, lemma_cell_index_bounds, lemma_grid_walk, wall_sym_at, Maze, Node};
use crate::strutil::{int_chars, join_chars, lex_lt};
use vstd::prelude::*;

verus! {

/// The byte string a `str` view encodes to; lexicographic order on these
/// bytes is the order std gives `str` and `String`.
pub open spec fn sbytes(s: Seq<char>) -> Seq<u8> {
    vstd::utf8::encode_utf8(s)
}

/// One node of a DOT graph: a label with an optional color and position.
#[derive(Clone, PartialEq, Eq)]
pub struct DotNode {
    pub label: String,
    pub color: Option<String>,
    pub position: Option<(i32, i32)>,
}

pub open spec fn color_attr_chars(c: Seq<char>) -> Seq<char> {
    "color=\""@ + c + "\""@
}

pub open spec fn pos_attr_chars(p: (i32, i32)) -> Seq<char> {
    "pos=\""@ + int_chars(p.0 as int) + ","@ + int_chars(p.1 as int) + "!\""@
}

pub open spec fn dotnode_attr_chars(n: DotNode) -> Seq<char> {
    match (n.color, n.position) {
        (None, None) => Seq::empty(),
        (Some(c), None) => color_attr_chars(c@),
        (None, Some(p)) => pos_attr_chars(p),
        (Some(c), Some(p)) => color_attr_chars(c@) + " "@ + pos_attr_chars(p),
    }
}

/// The DOT line for one node: the quoted label and its attribute list.
pub open spec fn dotnode_chars(n: DotNode) -> Seq<char> {
    "\""@ + n.label@ + "\""@ + " [shape=point "@ + dotnode_attr_chars(n) + "];"@
}

impl DotNode {
    pub fn make(label: &str) -> (r: DotNode)
        ensures
            r.label@ == label@,
            r.color is None,
            r.position is None,
    {
        DotNode { label: label.to_owned(), color: None, position: None }
    }

    pub fn set_color(&mut self, color: String)
        ensures
            final (self).label == old(self).label,
            final (self).color == Some(color),
            final (self).position == old(self).position,
    {
        self.color = Some(color);
    }

    pub fn set_position(&mut self, x: i32, y: i32)
        ensures
            final (self).label == old(self).label,
            final (self).color == old(self).color,
            final (self).position == Some((x, y)),
    {
        self.position = Some((x, y));
    }

    pub fn render(&self) -> (r: String)
        ensures
            r@ == dotnode_chars(*self),
    {
        let mut result = String::new();
        result.push_str("\"");
        result.push_str(self.label.as_str());
        result.push_str("\"");
        let mut attrs: Vec<String> = Vec::new();
        match &self.color {
            Some(c) => {
                let mut a = "color=\"".to_owned();
                a.push_str(c.as_str());
                a.push_str("\"");
                attrs.push(a);
            },
            None => {},
        }
        match &self.position {
            Some(p) => {
                let mut a = "pos=\"".to_owned();
                a.push_str(crate::strutil::i32_to_string(p.0).as_str());
                a.push_str(",");
                a.push_str(crate::strutil::i32_to_string(p.1).as_str());
                a.push_str("!\"");
                attrs.push(a);
            },
            None => {},
        }
        result.push_str(" [shape=point ");
        result.push_str(crate::strutil::join_strings(&attrs, " ").as_str());
        result.push_str("];");
        proof {
            let pieces = attrs@.map_values(|s: String| s@);
            if self.color is Some {
                if self.position is Some {
                    assert(pieces.drop_last() =~= seq![pieces[0]]);
                    assert(join_chars(pieces.drop_last(), " "@) == pieces[0]);
                    assert(join_chars(pieces, " "@) =~= color_attr_chars(self.color->0@) + " "@
                        + pos_attr_chars(self.position->0));
                } else {
                    assert(join_chars(pieces, " "@) =~= color_attr_chars(self.color->0@));
                }
            } else {
                if self.position is Some {
                    assert(join_chars(pieces, " "@) =~= pos_attr_chars(self.position->0));
                } else {
                    assert(join_chars(pieces, " "@) =~= Seq::<char>::empty());
                }
            }
            assert(result@ =~= dotnode_chars(*self));
        }
        result
    }
}

/// One undirected DOT edge; endpoints are stored in lexicographic order so
/// that the same edge seen from either side renders identically.
#[derive(Clone, PartialEq, Eq, PartialOrd, Ord)]
pub struct DotEdge {
    pub source: String,
    pub target: String,
    pub parameters: Vec<String>,
}

/// The DOT line for one edge.
pub open spec fn dotedge_chars(e: DotEdge) -> Seq<char> {
    "\""@ + e.source@ + "\" -- \""@ + e.target@ + "\" ["@ + join_chars(
        e.parameters@.map_values(|s: String| s@),
        " "@,
    ) + "];"@
}

impl DotEdge {
    /// Builds an edge, swapping the endpoints when `source` sorts after
    /// `target`, as std's byte-wise string order sees them.
    pub fn make(source: &str, target: &str) -> (r: DotEdge)
        ensures
            r.parameters@.len() == 0,
            lex_lt(sbytes(target@), sbytes(source@)) ==> r.source@ == target@ && r.target@
                == source@,
            !lex_lt(sbytes(target@), sbytes(source@)) ==> r.source@ == source@ && r.target@
                == target@,
    {
        if crate::strutil::bytes_lt(target.as_bytes(), source.as_bytes()) {
            DotEdge { source: target.to_owned(), target: source.to_owned(), parameters: vec![] }
        } else {
            DotEdge { source: source.to_owned(), target: target.to_owned(), parameters: vec![] }
        }
    }

    pub fn add_parameter(&mut self, param: String)
        ensures
            final (self).source == old(self).source,
            final (self).target == old(self).target,
            final (self).parameters@ == old(self).parameters@.push(param),
    {
        self.parameters.push(param);
    }

    pub fn render(&self) -> (r: String)
        ensures
            r@ == dotedge_chars(*self),
    {
        let mut result = String::new();
        result.push_str("\"");
        result.push_str(self.source.as_str());
        result.push_str("\" -- \"");
        result.push_str(self.target.as_str());
        result.push_str("\" [");
        result.push_str(crate::strutil::join_strings(&self.parameters, " ").as_str());
        result.push_str("];");
        proof {
            assert(result@ =~= dotedge_chars(*self));
        }
        result
    }
}

/// A DOT graph under construction: nodes and edges in insertion order.
#[derive(Clone)]
pub struct DotGraph {
    pub nodes: Vec<DotNode>,
    pub edges: Vec<DotEdge>,
}

/// The node lines of a rendered graph, one indented line per node.
pub open spec fn nodes_block(ns: Seq<DotNode>) -> Seq<char>
    decreases ns.len(),
{
    if ns.len() == 0 {
        Seq::empty()
    } else {
        nodes_block(ns.drop_last()) + "    "@ + dotnode_chars(ns.last()) + "\n"@
    }
}

/// The edge lines of a rendered graph.
pub open spec fn edges_block(es: Seq<DotEdge>) -> Seq<char>
    decreases es.len(),
{
    if es.len() == 0 {
        Seq::empty()
    } else {
        edges_block(es.drop_last()) + "    "@ + dotedge_chars(es.last()) + "\n"@
    }
}

/// The full rendered graph text.
pub open spec fn dotgraph_chars(g: DotGraph) -> Seq<char> {
    "graph {\n"@ + nodes_block(g.nodes@) + edges_block(g.edges@) + "}\n"@
}

impl DotGraph {
    pub fn make() -> (r: DotGraph)
        ensures
            r.nodes@.len() == 0,
            r.edges@.len() == 0,
    {
        DotGraph { nodes: Vec::new(), edges: Vec::new() }
    }

    pub fn add_node(&mut self, node: DotNode)
        ensures
            final (self).nodes@ == old(self).nodes@.push(node),
            final (self).edges == old(self).edges,
    {
        self.nodes.push(node);
    }

    pub fn add_edge(&mut self, edge: DotEdge)
        ensures
            final (self).nodes == old(self).nodes,
            final (self).edges@ == old(self).edges@.push(edge),
    {
        self.edges.push(edge);
    }

    pub fn render(&self) -> (r: String)
        ensures
            r@ == dotgraph_chars(*self),
    {
        let mut result = "graph {\n".to_owned();
        for i in 0..self.nodes.len()
            invariant
                result@ == "graph {\n"@ + nodes_block(self.nodes@.take(i as int)),
        {
            result.push_str("    ");
            result.push_str(self.nodes[i].render().as_str());
            result.push_str("\n");
            proof {
                assert(self.nodes@.take(i as int + 1).drop_last() =~= self.nodes@.take(i as int));
                assert(self.nodes@.take(i as int + 1).last() == self.nodes@[i as int]);
                assert(result@ =~= "graph {\n"@ + nodes_block(self.nodes@.take(i as int + 1)));
            }
        }
        proof {
            assert(self.nodes@.take(self.nodes@.len() as int) =~= self.nodes@);
        }
        for i in 0..self.edges.len()
            invariant
                result@ == "graph {\n"@ + nodes_block(self.nodes@) + edges_block(
                    self.edges@.take(i as int),
                ),
        {
            result.push_str("    ");
            result.push_str(self.edges[i].render().as_str());
            result.push_str("\n");
            proof {
                assert(self.edges@.take(i as int + 1).drop_last() =~= self.edges@.take(i as int));
                assert(self.edges@.take(i as int + 1).last() == self.edges@[i as int]);
                assert(result@ =~= "graph {\n"@ + nodes_block(self.nodes@) + edges_block(
                    self.edges@.take(i as int + 1),
                ));
            }
        }
        proof {
            assert(self.edges@.take(self.edges@.len() as int) =~= self.edges@);
        }
        result.push_str("}\n");
        proof {
            assert(result@ =~= dotgraph_chars(*self));
        }
        result
    }
}

/// `rows` holds the plane's cells row by row: `rows[y][x]` is cell `(x, y)`.
pub open spec fn grid_rows_ok(m: Seq<Node>, rows: Seq<Vec<Node>>, w: int, h: int) -> bool {
    &&& rows.len() == h
    &&& forall|y: int| 0 <= y < h ==> (#[trigger] rows[y])@.len() == w
    &&& forall|x: int, y: int|
        0 <= x < w && 0 <= y < h ==> rows[y]@[x] == m[#[trigger] cell_index(w, h, x, y)]
}

/// Copies the plane's cells into row-major rows for rendering.
pub fn subgraphs(maze: &Maze) -> (r: Vec<Vec<Node>>)
    requires
        exists|w: int, h: int| is_grid(maze@, w, h),
    ensures
        forall|w: int, h: int| #[trigger] is_grid(maze@, w, h) ==> grid_rows_ok(maze@, r@, w, h),
{
    let ghost (gw, gh): (int, int) = choose|w: int, h: int| is_grid(maze@, w, h);
    let (size_x, size_y) = maze.size();
    let mut ret_vec: Vec<Vec<Node>> = vec![];
    for y in 0..size_y
        invariant
            is_grid(maze@, gw, gh),
            gw == size_x as int,
            gh == size_y as int,
            ret_vec@.len() == y,
            forall|yy: int| 0 <= yy < y ==> (#[trigger] ret_vec@[yy])@.len() == gw,
            forall|xx: int, yy: int|
                0 <= xx < gw && 0 <= yy < y ==> ret_vec@[yy]@[xx] == maze@[#[trigger] cell_index(
                    gw,
                    gh,
                    xx,
                    yy,
                )],
    {
        let mut x_vec: Vec<Node> = vec![];
        for x in 0..size_x
            invariant
                is_grid(maze@, gw, gh),
                gw == size_x as int,
                gh == size_y as int,
                y < size_y,
                x_vec@.len() == x,
                forall|xx: int|
                    0 <= xx < x ==> x_vec@[xx] == maze@[#[trigger] cell_index(
                        gw,
                        gh,
                        xx,
                        y as int,
                    )],
        {
            proof {
                lemma_grid_walk(maze@, gw, gh, x as int, y as int);
                lemma_cell_index_bounds(gw, gh, x as int, y as int);
            }
            let cursor = maze.by_coords(x, y);
            x_vec.push(maze.at(cursor));
        }
        ret_vec.push(x_vec);
    }
    proof {
        assert forall|w: int, h: int| #[trigger] is_grid(maze@, w, h) implies grid_rows_ok(
            maze@,
            ret_vec@,
            w,
            h,
        ) by {}
    }
    ret_vec
}

/// The DOT name of the cell at `(x, y)`: its coordinates joined by a dash.
pub open spec fn name_chars(x: int, y: int) -> Seq<char> {
    crate::strutil::dec_chars(x as nat) + "-"@ + crate::strutil::dec_chars(y as nat)
}

/// `rows[y][x]` is the name of cell `(x, y)`.
pub open spec fn names_ok(rows: Seq<Vec<String>>, w: int, h: int) -> bool {
    &&& rows.len() == h
    &&& forall|y: int| 0 <= y < h ==> (#[trigger] rows[y])@.len() == w
    &&& forall|x: int, y: int|
        0 <= x < w && 0 <= y < h ==> rows[y]@[x]@ == #[trigger] name_chars(x, y)
}

/// Builds the DOT name of every cell, row by row.
pub fn name_nodes(maze: &Maze) -> (r: Vec<Vec<String>>)
    requires
        exists|w: int, h: int| is_grid(maze@, w, h),
    ensures
        forall|w: int, h: int| #[trigger] is_grid(maze@, w, h) ==> names_ok(r@, w, h),
{
    let ghost (gw, gh): (int, int) = choose|w: int, h: int| is_grid(maze@, w, h);
    let (size_x, size_y) = maze.size();
    let mut ret_vec: Vec<Vec<String>> = vec![];
    let mut push_val: String;
    for y in 0..size_y
        invariant
            is_grid(maze@, gw, gh),
            gw == size_x as int,
            gh == size_y as int,
            ret_vec@.len() == y,
            forall|yy: int| 0 <= yy < y ==> (#[trigger] ret_vec@[yy])@.len() == gw,
            forall|xx: int, yy: int|
                0 <= xx < gw && 0 <= yy < y ==> ret_vec@[yy]@[xx]@ == #[trigger] name_chars(xx, yy),
    {
        let mut x_vec: Vec<String> = vec![];
        for x in 0..size_x
            invariant
                is_grid(maze@, gw, gh),
                gw == size_x as int,
                gh == size_y as int,
                y < size_y,
                x_vec@.len() == x,
                forall|xx: int| 0 <= xx < x ==> x_vec@[xx]@ == #[trigger] name_chars(xx, y as int),
        {
            push_val = crate::strutil::usize_to_string(x);
            push_val.push_str("-");
            push_val.push_str(crate::strutil::usize_to_string(y).as_str());
            proof {
                assert(push_val@ =~= name_chars(x as int, y as int));
            }
            x_vec.push(push_val);
        }
        ret_vec.push(x_vec);
    }
    proof {
        assert forall|w: int, h: int| #[trigger] is_grid(maze@, w, h) implies names_ok(
            ret_vec@,
            w,
            h,
        ) by {}
    }
    ret_vec
}

/// One subgraph row: the cell names, each followed by a semicolon.
pub open spec fn dots_row_chars(names: Seq<Seq<char>>) -> Seq<char>
    decreases names.len(),
{
    if names.len() == 0 {
        Seq::empty()
    } else {
        dots_row_chars(names.drop_last()) + names.last() + "; "@
    }
}

/// The rank-aligned subgraph blocks, one per row of the plane.
pub open spec fn dots_block(rows: Seq<Vec<String>>) -> Seq<char>
    decreases rows.len(),
{
    if rows.len() == 0 {
        Seq::empty()
    } else {
        dots_block(rows.drop_last()) + "subgraph {\nrank = same;"@ + dots_row_chars(
            rows.last()@.map_values(|s: String| s@),
        ) + "\n}\n"@
    }
}

/// A digraph header followed by one rank-aligned subgraph per plane row,
/// each listing that row's cell names.
pub fn dots(maze: &Maze) -> (r: String)
    requires
        exists|w: int, h: int| is_grid(maze@, w, h),
    ensures
        forall|w: int, h: int|
            #[trigger] is_grid(maze@, w, h) ==> exists|rows: Seq<Vec<String>>|
                names_ok(rows, w, h) && r@ == "digraph {\n"@ + dots_block(rows),
{
    let names = name_nodes(maze);
    let mut build_string: String = "digraph {\n".to_owned();
    for i in 0..names.len()
        invariant
            build_string@ == "digraph {\n"@ + dots_block(names@.take(i as int)),
    {
        build_string.push_str("subgraph {\nrank = same;");
        let row = &names[i];
        let ghost row_names = row@.map_values(|s: String| s@);
        let ghost base = build_string@;
        for j in 0..row.len()
            invariant
                row_names == row@.map_values(|s: String| s@),
                row_names.len() == row@.len(),
                build_string@ == base + dots_row_chars(row_names.take(j as int)),
        {
            build_string.push_str(row[j].as_str());
            build_string.push_str("; ");
            proof {
                assert(row_names.take(j as int + 1).drop_last() =~= row_names.take(j as int));
                assert(row_names.take(j as int + 1).last() == row_names[j as int]);
                assert(build_string@ =~= base + dots_row_chars(row_names.take(j as int + 1)));
            }
        }
        build_string.push_str("\n}\n");
        proof {
            assert(row_names.take(row@.len() as int) =~= row_names);
            assert(names@.take(i as int + 1).drop_last() =~= names@.take(i as int));
            assert(names@.take(i as int + 1).last() == names@[i as int]);
            assert(build_string@ =~= "digraph {\n"@ + dots_block(names@.take(i as int + 1)));
        }
    }
    proof {
        assert(names@.take(names@.len() as int) =~= names@);
    }
    build_string
}

/// Compares two edges by their endpoint byte strings, source first: the
/// order std's derived comparison on the fields would give.
fn edge_le_exec(a: &DotEdge, b: &DotEdge) -> bool {
    let sa = a.source.as_str().as_bytes();
    let sb = b.source.as_str().as_bytes();
    if crate::strutil::bytes_lt(sa, sb) {
        true
    } else if crate::strutil::bytes_eq(sa, sb) {
        let ta = a.target.as_str().as_bytes();
        let tb = b.target.as_str().as_bytes();
        crate::strutil::bytes_lt(ta, tb) || crate::strutil::bytes_eq(ta, tb)
    } else {
        false
    }
}

/// Sorts edges by endpoint names, smallest first: selection sort.
fn sort_edges(edges: Vec<DotEdge>) -> Vec<DotEdge> {
    let mut src = edges;
    let mut out: Vec<DotEdge> = Vec::new();
    while src.len() > 0
        decreases src@.len(),
    {
        let mut best: usize = 0;
        for i in 1..src.len()
            invariant
                best < i,
                src@.len() > 0,
        {
            if edge_le_exec(&src[i], &src[best]) {
                best = i;
            }
        }
        let e = src.remove(best);
        out.push(e);
    }
    out
}

/// Removes edges whose endpoint names repeat the entry just before them; on
/// a sorted list every repeated endpoint pair keeps exactly one entry.
fn dedup_edges(edges: Vec<DotEdge>) -> Vec<DotEdge> {
    let mut src = edges;
    let mut out: Vec<DotEdge> = Vec::new();
    while src.len() > 0
        decreases src@.len(),
    {
        let e = src.remove(0);
        let keep = if out.len() == 0 {
            true
        } else {
            let last = out.len() - 1;
            !(out[last].source.eq(&e.source) && out[last].target.eq(&e.target))
        };
        if keep {
            out.push(e);
        }
    }
    out
}

/// Renders the maze as DOT text: one positioned point per cell, then one
/// line per open passage, each passage listed once, sorted by endpoint
/// names.  The result is the rendering of a graph built from those parts.
pub fn render_dot(maze: &Maze) -> (r: String)
    requires
        exists|w: int, h: int| #[trigger] is_grid(maze@, w, h) && grid_walls_sym(maze@, w, h),
    ensures
        exists|g: DotGraph| r@ == dotgraph_chars(g),
{
    let ghost (gw, gh): (int, int) = choose|w: int, h: int|
        #[trigger] is_grid(maze@, w, h) && grid_walls_sym(maze@, w, h);
    let vec_ref = name_nodes(maze);
    let subgraphs = subgraphs(maze);
    let (size_x, size_y) = maze.size();
    let mut graph = DotGraph::make();
    let mut edges: Vec<DotEdge> = vec![];
    for y in 0..size_y
        invariant
            is_grid(maze@, gw, gh),
            grid_walls_sym(maze@, gw, gh),
            gw == size_x as int,
            gh == size_y as int,
            names_ok(vec_ref@, gw, gh),
            grid_rows_ok(maze@, subgraphs@, gw, gh),
    {
        for x in 0..size_x
            invariant
                is_grid(maze@, gw, gh),
                grid_walls_sym(maze@, gw, gh),
                gw == size_x as int,
                gh == size_y as int,
                y < size_y,
                names_ok(vec_ref@, gw, gh),
                grid_rows_ok(maze@, subgraphs@, gw, gh),
        {
            let mut dot_node = DotNode::make(vec_ref[y][x].as_str());
            dot_node.set_position(#[verifier::truncate] (x as i32), #[verifier::truncate] (y
                as i32));
            graph.add_node(dot_node);
            let node = subgraphs[y][x];
            proof {
                assert(node == maze@[cell_index(gw, gh, x as int, y as int)]);
                assert(wall_sym_at(maze@, gw, gh, x as int, y as int));
            }
            if node.has_no_wall(Direction::Up) {
                edges.push(DotEdge::make(vec_ref[y][x].as_str(), vec_ref[y - 1][x].as_str()));
            }
            if node.has_no_wall(Direction::Down) {
                edges.push(DotEdge::make(vec_ref[y][x].as_str(), vec_ref[y + 1][x].as_str()));
            }
            if node.has_no_wall(Direction::Left) {
                edges.push(DotEdge::make(vec_ref[y][x].as_str(), vec_ref[y][x - 1].as_str()));
            }
            if node.has_no_wall(Direction::Right) {
                edges.push(DotEdge::make(vec_ref[y][x].as_str(), vec_ref[y][x + 1].as_str()));
            }
        }
    }
    let sorted = sort_edges(edges);
    let mut deduped = dedup_edges(sorted);
    while deduped.len() > 0
        decreases deduped@.len(),
    {
        let e = deduped.remove(0);
        graph.add_edge(e);
    }
    let r = graph.render();
    proof {
        assert(r@ == dotgraph_chars(graph));
    }
    r
}

} // verus!
