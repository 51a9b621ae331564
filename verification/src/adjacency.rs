//! The adjacency graph of a building: which rooms share a wall, which
//! rooms touch the footprint, and along which cells a door may go.
//!
//! A shared wall never holds the two cells where it ends: at a corner three
//! or more walls can meet, and a door there would be ambiguous.

use vstd::prelude::*;
use crate::geometry::{greater, housed, lesser, max_of, min_of, orderly, Point, Rect};

verus! {

/// A node of the graph: a room of the building, or the outside.
#[derive(Clone, Copy, PartialEq, Eq, Structural, Debug)]
pub enum RoomId {
    Interior(usize),
    Exterior,
}

/// One direction of an adjacency: the node on the other side and the wall
/// cells that the two have in common.
pub struct NeighborEdge {
    pub target: RoomId,
    pub shared_wall: Vec<Point>,
}

/// For every room and for the outside, the list of its neighbours.
/// `rooms[i]` belongs to the room with index `i`.
pub struct AdjacencyGraph {
    pub exterior: Vec<NeighborEdge>,
    pub rooms: Vec<Vec<NeighborEdge>>,
}

/// An edge as a mathematical value.
pub struct EdgeView {
    pub target: RoomId,
    pub wall: Seq<Point>,
}

/// A graph as a mathematical value.
pub struct GraphView {
    pub exterior: Seq<EdgeView>,
    pub rooms: Seq<Seq<EdgeView>>,
}

impl View for NeighborEdge {
    type V = EdgeView;

    open spec fn view(&self) -> EdgeView {
        EdgeView { target: self.target, wall: self.shared_wall@ }
    }
}

pub open spec fn edge_views(edges: Seq<NeighborEdge>) -> Seq<EdgeView> {
    edges.map_values(|e: NeighborEdge| e@)
}

impl View for AdjacencyGraph {
    type V = GraphView;

    open spec fn view(&self) -> GraphView {
        GraphView {
            exterior: edge_views(self.exterior@),
            rooms: self.rooms@.map_values(|edges: Vec<NeighborEdge>| edge_views(edges@)),
        }
    }
}

impl GraphView {
    /// `node` is the outside or one of the graph's rooms.
    pub open spec fn has_node(self, node: RoomId) -> bool {
        match node {
            RoomId::Exterior => true,
            RoomId::Interior(i) => i < self.rooms.len(),
        }
    }

    /// The edge list of a node; empty for a node that the graph lacks.
    pub open spec fn edges(self, node: RoomId) -> Seq<EdgeView> {
        match node {
            RoomId::Exterior => self.exterior,
            RoomId::Interior(i) => if i < self.rooms.len() {
                self.rooms[i as int]
            } else {
                Seq::empty()
            },
        }
    }

    /// `edge` is in the edge list of `from`.
    pub open spec fn has_edge(self, from: RoomId, edge: EdgeView) -> bool {
        exists|k: int| 0 <= k < self.edges(from).len() && #[trigger] self.edges(from)[k] == edge
    }

    /// Some edge from `a` leads to `b` along a wall with room for a door.
    pub open spec fn linked(self, a: RoomId, b: RoomId) -> bool {
        exists|k: int|
            0 <= k < self.edges(a).len() && (#[trigger] self.edges(a)[k]).target == b
                && self.edges(a)[k].wall.len() > 0
    }

    /// Every edge leads to another node of the graph, and is matched by an
    /// edge back along the same wall.
    pub open spec fn wf(self) -> bool {
        forall|node: RoomId, k: int|
            #![trigger self.edges(node)[k]]
            self.has_node(node) && 0 <= k < self.edges(node).len() ==> {
                &&& self.has_node(self.edges(node)[k].target)
                &&& self.edges(node)[k].target != node
                &&& self.has_edge(
                    self.edges(node)[k].target,
                    EdgeView { target: node, wall: self.edges(node)[k].wall },
                )
            }
    }

    /// Every count that a draw may range over fits the random source.
    pub open spec fn drawable(self) -> bool {
        &&& self.rooms.len() < i32::MAX
        &&& forall|node: RoomId, k: int|
            #![trigger self.edges(node)[k]]
            self.has_node(node) && 0 <= k < self.edges(node).len() ==> self.edges(
                node,
            )[k].wall.len() <= i32::MAX
        &&& forall|node: RoomId|
            self.has_node(node) ==> (#[trigger] self.edges(node)).len() <= i32::MAX
    }

    /// `room` can be reached from the outside in at most `hops` steps, each
    /// along a wall with room for a door.
    pub open spec fn reach(self, room: RoomId, hops: nat) -> bool
        decreases hops,
    {
        room == RoomId::Exterior || (hops > 0 && exists|via: RoomId|
            self.has_node(via) && self.reach(via, (hops - 1) as nat) && #[trigger] self.linked(
                via,
                room,
            ))
    }

    /// `room` can be reached from the outside along walls with room for a door.
    pub open spec fn reachable(self, room: RoomId) -> bool {
        exists|hops: nat| self.reach(room, hops)
    }
}

impl AdjacencyGraph {
    pub open spec fn wf(&self) -> bool {
        self@.wf() && self@.drawable()
    }
}

/// The cells of column `x` strictly between rows `lo` and `hi`, top down.
pub open spec fn wall_column(x: int, lo: int, hi: int) -> Seq<Point> {
    Seq::new(
        (if hi - lo > 1 {
            hi - lo - 1
        } else {
            0
        }) as nat,
        |k: int| Point { x: x as i32, y: (lo + 1 + k) as i32 },
    )
}

/// The cells of row `y` strictly between columns `lo` and `hi`, left to right.
pub open spec fn wall_row(y: int, lo: int, hi: int) -> Seq<Point> {
    Seq::new(
        (if hi - lo > 1 {
            hi - lo - 1
        } else {
            0
        }) as nat,
        |k: int| Point { x: (lo + 1 + k) as i32, y: y as i32 },
    )
}

/// The vertical spans of the two rectangles overlap in more than a line.
pub open spec fn rows_overlap(a: Rect, b: Rect) -> bool {
    lesser(a.y2 as int, b.y2 as int) > greater(a.y1 as int, b.y1 as int)
}

/// The horizontal spans of the two rectangles overlap in more than a line.
pub open spec fn columns_overlap(a: Rect, b: Rect) -> bool {
    lesser(a.x2 as int, b.x2 as int) > greater(a.x1 as int, b.x1 as int)
}

/// The wall that `a` and `b` have in common, if they are adjacent: one's
/// right wall is the other's left wall and their rows overlap, or one's
/// bottom wall is the other's top wall and their columns overlap. The
/// wall holds the cells strictly inside the overlap.
pub open spec fn contact(a: Rect, b: Rect) -> Option<Seq<Point>> {
    if b.x2 == a.x1 && rows_overlap(a, b) {
        Some(
            wall_column(
                a.x1 as int,
                greater(a.y1 as int, b.y1 as int),
                lesser(a.y2 as int, b.y2 as int),
            ),
        )
    } else if a.x2 == b.x1 && rows_overlap(a, b) {
        Some(
            wall_column(
                b.x1 as int,
                greater(a.y1 as int, b.y1 as int),
                lesser(a.y2 as int, b.y2 as int),
            ),
        )
    } else if b.y2 == a.y1 && columns_overlap(a, b) {
        Some(
            wall_row(
                a.y1 as int,
                greater(a.x1 as int, b.x1 as int),
                lesser(a.x2 as int, b.x2 as int),
            ),
        )
    } else if a.y2 == b.y1 && columns_overlap(a, b) {
        Some(
            wall_row(
                b.y1 as int,
                greater(a.x1 as int, b.x1 as int),
                lesser(a.x2 as int, b.x2 as int),
            ),
        )
    } else {
        None
    }
}

/// The wall between the rooms with indices `i` and `j`. The pair is read
/// in index order, so the wall is the same from either side.
pub open spec fn pair_wall(rooms: Seq<Rect>, i: int, j: int) -> Option<Seq<Point>> {
    if i == j {
        None
    } else if i < j {
        contact(rooms[i], rooms[j])
    } else {
        contact(rooms[j], rooms[i])
    }
}

/// The room has a wall on the footprint.
pub open spec fn touches(room: Rect, building: Rect) -> bool {
    room.x1 == building.x1 || room.x2 == building.x2 || room.y1 == building.y1 || room.y2
        == building.y2
}

/// How many of the room's four walls lie on the footprint.
pub open spec fn sides_on(room: Rect, building: Rect) -> int {
    (if room.x1 == building.x1 {
        1int
    } else {
        0int
    }) + (if room.x2 == building.x2 {
        1int
    } else {
        0int
    }) + (if room.y1 == building.y1 {
        1int
    } else {
        0int
    }) + (if room.y2 == building.y2 {
        1int
    } else {
        0int
    })
}

/// The rooms `j` and `i` share a wall with room for a door.
pub open spec fn door_wall(rooms: Seq<Rect>, j: int, i: int) -> bool {
    pair_wall(rooms, j, i) matches Some(wall) && wall.len() > 0
}

/// Every room touches the footprint or shares a wall, with room for a
/// door, with a room that does.
pub open spec fn near_outside(rooms: Seq<Rect>, building: Rect) -> bool {
    forall|i: int|
        0 <= i < rooms.len() ==> touches(#[trigger] rooms[i], building) || exists|j: int|
            0 <= j < rooms.len() && touches(rooms[j], building) && #[trigger] door_wall(
                rooms,
                j,
                i,
            )
}

/// The part of the footprint that is a wall of the room: left side, right
/// side, top, bottom, each without its two corners.
pub open spec fn perimeter_wall(room: Rect, building: Rect) -> Seq<Point> {
    (if room.x1 == building.x1 {
        wall_column(room.x1 as int, room.y1 as int, room.y2 as int)
    } else {
        Seq::empty()
    }) + (if room.x2 == building.x2 {
        wall_column(room.x2 as int, room.y1 as int, room.y2 as int)
    } else {
        Seq::empty()
    }) + (if room.y1 == building.y1 {
        wall_row(room.y1 as int, room.x1 as int, room.x2 as int)
    } else {
        Seq::empty()
    }) + (if room.y2 == building.y2 {
        wall_row(room.y2 as int, room.x1 as int, room.x2 as int)
    } else {
        Seq::empty()
    })
}

/// The edges from room `i` to the rooms with an index below `upto`, in
/// index order.
pub open spec fn interior_edges(rooms: Seq<Rect>, i: int, upto: int) -> Seq<EdgeView>
    decreases upto,
{
    if upto <= 0 {
        Seq::empty()
    } else {
        let rest = interior_edges(rooms, i, upto - 1);
        match pair_wall(rooms, i, upto - 1) {
            Some(wall) => rest.push(
                EdgeView { target: RoomId::Interior((upto - 1) as usize), wall },
            ),
            None => rest,
        }
    }
}

/// All edges of room `i`: its neighbours among the rooms in index order,
/// then the outside if the room touches the footprint.
pub open spec fn room_edges(rooms: Seq<Rect>, building: Rect, i: int) -> Seq<EdgeView> {
    let inside = interior_edges(rooms, i, rooms.len() as int);
    if touches(rooms[i], building) {
        inside.push(
            EdgeView { target: RoomId::Exterior, wall: perimeter_wall(rooms[i], building) },
        )
    } else {
        inside
    }
}

/// The edges from the outside to the rooms with an index below `upto`
/// that touch the footprint, in index order.
pub open spec fn exterior_edges(rooms: Seq<Rect>, building: Rect, upto: int) -> Seq<EdgeView>
    decreases upto,
{
    if upto <= 0 {
        Seq::empty()
    } else {
        let rest = exterior_edges(rooms, building, upto - 1);
        if touches(rooms[upto - 1], building) {
            rest.push(
                EdgeView {
                    target: RoomId::Interior((upto - 1) as usize),
                    wall: perimeter_wall(rooms[upto - 1], building),
                },
            )
        } else {
            rest
        }
    }
}

/// The adjacency graph of `rooms` within `building`.
pub open spec fn graph_of(rooms: Seq<Rect>, building: Rect) -> GraphView {
    GraphView {
        exterior: exterior_edges(rooms, building, rooms.len() as int),
        rooms: Seq::new(rooms.len(), |i: int| room_edges(rooms, building, i)),
    }
}

/// The cells of column `x` strictly between rows `lo` and `hi`.
pub fn column_between(x: i32, lo: i32, hi: i32) -> (cells: Vec<Point>)
    ensures
        cells@ == wall_column(x as int, lo as int, hi as int),
{
    let mut cells: Vec<Point> = Vec::new();
    if lo < hi {
        let mut y: i32 = lo + 1;
        while y < hi
            invariant
                lo < y <= hi,
                cells@.len() == y - lo - 1,
                forall|k: int|
                    0 <= k < cells@.len() ==> cells@[k] == (Point { x, y: (lo + 1 + k) as i32 }),
            decreases hi - y,
        {
            cells.push(Point { x, y });
            y = y + 1;
        }
    }
    assert(cells@ =~= wall_column(x as int, lo as int, hi as int));
    cells
}

/// The cells of row `y` strictly between columns `lo` and `hi`.
pub fn row_between(y: i32, lo: i32, hi: i32) -> (cells: Vec<Point>)
    ensures
        cells@ == wall_row(y as int, lo as int, hi as int),
{
    let mut cells: Vec<Point> = Vec::new();
    if lo < hi {
        let mut x: i32 = lo + 1;
        while x < hi
            invariant
                lo < x <= hi,
                cells@.len() == x - lo - 1,
                forall|k: int|
                    0 <= k < cells@.len() ==> cells@[k] == (Point { x: (lo + 1 + k) as i32, y }),
            decreases hi - x,
        {
            cells.push(Point { x, y });
            x = x + 1;
        }
    }
    assert(cells@ =~= wall_row(y as int, lo as int, hi as int));
    cells
}

/// The wall that two rectangles have in common, if they are adjacent.
pub fn contact_wall(a: &Rect, b: &Rect) -> (wall: Option<Vec<Point>>)
    ensures
        wall.is_some() == contact(*a, *b).is_some(),
        wall matches Some(cells) ==> contact(*a, *b) == Some(cells@),
{
    let rows = min_of(a.y2, b.y2) > max_of(a.y1, b.y1);
    let columns = min_of(a.x2, b.x2) > max_of(a.x1, b.x1);
    if b.x2 == a.x1 && rows {
        Some(column_between(a.x1, max_of(a.y1, b.y1), min_of(a.y2, b.y2)))
    } else if a.x2 == b.x1 && rows {
        Some(column_between(b.x1, max_of(a.y1, b.y1), min_of(a.y2, b.y2)))
    } else if b.y2 == a.y1 && columns {
        Some(row_between(a.y1, max_of(a.x1, b.x1), min_of(a.x2, b.x2)))
    } else if a.y2 == b.y1 && columns {
        Some(row_between(b.y1, max_of(a.x1, b.x1), min_of(a.x2, b.x2)))
    } else {
        None
    }
}

/// The part of the footprint that is a wall of the room, if there is any.
pub fn footprint_wall(room: &Rect, building: &Rect) -> (wall: Option<Vec<Point>>)
    ensures
        wall.is_some() == touches(*room, *building),
        wall matches Some(cells) ==> cells@ == perimeter_wall(*room, *building),
{
    if room.x1 == building.x1 || room.x2 == building.x2 || room.y1 == building.y1 || room.y2
        == building.y2 {
        let mut cells: Vec<Point> = Vec::new();
        if room.x1 == building.x1 {
            let mut side = column_between(room.x1, room.y1, room.y2);
            cells.append(&mut side);
        }
        if room.x2 == building.x2 {
            let mut side = column_between(room.x2, room.y1, room.y2);
            cells.append(&mut side);
        }
        if room.y1 == building.y1 {
            let mut side = row_between(room.y1, room.x1, room.x2);
            cells.append(&mut side);
        }
        if room.y2 == building.y2 {
            let mut side = row_between(room.y2, room.x1, room.x2);
            cells.append(&mut side);
        }
        assert(cells@ =~= perimeter_wall(*room, *building));
        Some(cells)
    } else {
        None
    }
}

/// A copy of a list of cells.
pub fn copy_cells(cells: &Vec<Point>) -> (copy: Vec<Point>)
    ensures
        copy@ == cells@,
{
    let mut copy: Vec<Point> = Vec::new();
    let mut k: usize = 0;
    while k < cells.len()
        invariant
            0 <= k <= cells@.len(),
            copy@ == cells@.take(k as int),
        decreases cells@.len() - k,
    {
        copy.push(cells[k]);
        assert(cells@.take(k as int + 1) =~= cells@.take(k as int).push(cells@[k as int]));
        k = k + 1;
    }
    assert(cells@.take(k as int) =~= cells@);
    copy
}

/// Builds the adjacency graph of `rooms` within `building`.
///
/// Two distinct rooms are neighbours when they are in contact; the edge is
/// recorded on both, with the same wall. A room that touches the footprint
/// is a neighbour of the outside, again recorded on both. Each list is in
/// index order, a room's edge to the outside last.
pub fn scan_for_neighbors(rooms: &Vec<Rect>, building: Rect) -> (graph: AdjacencyGraph)
    ensures
        graph@ == graph_of(rooms@, building),
{
    let n = rooms.len();
    let mut exterior: Vec<NeighborEdge> = Vec::new();
    let mut lists: Vec<Vec<NeighborEdge>> = Vec::new();
    let mut i: usize = 0;
    while i < n
        invariant
            n == rooms@.len(),
            0 <= i <= n,
            lists@.len() == i,
            forall|k: int|
                0 <= k < i ==> edge_views(#[trigger] lists@[k]@) == room_edges(
                    rooms@,
                    building,
                    k,
                ),
            edge_views(exterior@) == exterior_edges(rooms@, building, i as int),
        decreases n - i,
    {
        let mut edges: Vec<NeighborEdge> = Vec::new();
        let mut j: usize = 0;
        assert(edge_views(edges@) =~= interior_edges(rooms@, i as int, 0));
        while j < n
            invariant
                n == rooms@.len(),
                0 <= i < n,
                0 <= j <= n,
                edge_views(edges@) == interior_edges(rooms@, i as int, j as int),
            decreases n - j,
        {
            let found = if i == j {
                None
            } else if i < j {
                contact_wall(&rooms[i], &rooms[j])
            } else {
                contact_wall(&rooms[j], &rooms[i])
            };
            match found {
                Some(wall) => {
                    let ghost before = edges@;
                    let edge = NeighborEdge { target: RoomId::Interior(j), shared_wall: wall };
                    edges.push(edge);
                    assert(edge_views(edges@) =~= edge_views(before).push(edge@));
                },
                None => {},
            }
            j = j + 1;
        }
        match footprint_wall(&rooms[i], &building) {
            Some(wall) => {
                let ghost before = edges@;
                let ghost outside = exterior@;
                let twin = copy_cells(&wall);
                let outward = NeighborEdge { target: RoomId::Exterior, shared_wall: wall };
                let inward = NeighborEdge { target: RoomId::Interior(i), shared_wall: twin };
                edges.push(outward);
                exterior.push(inward);
                assert(edge_views(edges@) =~= edge_views(before).push(outward@));
                assert(edge_views(exterior@) =~= edge_views(outside).push(inward@));
            },
            None => {},
        }
        lists.push(edges);
        i = i + 1;
    }
    let graph = AdjacencyGraph { exterior, rooms: lists };
    assert(graph@.rooms =~= graph_of(rooms@, building).rooms);
    graph
}

/// Every edge of `interior_edges` leads to a room below `upto` other than
/// `i`, along the wall of that pair; and every such pair in contact has
/// its edge.
pub proof fn lemma_interior_edges(rooms: Seq<Rect>, i: int, upto: int)
    requires
        0 <= upto <= rooms.len() <= usize::MAX,
    ensures
        forall|k: int|
            0 <= k < interior_edges(rooms, i, upto).len() ==> {
                let e = #[trigger] interior_edges(rooms, i, upto)[k];
                &&& e.target matches RoomId::Interior(j)
                &&& j < upto
                &&& j != i
                &&& pair_wall(rooms, i, j as int) == Some(e.wall)
            },
        forall|j: int|
            0 <= j < upto && pair_wall(rooms, i, j).is_some() ==> exists|k: int|
                0 <= k < interior_edges(rooms, i, upto).len() && #[trigger] interior_edges(
                    rooms,
                    i,
                    upto,
                )[k] == (EdgeView {
                    target: RoomId::Interior(j as usize),
                    wall: pair_wall(rooms, i, j).unwrap(),
                }),
        interior_edges(rooms, i, upto).len() <= upto,
    decreases upto,
{
    if upto > 0 {
        lemma_interior_edges(rooms, i, upto - 1);
        let rest = interior_edges(rooms, i, upto - 1);
        let all = interior_edges(rooms, i, upto);
        assert forall|j: int| 0 <= j < upto && pair_wall(rooms, i, j).is_some() implies exists|
            k: int,
        |
            0 <= k < all.len() && #[trigger] all[k] == (EdgeView {
                target: RoomId::Interior(j as usize),
                wall: pair_wall(rooms, i, j).unwrap(),
            }) by {
            let want = EdgeView {
                target: RoomId::Interior(j as usize),
                wall: pair_wall(rooms, i, j).unwrap(),
            };
            if j < upto - 1 {
                let k = choose|k: int| 0 <= k < rest.len() && #[trigger] rest[k] == want;
                assert(all[k] == want);
            } else {
                assert(all[all.len() - 1] == want);
            }
        }
    }
}

/// Every edge of `exterior_edges` leads to a room below `upto` that touches
/// the footprint, along its part of the footprint; and every such room has
/// its edge.
pub proof fn lemma_exterior_edges(rooms: Seq<Rect>, building: Rect, upto: int)
    requires
        0 <= upto <= rooms.len() <= usize::MAX,
    ensures
        forall|k: int|
            0 <= k < exterior_edges(rooms, building, upto).len() ==> {
                let e = #[trigger] exterior_edges(rooms, building, upto)[k];
                &&& e.target matches RoomId::Interior(j)
                &&& j < upto
                &&& touches(rooms[j as int], building)
                &&& e.wall == perimeter_wall(rooms[j as int], building)
            },
        forall|j: int|
            0 <= j < upto && touches(rooms[j], building) ==> exists|k: int|
                0 <= k < exterior_edges(rooms, building, upto).len() && #[trigger] exterior_edges(
                    rooms,
                    building,
                    upto,
                )[k] == (EdgeView {
                    target: RoomId::Interior(j as usize),
                    wall: perimeter_wall(rooms[j], building),
                }),
        exterior_edges(rooms, building, upto).len() <= upto,
    decreases upto,
{
    if upto > 0 {
        lemma_exterior_edges(rooms, building, upto - 1);
        let rest = exterior_edges(rooms, building, upto - 1);
        let all = exterior_edges(rooms, building, upto);
        assert forall|j: int| 0 <= j < upto && touches(rooms[j], building) implies exists|k: int|
            0 <= k < all.len() && #[trigger] all[k] == (EdgeView {
                target: RoomId::Interior(j as usize),
                wall: perimeter_wall(rooms[j], building),
            }) by {
            let want = EdgeView {
                target: RoomId::Interior(j as usize),
                wall: perimeter_wall(rooms[j], building),
            };
            if j < upto - 1 {
                let k = choose|k: int| 0 <= k < rest.len() && #[trigger] rest[k] == want;
                assert(all[k] == want);
            } else {
                assert(all[all.len() - 1] == want);
            }
        }
    }
}

/// The graph that `scan_for_neighbors` builds is undirected: every edge
/// appears twice, once from each end, with the same wall.
pub proof fn lemma_graph_of_wf(rooms: Seq<Rect>, building: Rect)
    requires
        rooms.len() <= usize::MAX,
    ensures
        graph_of(rooms, building).wf(),
        graph_of(rooms, building).rooms.len() == rooms.len(),
{
    let g = graph_of(rooms, building);
    let n = rooms.len() as int;
    lemma_exterior_edges(rooms, building, n);
    assert forall|node: RoomId, k: int|
        #![trigger g.edges(node)[k]]
        g.has_node(node) && 0 <= k < g.edges(node).len() implies {
        &&& g.has_node(g.edges(node)[k].target)
        &&& g.edges(node)[k].target != node
        &&& g.has_edge(g.edges(node)[k].target, EdgeView { target: node, wall: g.edges(node)[k].wall })
    } by {
        let e = g.edges(node)[k];
        match node {
            RoomId::Exterior => {
                let j = e.target->Interior_0 as int;
                lemma_interior_edges(rooms, j, n);
                let back = EdgeView { target: RoomId::Exterior, wall: e.wall };
                let list = g.edges(e.target);
                assert(list == room_edges(rooms, building, j));
                assert(list[list.len() - 1] == back);
            },
            RoomId::Interior(i) => {
                lemma_interior_edges(rooms, i as int, n);
                let inside = interior_edges(rooms, i as int, n);
                assert(g.edges(node) == room_edges(rooms, building, i as int));
                if k < inside.len() {
                    assert(e == inside[k]);
                    let j = e.target->Interior_0 as int;
                    lemma_interior_edges(rooms, j, n);
                    let back = EdgeView { target: node, wall: e.wall };
                    assert(pair_wall(rooms, j, i as int) == pair_wall(rooms, i as int, j));
                    let others = interior_edges(rooms, j, n);
                    let w = choose|w: int| 0 <= w < others.len() && #[trigger] others[w] == back;
                    let list = g.edges(e.target);
                    assert(list == room_edges(rooms, building, j));
                    assert(list[w] == back);
                } else {
                    let back = EdgeView { target: node, wall: e.wall };
                    let w = choose|w: int|
                        0 <= w < g.exterior.len() && #[trigger] g.exterior[w] == back;
                    assert(g.edges(RoomId::Exterior)[w] == back);
                }
            },
        }
    }
}

/// A cell of the wall between two rooms in contact lies on a wall of each.
pub proof fn lemma_contact_cells(a: Rect, b: Rect, m: int)
    requires
        a.x1 <= a.x2 && a.y1 <= a.y2,
        b.x1 <= b.x2 && b.y1 <= b.y2,
        contact(a, b).is_some(),
        0 <= m < contact(a, b).unwrap().len(),
    ensures
        a.on_border(contact(a, b).unwrap()[m].x as int, contact(a, b).unwrap()[m].y as int),
        b.on_border(contact(a, b).unwrap()[m].x as int, contact(a, b).unwrap()[m].y as int),
        contact(a, b).unwrap().len() < (a.x2 - a.x1) + (a.y2 - a.y1),
{
}

/// A cell of a room's part of the footprint lies on a wall of the room.
pub proof fn lemma_perimeter_cells(room: Rect, building: Rect, m: int)
    requires
        room.x1 <= room.x2 && room.y1 <= room.y2,
        0 <= m < perimeter_wall(room, building).len(),
    ensures
        room.on_border(
            perimeter_wall(room, building)[m].x as int,
            perimeter_wall(room, building)[m].y as int,
        ),
        perimeter_wall(room, building).len() <= 2 * (room.x2 - room.x1) + 2 * (room.y2 - room.y1),
{
}

/// Every cell of every shared wall lies on a wall of some room, and no
/// shared wall is longer than the room's own outline.
pub proof fn lemma_graph_walls(rooms: Seq<Rect>, building: Rect, node: RoomId, k: int, m: int)
    requires
        rooms.len() <= usize::MAX,
        orderly(rooms),
        graph_of(rooms, building).has_node(node),
        0 <= k < graph_of(rooms, building).edges(node).len(),
        0 <= m < graph_of(rooms, building).edges(node)[k].wall.len(),
    ensures
        exists|i: int|
            0 <= i < rooms.len() && (#[trigger] rooms[i]).on_border(
                graph_of(rooms, building).edges(node)[k].wall[m].x as int,
                graph_of(rooms, building).edges(node)[k].wall[m].y as int,
            ) && graph_of(rooms, building).edges(node)[k].wall.len() <= 2 * (rooms[i].x2
                - rooms[i].x1) + 2 * (rooms[i].y2 - rooms[i].y1),
{
    let g = graph_of(rooms, building);
    let n = rooms.len() as int;
    let e = g.edges(node)[k];
    lemma_exterior_edges(rooms, building, n);
    match node {
        RoomId::Exterior => {
            let j = e.target->Interior_0 as int;
            lemma_perimeter_cells(rooms[j], building, m);
            assert(rooms[j].on_border(e.wall[m].x as int, e.wall[m].y as int));
        },
        RoomId::Interior(i) => {
            lemma_interior_edges(rooms, i as int, n);
            let inside = interior_edges(rooms, i as int, n);
            assert(g.edges(node) == room_edges(rooms, building, i as int));
            if k < inside.len() {
                assert(e == inside[k]);
                let j = e.target->Interior_0 as int;
                if (i as int) < j {
                    lemma_contact_cells(rooms[i as int], rooms[j], m);
                } else {
                    lemma_contact_cells(rooms[j], rooms[i as int], m);
                }
                assert(rooms[i as int].on_border(e.wall[m].x as int, e.wall[m].y as int));
            } else {
                lemma_perimeter_cells(rooms[i as int], building, m);
                assert(rooms[i as int].on_border(e.wall[m].x as int, e.wall[m].y as int));
            }
        },
    }
}

/// The graph of rooms within a footprint whose outline fits an `i32` can
/// be drawn from.
pub proof fn lemma_graph_of_drawable(rooms: Seq<Rect>, building: Rect)
    requires
        rooms.len() < i32::MAX,
        orderly(rooms),
        housed(rooms, building),
        2 * (building.x2 - building.x1) + 2 * (building.y2 - building.y1) <= i32::MAX,
    ensures
        graph_of(rooms, building).drawable(),
{
    let g = graph_of(rooms, building);
    let n = rooms.len() as int;
    lemma_exterior_edges(rooms, building, n);
    assert forall|node: RoomId, k: int|
        #![trigger g.edges(node)[k]]
        g.has_node(node) && 0 <= k < g.edges(node).len() implies g.edges(node)[k].wall.len()
        <= i32::MAX by {
        if g.edges(node)[k].wall.len() > 0 {
            lemma_graph_walls(rooms, building, node, k, 0);
        }
    }
    assert forall|node: RoomId| g.has_node(node) implies (#[trigger] g.edges(node)).len()
        <= i32::MAX by {
        match node {
            RoomId::Exterior => {},
            RoomId::Interior(i) => {
                lemma_interior_edges(rooms, i as int, n);
                assert(g.edges(node) == room_edges(rooms, building, i as int));
            },
        }
    }
}

/// Within a footprint, every cell of every shared wall is covered by the
/// footprint.
pub proof fn lemma_graph_walls_housed(
    rooms: Seq<Rect>,
    building: Rect,
    node: RoomId,
    k: int,
    m: int,
)
    requires
        rooms.len() <= usize::MAX,
        orderly(rooms),
        housed(rooms, building),
        graph_of(rooms, building).has_node(node),
        0 <= k < graph_of(rooms, building).edges(node).len(),
        0 <= m < graph_of(rooms, building).edges(node)[k].wall.len(),
    ensures
        building.covers(
            graph_of(rooms, building).edges(node)[k].wall[m].x as int,
            graph_of(rooms, building).edges(node)[k].wall[m].y as int,
        ),
{
    lemma_graph_walls(rooms, building, node, k, m);
}

/// Rooms at least two cells wide and high that are near the outside can
/// all be reached from the outside.
pub proof fn lemma_near_outside_reachable(rooms: Seq<Rect>, building: Rect, i: int)
    requires
        rooms.len() <= usize::MAX,
        forall|k: int|
            0 <= k < rooms.len() ==> (#[trigger] rooms[k]).x2 - rooms[k].x1 >= 2 && rooms[k].y2
                - rooms[k].y1 >= 2,
        near_outside(rooms, building),
        0 <= i < rooms.len(),
    ensures
        graph_of(rooms, building).reach(RoomId::Interior(i as usize), 2),
{
    let g = graph_of(rooms, building);
    let n = rooms.len() as int;
    let me = RoomId::Interior(i as usize);
    lemma_exterior_edges(rooms, building, n);
    assert(g.reach(RoomId::Exterior, 0));
    assert(g.reach(RoomId::Exterior, 1));
    if touches(rooms[i], building) {
        lemma_touching_linked(rooms, building, i);
        assert(g.reach(me, 2));
    } else {
        let j = choose|j: int|
            0 <= j < rooms.len() && touches(rooms[j], building) && #[trigger] door_wall(
                rooms,
                j,
                i,
            );
        let via = RoomId::Interior(j as usize);
        lemma_touching_linked(rooms, building, j);
        assert(g.reach(via, 1));
        lemma_interior_edges(rooms, j, n);
        let inside = interior_edges(rooms, j, n);
        let want = EdgeView { target: me, wall: pair_wall(rooms, j, i).unwrap() };
        let k = choose|k: int| 0 <= k < inside.len() && #[trigger] inside[k] == want;
        assert(g.edges(via) == room_edges(rooms, building, j));
        assert(g.edges(via)[k] == want);
        assert(g.linked(via, me));
        assert(g.has_node(via));
        assert(g.reach(me, 2));
    }
}

/// A room at least two cells wide and high that touches the footprint is
/// linked to the outside.
pub proof fn lemma_touching_linked(rooms: Seq<Rect>, building: Rect, i: int)
    requires
        rooms.len() <= usize::MAX,
        0 <= i < rooms.len(),
        rooms[i].x2 - rooms[i].x1 >= 2,
        rooms[i].y2 - rooms[i].y1 >= 2,
        touches(rooms[i], building),
    ensures
        graph_of(rooms, building).linked(RoomId::Exterior, RoomId::Interior(i as usize)),
{
    let g = graph_of(rooms, building);
    let n = rooms.len() as int;
    lemma_exterior_edges(rooms, building, n);
    let want = EdgeView {
        target: RoomId::Interior(i as usize),
        wall: perimeter_wall(rooms[i], building),
    };
    let k = choose|k: int|
        0 <= k < exterior_edges(rooms, building, n).len() && #[trigger] exterior_edges(
            rooms,
            building,
            n,
        )[k] == want;
    assert(g.edges(RoomId::Exterior)[k] == want);
    assert(perimeter_wall(rooms[i], building).len() > 0);
}

} // verus!
