//! Door and window placement over an adjacency graph.
//!
//! The spanning walk starts from the outside and opens one door for every
//! room it reaches, so that each reached room has a chain of doors leading
//! out. Extra doors and windows are scattered afterwards. Every stamp is
//! guarded: only a wall is ever turned into an opening.

use vstd::prelude::*;
use bracket_lib::prelude::RandomNumberGenerator;
use crate::adjacency::{
    graph_of, lemma_graph_of_drawable, lemma_graph_of_wf, lemma_graph_walls,
    lemma_graph_walls_housed, scan_for_neighbors, AdjacencyGraph, EdgeView, GraphView,
    NeighborEdge, RoomId,
};
use crate::geometry::{greater, housed, orderly, Point, Rect};
use crate::grid::{
    differing, lemma_differing_chain, lemma_differing_gain, lemma_differing_none,
    lemma_differing_update, lemma_turned_bound, turned, TileGrid, TileType,
};
use crate::partition::{changed_on_outlines, on_some_outline};
use crate::random::pick_index;

verus! {

/// `node` is the outside or a room marked in `connected`.
pub open spec fn joined(connected: Seq<bool>, node: RoomId) -> bool {
    match node {
        RoomId::Exterior => true,
        RoomId::Interior(i) => i < connected.len() && connected[i as int],
    }
}

/// The number of marked entries.
pub open spec fn marked(flags: Seq<bool>) -> nat
    decreases flags.len(),
{
    if flags.len() == 0 {
        0
    } else {
        marked(flags.drop_last()) + if flags.last() {
            1nat
        } else {
            0nat
        }
    }
}

impl GraphView {
    /// Some edge from `a` to `b` has a door on its wall.
    pub open spec fn doored(self, grid: &TileGrid, a: RoomId, b: RoomId) -> bool {
        exists|k: int, m: int|
            0 <= k < self.edges(a).len() && 0 <= m < self.edges(a)[k].wall.len() && self.edges(
                a,
            )[k].target == b && grid.shows(#[trigger] self.edges(a)[k].wall[m], TileType::Door)
    }

    /// From `room` the outside can be reached in at most `hops` steps, each
    /// through a door on the wall shared with the next node.
    pub open spec fn door_reach(self, grid: &TileGrid, room: RoomId, hops: nat) -> bool
        decreases hops,
    {
        room == RoomId::Exterior || (hops > 0 && exists|via: RoomId|
            self.has_node(via) && #[trigger] self.doored(grid, room, via) && self.door_reach(
                grid,
                via,
                (hops - 1) as nat,
            ))
    }

    /// From `room` a chain of doors leads to the outside.
    pub open spec fn door_connected(self, grid: &TileGrid, room: RoomId) -> bool {
        exists|hops: nat| self.door_reach(grid, room, hops)
    }

    /// Every cell of every shared wall can be stamped and is a wall or a door.
    pub open spec fn walls_closed(self, grid: &TileGrid) -> bool {
        forall|node: RoomId, k: int, m: int|
            #![trigger self.edges(node)[k].wall[m]]
            self.has_node(node) && 0 <= k < self.edges(node).len() && 0 <= m < self.edges(
                node,
            )[k].wall.len() ==> grid.shows(self.edges(node)[k].wall[m], TileType::Wall)
                || grid.shows(self.edges(node)[k].wall[m], TileType::Door)
    }

    /// Array position `i` belongs to a cell of some shared wall.
    pub open spec fn wall_at(self, grid: &TileGrid, i: int) -> bool {
        exists|node: RoomId, k: int, m: int|
            self.has_node(node) && 0 <= k < self.edges(node).len() && 0 <= m < self.edges(
                node,
            )[k].wall.len() && grid.flat(#[trigger] self.edges(node)[k].wall[m]) == i
    }

    /// Array position `i` belongs to a cell of a shared wall that has no
    /// opening in `grid`.
    pub open spec fn intact_wall_at(self, grid: &TileGrid, i: int) -> bool {
        exists|node: RoomId, k: int, m: int|
            self.has_node(node) && 0 <= k < self.edges(node).len() && 0 <= m < self.edges(
                node,
            )[k].wall.len() && grid.flat(#[trigger] self.edges(node)[k].wall[m]) == i
                && grid.wall_intact(self.edges(node)[k].wall)
    }

    /// Array position `i` belongs to a cell of a wall of a room marked in
    /// `connected`.
    pub open spec fn reached_wall_at(self, grid: &TileGrid, connected: Seq<bool>, i: int) -> bool {
        exists|room: int, k: int, m: int|
            0 <= room < self.rooms.len() && room < connected.len() && connected[room] && 0 <= k
                < self.rooms[room].len() && 0 <= m < self.rooms[room][k].wall.len() && grid.flat(
                #[trigger] self.rooms[room][k].wall[m],
            ) == i
    }

    /// Two shared walls that have a cell in common are one and the same
    /// wall, as the two sides of one adjacency are.
    pub open spec fn walls_apart(self, grid: &TileGrid) -> bool {
        forall|a: RoomId, j: int, s: int, b: RoomId, k: int, t: int|
            #![trigger self.edges(a)[j].wall[s], self.edges(b)[k].wall[t]]
            self.has_node(a) && 0 <= j < self.edges(a).len() && 0 <= s < self.edges(
                a,
            )[j].wall.len() && self.has_node(b) && 0 <= k < self.edges(b).len() && 0 <= t
                < self.edges(b)[k].wall.len() && grid.flat(self.edges(a)[j].wall[s]) == grid.flat(
                self.edges(b)[k].wall[t],
            ) ==> self.edges(a)[j].wall == self.edges(b)[k].wall
    }

    /// No shared wall has two cells at which `after` differs from `before`.
    pub open spec fn one_per_wall(self, before: &TileGrid, after: &TileGrid) -> bool {
        forall|node: RoomId, k: int, s: int, t: int|
            #![trigger self.edges(node)[k].wall[s], self.edges(node)[k].wall[t]]
            self.has_node(node) && 0 <= k < self.edges(node).len() && 0 <= s < self.edges(
                node,
            )[k].wall.len() && 0 <= t < self.edges(node)[k].wall.len() && differs_at(
                before,
                after,
                self.edges(node)[k].wall[s],
            ) && differs_at(before, after, self.edges(node)[k].wall[t]) ==> before.flat(
                self.edges(node)[k].wall[s],
            ) == before.flat(self.edges(node)[k].wall[t])
    }

    /// Every shared wall has a cell to open and no opening yet.
    pub open spec fn walls_whole(self, grid: &TileGrid) -> bool {
        forall|node: RoomId, k: int|
            #![trigger self.edges(node)[k]]
            self.has_node(node) && 0 <= k < self.edges(node).len() ==> self.edges(
                node,
            )[k].wall.len() > 0 && grid.wall_intact(self.edges(node)[k].wall)
    }

    /// Every wall shared with the outside has a cell to open and no
    /// opening yet.
    pub open spec fn footprint_whole(self, grid: &TileGrid) -> bool {
        forall|k: int|
            0 <= k < self.exterior.len() ==> (#[trigger] self.exterior[k]).wall.len() > 0
                && grid.wall_intact(self.exterior[k].wall)
    }

    /// Array position `i` belongs to a cell of a wall shared with the outside.
    pub open spec fn footprint_at(self, grid: &TileGrid, i: int) -> bool {
        exists|k: int, m: int|
            0 <= k < self.exterior.len() && 0 <= m < self.exterior[k].wall.len() && grid.flat(
                #[trigger] self.exterior[k].wall[m],
            ) == i
    }

    /// The rooms below `upto` that have a neighbour, in index order.
    pub open spec fn room_keys(self, upto: int) -> Seq<RoomId>
        decreases upto,
    {
        if upto <= 0 {
            Seq::empty()
        } else if self.rooms[upto - 1].len() > 0 {
            self.room_keys(upto - 1).push(RoomId::Interior((upto - 1) as usize))
        } else {
            self.room_keys(upto - 1)
        }
    }

    /// The nodes that have a neighbour: rooms in index order, then the outside.
    pub open spec fn keys(self) -> Seq<RoomId> {
        if self.exterior.len() > 0 {
            self.room_keys(self.rooms.len() as int).push(RoomId::Exterior)
        } else {
            self.room_keys(self.rooms.len() as int)
        }
    }

    /// The edge `k` of `room` leads to a joined node along a wall with room
    /// for a door.
    pub open spec fn eligible(self, connected: Seq<bool>, room: int, k: int) -> bool {
        &&& 0 <= k < self.rooms[room].len()
        &&& joined(connected, self.rooms[room][k].target)
        &&& self.rooms[room][k].wall.len() > 0
    }
}

/// The tile at `p` is not what it was.
pub open spec fn differs_at(before: &TileGrid, after: &TileGrid, p: Point) -> bool {
    before.stampable(p) && after.tiles@[before.flat(p)] != before.tiles@[before.flat(p)]
}

/// Every room marked in `connected` has a chain of doors to the outside.
pub open spec fn all_doored(g: GraphView, grid: &TileGrid, connected: Seq<bool>) -> bool {
    forall|i: int|
        0 <= i < connected.len() && #[trigger] connected[i] ==> g.door_connected(
            grid,
            RoomId::Interior(i as usize),
        )
}

/// The frontier lists exactly the queued rooms, each once.
pub open spec fn frontier_matches(frontier: Seq<usize>, queued: Seq<bool>) -> bool {
    &&& forall|t: int|
        0 <= t < frontier.len() ==> (#[trigger] frontier[t]) < queued.len() && queued[frontier[t] as int]
    &&& forall|t: int, u: int| 0 <= t < u < frontier.len() ==> frontier[t] != frontier[u]
    &&& forall|i: int|
        0 <= i < queued.len() && #[trigger] queued[i] ==> exists|t: int|
            0 <= t < frontier.len() && frontier[t] == i
}

pub proof fn lemma_marked_bounds(flags: Seq<bool>)
    ensures
        marked(flags) <= flags.len(),
    decreases flags.len(),
{
    if flags.len() > 0 {
        lemma_marked_bounds(flags.drop_last());
    }
}

/// Marking one more entry raises the count by one.
pub proof fn lemma_marked_update(flags: Seq<bool>, i: int)
    requires
        0 <= i < flags.len(),
        !flags[i],
    ensures
        marked(flags.update(i, true)) == marked(flags) + 1,
    decreases flags.len(),
{
    let after = flags.update(i, true);
    if i == flags.len() - 1 {
        assert(after.drop_last() =~= flags.drop_last());
    } else {
        lemma_marked_update(flags.drop_last(), i);
        assert(after.drop_last() =~= flags.drop_last().update(i, true));
    }
}

/// A chain of doors stays a chain of doors when no door is closed.
pub proof fn lemma_door_reach_kept(
    g: GraphView,
    before: &TileGrid,
    after: &TileGrid,
    room: RoomId,
    hops: nat,
)
    requires
        after.keeps_openings(before),
        g.door_reach(before, room, hops),
    ensures
        g.door_reach(after, room, hops),
    decreases hops,
{
    if room != RoomId::Exterior {
        let via = choose|via: RoomId|
            g.has_node(via) && #[trigger] g.doored(before, room, via) && g.door_reach(
                before,
                via,
                (hops - 1) as nat,
            );
        lemma_door_reach_kept(g, before, after, via, (hops - 1) as nat);
        let (k, m) = choose|k: int, m: int|
            0 <= k < g.edges(room).len() && 0 <= m < g.edges(room)[k].wall.len() && g.edges(
                room,
            )[k].target == via && before.shows(#[trigger] g.edges(room)[k].wall[m], TileType::Door);
        let cell = g.edges(room)[k].wall[m];
        assert(after.tiles@[before.flat(cell)] == before.tiles@[before.flat(cell)]);
        assert(after.shows(g.edges(room)[k].wall[m], TileType::Door));
        assert(g.doored(after, room, via));
    }
}

/// A set of rooms that is closed under links holds every reachable room.
pub proof fn lemma_closed_holds_reachable(
    g: GraphView,
    connected: Seq<bool>,
    room: RoomId,
    hops: nat,
)
    requires
        g.wf(),
        connected.len() == g.rooms.len(),
        forall|a: RoomId, j: int|
            0 <= j < connected.len() && joined(connected, a) && g.has_node(a) && #[trigger] g.linked(
                a,
                RoomId::Interior(j as usize),
            ) ==> connected[j],
        g.has_node(room),
        g.reach(room, hops),
    ensures
        joined(connected, room),
    decreases hops,
{
    if room != RoomId::Exterior {
        let via = choose|via: RoomId|
            g.has_node(via) && g.reach(via, (hops - 1) as nat) && #[trigger] g.linked(via, room);
        lemma_closed_holds_reachable(g, connected, via, (hops - 1) as nat);
        let j = room->Interior_0;
        assert(g.linked(via, RoomId::Interior(j as int as usize)));
    }
}

/// A list of `n` unmarked flags.
fn unmarked(n: usize) -> (flags: Vec<bool>)
    ensures
        flags@.len() == n,
        forall|i: int| 0 <= i < n ==> !flags@[i],
        marked(flags@) == 0,
{
    let mut flags: Vec<bool> = Vec::new();
    let mut i: usize = 0;
    while i < n
        invariant
            0 <= i <= n,
            flags@.len() == i,
            forall|k: int| 0 <= k < i ==> !flags@[k],
            marked(flags@) == 0,
        decreases n - i,
    {
        let ghost before = flags@;
        flags.push(false);
        assert(flags@.drop_last() =~= before);
        i = i + 1;
    }
    flags
}

/// The rooms that the first `upto` edges of `from` bring to the frontier,
/// in edge order: those across a wall with room for a door that are not
/// connected, were not queued, and have not come up along an earlier edge.
pub open spec fn fresh(
    g: GraphView,
    from: RoomId,
    connected: Seq<bool>,
    queued: Seq<bool>,
    upto: int,
) -> Seq<usize>
    decreases upto,
{
    if upto <= 0 {
        Seq::empty()
    } else {
        let rest = fresh(g, from, connected, queued, upto - 1);
        let edge = g.edges(from)[upto - 1];
        match edge.target {
            RoomId::Interior(j) => if edge.wall.len() > 0 && !connected[j as int]
                && !queued[j as int] && !rest.contains(j) {
                rest.push(j)
            } else {
                rest
            },
            RoomId::Exterior => rest,
        }
    }
}

/// The first `upto` edges of `room` that lead to a joined node along a
/// wall with room for a door, by their position, in order.
pub open spec fn candidates(g: GraphView, connected: Seq<bool>, room: int, upto: int) -> Seq<
    usize,
>
    decreases upto,
{
    if upto <= 0 {
        Seq::empty()
    } else if g.eligible(connected, room, upto - 1) {
        candidates(g, connected, room, upto - 1).push((upto - 1) as usize)
    } else {
        candidates(g, connected, room, upto - 1)
    }
}

/// The rooms next to the outside, queued each once in edge order.
pub fn seed_frontier(graph: &AdjacencyGraph) -> (out: (Vec<usize>, Vec<bool>))
    requires
        graph.wf(),
    ensures
        out.1@.len() == graph@.rooms.len(),
        out.0@ == fresh(
            graph@,
            RoomId::Exterior,
            Seq::new(graph@.rooms.len(), |i: int| false),
            Seq::new(graph@.rooms.len(), |i: int| false),
            graph@.exterior.len() as int,
        ),
        frontier_matches(out.0@, out.1@),
        forall|j: int|
            0 <= j < out.1@.len() ==> (#[trigger] out.1@[j] <==> graph@.linked(
                RoomId::Exterior,
                RoomId::Interior(j as usize),
            )),
{
    let n = graph.rooms.len();
    let connected = unmarked(n);
    let mut queued = unmarked(n);
    let mut frontier: Vec<usize> = Vec::new();
    assert(connected@ =~= Seq::new(graph@.rooms.len(), |i: int| false));
    assert(queued@ =~= Seq::new(graph@.rooms.len(), |i: int| false));
    queue_neighbors(graph, RoomId::Exterior, &connected, &mut queued, &mut frontier);
    assert(frontier@ =~= Seq::<usize>::empty() + frontier@);
    (frontier, queued)
}

/// The edges of `room` that lead to a joined node along a wall with room
/// for a door, by their position in the room's edge list, in order.
pub fn joined_edges(graph: &AdjacencyGraph, room: usize, connected: &Vec<bool>) -> (found: Vec<
    usize,
>)
    requires
        graph.wf(),
        room < graph@.rooms.len(),
        connected@.len() == graph@.rooms.len(),
    ensures
        found@ == candidates(
            graph@,
            connected@,
            room as int,
            graph@.rooms[room as int].len() as int,
        ),
        forall|t: int|
            0 <= t < found@.len() ==> graph@.eligible(connected@, room as int, #[trigger] found@[t] as int),
        forall|k: int|
            graph@.eligible(connected@, room as int, k) ==> exists|t: int|
                0 <= t < found@.len() && #[trigger] found@[t] == k,
        found@.len() <= i32::MAX,
{
    let ghost g = graph@;
    let edges = &graph.rooms[room];
    assert(g.rooms[room as int] == crate::adjacency::edge_views(edges@));
    assert(g.edges(RoomId::Interior(room)) == g.rooms[room as int]);
    let mut found: Vec<usize> = Vec::new();
    let mut k: usize = 0;
    while k < edges.len()
        invariant
            g == graph@,
            graph.wf(),
            room < g.rooms.len(),
            connected@.len() == g.rooms.len(),
            g.rooms[room as int] == crate::adjacency::edge_views(edges@),
            g.edges(RoomId::Interior(room)) == g.rooms[room as int],
            0 <= k <= edges@.len(),
            found@.len() <= k,
            found@ == candidates(g, connected@, room as int, k as int),
            forall|t: int|
                0 <= t < found@.len() ==> g.eligible(connected@, room as int, #[trigger] found@[t] as int),
            forall|c: int|
                0 <= c < k && g.eligible(connected@, room as int, c) ==> exists|t: int|
                    0 <= t < found@.len() && #[trigger] found@[t] == c,
        decreases edges@.len() - k,
    {
        let edge = &edges[k];
        assert(g.rooms[room as int][k as int] == edge@);
        let is_joined = match edge.target {
            RoomId::Exterior => true,
            RoomId::Interior(j) => j < connected.len() && connected[j],
        };
        let ghost before = found@;
        if is_joined && edge.shared_wall.len() > 0 {
            found.push(k);
            assert(found@[before.len() as int] == k);
        }
        assert forall|c: int| 0 <= c < k + 1 && g.eligible(connected@, room as int, c) implies exists|
            t: int,
        | 0 <= t < found@.len() && #[trigger] found@[t] == c by {
            if c < k {
                let t = choose|t: int| 0 <= t < before.len() && #[trigger] before[t] == c;
                assert(found@[t] == c);
            }
        }
        k = k + 1;
    }
    proof {
        assert(g.edges(RoomId::Interior(room)).len() <= i32::MAX);
    }
    found
}

/// Queues every neighbour of `from` that is neither connected nor queued
/// and shares a wall with room for a door, in edge order.
pub fn queue_neighbors(
    graph: &AdjacencyGraph,
    from: RoomId,
    connected: &Vec<bool>,
    queued: &mut Vec<bool>,
    frontier: &mut Vec<usize>,
)
    requires
        graph.wf(),
        graph@.has_node(from),
        connected@.len() == graph@.rooms.len(),
        old(queued)@.len() == graph@.rooms.len(),
        frontier_matches(old(frontier)@, old(queued)@),
    ensures
        final(queued)@.len() == old(queued)@.len(),
        final(frontier)@ == old(frontier)@ + fresh(
            graph@,
            from,
            connected@,
            old(queued)@,
            graph@.edges(from).len() as int,
        ),
        frontier_matches(final(frontier)@, final(queued)@),
        forall|j: int|
            0 <= j < final(queued)@.len() ==> (#[trigger] final(queued)@[j] <==> old(queued)@[j] || (
            !connected@[j] && graph@.linked(from, RoomId::Interior(j as usize)))),
{
    let ghost g = graph@;
    let n = graph.rooms.len();
    let edges: &Vec<NeighborEdge> = match from {
        RoomId::Exterior => &graph.exterior,
        RoomId::Interior(i) => {
            assert(g.rooms[i as int] == crate::adjacency::edge_views(graph.rooms@[i as int]@));
            &graph.rooms[i]
        },
    };
    assert(g.edges(from) == crate::adjacency::edge_views(edges@));
    let mut k: usize = 0;
    assert(frontier@ =~= old(frontier)@ + fresh(g, from, connected@, old(queued)@, 0));
    while k < edges.len()
        invariant
            g == graph@,
            graph.wf(),
            g.has_node(from),
            n == g.rooms.len(),
            connected@.len() == n,
            queued@.len() == n,
            old(queued)@.len() == n,
            g.edges(from) == crate::adjacency::edge_views(edges@),
            0 <= k <= edges@.len(),
            frontier_matches(frontier@, queued@),
            frontier@ == old(frontier)@ + fresh(g, from, connected@, old(queued)@, k as int),
            forall|j: int|
                0 <= j < n ==> (#[trigger] queued@[j] <==> old(queued)@[j] || fresh(
                    g,
                    from,
                    connected@,
                    old(queued)@,
                    k as int,
                ).contains(j as usize)),
            forall|j: int|
                0 <= j < n ==> (#[trigger] queued@[j] <==> old(queued)@[j] || (!connected@[j]
                    && exists|c: int|
                    0 <= c < k && (#[trigger] g.edges(from)[c]).target == RoomId::Interior(
                        j as usize,
                    ) && g.edges(from)[c].wall.len() > 0)),
        decreases edges@.len() - k,
    {
        let edge = &edges[k];
        assert(g.edges(from)[k as int] == edge@);
        assert(g.has_node(g.edges(from)[k as int].target));
        let ghost before = queued@;
        let ghost ahead = frontier@;
        let ghost met = fresh(g, from, connected@, old(queued)@, k as int);
        match edge.target {
            RoomId::Interior(j) => {
                if edge.shared_wall.len() > 0 && !connected[j] && !queued[j] {
                    queued.set(j, true);
                    frontier.push(j);
                    assert(!met.contains(j));
                    assert(frontier@ =~= old(frontier)@ + met.push(j));
                    assert(frontier@[ahead.len() as int] == j);
                    assert forall|i: int| 0 <= i < queued@.len() && #[trigger] queued@[i] implies exists|
                        t: int,
                    | 0 <= t < frontier@.len() && frontier@[t] == i by {
                        if i != j {
                            let t = choose|t: int| 0 <= t < ahead.len() && ahead[t] == i;
                            assert(frontier@[t] == i);
                        }
                    }
                    assert forall|i: int| 0 <= i < n implies (#[trigger] queued@[i] <==> old(
                        queued,
                    )@[i] || met.push(j).contains(i as usize)) by {
                        if i == j {
                            assert(met.push(j)[met.len() as int] == j);
                        } else if met.contains(i as usize) {
                            let t = choose|t: int| 0 <= t < met.len() && met[t] == i as usize;
                            assert(met.push(j)[t] == i as usize);
                        } else if met.push(j).contains(i as usize) {
                            let t = choose|t: int|
                                0 <= t < met.push(j).len() && met.push(j)[t] == i as usize;
                            assert(met[t] == i as usize);
                        }
                    }
                } else {
                    proof {
                        if edge.shared_wall@.len() > 0 && !connected@[j as int] && !old(
                            queued,
                        )@[j as int] {
                            assert(before[j as int]);
                            assert(met.contains(j));
                        }
                    }
                }
            },
            RoomId::Exterior => {},
        }
        assert forall|j: int| 0 <= j < n implies (#[trigger] queued@[j] <==> old(queued)@[j] || (
        !connected@[j] && exists|c: int|
            0 <= c < k + 1 && (#[trigger] g.edges(from)[c]).target == RoomId::Interior(j as usize)
                && g.edges(from)[c].wall.len() > 0)) by {
            if before[j] && !old(queued)@[j] {
                let c = choose|c: int|
                    0 <= c < k && (#[trigger] g.edges(from)[c]).target == RoomId::Interior(
                        j as usize,
                    ) && g.edges(from)[c].wall.len() > 0;
                assert(0 <= c < k + 1);
            }
        }
        k = k + 1;
    }
}

/// One step of the spanning walk: takes the room at position `at` off the
/// frontier, opens a door at cell `spot` of the wall of its edge `choice`
/// if that cell is still a wall, marks the room connected and queues its
/// neighbours.
pub fn connect_room(
    grid: &mut TileGrid,
    graph: &AdjacencyGraph,
    connected: &mut Vec<bool>,
    queued: &mut Vec<bool>,
    frontier: &mut Vec<usize>,
    at: usize,
    choice: usize,
    spot: usize,
)
    requires
        graph.wf(),
        old(connected)@.len() == graph@.rooms.len(),
        old(queued)@.len() == graph@.rooms.len(),
        frontier_matches(old(frontier)@, old(queued)@),
        at < old(frontier)@.len(),
        choice < graph@.rooms[old(frontier)@[at as int] as int].len(),
        spot < graph@.rooms[old(frontier)@[at as int] as int][choice as int].wall.len(),
    ensures
        final(grid).same_shape(old(grid)),
        final(grid).tiles@ == old(grid).opened(
            graph@.rooms[old(frontier)@[at as int] as int][choice as int].wall[spot as int],
            TileType::Door,
        ),
        final(connected)@ == old(connected)@.update(old(frontier)@[at as int] as int, true),
        final(queued)@.len() == old(queued)@.len(),
        final(frontier)@ == old(frontier)@.remove(at as int) + fresh(
            graph@,
            RoomId::Interior(old(frontier)@[at as int]),
            final(connected)@,
            old(queued)@.update(old(frontier)@[at as int] as int, false),
            graph@.rooms[old(frontier)@[at as int] as int].len() as int,
        ),
        frontier_matches(final(frontier)@, final(queued)@),
        forall|j: int|
            0 <= j < final(queued)@.len() ==> (#[trigger] final(queued)@[j] <==> (old(queued)@[j]
                && j != old(frontier)@[at as int]) || (!final(connected)@[j] && graph@.linked(
                RoomId::Interior(old(frontier)@[at as int]),
                RoomId::Interior(j as usize),
            ))),
{
    let ghost g = graph@;
    let ghost waiting = frontier@;
    let ghost was_queued = queued@;
    let room = frontier.remove(at);
    queued.set(room, false);
    proof {
        lemma_frontier_pop(waiting, at as int, was_queued);
    }
    let edge = &graph.rooms[room][choice];
    assert(g.rooms[room as int] == crate::adjacency::edge_views(graph.rooms@[room as int]@));
    assert(g.edges(RoomId::Interior(room)) == g.rooms[room as int]);
    assert(g.rooms[room as int][choice as int] == edge@);
    let cell = edge.shared_wall[spot];
    grid.open_wall(cell, TileType::Door);
    connected.set(room, true);
    queue_neighbors(graph, RoomId::Interior(room), connected, queued, frontier);
}

/// Every queued room has a wall, with room for a door, in common with a
/// node that is joined.
pub open spec fn owed(g: GraphView, connected: Seq<bool>, queued: Seq<bool>) -> bool {
    forall|i: int|
        0 <= i < queued.len() && #[trigger] queued[i] ==> exists|b: RoomId|
            joined(connected, b) && g.has_node(b) && #[trigger] g.linked(
                RoomId::Interior(i as usize),
                b,
            )
}

/// Every room linked from a joined node is connected or queued.
pub open spec fn closed_under(g: GraphView, connected: Seq<bool>, queued: Seq<bool>) -> bool {
    forall|a: RoomId, j: int|
        0 <= j < connected.len() && joined(connected, a) && g.has_node(a) && #[trigger] g.linked(
            a,
            RoomId::Interior(j as usize),
        ) ==> connected[j] || queued[j]
}

/// Every connected and every queued room can be reached from the outside.
pub open spec fn all_reachable(g: GraphView, connected: Seq<bool>, queued: Seq<bool>) -> bool {
    forall|i: int|
        #![trigger connected[i]]
        #![trigger queued[i]]
        0 <= i < connected.len() && (connected[i] || queued[i]) ==> g.reachable(
            RoomId::Interior(i as usize),
        )
}

/// What a step of the walk does to the flags: the room is connected and
/// no longer queued, and its unconnected neighbours are queued.
pub open spec fn stepped(
    g: GraphView,
    was_connected: Seq<bool>,
    was_queued: Seq<bool>,
    connected: Seq<bool>,
    queued: Seq<bool>,
    room: int,
) -> bool {
    &&& g.rooms.len() <= usize::MAX
    &&& was_connected.len() == g.rooms.len()
    &&& was_queued.len() == g.rooms.len()
    &&& queued.len() == g.rooms.len()
    &&& 0 <= room < g.rooms.len()
    &&& was_queued[room]
    &&& !was_connected[room]
    &&& connected == was_connected.update(room, true)
    &&& forall|j: int|
        0 <= j < queued.len() ==> (#[trigger] queued[j] <==> (was_queued[j] && j != room) || (
        !connected[j] && g.linked(RoomId::Interior(room as usize), RoomId::Interior(j as usize))))
}

/// A step keeps every queued room next to a joined node.
pub proof fn lemma_step_owed(
    g: GraphView,
    was_connected: Seq<bool>,
    was_queued: Seq<bool>,
    connected: Seq<bool>,
    queued: Seq<bool>,
    room: int,
)
    requires
        g.wf(),
        stepped(g, was_connected, was_queued, connected, queued, room),
        owed(g, was_connected, was_queued),
    ensures
        owed(g, connected, queued),
{
    let here = RoomId::Interior(room as usize);
    assert forall|i: int| 0 <= i < queued.len() && #[trigger] queued[i] implies exists|b: RoomId|
        joined(connected, b) && g.has_node(b) && #[trigger] g.linked(
            RoomId::Interior(i as usize),
            b,
        ) by {
        if was_queued[i] && i != room {
            let b = choose|b: RoomId|
                joined(was_connected, b) && g.has_node(b) && #[trigger] g.linked(
                    RoomId::Interior(i as usize),
                    b,
                );
            assert(joined(connected, b));
        } else {
            assert(g.linked(here, RoomId::Interior(i as usize)));
            lemma_linked_back(g, here, RoomId::Interior(i as usize));
            assert(joined(connected, here));
        }
    }
}

/// A step keeps the connected and queued rooms closed under links.
pub proof fn lemma_step_closed(
    g: GraphView,
    was_connected: Seq<bool>,
    was_queued: Seq<bool>,
    connected: Seq<bool>,
    queued: Seq<bool>,
    room: int,
)
    requires
        stepped(g, was_connected, was_queued, connected, queued, room),
        closed_under(g, was_connected, was_queued),
    ensures
        closed_under(g, connected, queued),
{
    let here = RoomId::Interior(room as usize);
    assert forall|a: RoomId, j: int|
        0 <= j < connected.len() && joined(connected, a) && g.has_node(a) && #[trigger] g.linked(
            a,
            RoomId::Interior(j as usize),
        ) implies connected[j] || queued[j] by {
        if a == here {
        } else {
            assert(joined(was_connected, a));
            assert(was_connected[j] || was_queued[j]);
        }
    }
}

/// A step connects and queues only rooms that can be reached.
pub proof fn lemma_step_reachable(
    g: GraphView,
    was_connected: Seq<bool>,
    was_queued: Seq<bool>,
    connected: Seq<bool>,
    queued: Seq<bool>,
    room: int,
)
    requires
        stepped(g, was_connected, was_queued, connected, queued, room),
        all_reachable(g, was_connected, was_queued),
    ensures
        all_reachable(g, connected, queued),
{
    let here = RoomId::Interior(room as usize);
    assert forall|i: int|
        #![trigger connected[i]]
        #![trigger queued[i]]
        0 <= i < connected.len() && (connected[i] || queued[i]) implies g.reachable(
        RoomId::Interior(i as usize),
    ) by {
        let it = RoomId::Interior(i as usize);
        if was_connected[i] || was_queued[i] {
            assert(g.reachable(it));
        } else {
            assert(was_queued[room]);
            assert(g.reachable(here));
            let hops = choose|hops: nat| g.reach(here, hops);
            assert(g.linked(here, it));
            assert(g.has_node(here));
            assert(g.reach(it, hops + 1));
        }
    }
}

/// Only walls of connected rooms have changed, to doors, and no more tiles
/// than there are connected rooms.
pub open spec fn walls_only(
    g: GraphView,
    first: &TileGrid,
    grid: &TileGrid,
    connected: Seq<bool>,
) -> bool {
    &&& grid.opened_from(first, TileType::Door)
    &&& forall|i: int|
        0 <= i < grid.tiles@.len() && #[trigger] grid.tiles@[i] != first.tiles@[i]
            ==> g.reached_wall_at(first, connected, i)
    &&& differing(first.tiles@, grid.tiles@, grid.tiles@.len() as int) <= marked(connected)
}

/// A step changes at most the one cell it opens, on a wall of the room it
/// connects.
pub proof fn lemma_step_walls(
    g: GraphView,
    first: &TileGrid,
    prior: &TileGrid,
    after: &TileGrid,
    was_connected: Seq<bool>,
    room: int,
    choice: int,
    spot: int,
)
    requires
        g.rooms.len() <= usize::MAX,
        walls_only(g, first, prior, was_connected),
        was_connected.len() == g.rooms.len(),
        0 <= room < g.rooms.len(),
        !was_connected[room],
        0 <= choice < g.rooms[room].len(),
        0 <= spot < g.rooms[room][choice].wall.len(),
        after.same_shape(prior),
        after.tiles@ == prior.opened(g.rooms[room][choice].wall[spot], TileType::Door),
    ensures
        walls_only(g, first, after, was_connected.update(room, true)),
        after.keeps_openings(prior),
{
    let connected = was_connected.update(room, true);
    let cell = g.rooms[room][choice].wall[spot];
    lemma_marked_update(was_connected, room);
    if prior.shows(cell, TileType::Wall) {
        lemma_differing_update(
            first.tiles@,
            prior.tiles@,
            prior.flat(cell),
            TileType::Door,
            prior.tiles@.len() as int,
        );
    }
    assert forall|i: int|
        0 <= i < after.tiles@.len() && #[trigger] after.tiles@[i]
            != first.tiles@[i] implies g.reached_wall_at(first, connected, i) by {
        if prior.tiles@[i] == first.tiles@[i] {
            assert(first.flat(g.rooms[room][choice].wall[spot]) == i);
            assert(connected[room]);
        } else {
            let (r, k, m) = choose|r: int, k: int, m: int|
                0 <= r < g.rooms.len() && r < was_connected.len() && was_connected[r] && 0 <= k
                    < g.rooms[r].len() && 0 <= m < g.rooms[r][k].wall.len() && first.flat(
                    #[trigger] g.rooms[r][k].wall[m],
                ) == i;
            assert(connected[r]);
            assert(first.flat(g.rooms[r][k].wall[m]) == i);
        }
    }
}

/// A step gives the room it connects a chain of doors, and keeps the
/// chains of the rooms connected before, if every shared wall was intact.
pub proof fn lemma_step_doors(
    g: GraphView,
    first: &TileGrid,
    prior: &TileGrid,
    after: &TileGrid,
    was_connected: Seq<bool>,
    room: int,
    choice: int,
    spot: int,
)
    requires
        g.rooms.len() <= usize::MAX,
        g.walls_closed(first),
        prior.opened_from(first, TileType::Door),
        all_doored(g, prior, was_connected),
        was_connected.len() == g.rooms.len(),
        0 <= room < g.rooms.len(),
        g.eligible(was_connected, room, choice),
        0 <= spot < g.rooms[room][choice].wall.len(),
        after.same_shape(prior),
        after.tiles@ == prior.opened(g.rooms[room][choice].wall[spot], TileType::Door),
    ensures
        all_doored(g, after, was_connected.update(room, true)),
{
    let connected = was_connected.update(room, true);
    let here = RoomId::Interior(room as usize);
    assert(g.edges(here) == g.rooms[room]);
    assert(g.has_node(here));
    let target = g.edges(here)[choice].target;
    let cell = g.edges(here)[choice].wall[spot];
    assert(first.shows(cell, TileType::Wall) || first.shows(cell, TileType::Door));
    assert(prior.tiles@[first.flat(cell)] == first.tiles@[first.flat(cell)] || prior.tiles@[first.flat(
        cell,
    )] == TileType::Door);
    assert(after.shows(cell, TileType::Door));
    assert(g.doored(after, here, target));
    assert(after.keeps_openings(prior));
    assert forall|i: int| 0 <= i < connected.len() && #[trigger] connected[i] implies g.door_connected(
        after,
        RoomId::Interior(i as usize),
    ) by {
        if i == room {
            if target == RoomId::Exterior {
                assert(g.door_reach(after, target, 0));
                assert(g.door_reach(after, here, 1));
            } else {
                let c = target->Interior_0;
                assert(was_connected[c as int]);
                assert(target == RoomId::Interior(c as int as usize));
                assert(g.door_connected(prior, target));
                let hops = choose|hops: nat| g.door_reach(prior, target, hops);
                lemma_door_reach_kept(g, prior, after, target, hops);
                assert(g.has_node(target));
                assert(g.door_reach(after, here, hops + 1));
            }
        } else {
            assert(was_connected[i]);
            let other = RoomId::Interior(i as usize);
            assert(g.door_connected(prior, other));
            let hops = choose|hops: nat| g.door_reach(prior, other, hops);
            lemma_door_reach_kept(g, prior, after, other, hops);
        }
    }
}

/// At the start of the walk, with the rooms next to the outside queued,
/// every queued room is owed its door, the flags are closed under links
/// and every flagged room can be reached.
pub proof fn lemma_walk_start(g: GraphView, connected: Seq<bool>, queued: Seq<bool>)
    requires
        g.wf(),
        g.rooms.len() <= usize::MAX,
        connected.len() == g.rooms.len(),
        queued.len() == g.rooms.len(),
        forall|i: int| 0 <= i < connected.len() ==> !connected[i],
        forall|j: int|
            0 <= j < queued.len() ==> (#[trigger] queued[j] <==> g.linked(
                RoomId::Exterior,
                RoomId::Interior(j as usize),
            )),
    ensures
        owed(g, connected, queued),
        closed_under(g, connected, queued),
        all_reachable(g, connected, queued),
{
    assert forall|i: int|
        #![trigger connected[i]]
        #![trigger queued[i]]
        0 <= i < connected.len() && (connected[i] || queued[i]) implies g.reachable(
        RoomId::Interior(i as usize),
    ) by {
        let it = RoomId::Interior(i as usize);
        assert(g.reach(RoomId::Exterior, 0));
        assert(g.linked(RoomId::Exterior, it));
        assert(g.reach(it, 1));
    }
    assert forall|i: int| 0 <= i < queued.len() && #[trigger] queued[i] implies exists|b: RoomId|
        joined(connected, b) && g.has_node(b) && #[trigger] g.linked(
            RoomId::Interior(i as usize),
            b,
        ) by {
        lemma_linked_back(g, RoomId::Exterior, RoomId::Interior(i as usize));
    }
}

/// With nothing left on the frontier, the connected rooms are exactly the
/// rooms that can be reached.
pub proof fn lemma_walk_end(g: GraphView, connected: Seq<bool>, queued: Seq<bool>)
    requires
        g.wf(),
        g.rooms.len() <= usize::MAX,
        connected.len() == g.rooms.len(),
        queued.len() == g.rooms.len(),
        forall|i: int| 0 <= i < queued.len() ==> !queued[i],
        closed_under(g, connected, queued),
        all_reachable(g, connected, queued),
    ensures
        forall|i: int|
            0 <= i < connected.len() ==> (#[trigger] connected[i] <==> g.reachable(
                RoomId::Interior(i as usize),
            )),
{
    assert forall|i: int| 0 <= i < connected.len() implies (#[trigger] connected[i]
        <==> g.reachable(RoomId::Interior(i as usize))) by {
        let it = RoomId::Interior(i as usize);
        if g.reachable(it) {
            let hops = choose|hops: nat| g.reach(it, hops);
            assert forall|a: RoomId, j: int|
                0 <= j < connected.len() && joined(connected, a) && g.has_node(a)
                    && #[trigger] g.linked(a, RoomId::Interior(j as usize)) implies connected[j] by {
                assert(connected[j] || queued[j]);
            }
            lemma_closed_holds_reachable(g, connected, it, hops);
        }
    }
}

/// The spanning walk. Starting from the outside, repeatedly takes a
/// random room off the frontier, opens a door on a random cell of a random
/// wall that it shares with a node already connected, marks it connected
/// and queues its neighbours.
///
/// The result marks exactly the rooms that the graph connects to the
/// outside. Only walls of marked rooms change, and only from wall to door,
/// one tile per marked room at most. If every shared wall was intact on
/// entry, every marked room ends with a chain of doors to the outside.
pub fn ensure_random_connectivity(
    grid: &mut TileGrid,
    rng: &mut RandomNumberGenerator,
    graph: &AdjacencyGraph,
) -> (connected: Vec<bool>)
    requires
        graph.wf(),
    ensures
        final(grid).opened_from(old(grid), TileType::Door),
        final(grid).keeps_openings(old(grid)),
        forall|i: int|
            0 <= i < final(grid).tiles@.len() && #[trigger] final(grid).tiles@[i] != old(
                grid,
            ).tiles@[i] ==> graph@.wall_at(old(grid), i),
        forall|i: int|
            0 <= i < final(grid).tiles@.len() && #[trigger] final(grid).tiles@[i] != old(
                grid,
            ).tiles@[i] ==> graph@.reached_wall_at(old(grid), connected@, i),
        connected@.len() == graph@.rooms.len(),
        forall|i: int|
            0 <= i < connected@.len() ==> (#[trigger] connected@[i] <==> graph@.reachable(
                RoomId::Interior(i as usize),
            )),
        graph@.walls_closed(old(grid)) ==> all_doored(graph@, final(grid), connected@),
        differing(old(grid).tiles@, final(grid).tiles@, final(grid).tiles@.len() as int) <= marked(
            connected@,
        ),
{
    let ghost g = graph@;
    let n = graph.rooms.len();
    let mut connected = unmarked(n);
    let (mut frontier, mut queued) = seed_frontier(graph);
    proof {
        lemma_differing_none(grid.tiles@, grid.tiles@.len() as int);
        lemma_walk_start(g, connected@, queued@);
    }
    while frontier.len() > 0
        invariant
            g == graph@,
            graph.wf(),
            n == g.rooms.len(),
            connected@.len() == n,
            queued@.len() == n,
            frontier_matches(frontier@, queued@),
            forall|i: int| 0 <= i < n && #[trigger] queued@[i] ==> !connected@[i],
            owed(g, connected@, queued@),
            closed_under(g, connected@, queued@),
            all_reachable(g, connected@, queued@),
            walls_only(g, old(grid), grid, connected@),
            g.walls_closed(old(grid)) ==> all_doored(g, grid, connected@),
        decreases n - marked(connected@),
    {
        proof {
            lemma_marked_bounds(connected@);
            assert(frontier@.len() <= i32::MAX) by {
                lemma_distinct_bounded(frontier@, n as nat);
            }
        }
        let at = pick_index(rng, frontier.len());
        let ghost was_queued = queued@;
        let ghost was_connected = connected@;
        let room = frontier[at];
        let ghost here = RoomId::Interior(room);
        let found = joined_edges(graph, room, &connected);
        proof {
            assert(was_queued[room as int]);
            let b = choose|b: RoomId|
                joined(connected@, b) && g.has_node(b) && #[trigger] g.linked(here, b);
            let k = choose|k: int|
                0 <= k < g.edges(here).len() && (#[trigger] g.edges(here)[k]).target == b
                    && g.edges(here)[k].wall.len() > 0;
            assert(g.eligible(connected@, room as int, k));
        }
        let choice = found[pick_index(rng, found.len())];
        let edge = &graph.rooms[room][choice];
        assert(g.rooms[room as int] == crate::adjacency::edge_views(graph.rooms@[room as int]@));
        assert(g.rooms[room as int][choice as int] == edge@);
        let spot = pick_index(rng, edge.shared_wall.len());
        let ghost prior = *grid;
        connect_room(grid, graph, &mut connected, &mut queued, &mut frontier, at, choice, spot);
        proof {
            assert(!was_connected[room as int]);
            assert(stepped(g, was_connected, was_queued, connected@, queued@, room as int));
            lemma_step_owed(g, was_connected, was_queued, connected@, queued@, room as int);
            lemma_step_closed(g, was_connected, was_queued, connected@, queued@, room as int);
            lemma_step_reachable(g, was_connected, was_queued, connected@, queued@, room as int);
            lemma_step_walls(
                g,
                old(grid),
                &prior,
                grid,
                was_connected,
                room as int,
                choice as int,
                spot as int,
            );
            if g.walls_closed(old(grid)) {
                lemma_step_doors(
                    g,
                    old(grid),
                    &prior,
                    grid,
                    was_connected,
                    room as int,
                    choice as int,
                    spot as int,
                );
            }
            lemma_marked_update(was_connected, room as int);
            lemma_marked_bounds(connected@);
        }
    }
    proof {
        assert forall|i: int| 0 <= i < n implies !queued@[i] by {
            if queued@[i] {
                let t = choose|t: int| 0 <= t < frontier@.len() && frontier@[t] == i;
            }
        }
        lemma_walk_end(g, connected@, queued@);
        assert forall|i: int|
            0 <= i < grid.tiles@.len() && #[trigger] grid.tiles@[i] != old(
                grid,
            ).tiles@[i] implies g.wall_at(old(grid), i) by {
            let (r, k, m) = choose|r: int, k: int, m: int|
                0 <= r < g.rooms.len() && r < connected@.len() && connected@[r] && 0 <= k
                    < g.rooms[r].len() && 0 <= m < g.rooms[r][k].wall.len() && old(grid).flat(
                    #[trigger] g.rooms[r][k].wall[m],
                ) == i;
            let node = RoomId::Interior(r as usize);
            assert(g.edges(node) == g.rooms[r]);
            assert(g.has_node(node));
            assert(old(grid).flat(g.edges(node)[k].wall[m]) == i);
        }
    }
    connected
}

/// In a well-formed graph a link can be followed back.
pub proof fn lemma_linked_back(g: GraphView, a: RoomId, b: RoomId)
    requires
        g.wf(),
        g.has_node(a),
        g.linked(a, b),
    ensures
        g.linked(b, a),
        g.has_node(b),
{
    let k = choose|k: int|
        0 <= k < g.edges(a).len() && (#[trigger] g.edges(a)[k]).target == b && g.edges(
            a,
        )[k].wall.len() > 0;
    let back = EdgeView { target: a, wall: g.edges(a)[k].wall };
    let w = choose|w: int| 0 <= w < g.edges(b).len() && #[trigger] g.edges(b)[w] == back;
    assert(g.edges(b)[w].target == a);
}

/// A list of distinct numbers below `bound` is no longer than `bound`.
pub proof fn lemma_distinct_bounded(list: Seq<usize>, bound: nat)
    requires
        forall|t: int| 0 <= t < list.len() ==> (#[trigger] list[t]) < bound,
        forall|t: int, u: int| 0 <= t < u < list.len() ==> list[t] != list[u],
    ensures
        list.len() <= bound,
    decreases bound,
{
    if list.len() > 0 {
        if bound == 0 {
            assert(list[0] < bound);
        } else {
            let top = (bound - 1) as usize;
            if exists|p: int| 0 <= p < list.len() && list[p] == top {
                let p = choose|p: int| 0 <= p < list.len() && list[p] == top;
                let rest = list.remove(p);
                assert forall|t: int| 0 <= t < rest.len() implies (#[trigger] rest[t]) < bound
                    - 1 by {
                    if t < p {
                        assert(rest[t] == list[t]);
                    } else {
                        assert(rest[t] == list[t + 1]);
                    }
                }
                lemma_distinct_bounded(rest, (bound - 1) as nat);
            } else {
                lemma_distinct_bounded(list, (bound - 1) as nat);
            }
        }
    }
}

/// Taking a room off the frontier and clearing its flag keeps the frontier
/// and the flags in step.
pub proof fn lemma_frontier_pop(frontier: Seq<usize>, at: int, queued: Seq<bool>)
    requires
        frontier_matches(frontier, queued),
        0 <= at < frontier.len(),
    ensures
        frontier_matches(frontier.remove(at), queued.update(frontier[at] as int, false)),
{
    let rest = frontier.remove(at);
    let flags = queued.update(frontier[at] as int, false);
    assert forall|t: int| 0 <= t < rest.len() implies (#[trigger] rest[t]) < flags.len()
        && flags[rest[t] as int] by {
        if t < at {
            assert(rest[t] == frontier[t]);
        } else {
            assert(rest[t] == frontier[t + 1]);
        }
    }
    assert forall|t: int, u: int| 0 <= t < u < rest.len() implies rest[t] != rest[u] by {
        let t0 = if t < at { t } else { t + 1 };
        let u0 = if u < at { u } else { u + 1 };
        assert(rest[t] == frontier[t0] && rest[u] == frontier[u0]);
    }
    assert forall|i: int| 0 <= i < flags.len() && #[trigger] flags[i] implies exists|t: int|
        0 <= t < rest.len() && rest[t] == i by {
        let t = choose|t: int| 0 <= t < frontier.len() && frontier[t] == i;
        if t < at {
            assert(rest[t] == i);
        } else {
            assert(rest[t - 1] == i);
        }
    }
}

/// Every key is a node with at least one edge, and there are no more keys
/// than rooms.
pub proof fn lemma_room_keys(g: GraphView, upto: int)
    requires
        0 <= upto <= g.rooms.len() <= usize::MAX,
    ensures
        g.room_keys(upto).len() <= upto,
        forall|t: int|
            0 <= t < g.room_keys(upto).len() ==> g.has_node(#[trigger] g.room_keys(upto)[t])
                && g.edges(g.room_keys(upto)[t]).len() > 0,
    decreases upto,
{
    if upto > 0 {
        lemma_room_keys(g, upto - 1);
    }
}

/// The nodes of the graph that have a neighbour.
pub fn node_keys(graph: &AdjacencyGraph) -> (keys: Vec<RoomId>)
    ensures
        keys@ == graph@.keys(),
{
    let ghost g = graph@;
    let n = graph.rooms.len();
    let mut keys: Vec<RoomId> = Vec::new();
    let mut i: usize = 0;
    while i < n
        invariant
            g == graph@,
            n == g.rooms.len(),
            n == graph.rooms@.len(),
            0 <= i <= n,
            keys@ == g.room_keys(i as int),
        decreases n - i,
    {
        assert(g.rooms[i as int] == crate::adjacency::edge_views(graph.rooms@[i as int]@));
        if graph.rooms[i].len() > 0 {
            keys.push(RoomId::Interior(i));
        }
        i = i + 1;
    }
    if graph.exterior.len() > 0 {
        keys.push(RoomId::Exterior);
    }
    keys
}

/// Opening one cell of a wall that is still whole keeps every wall at one
/// changed cell at most, where walls that share a cell are the same wall.
pub proof fn lemma_one_more_per_wall(
    g: GraphView,
    first: &TileGrid,
    prior: &TileGrid,
    after: &TileGrid,
    node: RoomId,
    k: int,
    spot: int,
)
    requires
        g.walls_apart(first),
        g.one_per_wall(first, prior),
        prior.opened_from(first, TileType::Door),
        g.has_node(node),
        0 <= k < g.edges(node).len(),
        0 <= spot < g.edges(node)[k].wall.len(),
        prior.wall_intact(g.edges(node)[k].wall),
        after.same_shape(prior),
        after.tiles@ == prior.tiles@.update(
            prior.flat(g.edges(node)[k].wall[spot]),
            TileType::Door,
        ),
    ensures
        g.one_per_wall(first, after),
{
    let wall = g.edges(node)[k].wall;
    let cell = wall[spot];
    let at = first.flat(cell);
    assert forall|n2: RoomId, k2: int, s: int, t: int|
        #![trigger g.edges(n2)[k2].wall[s], g.edges(n2)[k2].wall[t]]
        g.has_node(n2) && 0 <= k2 < g.edges(n2).len() && 0 <= s < g.edges(n2)[k2].wall.len() && 0
            <= t < g.edges(n2)[k2].wall.len() && differs_at(first, after, g.edges(n2)[k2].wall[s])
            && differs_at(first, after, g.edges(n2)[k2].wall[t]) implies first.flat(
        g.edges(n2)[k2].wall[s],
    ) == first.flat(g.edges(n2)[k2].wall[t]) by {
        let other = g.edges(n2)[k2].wall;
        let fs = first.flat(other[s]);
        let ft = first.flat(other[t]);
        if fs != ft {
            if fs != at && ft != at {
                assert(differs_at(first, prior, other[s]));
                assert(differs_at(first, prior, other[t]));
            } else {
                let (here, there) = if fs == at {
                    (s, t)
                } else {
                    (t, s)
                };
                assert(first.flat(g.edges(n2)[k2].wall[here]) == first.flat(
                    g.edges(node)[k].wall[spot],
                ));
                assert(other == wall);
                assert(prior.shows(wall[there], TileType::Wall));
                assert(prior.tiles@[first.flat(wall[there])] == first.tiles@[first.flat(
                    wall[there],
                )]);
                assert(differs_at(first, prior, other[there]));
            }
        }
    }
}

/// One attempt at an extra door, on the wall of edge `edge` of `node` and
/// at cell `spot` of it: the cell becomes a door if the whole wall is still
/// wall, and nothing changes otherwise. Returns whether the door was
/// opened.
pub fn try_extra_door(
    grid: &mut TileGrid,
    graph: &AdjacencyGraph,
    node: RoomId,
    edge: usize,
    spot: usize,
) -> (opened: bool)
    requires
        graph.wf(),
        graph@.has_node(node),
        edge < graph@.edges(node).len(),
        spot < graph@.edges(node)[edge as int].wall.len(),
    ensures
        opened == old(grid).wall_intact(graph@.edges(node)[edge as int].wall),
        final(grid).same_shape(old(grid)),
        final(grid).tiles@ == if opened {
            old(grid).tiles@.update(
                old(grid).flat(graph@.edges(node)[edge as int].wall[spot as int]),
                TileType::Door,
            )
        } else {
            old(grid).tiles@
        },
{
    let ghost g = graph@;
    let edges: &Vec<NeighborEdge> = match node {
        RoomId::Exterior => &graph.exterior,
        RoomId::Interior(i) => {
            assert(g.rooms[i as int] == crate::adjacency::edge_views(graph.rooms@[i as int]@));
            &graph.rooms[i]
        },
    };
    assert(g.edges(node) == crate::adjacency::edge_views(edges@));
    let chosen = &edges[edge];
    assert(g.edges(node)[edge as int] == chosen@);
    if grid.is_wall_intact(&chosen.shared_wall) {
        assert(grid.shows(chosen.shared_wall@[spot as int], TileType::Wall));
        grid.open_wall(chosen.shared_wall[spot], TileType::Door);
        true
    } else {
        false
    }
}

/// One attempt at a window, on the wall of edge `edge` of the outside and
/// at cell `spot` of it: the cell becomes a window if it is still a wall,
/// and nothing changes otherwise. Returns whether the window was opened.
pub fn try_window(grid: &mut TileGrid, graph: &AdjacencyGraph, edge: usize, spot: usize) -> (opened:
    bool)
    requires
        graph.wf(),
        edge < graph@.exterior.len(),
        spot < graph@.exterior[edge as int].wall.len(),
    ensures
        opened == old(grid).shows(graph@.exterior[edge as int].wall[spot as int], TileType::Wall),
        final(grid).same_shape(old(grid)),
        final(grid).tiles@ == if opened {
            old(grid).tiles@.update(
                old(grid).flat(graph@.exterior[edge as int].wall[spot as int]),
                TileType::Window,
            )
        } else {
            old(grid).tiles@
        },
{
    let ghost g = graph@;
    assert(g.edges(RoomId::Exterior) == g.exterior);
    let chosen = &graph.exterior[edge];
    assert(g.exterior[edge as int] == chosen@);
    grid.open_wall(chosen.shared_wall[spot], TileType::Window)
}

/// Scatters extra doors. Each attempt draws a node that has neighbours, one
/// of its edges and, only if the edge's whole wall is still wall, a cell of
/// it, and makes one `try_extra_door` there.
///
/// Only walls change, and only to doors; each new door is on a shared wall
/// that had no opening on entry. An attempt opens one door or none, so no
/// more tiles change than there are attempts; and where every shared wall
/// is whole on entry, the first attempt opens its door whatever is drawn.
/// Where walls that share a cell are the same wall, no wall gets a second
/// door.
pub fn add_random_doors(
    grid: &mut TileGrid,
    rng: &mut RandomNumberGenerator,
    graph: &AdjacencyGraph,
    attempts: i32,
)
    requires
        graph.wf(),
    ensures
        final(grid).opened_from(old(grid), TileType::Door),
        final(grid).keeps_openings(old(grid)),
        forall|i: int|
            0 <= i < final(grid).tiles@.len() && #[trigger] final(grid).tiles@[i] != old(
                grid,
            ).tiles@[i] ==> graph@.intact_wall_at(old(grid), i),
        attempts <= 0 || graph@.keys().len() == 0 ==> final(grid).tiles@ == old(grid).tiles@,
        attempts >= 0 ==> differing(
            old(grid).tiles@,
            final(grid).tiles@,
            final(grid).tiles@.len() as int,
        ) <= attempts,
        attempts >= 1 && graph@.keys().len() > 0 && graph@.walls_whole(old(grid)) ==> differing(
            old(grid).tiles@,
            final(grid).tiles@,
            final(grid).tiles@.len() as int,
        ) >= 1,
        graph@.walls_apart(old(grid)) ==> graph@.one_per_wall(old(grid), final(grid)),
{
    let ghost g = graph@;
    let keys = node_keys(graph);
    proof {
        lemma_room_keys(g, g.rooms.len() as int);
        lemma_differing_none(grid.tiles@, grid.tiles@.len() as int);
    }
    let mut attempt: i32 = 0;
    while attempt < attempts
        invariant
            g == graph@,
            graph.wf(),
            keys@ == g.keys(),
            keys@.len() <= i32::MAX,
            forall|t: int|
                0 <= t < keys@.len() ==> g.has_node(#[trigger] keys@[t]) && g.edges(keys@[t]).len()
                    > 0,
            grid.opened_from(old(grid), TileType::Door),
            forall|i: int|
                0 <= i < grid.tiles@.len() && #[trigger] grid.tiles@[i] != old(grid).tiles@[i]
                    ==> g.intact_wall_at(old(grid), i),
            0 <= attempt,
            attempt == 0 || attempt <= attempts,
            attempt == 0 || keys@.len() == 0 ==> grid.tiles@ == old(grid).tiles@,
            differing(old(grid).tiles@, grid.tiles@, grid.tiles@.len() as int) <= attempt,
            attempt >= 1 && keys@.len() > 0 && g.walls_whole(old(grid)) ==> differing(
                old(grid).tiles@,
                grid.tiles@,
                grid.tiles@.len() as int,
            ) >= 1,
            g.walls_apart(old(grid)) ==> g.one_per_wall(old(grid), grid),
        decreases attempts - attempt,
    {
        if keys.len() > 0 {
            let node = keys[pick_index(rng, keys.len())];
            let edges: &Vec<NeighborEdge> = match node {
                RoomId::Exterior => &graph.exterior,
                RoomId::Interior(i) => {
                    assert(g.rooms[i as int] == crate::adjacency::edge_views(
                        graph.rooms@[i as int]@,
                    ));
                    &graph.rooms[i]
                },
            };
            assert(g.edges(node) == crate::adjacency::edge_views(edges@));
            let k = pick_index(rng, edges.len());
            let edge = &edges[k];
            assert(g.edges(node)[k as int] == edge@);
            if edge.shared_wall.len() > 0 && grid.is_wall_intact(&edge.shared_wall) {
                let spot = pick_index(rng, edge.shared_wall.len());
                let ghost prior = *grid;
                try_extra_door(grid, graph, node, k, spot);
                proof {
                    let wall = g.edges(node)[k as int].wall;
                    assert(grid.tiles@ == prior.opened(wall[spot as int], TileType::Door));
                    assert forall|m: int| 0 <= m < wall.len() implies old(grid).shows(
                        #[trigger] wall[m],
                        TileType::Wall,
                    ) by {
                        assert(prior.shows(wall[m], TileType::Wall));
                        assert(prior.tiles@[prior.flat(wall[m])] == old(grid).tiles@[prior.flat(
                            wall[m],
                        )]);
                    }
                    assert forall|i: int|
                        0 <= i < grid.tiles@.len() && #[trigger] grid.tiles@[i] != old(
                            grid,
                        ).tiles@[i] implies g.intact_wall_at(old(grid), i) by {
                        if prior.tiles@[i] == old(grid).tiles@[i] {
                            assert(old(grid).flat(g.edges(node)[k as int].wall[spot as int]) == i);
                        }
                    }
                    let cell = wall[spot as int];
                    assert(prior.shows(cell, TileType::Wall));
                    assert(prior.tiles@[prior.flat(cell)] == old(grid).tiles@[prior.flat(cell)]);
                    if g.walls_apart(old(grid)) {
                        lemma_one_more_per_wall(g, old(grid), &prior, grid, node, k as int, spot as int);
                    }
                    lemma_differing_gain(
                        old(grid).tiles@,
                        prior.tiles@,
                        prior.flat(cell),
                        TileType::Door,
                        prior.tiles@.len() as int,
                    );
                }
            } else {
                proof {
                    if attempt == 0 && g.walls_whole(old(grid)) {
                        let wall = g.edges(node)[k as int].wall;
                        assert(wall.len() > 0 && old(grid).wall_intact(wall));
                        assert forall|m: int| 0 <= m < wall.len() implies grid.shows(
                            #[trigger] wall[m],
                            TileType::Wall,
                        ) by {
                            assert(old(grid).shows(wall[m], TileType::Wall));
                        }
                        assert(false);
                    }
                }
            }
        }
        attempt = attempt + 1;
    }
}

/// Scatters windows over the walls shared with the outside. Each attempt
/// draws one such wall and a cell of it, and makes one `try_window` there.
///
/// Only walls on the footprint change, and only to windows. An attempt
/// opens one window or none, so no more tiles change than there are
/// attempts; and where every wall shared with the outside is whole on
/// entry, the first attempt opens its window whatever is drawn.
pub fn place_windows(
    grid: &mut TileGrid,
    rng: &mut RandomNumberGenerator,
    graph: &AdjacencyGraph,
    attempts: i32,
)
    requires
        graph.wf(),
    ensures
        final(grid).opened_from(old(grid), TileType::Window),
        final(grid).keeps_openings(old(grid)),
        forall|i: int|
            0 <= i < final(grid).tiles@.len() && #[trigger] final(grid).tiles@[i] != old(
                grid,
            ).tiles@[i] ==> graph@.footprint_at(old(grid), i),
        attempts <= 0 || graph@.exterior.len() == 0 ==> final(grid).tiles@ == old(grid).tiles@,
        attempts >= 0 ==> differing(
            old(grid).tiles@,
            final(grid).tiles@,
            final(grid).tiles@.len() as int,
        ) <= attempts,
        attempts >= 1 && graph@.exterior.len() > 0 && graph@.footprint_whole(old(grid))
            ==> differing(old(grid).tiles@, final(grid).tiles@, final(grid).tiles@.len() as int)
            >= 1,
{
    let ghost g = graph@;
    let mut attempt: i32 = 0;
    assert(g.edges(RoomId::Exterior) == g.exterior);
    proof {
        lemma_differing_none(grid.tiles@, grid.tiles@.len() as int);
    }
    while attempt < attempts
        invariant
            g == graph@,
            graph.wf(),
            g.edges(RoomId::Exterior) == g.exterior,
            grid.opened_from(old(grid), TileType::Window),
            forall|i: int|
                0 <= i < grid.tiles@.len() && #[trigger] grid.tiles@[i] != old(grid).tiles@[i]
                    ==> g.footprint_at(old(grid), i),
            0 <= attempt,
            attempt == 0 || attempt <= attempts,
            graph.exterior@.len() == g.exterior.len(),
            attempt == 0 || g.exterior.len() == 0 ==> grid.tiles@ == old(grid).tiles@,
            differing(old(grid).tiles@, grid.tiles@, grid.tiles@.len() as int) <= attempt,
            attempt >= 1 && g.exterior.len() > 0 && g.footprint_whole(old(grid)) ==> differing(
                old(grid).tiles@,
                grid.tiles@,
                grid.tiles@.len() as int,
            ) >= 1,
        decreases attempts - attempt,
    {
        if graph.exterior.len() > 0 {
            assert(g.has_node(RoomId::Exterior));
            let k = pick_index(rng, graph.exterior.len());
            let edge = &graph.exterior[k];
            assert(g.edges(RoomId::Exterior)[k as int] == edge@);
            if edge.shared_wall.len() > 0 {
                let spot = pick_index(rng, edge.shared_wall.len());
                let ghost prior = *grid;
                try_window(grid, graph, k, spot);
                proof {
                    let at = g.exterior[k as int].wall[spot as int];
                    assert(grid.tiles@ == prior.opened(at, TileType::Window));
                    assert forall|i: int|
                        0 <= i < grid.tiles@.len() && #[trigger] grid.tiles@[i] != old(
                            grid,
                        ).tiles@[i] implies g.footprint_at(old(grid), i) by {
                        if prior.tiles@[i] == old(grid).tiles@[i] {
                            assert(old(grid).flat(g.exterior[k as int].wall[spot as int]) == i);
                        }
                    }
                    let cell = g.exterior[k as int].wall[spot as int];
                    if attempt == 0 && g.footprint_whole(old(grid)) {
                        assert(old(grid).wall_intact(g.exterior[k as int].wall));
                        assert(old(grid).shows(cell, TileType::Wall));
                        assert(prior.shows(cell, TileType::Wall));
                    }
                    if prior.shows(cell, TileType::Wall) {
                        assert(prior.tiles@[prior.flat(cell)] == old(grid).tiles@[prior.flat(cell)]);
                        lemma_differing_gain(
                            old(grid).tiles@,
                            prior.tiles@,
                            prior.flat(cell),
                            TileType::Window,
                            prior.tiles@.len() as int,
                        );
                    }
                }
            } else {
                proof {
                    if attempt == 0 && g.footprint_whole(old(grid)) {
                        assert(g.exterior[k as int].wall.len() > 0);
                        assert(false);
                    }
                }
            }
        }
        attempt = attempt + 1;
    }
}

/// Chains of doors stay where no door is closed.
pub proof fn lemma_all_doored_kept(
    g: GraphView,
    before: &TileGrid,
    after: &TileGrid,
    connected: Seq<bool>,
)
    requires
        after.keeps_openings(before),
        all_doored(g, before, connected),
    ensures
        all_doored(g, after, connected),
{
    assert forall|i: int| 0 <= i < connected.len() && #[trigger] connected[i] implies g.door_connected(
        after,
        RoomId::Interior(i as usize),
    ) by {
        let room = RoomId::Interior(i as usize);
        assert(g.door_connected(before, room));
        let hops = choose|hops: nat| g.door_reach(before, room, hops);
        lemma_door_reach_kept(g, before, after, room, hops);
    }
}

/// Where every room is walled, every shared wall of their graph is intact.
pub proof fn lemma_walled_rooms_close_graph(grid: &TileGrid, rooms: Seq<Rect>, building: Rect)
    requires
        rooms.len() <= usize::MAX,
        orderly(rooms),
        forall|i: int| 0 <= i < rooms.len() ==> grid.walled(#[trigger] rooms[i]),
    ensures
        graph_of(rooms, building).walls_closed(grid),
{
    let g = graph_of(rooms, building);
    assert forall|node: RoomId, k: int, m: int|
        #![trigger g.edges(node)[k].wall[m]]
        g.has_node(node) && 0 <= k < g.edges(node).len() && 0 <= m < g.edges(
            node,
        )[k].wall.len() implies grid.shows(g.edges(node)[k].wall[m], TileType::Wall)
        || grid.shows(g.edges(node)[k].wall[m], TileType::Door) by {
        lemma_graph_walls(rooms, building, node, k, m);
        let p = g.edges(node)[k].wall[m];
        let i = choose|i: int|
            0 <= i < rooms.len() && (#[trigger] rooms[i]).on_border(p.x as int, p.y as int);
        assert(grid.walled(rooms[i]));
        assert(p == Point { x: p.x as int as i32, y: p.y as int as i32 });
    }
}

/// Where the last array newly holds `tile` only where the middle one did,
/// it newly holds it at no more positions.
pub proof fn lemma_turned_same(
    first: Seq<TileType>,
    mid: Seq<TileType>,
    last: Seq<TileType>,
    tile: TileType,
    upto: int,
)
    requires
        forall|i: int| 0 <= i < upto && #[trigger] last[i] == tile ==> mid[i] == tile,
    ensures
        turned(first, last, tile, upto) <= turned(first, mid, tile, upto),
    decreases upto,
{
    if upto > 0 {
        lemma_turned_same(first, mid, last, tile, upto - 1);
    }
}

/// `walked` is `before` after the spanning walk: only walls of rooms
/// marked in `connected` have changed, to doors, one tile per marked room
/// at most; and if every shared wall was intact, every marked room has its
/// chain of doors.
pub open spec fn walk_stage(
    g: GraphView,
    before: &TileGrid,
    walked: &TileGrid,
    connected: Seq<bool>,
) -> bool {
    &&& walked.opened_from(before, TileType::Door)
    &&& forall|i: int|
        0 <= i < walked.tiles@.len() && #[trigger] walked.tiles@[i] != before.tiles@[i]
            ==> g.reached_wall_at(before, connected, i)
    &&& differing(before.tiles@, walked.tiles@, walked.tiles@.len() as int) <= marked(connected)
    &&& g.walls_closed(before) ==> all_doored(g, walked, connected)
}

/// `doored` is `walked` after the extra doors: only walls that had no
/// opening after the walk have changed, to doors, one tile per attempt at
/// most, and no wall twice where walls that share a cell are the same wall.
pub open spec fn door_stage(
    g: GraphView,
    walked: &TileGrid,
    doored: &TileGrid,
    attempts: int,
) -> bool {
    &&& doored.opened_from(walked, TileType::Door)
    &&& forall|i: int|
        0 <= i < doored.tiles@.len() && #[trigger] doored.tiles@[i] != walked.tiles@[i]
            ==> g.intact_wall_at(walked, i)
    &&& differing(walked.tiles@, doored.tiles@, doored.tiles@.len() as int) <= greater(attempts, 0)
    &&& g.walls_apart(walked) ==> g.one_per_wall(walked, doored)
}

/// `after` is `doored` after the windows: only walls shared with the
/// outside have changed, to windows, one tile per attempt at most.
pub open spec fn window_stage(
    g: GraphView,
    doored: &TileGrid,
    after: &TileGrid,
    attempts: int,
) -> bool {
    &&& after.opened_from(doored, TileType::Window)
    &&& forall|i: int|
        0 <= i < after.tiles@.len() && #[trigger] after.tiles@[i] != doored.tiles@[i]
            ==> g.footprint_at(doored, i)
    &&& differing(doored.tiles@, after.tiles@, after.tiles@.len() as int) <= greater(attempts, 0)
}

/// `after` is `before` after the three phases, one after the other.
pub open spec fn connected_in_stages(
    g: GraphView,
    before: &TileGrid,
    after: &TileGrid,
    connected: Seq<bool>,
    extra_door_attempts: int,
    window_attempts: int,
) -> bool {
    exists|walked: TileGrid, doored: TileGrid|
        #![trigger door_stage(g, &walked, &doored, extra_door_attempts)]
        walk_stage(g, before, &walked, connected) && door_stage(
            g,
            &walked,
            &doored,
            extra_door_attempts,
        ) && window_stage(g, &doored, after, window_attempts)
}

/// Gives a graph's walls their doors and windows: runs the spanning walk,
/// then scatters extra doors, then windows.
///
/// The result marks exactly the rooms that the graph connects to the
/// outside. The grid is the old grid after the three phases, each as its
/// stage says. So only walls of the graph change, to doors or windows; a
/// new window lies on a wall shared with the outside; no more tiles change
/// than there are marked rooms and attempts; and if every shared wall was
/// intact on entry, every marked room ends with a chain of doors to the
/// outside.
pub fn connect(
    grid: &mut TileGrid,
    rng: &mut RandomNumberGenerator,
    graph: &AdjacencyGraph,
    extra_door_attempts: i32,
    window_attempts: i32,
) -> (connected: Vec<bool>)
    requires
        graph.wf(),
    ensures
        connected_in_stages(
            graph@,
            old(grid),
            final(grid),
            connected@,
            extra_door_attempts as int,
            window_attempts as int,
        ),
        final(grid).pierced_from(old(grid)),
        final(grid).keeps_openings(old(grid)),
        forall|i: int|
            0 <= i < final(grid).tiles@.len() && #[trigger] final(grid).tiles@[i] != old(
                grid,
            ).tiles@[i] ==> graph@.wall_at(old(grid), i),
        forall|i: int|
            0 <= i < final(grid).tiles@.len() && #[trigger] final(grid).tiles@[i]
                == TileType::Window && old(grid).tiles@[i] != TileType::Window
                ==> graph@.footprint_at(old(grid), i),
        differing(old(grid).tiles@, final(grid).tiles@, final(grid).tiles@.len() as int) <= marked(
            connected@,
        ) + greater(extra_door_attempts as int, 0) + greater(window_attempts as int, 0),
        turned(
            old(grid).tiles@,
            final(grid).tiles@,
            TileType::Window,
            final(grid).tiles@.len() as int,
        ) <= greater(window_attempts as int, 0),
        turned(
            old(grid).tiles@,
            final(grid).tiles@,
            TileType::Door,
            final(grid).tiles@.len() as int,
        ) <= marked(connected@) + greater(extra_door_attempts as int, 0),
        connected@.len() == graph@.rooms.len(),
        forall|i: int|
            0 <= i < connected@.len() ==> (#[trigger] connected@[i] <==> graph@.reachable(
                RoomId::Interior(i as usize),
            )),
        graph@.walls_closed(old(grid)) ==> all_doored(graph@, final(grid), connected@),
        window_attempts <= 0 ==> final(grid).opened_from(old(grid), TileType::Door),
{
    let ghost g = graph@;
    let connected = ensure_random_connectivity(grid, rng, graph);
    let ghost walked = *grid;
    add_random_doors(grid, rng, graph, extra_door_attempts);
    let ghost doored = *grid;
    place_windows(grid, rng, graph, window_attempts);
    proof {
        let len = grid.tiles@.len() as int;
        assert(g.edges(RoomId::Exterior) == g.exterior);
        if extra_door_attempts <= 0 {
            lemma_differing_none(walked.tiles@, len);
        }
        if window_attempts <= 0 {
            lemma_differing_none(doored.tiles@, len);
        }
        assert(walk_stage(g, old(grid), &walked, connected@));
        assert(door_stage(g, &walked, &doored, extra_door_attempts as int));
        assert forall|i: int|
            0 <= i < grid.tiles@.len() && #[trigger] grid.tiles@[i] != doored.tiles@[i] implies g.footprint_at(
            &doored,
            i,
        ) by {
            let (k, m) = choose|k: int, m: int|
                0 <= k < g.exterior.len() && 0 <= m < g.exterior[k].wall.len() && doored.flat(
                    #[trigger] g.exterior[k].wall[m],
                ) == i;
            assert(doored.flat(g.exterior[k].wall[m]) == i);
        }
        assert(window_stage(g, &doored, grid, window_attempts as int));
        lemma_differing_chain(old(grid).tiles@, walked.tiles@, doored.tiles@, len);
        lemma_differing_chain(old(grid).tiles@, doored.tiles@, grid.tiles@, len);
        assert forall|i: int|
            0 <= i < len && #[trigger] grid.tiles@[i] == TileType::Window && old(grid).tiles@[i]
                != TileType::Window implies grid.tiles@[i] != doored.tiles@[i] by {
            assert(walked.tiles@[i] == old(grid).tiles@[i] || walked.tiles@[i] == TileType::Door);
            assert(doored.tiles@[i] == walked.tiles@[i] || doored.tiles@[i] == TileType::Door);
        }
        lemma_turned_bound(old(grid).tiles@, doored.tiles@, grid.tiles@, TileType::Window, len);
        assert forall|i: int|
            0 <= i < len && #[trigger] grid.tiles@[i] == TileType::Door && old(grid).tiles@[i]
                != TileType::Door implies grid.tiles@[i] != old(grid).tiles@[i] by {}
        assert forall|i: int|
            0 <= i < len && #[trigger] doored.tiles@[i] == TileType::Door && old(grid).tiles@[i]
                != TileType::Door implies doored.tiles@[i] != old(grid).tiles@[i] by {}
        lemma_turned_bound(
            old(grid).tiles@,
            old(grid).tiles@,
            doored.tiles@,
            TileType::Door,
            len,
        );
        lemma_turned_same(old(grid).tiles@, doored.tiles@, grid.tiles@, TileType::Door, len);
        assert forall|i: int|
            0 <= i < grid.tiles@.len() && #[trigger] grid.tiles@[i] != old(
                grid,
            ).tiles@[i] implies g.wall_at(old(grid), i) by {
            if walked.tiles@[i] != old(grid).tiles@[i] {
            } else if doored.tiles@[i] != walked.tiles@[i] {
                let (node, k, m) = choose|node: RoomId, k: int, m: int|
                    g.has_node(node) && 0 <= k < g.edges(node).len() && 0 <= m < g.edges(
                        node,
                    )[k].wall.len() && walked.flat(#[trigger] g.edges(node)[k].wall[m]) == i
                        && walked.wall_intact(g.edges(node)[k].wall);
                assert(old(grid).flat(g.edges(node)[k].wall[m]) == i);
            } else {
                assert(grid.tiles@[i] != doored.tiles@[i]);
                let (k, m) = choose|k: int, m: int|
                    0 <= k < g.exterior.len() && 0 <= m < g.exterior[k].wall.len() && doored.flat(
                        #[trigger] g.exterior[k].wall[m],
                    ) == i;
                assert(g.has_node(RoomId::Exterior));
                assert(old(grid).flat(g.edges(RoomId::Exterior)[k].wall[m]) == i);
            }
        }
        assert forall|i: int|
            0 <= i < grid.tiles@.len() && #[trigger] grid.tiles@[i] == TileType::Window && old(
                grid,
            ).tiles@[i] != TileType::Window implies g.footprint_at(old(grid), i) by {
            assert(walked.tiles@[i] == old(grid).tiles@[i] || walked.tiles@[i] == TileType::Door);
            assert(doored.tiles@[i] == walked.tiles@[i] || doored.tiles@[i] == TileType::Door);
            assert(grid.tiles@[i] != doored.tiles@[i]);
            let (k, m) = choose|k: int, m: int|
                0 <= k < g.exterior.len() && 0 <= m < g.exterior[k].wall.len() && doored.flat(
                    #[trigger] g.exterior[k].wall[m],
                ) == i;
            assert(old(grid).flat(g.exterior[k].wall[m]) == i);
        }
        assert forall|i: int| 0 <= i < grid.tiles@.len() implies #[trigger] grid.tiles@[i] == old(
            grid,
        ).tiles@[i] || (old(grid).tiles@[i] == TileType::Wall && (grid.tiles@[i] == TileType::Door
            || grid.tiles@[i] == TileType::Window)) by {
            assert(walked.tiles@[i] == old(grid).tiles@[i] || (old(grid).tiles@[i]
                == TileType::Wall && walked.tiles@[i] == TileType::Door));
            assert(doored.tiles@[i] == walked.tiles@[i] || (walked.tiles@[i] == TileType::Wall
                && doored.tiles@[i] == TileType::Door));
            assert(grid.tiles@[i] == doored.tiles@[i] || (doored.tiles@[i] == TileType::Wall
                && grid.tiles@[i] == TileType::Window));
        }
        if g.walls_closed(old(grid)) {
            assert(doored.keeps_openings(&walked));
            lemma_all_doored_kept(g, &walked, &doored, connected@);
            assert(grid.keeps_openings(&doored));
            lemma_all_doored_kept(g, &doored, grid, connected@);
        }
    }
    connected
}

/// Gives a building its doors and windows: builds the adjacency graph of
/// its rooms and hands it to `connect`.
///
/// The result marks the rooms that the graph connects to the outside. Only
/// walls of the rooms change, to doors or windows, and only within the
/// footprint. If every shared wall was intact on entry, every marked room
/// ends with a chain of doors to the outside.
pub fn connect_rooms(
    grid: &mut TileGrid,
    rng: &mut RandomNumberGenerator,
    rooms: &Vec<Rect>,
    building: Rect,
    extra_door_attempts: i32,
    window_attempts: i32,
) -> (connected: Vec<bool>)
    requires
        rooms@.len() < i32::MAX,
        orderly(rooms@),
        housed(rooms@, building),
        2 * (building.x2 - building.x1) + 2 * (building.y2 - building.y1) <= i32::MAX,
    ensures
        final(grid).pierced_from(old(grid)),
        final(grid).keeps_openings(old(grid)),
        final(grid).changed_within(old(grid), building),
        changed_on_outlines(old(grid), final(grid), rooms@),
        connected@.len() == rooms@.len(),
        forall|i: int|
            0 <= i < connected@.len() ==> (#[trigger] connected@[i] <==> graph_of(
                rooms@,
                building,
            ).reachable(RoomId::Interior(i as usize))),
        graph_of(rooms@, building).walls_closed(old(grid)) ==> all_doored(
            graph_of(rooms@, building),
            final(grid),
            connected@,
        ),
        window_attempts <= 0 ==> final(grid).opened_from(old(grid), TileType::Door),
        connected_in_stages(
            graph_of(rooms@, building),
            old(grid),
            final(grid),
            connected@,
            extra_door_attempts as int,
            window_attempts as int,
        ),
        forall|i: int|
            0 <= i < final(grid).tiles@.len() && #[trigger] final(grid).tiles@[i]
                == TileType::Window && old(grid).tiles@[i] != TileType::Window ==> graph_of(
                rooms@,
                building,
            ).footprint_at(old(grid), i),
        differing(old(grid).tiles@, final(grid).tiles@, final(grid).tiles@.len() as int) <= marked(
            connected@,
        ) + greater(extra_door_attempts as int, 0) + greater(window_attempts as int, 0),
        turned(
            old(grid).tiles@,
            final(grid).tiles@,
            TileType::Window,
            final(grid).tiles@.len() as int,
        ) <= greater(window_attempts as int, 0),
        turned(
            old(grid).tiles@,
            final(grid).tiles@,
            TileType::Door,
            final(grid).tiles@.len() as int,
        ) <= marked(connected@) + greater(extra_door_attempts as int, 0),
        forall|i: int|
            0 <= i < final(grid).tiles@.len() && #[trigger] final(grid).tiles@[i] != old(
                grid,
            ).tiles@[i] ==> graph_of(rooms@, building).wall_at(old(grid), i),
{
    let graph = scan_for_neighbors(rooms, building);
    let ghost g = graph@;
    proof {
        lemma_graph_of_wf(rooms@, building);
        lemma_graph_of_drawable(rooms@, building);
    }
    let connected = connect(grid, rng, &graph, extra_door_attempts, window_attempts);
    proof {
        assert forall|i: int|
            0 <= i < grid.tiles@.len() && #[trigger] grid.tiles@[i] != old(
                grid,
            ).tiles@[i] implies old(grid).within(building, i) && on_some_outline(
            old(grid),
            rooms@,
            i,
        ) by {
            let (node, k, m) = choose|node: RoomId, k: int, m: int|
                g.has_node(node) && 0 <= k < g.edges(node).len() && 0 <= m < g.edges(
                    node,
                )[k].wall.len() && old(grid).flat(#[trigger] g.edges(node)[k].wall[m]) == i;
            lemma_graph_walls_housed(rooms@, building, node, k, m);
            lemma_graph_walls(rooms@, building, node, k, m);
            let p = g.edges(node)[k].wall[m];
            assert(old(grid).flat(p) == i);
            assert(building.covers(p.x as int, p.y as int));
            let r = choose|r: int|
                0 <= r < rooms@.len() && (#[trigger] rooms@[r]).on_border(p.x as int, p.y as int);
            assert(rooms@[r].on_border(p.x as int, p.y as int) && p.y * old(grid).width + p.x == i);
            assert(old(grid).on_outline(rooms@[r], i));
        }
    }
    connected
}

} // verus!
