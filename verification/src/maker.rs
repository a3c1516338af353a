//! The map maker: it owns the configuration and runs the stages of a
//! generation in order, all on one random source.

use crate::carver::{
    carve, carved, closed_under, lemma_cluster_joined, links_drawn, merges_wf, rooms_drawn,
};
use crate::cluster::{chain, is_cluster, lemma_closed, lemma_reaches_next};
use crate::dice::{range_drawn, seeded_state, Chance, Dice};
use crate::grid::{spec_blank, Grid, Location, Tile};
use crate::lattice::{Lattice, MapError, MAX_TILES, MIN_SECTOR_HEIGHT, MIN_SECTOR_WIDTH};
use crate::links::{connect_rooms, connecting, joins, linked, links_wf};
use crate::paths::{joined, lemma_joined_block, lemma_joined_on};
use crate::repair::{lemma_links_within, repair, repaired};
use crate::rooms::{place_rooms, placing, rooms_of, Room};
use crate::sectors::{choose_real, real_chosen};
use crate::tunnel::{anchor, solid};
use vstd::prelude::*;

verus! {

/// The configuration of a generation.
#[derive(Clone, Copy, Debug)]
pub struct MapMaker {
    /// The number of sector columns.
    pub columns: u32,
    /// The number of sector rows.
    pub rows: u32,
    /// The number of real rooms.
    pub rooms: u32,
    /// The number of tile rows of the grid.
    pub map_height: u32,
    /// The number of tile columns of the grid.
    pub map_width: u32,
    /// The chance with which a dummy room is left without any link of its
    /// own.
    pub skip: Chance,
    /// The chance with which two linked rooms that can both still be merged
    /// are merged.
    pub merge: Chance,
}

/// What a generation lays out before it carves.
pub struct Layout {
    pub lattice: Lattice,
    /// The sectors that hold real rooms.
    pub real_ids: Vec<u32>,
    /// The room of each sector, in the order of the sectors' numbers.
    pub rooms: Vec<Room>,
    /// The links between sectors.
    pub connections: Vec<(u32, u32)>,
    /// The sector of the room that holds the spawn tile.
    pub spawn_id: u32,
    /// The sector of the room that holds the exit tile.
    pub exit_id: u32,
    /// The sectors reached from the spawn sector, in rising order.
    pub cluster: Vec<u32>,
}

/// A finished map: the grid, the tile to start on and the tile to leave by,
/// with the layout that the grid was carved from and the links whose rooms
/// were merged.
pub struct Dungeon {
    pub grid: Grid,
    pub spawn: Location,
    pub exit: Location,
    pub layout: Layout,
    pub merges: Vec<(u32, u32)>,
}

/// All that a layout holds, as plain values.
pub struct Plan {
    pub lattice: Lattice,
    pub real_ids: Seq<u32>,
    pub rooms: Seq<Room>,
    pub connections: Seq<(u32, u32)>,
    pub spawn_id: u32,
    pub exit_id: u32,
    pub cluster: Seq<u32>,
}

/// All that a finished map holds, as plain values.
pub struct Blueprint {
    pub grid: Seq<Seq<Tile>>,
    pub spawn: Location,
    pub exit: Location,
    pub plan: Plan,
    pub merges: Seq<(u32, u32)>,
}

/// Every tile of every real room is ground and can be walked to from the
/// tile `from`.
pub open spec fn all_reachable(
    grid: &Grid,
    rooms: Seq<Room>,
    real_ids: Seq<u32>,
    from: (int, int),
) -> bool {
    forall|k: int, x: int, y: int|
        0 <= k < real_ids.len() && (#[trigger] rooms[real_ids[k] as int]).covers(x, y)
            ==> grid.ground(x, y)
            && #[trigger] joined(grid, from, (x, y))
}

/// Every ground tile lies in the sector of a room of the cluster.
pub open spec fn all_within(grid: &Grid, lattice: &Lattice, cluster: Seq<u32>) -> bool {
    forall|x: int, y: int|
        #[trigger] grid.ground(x, y) ==> exists|k: int|
            0 <= k < cluster.len() && lattice.holds((#[trigger] cluster[k]) as int, x, y)
}

impl Layout {
    /// All that the layout holds, as plain values.
    pub open spec fn view(&self) -> Plan {
        Plan {
            lattice: self.lattice,
            real_ids: self.real_ids@,
            rooms: self.rooms@,
            connections: self.connections@,
            spawn_id: self.spawn_id,
            exit_id: self.exit_id,
            cluster: self.cluster@,
        }
    }

    /// The layout is one that the stages before carving give for a lattice:
    /// distinct real sectors, a room in every sector, links between
    /// neighbours only, and a cluster around the spawn sector that holds
    /// every real room.
    pub open spec fn wf(&self) -> bool {
        &&& self.lattice.wf()
        &&& self.real_ids@.no_duplicates()
        &&& forall|k: int|
            0 <= k < self.real_ids@.len()
                ==> #[trigger] self.real_ids@[k] < self.lattice.spec_total()
        &&& rooms_of(self.rooms@, &self.lattice, self.real_ids@)
        &&& links_wf(self.connections@, &self.lattice)
        &&& self.real_ids@.contains(self.spawn_id)
        &&& self.real_ids@.contains(self.exit_id)
        &&& is_cluster(self.cluster@, self.connections@, self.spawn_id)
        &&& forall|k: int|
            0 <= k < self.real_ids@.len() ==> self.cluster@.contains(#[trigger] self.real_ids@[k])
    }
}

impl Dungeon {
    /// All that the map holds, as plain values.
    pub open spec fn view(&self) -> Blueprint {
        Blueprint {
            grid: self.grid@,
            spawn: self.spawn,
            exit: self.exit,
            plan: self.layout@,
            merges: self.merges@,
        }
    }

    /// The grid is carved from the layout: every room of the cluster is
    /// drawn, every link has its two rooms joined, and nothing is dug
    /// outside the sectors of the cluster. The spawn tile and the exit tile
    /// lie in the rooms of their sectors, every tile of every real room can
    /// be walked to from the spawn tile, and no sector takes part in two
    /// merges.
    pub open spec fn wf(&self) -> bool {
        &&& self.layout.wf()
        &&& self.grid.wf()
        &&& self.layout.lattice.fits(self.grid.spec_height() as int, self.grid.spec_width() as int)
        &&& self.layout.rooms@[self.layout.spawn_id as int].covers(self.spawn.0 as int,
            self.spawn.1 as int)
        &&& self.layout.rooms@[self.layout.exit_id as int].covers(self.exit.0 as int,
            self.exit.1 as int)
        &&& rooms_drawn(&self.grid, self.layout.rooms@, self.layout.cluster@)
        &&& links_drawn(
            &self.grid,
            self.layout.rooms@,
            self.layout.connections@,
            self.layout.cluster@,
            self.layout.connections@.len() as int,
        )
        &&& all_reachable(
            &self.grid,
            self.layout.rooms@,
            self.layout.real_ids@,
            (self.spawn.0 as int, self.spawn.1 as int),
        )
        &&& all_within(&self.grid, &self.layout.lattice, self.layout.cluster@)
        &&& merges_wf(self.merges@, self.layout.rooms@, self.layout.connections@)
    }
}

/// On a carved map every tile of every real room can be walked to from any
/// tile of the spawn room.
pub proof fn lemma_all_reachable(grid: &Grid, layout: &Layout, from: (int, int))
    requires
        layout.wf(),
        rooms_drawn(grid, layout.rooms@, layout.cluster@),
        links_drawn(grid, layout.rooms@, layout.connections@, layout.cluster@,
            layout.connections@.len() as int),
        layout.rooms@[layout.spawn_id as int].covers(from.0, from.1),
    ensures
        all_reachable(grid, layout.rooms@, layout.real_ids@, from),
{
    let rooms = layout.rooms@;
    let cluster = layout.cluster@;
    let first = &rooms[layout.spawn_id as int];
    assert forall|k: int|
        0 <= k < cluster.len() implies (#[trigger] rooms[cluster[k] as int]).width >= 1
            && rooms[cluster[k] as int].height >= 1 by {
        assert(cluster.contains(cluster[k]));
        lemma_cluster_within(layout, cluster[k]);
        rooms[cluster[k] as int].lemma_placed(&layout.lattice);
    }
    let j = choose|j: int|
        0 <= j < layout.real_ids@.len() && layout.real_ids@[j] == layout.spawn_id;
    assert(cluster.contains(layout.real_ids@[j]));
    let j2 = choose|j2: int| 0 <= j2 < cluster.len() && cluster[j2] == layout.spawn_id;
    assert(solid(grid, &rooms[cluster[j2] as int]));
    assert(rooms[cluster[j2] as int].width >= 1);
    lemma_joined_block(
        grid,
        first.left as int,
        first.bottom as int,
        first.left + first.width,
        first.bottom + first.height,
        from,
        anchor(first),
    );
    assert forall|k: int, x: int, y: int|
        0 <= k < layout.real_ids@.len()
            && (#[trigger] rooms[layout.real_ids@[k] as int]).covers(x, y) implies grid.ground(
        x,
        y,
    ) && #[trigger] joined(grid, from, (x, y)) by {
        let id = layout.real_ids@[k];
        let room = &rooms[id as int];
        assert(cluster.contains(id));
        let i = choose|i: int| 0 <= i < cluster.len() && cluster[i] == id;
        assert(solid(grid, &rooms[cluster[i] as int]));
        lemma_cluster_joined(grid, rooms, layout.connections@, cluster, layout.spawn_id, id);
        lemma_joined_block(
            grid,
            room.left as int,
            room.bottom as int,
            room.left + room.width,
            room.bottom + room.height,
            anchor(room),
            (x, y),
        );
        lemma_joined_on(grid, from, anchor(first), anchor(room));
        lemma_joined_on(grid, from, anchor(room), (x, y));
    }
}

/// A cluster holds, with each end of a link, the other end.
pub proof fn lemma_cluster_closed(cluster: Seq<u32>, links: Seq<(u32, u32)>, start: u32)
    requires
        is_cluster(cluster, links, start),
    ensures
        closed_under(cluster, links),
{
    assert forall|k: int|
        0 <= k < links.len() implies (cluster.contains((#[trigger] links[k]).0)
            <==> cluster.contains(
        links[k].1,
    )) by {
        let (a, b) = links[k];
        assert(joins(links[k], a as int, b as int));
        assert(joins(links[k], b as int, a as int));
        if cluster.contains(a) {
            lemma_reaches_next(links, start as int, a as int, b as int);
        }
        if cluster.contains(b) {
            lemma_reaches_next(links, start as int, b as int, a as int);
        }
    }
}

/// The sectors of the cluster are sectors of the lattice.
pub proof fn lemma_cluster_within(layout: &Layout, id: u32)
    requires
        layout.wf(),
        layout.cluster@.contains(id),
    ensures
        id < layout.lattice.spec_total(),
{
    let links = layout.connections@;
    let total = layout.lattice.spec_total();
    lemma_links_within(links, &layout.lattice);
    let j = choose|j: int|
        0 <= j < layout.real_ids@.len() && layout.real_ids@[j] == layout.spawn_id;
    let inside = Set::new(|s: int| 0 <= s < total);
    let path = choose|path: Seq<int>|
        chain(links, path) && path.first() == layout.spawn_id as int && path.last() == id as int;
    assert forall|a: int, b: int|
        inside.contains(a) && linked(links, a, b) implies inside.contains(b) by {
        let k = choose|k: int| 0 <= k < links.len() && joins(#[trigger] links[k], a, b);
    }
    lemma_closed(links, inside, path);
}

impl MapMaker {
    /// A configuration with the usual chances: a dummy room is skipped
    /// every second time, and one linked pair of rooms in ten is merged.
    pub fn new(
        columns: u32,
        rows: u32,
        rooms: u32,
        map_height: u32,
        map_width: u32,
    ) -> (maker: MapMaker)
        ensures
            maker.columns == columns,
            maker.rows == rows,
            maker.rooms == rooms,
            maker.map_height == map_height,
            maker.map_width == map_width,
            maker.skip.spec_numerator() == 1 && maker.skip.spec_denominator() == 2,
            maker.merge.spec_numerator() == 1 && maker.merge.spec_denominator() == 10,
    {
        MapMaker {
            columns,
            rows,
            rooms,
            map_height,
            map_width,
            skip: Chance::dummy_skip(),
            merge: Chance::merge(),
        }
    }

    /// The configuration can be generated from: the lattice has a sector,
    /// its sectors are at least `MIN_SECTOR_WIDTH × MIN_SECTOR_HEIGHT`
    /// tiles, and the number of real rooms is at least one and at most the
    /// number of sectors.
    pub open spec fn valid(&self) -> bool {
        &&& self.rows >= 1
        &&& self.columns >= 1
        &&& self.map_width / self.columns >= MIN_SECTOR_WIDTH
        &&& self.map_height / self.rows >= MIN_SECTOR_HEIGHT
        &&& 1 <= self.rooms <= self.rows * self.columns
    }

    /// The lattice that the configuration divides the grid into.
    pub open spec fn lattice(&self) -> Lattice {
        Lattice {
            rows: self.rows,
            columns: self.columns,
            sector_width: (self.map_width / self.columns) as u32,
            sector_height: (self.map_height / self.rows) as u32,
        }
    }

    /// The layout is one that this configuration gives.
    pub open spec fn lays_out(&self, layout: &Layout) -> bool {
        &&& layout.wf()
        &&& layout.lattice == self.lattice()
        &&& layout.lattice.fits(self.map_height as int, self.map_width as int)
        &&& layout.real_ids@.len() == self.rooms
    }

    /// The map is one that this configuration gives.
    pub open spec fn makes(&self, dungeon: &Dungeon) -> bool {
        &&& dungeon.wf()
        &&& self.lays_out(&dungeon.layout)
        &&& dungeon.grid.spec_height() == self.map_height
        &&& dungeon.grid.spec_width() == self.map_width
        &&& self.merge.never() ==> dungeon.merges@.len() == 0
    }

    /// The layout that the configuration gives in a state, or `None` where
    /// it gives none, and the state that this leaves. The stages draw in
    /// this order: the real sectors, the rooms, the spawn sector and the
    /// exit sector, the links, their repair.
    pub open spec fn laid_out(&self, state: Seq<u8>) -> (Option<Plan>, Seq<u8>) {
        let lattice = self.lattice();
        let chosen = real_chosen(lattice.spec_total_u32(), self.rooms, state);
        let rooms = placing(&lattice, chosen.0, Seq::empty(), chosen.1);
        let spawn_at = range_drawn(rooms.1, 0, chosen.0.len() as u32);
        let exit_at = range_drawn(spawn_at.1, 0, chosen.0.len() as u32);
        let spawn_id = chosen.0[spawn_at.0 as int];
        let exit_id = chosen.0[exit_at.0 as int];
        let links = connecting(&lattice, rooms.0, 0, Seq::empty(), self.skip, exit_at.1);
        let fixed = repaired(&lattice, links.0, spawn_id, chosen.0, links.1);
        if self.valid() && fixed.0 is Some {
            (
                Some(
                    Plan {
                        lattice,
                        real_ids: chosen.0,
                        rooms: rooms.0,
                        connections: fixed.1,
                        spawn_id,
                        exit_id,
                        cluster: fixed.0->0,
                    },
                ),
                fixed.2,
            )
        } else {
            (None, state)
        }
    }

    /// The map that carving gives of a layout in a state, and the state
    /// that this leaves. After the carving the spawn tile and the exit
    /// tile are drawn, each by its column and its row.
    pub open spec fn finished(&self, plan: Plan, state: Seq<u8>) -> (Blueprint, Seq<u8>) {
        let done = carved(
            &plan.lattice,
            plan.rooms,
            plan.connections,
            plan.cluster,
            self.merge,
            spec_blank(self.map_height as int, self.map_width as int),
            state,
        );
        let spawn_room = plan.rooms[plan.spawn_id as int];
        let exit_room = plan.rooms[plan.exit_id as int];
        let spawn_x = range_drawn(done.2, 0, spawn_room.width);
        let spawn_y = range_drawn(spawn_x.1, 0, spawn_room.height);
        let exit_x = range_drawn(spawn_y.1, 0, exit_room.width);
        let exit_y = range_drawn(exit_x.1, 0, exit_room.height);
        (
            Blueprint {
                grid: done.1,
                spawn: Location(
                    (spawn_room.left + spawn_x.0) as i32,
                    (spawn_room.bottom + spawn_y.0) as i32,
                ),
                exit: Location((exit_room.left + exit_x.0) as i32,
                    (exit_room.bottom + exit_y.0) as i32),
                plan,
                merges: done.0,
            },
            exit_y.1,
        )
    }

    /// The map that the configuration gives from `seed`: the layout, then
    /// the carving, all on one random source that starts from the seed.
    pub open spec fn planned(&self, seed: u64) -> Option<Blueprint> {
        let laid = self.laid_out(seeded_state(seed));
        match laid.0 {
            Some(plan) => Some(self.finished(plan, laid.1).0),
            None => None,
        }
    }

    /// Lays a map out: divides the grid into sectors, chooses the real
    /// sectors, places a room in every sector, chooses the spawn sector and
    /// the exit sector among the real ones, links the rooms, and completes
    /// the links until the cluster of the spawn sector holds every real
    /// room.
    pub fn lay_out(&self, dice: &mut Dice) -> (made: Result<Layout, MapError>)
        requires
            self.map_height * self.map_width <= MAX_TILES,
        ensures
            made is Err <==> !self.valid(),
            made matches Err(error) ==> error == MapError::ConfigError,
            made matches Ok(layout) ==> self.lays_out(&layout),
            made matches Ok(layout) ==> (Some(layout@), final(dice)@) == self.laid_out(old(dice)@),
    {
        let lattice = match Lattice::partition(self.map_height, self.map_width, self.rows,
            self.columns) {
            Ok(lattice) => lattice,
            Err(error) => {
                return Err(error);
            },
        };
        let total = lattice.total();
        if self.rooms == 0 || self.rooms > total {
            return Err(MapError::ConfigError);
        }
        assert(lattice == self.lattice());
        let real_ids = choose_real(total, self.rooms, dice);
        let rooms = place_rooms(&lattice, &real_ids, dice);
        let spawn_id = real_ids[dice.index(real_ids.len())];
        let exit_id = real_ids[dice.index(real_ids.len())];
        let mut connections = connect_rooms(&lattice, &rooms, self.skip, dice);
        let cluster = match repair(&lattice, &mut connections, spawn_id, &real_ids, dice) {
            Ok(cluster) => cluster,
            Err(error) => {
                return Err(error);
            },
        };
        Ok(Layout { lattice, real_ids, rooms, connections, spawn_id, exit_id, cluster })
    }

    /// Carves a layout into a fresh grid and draws the spawn tile from the
    /// room of the spawn sector and the exit tile from the room of the exit
    /// sector.
    pub fn finish(&self, layout: Layout, dice: &mut Dice) -> (dungeon: Dungeon)
        requires
            self.map_height * self.map_width <= MAX_TILES,
            layout.wf(),
            layout.lattice.fits(self.map_height as int, self.map_width as int),
        ensures
            dungeon.wf(),
            dungeon.layout == layout,
            dungeon.grid.spec_height() == self.map_height,
            dungeon.grid.spec_width() == self.map_width,
            self.merge.never() ==> dungeon.merges@.len() == 0,
            (dungeon@, final(dice)@) == self.finished(layout@, old(dice)@),
    {
        let mut grid = Grid::new(self.map_height as usize, self.map_width as usize);
        proof {
            lemma_cluster_closed(layout.cluster@, layout.connections@, layout.spawn_id);
            assert forall|k: int|
                0 <= k < layout.cluster@.len()
                    implies #[trigger] layout.cluster@[k] < layout.lattice.spec_total() by {
                assert(layout.cluster@.contains(layout.cluster@[k]));
                lemma_cluster_within(&layout, layout.cluster@[k]);
            }
        }
        let ghost blank = grid;
        let merges = carve(
            &layout.lattice,
            &layout.rooms,
            &layout.connections,
            &layout.cluster,
            self.merge,
            &mut grid,
            dice,
        );
        proof {
            assert forall|x: int, y: int| #[trigger] grid.ground(x, y) implies exists|k: int|
                0 <= k < layout.cluster@.len()
                    && layout.lattice.holds((#[trigger] layout.cluster@[k]) as int, x, y) by {
                assert(!blank.ground(x, y)) by {
                    if blank.has(x, y) {
                        assert(blank@[y][x] == Tile::Wall);
                    }
                }
            }
            let i = choose|i: int|
                0 <= i < layout.real_ids@.len() && layout.real_ids@[i] == layout.spawn_id;
            let j = choose|j: int|
                0 <= j < layout.real_ids@.len() && layout.real_ids@[j] == layout.exit_id;
            assert(layout.real_ids@[i] < layout.lattice.spec_total());
            assert(layout.real_ids@[j] < layout.lattice.spec_total());
        }
        let spawn_room = &layout.rooms[layout.spawn_id as usize];
        let exit_room = &layout.rooms[layout.exit_id as usize];
        proof {
            spawn_room.lemma_placed(&layout.lattice);
            exit_room.lemma_placed(&layout.lattice);
        }
        let spawn_x = spawn_room.left + dice.range(0, spawn_room.width);
        let spawn_y = spawn_room.bottom + dice.range(0, spawn_room.height);
        let exit_x = exit_room.left + dice.range(0, exit_room.width);
        let exit_y = exit_room.bottom + dice.range(0, exit_room.height);
        let spawn = Location(spawn_x as i32, spawn_y as i32);
        let exit = Location(exit_x as i32, exit_y as i32);
        proof {
            lemma_all_reachable(&grid, &layout, (spawn.0 as int, spawn.1 as int));
        }
        Dungeon { grid, spawn, exit, layout, merges }
    }

    /// Generates a map from the random source started from `seed`.
    ///
    /// No map is made of a configuration that is not valid. Every map that
    /// is made has one room in each sector, real in as many sectors as the
    /// configuration asks for; its links join neighbouring sectors, each
    /// pair at most once; every tile of every real room is ground and can
    /// be walked to from the spawn tile; no room takes part in two merges;
    /// and it is the one map that the seed gives.
    pub fn generate(&self, seed: u64) -> (made: Result<Dungeon, MapError>)
        requires
            self.map_height * self.map_width <= MAX_TILES,
        ensures
            made is Err <==> !self.valid(),
            made matches Err(error) ==> error == MapError::ConfigError,
            made matches Ok(dungeon) ==> self.makes(&dungeon),
            made matches Ok(dungeon) ==> rooms_of(
                dungeon.layout.rooms@,
                &dungeon.layout.lattice,
                dungeon.layout.real_ids@,
            ) && dungeon.layout.real_ids@.len() == self.rooms,
            made matches Ok(dungeon) ==> links_wf(
                dungeon.layout.connections@,
                &dungeon.layout.lattice,
            ),
            made matches Ok(dungeon) ==> all_reachable(
                &dungeon.grid,
                dungeon.layout.rooms@,
                dungeon.layout.real_ids@,
                (dungeon.spawn.0 as int, dungeon.spawn.1 as int),
            ),
            made matches Ok(dungeon) ==> merges_wf(
                dungeon.merges@,
                dungeon.layout.rooms@,
                dungeon.layout.connections@,
            ),
            made matches Ok(dungeon) ==> self.planned(seed) == Some(dungeon@),
    {
        let mut dice = Dice::from_seed(seed);
        match self.lay_out(&mut dice) {
            Ok(layout) => Ok(self.finish(layout, &mut dice)),
            Err(error) => Err(error),
        }
    }
}

/// Two maps that one configuration gives from one seed are the same: their
/// grids hold the same tiles, and they have the same spawn tile and the
/// same exit tile.
pub proof fn lemma_same_seed_same_map(
    maker: &MapMaker,
    seed: u64,
    first: &Dungeon,
    second: &Dungeon,
)
    requires
        maker.planned(seed) == Some(first@),
        maker.planned(seed) == Some(second@),
    ensures
        first.grid@ == second.grid@,
        first.spawn == second.spawn,
        first.exit == second.exit,
        first@ == second@,
{
}

} // verus!
