use vstd::prelude::*;
use crate::building::{Building, Structure, yield_of, slot_meta};
use crate::card::Resource;
use crate::geometry::{same_corner, sharer, lemma_same_corner_sharers, lemma_sharers_distinct};
use crate::grid::{cell, lemma_cell_bounds, lemma_cell_injective};
use crate::hex::{Hex, robbed, hex_meta};
use crate::card::Occupant;
use crate::parser::{
    MapLayout, MapSpec, ParseMapError, true_count, is_land, parse_text, parse_map, total_tiles,
    desert_tiles, is_suitable_chance, land_in_rows, MAX_HEX, lemma_chances_suitable,
};
use vstd::string::StringSliceAdditionalSpecFns;
use rand::rngs::StdRng;
use crate::deal::{draw_tiles, shuffle, placed, dealt_from, of_kind, units_of, carrying, equal_to};
use crate::tally::{tally, lemma_tally_permutation};
use crate::card::kind_of;

verus! {

/// The game board: a grid of cells (land tiles or water) with a border of
/// water on every side, the structure slots at the corners of the land tiles,
/// and the templates that the tiles' resources and dice numbers are drawn from.
pub struct Board {
    buildings: Vec<Structure>,
    tiles: Vec<Option<Hex>>,
    width: usize,
    height: usize,
    distribution: Vec<Resource>,
    chances: Vec<u8>,
}

/// The number of land cells among `ts`.
pub open spec fn land_count(ts: Seq<Option<Hex>>) -> nat
    decreases ts.len(),
{
    if ts.len() == 0 {
        0
    } else {
        land_count(ts.drop_last()) + if ts.last() is Some {
            1nat
        } else {
            0
        }
    }
}

impl Board {
    /// Cells per row, border included.
    pub closed spec fn spec_width(&self) -> int {
        self.width as int
    }

    /// Rows, border included.
    pub closed spec fn spec_height(&self) -> int {
        self.height as int
    }

    /// The cells, row by row.
    pub closed spec fn spec_tiles(&self) -> Seq<Option<Hex>> {
        self.tiles@
    }

    /// The structure slots.
    pub closed spec fn spec_slots(&self) -> Seq<Structure> {
        self.buildings@
    }

    /// The resource template: each kind with its number of tiles.
    pub closed spec fn spec_distribution(&self) -> Seq<Resource> {
        self.distribution@
    }

    /// The dice numbers to be placed on the tiles that are not deserts.
    pub closed spec fn spec_chances(&self) -> Seq<u8> {
        self.chances@
    }

    pub open spec fn in_grid(&self, i: int, j: int) -> bool {
        0 <= i < self.spec_width() && 0 <= j < self.spec_height()
    }

    /// The cell in column `i` of row `j`.
    pub open spec fn tile(&self, i: int, j: int) -> Option<Hex> {
        self.spec_tiles()[cell(self.spec_width(), i, j)]
    }

    /// Whether `(i, j)` is a land tile of the grid.
    pub open spec fn land(&self, i: int, j: int) -> bool {
        self.in_grid(i, j) && self.tile(i, j) is Some
    }

    /// The slot at corner `c` of the land tile `(i, j)`.
    pub open spec fn corner(&self, i: int, j: int, c: int) -> Option<usize> {
        self.tile(i, j).unwrap().corners@[c]
    }

    /// The tile and corner at which slot `s` was made.
    pub open spec fn anchor_of(&self, s: int) -> (int, int, int) {
        let a = self.spec_slots()[s].anchor;
        (a.0 as int, a.1 as int, a.2 as int)
    }

    /// The cells are a `width` by `height` grid whose border is water.
    pub open spec fn grid_wf(&self) -> bool {
        &&& self.spec_tiles().len() == self.spec_width() * self.spec_height()
        &&& forall|i: int, j: int| #[trigger]
            self.land(i, j) ==> 1 <= i < self.spec_width() - 1 && 1 <= j < self.spec_height() - 1
    }

    /// The tile of sharer `k` of corner `a`, where it is land.
    pub open spec fn sharer_tile(&self, a: (int, int, int), k: int) -> Option<(usize, usize)> {
        let t = sharer(a.0, a.1, a.2, k);
        if self.land(t.0, t.1) {
            Some((t.0 as usize, t.1 as usize))
        } else {
            None
        }
    }

    /// Slot `s` sits at the corner of a land tile it was made for, and lists
    /// that tile and the other land tiles that meet there.
    pub open spec fn slot_wf(&self, s: int) -> bool {
        let a = self.anchor_of(s);
        &&& self.land(a.0, a.1)
        &&& 0 <= a.2 < 6
        &&& self.corner(a.0, a.1, a.2) == Some(s as usize)
        &&& self.spec_slots()[s].hexes@[0] == Some((a.0 as usize, a.1 as usize))
        &&& self.spec_slots()[s].hexes@[1] == self.sharer_tile(a, 0)
        &&& self.spec_slots()[s].hexes@[2] == self.sharer_tile(a, 1)
    }

    pub open spec fn slots_wf(&self) -> bool {
        forall|s: int| 0 <= s < self.spec_slots().len() ==> #[trigger] self.slot_wf(s)
    }

    /// Each slot named at a corner exists and lies at that corner.
    pub open spec fn corners_consistent(&self) -> bool {
        forall|i: int, j: int, c: int|
            self.land(i, j) && 0 <= c < 6 && (#[trigger] self.corner(i, j, c)) is Some ==> {
                let s = self.corner(i, j, c).unwrap() as int;
                &&& s < self.spec_slots().len()
                &&& same_corner(i, j, c, self.anchor_of(s).0, self.anchor_of(s).1, self.anchor_of(s).2)
            }
    }

    /// Land tiles that meet at a corner name the same slot there.
    pub open spec fn corners_shared(&self) -> bool {
        forall|i: int, j: int, c: int, k: int|
            #![trigger self.corner(i, j, c), sharer(i, j, c, k)]
            self.land(i, j) && 0 <= c < 6 && 0 <= k < 2 && self.land(sharer(i, j, c, k).0, sharer(i, j, c, k).1)
                ==> self.corner(sharer(i, j, c, k).0, sharer(i, j, c, k).1, sharer(i, j, c, k).2)
                == self.corner(i, j, c)
    }

    /// Every corner of every land tile names a slot.
    pub open spec fn corners_complete(&self) -> bool {
        forall|i: int, j: int, c: int|
            self.land(i, j) && 0 <= c < 6 ==> (#[trigger] self.corner(i, j, c)) is Some
    }

    pub open spec fn graph_wf(&self) -> bool {
        &&& self.slots_wf()
        &&& self.corners_consistent()
        &&& self.corners_shared()
        &&& self.corners_complete()
    }

    /// Same grid, same land, same slot at every corner as `other`.
    pub open spec fn same_shape(&self, other: &Board) -> bool {
        &&& self.spec_width() == other.spec_width()
        &&& self.spec_height() == other.spec_height()
        &&& self.spec_tiles().len() == other.spec_tiles().len()
        &&& forall|q: int|
            0 <= q < self.spec_tiles().len() ==> (#[trigger] self.spec_tiles()[q] is Some
                <==> other.spec_tiles()[q] is Some)
        &&& forall|q: int|
            0 <= q < self.spec_tiles().len() && self.spec_tiles()[q] is Some ==> (
            #[trigger] self.spec_tiles()[q]).unwrap().corners == other.spec_tiles()[q].unwrap().corners
    }

    /// The cells of this board are those of `other`, land where it has land,
    /// with the same resources and occupants.
    pub open spec fn keeps_tiles(&self, other: &Board) -> bool {
        &&& self.spec_tiles().len() == other.spec_tiles().len()
        &&& forall|q: int|
            0 <= q < other.spec_tiles().len() ==> (#[trigger] self.spec_tiles()[q] is Some
                <==> other.spec_tiles()[q] is Some)
        &&& forall|q: int|
            0 <= q < other.spec_tiles().len() && other.spec_tiles()[q] is Some ==> (
            #[trigger] self.spec_tiles()[q]).unwrap().resource == other.spec_tiles()[q].unwrap().resource
                && self.spec_tiles()[q].unwrap().occupants == other.spec_tiles()[q].unwrap().occupants
    }

    /// The templates agree with the grid: as many tiles as land cells, as
    /// many dice numbers as tiles that are not deserts, each a number a tile
    /// may carry, and no more tiles than a board may hold.
    pub open spec fn template_wf(&self) -> bool {
        &&& land_count(self.spec_tiles()) == total_tiles(self.spec_distribution())
        &&& total_tiles(self.spec_distribution()) - desert_tiles(self.spec_distribution())
            == self.spec_chances().len()
        &&& total_tiles(self.spec_distribution()) <= MAX_HEX
        &&& forall|k: int|
            0 <= k < self.spec_chances().len() ==> is_suitable_chance(
                #[trigger] self.spec_chances()[k] as nat,
            )
    }

    /// The board is well formed: grid, slots and templates.
    pub open spec fn wf(&self) -> bool {
        &&& self.grid_wf()
        &&& self.graph_wf()
        &&& self.template_wf()
    }

    /// This board has the grid and the templates that `m` describes.
    pub open spec fn describes(&self, m: MapSpec) -> bool {
        &&& self.spec_width() == m.columns + 2
        &&& self.spec_height() == m.rows.len() + 2
        &&& self.spec_distribution() == m.resources
        &&& self.spec_chances() == m.chances
        &&& forall|i: int, j: int| self.in_grid(i, j) ==> (#[trigger] self.land(i, j) <==> is_land(m, i, j))
    }

    fn index(&self, i: usize, j: usize) -> (r: usize)
        requires
            self.spec_tiles().len() == self.spec_width() * self.spec_height(),
            self.in_grid(i as int, j as int),
        ensures
            r == cell(self.spec_width(), i as int, j as int),
            r < self.spec_tiles().len(),
    {
        let n = self.tiles.len();
        proof {
            lemma_cell_bounds(self.width as int, self.height as int, i as int, j as int);
        }
        j * self.width + i
    }

    fn is_land_at(&self, i: usize, j: usize) -> (r: bool)
        requires
            self.spec_tiles().len() == self.spec_width() * self.spec_height(),
            self.in_grid(i as int, j as int),
        ensures
            r == self.land(i as int, j as int),
    {
        let q = self.index(i, j);
        self.tiles[q].is_some()
    }

    /// Names slot `s` at corner `c` of the land tile `(x, y)`.
    fn link(&mut self, x: usize, y: usize, c: usize, s: usize)
        requires
            old(self).grid_wf(),
            old(self).land(x as int, y as int),
            c < 6,
        ensures
            final(self).grid_wf(),
            final(self).spec_width() == old(self).spec_width(),
            final(self).spec_height() == old(self).spec_height(),
            final(self).spec_slots() == old(self).spec_slots(),
            final(self).spec_distribution() == old(self).spec_distribution(),
            final(self).spec_chances() == old(self).spec_chances(),
            final(self).spec_tiles().len() == old(self).spec_tiles().len(),
            forall|i: int, j: int| #[trigger] final(self).land(i, j) == old(self).land(i, j),
            forall|i: int, j: int, c2: int|
                old(self).land(i, j) && 0 <= c2 < 6 ==> #[trigger] final(self).corner(i, j, c2) == if (i, j, c2) == (
                    x as int,
                    y as int,
                    c as int,
                ) {
                    Some(s)
                } else {
                    old(self).corner(i, j, c2)
                },
            final(self).keeps_tiles(&*old(self)),
    {
        let q = self.index(x, y);
        let old_h = self.tiles[q].unwrap();
        let mut h = old_h;
        h.corners[c] = Some(s);
        assert(h.corners@ == old_h.corners@.update(c as int, Some(s)));
        self.tiles.set(q, Some(h));
        proof {
            assert forall|i: int, j: int| #[trigger] self.land(i, j) == old(self).land(i, j) by {
                if self.in_grid(i, j) {
                    lemma_cell_bounds(self.width as int, self.height as int, i, j);
                }
            }
            assert forall|i: int, j: int, c2: int|
                old(self).land(i, j) && 0 <= c2 < 6 implies #[trigger] self.corner(i, j, c2) == if (i, j, c2) == (
                    x as int,
                    y as int,
                    c as int,
                ) {
                    Some(s)
                } else {
                    old(self).corner(i, j, c2)
                } by {
                lemma_cell_bounds(self.width as int, self.height as int, i, j);
                if cell(self.width as int, i, j) == q {
                    lemma_cell_injective(self.width as int, i, j, x as int, y as int);
                    assert(self.tile(i, j) == Some(h));
                    assert(old(self).tile(i, j) == Some(old_h));
                } else {
                    assert(self.tile(i, j) == old(self).tile(i, j));
                }
            }
        }
    }

    /// Makes a slot for corner `c` of the land tile `(i, j)`, which has none
    /// yet, and names it at that corner of every land tile that meets there.
    fn make_slot(&mut self, i: usize, j: usize, c: usize)
        requires
            old(self).grid_wf(),
            old(self).land(i as int, j as int),
            c < 6,
            old(self).corner(i as int, j as int, c as int) is None,
            old(self).slots_wf(),
            old(self).corners_consistent(),
            old(self).corners_shared(),
        ensures
            final(self).grid_wf(),
            final(self).slots_wf(),
            final(self).corners_consistent(),
            final(self).corners_shared(),
            final(self).spec_width() == old(self).spec_width(),
            final(self).spec_height() == old(self).spec_height(),
            final(self).spec_distribution() == old(self).spec_distribution(),
            final(self).spec_chances() == old(self).spec_chances(),
            final(self).spec_tiles().len() == old(self).spec_tiles().len(),
            forall|x: int, y: int| #[trigger] final(self).land(x, y) == old(self).land(x, y),
            final(self).corner(i as int, j as int, c as int) is Some,
            final(self).spec_slots().len() == old(self).spec_slots().len() + 1,
            forall|t: int| 0 <= t < old(self).spec_slots().len() ==> #[trigger] final(self).spec_slots()[t] == old(self).spec_slots()[t],
            final(self).spec_slots().last().building == Building::Empty,
            final(self).spec_slots().last().owner == 0,
            forall|x: int, y: int, d: int|
                old(self).land(x, y) && 0 <= d < 6 && old(self).corner(x, y, d) is Some
                    ==> #[trigger] final(self).corner(x, y, d) == old(self).corner(x, y, d),
            final(self).keeps_tiles(&*old(self)),
    {
        let ghost b0 = *self;
        let s = self.buildings.len();
        proof {
            lemma_sharers_distinct(i as int, j as int, c as int);
        }
        let (x0, y0, c0) = sharer_exec(i, j, c, 0);
        let (x1, y1, c1) = sharer_exec(i, j, c, 1);
        let l0 = self.is_land_at(x0, y0);
        let l1 = self.is_land_at(x1, y1);
        let mut st = Structure::new(Building::Empty, (i, j, c));
        st.hexes[0] = Some((i, j));
        if l0 {
            st.hexes[1] = Some((x0, y0));
        }
        if l1 {
            st.hexes[2] = Some((x1, y1));
        }
        self.buildings.push(st);
        let ghost b1 = *self;
        proof {
            assert(self.spec_tiles() == b0.spec_tiles());
            assert forall|x: int, y: int| #[trigger] self.land(x, y) == b0.land(x, y) by {}
            assert(self.grid_wf());
        }
        self.link(i, j, c, s);
        let ghost b2 = *self;
        if l0 {
            self.link(x0, y0, c0, s);
        }
        let ghost b3 = *self;
        if l1 {
            self.link(x1, y1, c1, s);
        }
        proof {
            let ghost u = |x: int, y: int, d: int|
                (x, y, d) == (i as int, j as int, c as int) || (l0 && (x, y, d) == (x0 as int, y0 as int, c0 as int)) || (l1 && (
                x,
                y,
                d,
            ) == (x1 as int, y1 as int, c1 as int));
            assert forall|x: int, y: int, d: int| b0.land(x, y) && 0 <= d < 6 implies #[trigger] self.corner(x, y, d) == if u(x, y, d) {
                Some(s)
            } else {
                b0.corner(x, y, d)
            } by {
                assert(b1.corner(x, y, d) == b0.corner(x, y, d));
                assert(b2.land(x, y));
                assert(b3.land(x, y));
            }
            // The slots at the sharers' corners were unset, as at (i, j, c).
            if l0 {
                assert(b0.corner(x0 as int, y0 as int, c0 as int) == b0.corner(i as int, j as int, c as int));
            }
            if l1 {
                assert(b0.corner(x1 as int, y1 as int, c1 as int) == b0.corner(i as int, j as int, c as int));
            }
            assert forall|x: int, y: int, d: int| b0.land(x, y) && 0 <= d < 6 && u(x, y, d) implies same_corner(x, y, d, i as int, j as int, c as int) && b0.corner(x, y, d) is None by {
                lemma_same_corner_sharers(i as int, j as int, c as int, x, y, d);
                lemma_same_corner_sharers(x, y, d, i as int, j as int, c as int);
            }
            assert forall|x: int, y: int, d: int| b0.land(x, y) && 0 <= d < 6 && same_corner(x, y, d, i as int, j as int, c as int) implies u(x, y, d) by {
                lemma_same_corner_sharers(i as int, j as int, c as int, x, y, d);
            }
            assert forall|t: int| 0 <= t < self.spec_slots().len() implies #[trigger] self.slot_wf(t) by {
                if t < s {
                    assert(b0.slot_wf(t));
                    assert(self.anchor_of(t) == b0.anchor_of(t));
                    let a = b0.anchor_of(t);
                    assert(self.sharer_tile(a, 0) == b0.sharer_tile(a, 0));
                    assert(self.sharer_tile(a, 1) == b0.sharer_tile(a, 1));
                } else {
                    let a = self.anchor_of(t);
                    assert(a == (i as int, j as int, c as int));
                    assert(self.sharer_tile(a, 0) == b0.sharer_tile(a, 0));
                    assert(self.sharer_tile(a, 1) == b0.sharer_tile(a, 1));
                }
            }
            assert forall|x: int, y: int, d: int|
                self.land(x, y) && 0 <= d < 6 && (#[trigger] self.corner(x, y, d)) is Some implies {
                    let t = self.corner(x, y, d).unwrap() as int;
                    &&& t < self.spec_slots().len()
                    &&& same_corner(x, y, d, self.anchor_of(t).0, self.anchor_of(t).1, self.anchor_of(t).2)
                } by {
                if !u(x, y, d) {
                    let t = b0.corner(x, y, d).unwrap() as int;
                    assert(self.anchor_of(t) == b0.anchor_of(t));
                }
            }
            assert forall|x: int, y: int, d: int, k: int|
                #![trigger self.corner(x, y, d), sharer(x, y, d, k)]
                self.land(x, y) && 0 <= d < 6 && 0 <= k < 2 && self.land(sharer(x, y, d, k).0, sharer(x, y, d, k).1)
                implies self.corner(sharer(x, y, d, k).0, sharer(x, y, d, k).1, sharer(x, y, d, k).2) == self.corner(x, y, d) by {
                let q = sharer(x, y, d, k);
                lemma_sharers_distinct(x, y, d);
                lemma_same_corner_sharers(x, y, d, q.0, q.1, q.2);
                assert(b0.corner(q.0, q.1, q.2) == b0.corner(x, y, d));
                assert(self.corner(q.0, q.1, q.2) == if u(q.0, q.1, q.2) { Some(s) } else { b0.corner(q.0, q.1, q.2) });
            }
        }
    }

    /// Makes the structure slots: one for each corner of the board where land
    /// tiles meet, named at that corner of each of them.
    fn gen_structure_positions(&mut self)
        requires
            old(self).grid_wf(),
            old(self).spec_slots().len() == 0,
            forall|i: int, j: int, c: int|
                old(self).land(i, j) && 0 <= c < 6 ==> (#[trigger] old(self).corner(i, j, c)) is None,
        ensures
            final(self).grid_wf(),
            final(self).graph_wf(),
            forall|t: int|
                0 <= t < final(self).spec_slots().len() ==> (#[trigger] final(self).spec_slots()[t]).building == Building::Empty
                    && final(self).spec_slots()[t].owner == 0,
            final(self).spec_width() == old(self).spec_width(),
            final(self).spec_height() == old(self).spec_height(),
            final(self).spec_distribution() == old(self).spec_distribution(),
            final(self).spec_chances() == old(self).spec_chances(),
            final(self).spec_tiles().len() == old(self).spec_tiles().len(),
            final(self).keeps_tiles(&*old(self)),
    {
        if self.height < 2 || self.width < 2 {
            proof {
                assert forall|i: int, j: int, c: int| self.land(i, j) && 0 <= c < 6 implies (#[trigger] self.corner(i, j, c)) is Some by {
                    assert(self.land(i, j));
                }
            }
            return;
        }
        let mut j: usize = 1;
        while j < self.height - 1
            invariant
                self.grid_wf(),
                self.slots_wf(),
                self.corners_consistent(),
                self.corners_shared(),
                forall|t: int|
                    0 <= t < self.spec_slots().len() ==> (#[trigger] self.spec_slots()[t]).building == Building::Empty
                        && self.spec_slots()[t].owner == 0,
                1 <= j <= self.height - 1,
                self.height >= 2,
                self.width >= 2,
                self.spec_width() == old(self).spec_width(),
                self.spec_height() == old(self).spec_height(),
                self.spec_distribution() == old(self).spec_distribution(),
                self.spec_chances() == old(self).spec_chances(),
                self.spec_tiles().len() == old(self).spec_tiles().len(),
                forall|x: int, y: int| #[trigger] self.land(x, y) == old(self).land(x, y),
                forall|x: int, y: int, d: int|
                    self.land(x, y) && y < j && 0 <= d < 6 ==> (#[trigger] self.corner(x, y, d)) is Some,
                self.keeps_tiles(&*old(self)),
            decreases self.height - j,
        {
            let mut i: usize = 1;
            while i < self.width - 1
                invariant
                    self.grid_wf(),
                    self.slots_wf(),
                    self.corners_consistent(),
                    self.corners_shared(),
                    forall|t: int|
                        0 <= t < self.spec_slots().len() ==> (#[trigger] self.spec_slots()[t]).building == Building::Empty
                            && self.spec_slots()[t].owner == 0,
                    1 <= j < self.height - 1,
                    1 <= i <= self.width - 1,
                    self.height >= 2,
                    self.width >= 2,
                    self.spec_width() == old(self).spec_width(),
                    self.spec_height() == old(self).spec_height(),
                    self.spec_distribution() == old(self).spec_distribution(),
                    self.spec_chances() == old(self).spec_chances(),
                    self.spec_tiles().len() == old(self).spec_tiles().len(),
                    forall|x: int, y: int| #[trigger] self.land(x, y) == old(self).land(x, y),
                    forall|x: int, y: int, d: int|
                        self.land(x, y) && (y < j || (y == j && x < i)) && 0 <= d < 6 ==> (
                        #[trigger] self.corner(x, y, d)) is Some,
                    self.keeps_tiles(&*old(self)),
                decreases self.width - i,
            {
                if self.is_land_at(i, j) {
                    let mut c: usize = 0;
                    while c < 6
                        invariant
                            self.grid_wf(),
                            self.slots_wf(),
                            self.corners_consistent(),
                            self.corners_shared(),
                            forall|t: int|
                                0 <= t < self.spec_slots().len() ==> (#[trigger] self.spec_slots()[t]).building == Building::Empty
                                    && self.spec_slots()[t].owner == 0,
                            1 <= j < self.height - 1,
                            1 <= i < self.width - 1,
                            c <= 6,
                            self.land(i as int, j as int),
                            self.spec_width() == old(self).spec_width(),
                            self.spec_height() == old(self).spec_height(),
                            self.spec_distribution() == old(self).spec_distribution(),
                            self.spec_chances() == old(self).spec_chances(),
                            self.spec_tiles().len() == old(self).spec_tiles().len(),
                            forall|x: int, y: int| #[trigger] self.land(x, y) == old(self).land(x, y),
                            forall|x: int, y: int, d: int|
                                self.land(x, y) && (y < j || (y == j && x < i) || (y == j && x == i && d < c)) && 0 <= d < 6 ==> (
                                #[trigger] self.corner(x, y, d)) is Some,
                            self.keeps_tiles(&*old(self)),
                        decreases 6 - c,
                    {
                        let q = self.index(i, j);
                        if self.tiles[q].unwrap().corners[c].is_none() {
                            self.make_slot(i, j, c);
                        }
                        c = c + 1;
                    }
                }
                i = i + 1;
            }
            j = j + 1;
        }
        proof {
            assert forall|i: int, j: int, c: int| self.land(i, j) && 0 <= c < 6 implies (#[trigger] self.corner(i, j, c)) is Some by {
                assert(self.land(i, j));
            }
        }
    }
}

/// Sharer `k` of corner `c` of the interior tile `(i, j)`.
fn sharer_exec(i: usize, j: usize, c: usize, k: usize) -> (r: (usize, usize, usize))
    requires
        1 <= i < usize::MAX,
        1 <= j < usize::MAX,
        c < 6,
        k < 2,
    ensures
        (r.0 as int, r.1 as int, r.2 as int) == sharer(i as int, j as int, c as int, k as int),
{
    let odd = j % 2 == 1;
    let left = if odd { i - 1 } else { i };
    let right = if odd { i } else { i + 1 };
    if c == 0 {
        if k == 0 { (left, j + 1, 2) } else { (right, j + 1, 4) }
    } else if c == 1 {
        if k == 0 { (right, j + 1, 3) } else { (i + 1, j, 5) }
    } else if c == 2 {
        if k == 0 { (i + 1, j, 4) } else { (right, j - 1, 0) }
    } else if c == 3 {
        if k == 0 { (left, j - 1, 1) } else { (right, j - 1, 5) }
    } else if c == 4 {
        if k == 0 { (left, j - 1, 0) } else { (i - 1, j, 2) }
    } else {
        if k == 0 { (left, j + 1, 3) } else { (i - 1, j, 1) }
    }
}

impl Board {
    /// A board with the grid and templates of `layout`, its land tiles being
    /// deserts with nothing on them, and its structure slots made.
    fn from_layout(layout: MapLayout, Ghost(m): Ghost<MapSpec>) -> (r: Board)
        requires
            layout.describes(m),
            land_in_rows(m.rows) == total_tiles(m.resources),
            total_tiles(m.resources) - desert_tiles(m.resources) == m.chances.len(),
            total_tiles(m.resources) <= MAX_HEX,
            forall|k: int| 0 <= k < m.chances.len() ==> is_suitable_chance(#[trigger] m.chances[k] as nat),
        ensures
            r.wf(),
            r.describes(m),
            forall|t: int|
                0 <= t < r.spec_slots().len() ==> (#[trigger] r.spec_slots()[t]).building == Building::Empty
                    && r.spec_slots()[t].owner == 0,
            forall|q: int|
                0 <= q < r.spec_tiles().len() && #[trigger] r.spec_tiles()[q] is Some ==> r.spec_tiles()[q].unwrap().resource
                    == Resource::Desert(None) && r.spec_tiles()[q].unwrap().occupants is None,
    {
        let MapLayout { resources, chances, width, height, land } = layout;
        let mut tiles: Vec<Option<Hex>> = Vec::new();
        let mut q: usize = 0;
        while q < land.len()
            invariant
                q <= land@.len(),
                tiles@.len() == q,
                forall|p: int| 0 <= p < q ==> (#[trigger] tiles@[p] is Some <==> land@[p]),
                forall|p: int|
                    0 <= p < q && #[trigger] tiles@[p] is Some ==> tiles@[p].unwrap().resource == Resource::Desert(None)
                        && tiles@[p].unwrap().occupants is None && forall|c: int| 0 <= c < 6 ==> tiles@[p].unwrap().corners@[c] is None,
                land_count(tiles@) == true_count(land@.take(q as int)),
            decreases land@.len() - q,
        {
            let ghost before = tiles@;
            assert(land@.take(q + 1).drop_last() =~= land@.take(q as int));
            if land[q] {
                tiles.push(Some(Hex::new()));
            } else {
                tiles.push(None);
            }
            assert(tiles@.drop_last() =~= before);
            q = q + 1;
        }
        assert(land@.take(q as int) =~= land@);
        let mut board = Board { buildings: Vec::new(), tiles, width, height, distribution: resources, chances };
        proof {
            assert forall|i: int, j: int| board.in_grid(i, j) implies (#[trigger] board.land(i, j) <==> is_land(m, i, j)) by {
                lemma_cell_bounds(width as int, height as int, i, j);
            }
            assert forall|i: int, j: int| #[trigger] board.land(i, j) implies 1 <= i < board.spec_width() - 1 && 1 <= j < board.spec_height() - 1 by {
                lemma_cell_bounds(width as int, height as int, i, j);
            }
            assert forall|i: int, j: int, c: int|
                board.land(i, j) && 0 <= c < 6 implies (#[trigger] board.corner(i, j, c)) is None by {
                lemma_cell_bounds(width as int, height as int, i, j);
            }
        }
        board.gen_structure_positions();
        proof {
            lemma_land_count_same(board.spec_tiles(), land@);
            assert forall|i: int, j: int| board.in_grid(i, j) implies (#[trigger] board.land(i, j) <==> is_land(m, i, j)) by {
                lemma_cell_bounds(width as int, height as int, i, j);
            }
        }
        board
    }
}

/// Tiles that are land exactly where a mask is true number as many as its
/// true entries.
proof fn lemma_land_count_same(ts: Seq<Option<Hex>>, mask: Seq<bool>)
    requires
        ts.len() == mask.len(),
        forall|p: int| 0 <= p < ts.len() ==> (#[trigger] ts[p] is Some <==> mask[p]),
    ensures
        land_count(ts) == true_count(mask),
    decreases ts.len(),
{
    if ts.len() > 0 {
        lemma_land_count_same(ts.drop_last(), mask.drop_last());
    }
}

impl Board {
    /// Reads a map description and builds its board: the grid it describes,
    /// its templates, and one structure slot for each corner where land tiles
    /// meet. The land tiles are deserts until `randomize` deals resources.
    pub fn parse(text: &str) -> (r: Result<Board, ParseMapError>)
        ensures
            match parse_text(text.spec_bytes()) {
                Ok(m) => r matches Ok(b) && b.wf() && b.describes(m) && (forall|t: int|
                    0 <= t < b.spec_slots().len() ==> (#[trigger] b.spec_slots()[t]).building == Building::Empty
                        && b.spec_slots()[t].owner == 0) && forall|q: int|
                    0 <= q < b.spec_tiles().len() && #[trigger] b.spec_tiles()[q] is Some ==> b.spec_tiles()[q].unwrap().resource
                        == Resource::Desert(None) && b.spec_tiles()[q].unwrap().occupants is None,
                Err(e) => r == Err::<Board, ParseMapError>(e),
            },
            r matches Ok(b) ==> land_count(b.spec_tiles()) == total_tiles(b.spec_distribution()),
            r matches Ok(b) ==> total_tiles(b.spec_distribution()) - desert_tiles(b.spec_distribution())
                == b.spec_chances().len() && total_tiles(b.spec_distribution()) <= MAX_HEX,
            r matches Ok(b) ==> forall|k: int|
                0 <= k < b.spec_chances().len() ==> is_suitable_chance(#[trigger] b.spec_chances()[k] as nat),
    {
        match parse_map(text) {
            Ok(layout) => {
                let ghost m = parse_text(text.spec_bytes()).unwrap();
                proof {
                    lemma_chances_suitable(text.spec_bytes());
                }
                Ok(Board::from_layout(layout, Ghost(m)))
            },
            Err(e) => Err(e),
        }
    }
}

/// Tiles that meet at a corner of the board name the same slot there, in
/// even rows and odd rows alike; and two corners of land tiles name the same
/// slot only where they are the same point of the board.
pub proof fn lemma_shared_corners(b: &Board, i: int, j: int, c: int, i2: int, j2: int, c2: int)
    requires
        b.wf(),
        b.land(i, j),
        b.land(i2, j2),
        0 <= c < 6,
        0 <= c2 < 6,
    ensures
        b.corner(i, j, c) is Some,
        same_corner(i, j, c, i2, j2, c2) ==> b.corner(i, j, c) == b.corner(i2, j2, c2),
        b.corner(i, j, c) == b.corner(i2, j2, c2) ==> same_corner(i, j, c, i2, j2, c2),
{
    assert(b.corner(i, j, c) is Some);
    assert(b.corner(i2, j2, c2) is Some);
    lemma_same_corner_sharers(i, j, c, i2, j2, c2);
    if same_corner(i, j, c, i2, j2, c2) {
        if (i2, j2, c2) != (i, j, c) {
            let k = if (i2, j2, c2) == sharer(i, j, c, 0) { 0int } else { 1int };
            assert(b.corner(sharer(i, j, c, k).0, sharer(i, j, c, k).1, sharer(i, j, c, k).2) == b.corner(i, j, c));
        }
    }
}

/// No tile with the robber on it earns anything, whatever its number.
pub proof fn lemma_robbed_yields_nothing(b: &Board, slot: int, roll: u8)
    requires
        b.wf(),
        0 <= slot < b.spec_slots().len(),
        forall|k: int| 0 <= k < 3 ==> match #[trigger] b.adjacent_tiles(slot)[k] {
            Some(h) => robbed(h),
            None => true,
        },
    ensures
        yield_of(b.spec_slots()[slot].building, b.adjacent_tiles(slot), roll) == Seq::<Resource>::empty(),
{
    let adj = b.adjacent_tiles(slot);
    let bl = b.spec_slots()[slot].building;
    assert(adj.len() == 3);
    assert(!crate::building::produces(adj[0], roll));
    assert(!crate::building::produces(adj[1], roll));
    assert(!crate::building::produces(adj[2], roll));
    assert(crate::building::yield_upto(bl, adj, roll, 0) == Seq::<Resource>::empty());
    assert(crate::building::yield_upto(bl, adj, roll, 1) == Seq::<Resource>::empty());
    assert(crate::building::yield_upto(bl, adj, roll, 2) == Seq::<Resource>::empty());
}

impl Board {
    /// The cells that slot `slot` lists as meeting at it, in its order.
    pub open spec fn adjacent_tiles(&self, slot: int) -> Seq<Option<Hex>> {
        Seq::new(
            3,
            |k: int|
                match self.spec_slots()[slot].hexes@[k] {
                    Some(t) => self.tile(t.0 as int, t.1 as int),
                    None => None,
                },
        )
    }

    /// What slot `slot` earns on dice roll `roll`: for a settlement one card,
    /// for a city two, of each tile meeting there that carries that number and
    /// has no robber on it, in the slot's order of tiles; nothing for a road
    /// or an empty slot.
    pub fn resource_yield(&self, slot: usize, roll: u8) -> (r: Vec<Resource>)
        requires
            self.wf(),
            slot < self.spec_slots().len(),
        ensures
            r@ == yield_of(self.spec_slots()[slot as int].building, self.adjacent_tiles(slot as int), roll),
    {
        let st = self.buildings[slot];
        assert(self.slot_wf(slot as int));
        let mut adjacent: [Option<Hex>; 3] = [None; 3];
        let mut k: usize = 0;
        while k < 3
            invariant
                self.wf(),
                slot < self.spec_slots().len(),
                st == self.spec_slots()[slot as int],
                self.slot_wf(slot as int),
                k <= 3,
                forall|m: int| 0 <= m < k ==> adjacent@[m] == self.adjacent_tiles(slot as int)[m],
                forall|m: int| k <= m < 3 ==> adjacent@[m] is None,
            decreases 3 - k,
        {
            let ghost before = adjacent@;
            match st.hexes[k] {
                Some((x, y)) => {
                    let q = self.index(x, y);
                    adjacent[k] = self.tiles[q];
                    assert(adjacent@ =~= before.update(k as int, self.tiles@[q as int]));
                },
                None => {},
            }
            k = k + 1;
        }
        assert(adjacent@ =~= self.adjacent_tiles(slot as int));
        st.collect_resources(&adjacent, roll)
    }

    /// Builds `building` at slot `slot`, for player `owner`.
    pub fn set_building(&mut self, slot: usize, building: Building, owner: u8)
        requires
            old(self).wf(),
            slot < old(self).spec_slots().len(),
        ensures
            final(self).wf(),
            final(self).spec_tiles() == old(self).spec_tiles(),
            final(self).spec_width() == old(self).spec_width(),
            final(self).spec_height() == old(self).spec_height(),
            final(self).spec_distribution() == old(self).spec_distribution(),
            final(self).spec_chances() == old(self).spec_chances(),
            final(self).spec_slots().len() == old(self).spec_slots().len(),
            final(self).spec_slots()[slot as int].building == building,
            final(self).spec_slots()[slot as int].owner == owner,
            forall|t: int|
                0 <= t < old(self).spec_slots().len() && t != slot ==> #[trigger] final(self).spec_slots()[t]
                    == old(self).spec_slots()[t],
            final(self).spec_slots()[slot as int].anchor == old(self).spec_slots()[slot as int].anchor,
            final(self).spec_slots()[slot as int].hexes == old(self).spec_slots()[slot as int].hexes,
    {
        let mut st = self.buildings[slot];
        st.building = building;
        st.owner = owner;
        let ghost b0 = *self;
        self.buildings.set(slot, st);
        proof {
            assert forall|t: int| 0 <= t < self.spec_slots().len() implies #[trigger] self.slot_wf(t) by {
                assert(b0.slot_wf(t));
                assert forall|x: int, y: int| #[trigger] self.land(x, y) == b0.land(x, y) by {}
                let a = self.anchor_of(t);
                assert(self.sharer_tile(a, 0) == b0.sharer_tile(a, 0));
                assert(self.sharer_tile(a, 1) == b0.sharer_tile(a, 1));
            }
            assert forall|x: int, y: int| #[trigger] self.land(x, y) == b0.land(x, y) by {}
            assert forall|t: int| 0 <= t < self.spec_slots().len() implies #[trigger] self.anchor_of(t) == b0.anchor_of(t) by {}
            assert forall|x: int, y: int, d: int|
                self.land(x, y) && 0 <= d < 6 && (#[trigger] self.corner(x, y, d)) is Some implies {
                    let t = self.corner(x, y, d).unwrap() as int;
                    &&& t < self.spec_slots().len()
                    &&& same_corner(x, y, d, self.anchor_of(t).0, self.anchor_of(t).1, self.anchor_of(t).2)
                } by {
                assert(b0.corner(x, y, d) == self.corner(x, y, d));
                let t = self.corner(x, y, d).unwrap() as int;
                assert(self.anchor_of(t) == b0.anchor_of(t));
            }
            assert forall|x: int, y: int, d: int| #[trigger] self.corner(x, y, d) == b0.corner(x, y, d) by {}
            assert(self.corners_shared());
            assert(self.corners_complete());
        }
    }

    /// Places the robber on the land tile `(i, j)`.
    pub fn rob(&mut self, i: usize, j: usize)
        requires
            old(self).wf(),
            old(self).land(i as int, j as int),
        ensures
            final(self).wf(),
            final(self).same_shape(&*old(self)),
            final(self).spec_slots() == old(self).spec_slots(),
            final(self).spec_distribution() == old(self).spec_distribution(),
            final(self).spec_chances() == old(self).spec_chances(),
            final(self).tile(i as int, j as int) == Some(Hex { occupants: Some(Occupant::Robber), ..old(self).tile(i as int, j as int).unwrap() }),
            forall|x: int, y: int|
                old(self).in_grid(x, y) && (x, y) != (i as int, j as int) ==> #[trigger] final(self).tile(x, y) == old(self).tile(x, y),
    {
        let q = self.index(i, j);
        let mut h = self.tiles[q].unwrap();
        h.rob();
        let ghost b0 = *self;
        self.tiles.set(q, Some(h));
        proof {
            lemma_same_shape_wf(b0, *self);
            assert forall|x: int, y: int|
                b0.in_grid(x, y) && (x, y) != (i as int, j as int) implies #[trigger] self.tile(x, y) == b0.tile(x, y) by {
                lemma_cell_bounds(self.width as int, self.height as int, x, y);
                if cell(self.width as int, x, y) == q {
                    lemma_cell_injective(self.width as int, x, y, i as int, j as int);
                }
            }
        }
    }
}

/// A board with the same grid, land and slots as a well-formed one, and a
/// template that fits it, is well formed.
proof fn lemma_same_shape_wf(b0: Board, b1: Board)
    requires
        b0.wf(),
        b1.spec_slots() == b0.spec_slots(),
        b1.spec_distribution() == b0.spec_distribution(),
        b1.spec_chances() == b0.spec_chances(),
        b1.same_shape(&b0),
    ensures
        b1.wf(),
        forall|x: int, y: int| #[trigger] b1.land(x, y) == b0.land(x, y),
{
    assert forall|x: int, y: int| #[trigger] b1.land(x, y) == b0.land(x, y) by {
        if b0.in_grid(x, y) {
            lemma_cell_bounds(b0.spec_width(), b0.spec_height(), x, y);
        }
    }
    assert forall|x: int, y: int, d: int| b0.land(x, y) implies #[trigger] b1.corner(x, y, d) == b0.corner(x, y, d) by {
        lemma_cell_bounds(b0.spec_width(), b0.spec_height(), x, y);
    }
    assert forall|t: int| 0 <= t < b1.spec_slots().len() implies #[trigger] b1.slot_wf(t) by {
        assert(b0.slot_wf(t));
        let a = b1.anchor_of(t);
        assert(b1.land(a.0, a.1));
        assert(b1.corner(a.0, a.1, a.2) == b0.corner(a.0, a.1, a.2));
        assert(b1.sharer_tile(a, 0) == b0.sharer_tile(a, 0));
        assert(b1.sharer_tile(a, 1) == b0.sharer_tile(a, 1));
    }
    assert forall|x: int, y: int, d: int|
        b1.land(x, y) && 0 <= d < 6 && (#[trigger] b1.corner(x, y, d)) is Some implies {
            let t = b1.corner(x, y, d).unwrap() as int;
            &&& t < b1.spec_slots().len()
            &&& same_corner(x, y, d, b1.anchor_of(t).0, b1.anchor_of(t).1, b1.anchor_of(t).2)
        } by {
        assert(b0.land(x, y));
        assert(b0.corner(x, y, d) is Some);
    }
    assert forall|x: int, y: int, d: int, k: int|
        #![trigger b1.corner(x, y, d), sharer(x, y, d, k)]
        b1.land(x, y) && 0 <= d < 6 && 0 <= k < 2 && b1.land(sharer(x, y, d, k).0, sharer(x, y, d, k).1)
        implies b1.corner(sharer(x, y, d, k).0, sharer(x, y, d, k).1, sharer(x, y, d, k).2) == b1.corner(x, y, d) by {
        let q = sharer(x, y, d, k);
        assert(b0.land(x, y));
        assert(b0.land(q.0, q.1));
        assert(b0.corner(q.0, q.1, q.2) == b0.corner(x, y, d));
    }
    assert forall|x: int, y: int, d: int| b1.land(x, y) && 0 <= d < 6 implies (#[trigger] b1.corner(x, y, d)) is Some by {
        assert(b0.land(x, y));
        assert(b0.corner(x, y, d) is Some);
    }
    lemma_land_count_shape(b0.spec_tiles(), b1.spec_tiles());
}

proof fn lemma_land_count_shape(t0: Seq<Option<Hex>>, t1: Seq<Option<Hex>>)
    requires
        t0.len() == t1.len(),
        forall|q: int| 0 <= q < t1.len() ==> (#[trigger] t1[q] is Some <==> t0[q] is Some),
    ensures
        land_count(t0) == land_count(t1),
    decreases t0.len(),
{
    if t0.len() > 0 {
        lemma_land_count_shape(t0.drop_last(), t1.drop_last());
    }
}

proof fn lemma_land_count_prefix(ts: Seq<Option<Hex>>, k: int)
    requires
        0 <= k <= ts.len(),
    ensures
        land_count(ts.take(k)) <= land_count(ts),
    decreases ts.len() - k,
{
    if k < ts.len() {
        lemma_land_count_prefix(ts, k + 1);
        assert(ts.take(k + 1).drop_last() =~= ts.take(k));
    } else {
        assert(ts.take(k) =~= ts);
    }
}

impl Board {
    /// Lays `drawn` on the land tiles, one each, row by row (scan order): the
    /// `k`-th land tile gets `drawn[k]`. Nothing else changes.
    pub fn lay_tiles(&mut self, drawn: &Vec<Resource>)
        requires
            old(self).wf(),
            drawn@.len() == land_count(old(self).spec_tiles()),
        ensures
            final(self).wf(),
            final(self).same_shape(&*old(self)),
            final(self).spec_slots() == old(self).spec_slots(),
            final(self).spec_distribution() == old(self).spec_distribution(),
            final(self).spec_chances() == old(self).spec_chances(),
            forall|q: int|
                0 <= q < old(self).spec_tiles().len() && old(self).spec_tiles()[q] is Some ==> (
                #[trigger] final(self).spec_tiles()[q]).unwrap().occupants == old(self).spec_tiles()[q].unwrap().occupants,
            placed(final(self).spec_tiles()) == drawn@,
    {
        let ghost b0 = *self;
        let ghost t0 = self.tiles@;
        let count = drawn.len();
        let mut p: usize = 0;
        let mut q: usize = 0;
        while q < self.tiles.len()
            invariant
                self.tiles@.len() == t0.len(),
                self.buildings == b0.buildings,
                self.width == b0.width,
                self.height == b0.height,
                self.distribution == b0.distribution,
                self.chances == b0.chances,
                q <= t0.len(),
                p == land_count(t0.take(q as int)),
                drawn@.len() == land_count(t0),
                count == drawn@.len(),
                placed(self.tiles@.take(q as int)) == drawn@.take(p as int),
                forall|r: int| q <= r < t0.len() ==> #[trigger] self.tiles@[r] == t0[r],
                forall|r: int| 0 <= r < t0.len() ==> (#[trigger] self.tiles@[r] is Some <==> t0[r] is Some),
                forall|r: int|
                    0 <= r < t0.len() && t0[r] is Some ==> (#[trigger] self.tiles@[r]).unwrap().corners == t0[r].unwrap().corners
                        && self.tiles@[r].unwrap().occupants == t0[r].unwrap().occupants,
            decreases t0.len() - q,
        {
            let ghost tq = self.tiles@;
            assert(t0.take(q + 1).drop_last() =~= t0.take(q as int));
            match self.tiles[q] {
                Some(h) => {
                    proof {
                        lemma_land_count_prefix(t0, q + 1);
                    }
                    let mut h2 = h;
                    h2.set_resource(drawn[p]);
                    self.tiles.set(q, Some(h2));
                    assert(self.tiles@.take(q + 1).drop_last() =~= tq.take(q as int));
                    assert(drawn@.take(p + 1) =~= drawn@.take(p as int).push(drawn@[p as int]));
                    p = p + 1;
                },
                None => {
                    assert(self.tiles@.take(q + 1).drop_last() =~= tq.take(q as int));
                },
            }
            q = q + 1;
        }
        proof {
            assert(t0.take(q as int) =~= t0);
            assert(self.tiles@.take(q as int) =~= self.tiles@);
            assert(drawn@.take(p as int) =~= drawn@);
            lemma_same_shape_wf(b0, *self);
        }
    }

    /// Deals the tiles anew from the templates: resources drawn by
    /// `draw_tiles`, shuffled once more, and laid on the land tiles row by row
    /// by `lay_tiles`.
    /// The grid, the slots and what stands on the tiles do not change.
    pub fn randomize(&mut self, rng: &mut StdRng)
        requires
            old(self).wf(),
        ensures
            final(self).wf(),
            final(self).same_shape(&*old(self)),
            final(self).spec_slots() == old(self).spec_slots(),
            final(self).spec_distribution() == old(self).spec_distribution(),
            final(self).spec_chances() == old(self).spec_chances(),
            forall|q: int|
                0 <= q < old(self).spec_tiles().len() && old(self).spec_tiles()[q] is Some ==> (
                #[trigger] final(self).spec_tiles()[q]).unwrap().occupants == old(self).spec_tiles()[q].unwrap().occupants,
            dealt_from(final(self).spec_tiles(), final(self).spec_distribution(), final(self).spec_chances()),
    {
        let drawn0 = draw_tiles(&self.distribution, &self.chances, rng);
        let mut drawn = drawn0;
        shuffle(&mut drawn, rng);
        proof {
            vstd::seq_lib::to_multiset_len(drawn@);
            vstd::seq_lib::to_multiset_len(drawn0@);
        }
        self.lay_tiles(&drawn);
        proof {
            let pl = placed(self.tiles@);
            assert forall|k: nat| k < 6 implies #[trigger] tally(pl, of_kind(k)) == tally(self.spec_distribution(), units_of(k)) by {
                lemma_tally_permutation(drawn@, drawn0@, of_kind(k));
            }
            assert forall|v: u8| #[trigger] tally(pl, carrying(v)) == tally(self.spec_chances(), equal_to(v)) by {
                lemma_tally_permutation(drawn@, drawn0@, carrying(v));
            }
            assert forall|r: int| 0 <= r < pl.len() && kind_of(#[trigger] pl[r]) == 5 implies pl[r] == Resource::Desert(None) by {
                vstd::seq_lib::to_multiset_contains(drawn@, pl[r]);
                assert(drawn@.contains(pl[r]));
                vstd::seq_lib::to_multiset_contains(drawn0@, pl[r]);
            }
        }
    }
}

impl Board {
    /// Cells per row, the border included.
    pub fn width(&self) -> (r: usize)
        ensures
            r == self.spec_width(),
    {
        self.width
    }

    /// Rows, the border included.
    pub fn height(&self) -> (r: usize)
        ensures
            r == self.spec_height(),
    {
        self.height
    }

    /// The cell in column `i` of row `j`; `None` for water and outside the grid.
    pub fn tile_at(&self, i: usize, j: usize) -> (r: Option<Hex>)
        requires
            self.grid_wf(),
        ensures
            self.in_grid(i as int, j as int) ==> r == self.tile(i as int, j as int),
            !self.in_grid(i as int, j as int) ==> r is None,
    {
        if i < self.width && j < self.height {
            let q = self.index(i, j);
            self.tiles[q]
        } else {
            None
        }
    }

    /// The number of structure slots.
    pub fn structure_count(&self) -> (r: usize)
        ensures
            r == self.spec_slots().len(),
    {
        self.buildings.len()
    }

    /// Structure slot `slot`.
    pub fn structure(&self, slot: usize) -> (r: Structure)
        requires
            slot < self.spec_slots().len(),
        ensures
            r == self.spec_slots()[slot as int],
    {
        self.buildings[slot]
    }

    /// The resource template.
    pub fn distribution(&self) -> (r: &Vec<Resource>)
        ensures
            r@ == self.spec_distribution(),
    {
        &self.distribution
    }

    /// The dice numbers to be dealt.
    pub fn chances(&self) -> (r: &Vec<u8>)
        ensures
            r@ == self.spec_chances(),
    {
        &self.chances
    }
}

/// A land tile as the renderer draws it: its cell and its drawing number.
#[derive(Debug, Clone, Copy, PartialEq, Eq, Structural)]
pub struct TileRecord {
    pub column: usize,
    pub row: usize,
    pub meta: u32,
}

/// A structure slot as the renderer draws it: the tile and corner it lies at,
/// and its drawing number.
#[derive(Debug, Clone, Copy, PartialEq, Eq, Structural)]
pub struct SlotRecord {
    pub column: usize,
    pub row: usize,
    pub corner: usize,
    pub meta: u16,
}

impl Board {
    /// The records of the land tiles among the first `q` cells, row by row.
    pub open spec fn tile_records_upto(&self, q: int) -> Seq<TileRecord>
        decreases q,
    {
        if q <= 0 {
            Seq::empty()
        } else {
            let rest = self.tile_records_upto(q - 1);
            match self.spec_tiles()[q - 1] {
                Some(h) => rest.push(
                    TileRecord {
                        column: ((q - 1) % self.spec_width()) as usize,
                        row: ((q - 1) / self.spec_width()) as usize,
                        meta: hex_meta(h.resource),
                    },
                ),
                None => rest,
            }
        }
    }

    /// The land tiles, row by row, each with its drawing number.
    pub fn hex_buffers(&self) -> (r: Vec<TileRecord>)
        requires
            self.grid_wf(),
        ensures
            r@ == self.tile_records_upto(self.spec_tiles().len() as int),
    {
        let mut r: Vec<TileRecord> = Vec::new();
        let n = self.tiles.len();
        let mut q: usize = 0;
        let mut i: usize = 0;
        let mut j: usize = 0;
        if n > 0 {
            assert(self.width > 0) by (nonlinear_arith)
                requires
                    n > 0,
                    n == self.width * self.height,
            ;
        }
        while q < n
            invariant
                self.grid_wf(),
                n == self.spec_tiles().len(),
                q <= n,
                q == j * self.width + i,
                q < n ==> i < self.width,
                r@ == self.tile_records_upto(q as int),
            decreases n - q,
        {
            assert(self.width > 0) by (nonlinear_arith)
                requires
                    q < n,
                    n == self.width * self.height,
            ;
            proof {
                vstd::arithmetic::div_mod::lemma_fundamental_div_mod_converse(q as int, self.width as int, j as int, i as int);
            }
            match self.tiles[q] {
                Some(h) => {
                    r.push(TileRecord { column: i, row: j, meta: h.meta() });
                },
                None => {},
            }
            let ghost (ii, jj) = (i as int, j as int);
            q = q + 1;
            if i + 1 == self.width {
                i = 0;
                j = j + 1;
                assert(q == j * self.width + i) by (nonlinear_arith)
                    requires
                        q == jj * self.width + ii + 1,
                        ii + 1 == self.width,
                        j == jj + 1,
                        i == 0,
                ;
                if q < n {
                    assert(self.width > 0);
                }
            } else {
                i = i + 1;
            }
        }
        r
    }

    /// The structure slots, each with the tile and corner it lies at and its
    /// drawing number.
    pub fn building_buffers(&self) -> (r: Vec<SlotRecord>)
        ensures
            r@.len() == self.spec_slots().len(),
            forall|t: int|
                0 <= t < r@.len() ==> #[trigger] r@[t] == (SlotRecord {
                    column: self.spec_slots()[t].anchor.0,
                    row: self.spec_slots()[t].anchor.1,
                    corner: self.spec_slots()[t].anchor.2,
                    meta: slot_meta(self.spec_slots()[t]),
                }),
    {
        let mut r: Vec<SlotRecord> = Vec::new();
        let mut t: usize = 0;
        while t < self.buildings.len()
            invariant
                t <= self.spec_slots().len(),
                r@.len() == t,
                forall|u: int|
                    0 <= u < t ==> #[trigger] r@[u] == (SlotRecord {
                        column: self.spec_slots()[u].anchor.0,
                        row: self.spec_slots()[u].anchor.1,
                        corner: self.spec_slots()[u].anchor.2,
                        meta: slot_meta(self.spec_slots()[u]),
                    }),
            decreases self.spec_slots().len() - t,
        {
            let st = self.buildings[t];
            r.push(SlotRecord { column: st.anchor.0, row: st.anchor.1, corner: st.anchor.2, meta: st.meta() });
            t = t + 1;
        }
        r
    }
}

/// How far the rows above and below row `j` are shifted against it, in
/// columns: rows alternate, even rows lying half a tile to the right.
pub open spec fn row_offset(j: int) -> int {
    if j % 2 == 0 {
        0
    } else {
        -1
    }
}

/// The corner graph of a well-formed board, neighbour by neighbour. For a land
/// tile `(i, j)` with `e = row_offset(j)`, its neighbours are up left
/// `(i + e, j + 1)`, up right `(i + e + 1, j + 1)`, right `(i + 1, j)`, down
/// right `(i + e + 1, j - 1)`, down left `(i + e, j - 1)` and left `(i - 1, j)`;
/// each neighbour that is land names, at the corner it shares with the tile,
/// the same slot as the tile (corners: 0 top, 1 top right, 2 bottom right,
/// 3 bottom, 4 bottom left, 5 top left).
pub proof fn lemma_neighbour_table(b: &Board, i: int, j: int)
    requires
        b.wf(),
        b.land(i, j),
    ensures
        b.land(i + row_offset(j), j + 1) ==> b.corner(i + row_offset(j), j + 1, 2) == b.corner(i, j, 0),
        b.land(i + row_offset(j) + 1, j + 1) ==> b.corner(i + row_offset(j) + 1, j + 1, 4) == b.corner(i, j, 0),
        b.land(i + row_offset(j) + 1, j + 1) ==> b.corner(i + row_offset(j) + 1, j + 1, 3) == b.corner(i, j, 1),
        b.land(i + 1, j) ==> b.corner(i + 1, j, 5) == b.corner(i, j, 1),
        b.land(i + 1, j) ==> b.corner(i + 1, j, 4) == b.corner(i, j, 2),
        b.land(i + row_offset(j) + 1, j - 1) ==> b.corner(i + row_offset(j) + 1, j - 1, 0) == b.corner(i, j, 2),
        b.land(i + row_offset(j), j - 1) ==> b.corner(i + row_offset(j), j - 1, 1) == b.corner(i, j, 3),
        b.land(i + row_offset(j) + 1, j - 1) ==> b.corner(i + row_offset(j) + 1, j - 1, 5) == b.corner(i, j, 3),
        b.land(i + row_offset(j), j - 1) ==> b.corner(i + row_offset(j), j - 1, 0) == b.corner(i, j, 4),
        b.land(i - 1, j) ==> b.corner(i - 1, j, 2) == b.corner(i, j, 4),
        b.land(i + row_offset(j), j + 1) ==> b.corner(i + row_offset(j), j + 1, 3) == b.corner(i, j, 5),
        b.land(i - 1, j) ==> b.corner(i - 1, j, 1) == b.corner(i, j, 5),
{
    let e = row_offset(j);
    assert(sharer(i, j, 0, 0) == (i + e, j + 1, 2int) && sharer(i, j, 0, 1) == (i + e + 1, j + 1, 4int));
    assert(sharer(i, j, 1, 0) == (i + e + 1, j + 1, 3int) && sharer(i, j, 1, 1) == (i + 1, j, 5int));
    assert(sharer(i, j, 2, 0) == (i + 1, j, 4int) && sharer(i, j, 2, 1) == (i + e + 1, j - 1, 0int));
    assert(sharer(i, j, 3, 0) == (i + e, j - 1, 1int) && sharer(i, j, 3, 1) == (i + e + 1, j - 1, 5int));
    assert(sharer(i, j, 4, 0) == (i + e, j - 1, 0int) && sharer(i, j, 4, 1) == (i - 1, j, 2int));
    assert(sharer(i, j, 5, 0) == (i + e, j + 1, 3int) && sharer(i, j, 5, 1) == (i - 1, j, 1int));
}

} // verus!
