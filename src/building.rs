use vstd::prelude::*;
use crate::card::{Resource, kind_of, token_of, with_value};
use crate::hex::{Hex, robbed};

verus! {

/// What stands at a structure slot.
#[derive(Debug, Clone, Copy, PartialEq, Eq, Structural)]
pub enum Building {
    Empty,
    Road,
    Settlement,
    City,
}

/// A corner of the board where a road, a settlement or a city may be built.
/// It is shared by every tile that meets there.
#[derive(Debug, Clone, Copy)]
pub struct Structure {
    pub building: Building,
    /// The tile (column, row) and the number of its corner at which this slot
    /// was made; its place on the board follows from them.
    pub anchor: (usize, usize, usize),
    /// The tiles (column, row) that meet at this corner.
    pub hexes: [Option<(usize, usize)>; 3],
    /// The player whose building stands here.
    pub owner: u8,
}

/// The number a building is drawn with: empty 0, road 1, settlement 2, city 3.
pub open spec fn building_id(b: Building) -> u16 {
    match b {
        Building::Empty => 0,
        Building::Road => 1,
        Building::Settlement => 2,
        Building::City => 3,
    }
}

/// What a slot is drawn with: its building in the low four bits, its owner in
/// the next eight.
pub open spec fn slot_meta(s: Structure) -> u16 {
    (building_id(s.building) + 16 * s.owner) as u16
}

/// How many cards a building earns from each producing tile.
pub open spec fn cards_for(b: Building) -> u8 {
    match b {
        Building::Settlement => 1,
        Building::City => 2,
        _ => 0,
    }
}

/// Whether tile `t` produces on dice roll `roll`.
pub open spec fn produces(t: Option<Hex>, roll: u8) -> bool {
    match t {
        Some(h) => !robbed(h) && token_of(h.resource) == Some(roll),
        None => false,
    }
}

/// What a building earns on dice roll `roll` from the first `k` of the tiles
/// `adjacent`, in their order.
pub open spec fn yield_upto(b: Building, adjacent: Seq<Option<Hex>>, roll: u8, k: int) -> Seq<Resource>
    decreases k,
{
    if k <= 0 {
        Seq::empty()
    } else {
        let rest = yield_upto(b, adjacent, roll, k - 1);
        if cards_for(b) > 0 && produces(adjacent[k - 1], roll) {
            rest.push(with_value(kind_of(adjacent[k - 1].unwrap().resource), cards_for(b)))
        } else {
            rest
        }
    }
}

/// What a building earns on dice roll `roll` from the tiles `adjacent`: one
/// card (a settlement) or two (a city) of each tile that carries that number
/// and has no robber on it; nothing for a road or an empty slot.
pub open spec fn yield_of(b: Building, adjacent: Seq<Option<Hex>>, roll: u8) -> Seq<Resource> {
    yield_upto(b, adjacent, roll, adjacent.len() as int)
}

impl Structure {
    /// An empty slot at the first corner of the first cell.
    pub fn uninitialized() -> (r: Self)
        ensures
            r.building == Building::Empty,
            r.anchor == (0usize, 0usize, 0usize),
            r.owner == 0,
            forall|k: int| 0 <= k < 3 ==> r.hexes@[k] is None,
    {
        Self::new(Building::Empty, (0, 0, 0))
    }

    pub fn new(building: Building, anchor: (usize, usize, usize)) -> (r: Self)
        ensures
            r.building == building,
            r.anchor == anchor,
            r.owner == 0,
            forall|k: int| 0 <= k < 3 ==> r.hexes@[k] is None,
    {
        Structure { building, anchor, hexes: [None; 3], owner: 0 }
    }

    /// What this slot is drawn with.
    pub fn meta(&self) -> (r: u16)
        ensures
            r == slot_meta(*self),
    {
        let id: u16 = match self.building {
            Building::Empty => 0,
            Building::Road => 1,
            Building::Settlement => 2,
            Building::City => 3,
        };
        id + 16 * (self.owner as u16)
    }

    /// Records `hex` in the first free place among the adjacent tiles; when all
    /// three are taken nothing changes.
    pub fn add_hex(&mut self, hex: (usize, usize))
        ensures
            final(self).building == old(self).building,
            final(self).anchor == old(self).anchor,
            final(self).owner == old(self).owner,
            (exists|k: int|
                0 <= k < 3 && old(self).hexes@[k] is None) ==> (exists|k: int|
                0 <= k < 3 && old(self).hexes@[k] is None && (forall|m: int|
                    0 <= m < k ==> old(self).hexes@[m] is Some) && final(self).hexes@
                    == old(self).hexes@.update(k, Some(hex))),
            (forall|k: int| 0 <= k < 3 ==> old(self).hexes@[k] is Some) ==> final(self).hexes
                == old(self).hexes,
    {
        let mut i: usize = 0;
        while i < 3
            invariant
                i <= 3,
                self.building == old(self).building,
                self.anchor == old(self).anchor,
                self.owner == old(self).owner,
                self.hexes == old(self).hexes,
                forall|m: int| 0 <= m < i ==> old(self).hexes@[m] is Some,
            decreases 3 - i,
        {
            if self.hexes[i].is_none() {
                let ghost before = self.hexes@;
                self.hexes[i] = Some(hex);
                assert(self.hexes@ =~= before.update(i as int, Some(hex)));
                assert(old(self).hexes@[i as int] is None);
                return;
            }
            i = i + 1;
        }
    }

    pub fn building(&self) -> (r: Building)
        ensures
            r == self.building,
    {
        self.building
    }

    /// The tile and the corner of it at which this slot was made.
    pub fn position(&self) -> (r: (usize, usize, usize))
        ensures
            r == self.anchor,
    {
        self.anchor
    }

    /// The tiles that feed this slot: those that meet at it when a settlement
    /// or a city stands there, none otherwise.
    pub fn hexes(&self) -> (r: [Option<(usize, usize)>; 3])
        ensures
            cards_for(self.building) > 0 ==> r == self.hexes,
            cards_for(self.building) == 0 ==> forall|k: int| 0 <= k < 3 ==> r@[k] is None,
    {
        match self.building {
            Building::Settlement => self.hexes,
            Building::City => self.hexes,
            _ => [None; 3],
        }
    }

    /// What this slot earns on dice roll `roll`, given the tiles it lists
    /// (`adjacent[k]` being the tile at `hexes[k]`).
    pub fn collect_resources(&self, adjacent: &[Option<Hex>; 3], roll: u8) -> (r: Vec<Resource>)
        ensures
            r@ == yield_of(self.building, adjacent@, roll),
    {
        let mut resources: Vec<Resource> = Vec::new();
        let n: u8 = match self.building {
            Building::Settlement => 1,
            Building::City => 2,
            _ => 0,
        };
        let mut k: usize = 0;
        while k < 3
            invariant
                k <= 3,
                adjacent@.len() == 3,
                n == cards_for(self.building),
                resources@ == yield_upto(self.building, adjacent@, roll, k as int),
            decreases 3 - k,
        {
            if n > 0 {
                match adjacent[k] {
                    Some(hex) => {
                        if !hex.is_robbed() && hex.resource().chance() == Some(roll) {
                            resources.push(hex.resource().clone_with_value(n));
                        }
                    },
                    None => {},
                }
            }
            k = k + 1;
        }
        resources
    }
}

proof fn lemma_yield_upto_without(b: Building, adjacent: Seq<Option<Hex>>, roll: u8, k: int, m: int)
    requires
        0 <= k < adjacent.len(),
        0 <= m <= adjacent.len(),
        adjacent[k] matches Some(h) && robbed(h),
    ensures
        yield_upto(b, adjacent, roll, m) == yield_upto(b, adjacent.update(k, None), roll, m),
    decreases m,
{
    if m > 0 {
        lemma_yield_upto_without(b, adjacent, roll, k, m - 1);
    }
}

/// A tile with the robber on it earns nothing, whatever its dice number: the
/// yield is what it would be without that tile.
pub proof fn lemma_robbed_tile_earns_nothing(b: Building, adjacent: Seq<Option<Hex>>, roll: u8, k: int)
    requires
        0 <= k < adjacent.len(),
        adjacent[k] matches Some(h) && robbed(h),
    ensures
        yield_of(b, adjacent, roll) == yield_of(b, adjacent.update(k, None), roll),
{
    lemma_yield_upto_without(b, adjacent, roll, k, adjacent.len() as int);
}

} // verus!
