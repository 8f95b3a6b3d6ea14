use vstd::prelude::*;
use crate::card::{Occupant, Resource, token_of};

verus! {

/// A corner of a tile, naming the structure slot found there, if any.
#[derive(Debug, Clone, Copy, PartialEq, Eq, Structural)]
pub enum HexEdge {
    TopRight(Option<usize>),
    Top(Option<usize>),
    TopLeft(Option<usize>),
    BottomLeft(Option<usize>),
    Bottom(Option<usize>),
    BottomRight(Option<usize>),
}

/// The number of the corner a `HexEdge` stands for (top is 0, then clockwise).
pub open spec fn edge_index(e: HexEdge) -> int {
    match e {
        HexEdge::Top(_) => 0,
        HexEdge::TopRight(_) => 1,
        HexEdge::BottomRight(_) => 2,
        HexEdge::Bottom(_) => 3,
        HexEdge::BottomLeft(_) => 4,
        HexEdge::TopLeft(_) => 5,
    }
}

/// The slot a `HexEdge` names.
pub open spec fn edge_slot(e: HexEdge) -> Option<usize> {
    match e {
        HexEdge::Top(s) => s,
        HexEdge::TopRight(s) => s,
        HexEdge::BottomRight(s) => s,
        HexEdge::Bottom(s) => s,
        HexEdge::BottomLeft(s) => s,
        HexEdge::TopLeft(s) => s,
    }
}

/// A land tile: its resource, what stands on it, and the structure slot (an
/// index into the board's list of slots) at each of its six corners.
#[derive(Debug, Clone, Copy)]
pub struct Hex {
    pub resource: Resource,
    pub occupants: Option<Occupant>,
    pub corners: [Option<usize>; 6],
}

/// The number a resource is drawn with: desert 1, wood 2, brick 3, ore 4,
/// wheat 5, sheep 6.
pub open spec fn resource_id(r: Resource) -> u32 {
    match r {
        Resource::Desert(_) => 1,
        Resource::Wood(_) => 2,
        Resource::Brick(_) => 3,
        Resource::Ore(_) => 4,
        Resource::Wheat(_) => 5,
        Resource::Sheep(_) => 6,
    }
}

/// What a tile is drawn with: its resource in the low eight bits, its dice
/// number in the next eight.
pub open spec fn hex_meta(r: Resource) -> u32 {
    match token_of(r) {
        Some(n) => (resource_id(r) + 256 * n) as u32,
        None => resource_id(r),
    }
}

/// Whether the robber stands on a tile.
pub open spec fn robbed(h: Hex) -> bool {
    h.occupants == Some(Occupant::Robber)
}

impl Hex {
    /// A desert tile with nothing on it and no slots at its corners.
    pub fn new() -> (r: Hex)
        ensures
            r.resource == Resource::Desert(None),
            r.occupants is None,
            forall|c: int| 0 <= c < 6 ==> r.corners@[c] is None,
    {
        Hex { resource: Resource::Desert(None), occupants: None, corners: [None; 6] }
    }

    pub fn corners(&self) -> (r: &[Option<usize>; 6])
        ensures
            r@ == self.corners@,
    {
        &self.corners
    }

    /// The corner numbered `corner_id`.
    pub fn get_corner(&self, corner_id: usize) -> (r: HexEdge)
        requires
            corner_id < 6,
        ensures
            edge_index(r) == corner_id,
            edge_slot(r) == self.corners@[corner_id as int],
    {
        let s = self.corners[corner_id];
        if corner_id == 0 {
            HexEdge::Top(s)
        } else if corner_id == 1 {
            HexEdge::TopRight(s)
        } else if corner_id == 2 {
            HexEdge::BottomRight(s)
        } else if corner_id == 3 {
            HexEdge::Bottom(s)
        } else if corner_id == 4 {
            HexEdge::BottomLeft(s)
        } else {
            HexEdge::TopLeft(s)
        }
    }

    /// Sets the corner that `building` stands for to the slot it names.
    pub fn set_corner(&mut self, building: HexEdge)
        ensures
            final(self).resource == old(self).resource,
            final(self).occupants == old(self).occupants,
            final(self).corners@ == old(self).corners@.update(edge_index(building), edge_slot(building)),
    {
        let (index, slot): (usize, Option<usize>) = match building {
            HexEdge::Top(s) => (0, s),
            HexEdge::TopRight(s) => (1, s),
            HexEdge::BottomRight(s) => (2, s),
            HexEdge::Bottom(s) => (3, s),
            HexEdge::BottomLeft(s) => (4, s),
            HexEdge::TopLeft(s) => (5, s),
        };
        self.corners[index] = slot;
    }

    pub fn resource(&self) -> (r: Resource)
        ensures
            r == self.resource,
    {
        self.resource
    }

    pub fn set_resource(&mut self, resource: Resource)
        ensures
            final(self).resource == resource,
            final(self).occupants == old(self).occupants,
            final(self).corners == old(self).corners,
    {
        self.resource = resource;
    }

    /// What this tile is drawn with.
    pub fn meta(&self) -> (r: u32)
        ensures
            r == hex_meta(self.resource),
    {
        match self.resource {
            Resource::Desert(_) => 1,
            Resource::Wood(n) => 2 + 256 * (n as u32),
            Resource::Brick(n) => 3 + 256 * (n as u32),
            Resource::Ore(n) => 4 + 256 * (n as u32),
            Resource::Wheat(n) => 5 + 256 * (n as u32),
            Resource::Sheep(n) => 6 + 256 * (n as u32),
        }
    }

    /// Places the robber on this tile.
    pub fn rob(&mut self)
        ensures
            final(self).occupants == Some(Occupant::Robber),
            final(self).resource == old(self).resource,
            final(self).corners == old(self).corners,
    {
        self.occupants = Some(Occupant::Robber);
    }

    /// Whether the robber stands on this tile.
    pub fn is_robbed(&self) -> (r: bool)
        ensures
            r == robbed(*self),
    {
        match self.occupants {
            Some(Occupant::Robber) => true,
            _ => false,
        }
    }
}

} // verus!
