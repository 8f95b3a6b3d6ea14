use vstd::prelude::*;

verus! {

/// A terrain on the board. The number that each variant carries is a count in
/// a distribution template and the dice number of a tile once it is placed.
/// A desert carries no dice number; in a template it carries its count.
#[derive(Debug, Clone, Copy, PartialEq, Eq, Structural)]
pub enum Resource {
    Wood(u8),
    Brick(u8),
    Ore(u8),
    Wheat(u8),
    Sheep(u8),
    Desert(Option<u8>),
}

/// Development cards.
#[derive(Debug, Clone, Copy, PartialEq, Eq, Structural)]
pub enum Gamble {
    Knight(u8),
    RoadBuilder(u8),
    YearOfPlenty(u8),
    Monopoly(u8),
    Victory(u8),
}

/// Pieces that may stand on a tile.
#[derive(Debug, Clone, Copy, PartialEq, Eq, Structural)]
pub enum Occupant {
    Robber,
    Merchant,
}

/// The number of the terrain kind of a resource: wood, brick, ore, wheat,
/// sheep and desert in that order.
pub open spec fn kind_of(r: Resource) -> nat {
    match r {
        Resource::Wood(_) => 0,
        Resource::Brick(_) => 1,
        Resource::Ore(_) => 2,
        Resource::Wheat(_) => 3,
        Resource::Sheep(_) => 4,
        Resource::Desert(_) => 5,
    }
}

/// The resource of kind `kind` (as numbered by `kind_of`) carrying `val`;
/// a desert carries nothing.
pub open spec fn with_value(kind: nat, val: u8) -> Resource {
    if kind == 0 {
        Resource::Wood(val)
    } else if kind == 1 {
        Resource::Brick(val)
    } else if kind == 2 {
        Resource::Ore(val)
    } else if kind == 3 {
        Resource::Wheat(val)
    } else if kind == 4 {
        Resource::Sheep(val)
    } else {
        Resource::Desert(None)
    }
}

/// The dice number that a placed resource produces on; a desert has none.
pub open spec fn token_of(r: Resource) -> Option<u8> {
    match r {
        Resource::Wood(n) => Some(n),
        Resource::Brick(n) => Some(n),
        Resource::Ore(n) => Some(n),
        Resource::Wheat(n) => Some(n),
        Resource::Sheep(n) => Some(n),
        Resource::Desert(_) => None,
    }
}

/// How many units a template entry stands for; a desert without a count
/// stands for none.
pub open spec fn count_of(r: Resource) -> nat {
    match r {
        Resource::Desert(Some(n)) => n as nat,
        Resource::Desert(None) => 0,
        _ => token_of(r).unwrap() as nat,
    }
}

/// The template entry of the kind of `r`, standing for `n` units.
pub open spec fn with_count(r: Resource, n: u8) -> Resource {
    match r {
        Resource::Wood(_) => Resource::Wood(n),
        Resource::Brick(_) => Resource::Brick(n),
        Resource::Ore(_) => Resource::Ore(n),
        Resource::Wheat(_) => Resource::Wheat(n),
        Resource::Sheep(_) => Resource::Sheep(n),
        Resource::Desert(_) => Resource::Desert(Some(n)),
    }
}

impl Resource {
    /// The same kind of resource, carrying `val` (a desert carries nothing).
    pub fn clone_with_value(&self, val: u8) -> (r: Resource)
        ensures
            r == with_value(kind_of(*self), val),
    {
        match self {
            Resource::Desert(_) => Resource::Desert(None),
            Resource::Wood(_) => Resource::Wood(val),
            Resource::Brick(_) => Resource::Brick(val),
            Resource::Ore(_) => Resource::Ore(val),
            Resource::Wheat(_) => Resource::Wheat(val),
            Resource::Sheep(_) => Resource::Sheep(val),
        }
    }

    /// The dice number of a placed resource; `None` for a desert.
    pub fn chance(&self) -> (r: Option<u8>)
        ensures
            r == token_of(*self),
    {
        match self {
            Resource::Desert(_) => None,
            Resource::Wood(n) => Some(*n),
            Resource::Brick(n) => Some(*n),
            Resource::Ore(n) => Some(*n),
            Resource::Wheat(n) => Some(*n),
            Resource::Sheep(n) => Some(*n),
        }
    }

    /// How many units this template entry stands for.
    pub fn units(&self) -> (r: u8)
        ensures
            r as nat == count_of(*self),
    {
        match self {
            Resource::Desert(Some(n)) => *n,
            Resource::Desert(None) => 0,
            Resource::Wood(n) => *n,
            Resource::Brick(n) => *n,
            Resource::Ore(n) => *n,
            Resource::Wheat(n) => *n,
            Resource::Sheep(n) => *n,
        }
    }

    /// The same kind of template entry, standing for `n` units.
    pub fn with_units(&self, n: u8) -> (r: Resource)
        ensures
            r == with_count(*self, n),
            kind_of(r) == kind_of(*self),
            count_of(r) == n as nat,
    {
        match self {
            Resource::Desert(_) => Resource::Desert(Some(n)),
            Resource::Wood(_) => Resource::Wood(n),
            Resource::Brick(_) => Resource::Brick(n),
            Resource::Ore(_) => Resource::Ore(n),
            Resource::Wheat(_) => Resource::Wheat(n),
            Resource::Sheep(_) => Resource::Sheep(n),
        }
    }

    /// Whether this is a desert.
    pub fn is_desert(&self) -> (r: bool)
        ensures
            r == (kind_of(*self) == 5),
    {
        match self {
            Resource::Desert(_) => true,
            _ => false,
        }
    }
}

} // verus!
