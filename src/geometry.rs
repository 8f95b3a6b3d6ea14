use vstd::prelude::*;

verus! {

// Tiles are pointy-topped hexagons. Row `j + 1` lies above row `j`, and even
// rows are shifted half a tile to the right. A corner is measured in half tile
// widths across and in quarter tile heights up, so that every corner of the
// board has integer coordinates.
//
// Corners are numbered clockwise from the top: top, top right, bottom right,
// bottom, bottom left, top left.
pub const TOP: usize = 0;

pub const TOP_RIGHT: usize = 1;

pub const BOTTOM_RIGHT: usize = 2;

pub const BOTTOM: usize = 3;

pub const BOTTOM_LEFT: usize = 4;

pub const TOP_LEFT: usize = 5;

/// Half a tile width for tiles of even rows, which are shifted right.
pub open spec fn row_shift(j: int) -> int {
    if j % 2 == 0 {
        1
    } else {
        0
    }
}

pub open spec fn corner_dx(c: int) -> int {
    if c == 0 || c == 3 {
        0
    } else if c == 1 || c == 2 {
        1
    } else {
        -1
    }
}

pub open spec fn corner_dy(c: int) -> int {
    if c == 0 {
        2
    } else if c == 1 || c == 5 {
        1
    } else if c == 2 || c == 4 {
        -1
    } else {
        -2
    }
}

/// Where corner `c` of tile `(i, j)` lies on the plane.
pub open spec fn corner_point(i: int, j: int, c: int) -> (int, int) {
    (2 * i + row_shift(j) + corner_dx(c), 3 * j + corner_dy(c))
}

/// Corner `c` of tile `(i, j)` and corner `c2` of tile `(i2, j2)` are the same
/// point of the board.
pub open spec fn same_corner(i: int, j: int, c: int, i2: int, j2: int, c2: int) -> bool {
    corner_point(i, j, c) == corner_point(i2, j2, c2)
}

/// The other two tiles that meet at corner `c` of tile `(i, j)`, with the
/// number of that corner on each (`k` is 0 or 1).
pub open spec fn sharer(i: int, j: int, c: int, k: int) -> (int, int, int) {
    let s = if j % 2 == 0 {
        0
    } else {
        -1
    };
    if c == 0 {
        if k == 0 {
            (i + s, j + 1, 2)
        } else {
            (i + s + 1, j + 1, 4)
        }
    } else if c == 1 {
        if k == 0 {
            (i + s + 1, j + 1, 3)
        } else {
            (i + 1, j, 5)
        }
    } else if c == 2 {
        if k == 0 {
            (i + 1, j, 4)
        } else {
            (i + s + 1, j - 1, 0)
        }
    } else if c == 3 {
        if k == 0 {
            (i + s, j - 1, 1)
        } else {
            (i + s + 1, j - 1, 5)
        }
    } else if c == 4 {
        if k == 0 {
            (i + s, j - 1, 0)
        } else {
            (i - 1, j, 2)
        }
    } else {
        if k == 0 {
            (i + s, j + 1, 3)
        } else {
            (i - 1, j, 1)
        }
    }
}

/// Three tiles meet at each corner: a tile's corner is the same point as a
/// corner of another tile exactly when that is one of its two sharers.
pub proof fn lemma_same_corner_sharers(i: int, j: int, c: int, i2: int, j2: int, c2: int)
    requires
        0 <= c < 6,
        0 <= c2 < 6,
    ensures
        same_corner(i, j, c, i2, j2, c2) <==> ((i2, j2, c2) == (i, j, c) || (i2, j2, c2) == sharer(
            i,
            j,
            c,
            0,
        ) || (i2, j2, c2) == sharer(i, j, c, 1)),
{
    assert((j + 1) % 2 == 0 <==> j % 2 != 0);
    assert((j - 1) % 2 == 0 <==> j % 2 != 0);
    if same_corner(i, j, c, i2, j2, c2) {
        let y = 3 * j + corner_dy(c);
        assert(3 * j2 + corner_dy(c2) == y);
        if j2 == j {
            assert(corner_dy(c2) == corner_dy(c));
        } else if j2 == j + 1 {
        } else if j2 == j - 1 {
        } else if j2 > j + 1 {
            assert(3 * j2 >= 3 * j + 6);
        } else {
            assert(3 * j2 <= 3 * j - 6);
        }
    }
}

/// The sharers of a corner are distinct from the tile and from each other.
pub proof fn lemma_sharers_distinct(i: int, j: int, c: int)
    requires
        0 <= c < 6,
    ensures
        (sharer(i, j, c, 0).0, sharer(i, j, c, 0).1) != (i, j),
        (sharer(i, j, c, 1).0, sharer(i, j, c, 1).1) != (i, j),
        (sharer(i, j, c, 0).0, sharer(i, j, c, 0).1) != (sharer(i, j, c, 1).0, sharer(i, j, c, 1).1),
        0 <= sharer(i, j, c, 0).2 < 6,
        0 <= sharer(i, j, c, 1).2 < 6,
        i - 1 <= sharer(i, j, c, 0).0 <= i + 1,
        i - 1 <= sharer(i, j, c, 1).0 <= i + 1,
        j - 1 <= sharer(i, j, c, 0).1 <= j + 1,
        j - 1 <= sharer(i, j, c, 1).1 <= j + 1,
{
}

} // verus!
