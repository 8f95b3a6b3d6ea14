use vstd::prelude::*;
use vstd::string::StringSliceAdditionalSpecFns;
use crate::card::{Resource, count_of, kind_of};
use crate::grid::{cell, lemma_cell_bounds};
use crate::text::{lemma_first_index_bounds, 
    split_on, trim, text_lines, numeral_at_most, signed_numeral, capped, parse_signed, first_index, piece, valid_range, split_range,
    trim_range, parse_number, find_line, significant_lines, range_equals,
};

verus! {

/// Why a map description was refused.
#[derive(Debug, Clone, Copy, PartialEq, Eq, Structural)]
pub enum ParseMapError {
    FileNotFound,
    NotFocm,
    ExpansionNotFound,
    ResourcesNotFound,
    ResourceParseError,
    ChanceNotFound,
    ChanceParseError,
    ChanceNotSuitable,
    HexChanceMismatch,
    MapNotFound,
    MapParseError,
    MapSizeIncompatability,
}

/// The largest number of land tiles a board may hold.
pub const MAX_HEX: u32 = 64;

pub const COMMA: u8 = 44;

pub const COLON: u8 = 58;

pub const TIMES: u8 = 120;

pub const WATER_CELL: u8 = 48;

pub const LAND_CELL: u8 = 49;

/// `__FOCM__`, the first significant line of every map description.
pub open spec fn header_tag() -> Seq<u8> {
    seq![95u8, 95u8, 70u8, 79u8, 67u8, 77u8, 95u8, 95u8]
}

/// `[EXPANSION]`
pub open spec fn expansion_tag() -> Seq<u8> {
    seq![91u8, 69u8, 88u8, 80u8, 65u8, 78u8, 83u8, 73u8, 79u8, 78u8, 93u8]
}

/// `[RESOURCES]`
pub open spec fn resources_tag() -> Seq<u8> {
    seq![91u8, 82u8, 69u8, 83u8, 79u8, 85u8, 82u8, 67u8, 69u8, 83u8, 93u8]
}

/// `[CHANCES]`
pub open spec fn chances_tag() -> Seq<u8> {
    seq![91u8, 67u8, 72u8, 65u8, 78u8, 67u8, 69u8, 83u8, 93u8]
}

/// `[MAP]`
pub open spec fn map_tag() -> Seq<u8> {
    seq![91u8, 77u8, 65u8, 80u8, 93u8]
}

/// The line that follows the first line equal to `tag`, if both exist.
pub open spec fn section_line(ls: Seq<Seq<u8>>, tag: Seq<u8>) -> Option<Seq<u8>> {
    match first_index(ls, tag) {
        Some(i) => if i + 1 < ls.len() {
            Some(ls[i + 1])
        } else {
            None
        },
        None => None,
    }
}

/// The resource named by a two-letter code (`WO`, `BR`, `OR`, `WH`, `SH`,
/// `DE`), carrying `count`.
pub open spec fn resource_of_code(code: Seq<u8>, count: u8) -> Option<Resource> {
    if code == seq![87u8, 79u8] {
        Some(Resource::Wood(count))
    } else if code == seq![66u8, 82u8] {
        Some(Resource::Brick(count))
    } else if code == seq![79u8, 82u8] {
        Some(Resource::Ore(count))
    } else if code == seq![87u8, 72u8] {
        Some(Resource::Wheat(count))
    } else if code == seq![83u8, 72u8] {
        Some(Resource::Sheep(count))
    } else if code == seq![68u8, 69u8] {
        Some(Resource::Desert(Some(count)))
    } else {
        None
    }
}

/// One `CODE:COUNT` item of the resources line; COUNT is a non-negative
/// integer of any size. A count above 255 is held as 255: either way the
/// template describes more than `MAX_HEX` tiles and is refused with
/// `HexChanceMismatch` (see `lemma_large_count_refused`).
pub open spec fn resource_item(item: Seq<u8>) -> Option<Resource> {
    let p = split_on(trim(item), COLON);
    if p.len() == 2 {
        match signed_numeral(p[1]) {
            Some((false, c)) => resource_of_code(p[0], capped(c, 255) as u8),
            _ => None,
        }
    } else {
        None
    }
}

/// The resources of all items, where each item is well formed.
pub open spec fn resource_items(items: Seq<Seq<u8>>) -> Option<Seq<Resource>>
    decreases items.len(),
{
    if items.len() == 0 {
        Some(Seq::empty())
    } else {
        match resource_items(items.drop_last()) {
            Some(rs) => match resource_item(items.last()) {
                Some(r) => Some(rs.push(r)),
                None => None,
            },
            None => None,
        }
    }
}

/// A dice number that a tile may carry: 2 to 12, but not 7.
pub open spec fn is_suitable_chance(v: nat) -> bool {
    2 <= v <= 12 && v != 7
}

/// One item of the chances line: an integer of any size and sign that is not
/// a suitable dice number is `ChanceNotSuitable`; an item that is not an
/// integer is `ChanceParseError`.
pub open spec fn chance_item(item: Seq<u8>) -> Result<u8, ParseMapError> {
    match signed_numeral(trim(item)) {
        Some((neg, v)) => if !neg && is_suitable_chance(v) {
            Ok(v as u8)
        } else {
            Err(ParseMapError::ChanceNotSuitable)
        },
        None => Err(ParseMapError::ChanceParseError),
    }
}

/// The chances of all items, or the error of the first item that fails.
pub open spec fn chance_items(items: Seq<Seq<u8>>) -> Result<Seq<u8>, ParseMapError>
    decreases items.len(),
{
    if items.len() == 0 {
        Ok(Seq::empty())
    } else {
        match chance_items(items.drop_last()) {
            Ok(cs) => match chance_item(items.last()) {
                Ok(c) => Ok(cs.push(c)),
                Err(e) => Err(e),
            },
            Err(e) => Err(e),
        }
    }
}

/// The number of tiles a template describes.
pub open spec fn total_tiles(rs: Seq<Resource>) -> nat
    decreases rs.len(),
{
    if rs.len() == 0 {
        0
    } else {
        total_tiles(rs.drop_last()) + count_of(rs.last())
    }
}

/// The number of desert tiles a template describes.
pub open spec fn desert_tiles(rs: Seq<Resource>) -> nat
    decreases rs.len(),
{
    if rs.len() == 0 {
        0
    } else {
        desert_tiles(rs.drop_last()) + if kind_of(rs.last()) == 5 {
            count_of(rs.last())
        } else {
            0
        }
    }
}

/// The `WxH` line of the map section: two numerals, such that the grid with
/// its border of water can be indexed.
pub open spec fn dims_of(line: Seq<u8>) -> Option<(nat, nat)> {
    let p = split_on(line, TIMES);
    if p.len() == 2 {
        match (numeral_at_most(p[0], usize::MAX as nat), numeral_at_most(p[1], usize::MAX as nat)) {
            (Some(w), Some(h)) => if (w + 2) * (h + 2) <= usize::MAX {
                Some((w, h))
            } else {
                None
            },
            _ => None,
        }
    } else {
        None
    }
}

/// A row of the map: `w` cells, each `0` or `1`.
pub open spec fn row_ok(row: Seq<u8>, w: nat) -> bool {
    row.len() == w && forall|i: int| 0 <= i < row.len() ==> (#[trigger] row[i] == WATER_CELL || row[i] == LAND_CELL)
}

/// The verdict on the first `n` rows of the map, which start at line `start`:
/// the first row that is missing or malformed decides.
pub open spec fn rows_status(ls: Seq<Seq<u8>>, start: int, w: nat, n: nat) -> Result<(), ParseMapError>
    decreases n,
{
    if n == 0 {
        Ok(())
    } else {
        match rows_status(ls, start, w, (n - 1) as nat) {
            Ok(()) => if start + n - 1 >= ls.len() {
                Err(ParseMapError::MapSizeIncompatability)
            } else if !row_ok(ls[start + n - 1], w) {
                Err(ParseMapError::MapParseError)
            } else {
                Ok(())
            },
            Err(e) => Err(e),
        }
    }
}

/// The number of land cells in a row.
pub open spec fn land_in_row(row: Seq<u8>) -> nat
    decreases row.len(),
{
    if row.len() == 0 {
        0
    } else {
        land_in_row(row.drop_last()) + if row.last() == LAND_CELL {
            1nat
        } else {
            0
        }
    }
}

/// The number of land cells in all rows.
pub open spec fn land_in_rows(rows: Seq<Seq<u8>>) -> nat
    decreases rows.len(),
{
    if rows.len() == 0 {
        0
    } else {
        land_in_rows(rows.drop_last()) + land_in_row(rows.last())
    }
}

/// What a map description says: the templates, and the rows of the map
/// without the border of water.
pub struct MapSpec {
    pub resources: Seq<Resource>,
    pub chances: Seq<u8>,
    pub columns: nat,
    pub rows: Seq<Seq<u8>>,
}

/// The outcome of reading a map description from its significant lines.
pub open spec fn parse_lines(ls: Seq<Seq<u8>>) -> Result<MapSpec, ParseMapError> {
    if ls.len() == 0 || ls[0] != header_tag() {
        Err(ParseMapError::NotFocm)
    } else if section_line(ls, expansion_tag()) is None {
        Err(ParseMapError::ExpansionNotFound)
    } else {
        match section_line(ls, resources_tag()) {
            None => Err(ParseMapError::ResourcesNotFound),
            Some(rl) => match resource_items(split_on(rl, COMMA)) {
                None => Err(ParseMapError::ResourceParseError),
                Some(res) => match section_line(ls, chances_tag()) {
                    None => Err(ParseMapError::ChanceNotFound),
                    Some(cl) => match chance_items(split_on(cl, COMMA)) {
                        Err(e) => Err(e),
                        Ok(ch) => parse_map_section(ls, res, ch),
                    },
                },
            },
        }
    }
}

/// The outcome once the templates are read: their counts are checked, then
/// the map section is read.
pub open spec fn parse_map_section(ls: Seq<Seq<u8>>, res: Seq<Resource>, ch: Seq<u8>) -> Result<
    MapSpec,
    ParseMapError,
> {
    if total_tiles(res) - desert_tiles(res) != ch.len() || total_tiles(res) > MAX_HEX {
        Err(ParseMapError::HexChanceMismatch)
    } else {
        match first_index(ls, map_tag()) {
            None => Err(ParseMapError::MapNotFound),
            Some(m) => if m + 1 >= ls.len() {
                Err(ParseMapError::MapNotFound)
            } else {
                match dims_of(ls[m + 1]) {
                    None => Err(ParseMapError::MapParseError),
                    Some((w, h)) => match rows_status(ls, m + 2, w, h) {
                        Err(e) => Err(e),
                        Ok(()) => {
                            let rows = ls.subrange(m + 2, m + 2 + h);
                            if land_in_rows(rows) != total_tiles(res) {
                                Err(ParseMapError::MapSizeIncompatability)
                            } else {
                                Ok(MapSpec { resources: res, chances: ch, columns: w, rows })
                            }
                        },
                    },
                }
            },
        }
    }
}

/// The outcome of reading the map description `t`.
pub open spec fn parse_text(t: Seq<u8>) -> Result<MapSpec, ParseMapError> {
    parse_lines(text_lines(t))
}

fn code_resource(t: &[u8], r: (usize, usize), count: u8) -> (res: Option<Resource>)
    requires
        valid_range(t@, r),
    ensures
        res == resource_of_code(piece(t@, r), count),
{
    let ghost p = piece(t@, r);
    if r.1 - r.0 != 2 {
        proof {
            assert(p.len() != 2);
            assert(seq![87u8, 79u8].len() == 2);
        }
        return None;
    }
    let a = t[r.0];
    let b = t[r.0 + 1];
    assert(p =~= seq![a, b]);
    if a == 87 && b == 79 {
        Some(Resource::Wood(count))
    } else if a == 66 && b == 82 {
        Some(Resource::Brick(count))
    } else if a == 79 && b == 82 {
        Some(Resource::Ore(count))
    } else if a == 87 && b == 72 {
        Some(Resource::Wheat(count))
    } else if a == 83 && b == 72 {
        Some(Resource::Sheep(count))
    } else if a == 68 && b == 69 {
        Some(Resource::Desert(Some(count)))
    } else {
        proof {
            assert(p != seq![87u8, 79u8] && p != seq![66u8, 82u8] && p != seq![79u8, 82u8]) by {
                assert(seq![87u8, 79u8][0] == 87u8 && seq![87u8, 79u8][1] == 79u8);
                assert(seq![66u8, 82u8][0] == 66u8 && seq![66u8, 82u8][1] == 82u8);
                assert(seq![79u8, 82u8][0] == 79u8 && seq![79u8, 82u8][1] == 82u8);
            }
            assert(p != seq![87u8, 72u8] && p != seq![83u8, 72u8] && p != seq![68u8, 69u8]) by {
                assert(seq![87u8, 72u8][0] == 87u8 && seq![87u8, 72u8][1] == 72u8);
                assert(seq![83u8, 72u8][0] == 83u8 && seq![83u8, 72u8][1] == 72u8);
                assert(seq![68u8, 69u8][0] == 68u8 && seq![68u8, 69u8][1] == 69u8);
            }
        }
        None
    }
}

fn parse_resource_item(t: &[u8], r: (usize, usize)) -> (res: Option<Resource>)
    requires
        valid_range(t@, r),
    ensures
        res == resource_item(piece(t@, r)),
{
    let (a, b) = trim_range(t, r.0, r.1);
    let parts = split_range(t, a, b, COLON);
    if parts.len() != 2 {
        return None;
    }
    match parse_signed(t, parts[1].0, parts[1].1, 255) {
        Some((false, c)) => code_resource(t, parts[0], c as u8),
        _ => None,
    }
}

/// Reads the resources line, the range `r` of `t`.
fn parse_resources(t: &[u8], r: (usize, usize)) -> (res: Option<Vec<Resource>>)
    requires
        valid_range(t@, r),
    ensures
        match resource_items(split_on(piece(t@, r), COMMA)) {
            Some(rs) => res matches Some(v) && v@ == rs,
            None => res is None,
        },
{
    let items = split_range(t, r.0, r.1, COMMA);
    let ghost is = split_on(piece(t@, r), COMMA);
    let mut out: Vec<Resource> = Vec::new();
    let mut k: usize = 0;
    while k < items.len()
        invariant
            k <= items@.len() == is.len(),
            is == split_on(piece(t@, r), COMMA),
            forall|m: int|
                0 <= m < items@.len() ==> r.0 <= (#[trigger] items@[m]).0 <= items@[m].1 <= r.1
                    && piece(t@, items@[m]) == is[m],
            valid_range(t@, r),
            resource_items(is.take(k as int)) == Some(out@),
        decreases items@.len() - k,
    {
        assert(is.take(k + 1).drop_last() =~= is.take(k as int));
        assert(is.take(k + 1).last() == is[k as int]);
        assert(piece(t@, items@[k as int]) == is[k as int]);
        match parse_resource_item(t, items[k]) {
            Some(x) => {
                out.push(x);
            },
            None => {
                proof {
                    lemma_resource_items_prefix_none(is, k as int + 1);
                }
                return None;
            },
        }
        k = k + 1;
    }
    assert(is.take(k as int) =~= is);
    Some(out)
}

proof fn lemma_resource_items_prefix_none(is: Seq<Seq<u8>>, k: int)
    requires
        0 <= k <= is.len(),
        resource_items(is.take(k)) is None,
    ensures
        resource_items(is) is None,
    decreases is.len() - k,
{
    if k < is.len() {
        assert(is.take(k + 1).drop_last() =~= is.take(k));
        lemma_resource_items_prefix_none(is, k + 1);
    } else {
        assert(is.take(k) =~= is);
    }
}

proof fn lemma_chance_items_prefix_err(is: Seq<Seq<u8>>, k: int, e: ParseMapError)
    requires
        0 <= k <= is.len(),
        chance_items(is.take(k)) == Err::<Seq<u8>, ParseMapError>(e),
    ensures
        chance_items(is) == Err::<Seq<u8>, ParseMapError>(e),
    decreases is.len() - k,
{
    if k < is.len() {
        assert(is.take(k + 1).drop_last() =~= is.take(k));
        lemma_chance_items_prefix_err(is, k + 1, e);
    } else {
        assert(is.take(k) =~= is);
    }
}

/// Reads the chances line, the range `r` of `t`.
fn parse_chances(t: &[u8], r: (usize, usize)) -> (res: Result<Vec<u8>, ParseMapError>)
    requires
        valid_range(t@, r),
    ensures
        match chance_items(split_on(piece(t@, r), COMMA)) {
            Ok(cs) => res matches Ok(v) && v@ == cs,
            Err(e) => res == Err::<Vec<u8>, ParseMapError>(e),
        },
{
    let items = split_range(t, r.0, r.1, COMMA);
    let ghost is = split_on(piece(t@, r), COMMA);
    let mut out: Vec<u8> = Vec::new();
    let mut k: usize = 0;
    while k < items.len()
        invariant
            k <= items@.len() == is.len(),
            is == split_on(piece(t@, r), COMMA),
            forall|m: int|
                0 <= m < items@.len() ==> r.0 <= (#[trigger] items@[m]).0 <= items@[m].1 <= r.1
                    && piece(t@, items@[m]) == is[m],
            valid_range(t@, r),
            chance_items(is.take(k as int)) == Ok::<Seq<u8>, ParseMapError>(out@),
        decreases items@.len() - k,
    {
        assert(is.take(k + 1).drop_last() =~= is.take(k as int));
        assert(is.take(k + 1).last() == is[k as int]);
        assert(piece(t@, items@[k as int]) == is[k as int]);
        let (a, b) = trim_range(t, items[k].0, items[k].1);
        assert(t@.subrange(a as int, b as int) == trim(is[k as int]));
        match parse_signed(t, a, b, 255) {
            Some((neg, v)) => {
                if neg || v < 2 || v > 12 || v == 7 {
                    proof {
                        lemma_chance_items_prefix_err(is, k as int + 1, ParseMapError::ChanceNotSuitable);
                    }
                    return Err(ParseMapError::ChanceNotSuitable);
                }
                out.push(v as u8);
            },
            None => {
                proof {
                    lemma_chance_items_prefix_err(is, k as int + 1, ParseMapError::ChanceParseError);
                }
                return Err(ParseMapError::ChanceParseError);
            },
        }
        k = k + 1;
    }
    assert(is.take(k as int) =~= is);
    Ok(out)
}

proof fn lemma_desert_at_most_total(rs: Seq<Resource>)
    ensures
        desert_tiles(rs) <= total_tiles(rs),
    decreases rs.len(),
{
    if rs.len() > 0 {
        lemma_desert_at_most_total(rs.drop_last());
    }
}

/// The tile count and the desert count of a template; a tile count over
/// `MAX_HEX` is reported only as being over it.
fn template_counts(res: &Vec<Resource>) -> (r: (u64, u64))
    ensures
        total_tiles(res@) <= MAX_HEX ==> r.0 == total_tiles(res@) && r.1 == desert_tiles(res@),
        total_tiles(res@) > MAX_HEX ==> r.0 > MAX_HEX,
{
    let mut total: u64 = 0;
    let mut desert: u64 = 0;
    let mut k: usize = 0;
    while k < res.len()
        invariant
            k <= res@.len(),
            total_tiles(res@.take(k as int)) <= MAX_HEX ==> total == total_tiles(res@.take(k as int))
                && desert == desert_tiles(res@.take(k as int)),
            total_tiles(res@.take(k as int)) > MAX_HEX ==> total > MAX_HEX,
            total <= MAX_HEX + 255,
            desert <= total,
        decreases res@.len() - k,
    {
        assert(res@.take(k + 1).drop_last() =~= res@.take(k as int));
        proof {
            lemma_desert_at_most_total(res@.take(k as int));
        }
        if total <= MAX_HEX as u64 {
            let n = res[k].units();
            total = total + n as u64;
            if res[k].is_desert() {
                desert = desert + n as u64;
            }
        }
        k = k + 1;
    }
    assert(res@.take(k as int) =~= res@);
    (total, desert)
}

/// Reads the `WxH` line, the range `r` of `t`.
fn parse_dims(t: &[u8], r: (usize, usize)) -> (res: Option<(usize, usize)>)
    requires
        valid_range(t@, r),
    ensures
        match dims_of(piece(t@, r)) {
            Some((w, h)) => res == Some((w as usize, h as usize)),
            None => res is None,
        },
{
    let parts = split_range(t, r.0, r.1, TIMES);
    if parts.len() != 2 {
        return None;
    }
    let w = match parse_number(t, parts[0].0, parts[0].1, usize::MAX as u64) {
        Some(w) => w as usize,
        None => {
            return None;
        },
    };
    let h = match parse_number(t, parts[1].0, parts[1].1, usize::MAX as u64) {
        Some(h) => h as usize,
        None => {
            return None;
        },
    };
    let w2 = match w.checked_add(2) {
        Some(v) => v,
        None => {
            assert((w + 2) * (h + 2) > usize::MAX) by (nonlinear_arith)
                requires
                    w + 2 > usize::MAX,
            ;
            return None;
        },
    };
    let h2 = match h.checked_add(2) {
        Some(v) => v,
        None => {
            assert((w + 2) * (h + 2) > usize::MAX) by (nonlinear_arith)
                requires
                    h + 2 > usize::MAX,
            ;
            return None;
        },
    };
    match w2.checked_mul(h2) {
        Some(_) => Some((w, h)),
        None => None,
    }
}

fn row_ok_exec(t: &[u8], r: (usize, usize), w: usize) -> (res: bool)
    requires
        valid_range(t@, r),
    ensures
        res == row_ok(piece(t@, r), w as nat),
{
    if r.1 - r.0 != w {
        return false;
    }
    let mut k: usize = r.0;
    while k < r.1
        invariant
            valid_range(t@, r),
            r.0 <= k <= r.1,
            forall|m: int| r.0 <= m < k ==> (#[trigger] t@[m] == WATER_CELL || t@[m] == LAND_CELL),
        decreases r.1 - k,
    {
        if t[k] != WATER_CELL && t[k] != LAND_CELL {
            assert(piece(t@, r)[k - r.0] == t@[k as int]);
            return false;
        }
        k = k + 1;
    }
    assert forall|i: int| 0 <= i < piece(t@, r).len() implies (#[trigger] piece(t@, r)[i] == WATER_CELL
        || piece(t@, r)[i] == LAND_CELL) by {
        assert(piece(t@, r)[i] == t@[r.0 + i]);
    }
    true
}

proof fn lemma_rows_status_err(ls: Seq<Seq<u8>>, start: int, w: nat, k: nat, n: nat, e: ParseMapError)
    requires
        k <= n,
        rows_status(ls, start, w, k) == Err::<(), ParseMapError>(e),
    ensures
        rows_status(ls, start, w, n) == Err::<(), ParseMapError>(e),
    decreases n - k,
{
    if k < n {
        lemma_rows_status_err(ls, start, w, k, (n - 1) as nat, e);
    }
}

/// The number of `true` entries.
pub open spec fn true_count(s: Seq<bool>) -> nat
    decreases s.len(),
{
    if s.len() == 0 {
        0
    } else {
        true_count(s.drop_last()) + if s.last() {
            1nat
        } else {
            0
        }
    }
}

/// Whether cell `(i, j)` of the grid, border included, is land.
pub open spec fn is_land(m: MapSpec, i: int, j: int) -> bool {
    1 <= i <= m.columns && 1 <= j <= m.rows.len() && m.rows[j - 1][i - 1] == LAND_CELL
}

/// A map description once read: its templates, and which cells of the grid
/// (with a border of water on every side) are land, row by row.
pub struct MapLayout {
    pub resources: Vec<Resource>,
    pub chances: Vec<u8>,
    pub width: usize,
    pub height: usize,
    pub land: Vec<bool>,
}

impl MapLayout {
    /// This layout holds what `m` says.
    pub open spec fn describes(&self, m: MapSpec) -> bool {
        &&& self.resources@ == m.resources
        &&& self.chances@ == m.chances
        &&& self.width == m.columns + 2
        &&& self.height == m.rows.len() + 2
        &&& self.land@.len() == self.width * self.height
        &&& true_count(self.land@) == land_in_rows(m.rows)
        &&& forall|i: int, j: int|
            0 <= i < self.width && 0 <= j < self.height ==> self.land@[#[trigger] cell(
                self.width as int,
                i,
                j,
            )] == is_land(m, i, j)
    }
}

proof fn lemma_land_in_row_push(row: Seq<u8>, k: int)
    requires
        0 <= k < row.len(),
    ensures
        land_in_row(row.take(k + 1)) == land_in_row(row.take(k)) + if row[k] == LAND_CELL {
            1nat
        } else {
            0
        },
{
    assert(row.take(k + 1).drop_last() =~= row.take(k));
}

/// The land mask of `rows` (each `w` cells of `0` and `1`) with a border of
/// water, and the number of land cells.
#[verifier::loop_isolation(false)]
fn land_grid(t: &[u8], rows: &Vec<(usize, usize)>, w: usize, Ghost(m): Ghost<MapSpec>) -> (r: (Vec<bool>, usize))
    requires
        rows@.len() == m.rows.len(),
        m.columns == w,
        (w + 2) * (rows@.len() + 2) <= usize::MAX,
        forall|k: int|
            0 <= k < rows@.len() ==> valid_range(t@, #[trigger] rows@[k]) && piece(t@, rows@[k])
                == m.rows[k] && row_ok(m.rows[k], w as nat),
    ensures
        r.0@.len() == (w + 2) * (rows@.len() + 2),
        forall|i: int, j: int|
            0 <= i < w + 2 && 0 <= j < rows@.len() + 2 ==> r.0@[#[trigger] cell(w + 2, i, j)]
                == is_land(m, i, j),
        r.1 == land_in_rows(m.rows),
        r.1 == true_count(r.0@),
{
    assert(w + 2 <= usize::MAX && rows@.len() + 2 <= usize::MAX) by (nonlinear_arith)
        requires
            (w + 2) * (rows@.len() + 2) <= usize::MAX,
    ;
    let width = w + 2;
    let height = rows.len() + 2;
    let mut land: Vec<bool> = Vec::new();
    let mut count: usize = 0;
    let mut j: usize = 0;
    while j < height
        invariant
            width == w + 2,
            height == rows@.len() + 2,
            width * height <= usize::MAX,
            j <= height,
            land@.len() == j * width,
            forall|a: int, b: int|
                0 <= a < width && 0 <= b < j ==> land@[#[trigger] cell(width as int, a, b)] == is_land(m, a, b),
            count == land_in_rows(m.rows.take(if j == 0 { 0 } else if j > rows@.len() { rows@.len() as int } else { j - 1 })),
            count <= land@.len(),
            count == true_count(land@),
        decreases height - j,
    {
        let ghost before = land@;
        let interior = j >= 1 && j <= rows.len();
        let mut i: usize = 0;
        proof {
            assert((j + 1) * width == j * width + width) by (nonlinear_arith);
            assert((j + 1) * width <= width * height) by (nonlinear_arith)
                requires
                    j < height,
            ;
        }
        while i < width
            invariant
                (j + 1) * width <= width * height,
                (j + 1) * width == j * width + width,
                j < height,
                interior == (j >= 1 && j <= rows@.len()),
                i <= width,
                land@.len() == j * width + i,
                land@.subrange(0, j * width) == before,
                before.len() == j * width,
                forall|a: int| 0 <= a < i ==> land@[j * width + a] == is_land(m, a, j as int),
                count == land_in_rows(m.rows.take(if j == 0 { 0 } else if j > rows@.len() { rows@.len() as int } else { j - 1 }))
                    + if interior && i >= 1 {
                    land_in_row(m.rows[j - 1].take(if i > w { w as int } else { i - 1 }))
                } else {
                    0
                },
                count <= land@.len(),
                count == true_count(land@),
            decreases width - i,
        {
            let mut v = false;
            if interior && i >= 1 && i <= w {
                let row = rows[j - 1];
                proof {
                    lemma_land_in_row_push(m.rows[j - 1], i - 1);
                    assert(piece(t@, row)[i - 1] == t@[row.0 + i - 1]);
                }
                if t[row.0 + i - 1] == LAND_CELL {
                    v = true;
                    count = count + 1;
                }
            }
            let ghost prev = land@;
            land.push(v);
            assert(land@.drop_last() =~= prev);
            i = i + 1;
        }
        proof {
            if interior {
                let rs = m.rows.take(j as int);
                assert(rs.drop_last() =~= m.rows.take(j - 1));
                assert(valid_range(t@, rows@[j - 1]));
                assert(row_ok(m.rows[j - 1], w as nat));
                assert(m.rows[j - 1].take(w as int) =~= m.rows[j - 1]);
            }
            if j == 0 || j > rows@.len() {
                if j > rows@.len() {
                    assert(j == rows@.len() + 1);
                }
            }
            assert forall|a: int, b: int|
                0 <= a < width && 0 <= b < j + 1 implies land@[#[trigger] cell(width as int, a, b)]
                    == is_land(m, a, b) by {
                lemma_cell_bounds(width as int, j + 1, a, b);
                if b < j {
                    lemma_cell_bounds(width as int, j as int, a, b);
                    assert(land@.subrange(0, j * width)[cell(width as int, a, b)] == land@[cell(
                        width as int,
                        a,
                        b,
                    )]);
                }
            }
        }
        j = j + 1;
    }
    proof {
        assert(m.rows.take(rows@.len() as int) =~= m.rows);
        assert(height * width == (w + 2) * (rows@.len() + 2)) by (nonlinear_arith)
            requires
                width == w + 2,
                height == rows@.len() + 2,
        ;
    }
    (land, count)
}

fn header_bytes() -> (r: Vec<u8>)
    ensures
        r@ == header_tag(),
{
    let r = vec![95u8, 95u8, 70u8, 79u8, 67u8, 77u8, 95u8, 95u8];
    assert(r@ =~= header_tag());
    r
}

fn expansion_bytes() -> (r: Vec<u8>)
    ensures
        r@ == expansion_tag(),
{
    let r = vec![91u8, 69u8, 88u8, 80u8, 65u8, 78u8, 83u8, 73u8, 79u8, 78u8, 93u8];
    assert(r@ =~= expansion_tag());
    r
}

fn resources_bytes() -> (r: Vec<u8>)
    ensures
        r@ == resources_tag(),
{
    let r = vec![91u8, 82u8, 69u8, 83u8, 79u8, 85u8, 82u8, 67u8, 69u8, 83u8, 93u8];
    assert(r@ =~= resources_tag());
    r
}

fn chances_bytes() -> (r: Vec<u8>)
    ensures
        r@ == chances_tag(),
{
    let r = vec![91u8, 67u8, 72u8, 65u8, 78u8, 67u8, 69u8, 83u8, 93u8];
    assert(r@ =~= chances_tag());
    r
}

fn map_bytes() -> (r: Vec<u8>)
    ensures
        r@ == map_tag(),
{
    let r = vec![91u8, 77u8, 65u8, 80u8, 93u8];
    assert(r@ =~= map_tag());
    r
}

/// The lines of `t` given as ranges, each being the line of `ls` at its position.
pub open spec fn lines_hold(t: Seq<u8>, lines: Seq<(usize, usize)>, ls: Seq<Seq<u8>>) -> bool {
    &&& lines.len() == ls.len()
    &&& forall|k: int|
        0 <= k < lines.len() ==> valid_range(t, #[trigger] lines[k]) && piece(t, lines[k]) == ls[k]
}

/// The line that follows the first line equal to `tag`.
fn find_section(t: &[u8], lines: &Vec<(usize, usize)>, tag: &Vec<u8>, Ghost(ls): Ghost<Seq<Seq<u8>>>) -> (r: Option<(usize, usize)>)
    requires
        lines_hold(t@, lines@, ls),
    ensures
        match section_line(ls, tag@) {
            Some(l) => r matches Some(x) && valid_range(t@, x) && piece(t@, x) == l,
            None => r is None,
        },
{
    let found = find_line(t, lines, tag, Ghost(ls));
    proof {
        lemma_first_index_bounds(ls, tag@);
    }
    match found {
        Some(i) => {
            assert(i < lines@.len());
            if i < lines.len() - 1 {
                assert(valid_range(t@, lines@[i + 1]));
                Some(lines[i + 1])
            } else {
                None
            }
        },
        None => None,
    }
}

/// The ranges of the `h` rows of the map, which start at line `start`.
fn map_rows(t: &[u8], lines: &Vec<(usize, usize)>, start: usize, w: usize, h: usize, Ghost(ls): Ghost<Seq<Seq<u8>>>) -> (r: Result<Vec<(usize, usize)>, ParseMapError>)
    requires
        lines_hold(t@, lines@, ls),
        start <= lines@.len(),
    ensures
        match rows_status(ls, start as int, w as nat, h as nat) {
            Ok(()) => r matches Ok(v) && v@.len() == h && start + h <= ls.len() && forall|k: int|
                0 <= k < h ==> valid_range(t@, #[trigger] v@[k]) && piece(t@, v@[k]) == ls[start + k],
            Err(e) => r == Err::<Vec<(usize, usize)>, ParseMapError>(e),
        },
{
    let mut rows: Vec<(usize, usize)> = Vec::new();
    let mut k: usize = 0;
    while k < h
        invariant
            lines_hold(t@, lines@, ls),
            start <= lines@.len(),
            k <= h,
            rows_status(ls, start as int, w as nat, k as nat) == Ok::<(), ParseMapError>(()),
            rows@.len() == k,
            start + k <= ls.len(),
            forall|q: int|
                0 <= q < k ==> valid_range(t@, #[trigger] rows@[q]) && piece(t@, rows@[q]) == ls[start + q],
        decreases h - k,
    {
        if k >= lines.len() - start {
            proof {
                lemma_rows_status_err(ls, start as int, w as nat, (k + 1) as nat, h as nat, ParseMapError::MapSizeIncompatability);
            }
            return Err(ParseMapError::MapSizeIncompatability);
        }
        let line = lines[start + k];
        assert(valid_range(t@, lines@[start + k]));
        if !row_ok_exec(t, line, w) {
            proof {
                lemma_rows_status_err(ls, start as int, w as nat, (k + 1) as nat, h as nat, ParseMapError::MapParseError);
            }
            return Err(ParseMapError::MapParseError);
        }
        rows.push(line);
        k = k + 1;
    }
    Ok(rows)
}

/// Reads a map description.
pub fn parse_map(text: &str) -> (r: Result<MapLayout, ParseMapError>)
    ensures
        match parse_text(text.spec_bytes()) {
            Ok(m) => r matches Ok(l) && l.describes(m),
            Err(e) => r == Err::<MapLayout, ParseMapError>(e),
        },
{
    let t = text.as_bytes();
    let lines = significant_lines(t);
    let ghost ls = text_lines(t@);
    if lines.len() == 0 {
        return Err(ParseMapError::NotFocm);
    }
    if !range_equals(t, lines[0], &header_bytes()) {
        return Err(ParseMapError::NotFocm);
    }
    if find_section(t, &lines, &expansion_bytes(), Ghost(ls)).is_none() {
        return Err(ParseMapError::ExpansionNotFound);
    }
    let rl = match find_section(t, &lines, &resources_bytes(), Ghost(ls)) {
        Some(x) => x,
        None => {
            return Err(ParseMapError::ResourcesNotFound);
        },
    };
    let resources = match parse_resources(t, rl) {
        Some(v) => v,
        None => {
            return Err(ParseMapError::ResourceParseError);
        },
    };
    let cl = match find_section(t, &lines, &chances_bytes(), Ghost(ls)) {
        Some(x) => x,
        None => {
            return Err(ParseMapError::ChanceNotFound);
        },
    };
    let chances = match parse_chances(t, cl) {
        Ok(v) => v,
        Err(e) => {
            return Err(e);
        },
    };
    let (total, desert) = template_counts(&resources);
    proof {
        lemma_desert_at_most_total(resources@);
    }
    if total > MAX_HEX as u64 || total - desert != chances.len() as u64 {
        return Err(ParseMapError::HexChanceMismatch);
    }
    let map_tag_bytes = map_bytes();
    let m = match find_line(t, &lines, &map_tag_bytes, Ghost(ls)) {
        Some(m) => m,
        None => {
            return Err(ParseMapError::MapNotFound);
        },
    };
    if m + 1 >= lines.len() {
        return Err(ParseMapError::MapNotFound);
    }
    assert(valid_range(t@, lines@[m + 1]));
    let (w, h) = match parse_dims(t, lines[m + 1]) {
        Some(d) => d,
        None => {
            return Err(ParseMapError::MapParseError);
        },
    };
    let rows = match map_rows(t, &lines, m + 2, w, h, Ghost(ls)) {
        Ok(v) => v,
        Err(e) => {
            return Err(e);
        },
    };
    let ghost spec_rows = ls.subrange(m + 2, m + 2 + h);
    let ghost model = MapSpec { resources: resources@, chances: chances@, columns: w as nat, rows: spec_rows };
    proof {
        assert forall|k: int| 0 <= k < rows@.len() implies valid_range(t@, #[trigger] rows@[k])
            && piece(t@, rows@[k]) == model.rows[k] && row_ok(model.rows[k], w as nat) by {
            lemma_rows_ok(ls, m + 2, w as nat, h as nat, k);
        }
    }
    let (land, count) = land_grid(t, &rows, w, Ghost(model));
    if count as u64 != total {
        return Err(ParseMapError::MapSizeIncompatability);
    }
    assert(w + 2 <= usize::MAX && h + 2 <= usize::MAX) by (nonlinear_arith)
        requires
            (w + 2) * (h + 2) <= usize::MAX,
    ;
    Ok(MapLayout { resources, chances, width: w + 2, height: h + 2, land })
}

proof fn lemma_rows_ok(ls: Seq<Seq<u8>>, start: int, w: nat, n: nat, k: int)
    requires
        rows_status(ls, start, w, n) == Ok::<(), ParseMapError>(()),
        0 <= k < n,
    ensures
        row_ok(ls[start + k], w),
    decreases n,
{
    if k < n - 1 {
        lemma_rows_ok(ls, start, w, (n - 1) as nat, k);
    }
}

proof fn lemma_chance_items_suitable(items: Seq<Seq<u8>>)
    ensures
        chance_items(items) matches Ok(cs) ==> forall|k: int|
            0 <= k < cs.len() ==> is_suitable_chance(#[trigger] cs[k] as nat),
    decreases items.len(),
{
    if items.len() > 0 {
        lemma_chance_items_suitable(items.drop_last());
    }
}

/// A map description that can be read has as many land cells in its map as
/// its resource template has tiles; otherwise reading it fails with
/// `MapSizeIncompatability` once everything before that check passed.
pub proof fn lemma_land_matches_template(t: Seq<u8>)
    ensures
        parse_text(t) matches Ok(m) ==> land_in_rows(m.rows) == total_tiles(m.resources),
{
}

/// A map description that can be read has one dice number for each tile
/// that is not a desert, and at most `MAX_HEX` tiles; otherwise reading it
/// fails with `HexChanceMismatch` once its chances line was read.
pub proof fn lemma_chances_match_tiles(t: Seq<u8>)
    ensures
        parse_text(t) matches Ok(m) ==> total_tiles(m.resources) - desert_tiles(m.resources)
            == m.chances.len() && total_tiles(m.resources) <= MAX_HEX,
{
}

/// No dice number of a map description that can be read is 7 or outside
/// 2 to 12: such a number fails with `ChanceNotSuitable`.
pub proof fn lemma_chances_suitable(t: Seq<u8>)
    ensures
        parse_text(t) matches Ok(m) ==> forall|k: int|
            0 <= k < m.chances.len() ==> is_suitable_chance(#[trigger] m.chances[k] as nat),
        forall|item: Seq<u8>|
            #![trigger chance_item(item)]
            signed_numeral(trim(item)) matches Some((neg, v)) && (neg || !is_suitable_chance(v)) ==> chance_item(item)
                == Err::<u8, ParseMapError>(ParseMapError::ChanceNotSuitable),
{
    let ls = text_lines(t);
    if let Some(cl) = section_line(ls, chances_tag()) {
        lemma_chance_items_suitable(split_on(cl, COMMA));
    }
}

proof fn lemma_total_at_least(rs: Seq<Resource>, k: int)
    requires
        0 <= k < rs.len(),
    ensures
        total_tiles(rs) >= count_of(rs[k]),
    decreases rs.len(),
{
    if k < rs.len() - 1 {
        lemma_total_at_least(rs.drop_last(), k);
    }
}

/// A resources line with a count above `MAX_HEX` (of any size) describes too
/// many tiles: once its chances line is read, the description is refused with
/// `HexChanceMismatch`.
pub proof fn lemma_large_count_refused(items: Seq<Seq<u8>>, k: int, ls: Seq<Seq<u8>>, ch: Seq<u8>)
    requires
        0 <= k < items.len(),
        resource_items(items) is Some,
        split_on(trim(items[k]), COLON).len() == 2,
        signed_numeral(split_on(trim(items[k]), COLON)[1]) matches Some((neg, c)) && c > MAX_HEX,
    ensures
        parse_map_section(ls, resource_items(items).unwrap(), ch) == Err::<MapSpec, ParseMapError>(
            ParseMapError::HexChanceMismatch,
        ),
{
    lemma_resource_items_entry(items, k);
    let rs = resource_items(items).unwrap();
    lemma_total_at_least(rs, k);
}

proof fn lemma_resource_items_entry(items: Seq<Seq<u8>>, k: int)
    requires
        0 <= k < items.len(),
        resource_items(items) is Some,
    ensures
        resource_items(items).unwrap().len() == items.len(),
        resource_item(items[k]) == Some(resource_items(items).unwrap()[k]),
    decreases items.len(),
{
    if k < items.len() - 1 {
        lemma_resource_items_entry(items.drop_last(), k);
    } else {
        if items.len() > 1 {
            lemma_resource_items_entry(items.drop_last(), 0);
        }
    }
}

} // verus!
