//! The records of a layout: one for each claimed global coordinate.

use vstd::prelude::*;
use crate::canvas::Color;

verus! {

/// What a layout keeps for one global coordinate.
#[derive(Debug, Copy, Clone, PartialEq, Eq, Structural)]
pub struct Pixel {
    /// The global coordinate.
    pub x: u32,
    pub y: u32,
    /// The device that the coordinate belongs to.
    pub device_index: usize,
    /// The color that the client wrote last.
    pub color_new: Color,
    /// The color that was last sent to the device.
    pub color_old: Color,
}

/// Whether some record is about the global coordinate `(x, y)`.
pub open spec fn claims(records: Seq<Pixel>, x: u32, y: u32) -> bool {
    exists|i: int| 0 <= i < records.len() && (#[trigger] records[i]).x == x && records[i].y == y
}

/// The record about the global coordinate `(x, y)`, if there is one.
pub open spec fn record_at(records: Seq<Pixel>, x: u32, y: u32) -> Option<Pixel> {
    if claims(records, x, y) {
        Some(
            records[choose|i: int|
                0 <= i < records.len() && (#[trigger] records[i]).x == x && records[i].y == y],
        )
    } else {
        None
    }
}

/// Whether no two records are about the same global coordinate.
pub open spec fn distinct_coordinates(records: Seq<Pixel>) -> bool {
    forall|i: int, j: int|
        0 <= i < j < records.len() ==> !((#[trigger] records[i]).x == (#[trigger] records[j]).x
            && records[i].y == records[j].y)
}

/// Whether two lists of records claim the same coordinates for the same
/// devices, position by position.
pub open spec fn same_claims(a: Seq<Pixel>, b: Seq<Pixel>) -> bool {
    &&& a.len() == b.len()
    &&& forall|i: int|
        0 <= i < a.len() ==> (#[trigger] a[i]).x == b[i].x && a[i].y == b[i].y
            && a[i].device_index == b[i].device_index
}

/// The record `p` once its pending color has been sent.
pub open spec fn committed(p: Pixel) -> Pixel {
    Pixel { color_old: p.color_new, ..p }
}

/// The key under which the coordinate `(x, y)` is looked up.
pub open spec fn key_of(x: u32, y: u32) -> u64 {
    (x as u64 * 0x1_0000_0000 + y as u64) as u64
}

/// The key under which the coordinate `(x, y)` is looked up.
pub(crate) fn key(x: u32, y: u32) -> (k: u64)
    ensures
        k == key_of(x, y),
{
    x as u64 * 0x1_0000_0000 + y as u64
}

/// Different coordinates have different keys.
pub(crate) proof fn lemma_key_injective(x1: u32, y1: u32, x2: u32, y2: u32)
    requires
        key_of(x1, y1) == key_of(x2, y2),
    ensures
        x1 == x2,
        y1 == y2,
{
}

/// Among records of distinct coordinates, the record about the coordinate of
/// `records[i]` is `records[i]`.
pub proof fn lemma_record_at(records: Seq<Pixel>, i: int)
    requires
        distinct_coordinates(records),
        0 <= i < records.len(),
    ensures
        claims(records, records[i].x, records[i].y),
        record_at(records, records[i].x, records[i].y) == Some(records[i]),
{
    let x = records[i].x;
    let y = records[i].y;
    assert(claims(records, x, y));
    let c = choose|c: int|
        0 <= c < records.len() && (#[trigger] records[c]).x == x && records[c].y == y;
    if c < i {
        assert(!(records[c].x == records[i].x && records[c].y == records[i].y));
    }
    if i < c {
        assert(!(records[i].x == records[c].x && records[i].y == records[c].y));
    }
}

/// Records that claim the same coordinates as records of distinct
/// coordinates have distinct coordinates too.
pub(crate) proof fn lemma_same_claims_distinct(a: Seq<Pixel>, b: Seq<Pixel>)
    requires
        same_claims(a, b),
        distinct_coordinates(a),
    ensures
        distinct_coordinates(b),
{
    assert forall|i: int, j: int| 0 <= i < j < b.len() implies !((#[trigger] b[i]).x == (
    #[trigger] b[j]).x && b[i].y == b[j].y) by {
        assert(!(a[i].x == a[j].x && a[i].y == a[j].y));
    }
}

/// Lists of records that claim the same coordinates answer a lookup from the
/// same position: the result is the position of `(x, y)` in both where it is
/// claimed.
pub(crate) proof fn lemma_same_claims_lookup(a: Seq<Pixel>, b: Seq<Pixel>, x: u32, y: u32) -> (i:
    int)
    requires
        same_claims(a, b),
        distinct_coordinates(a),
    ensures
        claims(a, x, y) == claims(b, x, y),
        claims(a, x, y) ==> 0 <= i < a.len() && a[i].x == x && a[i].y == y && record_at(a, x, y)
            == Some(a[i]) && record_at(b, x, y) == Some(b[i]),
        !claims(a, x, y) ==> record_at(a, x, y).is_none() && record_at(b, x, y).is_none(),
{
    lemma_same_claims_distinct(a, b);
    if claims(a, x, y) {
        let c = choose|c: int| 0 <= c < a.len() && (#[trigger] a[c]).x == x && a[c].y == y;
        assert(b[c].x == x && b[c].y == y);
        lemma_record_at(a, c);
        lemma_record_at(b, c);
        c
    } else {
        if claims(b, x, y) {
            let c = choose|c: int| 0 <= c < b.len() && (#[trigger] b[c]).x == x && b[c].y == y;
            assert(a[c].x == x && a[c].y == y);
        }
        0
    }
}

/// The coordinates that a list of records claims are the coordinates of its
/// records.
pub proof fn lemma_pad_list_claims(records: Seq<Pixel>, x: u32, y: u32)
    ensures
        records.map_values(|p: Pixel| (p.x, p.y)).contains((x, y)) == claims(records, x, y),
{
    let coords = records.map_values(|p: Pixel| (p.x, p.y));
    if claims(records, x, y) {
        let c = choose|c: int|
            0 <= c < records.len() && (#[trigger] records[c]).x == x && records[c].y == y;
        assert(coords[c] == (x, y));
    }
    if coords.contains((x, y)) {
        let c = choose|c: int| 0 <= c < coords.len() && coords[c] == (x, y);
        assert(records[c].x == x && records[c].y == y);
    }
}

} // verus!
