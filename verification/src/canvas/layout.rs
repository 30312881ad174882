//! The layout: devices placed on a shared grid by rotation and offset, and
//! used as one canvas.

use vstd::prelude::*;
use crate::canvas::poller::CanvasLayoutPoller;
use crate::canvas::records::{
    claims, committed, distinct_coordinates, key, key_of, lemma_key_injective,
    lemma_pad_list_claims, lemma_same_claims_distinct, lemma_same_claims_lookup, record_at,
    same_claims,
    Pixel,
};
use crate::canvas::registration::{
    clash_at, first_clash_at, no_clash, overlap_at, placed, placement_fits, record_for,
    records_for, registered, AddError, Overlap,
};
use crate::canvas::remap::{remap, transform_color};
use crate::canvas::{Canvas, CanvasMessage, Color, UNIT};
use crate::midi_io::MidiError;
use core::ops::Neg;
use std::collections::HashMap;
use std::collections::HashSet;

verus! {

/// How a device is turned on the table, in quarter turns.
#[derive(Debug, Copy, Clone, Hash, PartialEq, Eq, Structural)]
pub enum Rotation {
    Identity,
    Left90,
    Right90,
    Rotate180,
}

impl Rotation {
    /// The rotation that undoes this one.
    pub open spec fn spec_neg(self) -> Rotation {
        match self {
            Rotation::Identity => Rotation::Identity,
            Rotation::Rotate180 => Rotation::Rotate180,
            Rotation::Left90 => Rotation::Right90,
            Rotation::Right90 => Rotation::Left90,
        }
    }

    /// Where this rotation takes the point `(x, y)`, over the integers.
    pub open spec fn spec_translate(self, x: int, y: int) -> (int, int) {
        match self {
            Rotation::Identity => (x, y),
            Rotation::Rotate180 => (-x, -y),
            Rotation::Left90 => (-y, x),
            Rotation::Right90 => (y, -x),
        }
    }

    /// Whether both coordinates of the rotated point fit in an `i32`.
    pub open spec fn translate_fits(self, x: int, y: int) -> bool {
        let p = self.spec_translate(x, y);
        i32::MIN <= p.0 <= i32::MAX && i32::MIN <= p.1 <= i32::MAX
    }

    /// Rotates the point `(x, y)` about the origin.
    pub fn translate(self, x: i32, y: i32) -> (p: (i32, i32))
        requires
            self.translate_fits(x as int, y as int),
        ensures
            (p.0 as int, p.1 as int) == self.spec_translate(x as int, y as int),
    {
        match self {
            Rotation::Identity => (x, y),
            Rotation::Rotate180 => (-x, -y),
            Rotation::Left90 => (-y, x),
            Rotation::Right90 => (y, -x),
        }
    }
}

impl Default for Rotation {
    fn default() -> (rotation: Rotation)
        ensures
            rotation == Rotation::Identity,
    {
        Rotation::Identity
    }
}

impl core::ops::Neg for Rotation {
    type Output = Rotation;

    /// The rotation that undoes this one.
    fn neg(self) -> (inverse: Rotation) {
        match self {
            Rotation::Identity => Rotation::Identity,
            Rotation::Rotate180 => Rotation::Rotate180,
            Rotation::Left90 => Rotation::Right90,
            Rotation::Right90 => Rotation::Left90,
        }
    }
}

impl vstd::std_specs::ops::NegSpecImpl for Rotation {
    open spec fn obeys_neg_spec() -> bool {
        true
    }

    open spec fn neg_req(self) -> bool {
        true
    }

    open spec fn neg_spec(self) -> Rotation {
        self.spec_neg()
    }
}

/// Turning a point by a rotation and then by its inverse gives the point
/// back, for every rotation and every integer point.
pub proof fn lemma_translate_inverse(rotation: Rotation, x: int, y: int)
    ensures
        ({
            let turned = rotation.spec_translate(x, y);
            rotation.spec_neg().spec_translate(turned.0, turned.1) == (x, y)
        }),
        ({
            let turned = rotation.spec_neg().spec_translate(x, y);
            rotation.spec_translate(turned.0, turned.1) == (x, y)
        }),
        rotation.spec_neg().spec_neg() == rotation,
{
}

/// The global position of the local point `(x, y)` of a device that is
/// turned by `rot` and then moved by the offset, over the integers.
pub open spec fn global_of(x: int, y: int, rot: Rotation, x_offset: int, y_offset: int) -> (int, int) {
    let turned = rot.spec_translate(x, y);
    (turned.0 + x_offset, turned.1 + y_offset)
}

/// The local position, on a device that is turned by `rot` and then moved by
/// the offset, of the global point `(x, y)`, over the integers.
pub open spec fn local_of(x: int, y: int, rot: Rotation, x_offset: int, y_offset: int) -> (int, int) {
    rot.spec_neg().spec_translate(x - x_offset, y - y_offset)
}

/// Whether both coordinates of a point can be held as `u32`.
pub open spec fn representable(p: (int, int)) -> bool {
    0 <= p.0 <= u32::MAX && 0 <= p.1 <= u32::MAX
}

/// Going from local to global coordinates and back gives the point back, and
/// so does going from global to local and back, for every rotation, offset
/// and integer point.
pub proof fn lemma_round_trip(x: int, y: int, rot: Rotation, x_offset: int, y_offset: int)
    ensures
        ({
            let g = global_of(x, y, rot, x_offset, y_offset);
            local_of(g.0, g.1, rot, x_offset, y_offset) == (x, y)
        }),
        ({
            let l = local_of(x, y, rot, x_offset, y_offset);
            global_of(l.0, l.1, rot, x_offset, y_offset) == (x, y)
        }),
{
}

/// Turns an integer point by `rot`; the result is exact.
fn translate_wide(rot: Rotation, x: i64, y: i64) -> (p: (i64, i64))
    requires
        -0x1_0000_0000 <= x <= 0x1_0000_0000,
        -0x1_0000_0000 <= y <= 0x1_0000_0000,
    ensures
        (p.0 as int, p.1 as int) == rot.spec_translate(x as int, y as int),
{
    match rot {
        Rotation::Identity => (x, y),
        Rotation::Rotate180 => (-x, -y),
        Rotation::Left90 => (-y, x),
        Rotation::Right90 => (y, -x),
    }
}

/// The local position of the global point `(x, y)`, or `None` where a
/// coordinate of it would be negative or too large for `u32`.
pub fn checked_to_local(x: u32, y: u32, rot: Rotation, x_offset: u32, y_offset: u32) -> (local: Option<(u32, u32)>)
    ensures
        local.is_some() == representable(
            local_of(x as int, y as int, rot, x_offset as int, y_offset as int),
        ),
        local.is_some() ==> (local.unwrap().0 as int, local.unwrap().1 as int) == local_of(
            x as int,
            y as int,
            rot,
            x_offset as int,
            y_offset as int,
        ),
{
    let (lx, ly) = translate_wide(rot.neg(), x as i64 - x_offset as i64, y as i64 - y_offset as i64);
    if 0 <= lx && lx <= u32::MAX as i64 && 0 <= ly && ly <= u32::MAX as i64 {
        Some((lx as u32, ly as u32))
    } else {
        None
    }
}

/// The global position of the local point `(x, y)`, or `None` where a
/// coordinate of it would be negative or too large for `u32`.
pub fn checked_to_global(x: u32, y: u32, rot: Rotation, x_offset: u32, y_offset: u32) -> (global: Option<(u32, u32)>)
    ensures
        global.is_some() == representable(
            global_of(x as int, y as int, rot, x_offset as int, y_offset as int),
        ),
        global.is_some() ==> (global.unwrap().0 as int, global.unwrap().1 as int) == global_of(
            x as int,
            y as int,
            rot,
            x_offset as int,
            y_offset as int,
        ),
{
    let (tx, ty) = translate_wide(rot, x as i64, y as i64);
    let gx: i64 = tx + x_offset as i64;
    let gy: i64 = ty + y_offset as i64;
    if 0 <= gx && gx <= u32::MAX as i64 && 0 <= gy && gy <= u32::MAX as i64 {
        Some((gx as u32, gy as u32))
    } else {
        None
    }
}

/// The local position, on a device turned by `rot` and placed at the offset,
/// of the global point `(x, y)`.
pub fn to_local(x: u32, y: u32, rot: Rotation, x_offset: u32, y_offset: u32) -> (local: (u32, u32))
    requires
        representable(local_of(x as int, y as int, rot, x_offset as int, y_offset as int)),
    ensures
        (local.0 as int, local.1 as int) == local_of(
            x as int,
            y as int,
            rot,
            x_offset as int,
            y_offset as int,
        ),
{
    let (lx, ly) = translate_wide(rot.neg(), x as i64 - x_offset as i64, y as i64 - y_offset as i64);
    (lx as u32, ly as u32)
}

/// The global position of the local point `(x, y)` of a device turned by
/// `rot` and placed at the offset.
pub fn to_global(x: u32, y: u32, rot: Rotation, x_offset: u32, y_offset: u32) -> (global: (u32, u32))
    requires
        representable(global_of(x as int, y as int, rot, x_offset as int, y_offset as int)),
    ensures
        (global.0 as int, global.1 as int) == global_of(
            x as int,
            y as int,
            rot,
            x_offset as int,
            y_offset as int,
        ),
{
    let (tx, ty) = translate_wide(rot, x as i64, y as i64);
    ((tx + x_offset as i64) as u32, (ty + y_offset as i64) as u32)
}

/// What a device's events pass through on their way to the client: it moves
/// an event from the device's own coordinates to global ones.
#[derive(Debug, Copy, Clone, PartialEq, Eq, Structural)]
pub struct MessageRouter {
    pub rotation: Rotation,
    pub x_offset: u32,
    pub y_offset: u32,
}

impl MessageRouter {
    /// The event `msg` of the device as the client sees it: of the same
    /// kind, at the global position of the pad. `None` where that position
    /// cannot be held as `u32`.
    pub open spec fn routed(self, msg: CanvasMessage) -> Option<CanvasMessage> {
        let g = global_of(
            msg.spec_x() as int,
            msg.spec_y() as int,
            self.rotation,
            self.x_offset as int,
            self.y_offset as int,
        );
        if representable(g) {
            Some(
                match msg {
                    CanvasMessage::Press { .. } => CanvasMessage::Press {
                        x: g.0 as u32,
                        y: g.1 as u32,
                    },
                    CanvasMessage::Release { .. } => CanvasMessage::Release {
                        x: g.0 as u32,
                        y: g.1 as u32,
                    },
                },
            )
        } else {
            None
        }
    }

    /// Moves an event of the device to global coordinates and keeps its
    /// kind.
    pub fn route(&self, msg: CanvasMessage) -> (out: Option<CanvasMessage>)
        ensures
            out == self.routed(msg),
    {
        match checked_to_global(msg.x(), msg.y(), self.rotation, self.x_offset, self.y_offset) {
            Some((x, y)) => Some(
                match msg {
                    CanvasMessage::Press { .. } => CanvasMessage::Press { x, y },
                    CanvasMessage::Release { .. } => CanvasMessage::Release { x, y },
                },
            ),
            None => None,
        }
    }
}

/// A device of a layout together with its placement. Its position in the
/// layout's list of devices is its index for good.
pub struct LayoutDevice<C: Canvas> {
    pub canvas: C,
    pub rotation: Rotation,
    pub x: u32,
    pub y: u32,
}

impl<C: Canvas> LayoutDevice<C> {
    /// The position on this device of the global point `(x, y)`.
    pub open spec fn spec_to_local(&self, x: u32, y: u32) -> (int, int) {
        local_of(x as int, y as int, self.rotation, self.x as int, self.y as int)
    }

    /// The global position of this device's point `(x, y)`.
    pub open spec fn spec_to_global(&self, x: u32, y: u32) -> (int, int) {
        global_of(x as int, y as int, self.rotation, self.x as int, self.y as int)
    }

    /// The position on this device of the global point `(x, y)`.
    pub fn to_local(&self, x: u32, y: u32) -> (local: (u32, u32))
        requires
            representable(self.spec_to_local(x, y)),
        ensures
            (local.0 as int, local.1 as int) == self.spec_to_local(x, y),
    {
        to_local(x, y, self.rotation, self.x, self.y)
    }
}

/// Whether the record `p` belongs to a device of `slots`, and that device
/// has a pad where `p` lies.
pub open spec fn record_owned<C: Canvas>(slots: Seq<LayoutDevice<C>>, p: Pixel) -> bool {
    &&& p.device_index < slots.len()
    &&& {
        let slot = slots[p.device_index as int];
        let l = slot.spec_to_local(p.x, p.y);
        &&& representable(l)
        &&& slot.canvas.pad_list().contains((l.0 as u32, l.1 as u32))
    }
}

/// Whether the pad `j` of the device `d` has a global coordinate, and a
/// record about that coordinate names `d` as its device.
pub open spec fn pad_recorded<C: Canvas>(
    slots: Seq<LayoutDevice<C>>,
    records: Seq<Pixel>,
    d: int,
    j: int,
) -> bool {
    let slot = slots[d];
    let pad = slot.canvas.pad_list()[j];
    let g = slot.spec_to_global(pad.0, pad.1);
    &&& representable(g)
    &&& exists|i: int|
        0 <= i < records.len() && (#[trigger] records[i]).x == g.0 && records[i].y == g.1
            && records[i].device_index == d
}

/// The componentwise maximum of the devices' own bounding boxes.
pub open spec fn max_extent<C: Canvas>(slots: Seq<LayoutDevice<C>>) -> (u32, u32)
    decreases slots.len(),
{
    if slots.len() == 0 {
        (0, 0)
    } else {
        let rest = max_extent(slots.drop_last());
        let own = slots.last().canvas.extent();
        (
            if rest.0 >= own.0 { rest.0 } else { own.0 },
            if rest.1 >= own.1 { rest.1 } else { own.1 },
        )
    }
}

/// Whether two lists of devices agree, position by position, in what never
/// changes: the placement, the pads, the bounding box and the lowest visible
/// brightness.
pub open spec fn same_placements<C: Canvas>(
    a: Seq<LayoutDevice<C>>,
    b: Seq<LayoutDevice<C>>,
) -> bool {
    &&& a.len() == b.len()
    &&& forall|d: int|
        0 <= d < a.len() ==> {
            &&& (#[trigger] a[d]).rotation == b[d].rotation
            &&& a[d].x == b[d].x
            &&& a[d].y == b[d].y
            &&& a[d].canvas.pad_list() == b[d].canvas.pad_list()
            &&& a[d].canvas.extent() == b[d].canvas.extent()
            &&& a[d].canvas.floor() == b[d].canvas.floor()
        }
}

/// Whether the device of the record `p` holds, as the pending color of the
/// pad where `p` lies, the record's pending color moved from the lowest
/// visible brightness `source` to the device's own.
pub open spec fn buffered<C: Canvas>(slots: Seq<LayoutDevice<C>>, p: Pixel, source: u32) -> bool {
    let slot = slots[p.device_index as int];
    let l = slot.spec_to_local(p.x, p.y);
    slot.canvas.pending_at(l.0 as u32, l.1 as u32) == Some(
        remap(p.color_new, source, slot.canvas.floor()),
    )
}

/// Whether every pad of the canvas shows its pending color.
pub open spec fn shows_pending<C: Canvas>(canvas: C) -> bool {
    forall|a: u32, b: u32| #[trigger] canvas.committed_at(a, b) == canvas.pending_at(a, b)
}

/// Whether two canvases show the same colors.
pub open spec fn same_committed<C: Canvas>(before: C, after: C) -> bool {
    forall|a: u32, b: u32| #[trigger] after.committed_at(a, b) == before.committed_at(a, b)
}

/// What holds of the devices when the flush of device `k` has failed: the
/// devices before it show their pending colors, and the devices after it
/// show what they showed before.
pub open spec fn flushed_before<C: Canvas>(
    before: Seq<LayoutDevice<C>>,
    after: Seq<LayoutDevice<C>>,
    k: int,
) -> bool {
    &&& forall|d: int| 0 <= d < k ==> shows_pending((#[trigger] after[d]).canvas)
    &&& forall|d: int|
        k < d < after.len() ==> same_committed(before[d].canvas, (#[trigger] after[d]).canvas)
}

/// What ties records to devices depends only on the coordinates and devices
/// of the records and on the placements and pads of the devices.
proof fn lemma_shape_kept<C: Canvas>(
    slots_a: Seq<LayoutDevice<C>>,
    records_a: Seq<Pixel>,
    slots_b: Seq<LayoutDevice<C>>,
    records_b: Seq<Pixel>,
)
    requires
        same_placements(slots_a, slots_b),
        same_claims(records_a, records_b),
        forall|i: int| 0 <= i < records_a.len() ==> record_owned(slots_a, #[trigger] records_a[i]),
        forall|d: int, j: int|
            0 <= d < slots_a.len() && 0 <= j < slots_a[d].canvas.pad_list().len()
                ==> #[trigger] pad_recorded(slots_a, records_a, d, j),
    ensures
        forall|i: int| 0 <= i < records_b.len() ==> record_owned(slots_b, #[trigger] records_b[i]),
        forall|d: int, j: int|
            0 <= d < slots_b.len() && 0 <= j < slots_b[d].canvas.pad_list().len()
                ==> #[trigger] pad_recorded(slots_b, records_b, d, j),
{
    assert forall|i: int| 0 <= i < records_b.len() implies record_owned(
        slots_b,
        #[trigger] records_b[i],
    ) by {
        assert(record_owned(slots_a, records_a[i]));
        let d = records_a[i].device_index as int;
        assert(slots_a[d].rotation == slots_b[d].rotation);
    }
    assert forall|d: int, j: int|
        0 <= d < slots_b.len() && 0 <= j < slots_b[d].canvas.pad_list().len() implies #[trigger] pad_recorded(
        slots_b,
        records_b,
        d,
        j,
    ) by {
        assert(slots_a[d].rotation == slots_b[d].rotation);
        assert(pad_recorded(slots_a, records_a, d, j));
        let pad = slots_a[d].canvas.pad_list()[j];
        let g = slots_a[d].spec_to_global(pad.0, pad.1);
        let i = choose|i: int|
            0 <= i < records_a.len() && (#[trigger] records_a[i]).x == g.0 && records_a[i].y == g.1
                && records_a[i].device_index == d;
        assert(records_b[i].x == g.0);
    }
}

/// Devices with the same bounding boxes have the same componentwise
/// maximum.
proof fn lemma_max_extent_same<C: Canvas>(a: Seq<LayoutDevice<C>>, b: Seq<LayoutDevice<C>>)
    requires
        same_placements(a, b),
    ensures
        max_extent(a) == max_extent(b),
    decreases a.len(),
{
    if a.len() > 0 {
        assert(a.last().rotation == b.last().rotation);
        assert forall|d: int| 0 <= d < a.drop_last().len() implies {
            &&& (#[trigger] a.drop_last()[d]).rotation == b.drop_last()[d].rotation
            &&& a.drop_last()[d].x == b.drop_last()[d].x
            &&& a.drop_last()[d].y == b.drop_last()[d].y
            &&& a.drop_last()[d].canvas.pad_list() == b.drop_last()[d].canvas.pad_list()
            &&& a.drop_last()[d].canvas.extent() == b.drop_last()[d].canvas.extent()
            &&& a.drop_last()[d].canvas.floor() == b.drop_last()[d].canvas.floor()
        } by {
            assert(a[d].rotation == b[d].rotation);
        }
        lemma_max_extent_same(a.drop_last(), b.drop_last());
    }
}

/// The bounding box of two devices is the componentwise maximum of their own
/// bounding boxes.
pub proof fn lemma_max_extent_of_two<C: Canvas>(first: LayoutDevice<C>, second: LayoutDevice<C>)
    ensures
        max_extent(seq![first, second]).0 == if first.canvas.extent().0
            >= second.canvas.extent().0 {
            first.canvas.extent().0
        } else {
            second.canvas.extent().0
        },
        max_extent(seq![first, second]).1 == if first.canvas.extent().1
            >= second.canvas.extent().1 {
            first.canvas.extent().1
        } else {
            second.canvas.extent().1
        },
{
    let both = seq![first, second];
    assert(both.drop_last() =~= seq![first]);
    assert(both.last() == second);
    assert(seq![first].drop_last() =~= Seq::<LayoutDevice<C>>::empty());
    assert(seq![first].last() == first);
    assert(max_extent(Seq::<LayoutDevice<C>>::empty()) == (0u32, 0u32));
    assert(max_extent(seq![first]) == first.canvas.extent());
}

/// The default lowest visible brightness of a layout: a quarter.
pub const DEFAULT_LIGHT_THRESHOLD: u32 = 16384;

/// Several devices lined up and used as if they were one canvas.
///
/// Each device has an offset and a rotation. The layout keeps one record
/// for every global coordinate that a device claims, and no coordinate is
/// claimed twice.
pub struct CanvasLayout<C: Canvas> {
    devices: Vec<LayoutDevice<C>>,
    pixels: Vec<Pixel>,
    coordinate_map: HashMap<u64, usize>,
    light_threshold: u32,
}

impl<C: Canvas> CanvasLayout<C> {
    /// The devices with their placements, in the order in which they were
    /// added.
    pub closed spec fn slots(&self) -> Seq<LayoutDevice<C>> {
        self.devices@
    }

    /// The records, in the order in which their coordinates were claimed.
    pub closed spec fn records(&self) -> Seq<Pixel> {
        self.pixels@
    }

    /// The layout's own lowest visible brightness.
    pub closed spec fn threshold(&self) -> u32 {
        self.light_threshold
    }

    /// The lookup table holds exactly the positions of the records.
    pub closed spec fn index_mirrors_records(&self) -> bool {
        &&& forall|k: u64| #[trigger]
            self.coordinate_map@.contains_key(k) ==> {
                let i = self.coordinate_map@[k];
                &&& i < self.pixels@.len()
                &&& key_of(self.pixels@[i as int].x, self.pixels@[i as int].y) == k
            }
        &&& forall|i: int|
            0 <= i < self.pixels@.len() ==> {
                let k = key_of((#[trigger] self.pixels@[i]).x, self.pixels@[i].y);
                &&& self.coordinate_map@.contains_key(k)
                &&& self.coordinate_map@[k] == i
            }
    }

    /// Records that the lookup table mirrors have distinct coordinates.
    proof fn lemma_records_distinct(&self)
        requires
            self.index_mirrors_records(),
        ensures
            distinct_coordinates(self.records()),
    {
        let records = self.pixels@;
        assert forall|i: int, j: int| 0 <= i < j < records.len() implies !((
        #[trigger] records[i]).x == (#[trigger] records[j]).x && records[i].y == records[j].y) by {
            if records[i].x == records[j].x && records[i].y == records[j].y {
                assert(self.coordinate_map@[key_of(records[i].x, records[i].y)] == i);
                assert(self.coordinate_map@[key_of(records[j].x, records[j].y)] == j);
            }
        }
    }

    /// The lookup table finds the record about `(x, y)` where there is one.
    proof fn lemma_lookup(&self, x: u32, y: u32)
        requires
            self.index_mirrors_records(),
        ensures
            claims(self.records(), x, y) == self.coordinate_map@.contains_key(key_of(x, y)),
            self.coordinate_map@.contains_key(key_of(x, y)) ==> {
                let i = self.coordinate_map@[key_of(x, y)];
                &&& i < self.pixels@.len()
                &&& self.pixels@[i as int].x == x
                &&& self.pixels@[i as int].y == y
                &&& record_at(self.records(), x, y) == Some(self.pixels@[i as int])
            },
    {
        let records = self.pixels@;
        let k = key_of(x, y);
        if self.coordinate_map@.contains_key(k) {
            let i = self.coordinate_map@[k] as int;
            lemma_key_injective(records[i].x, records[i].y, x, y);
            assert(claims(records, x, y));
            let c = choose|c: int|
                0 <= c < records.len() && (#[trigger] records[c]).x == x && records[c].y == y;
            assert(self.coordinate_map@[key_of(records[c].x, records[c].y)] == c);
        } else {
            if claims(records, x, y) {
                let c = choose|c: int|
                    0 <= c < records.len() && (#[trigger] records[c]).x == x && records[c].y == y;
                assert(self.coordinate_map@.contains_key(key_of(records[c].x, records[c].y)));
            }
        }
    }

    /// Whether this layout is `before` with a new pending color in the
    /// record `i`, and nothing else changed.
    closed spec fn written_at(&self, before: CanvasLayout<C>, i: int) -> bool {
        &&& 0 <= i < before.pixels@.len()
        &&& self.devices@ == before.devices@
        &&& self.coordinate_map@ == before.coordinate_map@
        &&& self.light_threshold == before.light_threshold
        &&& self.pixels@ == before.pixels@.update(
            i,
            Pixel { color_new: self.pixels@[i].color_new, ..before.pixels@[i] },
        )
    }

    /// Whether this layout is sound and answers as `before` did, but for
    /// the pending color of the record `i`.
    closed spec fn answers_after_write(&self, before: CanvasLayout<C>, i: int) -> bool {
        &&& self.inv()
        &&& self.pad_list() == before.pad_list()
        &&& self.extent() == before.extent()
        &&& self.floor() == before.floor()
        &&& forall|a: u32, b: u32| #[trigger] self.committed_at(a, b) == before.committed_at(a, b)
        &&& forall|a: u32, b: u32| #[trigger]
            self.pending_at(a, b) == if a == before.pixels@[i].x && b == before.pixels@[i].y {
                Some(self.pixels@[i].color_new)
            } else {
                before.pending_at(a, b)
            }
    }

    /// Writing a pending color into one record leaves the layout sound and
    /// changes what it answers for that record's coordinate only.
    proof fn lemma_write_kept(before: CanvasLayout<C>, after: CanvasLayout<C>, i: int)
        requires
            before.inv(),
            after.written_at(before, i),
        ensures
            after.answers_after_write(before, i),
    {
        let old_records = before.pixels@;
        let records = after.pixels@;
        let color = records[i].color_new;
        assert(same_claims(old_records, records));
        assert(same_placements(before.devices@, after.devices@));
        assert forall|r: int| 0 <= r < old_records.len() implies record_owned(
            before.devices@,
            #[trigger] old_records[r],
        ) by {
            assert(record_owned(before.slots(), before.records()[r]));
        }
        assert forall|d: int, j: int|
            0 <= d < before.devices@.len() && 0 <= j < before.devices@[d].canvas.pad_list().len() implies #[trigger] pad_recorded(
            before.devices@,
            old_records,
            d,
            j,
        ) by {
            assert(pad_recorded(before.slots(), before.records(), d, j));
        }
        lemma_shape_kept(before.devices@, old_records, after.devices@, records);
        assert(records.map_values(|p: Pixel| (p.x, p.y)) =~= old_records.map_values(
            |p: Pixel| (p.x, p.y),
        ));
        assert forall|d: int| 0 <= d < after.slots().len() implies (#[trigger] after.slots()[d]).canvas.inv() by {
            assert(before.slots()[d].canvas.inv());
        }
        assert forall|a: u32, b: u32|
            #![trigger after.committed_at(a, b)]
            #![trigger after.pending_at(a, b)]
            after.committed_at(a, b) == before.committed_at(a, b) && after.pending_at(a, b) == if a
                == old_records[i].x && b == old_records[i].y {
                Some(color)
            } else {
                before.pending_at(a, b)
            } by {
            let c = lemma_same_claims_lookup(old_records, records, a, b);
            if claims(old_records, a, b) {
                if a == old_records[i].x && b == old_records[i].y {
                    if c < i {
                        assert(!(old_records[c].x == old_records[i].x && old_records[c].y
                            == old_records[i].y));
                    }
                    if i < c {
                        assert(!(old_records[i].x == old_records[c].x && old_records[i].y
                            == old_records[c].y));
                    }
                }
            } else {
                if a == old_records[i].x && b == old_records[i].y {
                    assert(claims(old_records, a, b));
                }
            }
        }
        lemma_same_claims_distinct(old_records, records);
        assert forall|k: u64| #[trigger] after.coordinate_map@.contains_key(k) implies {
            let r = after.coordinate_map@[k];
            &&& r < after.pixels@.len()
            &&& key_of(after.pixels@[r as int].x, after.pixels@[r as int].y) == k
        } by {
            let r = before.coordinate_map@[k] as int;
            assert(records[r].x == old_records[r].x);
        }
        assert forall|r: int| 0 <= r < after.pixels@.len() implies {
            let k = key_of((#[trigger] after.pixels@[r]).x, after.pixels@[r].y);
            &&& after.coordinate_map@.contains_key(k)
            &&& after.coordinate_map@[k] == r
        } by {
            assert(records[r].x == old_records[r].x);
        }
    }

    /// Once every record counts as sent and the devices have kept their
    /// placements and pads, the layout is sound and answers as a canvas
    /// should after a flush.
    proof fn lemma_after_flush(&self, before: CanvasLayout<C>)
        requires
            before.inv(),
            self.light_threshold == before.light_threshold,
            self.coordinate_map@ == before.coordinate_map@,
            self.pixels@ == before.pixels@.map_values(|p: Pixel| committed(p)),
            same_placements(before.devices@, self.devices@),
            forall|d: int| 0 <= d < self.devices@.len() ==> (#[trigger] self.devices@[d]).canvas.inv(),
        ensures
            self.inv(),
            self.pad_list() == before.pad_list(),
            self.extent() == before.extent(),
            self.floor() == before.floor(),
            forall|a: u32, b: u32| #[trigger] self.pending_at(a, b) == before.pending_at(a, b),
            forall|a: u32, b: u32| #[trigger] self.committed_at(a, b) == before.pending_at(a, b),
    {
        let old_records = before.pixels@;
        let records = self.pixels@;
        assert(same_claims(old_records, records));
        assert forall|i: int| 0 <= i < old_records.len() implies record_owned(
            before.devices@,
            #[trigger] old_records[i],
        ) by {
            assert(record_owned(before.slots(), before.records()[i]));
        }
        assert forall|d: int, j: int|
            0 <= d < before.devices@.len() && 0 <= j < before.devices@[d].canvas.pad_list().len() implies #[trigger] pad_recorded(
            before.devices@,
            old_records,
            d,
            j,
        ) by {
            assert(pad_recorded(before.slots(), before.records(), d, j));
        }
        lemma_shape_kept(before.devices@, old_records, self.devices@, records);
        lemma_max_extent_same(before.devices@, self.devices@);
        assert(records.map_values(|p: Pixel| (p.x, p.y)) =~= old_records.map_values(
            |p: Pixel| (p.x, p.y),
        ));
        assert forall|a: u32, b: u32|
            #![trigger self.pending_at(a, b)]
            #![trigger self.committed_at(a, b)]
            self.pending_at(a, b) == before.pending_at(a, b) && self.committed_at(a, b)
                == before.pending_at(a, b) by {
            lemma_same_claims_lookup(old_records, records, a, b);
        }
        lemma_same_claims_distinct(old_records, records);
        assert forall|k: u64| #[trigger] self.coordinate_map@.contains_key(k) implies {
            let i = self.coordinate_map@[k];
            &&& i < self.pixels@.len()
            &&& key_of(self.pixels@[i as int].x, self.pixels@[i as int].y) == k
        } by {
            let i = before.coordinate_map@[k] as int;
            assert(records[i].x == old_records[i].x);
        }
        assert forall|i: int| 0 <= i < self.pixels@.len() implies {
            let k = key_of((#[trigger] self.pixels@[i]).x, self.pixels@[i].y);
            &&& self.coordinate_map@.contains_key(k)
            &&& self.coordinate_map@[k] == i
        } by {
            assert(records[i].x == old_records[i].x);
        }
    }

    /// A layout without devices, with the default lowest visible
    /// brightness.
    pub fn new() -> (layout: CanvasLayout<C>)
        ensures
            layout.inv(),
            layout.slots().len() == 0,
            layout.records().len() == 0,
            layout.threshold() == DEFAULT_LIGHT_THRESHOLD,
    {
        CanvasLayout {
            devices: Vec::new(),
            pixels: Vec::new(),
            coordinate_map: HashMap::new(),
            light_threshold: DEFAULT_LIGHT_THRESHOLD,
        }
    }

    /// A layout without devices, and an empty poller to queue its events
    /// in.
    pub fn new_polling() -> (pair: (CanvasLayout<C>, CanvasLayoutPoller))
        ensures
            pair.0.inv(),
            pair.0.slots().len() == 0,
            pair.0.records().len() == 0,
            pair.0.threshold() == DEFAULT_LIGHT_THRESHOLD,
            pair.1.inv(),
            pair.1@ == Seq::<CanvasMessage>::empty(),
    {
        (CanvasLayout::new(), CanvasLayoutPoller::new())
    }

    /// Finds the first pad of a device about to be added that lands on a
    /// taken coordinate.
    fn find_clash(
        &self,
        pads: &Vec<(u32, u32)>,
        x_offset: u32,
        y_offset: u32,
        rotation: Rotation,
    ) -> (found: Option<Overlap>)
        requires
            self.index_mirrors_records(),
            placement_fits(pads@, rotation, x_offset, y_offset),
        ensures
            match found {
                None => no_clash(self.records(), pads@, rotation, x_offset, y_offset),
                Some(e) => exists|k: int| #[trigger]
                    first_clash_at(self.records(), pads@, rotation, x_offset, y_offset, k) && e
                        == overlap_at(
                        self.records(),
                        pads@,
                        rotation,
                        x_offset,
                        y_offset,
                        self.slots().len() as usize,
                        k,
                    ),
            },
    {
        let index = self.devices.len();
        let mut seen: HashSet<u64> = HashSet::new();
        let mut k: usize = 0;
        while k < pads.len()
            invariant
                k <= pads.len(),
                index == self.slots().len(),
                self.index_mirrors_records(),
                placement_fits(pads@, rotation, x_offset, y_offset),
                forall|j: int|
                    0 <= j < k ==> !#[trigger] clash_at(
                        self.records(),
                        pads@,
                        rotation,
                        x_offset,
                        y_offset,
                        j,
                    ),
                forall|j: int|
                    0 <= j < k ==> {
                        let g = placed(#[trigger] pads@[j], rotation, x_offset, y_offset);
                        seen@.contains(key_of(g.0, g.1))
                    },
                forall|key: u64| #[trigger]
                    seen@.contains(key) ==> exists|j: int|
                        0 <= j < k && {
                            let g = placed(#[trigger] pads@[j], rotation, x_offset, y_offset);
                            key_of(g.0, g.1) == key
                        },
            decreases pads.len() - k,
        {
            let pad = pads[k];
            assert(pads@[k as int] == pad);
            let g = to_global(pad.0, pad.1, rotation, x_offset, y_offset);
            assert(g == placed(pad, rotation, x_offset, y_offset));
            let kk = key(g.0, g.1);
            proof {
                self.lemma_lookup(g.0, g.1);
            }
            match self.coordinate_map.get(&kk) {
                Some(i) => {
                    let e = Overlap {
                        x: g.0,
                        y: g.1,
                        existing_device: self.pixels[*i].device_index,
                        new_device: index,
                    };
                    proof {
                        assert(first_clash_at(
                            self.records(),
                            pads@,
                            rotation,
                            x_offset,
                            y_offset,
                            k as int,
                        ));
                    }
                    return Some(e);
                },
                None => {},
            }
            if seen.contains(&kk) {
                let e = Overlap { x: g.0, y: g.1, existing_device: index, new_device: index };
                proof {
                    let j = choose|j: int|
                        0 <= j < k && {
                            let h = placed(#[trigger] pads@[j], rotation, x_offset, y_offset);
                            key_of(h.0, h.1) == kk
                        };
                    let h = placed(pads@[j], rotation, x_offset, y_offset);
                    lemma_key_injective(h.0, h.1, g.0, g.1);
                    assert(first_clash_at(
                        self.records(),
                        pads@,
                        rotation,
                        x_offset,
                        y_offset,
                        k as int,
                    ));
                }
                return Some(e);
            }
            proof {
                assert(!clash_at(self.records(), pads@, rotation, x_offset, y_offset, k as int))
                    by {
                    if exists|j: int|
                        0 <= j < k && placed(#[trigger] pads@[j], rotation, x_offset, y_offset)
                            == g {
                        let j = choose|j: int|
                            0 <= j < k && placed(
                                #[trigger] pads@[j],
                                rotation,
                                x_offset,
                                y_offset,
                            ) == g;
                        let h = placed(pads@[j], rotation, x_offset, y_offset);
                        assert(seen@.contains(key_of(h.0, h.1)));
                    }
                }
            }
            seen.insert(kk);
            k += 1;
        }
        None
    }

    /// Adds a device at the offset `(x_offset, y_offset)`, turned by
    /// `rotation`, unless one of its pads lands on a coordinate that is
    /// taken.
    ///
    /// On success the device is the last of the layout's devices, and the
    /// layout has one more record for each of its pads, with the colors that
    /// the device holds. On failure the layout is what it was, and the error
    /// names the first pad's coordinate that is taken and both devices.
    pub fn register(
        &mut self,
        x_offset: u32,
        y_offset: u32,
        rotation: Rotation,
        canvas: C,
    ) -> (result: Result<(), Overlap>)
        requires
            old(self).inv(),
            canvas.inv(),
            placement_fits(canvas.pad_list(), rotation, x_offset, y_offset),
        ensures
            final(self).inv(),
            final(self).threshold() == old(self).threshold(),
            registered(
                *old(self),
                *final(self),
                LayoutDevice { canvas, rotation, x: x_offset, y: y_offset },
                result,
            ),
    {
        let index = self.devices.len();
        let pads = canvas.pads();
        match self.find_clash(&pads, x_offset, y_offset, rotation) {
            Some(e) => {
                proof {
                    let k = choose|k: int| #[trigger]
                        first_clash_at(self.records(), pads@, rotation, x_offset, y_offset, k) && e
                            == overlap_at(
                            self.records(),
                            pads@,
                            rotation,
                            x_offset,
                            y_offset,
                            self.slots().len() as usize,
                            k,
                        );
                    let slot = LayoutDevice { canvas, rotation, x: x_offset, y: y_offset };
                    assert(first_clash_at(
                        self.records(),
                        slot.canvas.pad_list(),
                        slot.rotation,
                        slot.x,
                        slot.y,
                        k,
                    ));
                }
                return Err(e);
            },
            None => {},
        }
        let ghost old_slots = self.devices@;
        let ghost old_records = self.pixels@;
        let ghost fresh = LayoutDevice { canvas, rotation, x: x_offset, y: y_offset };
        let mut k: usize = 0;
        while k < pads.len()
            invariant
                k <= pads.len(),
                pads@ == canvas.pad_list(),
                canvas.inv(),
                fresh == (LayoutDevice { canvas, rotation, x: x_offset, y: y_offset }),
                placement_fits(pads@, rotation, x_offset, y_offset),
                no_clash(old_records, pads@, rotation, x_offset, y_offset),
                self.devices@ == old_slots,
                index == old_slots.len(),
                self.light_threshold == old(self).light_threshold,
                self.pixels@.len() == old_records.len() + k,
                forall|i: int|
                    0 <= i < old_records.len() ==> #[trigger] self.pixels@[i] == old_records[i],
                forall|j: int|
                    0 <= j < k ==> #[trigger] self.pixels@[old_records.len() + j] == record_for(
                        fresh,
                        pads@[j],
                        index,
                    ),
                self.index_mirrors_records(),
            decreases pads.len() - k,
        {
            let pad = pads[k];
            assert(pads@[k as int] == pad);
            let g = to_global(pad.0, pad.1, rotation, x_offset, y_offset);
            assert(g == placed(pad, rotation, x_offset, y_offset));
            let color_new = *canvas.low_level_get_pending(pad.0, pad.1).unwrap();
            let color_old = *canvas.low_level_get(pad.0, pad.1).unwrap();
            let position = self.pixels.len();
            let kk = key(g.0, g.1);
            let pixel = Pixel { x: g.0, y: g.1, device_index: index, color_new, color_old };
            let ghost before_pixels = self.pixels@;
            let ghost before_map = self.coordinate_map@;
            proof {
                assert(pixel == record_for(fresh, pad, index));
                self.lemma_lookup(g.0, g.1);
                if claims(before_pixels, g.0, g.1) {
                    let c = choose|c: int|
                        0 <= c < before_pixels.len() && (#[trigger] before_pixels[c]).x == g.0
                            && before_pixels[c].y == g.1;
                    assert(!clash_at(old_records, pads@, rotation, x_offset, y_offset, k as int));
                    if c < old_records.len() {
                        assert(old_records[c] == before_pixels[c]);
                        assert(claims(old_records, g.0, g.1));
                    } else {
                        let j = c - old_records.len();
                        assert(before_pixels[old_records.len() + j] == record_for(
                            fresh,
                            pads@[j],
                            index,
                        ));
                        assert(placed(pads@[j], rotation, x_offset, y_offset) == g);
                    }
                }
                assert(!before_map.contains_key(kk));
            }
            self.pixels.push(pixel);
            self.coordinate_map.insert(kk, position);
            proof {
                assert forall|i: int| 0 <= i < old_records.len() implies #[trigger] self.pixels@[i]
                    == old_records[i] by {
                    assert(self.pixels@[i] == before_pixels[i]);
                }
                assert forall|j: int| 0 <= j < k + 1 implies #[trigger] self.pixels@[old_records.len()
                    + j] == record_for(fresh, pads@[j], index) by {
                    if j < k {
                        assert(self.pixels@[old_records.len() + j] == before_pixels[old_records.len()
                            + j]);
                    }
                }
                assert forall|key: u64| #[trigger]
                    self.coordinate_map@.contains_key(key) implies {
                    let i = self.coordinate_map@[key];
                    &&& i < self.pixels@.len()
                    &&& key_of(self.pixels@[i as int].x, self.pixels@[i as int].y) == key
                } by {
                    if key != kk {
                        assert(before_map.contains_key(key));
                        assert(self.pixels@[before_map[key] as int] == before_pixels[before_map[key] as int]);
                    }
                }
                assert forall|i: int| 0 <= i < self.pixels@.len() implies {
                    let key = key_of((#[trigger] self.pixels@[i]).x, self.pixels@[i].y);
                    &&& self.coordinate_map@.contains_key(key)
                    &&& self.coordinate_map@[key] == i
                } by {
                    if i < before_pixels.len() {
                        assert(self.pixels@[i] == before_pixels[i]);
                        assert(before_map.contains_key(
                            key_of(before_pixels[i].x, before_pixels[i].y),
                        ));
                    }
                }
            }
            k += 1;
        }
        self.devices.push(LayoutDevice { canvas, rotation, x: x_offset, y: y_offset });
        proof {
            let slots = self.devices@;
            let records = self.pixels@;
            assert(self.devices.len() == slots.len());
            assert(slots[index as int] == fresh);
            self.lemma_records_distinct();
            assert forall|d: int| 0 <= d < slots.len() implies (#[trigger] slots[d]).canvas.inv() by {
                if d < old_slots.len() {
                    assert(slots[d] == old_slots[d]);
                    assert(old(self).slots()[d].canvas.inv());
                } else {
                    assert(slots[d] == fresh);
                }
            }
            assert forall|i: int| 0 <= i < records.len() implies record_owned(
                slots,
                #[trigger] records[i],
            ) by {
                if i < old_records.len() {
                    assert(records[i] == old(self).records()[i]);
                    assert(record_owned(old_slots, old(self).records()[i]));
                    let d = records[i].device_index as int;
                    assert(slots[d] == old_slots[d]);
                } else {
                    let j = i - old_records.len();
                    assert(records[old_records.len() + j] == record_for(fresh, pads@[j], index));
                    let pad = pads@[j];
                    lemma_round_trip(
                        pad.0 as int,
                        pad.1 as int,
                        rotation,
                        x_offset as int,
                        y_offset as int,
                    );
                    assert(fresh.canvas.pad_list()[j] == pad);
                }
            }
            assert forall|d: int, j: int|
                0 <= d < slots.len() && 0 <= j < slots[d].canvas.pad_list().len() implies #[trigger] pad_recorded(
                slots,
                records,
                d,
                j,
            ) by {
                if d < old_slots.len() {
                    assert(slots[d] == old_slots[d]);
                    assert(pad_recorded(old(self).slots(), old(self).records(), d, j));
                    let pad = old_slots[d].canvas.pad_list()[j];
                    let g = old_slots[d].spec_to_global(pad.0, pad.1);
                    let i = choose|i: int|
                        0 <= i < old_records.len() && (#[trigger] old_records[i]).x == g.0
                            && old_records[i].y == g.1 && old_records[i].device_index == d;
                    assert(records[i] == old_records[i]);
                } else {
                    assert(slots[d] == fresh);
                    let i = old_records.len() + j;
                    assert(records[old_records.len() + j] == record_for(fresh, pads@[j], index));
                    assert(records[i].device_index == d);
                }
            }
            assert(records =~= old_records + records_for(fresh, index)) by {
                assert forall|i: int| 0 <= i < records.len() implies records[i] == (old_records
                    + records_for(fresh, index))[i] by {
                    if i >= old_records.len() {
                        let j = i - old_records.len();
                        assert(records[old_records.len() + j] == record_for(fresh, pads@[j], index));
                    }
                }
            }
        }
        Ok(())
    }

    /// Adds a new device at the offset `(x_offset, y_offset)`, turned by
    /// `rotation`.
    ///
    /// `creator` makes the device. It is called once, with the router that
    /// the device's events have to pass through to reach the client in
    /// global coordinates. Where it fails, its error is handed on and the
    /// layout is what it was. Where it succeeds, the device is registered.
    pub fn add<E, F>(
        &mut self,
        x_offset: u32,
        y_offset: u32,
        rotation: Rotation,
        creator: F,
    ) -> (result: Result<(), AddError<E>>) where F: FnOnce(MessageRouter) -> Result<C, E>
        requires
            old(self).inv(),
            creator.requires((MessageRouter { rotation, x_offset, y_offset },)),
            forall|canvas: C| #[trigger]
                creator.ensures((MessageRouter { rotation, x_offset, y_offset },), Ok(canvas))
                    ==> canvas.inv() && placement_fits(
                    canvas.pad_list(),
                    rotation,
                    x_offset,
                    y_offset,
                ),
        ensures
            final(self).inv(),
            final(self).threshold() == old(self).threshold(),
            match result {
                Ok(()) => exists|canvas: C| #[trigger]
                    creator.ensures((MessageRouter { rotation, x_offset, y_offset },), Ok(canvas))
                        && registered(
                        *old(self),
                        *final(self),
                        LayoutDevice { canvas, rotation, x: x_offset, y: y_offset },
                        Ok(()),
                    ),
                Err(AddError::Overlap(e)) => exists|canvas: C| #[trigger]
                    creator.ensures((MessageRouter { rotation, x_offset, y_offset },), Ok(canvas))
                        && registered(
                        *old(self),
                        *final(self),
                        LayoutDevice { canvas, rotation, x: x_offset, y: y_offset },
                        Err(e),
                    ),
                Err(AddError::Creation(e)) => {
                    &&& creator.ensures(
                        (MessageRouter { rotation, x_offset, y_offset },),
                        Err::<C, E>(e),
                    )
                    &&& final(self).slots() == old(self).slots()
                    &&& final(self).records() == old(self).records()
                },
            },
    {
        let router = MessageRouter { rotation, x_offset, y_offset };
        match creator(router) {
            Ok(canvas) => match self.register(x_offset, y_offset, rotation, canvas) {
                Ok(()) => Ok(()),
                Err(e) => Err(AddError::Overlap(e)),
            },
            Err(e) => Err(AddError::Creation(e)),
        }
    }

    /// The layout's own lowest visible brightness, against which its colors
    /// are authored.
    pub fn light_threshold(&self) -> (value: u32)
        ensures
            value == self.threshold(),
    {
        self.light_threshold
    }

    /// Sets the layout's own lowest visible brightness; nothing else
    /// changes.
    pub fn set_light_threshold(&mut self, value: u32)
        requires
            old(self).inv(),
            value < UNIT,
        ensures
            final(self).inv(),
            final(self).threshold() == value,
            final(self).slots() == old(self).slots(),
            final(self).records() == old(self).records(),
    {
        self.light_threshold = value;
        assert(self.slots() == old(self).slots());
    }
}

impl<C: Canvas> Canvas for CanvasLayout<C> {
    /// Every record belongs to a pad of its device, every pad of every
    /// device has its record, and no coordinate has two.
    open spec fn inv(&self) -> bool {
        &&& self.index_mirrors_records()
        &&& self.threshold() < UNIT
        &&& self.slots().len() <= usize::MAX
        &&& distinct_coordinates(self.records())
        &&& forall|d: int| 0 <= d < self.slots().len() ==> (#[trigger] self.slots()[d]).canvas.inv()
        &&& forall|i: int|
            0 <= i < self.records().len() ==> record_owned(self.slots(), #[trigger] self.records()[i])
        &&& forall|d: int, j: int|
            0 <= d < self.slots().len() && 0 <= j < self.slots()[d].canvas.pad_list().len()
                ==> #[trigger] pad_recorded(self.slots(), self.records(), d, j)
    }

    /// The claimed global coordinates, in the order in which they were
    /// claimed.
    open spec fn pad_list(&self) -> Seq<(u32, u32)> {
        self.records().map_values(|p: Pixel| (p.x, p.y))
    }

    open spec fn extent(&self) -> (u32, u32) {
        max_extent(self.slots())
    }

    open spec fn floor(&self) -> u32 {
        self.threshold()
    }

    open spec fn pending_at(&self, x: u32, y: u32) -> Option<Color> {
        match record_at(self.records(), x, y) {
            Some(p) => Some(p.color_new),
            None => None,
        }
    }

    open spec fn committed_at(&self, x: u32, y: u32) -> Option<Color> {
        match record_at(self.records(), x, y) {
            Some(p) => Some(p.color_old),
            None => None,
        }
    }

    fn lowest_visible_brightness(&self) -> (level: u32) {
        self.light_threshold
    }

    fn bounding_box(&self) -> (size: (u32, u32)) {
        let mut width: u32 = 0;
        let mut height: u32 = 0;
        let mut d: usize = 0;
        while d < self.devices.len()
            invariant
                self.inv(),
                d <= self.devices.len(),
                (width, height) == max_extent(self.slots().subrange(0, d as int)),
            decreases self.devices.len() - d,
        {
            let (device_width, device_height) = self.devices[d].canvas.bounding_box();
            proof {
                let upto = self.slots().subrange(0, d + 1);
                assert(upto.drop_last() =~= self.slots().subrange(0, d as int));
                assert(upto.last() == self.slots()[d as int]);
            }
            if device_width > width {
                width = device_width;
            }
            if device_height > height {
                height = device_height;
            }
            d += 1;
        }
        proof {
            assert(self.slots().subrange(0, d as int) =~= self.slots());
        }
        (width, height)
    }

    fn pads(&self) -> (list: Vec<(u32, u32)>) {
        let mut list: Vec<(u32, u32)> = Vec::new();
        let mut i: usize = 0;
        while i < self.pixels.len()
            invariant
                i <= self.pixels.len(),
                list@ == self.records().subrange(0, i as int).map_values(|p: Pixel| (p.x, p.y)),
            decreases self.pixels.len() - i,
        {
            list.push((self.pixels[i].x, self.pixels[i].y));
            proof {
                assert(list@ =~= self.records().subrange(0, i + 1).map_values(
                    |p: Pixel| (p.x, p.y),
                ));
            }
            i += 1;
        }
        proof {
            assert(self.records().subrange(0, i as int) =~= self.records());
        }
        list
    }

    fn low_level_get(&self, x: u32, y: u32) -> (color: Option<&Color>) {
        proof {
            self.lemma_lookup(x, y);
            lemma_pad_list_claims(self.records(), x, y);
        }
        let k = key(x, y);
        match self.coordinate_map.get(&k) {
            Some(i) => Some(&self.pixels[*i].color_old),
            None => None,
        }
    }

    fn low_level_get_pending(&self, x: u32, y: u32) -> (color: Option<&Color>) {
        proof {
            self.lemma_lookup(x, y);
            lemma_pad_list_claims(self.records(), x, y);
        }
        let k = key(x, y);
        match self.coordinate_map.get(&k) {
            Some(i) => Some(&self.pixels[*i].color_new),
            None => None,
        }
    }

    /// The place of the pending color of the record about `(x, y)`. What is
    /// written there is kept for a later read and sent with the next
    /// flush; the devices and the other records stay what they are.
    fn low_level_get_pending_mut(&mut self, x: u32, y: u32) -> (place: Option<&mut Color>)
        ensures
            final(self).threshold() == old(self).threshold(),
            final(self).slots() == old(self).slots(),
            match place {
                Some(c) => exists|i: int|
                    0 <= i < old(self).records().len() && (#[trigger] old(self).records()[i]).x
                        == x && old(self).records()[i].y == y && final(self).records() == old(
                        self,
                    ).records().update(
                        i,
                        Pixel { color_new: *final(c), ..old(self).records()[i] },
                    ),
                None => final(self).records() == old(self).records(),
            },
    {
        proof {
            self.lemma_lookup(x, y);
            lemma_pad_list_claims(self.records(), x, y);
        }
        let k = key(x, y);
        let found: Option<usize> = match self.coordinate_map.get(&k) {
            Some(i) => Some(*i),
            None => None,
        };
        match found {
            Some(i) => {
                proof {
                    assert forall|after: CanvasLayout<C>|
                        after.written_at(*self, i as int) implies #[trigger] after.inv()
                        && after.answers_after_write(*self, i as int) by {
                        Self::lemma_write_kept(*self, after, i as int);
                    }
                    assert forall|after: CanvasLayout<C>, a: u32, b: u32|
                        after.written_at(*self, i as int) implies #[trigger] after.committed_at(
                        a,
                        b,
                    ) == self.committed_at(a, b) by {
                        Self::lemma_write_kept(*self, after, i as int);
                    }
                    assert forall|after: CanvasLayout<C>, a: u32, b: u32|
                        after.written_at(*self, i as int) implies #[trigger] after.pending_at(a, b)
                        == if a == x && b == y {
                        Some(after.pixels@[i as int].color_new)
                    } else {
                        self.pending_at(a, b)
                    } by {
                        Self::lemma_write_kept(*self, after, i as int);
                    }
                }
                Some(&mut self.pixels[i].color_new)
            },
            None => None,
        }
    }

    /// Sends every record's pending color to its device, moved to the
    /// device's lowest visible brightness, then flushes the devices in the
    /// order of their indices and stops at the first that fails. The
    /// records count as sent either way.
    fn flush(&mut self) -> (result: Result<(), MidiError>)
        ensures
            final(self).threshold() == old(self).threshold(),
            same_placements(old(self).slots(), final(self).slots()),
            final(self).records() == old(self).records().map_values(|p: Pixel| committed(p)),
            forall|a: u32, b: u32| #[trigger]
                final(self).committed_at(a, b) == old(self).pending_at(a, b),
            forall|i: int|
                0 <= i < final(self).records().len() ==> buffered(
                    final(self).slots(),
                    #[trigger] final(self).records()[i],
                    final(self).threshold(),
                ),
            match result {
                Ok(()) => forall|d: int|
                    0 <= d < final(self).slots().len() ==> shows_pending(
                        (#[trigger] final(self).slots()[d]).canvas,
                    ),
                Err(_) => exists|k: int|
                    0 <= k < final(self).slots().len() && flushed_before(
                        old(self).slots(),
                        final(self).slots(),
                        k,
                    ),
            },
    {
        let ghost old_slots = self.devices@;
        let ghost old_records = self.pixels@;
        let source = self.light_threshold;
        proof {
            assert forall|d: int| 0 <= d < old_slots.len() implies (#[trigger] old_slots[d]).canvas.inv() by {
                assert(self.slots()[d].canvas.inv());
            }
        }
        let mut i: usize = 0;
        while i < self.pixels.len()
            invariant
                old_slots == old(self).devices@,
                old_records == old(self).pixels@,
                old(self).inv(),
                i <= self.pixels.len(),
                source == self.light_threshold,
                self.light_threshold == old(self).light_threshold,
                self.coordinate_map@ == old(self).coordinate_map@,
                same_placements(old_slots, self.devices@),
                forall|d: int| 0 <= d < self.devices@.len() ==> (#[trigger] self.devices@[d]).canvas.inv(),
                forall|d: int|
                    0 <= d < self.devices@.len() ==> same_committed(
                        old_slots[d].canvas,
                        (#[trigger] self.devices@[d]).canvas,
                    ),
                self.pixels@.len() == old_records.len(),
                forall|j: int|
                    0 <= j < old_records.len() ==> #[trigger] self.pixels@[j] == if j < i {
                        committed(old_records[j])
                    } else {
                        old_records[j]
                    },
                forall|j: int| 0 <= j < i ==> buffered(self.devices@, #[trigger] self.pixels@[j], source),
            decreases self.pixels.len() - i,
        {
            let pixel = self.pixels[i];
            let d = pixel.device_index;
            proof {
                assert(pixel == old_records[i as int]);
                assert(record_owned(old(self).slots(), old(self).records()[i as int]));
                assert(old_slots[d as int].rotation == self.devices@[d as int].rotation);
            }
            let target = self.devices[d].canvas.lowest_visible_brightness();
            let transformed = transform_color(pixel.color_new, source, target);
            let (lx, ly) = self.devices[d].to_local(pixel.x, pixel.y);
            let ghost before_slots = self.devices@;
            let ghost before_pixels = self.pixels@;
            *self.devices[d].canvas.low_level_get_pending_mut(lx, ly).unwrap() = transformed;
            self.pixels[i].color_old = pixel.color_new;
            proof {
                let slots = self.devices@;
                assert forall|e: int| 0 <= e < slots.len() implies {
                    &&& (#[trigger] old_slots[e]).rotation == slots[e].rotation
                    &&& old_slots[e].x == slots[e].x
                    &&& old_slots[e].y == slots[e].y
                    &&& old_slots[e].canvas.pad_list() == slots[e].canvas.pad_list()
                    &&& old_slots[e].canvas.extent() == slots[e].canvas.extent()
                    &&& old_slots[e].canvas.floor() == slots[e].canvas.floor()
                } by {
                    assert(old_slots[e].rotation == before_slots[e].rotation);
                }
                assert forall|e: int| 0 <= e < slots.len() implies (#[trigger] slots[e]).canvas.inv() by {
                    assert(before_slots[e].canvas.inv());
                }
                assert forall|e: int| 0 <= e < slots.len() implies same_committed(
                    old_slots[e].canvas,
                    (#[trigger] slots[e]).canvas,
                ) by {
                    assert(same_committed(old_slots[e].canvas, before_slots[e].canvas));
                }
                assert forall|j: int| 0 <= j < i + 1 implies buffered(
                    slots,
                    #[trigger] self.pixels@[j],
                    source,
                ) by {
                    if j < i {
                        assert(buffered(before_slots, before_pixels[j], source));
                        assert(self.pixels@[j] == before_pixels[j]);
                        let q = self.pixels@[j];
                        if q.device_index == d {
                            assert(record_owned(old(self).slots(), old(self).records()[j]));
                            assert(!(old_records[j].x == old_records[i as int].x && old_records[j].y
                                == old_records[i as int].y));
                            let slot = old_slots[d as int];
                            let lq = slot.spec_to_local(q.x, q.y);
                            let lp = slot.spec_to_local(pixel.x, pixel.y);
                            lemma_round_trip(
                                q.x as int,
                                q.y as int,
                                slot.rotation,
                                slot.x as int,
                                slot.y as int,
                            );
                            lemma_round_trip(
                                pixel.x as int,
                                pixel.y as int,
                                slot.rotation,
                                slot.x as int,
                                slot.y as int,
                            );
                            assert(lq != lp);
                        } else {
                            assert(slots[q.device_index as int] == before_slots[q.device_index as int]);
                        }
                    }
                }
            }
            i += 1;
        }
        proof {
            assert(self.pixels@ =~= old_records.map_values(|p: Pixel| committed(p)));
        }
        let ghost sent = self.pixels@;
        let mut d: usize = 0;
        while d < self.devices.len()
            invariant
                old_slots == old(self).devices@,
                old_records == old(self).pixels@,
                old(self).inv(),
                d <= self.devices.len(),
                source == self.light_threshold,
                self.light_threshold == old(self).light_threshold,
                self.coordinate_map@ == old(self).coordinate_map@,
                self.pixels@ == sent,
                sent == old_records.map_values(|p: Pixel| committed(p)),
                same_placements(old_slots, self.devices@),
                forall|e: int| 0 <= e < self.devices@.len() ==> (#[trigger] self.devices@[e]).canvas.inv(),
                forall|e: int|
                    0 <= e < d ==> shows_pending((#[trigger] self.devices@[e]).canvas),
                forall|e: int|
                    d <= e < self.devices@.len() ==> same_committed(
                        old_slots[e].canvas,
                        (#[trigger] self.devices@[e]).canvas,
                    ),
                forall|j: int| 0 <= j < sent.len() ==> buffered(self.devices@, #[trigger] sent[j], source),
            decreases self.devices.len() - d,
        {
            let ghost before_slots = self.devices@;
            let outcome = self.devices[d].canvas.flush();
            proof {
                let slots = self.devices@;
                assert forall|e: int| 0 <= e < slots.len() implies {
                    &&& (#[trigger] old_slots[e]).rotation == slots[e].rotation
                    &&& old_slots[e].x == slots[e].x
                    &&& old_slots[e].y == slots[e].y
                    &&& old_slots[e].canvas.pad_list() == slots[e].canvas.pad_list()
                    &&& old_slots[e].canvas.extent() == slots[e].canvas.extent()
                    &&& old_slots[e].canvas.floor() == slots[e].canvas.floor()
                } by {
                    assert(old_slots[e].rotation == before_slots[e].rotation);
                }
                assert forall|e: int| 0 <= e < slots.len() implies (#[trigger] slots[e]).canvas.inv() by {
                    assert(before_slots[e].canvas.inv());
                }
                assert forall|j: int| 0 <= j < sent.len() implies buffered(
                    slots,
                    #[trigger] sent[j],
                    source,
                ) by {
                    assert(buffered(before_slots, sent[j], source));
                    assert(record_owned(old(self).slots(), old(self).records()[j]));
                    let e = sent[j].device_index as int;
                    assert(old_slots[e].rotation == before_slots[e].rotation);
                    if e != d {
                        assert(slots[e] == before_slots[e]);
                    }
                }
                assert forall|e: int| 0 <= e < d implies shows_pending(
                    (#[trigger] slots[e]).canvas,
                ) by {
                    assert(slots[e] == before_slots[e]);
                }
                assert forall|e: int| d < e < slots.len() implies same_committed(
                    old_slots[e].canvas,
                    (#[trigger] slots[e]).canvas,
                ) by {
                    assert(slots[e] == before_slots[e]);
                }
                self.lemma_after_flush(*old(self));
            }
            match outcome {
                Ok(()) => {},
                Err(e) => {
                    proof {
                        assert(flushed_before(old_slots, self.devices@, d as int));
                    }
                    return Err(e);
                },
            }
            d += 1;
        }
        proof {
            self.lemma_after_flush(*old(self));
        }
        Ok(())
    }
}

} // verus!
