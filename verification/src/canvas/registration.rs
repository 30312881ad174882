//! Adding a device to a layout: where its pads land, when that clashes with
//! what the layout holds, and what is reported then.

use vstd::prelude::*;
use crate::canvas::layout::{
    checked_to_global, global_of, lemma_round_trip, representable, CanvasLayout, LayoutDevice,
    Rotation,
};
use crate::canvas::layout::record_owned;
use crate::canvas::records::{claims, record_at, Pixel};
use crate::canvas::Canvas;

verus! {

/// Two devices of a layout claim the same global coordinate.
#[derive(Debug, Copy, Clone, PartialEq, Eq, Structural)]
pub struct Overlap {
    /// The coordinate that is claimed twice.
    pub x: u32,
    pub y: u32,
    /// The device that held the coordinate.
    pub existing_device: usize,
    /// The device that was being added.
    pub new_device: usize,
}

/// Why a device could not be added to a layout.
#[derive(Debug, Copy, Clone, PartialEq, Eq)]
pub enum AddError<E> {
    /// The device could not be made; the error is the one that making it
    /// gave.
    Creation(E),
    /// The device was made, and one of its pads lands on a taken
    /// coordinate.
    Overlap(Overlap),
}

/// The global coordinate of a device's pad, for a device turned by `rot` and
/// placed at the offset. It is meant for pads whose global position can be
/// held as `u32`.
pub open spec fn placed(pad: (u32, u32), rot: Rotation, x_offset: u32, y_offset: u32) -> (u32, u32) {
    let g = global_of(pad.0 as int, pad.1 as int, rot, x_offset as int, y_offset as int);
    (g.0 as u32, g.1 as u32)
}

/// Whether the global position of every pad can be held as `u32`.
pub open spec fn placement_fits(
    pads: Seq<(u32, u32)>,
    rot: Rotation,
    x_offset: u32,
    y_offset: u32,
) -> bool {
    forall|j: int|
        0 <= j < pads.len() ==> representable(
            global_of(
                (#[trigger] pads[j]).0 as int,
                pads[j].1 as int,
                rot,
                x_offset as int,
                y_offset as int,
            ),
        )
}

/// Whether the global position of every pad in `pads` can be held as `u32`,
/// for a device turned by `rot` and placed at the offset.
pub fn pads_fit(pads: &Vec<(u32, u32)>, rot: Rotation, x_offset: u32, y_offset: u32) -> (fits: bool)
    ensures
        fits == placement_fits(pads@, rot, x_offset, y_offset),
{
    let mut j: usize = 0;
    while j < pads.len()
        invariant
            j <= pads.len(),
            placement_fits(pads@.subrange(0, j as int), rot, x_offset, y_offset),
        decreases pads.len() - j,
    {
        let pad = pads[j];
        if checked_to_global(pad.0, pad.1, rot, x_offset, y_offset).is_none() {
            return false;
        }
        proof {
            let upto = pads@.subrange(0, j + 1);
            assert forall|i: int| 0 <= i < upto.len() implies representable(
                global_of(
                    (#[trigger] upto[i]).0 as int,
                    upto[i].1 as int,
                    rot,
                    x_offset as int,
                    y_offset as int,
                ),
            ) by {
                if i < j {
                    assert(upto[i] == pads@.subrange(0, j as int)[i]);
                }
            }
        }
        j += 1;
    }
    proof {
        assert(pads@.subrange(0, j as int) =~= pads@);
    }
    true
}

/// Whether the pad `k` of a device that is being added lands on a
/// coordinate that is taken: by a record, or by an earlier pad of the same
/// device.
pub open spec fn clash_at(
    records: Seq<Pixel>,
    pads: Seq<(u32, u32)>,
    rot: Rotation,
    x_offset: u32,
    y_offset: u32,
    k: int,
) -> bool {
    let g = placed(pads[k], rot, x_offset, y_offset);
    claims(records, g.0, g.1) || exists|j: int|
        0 <= j < k && placed(#[trigger] pads[j], rot, x_offset, y_offset) == g
}

/// Whether `k` is the first pad that lands on a taken coordinate.
pub open spec fn first_clash_at(
    records: Seq<Pixel>,
    pads: Seq<(u32, u32)>,
    rot: Rotation,
    x_offset: u32,
    y_offset: u32,
    k: int,
) -> bool {
    &&& 0 <= k < pads.len()
    &&& clash_at(records, pads, rot, x_offset, y_offset, k)
    &&& forall|j: int| 0 <= j < k ==> !#[trigger] clash_at(records, pads, rot, x_offset, y_offset, j)
}

/// Whether no pad lands on a taken coordinate.
pub open spec fn no_clash(
    records: Seq<Pixel>,
    pads: Seq<(u32, u32)>,
    rot: Rotation,
    x_offset: u32,
    y_offset: u32,
) -> bool {
    forall|j: int|
        0 <= j < pads.len() ==> !#[trigger] clash_at(records, pads, rot, x_offset, y_offset, j)
}

/// What is reported when the pad `k` of the device `new_device` lands on a
/// taken coordinate: the coordinate, and the device that holds it, which is
/// the new device itself where it lists a pad twice.
pub open spec fn overlap_at(
    records: Seq<Pixel>,
    pads: Seq<(u32, u32)>,
    rot: Rotation,
    x_offset: u32,
    y_offset: u32,
    new_device: usize,
    k: int,
) -> Overlap {
    let g = placed(pads[k], rot, x_offset, y_offset);
    Overlap {
        x: g.0,
        y: g.1,
        existing_device: match record_at(records, g.0, g.1) {
            Some(p) => p.device_index,
            None => new_device,
        },
        new_device,
    }
}

/// The record that a layout makes for a pad of a device that it adds as
/// device `index`: at the pad's global coordinate, with the colors that the
/// device holds for the pad.
pub open spec fn record_for<C: Canvas>(slot: LayoutDevice<C>, pad: (u32, u32), index: usize) -> Pixel {
    let g = placed(pad, slot.rotation, slot.x, slot.y);
    Pixel {
        x: g.0,
        y: g.1,
        device_index: index,
        color_new: slot.canvas.pending_at(pad.0, pad.1).unwrap(),
        color_old: slot.canvas.committed_at(pad.0, pad.1).unwrap(),
    }
}

/// The records that a layout makes for a device that it adds as device
/// `index`: one for each pad, in the order of the pads.
pub open spec fn records_for<C: Canvas>(slot: LayoutDevice<C>, index: usize) -> Seq<Pixel> {
    Seq::new(
        slot.canvas.pad_list().len(),
        |j: int| record_for(slot, slot.canvas.pad_list()[j], index),
    )
}

/// What registering the device `slot` does to a layout, and what it
/// returns.
///
/// Where no pad of the device lands on a taken coordinate, the result is
/// `Ok`, the device is the last of the layout's devices and the layout has
/// one more record for each of its pads. Otherwise the layout is what it
/// was, and the error names the first pad's coordinate that is taken, the
/// device that holds it and the index that the new device would have had.
pub open spec fn registered<C: Canvas>(
    before: CanvasLayout<C>,
    after: CanvasLayout<C>,
    slot: LayoutDevice<C>,
    result: Result<(), Overlap>,
) -> bool {
    let pads = slot.canvas.pad_list();
    match result {
        Ok(()) => {
            &&& no_clash(before.records(), pads, slot.rotation, slot.x, slot.y)
            &&& after.slots() == before.slots().push(slot)
            &&& after.records() == before.records() + records_for(
                slot,
                before.slots().len() as usize,
            )
        },
        Err(e) => {
            &&& after.slots() == before.slots()
            &&& after.records() == before.records()
            &&& exists|k: int| #[trigger]
                first_clash_at(before.records(), pads, slot.rotation, slot.x, slot.y, k) && e
                    == overlap_at(
                    before.records(),
                    pads,
                    slot.rotation,
                    slot.x,
                    slot.y,
                    before.slots().len() as usize,
                    k,
                )
        },
    }
}

/// Whether the device `slot` has a pad at the global coordinate `(x, y)`.
pub open spec fn covers<C: Canvas>(slot: LayoutDevice<C>, x: u32, y: u32) -> bool {
    exists|j: int|
        0 <= j < slot.canvas.pad_list().len() && placed(
            #[trigger] slot.canvas.pad_list()[j],
            slot.rotation,
            slot.x,
            slot.y,
        ) == (x, y)
}

/// Whether a device lists no pad twice.
pub open spec fn lists_each_pad_once<C: Canvas>(slot: LayoutDevice<C>) -> bool {
    forall|a: int, b: int|
        0 <= a < b < slot.canvas.pad_list().len() ==> #[trigger] slot.canvas.pad_list()[a]
            != #[trigger] slot.canvas.pad_list()[b]
}

/// Different pads of a device that fits lie at different global
/// coordinates.
proof fn lemma_placed_injective(
    p: (u32, u32),
    q: (u32, u32),
    rot: Rotation,
    x_offset: u32,
    y_offset: u32,
)
    requires
        representable(global_of(p.0 as int, p.1 as int, rot, x_offset as int, y_offset as int)),
        representable(global_of(q.0 as int, q.1 as int, rot, x_offset as int, y_offset as int)),
        placed(p, rot, x_offset, y_offset) == placed(q, rot, x_offset, y_offset),
    ensures
        p == q,
{
    lemma_round_trip(p.0 as int, p.1 as int, rot, x_offset as int, y_offset as int);
    lemma_round_trip(q.0 as int, q.1 as int, rot, x_offset as int, y_offset as int);
}

/// A device with a pad on a coordinate that a record holds is refused, and
/// the layout stays what it was.
///
/// The error names the index that the new device would have had and the
/// global coordinate of one of its pads. Either a record holds that
/// coordinate, and then the error names the device of that record, an
/// earlier device that has a pad there; or the new device lists that pad
/// twice, and then the error names the new device itself.
pub proof fn lemma_overlap_is_refused<C: Canvas>(
    before: CanvasLayout<C>,
    after: CanvasLayout<C>,
    slot: LayoutDevice<C>,
    result: Result<(), Overlap>,
    j: int,
)
    requires
        before.inv(),
        placement_fits(slot.canvas.pad_list(), slot.rotation, slot.x, slot.y),
        registered(before, after, slot, result),
        0 <= j < slot.canvas.pad_list().len(),
        ({
            let g = placed(slot.canvas.pad_list()[j], slot.rotation, slot.x, slot.y);
            claims(before.records(), g.0, g.1)
        }),
    ensures
        after.slots() == before.slots(),
        after.records() == before.records(),
        result.is_err(),
        result.unwrap_err().new_device == before.slots().len(),
        covers(slot, result.unwrap_err().x, result.unwrap_err().y),
        claims(before.records(), result.unwrap_err().x, result.unwrap_err().y) ==> {
            let e = result.unwrap_err();
            &&& e.existing_device < before.slots().len()
            &&& record_at(before.records(), e.x, e.y).unwrap().device_index == e.existing_device
            &&& covers(before.slots()[e.existing_device as int], e.x, e.y)
        },
        !claims(before.records(), result.unwrap_err().x, result.unwrap_err().y) ==> {
            let e = result.unwrap_err();
            &&& e.existing_device == e.new_device
            &&& !lists_each_pad_once(slot)
        },
{
    let pads = slot.canvas.pad_list();
    let records = before.records();
    assert(clash_at(records, pads, slot.rotation, slot.x, slot.y, j));
    assert(!no_clash(records, pads, slot.rotation, slot.x, slot.y));
    match result {
        Ok(()) => {},
        Err(e) => {
            let k = choose|k: int| #[trigger]
                first_clash_at(records, pads, slot.rotation, slot.x, slot.y, k) && e == overlap_at(
                    records,
                    pads,
                    slot.rotation,
                    slot.x,
                    slot.y,
                    before.slots().len() as usize,
                    k,
                );
            let g = placed(pads[k], slot.rotation, slot.x, slot.y);
            assert(covers(slot, e.x, e.y));
            if claims(records, g.0, g.1) {
                let c = choose|c: int|
                    0 <= c < records.len() && (#[trigger] records[c]).x == g.0 && records[c].y
                        == g.1;
                let owner = before.slots()[records[c].device_index as int];
                assert(record_owned(before.slots(), records[c]));
                let l = owner.spec_to_local(g.0, g.1);
                lemma_round_trip(
                    g.0 as int,
                    g.1 as int,
                    owner.rotation,
                    owner.x as int,
                    owner.y as int,
                );
                let at = choose|at: int|
                    0 <= at < owner.canvas.pad_list().len() && owner.canvas.pad_list()[at] == (
                        l.0 as u32,
                        l.1 as u32,
                    );
                assert(placed(owner.canvas.pad_list()[at], owner.rotation, owner.x, owner.y) == g);
            } else {
                let i = choose|i: int|
                    0 <= i < k && placed(#[trigger] pads[i], slot.rotation, slot.x, slot.y) == g;
                lemma_placed_injective(pads[i], pads[k], slot.rotation, slot.x, slot.y);
            }
        },
    }
}

/// A device whose pads all lie on coordinates that no record holds, and
/// that lists no coordinate twice, is registered, and the layout's bounding
/// box becomes the componentwise maximum of what it was and the device's
/// own bounding box.
pub proof fn lemma_disjoint_is_registered<C: Canvas>(
    before: CanvasLayout<C>,
    after: CanvasLayout<C>,
    slot: LayoutDevice<C>,
    result: Result<(), Overlap>,
)
    requires
        registered(before, after, slot, result),
        forall|x: u32, y: u32| #[trigger] covers(slot, x, y) ==> !claims(before.records(), x, y),
        forall|a: int, b: int|
            0 <= a < b < slot.canvas.pad_list().len() ==> placed(
                #[trigger] slot.canvas.pad_list()[a],
                slot.rotation,
                slot.x,
                slot.y,
            ) != placed(#[trigger] slot.canvas.pad_list()[b], slot.rotation, slot.x, slot.y),
    ensures
        result.is_ok(),
        after.slots() == before.slots().push(slot),
        after.records() == before.records() + records_for(slot, before.slots().len() as usize),
        after.extent().0 == if before.extent().0 >= slot.canvas.extent().0 {
            before.extent().0
        } else {
            slot.canvas.extent().0
        },
        after.extent().1 == if before.extent().1 >= slot.canvas.extent().1 {
            before.extent().1
        } else {
            slot.canvas.extent().1
        },
{
    let pads = slot.canvas.pad_list();
    match result {
        Ok(()) => {
            assert(after.slots().drop_last() =~= before.slots());
            assert(after.slots().last() == slot);
        },
        Err(e) => {
            let k = choose|k: int| #[trigger]
                first_clash_at(before.records(), pads, slot.rotation, slot.x, slot.y, k) && e
                    == overlap_at(
                    before.records(),
                    pads,
                    slot.rotation,
                    slot.x,
                    slot.y,
                    before.slots().len() as usize,
                    k,
                );
            let g = placed(pads[k], slot.rotation, slot.x, slot.y);
            assert(covers(slot, g.0, g.1));
            if !claims(before.records(), g.0, g.1) {
                let i = choose|i: int|
                    0 <= i < k && placed(#[trigger] pads[i], slot.rotation, slot.x, slot.y) == g;
                assert(placed(pads[i], slot.rotation, slot.x, slot.y) != placed(
                    pads[k],
                    slot.rotation,
                    slot.x,
                    slot.y,
                ));
            }
        },
    }
}

} // verus!
