use std::cell::RefCell;
use std::rc::Rc;

use launchy::canvas::layout::DEFAULT_LIGHT_THRESHOLD;
use launchy::canvas::registration::pads_fit;
use launchy::canvas::remap::transform_color;
use launchy::{
    AddError, Canvas, CanvasLayout, CanvasMessage, Color, LayoutDevice, MessageRouter, MidiError,
    Overlap, Rotation, UNIT,
};

const OFF: Color = Color { r: 65536, g: 65536, b: 65536 };
const RED: Color = Color { r: 0, g: 65536, b: 65536 };
const DIM: Color = Color { r: 16384, g: 32768, b: 49152 };

/// Which grid was flushed, and what its pending buffer held then.
type Log = Rc<RefCell<Vec<(usize, Vec<Color>)>>>;

/// A grid of pads that remembers what it was told and in which order the
/// grids sharing one log were flushed.
struct Grid {
    name: usize,
    width: u32,
    height: u32,
    floor: u32,
    listed: Vec<(u32, u32)>,
    pending: Vec<Color>,
    committed: Vec<Color>,
    fail_with: Option<MidiError>,
    log: Log,
}

impl Grid {
    fn new(width: u32, height: u32) -> Grid {
        Grid::logged(0, width, height, 0, Rc::new(RefCell::new(Vec::new())))
    }

    fn logged(name: usize, width: u32, height: u32, floor: u32, log: Log) -> Grid {
        let mut listed = Vec::new();
        for y in 0..height {
            for x in 0..width {
                listed.push((x, y));
            }
        }
        let count = listed.len();
        Grid {
            name,
            width,
            height,
            floor,
            listed,
            pending: vec![OFF; count],
            committed: vec![OFF; count],
            fail_with: None,
            log,
        }
    }

    fn position(&self, x: u32, y: u32) -> Option<usize> {
        if x < self.width && y < self.height {
            Some((y * self.width + x) as usize)
        } else {
            None
        }
    }
}

impl Canvas for Grid {
    fn bounding_box(&self) -> (u32, u32) {
        (self.width, self.height)
    }

    fn lowest_visible_brightness(&self) -> u32 {
        self.floor
    }

    fn pads(&self) -> Vec<(u32, u32)> {
        self.listed.clone()
    }

    fn low_level_get(&self, x: u32, y: u32) -> Option<&Color> {
        self.position(x, y).map(|i| &self.committed[i])
    }

    fn low_level_get_pending(&self, x: u32, y: u32) -> Option<&Color> {
        self.position(x, y).map(|i| &self.pending[i])
    }

    fn low_level_get_pending_mut(&mut self, x: u32, y: u32) -> Option<&mut Color> {
        match self.position(x, y) {
            Some(i) => Some(&mut self.pending[i]),
            None => None,
        }
    }

    fn flush(&mut self) -> Result<(), MidiError> {
        self.log.borrow_mut().push((self.name, self.pending.clone()));
        match self.fail_with {
            Some(e) => Err(e),
            None => {
                self.committed = self.pending.clone();
                Ok(())
            }
        }
    }
}

fn two_side_by_side() -> CanvasLayout<Grid> {
    let mut layout = CanvasLayout::new();
    assert_eq!(layout.register(0, 0, Rotation::Identity, Grid::new(8, 8)), Ok(()));
    assert_eq!(layout.register(9, 0, Rotation::Identity, Grid::new(8, 8)), Ok(()));
    layout
}

#[test]
fn new_layout_is_empty() {
    let layout = CanvasLayout::<Grid>::new();
    assert_eq!(layout.light_threshold(), DEFAULT_LIGHT_THRESHOLD);
    assert_eq!(layout.light_threshold(), UNIT / 4);
    assert_eq!(layout.lowest_visible_brightness(), UNIT / 4);
    assert_eq!(layout.bounding_box(), (0, 0));
    assert_eq!(layout.pads(), Vec::new());
    assert_eq!(layout.low_level_get(0, 0), None);
    assert_eq!(layout.low_level_get_pending(0, 0), None);
}

#[test]
fn light_threshold_can_be_set() {
    let mut layout = CanvasLayout::<Grid>::new();
    layout.set_light_threshold(100);
    assert_eq!(layout.light_threshold(), 100);
    assert_eq!(layout.lowest_visible_brightness(), 100);
    layout.set_light_threshold(UNIT - 1);
    assert_eq!(layout.light_threshold(), UNIT - 1);
}

#[test]
fn disjoint_devices_register() {
    let layout = two_side_by_side();
    assert_eq!(layout.bounding_box(), (8, 8));
    let pads = layout.pads();
    assert_eq!(pads.len(), 128);
    assert_eq!(pads[0], (0, 0));
    assert_eq!(pads[7], (7, 0));
    assert_eq!(pads[8], (0, 1));
    assert_eq!(pads[64], (9, 0));
    assert_eq!(pads[127], (16, 7));
    assert_eq!(layout.low_level_get(8, 0), None);
    assert_eq!(layout.low_level_get(7, 7), Some(&OFF));
    assert_eq!(layout.low_level_get(9, 0), Some(&OFF));
    assert_eq!(layout.low_level_get(16, 7), Some(&OFF));
    assert_eq!(layout.low_level_get(17, 7), None);
}

#[test]
fn bounding_box_is_the_componentwise_maximum() {
    let mut layout = CanvasLayout::new();
    assert_eq!(layout.register(0, 0, Rotation::Identity, Grid::new(8, 2)), Ok(()));
    assert_eq!(layout.bounding_box(), (8, 2));
    assert_eq!(layout.register(20, 20, Rotation::Identity, Grid::new(3, 9)), Ok(()));
    assert_eq!(layout.bounding_box(), (8, 9));
    assert_eq!(layout.register(40, 0, Rotation::Identity, Grid::new(1, 1)), Ok(()));
    assert_eq!(layout.bounding_box(), (8, 9));
}

#[test]
fn overlapping_devices_are_refused() {
    let mut layout = CanvasLayout::new();
    assert_eq!(layout.register(0, 0, Rotation::Identity, Grid::new(8, 8)), Ok(()));
    assert_eq!(
        layout.register(7, 0, Rotation::Identity, Grid::new(8, 8)),
        Err(Overlap { x: 7, y: 0, existing_device: 0, new_device: 1 })
    );
    assert_eq!(layout.pads().len(), 64);
    assert_eq!(layout.low_level_get(8, 0), None);
    assert_eq!(layout.register(8, 0, Rotation::Identity, Grid::new(8, 8)), Ok(()));
    assert_eq!(
        layout.register(15, 7, Rotation::Identity, Grid::new(2, 2)),
        Err(Overlap { x: 15, y: 7, existing_device: 1, new_device: 2 })
    );
    assert_eq!(
        layout.register(6, 6, Rotation::Identity, Grid::new(2, 2)),
        Err(Overlap { x: 6, y: 6, existing_device: 0, new_device: 2 })
    );
    assert_eq!(layout.pads().len(), 128);
}

#[test]
fn overlap_names_the_first_pad_in_the_order_of_the_device() {
    let mut layout = CanvasLayout::new();
    assert_eq!(layout.register(4, 4, Rotation::Identity, Grid::new(2, 2)), Ok(()));
    // turned upside down, the new device's first pad (0, 0) lands on (5, 5)
    assert_eq!(
        layout.register(5, 5, Rotation::Rotate180, Grid::new(4, 4)),
        Err(Overlap { x: 5, y: 5, existing_device: 0, new_device: 1 })
    );
    assert_eq!(
        layout.register(3, 3, Rotation::Identity, Grid::new(2, 2)),
        Err(Overlap { x: 4, y: 4, existing_device: 0, new_device: 1 })
    );
}

#[test]
fn a_pad_listed_twice_overlaps_with_its_own_device() {
    let mut layout = CanvasLayout::new();
    assert_eq!(layout.register(0, 0, Rotation::Identity, Grid::new(2, 1)), Ok(()));
    let mut twice = Grid::new(2, 1);
    twice.listed.push((1, 0));
    assert_eq!(
        layout.register(5, 5, Rotation::Identity, twice),
        Err(Overlap { x: 6, y: 5, existing_device: 1, new_device: 1 })
    );
    assert_eq!(layout.pads(), vec![(0, 0), (1, 0)]);
}

#[test]
fn records_start_with_the_colors_of_the_device() {
    let mut grid = Grid::new(2, 2);
    grid.pending[1] = RED;
    grid.committed[2] = DIM;
    let mut layout = CanvasLayout::new();
    assert_eq!(layout.register(3, 0, Rotation::Identity, grid), Ok(()));
    assert_eq!(layout.low_level_get_pending(4, 0), Some(&RED));
    assert_eq!(layout.low_level_get(4, 0), Some(&OFF));
    assert_eq!(layout.low_level_get_pending(3, 1), Some(&OFF));
    assert_eq!(layout.low_level_get(3, 1), Some(&DIM));
}

#[test]
fn rotated_devices_claim_the_turned_coordinates() {
    let mut layout = CanvasLayout::new();
    assert_eq!(layout.register(1, 0, Rotation::Left90, Grid::new(3, 2)), Ok(()));
    // local (x, y) lies at (1 - y, x)
    assert_eq!(layout.pads(), vec![(1, 0), (1, 1), (1, 2), (0, 0), (0, 1), (0, 2)]);
    assert_eq!(layout.bounding_box(), (3, 2));
}

#[test]
fn pads_fit_tells_whether_a_placement_stays_in_range() {
    let pads = Grid::new(8, 8).pads();
    assert!(pads_fit(&pads, Rotation::Identity, 0, 0));
    assert!(!pads_fit(&pads, Rotation::Left90, 0, 0));
    assert!(!pads_fit(&pads, Rotation::Left90, 6, 0));
    assert!(pads_fit(&pads, Rotation::Left90, 7, 0));
    assert!(pads_fit(&pads, Rotation::Right90, 0, 7));
    assert!(!pads_fit(&pads, Rotation::Right90, 7, 0));
    assert!(pads_fit(&pads, Rotation::Rotate180, 7, 7));
    assert!(!pads_fit(&pads, Rotation::Rotate180, 7, 6));
    assert!(pads_fit(&pads, Rotation::Identity, u32::MAX - 7, u32::MAX - 7));
    assert!(!pads_fit(&pads, Rotation::Identity, u32::MAX - 6, 0));
    assert!(pads_fit(&Vec::new(), Rotation::Left90, 0, 0));
}

#[test]
fn add_hands_the_router_to_the_creator() {
    let seen: Rc<RefCell<Vec<MessageRouter>>> = Rc::new(RefCell::new(Vec::new()));
    let mut layout = CanvasLayout::new();
    let first = seen.clone();
    let added: Result<(), AddError<MidiError>> = layout.add(0, 0, Rotation::Identity, move |router| {
        first.borrow_mut().push(router);
        Ok(Grid::new(8, 8))
    });
    assert_eq!(added, Ok(()));
    let second = seen.clone();
    let added: Result<(), AddError<MidiError>> = layout.add(9, 0, Rotation::Identity, move |router| {
        second.borrow_mut().push(router);
        Ok(Grid::new(8, 8))
    });
    assert_eq!(added, Ok(()));
    let routers = seen.borrow();
    assert_eq!(routers.len(), 2);
    assert_eq!(
        routers[1],
        MessageRouter { rotation: Rotation::Identity, x_offset: 9, y_offset: 0 }
    );
    // a press at the second device's local (0, 0) reaches the client as (9, 0)
    assert_eq!(
        routers[1].route(CanvasMessage::Press { x: 0, y: 0 }),
        Some(CanvasMessage::Press { x: 9, y: 0 })
    );
    assert_eq!(
        routers[0].route(CanvasMessage::Release { x: 7, y: 7 }),
        Some(CanvasMessage::Release { x: 7, y: 7 })
    );
    assert_eq!(layout.pads().len(), 128);
}

#[test]
fn add_hands_on_the_error_of_the_creator() {
    let mut layout = CanvasLayout::<Grid>::new();
    assert_eq!(layout.register(0, 0, Rotation::Identity, Grid::new(2, 2)), Ok(()));
    let calls = Rc::new(RefCell::new(0));
    let counted = calls.clone();
    let added = layout.add(9, 0, Rotation::Identity, move |_router| {
        *counted.borrow_mut() += 1;
        Err(MidiError::NoPortFound)
    });
    assert_eq!(added, Err(AddError::Creation(MidiError::NoPortFound)));
    assert_eq!(*calls.borrow(), 1);
    assert_eq!(layout.pads().len(), 4);
    assert_eq!(layout.bounding_box(), (2, 2));
}

#[test]
fn add_reports_an_overlap() {
    let mut layout = CanvasLayout::new();
    assert_eq!(layout.register(0, 0, Rotation::Identity, Grid::new(8, 8)), Ok(()));
    let added: Result<(), AddError<MidiError>> =
        layout.add(4, 4, Rotation::Identity, |_router| Ok(Grid::new(8, 8)));
    assert_eq!(
        added,
        Err(AddError::Overlap(Overlap { x: 4, y: 4, existing_device: 0, new_device: 1 }))
    );
}

#[test]
fn writes_are_pending_until_the_flush() {
    let mut layout = two_side_by_side();
    *layout.low_level_get_pending_mut(10, 3).unwrap() = RED;
    assert_eq!(layout.low_level_get_pending(10, 3), Some(&RED));
    assert_eq!(layout.low_level_get(10, 3), Some(&OFF));
    *layout.low_level_get_pending_mut(10, 3).unwrap() = DIM;
    assert_eq!(layout.low_level_get_pending(10, 3), Some(&DIM));
    assert_eq!(layout.flush(), Ok(()));
    assert_eq!(layout.low_level_get(10, 3), Some(&DIM));
    assert_eq!(layout.low_level_get_pending(10, 3), Some(&DIM));
    assert_eq!(layout.low_level_get(0, 0), Some(&OFF));
}

#[test]
fn unclaimed_coordinates_are_no_error() {
    let mut layout = two_side_by_side();
    assert!(layout.low_level_get_pending_mut(8, 0).is_none());
    assert!(layout.low_level_get_pending_mut(0, 8).is_none());
    assert_eq!(layout.low_level_get_pending(8, 0), None);
    assert_eq!(layout.low_level_get(8, 0), None);
    assert_eq!(layout.flush(), Ok(()));
    assert_eq!(layout.low_level_get(8, 0), None);
}

#[test]
fn remap_exact_values() {
    assert_eq!(transform_color(DIM, 16384, 16384), DIM);
    assert_eq!(transform_color(OFF, 16384, 0), OFF);
    assert_eq!(transform_color(OFF, 0, 40000), OFF);
    // the source's lowest visible brightness becomes the target's
    assert_eq!(
        transform_color(Color { r: 16384, g: 16384, b: 16384 }, 16384, 4096),
        Color { r: 4096, g: 4096, b: 4096 }
    );
    assert_eq!(
        transform_color(Color { r: 0, g: 32768, b: 65536 }, 16384, 0),
        Color { r: -21845, g: 21846, b: 65536 }
    );
    assert_eq!(
        transform_color(Color { r: 0, g: 32768, b: 65536 }, 0, 32768),
        Color { r: 32768, g: 49152, b: 65536 }
    );
    // above the unit the distance is scaled the same way
    assert_eq!(
        transform_color(Color { r: 65537, g: 98304, b: 131072 }, 16384, 0),
        Color { r: 65537, g: 109226, b: 152917 }
    );
    assert_eq!(
        transform_color(Color { r: i64::MAX, g: i64::MIN, b: 0 }, 65535, 0),
        Color { r: i64::MAX, g: i64::MIN, b: 65536 - 65536 * 65536 }
    );
}

fn flushed_names(log: &Log) -> Vec<usize> {
    log.borrow().iter().map(|entry| entry.0).collect()
}

#[test]
fn flush_sends_remapped_colors_to_the_local_pads() {
    let log: Log = Rc::new(RefCell::new(Vec::new()));
    let mut layout = CanvasLayout::new();
    assert_eq!(
        layout.register(0, 0, Rotation::Identity, Grid::logged(0, 8, 8, 16384, log.clone())),
        Ok(())
    );
    assert_eq!(
        layout.register(15, 0, Rotation::Left90, Grid::logged(1, 8, 8, 0, log.clone())),
        Ok(())
    );
    let color = Color { r: 0, g: 32768, b: 65536 };
    *layout.low_level_get_pending_mut(2, 5).unwrap() = color;
    // the second device's local (1, 2) lies at (15 - 2, 1)
    *layout.low_level_get_pending_mut(13, 1).unwrap() = color;
    assert_eq!(layout.flush(), Ok(()));
    assert_eq!(flushed_names(&log), vec![0, 1]);
    {
        let entries = log.borrow();
        let first = &entries[0].1;
        let second = &entries[1].1;
        for (i, held) in first.iter().enumerate() {
            // equal lowest visible brightness: the color as it was written
            assert_eq!(*held, if i == 5 * 8 + 2 { color } else { OFF });
        }
        for (i, held) in second.iter().enumerate() {
            let moved = Color { r: -21845, g: 21846, b: 65536 };
            assert_eq!(*held, if i == 2 * 8 + 1 { moved } else { OFF });
        }
    }
    // the layout keeps the color as it was written
    assert_eq!(layout.low_level_get(2, 5), Some(&color));
    assert_eq!(layout.low_level_get(13, 1), Some(&color));
    assert_eq!(layout.low_level_get_pending(13, 1), Some(&color));
}

#[test]
fn flush_goes_by_the_layouts_own_threshold() {
    let log: Log = Rc::new(RefCell::new(Vec::new()));
    let mut layout = CanvasLayout::new();
    layout.set_light_threshold(0);
    assert_eq!(
        layout.register(1, 0, Rotation::Rotate180, Grid::logged(0, 2, 1, 32768, log.clone())),
        Ok(())
    );
    assert_eq!(layout.pads(), vec![(1, 0), (0, 0)]);
    *layout.low_level_get_pending_mut(0, 0).unwrap() = Color { r: 0, g: 32768, b: 65536 };
    assert_eq!(layout.flush(), Ok(()));
    let entries = log.borrow();
    assert_eq!(entries.len(), 1);
    assert_eq!(entries[0].1, vec![OFF, Color { r: 32768, g: 49152, b: 65536 }]);
}

#[test]
fn layout_of_layouts() {
    let log: Log = Rc::new(RefCell::new(Vec::new()));
    let mut inner = CanvasLayout::new();
    inner.set_light_threshold(32768);
    assert_eq!(
        inner.register(0, 0, Rotation::Identity, Grid::logged(7, 4, 4, 0, log.clone())),
        Ok(())
    );
    let mut outer = CanvasLayout::new();
    outer.set_light_threshold(0);
    assert_eq!(outer.register(0, 3, Rotation::Right90, inner), Ok(()));
    assert_eq!(outer.bounding_box(), (4, 4));
    assert_eq!(outer.pads().len(), 16);
    // turned right, the inner (1, 2) lies at (2, 3 - 1)
    let color = Color { r: 0, g: 32768, b: 65536 };
    *outer.low_level_get_pending_mut(2, 2).unwrap() = color;
    assert_eq!(outer.flush(), Ok(()));
    assert_eq!(outer.low_level_get(2, 2), Some(&color));
    assert_eq!(outer.low_level_get_pending(2, 2), Some(&color));
    // outer to inner: 0 to 32768; inner to device: 32768 to 0
    let entries = log.borrow();
    assert_eq!(entries.len(), 1);
    assert_eq!(entries[0].0, 7);
    for (i, held) in entries[0].1.iter().enumerate() {
        assert_eq!(*held, if i == 2 * 4 + 1 { color } else { OFF });
    }
}

#[test]
fn flush_stops_at_the_first_device_that_fails() {
    let log: Log = Rc::new(RefCell::new(Vec::new()));
    let mut layout = CanvasLayout::new();
    let mut failing = Grid::logged(1, 2, 2, 0, log.clone());
    failing.fail_with = Some(MidiError::Send);
    assert_eq!(
        layout.register(0, 0, Rotation::Identity, Grid::logged(0, 2, 2, 0, log.clone())),
        Ok(())
    );
    assert_eq!(layout.register(2, 0, Rotation::Identity, failing), Ok(()));
    assert_eq!(
        layout.register(4, 0, Rotation::Identity, Grid::logged(2, 2, 2, 0, log.clone())),
        Ok(())
    );
    *layout.low_level_get_pending_mut(0, 0).unwrap() = RED;
    *layout.low_level_get_pending_mut(5, 1).unwrap() = DIM;
    assert_eq!(layout.flush(), Err(MidiError::Send));
    assert_eq!(flushed_names(&log), vec![0, 1]);
    // the records count as sent even so
    assert_eq!(layout.low_level_get(0, 0), Some(&RED));
    assert_eq!(layout.low_level_get(5, 1), Some(&DIM));
    assert_eq!(layout.low_level_get_pending(5, 1), Some(&DIM));
}

#[test]
fn a_placed_device_finds_its_own_pads() {
    let upright = LayoutDevice { canvas: Grid::new(8, 8), rotation: Rotation::Identity, x: 9, y: 0 };
    assert_eq!(upright.to_local(9, 0), (0, 0));
    assert_eq!(upright.to_local(16, 7), (7, 7));
    let turned = LayoutDevice { canvas: Grid::new(8, 8), rotation: Rotation::Left90, x: 15, y: 0 };
    assert_eq!(turned.to_local(13, 1), (1, 2));
    let flipped = LayoutDevice { canvas: Grid::new(8, 8), rotation: Rotation::Rotate180, x: 7, y: 7 };
    assert_eq!(flipped.to_local(7, 7), (0, 0));
    assert_eq!(flipped.to_local(0, 0), (7, 7));
}

#[test]
fn colors_are_made_of_three_channels() {
    assert_eq!(Color::new(1, 2, 3), Color { r: 1, g: 2, b: 3 });
    assert_eq!(UNIT, 65536);
}
