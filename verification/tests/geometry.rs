use blob_renderer::geometry::{
    Box2d, DeviceUintPoint, DeviceUintRect, DeviceUintSize, Placement,
};

fn bx(x1: u32, y1: u32, x2: u32, y2: u32) -> Box2d {
    Box2d { x1, y1, x2, y2 }
}

#[test]
fn contained_by_includes_the_border() {
    let dirty = bx(10, 10, 20, 20);
    assert!(dirty.contained_by(&dirty));
    assert!(bx(10, 12, 15, 20).contained_by(&dirty));
    assert!(!bx(9, 12, 15, 20).contained_by(&dirty));
    assert!(!bx(10, 12, 21, 20).contained_by(&dirty));
    assert!(!bx(10, 9, 15, 20).contained_by(&dirty));
    assert!(!bx(10, 12, 15, 21).contained_by(&dirty));
}

#[test]
fn intersects_excludes_the_border() {
    let dirty = bx(10, 10, 20, 20);
    assert!(bx(0, 0, 11, 11).intersects(&dirty));
    assert!(!bx(0, 0, 10, 10).intersects(&dirty));
    assert!(!bx(0, 0, 10, 30).intersects(&dirty));
    assert!(!bx(20, 0, 30, 30).intersects(&dirty));
    assert!(!bx(0, 20, 30, 30).intersects(&dirty));
    assert!(!bx(0, 0, 30, 10).intersects(&dirty));
    assert!(bx(19, 19, 30, 30).intersects(&dirty));
    assert!(bx(12, 12, 13, 13).intersects(&dirty));
}

#[test]
fn overlaps_is_intersecting_without_being_contained() {
    let dirty = bx(10, 10, 20, 20);
    assert!(bx(5, 5, 15, 15).overlaps(&dirty));
    assert!(bx(0, 0, 30, 30).overlaps(&dirty));
    assert!(!bx(12, 12, 13, 13).overlaps(&dirty));
    assert!(!dirty.overlaps(&dirty));
    assert!(!bx(0, 0, 5, 5).overlaps(&dirty));
}

#[test]
fn placement_tells_the_three_classes_apart() {
    let dirty = bx(10, 10, 20, 20);
    assert_eq!(bx(12, 12, 13, 13).placement(&dirty), Placement::Contained);
    assert_eq!(dirty.placement(&dirty), Placement::Contained);
    assert_eq!(bx(5, 5, 15, 15).placement(&dirty), Placement::Overlapping);
    assert_eq!(bx(0, 0, 5, 5).placement(&dirty), Placement::Outside);
    assert_eq!(bx(0, 0, 10, 10).placement(&dirty), Placement::Outside);
    // a box without area on the border is contained, one outside is not
    assert_eq!(bx(20, 20, 20, 20).placement(&dirty), Placement::Contained);
    assert_eq!(bx(30, 30, 30, 30).placement(&dirty), Placement::Outside);
}

#[test]
fn rect_edges() {
    let r = DeviceUintRect::new(DeviceUintPoint::new(10, 20), DeviceUintSize::new(100, 200));
    assert_eq!(r.origin, DeviceUintPoint { x: 10, y: 20 });
    assert_eq!(r.size, DeviceUintSize { width: 100, height: 200 });
    assert_eq!(r.min_x(), 10);
    assert_eq!(r.min_y(), 20);
    assert_eq!(r.max_x(), 110);
    assert_eq!(r.max_y(), 220);
    assert_eq!(r.to_box(), Some(bx(10, 20, 110, 220)));
}

#[test]
fn rect_at_the_end_of_the_device_space() {
    let r = DeviceUintRect::new(DeviceUintPoint::new(u32::MAX - 5, 0), DeviceUintSize::new(5, 0));
    assert_eq!(r.to_box(), Some(bx(u32::MAX - 5, 0, u32::MAX, 0)));
    let r = DeviceUintRect::new(DeviceUintPoint::new(u32::MAX - 5, 0), DeviceUintSize::new(6, 0));
    assert_eq!(r.to_box(), None);
    let r = DeviceUintRect::new(DeviceUintPoint::new(0, 1), DeviceUintSize::new(0, u32::MAX));
    assert_eq!(r.to_box(), None);
}
