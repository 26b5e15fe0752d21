use durer::stats::layout_stats;
use durer::stats::LayoutStats;
use durer::Point2;

fn p2(x: i64, y: i64) -> Point2 {
    Point2 { x, y }
}

#[test]
fn empty_net_has_zero_stats() {
    let s = layout_stats(&vec![]);
    assert_eq!(
        s,
        LayoutStats {
            width: 0,
            height: 0,
            centroid: p2(0, 0),
        }
    );
}

#[test]
fn rectangle_extents_and_centroid() {
    let pts = vec![p2(0, 0), p2(4, 0), p2(4, 2), p2(0, 2)];
    let s = layout_stats(&pts);
    assert_eq!(s.width, 4);
    assert_eq!(s.height, 2);
    assert_eq!(s.centroid, p2(2, 1));
}

#[test]
fn negative_coordinates_handled() {
    let pts = vec![p2(-10, -6), p2(2, 6)];
    let s = layout_stats(&pts);
    assert_eq!(s.width, 12);
    assert_eq!(s.height, 12);
    assert_eq!(s.centroid, p2(-4, 0));
}

#[test]
fn single_point_is_its_own_centroid() {
    let pts = vec![p2(7, -3)];
    let s = layout_stats(&pts);
    assert_eq!(s.width, 0);
    assert_eq!(s.height, 0);
    assert_eq!(s.centroid, p2(7, -3));
}
