use soft_unet::error::PipelineError;
use soft_unet::preprocess::{build_contours, clean, contour_bbox, crop_rect};
use soft_unet::types::{Contour, Coord, RawImage, RectSize, SuPoint2F};

fn contour(label: &str, points: &[(i32, i32)]) -> Contour {
    Contour {
        label: label.to_string(),
        points: points.iter().map(|&(x, y)| SuPoint2F::new(x, y)).collect(),
    }
}

fn sample_shapes() -> Vec<Contour> {
    vec![
        contour("outer_1", &[(10, 20), (30, 25), (15, 40)]),
        contour("bag_1", &[(12, 22), (13, 23), (14, 24)]),
        contour("inner_1", &[(11, 21), (12, 21), (12, 22)]),
        contour("outer_2", &[(-5, -3), (50, 60), (800, 10)]),
    ]
}

#[test]
fn contours_are_grouped_and_cropped() {
    let layouts = build_contours(RectSize::new(100, 50), &sample_shapes(), false).unwrap();
    assert_eq!(layouts.len(), 2);
    let first = &layouts[0];
    assert_eq!(first.idx, 1);
    assert_eq!(first.outer, 0);
    assert_eq!(first.inners, vec![1, 2]);
    assert_eq!((first.offset.x, first.offset.y), (10, 20));
    assert_eq!((first.size.width, first.size.height), (21, 21));
    assert_eq!((first.shift_x, first.shift_y), (10, 20));
    let second = &layouts[1];
    assert_eq!(second.idx, 2);
    assert_eq!(second.outer, 3);
    assert!(second.inners.is_empty());
    // clamped to the 100 x 50 image
    assert_eq!((second.offset.x, second.offset.y), (0, 0));
    assert_eq!((second.size.width, second.size.height), (100, 50));
}

#[test]
fn duplicate_outer_is_refused() {
    let mut shapes = sample_shapes();
    shapes.push(contour("outer_2", &[(1, 1), (2, 2), (3, 3)]));
    assert_eq!(
        build_contours(RectSize::new(100, 50), &shapes, true).err(),
        Some(PipelineError::DuplicateOuter { idx: 2 })
    );
}

#[test]
fn first_bad_label_decides_the_error() {
    let mut shapes = sample_shapes();
    shapes.insert(1, contour("bag", &[(1, 1)]));
    shapes.push(contour("outer_1", &[(1, 1)]));
    assert_eq!(
        build_contours(RectSize::new(100, 50), &shapes, false).err(),
        Some(PipelineError::MissingLabelSeparator)
    );
    let shapes = vec![contour("outer_1", &[(1, 1)]), contour("outer_1", &[(2, 2)]), contour("x_y", &[])];
    assert_eq!(
        build_contours(RectSize::new(100, 50), &shapes, false).err(),
        Some(PipelineError::DuplicateOuter { idx: 1 })
    );
}

#[test]
fn group_without_outer_is_refused_or_skipped() {
    let mut shapes = sample_shapes();
    shapes.push(contour("bag_3", &[(1, 1), (2, 2), (3, 3)]));
    assert_eq!(
        build_contours(RectSize::new(100, 50), &shapes, false).err(),
        Some(PipelineError::MissingOuter { idx: 3 })
    );
    let layouts = build_contours(RectSize::new(100, 50), &shapes, true).unwrap();
    assert_eq!(layouts.iter().map(|l| l.idx).collect::<Vec<_>>(), vec![1, 2]);
}

#[test]
fn no_contours_give_no_crops() {
    assert!(build_contours(RectSize::new(10, 10), &Vec::new(), false).unwrap().is_empty());
}

#[test]
fn bounding_box_truncates_toward_zero() {
    let points = vec![
        SuPoint2F { x: Coord { floor: -1, fractional: true }, y: Coord { floor: 3, fractional: true } },
        SuPoint2F { x: Coord { floor: 7, fractional: true }, y: Coord { floor: -2, fractional: false } },
        SuPoint2F { x: Coord { floor: 10_000_000_000, fractional: false }, y: Coord { floor: -10_000_000_000, fractional: false } },
    ];
    // -0.5 -> 0, 7.5 -> 7, huge values saturate
    assert_eq!(contour_bbox(&points), (0, i32::MIN, i32::MAX, 3));
    assert_eq!(contour_bbox(&Vec::new()), (i32::MAX, i32::MAX, i32::MIN, i32::MIN));
}

#[test]
fn crop_missing_the_image_gets_a_wrapped_length() {
    let points = vec![SuPoint2F::new(150, 5), SuPoint2F::new(160, 8)];
    let (offset, size, dx, dy) = crop_rect(RectSize::new(100, 50), &points);
    assert_eq!((offset.x, offset.y), (150, 5));
    assert_eq!((dx, dy), (150, 5));
    assert_eq!(size.width, (-50i32) as usize);
    assert_eq!(size.height, 4);
}

#[test]
fn clean_drops_contours_with_fewer_than_three_points_inside() {
    let half = |floor: i128| Coord { floor, fractional: true };
    let whole = |floor: i128| Coord { floor, fractional: false };
    let kept = contour("outer_1", &[(1, 1), (2, 2), (3, 3)]);
    let dropped = contour("outer_2", &[(1, 1), (2, 2), (200, 3)]);
    let edge = Contour {
        label: "bag_1".to_string(),
        points: vec![
            SuPoint2F { x: half(-1), y: whole(5) },  // x = -0.5: outside
            SuPoint2F { x: half(99), y: whole(5) },  // x = 99.5: inside
            SuPoint2F { x: whole(100), y: whole(5) }, // x = 100: outside
            SuPoint2F { x: whole(0), y: half(99) },   // inside
        ],
    };
    let edge_kept = Contour {
        label: "bag_2".to_string(),
        points: vec![
            SuPoint2F { x: whole(0), y: whole(0) },
            SuPoint2F { x: half(99), y: half(99) },
            SuPoint2F { x: whole(50), y: whole(99) },
        ],
    };
    let image = RawImage { size: RectSize::new(100, 100), contours: vec![kept, dropped, edge, edge_kept] };
    let cleaned = clean(image).unwrap();
    assert_eq!((cleaned.size.width, cleaned.size.height), (100, 100));
    let labels: Vec<String> = cleaned.contours.iter().map(|c| c.label.clone()).collect();
    assert_eq!(labels, vec!["outer_1".to_string(), "bag_2".to_string()]);
    let again = clean(cleaned).unwrap();
    let labels_again: Vec<String> = again.contours.iter().map(|c| c.label.clone()).collect();
    assert_eq!(labels_again, labels);
}
