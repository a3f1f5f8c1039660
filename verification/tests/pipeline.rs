use soft_unet::configuration::load_configuration;
use soft_unet::error::PipelineError;
use soft_unet::gradient::inner_mask_contours;
use soft_unet::pipeline::{tensor_placements, Pipeline, Placement};
use soft_unet::preprocess::build_contours;
use soft_unet::split::split_contours;
use soft_unet::types::{Contour, ContourCrop, ContourGroup, Coord, RectSize, SuPoint, SuPoint2F};

fn contour(label: &str, points: &[(i32, i32)]) -> Contour {
    Contour {
        label: label.to_string(),
        points: points.iter().map(|&(x, y)| SuPoint2F::new(x, y)).collect(),
    }
}

fn crop(idx: usize, offset: (usize, usize), size: (usize, usize), center_x: i128, points: usize) -> ContourCrop {
    let pts: Vec<(i32, i32)> = (0..points as i32).map(|i| (i, i)).collect();
    ContourCrop {
        offset: SuPoint { x: offset.0, y: offset.1 },
        size: RectSize::new(size.0, size.1),
        contour_group: ContourGroup {
            idx,
            outer: contour(&format!("outer_{}", idx), &pts),
            outer_center: SuPoint2F { x: Coord { floor: center_x, fractional: true }, y: Coord { floor: 0, fractional: false } },
            inners: vec![],
        },
    }
}

#[test]
fn crops_split_by_centre_half() {
    let crops = vec![crop(1, (30, 0), (10, 10), 10, 3), crop(2, (30, 0), (10, 10), 20, 3), crop(3, (0, 0), (5, 5), 49, 3)];
    let halves = split_contours(crops, RectSize::new(100, 50)).unwrap();
    assert_eq!(halves.len(), 2);
    // 10.5 + 30 -> 40 < 50; 20.5 + 30 -> 50; 49.5 + 0 -> 49 < 50
    assert_eq!(halves[0].iter().map(|c| c.contour_group.idx).collect::<Vec<_>>(), vec![1, 3]);
    assert_eq!(halves[1].iter().map(|c| c.contour_group.idx).collect::<Vec<_>>(), vec![2]);
}

#[test]
fn negative_centre_counts_as_zero() {
    let crops = vec![crop(1, (0, 0), (10, 10), -5, 3)];
    let halves = split_contours(crops, RectSize::new(2, 2)).unwrap();
    // -4.5 as usize is 0, and 0 < 1
    assert_eq!(halves[0].len(), 1);
    assert!(halves[1].is_empty());
}

#[test]
fn empty_outer_contour_is_refused() {
    let crops = vec![crop(1, (0, 0), (10, 10), 10, 3), crop(2, (0, 0), (10, 10), 10, 0)];
    assert_eq!(split_contours(crops, RectSize::new(100, 50)).err(), Some(PipelineError::EmptyOuterContour));
}

#[test]
fn special_labels_are_grouped_with_their_intensity() {
    let pipeline = Pipeline::new(load_configuration());
    let inners = vec![
        contour("bag_1", &[]),
        contour("inner_1", &[]),
        contour("bug_1", &[]),
        contour("bag_1", &[]),
        contour("film_1", &[]),
    ];
    let mut fills = pipeline.special_fills(&inners).unwrap();
    fills.sort_by(|a, b| a.name.cmp(&b.name));
    assert_eq!(fills.len(), 2);
    assert_eq!(fills[0].name, "bag");
    assert_eq!(fills[0].intensity, 5);
    assert_eq!(fills[0].contours, vec![0, 3]);
    assert_eq!(fills[1].name, "bug");
    assert_eq!(fills[1].intensity, 5);
    assert_eq!(fills[1].contours, vec![2]);
}

#[test]
fn special_fills_refuse_a_bad_label() {
    let pipeline = Pipeline::new(load_configuration());
    let inners = vec![contour("bag_1", &[]), contour("bag", &[]), contour("bug_x", &[])];
    assert_eq!(pipeline.special_fills(&inners).err(), Some(PipelineError::MissingLabelSeparator));
    assert!(pipeline.special_fills(&vec![contour("film_2", &[])]).unwrap().is_empty());
}

#[test]
fn tensor_placement_checks_gradients_and_bounds() {
    let size = RectSize::new(100, 50);
    let crops = vec![crop(1, (10, 10), (20, 20), 0, 3), crop(2, (80, 30), (20, 20), 0, 3)];
    let placements = tensor_placements(size, &crops, &vec![2, 1]).unwrap();
    assert_eq!(
        placements,
        vec![
            Placement { idx: 1, x: 10, y: 10, width: 20, height: 20 },
            Placement { idx: 2, x: 80, y: 30, width: 20, height: 20 },
        ]
    );
    assert_eq!(tensor_placements(size, &crops, &vec![1]).err(), Some(PipelineError::MissingGradient { idx: 2 }));
    let outside = vec![crop(1, (10, 10), (20, 20), 0, 3), crop(4, (90, 0), (20, 10), 0, 3), crop(5, (0, 0), (1, 1), 0, 3)];
    assert_eq!(
        tensor_placements(size, &outside, &vec![1, 4]).err(),
        Some(PipelineError::CropOutOfBounds { idx: 4 })
    );
    let tall = vec![crop(6, (0, 40), (10, 11), 0, 3)];
    assert_eq!(tensor_placements(size, &tall, &vec![6]).err(), Some(PipelineError::CropOutOfBounds { idx: 6 }));
}

#[test]
fn laid_out_crops_always_fit() {
    let size = RectSize::new(64, 32);
    let shapes = vec![
        contour("outer_1", &[(-10, -10), (100, 100), (5, 5)]),
        contour("outer_2", &[(200, 3), (210, 4), (220, 5)]),
        contour("outer_3", &[(63, 31), (0, 0), (10, 10)]),
    ];
    let layouts = build_contours(size, &shapes, false).unwrap();
    let crops: Vec<ContourCrop> = layouts
        .iter()
        .map(|l| ContourCrop {
            offset: l.offset,
            size: l.size,
            contour_group: ContourGroup {
                idx: l.idx,
                outer: contour("outer_0", &[(0, 0)]),
                outer_center: SuPoint2F::new(0, 0),
                inners: vec![],
            },
        })
        .collect();
    let placements = tensor_placements(size, &crops, &vec![1, 2, 3]).unwrap();
    assert_eq!(placements.len(), 3);
    assert_eq!(placements[0], Placement { idx: 1, x: 0, y: 0, width: 64, height: 32 });
    assert_eq!(placements[1], Placement { idx: 2, x: 200, y: 3, width: -136, height: 3 });
}

#[test]
fn inner_mask_takes_labels_starting_with_inner() {
    let group = ContourGroup {
        idx: 1,
        outer: contour("outer_1", &[(0, 0)]),
        outer_center: SuPoint2F::new(0, 0),
        inners: vec![contour("inner_1", &[]), contour("bag_1", &[]), contour("inner_2", &[]), contour("innerX_3", &[]), contour("inne_1", &[])],
    };
    assert_eq!(inner_mask_contours(&group), vec![0, 2, 3]);
}
