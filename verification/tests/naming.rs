use soft_unet::error::PipelineError;
use soft_unet::loader::{image_source, ImageSource};
use soft_unet::output::{augmentation_prefix, output_file_name};
use soft_unet::spline::{smoothing_samples, SplineSample};

#[test]
fn augmentation_prefixes() {
    assert_eq!(augmentation_prefix("IMG_1", 0), "IMG_1-aug-0");
    assert_eq!(augmentation_prefix("IMG_1", 9), "IMG_1-aug-9");
    assert_eq!(augmentation_prefix("", 12), "-aug-12");
}

#[test]
fn output_file_names() {
    assert_eq!(output_file_name("IMG", Some(0)), "IMG_0.png");
    assert_eq!(output_file_name("IMG", Some(12)), "IMG_12.png");
    assert_eq!(output_file_name("IMG", None), "IMG.png");
    let names: Vec<String> = vec![None, Some(0), Some(1), Some(2), Some(10)]
        .into_iter()
        .map(|idx| output_file_name("test-aug-3", idx))
        .collect();
    for i in 0..names.len() {
        for j in 0..names.len() {
            assert_eq!(i == j, names[i] == names[j]);
        }
    }
}

#[test]
fn embedded_data_is_decoded() {
    match image_source(&Some("aGVsbG8=".to_string()), &Some("ignored.png".to_string()), true) {
        Ok(ImageSource::Encoded(bytes)) => assert_eq!(bytes, b"hello".to_vec()),
        _ => panic!("expected decoded bytes"),
    }
    match image_source(&Some(String::new()), &None, false) {
        Ok(ImageSource::Encoded(bytes)) => assert!(bytes.is_empty()),
        _ => panic!("expected no bytes"),
    }
}

#[test]
fn invalid_embedded_data_is_refused() {
    assert!(matches!(
        image_source(&Some("not base64!".to_string()), &None, true),
        Err(PipelineError::InvalidImageData)
    ));
    assert!(matches!(image_source(&Some("aGVsbG8".to_string()), &None, true), Err(PipelineError::InvalidImageData)));
}

#[test]
fn image_path_needs_a_directory() {
    match image_source(&None, &Some("photo.jpg".to_string()), true) {
        Ok(ImageSource::File(path)) => assert_eq!(path, "photo.jpg"),
        _ => panic!("expected the image path"),
    }
    assert!(matches!(
        image_source(&None, &Some("photo.jpg".to_string()), false),
        Err(PipelineError::ImagePathUnresolved)
    ));
    assert!(matches!(image_source(&None, &None, true), Err(PipelineError::NoImageSource)));
}

#[test]
fn small_polygons_are_not_smoothed() {
    assert!(smoothing_samples(0, false, 10).is_none());
    assert!(smoothing_samples(3, false, 10).is_none());
}

#[test]
fn hexagon_smoothing_samples() {
    // six points, last differs from first: closed to seven points, six segments
    let samples = smoothing_samples(6, false, 10).unwrap();
    assert_eq!(samples.len(), 60);
    assert!(samples.len() > 6);
    assert_eq!(samples[0], SplineSample { p0: 6, p1: 0, p2: 1, p3: 2, step: 0 });
    assert_eq!(samples[15], SplineSample { p0: 0, p1: 1, p2: 2, p3: 3, step: 5 });
    assert_eq!(samples[59], SplineSample { p0: 4, p1: 5, p2: 6, p3: 0, step: 9 });
    let closed = smoothing_samples(6, true, 10).unwrap();
    assert_eq!(closed.len(), 50);
    assert_eq!(closed[49], SplineSample { p0: 3, p1: 4, p2: 5, p3: 0, step: 9 });
    assert!(smoothing_samples(4, true, 0).unwrap().is_empty());
}
