use graph_based_image_segmentation::{
    Distance, EuclideanRGB, ImageNodeColor, ManhattanRGB, SquaredEuclideanRGB, WEIGHT_ONE,
};

fn black() -> ImageNodeColor {
    ImageNodeColor::new_rgb(0, 0, 0)
}

fn white() -> ImageNodeColor {
    ImageNodeColor::new_rgb(255, 255, 255)
}

#[test]
fn euclidean_identical_is_zero() {
    let d = EuclideanRGB::default();
    assert_eq!(d.distance(&black(), &black()), 0);
    let c = ImageNodeColor::new_rgb(12, 200, 7);
    assert_eq!(d.distance(&c, &c), 0);
}

#[test]
fn euclidean_black_white_is_maximal() {
    let d = EuclideanRGB::default();
    assert_eq!(d.distance(&black(), &white()), WEIGHT_ONE);
}

#[test]
fn euclidean_known_values() {
    let d = EuclideanRGB::default();
    // one channel at full range: sqrt(1/3) of the scale, rounded down
    assert_eq!(
        d.distance(&black(), &ImageNodeColor::new_rgb(0, 255, 0)),
        11_262_660
    );
    // two channels at full range: sqrt(2/3) of the scale, rounded down
    assert_eq!(
        d.distance(&black(), &ImageNodeColor::new_rgb(0, 255, 255)),
        15_927_807
    );
    // a small difference: sqrt(14) channel units
    assert_eq!(
        d.distance(
            &ImageNodeColor::new_rgb(10, 20, 30),
            &ImageNodeColor::new_rgb(11, 22, 33)
        ),
        165_258
    );
}

#[test]
fn euclidean_symmetric() {
    let d = EuclideanRGB::default();
    let a = ImageNodeColor::new_rgb(1, 2, 3);
    let b = ImageNodeColor::new_rgb(200, 100, 50);
    assert_eq!(d.distance(&a, &b), d.distance(&b, &a));
}

#[test]
fn manhattan_identical_is_zero() {
    let d = ManhattanRGB::default();
    assert_eq!(d.distance(&black(), &black()), 0);
}

#[test]
fn manhattan_black_white_is_maximal() {
    let d = ManhattanRGB::default();
    assert_eq!(d.distance(&black(), &white()), WEIGHT_ONE);
}

#[test]
fn manhattan_known_values() {
    let d = ManhattanRGB::default();
    // one channel at full range: one third of the scale
    assert_eq!(
        d.distance(&black(), &ImageNodeColor::new_rgb(0, 255, 0)),
        6_502_500
    );
    // two channels at full range: two thirds of the scale
    assert_eq!(
        d.distance(&black(), &ImageNodeColor::new_rgb(0, 255, 255)),
        13_005_000
    );
}

#[test]
fn manhattan_symmetric() {
    let d = ManhattanRGB::default();
    let a = ImageNodeColor::new_rgb(9, 8, 7);
    let b = ImageNodeColor::new_rgb(77, 66, 55);
    assert_eq!(d.distance(&a, &b), d.distance(&b, &a));
}

#[test]
fn squared_euclidean_identical_is_zero() {
    let d = SquaredEuclideanRGB::default();
    assert_eq!(d.distance(&black(), &black()), 0);
}

#[test]
fn squared_euclidean_black_white_is_maximal() {
    let d = SquaredEuclideanRGB::default();
    assert_eq!(d.distance(&black(), &white()), WEIGHT_ONE);
}

#[test]
fn squared_euclidean_known_values() {
    let d = SquaredEuclideanRGB::default();
    // one channel at full range: one third of the scale
    assert_eq!(
        d.distance(&black(), &ImageNodeColor::new_rgb(0, 255, 0)),
        6_502_500
    );
    // two channels at full range: two thirds of the scale
    assert_eq!(
        d.distance(&black(), &ImageNodeColor::new_rgb(0, 255, 255)),
        13_005_000
    );
}

#[test]
fn squared_euclidean_symmetric() {
    let d = SquaredEuclideanRGB::default();
    let a = ImageNodeColor::new_rgb(0, 128, 255);
    let b = ImageNodeColor::new_rgb(255, 128, 0);
    assert_eq!(d.distance(&a, &b), d.distance(&b, &a));
}

#[test]
fn metrics_are_zero_only_on_identical_colors() {
    let a = ImageNodeColor::new_rgb(10, 10, 10);
    let b = ImageNodeColor::new_rgb(10, 10, 11);
    assert!(EuclideanRGB::default().distance(&a, &b) > 0);
    assert!(ManhattanRGB::default().distance(&a, &b) > 0);
    assert!(SquaredEuclideanRGB::default().distance(&a, &b) > 0);
}

#[test]
fn metrics_are_maximal_at_opposite_corners() {
    // every channel differs by the full range, though neither color is black
    let a = ImageNodeColor::new_rgb(255, 0, 255);
    let b = ImageNodeColor::new_rgb(0, 255, 0);
    assert_eq!(EuclideanRGB::default().distance(&a, &b), WEIGHT_ONE);
    assert_eq!(ManhattanRGB::default().distance(&a, &b), WEIGHT_ONE);
    assert_eq!(SquaredEuclideanRGB::default().distance(&a, &b), WEIGHT_ONE);
}

#[test]
fn color_constructors_agree() {
    let rgb = ImageNodeColor::new_rgb(1, 2, 3);
    let bgr = ImageNodeColor::new_bgr(3, 2, 1);
    assert_eq!(rgb, bgr);
    assert_eq!(rgb.r, 1);
    assert_eq!(rgb.g, 2);
    assert_eq!(rgb.b, 3);
}
