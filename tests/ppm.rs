use raytracer::ppm::Rgb8;

fn rgb(r: u8, g: u8, b: u8) -> Rgb8 {
    Rgb8 { r, g, b }
}

#[test]
fn p3_header() {
    assert_eq!(raytracer::ppm::p3_header(100, 200), "P3\n100 200\n255\n");
}

#[test]
fn p3_header_small_and_large() {
    assert_eq!(raytracer::ppm::p3_header(0, 7), "P3\n0 7\n255\n");
    assert_eq!(raytracer::ppm::p3_header(65535, 10), "P3\n65535 10\n255\n");
}

#[test]
fn p3_pixel() {
    // (0.0, 0.77, 1.0) with one sample quantizes to (0, 224, 255).
    assert_eq!(raytracer::ppm::p3_pixel(&rgb(0, 224, 255)), "0 224 255\n");
}

#[test]
fn p3_pixel_single_digits() {
    assert_eq!(raytracer::ppm::p3_pixel(&rgb(9, 10, 100)), "9 10 100\n");
}

#[test]
fn p6_image() {
    // The colors (1,0,0), (0,1,0), (0,0,1), (0.5,0,0), (0,0.5,0), (0,0,0.5)
    // with one sample each quantize to 255 and 181.
    let pixels = vec![
        rgb(255, 0, 0),
        rgb(0, 255, 0),
        rgb(0, 0, 255),
        rgb(181, 0, 0),
        rgb(0, 181, 0),
        rgb(0, 0, 181),
    ];
    assert_eq!(
        raytracer::ppm::p6_image(3, 2, &pixels),
        [
            80, 54, 32, 51, 32, 50, 32, 50, 53, 53, 10, 255, 0, 0, 0, 255, 0, 0, 0, 255, 181, 0,
            0, 0, 181, 0, 0, 0, 181
        ]
    );
}

#[test]
fn p6_image_wrong_size_is_empty_image() {
    let pixels = vec![rgb(1, 2, 3), rgb(4, 5, 6)];
    assert_eq!(raytracer::ppm::p6_image(3, 1, &pixels), b"P6 0 0 255\n".to_vec());
    assert_eq!(raytracer::ppm::p6_image(0, 0, &Vec::new()), b"P6 0 0 255\n".to_vec());
}

#[test]
fn p6_image_one_pixel() {
    let pixels = vec![rgb(7, 8, 9)];
    let mut expected = b"P6 1 1 255\n".to_vec();
    expected.extend_from_slice(&[7, 8, 9]);
    assert_eq!(raytracer::ppm::p6_image(1, 1, &pixels), expected);
}
