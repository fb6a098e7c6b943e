use thermokarst::detection::{Component, LumaImage, ThermokarstDetector};

fn image(width: u32, height: u32, pixels: Vec<u8>) -> LumaImage {
    LumaImage { width, height, pixels }
}

#[test]
fn threshold_mask_whitens_pixels_above_100() {
    let img = image(3, 2, vec![0, 100, 101, 255, 50, 200]);
    let detector = ThermokarstDetector::new(image(3, 2, img.pixels.clone()));
    let mask = detector.threshold_mask();
    assert_eq!(mask.width, 3);
    assert_eq!(mask.height, 2);
    assert_eq!(mask.pixels, vec![0, 0, 255, 255, 0, 255]);
}

#[test]
fn connected_components_of_dark_pixels() {
    let detector = ThermokarstDetector::new(image(1, 1, vec![0]));
    // dark means below 128
    let mask = image(4, 2, vec![0, 127, 128, 0, 255, 0, 255, 0]);
    let comps = detector.find_connected_components(&mask);
    assert_eq!(comps.len(), 2);
    let mut first = comps[0].pixels.clone();
    first.sort();
    assert_eq!(first, vec![(0, 0), (1, 0), (1, 1)]);
    let mut second = comps[1].pixels.clone();
    second.sort();
    assert_eq!(second, vec![(3, 0), (3, 1)]);
}

#[test]
fn circle_components_need_more_than_100_pixels() {
    let detector = ThermokarstDetector::new(image(1, 1, vec![0]));
    // a dark 11 x 10 block (110 pixels) and a dark 10 x 10 block (100 pixels)
    let width = 23u32;
    let height = 10u32;
    let mut pixels = vec![255u8; (width * height) as usize];
    for y in 0..10 {
        for x in 0..11 {
            pixels[(y * width + x) as usize] = 0;
        }
        for x in 13..23 {
            pixels[(y * width + x) as usize] = 0;
        }
    }
    let mask = image(width, height, pixels);
    assert_eq!(detector.find_connected_components(&mask).len(), 2);
    let big = detector.find_circle_components(&mask);
    assert_eq!(big.len(), 1);
    assert_eq!(big[0].pixels.len(), 110);
}

#[test]
fn component_center_rounds_down() {
    let detector = ThermokarstDetector::new(image(1, 1, vec![0]));
    let c = Component { pixels: vec![(1, 1), (2, 1), (2, 2)] };
    assert_eq!(detector.component_center(&c), (1, 1));
    let c = Component { pixels: vec![(4, 10), (6, 20)] };
    assert_eq!(detector.component_center(&c), (5, 15));
}
