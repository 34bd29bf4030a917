use hyper_ray_tracer::texels::ImageData;

fn two_by_two(components: u32) -> ImageData {
    let mut data = Vec::new();
    for p in 0..4u8 {
        for c in 0..components as u8 {
            data.push(p * 10 + c);
        }
    }
    ImageData::new(data, components, 2, 2).unwrap()
}

#[test]
fn texel_reads_rgb_of_pixel() {
    let img = two_by_two(3);
    assert_eq!(img.texel(0, 0), Some((0, 1, 2)));
    assert_eq!(img.texel(1, 0), Some((10, 11, 12)));
    assert_eq!(img.texel(0, 1), Some((20, 21, 22)));
    assert_eq!(img.texel(1, 1), Some((30, 31, 32)));
}

#[test]
fn texel_past_the_edge_reads_the_edge() {
    let img = two_by_two(3);
    assert_eq!(img.texel(2, 0), Some((10, 11, 12)));
    assert_eq!(img.texel(0, 7), Some((20, 21, 22)));
    assert_eq!(img.texel(u32::MAX, u32::MAX), Some((30, 31, 32)));
}

#[test]
fn texel_skips_alpha() {
    let img = two_by_two(4);
    assert_eq!(img.texel(1, 1), Some((30, 31, 32)));
    assert_eq!(img.texel(0, 1), Some((20, 21, 22)));
}

#[test]
fn empty_image_has_no_texel() {
    let img = ImageData::new(Vec::new(), 3, 0, 0).unwrap();
    assert!(img.is_empty());
    assert_eq!(img.texel(0, 0), None);
}

#[test]
fn grey_image_is_refused() {
    assert!(ImageData::new(vec![1, 2, 3, 4], 1, 2, 2).is_none());
}

#[test]
fn wrong_length_is_refused() {
    assert!(ImageData::new(vec![0; 11], 3, 2, 2).is_none());
    assert!(ImageData::new(vec![0; 13], 3, 2, 2).is_none());
    assert!(ImageData::new(vec![0; 12], 3, 2, 2).is_some());
}
