use rdraw::asset::url_to_path;
use rdraw::image::{Image, ImageData};
use rdraw::math::Vec2i;

#[test]
fn asset_urls_map_to_directories() {
    assert_eq!(url_to_path("assets://font.ttf"), "assets/font.ttf");
    assert_eq!(url_to_path("data://save.bin"), "data/save.bin");
    assert_eq!(url_to_path("other/file.png"), "other/file.png");
    assert_eq!(url_to_path("assets:/x"), "assets:/x");
    assert_eq!(url_to_path(""), "");
}

#[test]
fn image_size_matches_pixels() {
    assert!(Image::new(ImageData::A8(vec![0; 6]), 2, 3).is_some());
    assert!(Image::new(ImageData::RGBA8(vec![0; 5]), 2, 3).is_none());
    let i = Image::new(ImageData::RGBA8(vec![1, 2]), 2, 1).unwrap();
    assert_eq!((i.width(), i.height()), (2, 1));
    match i.data() {
        ImageData::RGBA8(v) => assert_eq!(v, &vec![1, 2]),
        ImageData::A8(_) => panic!("wrong pixel format"),
    }
}

#[test]
fn vec2i_holds_its_coordinates() {
    let v = Vec2i::new(3, -4);
    assert_eq!((v.x, v.y), (3, -4));
}
