use limn::resources::image::{
    is_image_opaque, premultiply, prepare_image, ColorLayout, ImageError, ImageFormat, ImageSource,
};
use std::path::PathBuf;

#[test]
fn premultiply_scales_channels_by_alpha() {
    let mut data = vec![200u8, 100, 50, 128, 10, 20, 30, 255, 99, 99, 99, 0];
    premultiply(&mut data);
    assert_eq!(data, vec![100, 50, 25, 128, 10, 20, 30, 255, 0, 0, 0, 0]);
}

#[test]
fn premultiply_of_nothing_is_nothing() {
    let mut data: Vec<u8> = vec![];
    premultiply(&mut data);
    assert!(data.is_empty());
}

#[test]
fn opacity_depends_on_format_and_alpha() {
    assert!(is_image_opaque(ImageFormat::BGRA8, &[1, 2, 3, 255, 4, 5, 6, 255]));
    assert!(!is_image_opaque(ImageFormat::BGRA8, &[1, 2, 3, 255, 4, 5, 6, 254]));
    assert!(is_image_opaque(ImageFormat::RGB8, &[0, 0, 0]));
    assert!(is_image_opaque(ImageFormat::RG8, &[0, 0]));
    assert!(!is_image_opaque(ImageFormat::A8, &[255]));
}

#[test]
fn prepare_image_premultiplies_rgba() {
    let (data, d) = prepare_image(ColorLayout::Rgba8, 1, 1, vec![255, 255, 255, 51]).unwrap();
    assert_eq!(data, vec![51, 51, 51, 51]);
    assert_eq!(d.width, 1);
    assert_eq!(d.height, 1);
    assert_eq!(d.format, ImageFormat::BGRA8);
    assert!(!d.is_opaque);
    let (data, d) = prepare_image(ColorLayout::Rgb8, 1, 1, vec![1, 2, 3]).unwrap();
    assert_eq!(data, vec![1, 2, 3]);
    assert_eq!(d.format, ImageFormat::RGB8);
    assert!(d.is_opaque);
    let (_, d) = prepare_image(ColorLayout::Luma8, 1, 1, vec![7]).unwrap();
    assert_eq!(d.format, ImageFormat::A8);
    assert!(!d.is_opaque);
}

#[test]
fn prepare_image_refuses_luma_alpha() {
    assert_eq!(
        prepare_image(ColorLayout::LumaA8, 1, 1, vec![1, 2]),
        Err(ImageError::UnsupportedError("ImageLumaA8 unsupported".to_owned()))
    );
}

#[test]
fn image_sources() {
    assert_eq!(ImageSource::absolute(PathBuf::from("/a.png")), ImageSource::AbsolutePath(PathBuf::from("/a.png")));
    assert_eq!(ImageSource::asset(PathBuf::from("a.png")), ImageSource::AssetPath(PathBuf::from("a.png")));
    assert_eq!(ImageSource::bundled("logo".to_owned()), ImageSource::Bundled("logo".to_owned()));
}

#[test]
fn image_sources_name_their_files() {
    let assets = PathBuf::from("/app/assets");
    let absolute = ImageSource::absolute(PathBuf::from("/tmp/a.png"));
    assert_eq!(absolute.file_path(&assets), Some(PathBuf::from("/tmp/a.png")));
    let asset = ImageSource::asset(PathBuf::from("images/b.png"));
    assert_eq!(asset.file_path(&assets), Some(PathBuf::from("/app/assets/images/b.png")));
    let bundled = ImageSource::bundled("logo".to_string());
    assert_eq!(bundled.file_path(&assets), None);
}
