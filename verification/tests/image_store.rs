use blit::image::{ImageData, ImageFormat, ImageId, ImagePixels};
use blit::image_store::RenderImages;

fn image(value: u8) -> ImageData {
    ImageData::new(ImagePixels::Owned(vec![value; 4].into_boxed_slice()), ImageFormat::Luma8, 2, 2)
}

#[test]
fn dropped_image_remains_valid_until_frame_end() {
    let mut images = RenderImages::new();
    let first = images.create_image(image(1));
    let second = images.create_image(image(2));
    assert_ne!(first, second);

    images.drop_image(first);
    assert_eq!(images.get(first), Some(&image(1)));

    images.finish_frame();
    assert_eq!(images.get(first), None);
    assert_eq!(images.get(second), Some(&image(2)));
}

#[test]
fn dropped_image_slots_are_reused_after_end_frame() {
    let mut images = RenderImages::new();
    let first = images.create_image(image(1));
    images.drop_image(first);
    images.finish_frame();

    let reused = images.create_image(image(3));
    assert_ne!(reused, first);
    assert_eq!(reused.0 & 0xffff_ffff, first.0 & 0xffff_ffff);
    assert_eq!(images.get(first), None);
    assert_eq!(images.get(reused), Some(&image(3)));
}

#[test]
fn dropping_an_unknown_handle_changes_nothing() {
    let mut images = RenderImages::new();
    let kept = images.create_image(image(5));
    images.drop_image(ImageId(12345));
    images.finish_frame();
    assert_eq!(images.get(kept), Some(&image(5)));
}
