use engine::images::{decode_image, locate_image, EncodedImage, ImageError, ImageSource};
use engine::uri::ImageFormat;

fn uri(u: &str, mime: Option<&str>, has_base: bool) -> Result<EncodedImage, ImageError> {
    locate_image(&ImageSource::Uri { uri: u, mime_type: mime }, has_base)
}

#[test]
fn buffer_view_images() {
    let buffer = [1u8, 2, 3, 4, 5];
    let view = |offset, length, mime| locate_image(&ImageSource::View { buffer: &buffer, offset, length, mime }, false);
    assert_eq!(view(1, 3, "image/png"), Ok(EncodedImage::Bytes(vec![2, 3, 4], ImageFormat::Png)));
    assert_eq!(view(0, 5, "image/jpeg"), Ok(EncodedImage::Bytes(vec![1, 2, 3, 4, 5], ImageFormat::Jpeg)));
    assert_eq!(view(4, 2, "image/png"), Err(ImageError::ViewOutOfRange));
    assert_eq!(view(usize::MAX, 2, "image/png"), Err(ImageError::ViewOutOfRange));
    assert_eq!(view(1, 1, "image/gif"), Err(ImageError::UnknownFormat));
}

#[test]
fn uri_images_need_a_directory() {
    assert_eq!(uri("a.png", None, false), Err(ImageError::UnsupportedSource));
}

#[test]
fn data_uri_images() {
    assert_eq!(
        uri("data:image/png;base64,aGVsbG8=", None, true),
        Ok(EncodedImage::Bytes(b"hello".to_vec(), ImageFormat::Png))
    );
    assert_eq!(uri("data:image/gif;base64,aGVsbG8=", None, true), Err(ImageError::UnknownFormat));
    assert_eq!(uri("data:image/png;base64,***", None, true), Err(ImageError::InvalidBase64));
    assert_eq!(
        uri("data:aGVsbG8=", Some("image/jpeg"), true),
        Ok(EncodedImage::Bytes(b"hello".to_vec(), ImageFormat::Jpeg))
    );
    assert_eq!(uri("data:aGVsbG8=", None, true), Err(ImageError::UnknownFormat));
}

#[test]
fn file_uri_images() {
    assert_eq!(uri("file:///a/b.png", None, true), Ok(EncodedImage::File("/a/b.png".to_string(), ImageFormat::Png)));
    assert_eq!(uri("tex%20a.jpg", None, true), Ok(EncodedImage::Relative("tex a.jpg".to_string(), ImageFormat::Jpeg)));
    assert_eq!(uri("tex.bmp", Some("image/png"), true), Ok(EncodedImage::Relative("tex.bmp".to_string(), ImageFormat::Png)));
    assert_eq!(uri("tex.bmp", None, true), Err(ImageError::UnknownFormat));
    assert_eq!(uri("%FF.png", None, true), Err(ImageError::InvalidUri));
    assert_eq!(uri("http://x/a.png", None, true), Err(ImageError::UnsupportedScheme));
}

#[test]
fn decodes_png_bytes() {
    let mut img = image::RgbaImage::new(2, 1);
    img.put_pixel(1, 0, image::Rgba([9, 8, 7, 6]));
    let mut bytes = std::io::Cursor::new(Vec::new());
    image::DynamicImage::ImageRgba8(img).write_to(&mut bytes, image::ImageFormat::Png).unwrap();
    let decoded = decode_image(&bytes.into_inner()).unwrap();
    assert_eq!(decoded.width, 2);
    assert_eq!(decoded.height, 1);
    assert_eq!(decoded.pixels, vec![0, 0, 0, 0, 9, 8, 7, 6]);
}

#[test]
fn rejects_non_images() {
    assert!(decode_image(&b"hello".to_vec()).is_none());
}
