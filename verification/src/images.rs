use crate::uri::{
    base64_decode, format_from_mime, format_from_uri, mime_format, parse_uri, spec_base64_decode, spec_url_decode,
    uri_format, ImageFormat, Scheme, SchemeView,
};
use vstd::prelude::*;
use vstd::string::*;

verus! {

/// What `image::load_from_memory` followed by `to_rgba8` gives for encoded
/// image bytes: width, height and RGBA pixels, or nothing when the bytes
/// are not an image it can decode.
pub uninterp spec fn spec_decode_rgba(bytes: Seq<u8>) -> Option<(u32, u32, Seq<u8>)>;

/// A decoded image: width, height and 8-bit RGBA pixels, row by row.
#[derive(Debug, Clone)]
pub struct Rgba8Image {
    pub width: u32,
    pub height: u32,
    pub pixels: Vec<u8>,
}

/// `image::load_from_memory` and `DynamicImage::to_rgba8`: decodes the
/// bytes of an image in any format the `image` crate recognises. The
/// result is named by `spec_decode_rgba`.
#[verifier::external_body]
fn decode_rgba(bytes: &[u8]) -> (r: Option<Rgba8Image>)
    ensures
        r is Some <==> spec_decode_rgba(bytes@) is Some,
        r matches Some(img) ==> spec_decode_rgba(bytes@) == Some((img.width, img.height, img.pixels@)),
{
    match image::load_from_memory(bytes) {
        Ok(img) => {
            let rgba = img.to_rgba8();
            Some(Rgba8Image { width: rgba.width(), height: rgba.height(), pixels: rgba.into_raw() })
        },
        Err(_) => None,
    }
}

/// Decodes encoded image bytes (see `spec_decode_rgba`).
pub fn decode_image(bytes: &Vec<u8>) -> (r: Option<Rgba8Image>)
    ensures
        r is Some <==> spec_decode_rgba(bytes@) is Some,
        r matches Some(img) ==> spec_decode_rgba(bytes@) == Some((img.width, img.height, img.pixels@)),
{
    decode_rgba(bytes.as_slice())
}

/// Where the encoded bytes of a glTF image are: behind a URI (with the
/// media type the file gives, if any), or in a range of a buffer.
#[derive(Debug)]
pub enum ImageSource<'a> {
    Uri { uri: &'a str, mime_type: Option<&'a str> },
    View { buffer: &'a [u8], offset: usize, length: usize, mime: &'a str },
}

/// The encoded bytes of an image, or the file that holds them, with the
/// format they are in.
#[derive(Debug, PartialEq, Eq)]
pub enum EncodedImage {
    Bytes(Vec<u8>, ImageFormat),
    /// A file at this absolute path.
    File(String, ImageFormat),
    /// A file at this path relative to the glTF file's directory.
    Relative(String, ImageFormat),
}

/// The contents of an `EncodedImage`.
pub enum EncodedView {
    Bytes(Seq<u8>, ImageFormat),
    File(Seq<char>, ImageFormat),
    Relative(Seq<char>, ImageFormat),
}

impl View for EncodedImage {
    type V = EncodedView;

    open spec fn view(&self) -> EncodedView {
        match *self {
            EncodedImage::Bytes(b, f) => EncodedView::Bytes(b@, f),
            EncodedImage::File(p, f) => EncodedView::File(p@, f),
            EncodedImage::Relative(p, f) => EncodedView::Relative(p@, f),
        }
    }
}

/// Why the bytes of an image cannot be found.
#[derive(Debug, Clone, Copy, PartialEq, Eq, Structural)]
pub enum ImageError {
    /// A URI image of a glTF file that has no directory.
    UnsupportedSource,
    /// A relative URI that does not percent-decode to UTF-8.
    InvalidUri,
    /// A URI of an unsupported scheme.
    UnsupportedScheme,
    /// An invalid base64 payload of a `data:` URI.
    InvalidBase64,
    /// A format other than PNG or JPEG, or none that can be told.
    UnknownFormat,
    /// A buffer range that does not lie within its buffer.
    ViewOutOfRange,
}

/// The text of a media type, if there is one.
pub open spec fn mime_view(m: Option<&str>) -> Option<Seq<char>> {
    match m {
        Some(m) => Some(m@),
        None => None,
    }
}

/// Where the bytes of the URI image `uri` (with media type `mime_type`)
/// are, and in which format, for a glTF file with a directory.
pub open spec fn uri_image(uri: Seq<char>, mime_type: Option<Seq<char>>) -> Result<EncodedView, ImageError> {
    if !uri.contains(':') && spec_url_decode(uri) is None {
        Err(ImageError::InvalidUri)
    } else {
        match parse_uri(uri) {
            SchemeView::Data(Some(mime), b64) => match spec_base64_decode(b64) {
                None => Err(ImageError::InvalidBase64),
                Some(bytes) => match mime_format(mime) {
                    Some(f) => Ok(EncodedView::Bytes(bytes, f)),
                    None => Err(ImageError::UnknownFormat),
                },
            },
            SchemeView::Unsupported => Err(ImageError::UnsupportedScheme),
            SchemeView::Data(None, b64) => match spec_base64_decode(b64) {
                None => Err(ImageError::InvalidBase64),
                Some(bytes) => match uri_format(mime_type, uri) {
                    Some(f) => Ok(EncodedView::Bytes(bytes, f)),
                    None => Err(ImageError::UnknownFormat),
                },
            },
            SchemeView::File(p) => match uri_format(mime_type, uri) {
                Some(f) => Ok(EncodedView::File(p, f)),
                None => Err(ImageError::UnknownFormat),
            },
            SchemeView::Relative(p) => match uri_format(mime_type, uri) {
                Some(f) => Ok(EncodedView::Relative(p, f)),
                None => Err(ImageError::UnknownFormat),
            },
        }
    }
}

/// Where the bytes of the image in `length` bytes at `offset` of `buffer`
/// (of media type `mime_type`) are: those bytes themselves.
pub open spec fn view_image(buffer: Seq<u8>, offset: int, length: int, mime_type: Seq<char>) -> Result<
    EncodedView,
    ImageError,
> {
    if offset + length > buffer.len() {
        Err(ImageError::ViewOutOfRange)
    } else {
        match mime_format(mime_type) {
            Some(f) => Ok(EncodedView::Bytes(buffer.subrange(offset, offset + length), f)),
            None => Err(ImageError::UnknownFormat),
        }
    }
}

/// Where the encoded bytes of the image `source` are, and in which
/// format (see `uri_image` and `view_image`); URI images need a glTF file
/// with a directory (`has_base`).
pub fn locate_image(source: &ImageSource, has_base: bool) -> (r: Result<EncodedImage, ImageError>)
    ensures
        match *source {
            ImageSource::Uri { uri, mime_type } => if !has_base {
                r == Err::<EncodedImage, ImageError>(ImageError::UnsupportedSource)
            } else {
                match r {
                    Ok(e) => uri_image(uri@, mime_view(mime_type)) == Ok::<EncodedView, ImageError>(e@),
                    Err(err) => uri_image(uri@, mime_view(mime_type)) == Err::<EncodedView, ImageError>(err),
                }
            },
            ImageSource::View { buffer, offset, length, mime } => match r {
                Ok(e) => view_image(buffer@, offset as int, length as int, mime@) == Ok::<EncodedView, ImageError>(e@),
                Err(err) => view_image(buffer@, offset as int, length as int, mime@) == Err::<EncodedView, ImageError>(err),
            },
        },
{
    match source {
        ImageSource::View { buffer, offset, length, mime } => {
            if *offset > buffer.len() || *length > buffer.len() - *offset {
                return Err(ImageError::ViewOutOfRange);
            }
            let format = match format_from_mime(mime) {
                Some(f) => f,
                None => return Err(ImageError::UnknownFormat),
            };
            let end = *offset + *length;
            let mut bytes: Vec<u8> = Vec::new();
            let mut i: usize = *offset;
            while i < end
                invariant
                    *offset <= i <= end,
                    end <= buffer@.len(),
                    bytes@ == buffer@.subrange(*offset as int, i as int),
                decreases end - i,
            {
                bytes.push(buffer[i]);
                i += 1;
                assert(bytes@ =~= buffer@.subrange(*offset as int, i as int));
            }
            Ok(EncodedImage::Bytes(bytes, format))
        },
        ImageSource::Uri { uri, mime_type } => {
            if !has_base {
                return Err(ImageError::UnsupportedSource);
            }
            let scheme = match Scheme::try_parse(uri) {
                Some(s) => s,
                None => return Err(ImageError::InvalidUri),
            };
            let mime_opt: Option<&str> = match mime_type {
                Some(m) => Some(*m),
                None => None,
            };
            match scheme {
                Scheme::Data(Some(mime), b64) => {
                    let bytes = match base64_decode(b64) {
                        Some(b) => b,
                        None => return Err(ImageError::InvalidBase64),
                    };
                    match format_from_mime(mime) {
                        Some(f) => Ok(EncodedImage::Bytes(bytes, f)),
                        None => Err(ImageError::UnknownFormat),
                    }
                },
                Scheme::Unsupported => Err(ImageError::UnsupportedScheme),
                Scheme::Data(None, b64) => {
                    let bytes = match base64_decode(b64) {
                        Some(b) => b,
                        None => return Err(ImageError::InvalidBase64),
                    };
                    match format_from_uri(mime_opt, uri) {
                        Some(f) => Ok(EncodedImage::Bytes(bytes, f)),
                        None => Err(ImageError::UnknownFormat),
                    }
                },
                Scheme::File(p) => match format_from_uri(mime_opt, uri) {
                    Some(f) => Ok(EncodedImage::File(String::from_str(p), f)),
                    None => Err(ImageError::UnknownFormat),
                },
                Scheme::Relative(p) => match format_from_uri(mime_opt, uri) {
                    Some(f) => Ok(EncodedImage::Relative(p, f)),
                    None => Err(ImageError::UnknownFormat),
                },
            }
        },
    }
}

} // verus!
