use crate::text::{after_last, after_last_char, chars_of, contains_char, find, find_from, matches_at, occurs_at, same_chars};
use vstd::prelude::*;
use vstd::string::*;

verus! {

broadcast use vstd::string::group_string_axioms;

/// What `urlencoding::decode` gives for a string: the percent-decoded text,
/// or nothing when the decoded bytes are not UTF-8.
pub uninterp spec fn spec_url_decode(s: Seq<char>) -> Option<Seq<char>>;

/// What the standard base64 engine of `base64` decodes a string to, or
/// nothing when it is not valid padded base64.
pub uninterp spec fn spec_base64_decode(s: Seq<char>) -> Option<Seq<u8>>;

/// The character that starts a percent-encoded byte.
pub open spec fn percent_sign() -> char {
    '%'
}

/// `urlencoding::decode`: percent-decodes `s`. The result is named by
/// `spec_url_decode`; a string without `%` comes back unchanged.
#[verifier::external_body]
fn url_decode(s: &str) -> (r: Option<String>)
    ensures
        r is Some <==> spec_url_decode(s@) is Some,
        r matches Some(d) ==> spec_url_decode(s@) == Some(d@),
        r matches Some(d) ==> (s@.contains(percent_sign()) || d@ == s@),
        r is None ==> s@.contains(percent_sign()),
{
    match urlencoding::decode(s) {
        Ok(d) => Some(d.into_owned()),
        Err(_) => None,
    }
}

/// `base64::engine::general_purpose::STANDARD.decode`: the bytes that the
/// padded standard-alphabet base64 text `s` encodes, named by
/// `spec_base64_decode`.
#[verifier::external_body]
pub(crate) fn base64_decode(s: &str) -> (r: Option<Vec<u8>>)
    ensures
        r is Some <==> spec_base64_decode(s@) is Some,
        r matches Some(v) ==> spec_base64_decode(s@) == Some(v@),
{
    match base64::Engine::decode(&base64::engine::general_purpose::STANDARD, s) {
        Ok(v) => Some(v),
        Err(_) => None,
    }
}

/// How a resource URI of a glTF file refers to its data.
#[derive(Debug, Clone, PartialEq, Eq)]
pub enum Scheme<'a> {
    /// `data:[<media type>];base64,<data>`.
    Data(Option<&'a str>, &'a str),
    /// `file:[//]<absolute file path>`.
    File(&'a str),
    /// A relative path such as `../foo`, percent-decoded.
    Relative(String),
    /// Any other scheme.
    Unsupported,
}

/// The text of a parsed URI.
pub enum SchemeView {
    Data(Option<Seq<char>>, Seq<char>),
    File(Seq<char>),
    Relative(Seq<char>),
    Unsupported,
}

impl<'a> View for Scheme<'a> {
    type V = SchemeView;

    open spec fn view(&self) -> SchemeView {
        match *self {
            Scheme::Data(m, d) => SchemeView::Data(
                match m {
                    Some(m) => Some(m@),
                    None => None,
                },
                d@,
            ),
            Scheme::File(p) => SchemeView::File(p@),
            Scheme::Relative(p) => SchemeView::Relative(p@),
            Scheme::Unsupported => SchemeView::Unsupported,
        }
    }
}

/// The data part of `data:` URI text (what follows `data:`): split at
/// `;base64,`, the media type comes first (none when it is empty) and the
/// payload runs up to the next `;base64,` or the end; without a separator
/// it is all payload.
pub open spec fn parse_data(rest: Seq<char>) -> SchemeView {
    let sep = ";base64,"@;
    match find_from(rest, sep, 0) {
        Some(k) => {
            let start = k + sep.len();
            let end = match find_from(rest, sep, start) {
                Some(e) => e,
                None => rest.len() as int,
            };
            SchemeView::Data(if k == 0 { None } else { Some(rest.subrange(0, k)) }, rest.subrange(start, end))
        },
        None => SchemeView::Data(None, rest),
    }
}

/// How a URI is read: without `:` it is a relative path (percent-decoded);
/// otherwise `data:` URIs carry their payload, `file://` and `file:` name a
/// file, and anything else is unsupported.
pub open spec fn parse_uri(uri: Seq<char>) -> SchemeView {
    if !uri.contains(':') {
        SchemeView::Relative(spec_url_decode(uri).unwrap())
    } else if occurs_at(uri, "data:"@, 0) {
        parse_data(uri.subrange("data:"@.len() as int, uri.len() as int))
    } else if occurs_at(uri, "file://"@, 0) {
        SchemeView::File(uri.subrange("file://"@.len() as int, uri.len() as int))
    } else if occurs_at(uri, "file:"@, 0) {
        SchemeView::File(uri.subrange("file:"@.len() as int, uri.len() as int))
    } else {
        SchemeView::Unsupported
    }
}

/// Where the bytes of a resource come from.
#[derive(Debug, Clone, PartialEq, Eq)]
pub enum ReadSource {
    /// The bytes themselves, decoded from a `data:` URI.
    Bytes(Vec<u8>),
    /// A file at this path.
    File(String),
    /// A file at this path relative to the glTF file's directory.
    Relative(String),
}

/// The contents of a `ReadSource`.
pub enum ReadSourceView {
    Bytes(Seq<u8>),
    File(Seq<char>),
    Relative(Seq<char>),
}

impl View for ReadSource {
    type V = ReadSourceView;

    open spec fn view(&self) -> ReadSourceView {
        match *self {
            ReadSource::Bytes(b) => ReadSourceView::Bytes(b@),
            ReadSource::File(p) => ReadSourceView::File(p@),
            ReadSource::Relative(p) => ReadSourceView::Relative(p@),
        }
    }
}

/// Why a resource cannot be read.
#[derive(Debug, Clone, Copy, PartialEq, Eq, Structural)]
pub enum ReadError {
    /// The base64 payload of a `data:` URI is invalid.
    InvalidBase64,
    /// The URI's scheme is not supported.
    UnsupportedScheme,
    /// A file is referenced, but there is no directory to resolve it from.
    ExternalReference,
}

/// Whether `Scheme::read` succeeds on a URI of this view.
pub open spec fn readable(s: SchemeView, has_base: bool) -> bool {
    match s {
        SchemeView::Data(_, d) => spec_base64_decode(d) is Some,
        SchemeView::File(_) => has_base,
        SchemeView::Relative(_) => has_base,
        SchemeView::Unsupported => false,
    }
}

/// What `Scheme::read` gives for a readable URI.
pub open spec fn read_source_view(s: SchemeView) -> ReadSourceView {
    match s {
        SchemeView::Data(_, d) => ReadSourceView::Bytes(spec_base64_decode(d).unwrap()),
        SchemeView::File(p) => ReadSourceView::File(p),
        SchemeView::Relative(p) => ReadSourceView::Relative(p),
        SchemeView::Unsupported => ReadSourceView::Bytes(Seq::empty()),
    }
}

impl<'a> Scheme<'a> {
    /// Parses a resource URI (see `parse_uri`).
    pub fn parse(uri: &'a str) -> (r: Scheme<'a>)
        requires
            uri@.contains(':') || spec_url_decode(uri@) is Some,
        ensures
            r@ == parse_uri(uri@),
    {
        let chars = chars_of(uri);
        if !contains_char(&chars, ':') {
            return Scheme::Relative(url_decode(uri).unwrap());
        }
        let data = chars_of("data:");
        if matches_at(&chars, &data, 0) {
            let rest = uri.substring_char(data.len(), chars.len());
            let rest_chars = chars_of(rest);
            let sep = chars_of(";base64,");
            return match find(&rest_chars, &sep, 0) {
                Some(k) => {
                    proof {
                        lemma_find_from_bounds(rest_chars@, sep@, 0);
                    }
                    let start = k + sep.len();
                    let end = match find(&rest_chars, &sep, start) {
                        Some(e) => e,
                        None => rest_chars.len(),
                    };
                    proof {
                        assert(occurs_at(rest_chars@, sep@, k as int));
                        if find_from(rest_chars@, sep@, start as int) is Some {
                            lemma_find_from_bounds(rest_chars@, sep@, start as int);
                        }
                    }
                    let media = if k == 0 { None } else { Some(rest.substring_char(0, k)) };
                    Scheme::Data(media, rest.substring_char(start, end))
                },
                None => Scheme::Data(None, rest),
            };
        }
        let file2 = chars_of("file://");
        if matches_at(&chars, &file2, 0) {
            return Scheme::File(uri.substring_char(file2.len(), chars.len()));
        }
        let file1 = chars_of("file:");
        if matches_at(&chars, &file1, 0) {
            return Scheme::File(uri.substring_char(file1.len(), chars.len()));
        }
        Scheme::Unsupported
    }

    /// `parse`, or `None` when a relative URI does not percent-decode to
    /// UTF-8.
    pub fn try_parse(uri: &'a str) -> (r: Option<Scheme<'a>>)
        ensures
            r is None <==> !uri@.contains(':') && spec_url_decode(uri@) is None,
            match r {
                Some(s) => s@ == parse_uri(uri@),
                None => !uri@.contains(':') && spec_url_decode(uri@) is None,
            },
    {
        let chars = chars_of(uri);
        if !contains_char(&chars, ':') {
            if url_decode(uri).is_none() {
                return None;
            }
        }
        Some(Scheme::parse(uri))
    }

    /// Where the bytes of the resource come from: the decoded payload of a
    /// `data:` URI, or, when the glTF file has a directory (`has_base`), a
    /// file by absolute or relative path.
    pub fn read(&self, has_base: bool) -> (r: ReadSource)
        requires
            readable(self@, has_base),
        ensures
            r@ == read_source_view(self@),
    {
        match self {
            Scheme::Data(_, payload) => {
                let bytes = base64_decode(payload);
                let v = bytes.unwrap();
                ReadSource::Bytes(v)
            },
            Scheme::File(path) => ReadSource::File(String::from_str(*path)),
            Scheme::Relative(path) => ReadSource::Relative(path.clone()),
            Scheme::Unsupported => ReadSource::Bytes(Vec::new()),
        }
    }

    /// `read`, or why it cannot be done.
    pub fn try_read(&self, has_base: bool) -> (r: Result<ReadSource, ReadError>)
        ensures
            match r {
                Ok(s) => readable(self@, has_base) && s@ == read_source_view(self@),
                Err(e) => !readable(self@, has_base) && e == match self@ {
                    SchemeView::Data(_, _) => ReadError::InvalidBase64,
                    SchemeView::Unsupported => ReadError::UnsupportedScheme,
                    _ => ReadError::ExternalReference,
                },
            },
    {
        match self {
            Scheme::Data(_, payload) => {
                if base64_decode(payload).is_none() {
                    return Err(ReadError::InvalidBase64);
                }
            },
            Scheme::Unsupported => {
                return Err(ReadError::UnsupportedScheme);
            },
            _ => {
                if !has_base {
                    return Err(ReadError::ExternalReference);
                }
            },
        }
        Ok(self.read(has_base))
    }
}

/// A found occurrence lies within the text.
pub proof fn lemma_find_from_bounds(s: Seq<char>, pat: Seq<char>, from: int)
    requires
        find_from(s, pat, from) is Some,
    ensures
        from <= find_from(s, pat, from).unwrap(),
        occurs_at(s, pat, find_from(s, pat, from).unwrap()),
    decreases s.len() + 1 - from,
{
    if !(from < 0 || from + pat.len() > s.len()) && !occurs_at(s, pat, from) {
        lemma_find_from_bounds(s, pat, from + 1);
    }
}

/// Encodings of embedded images.
#[derive(Debug, Clone, Copy, PartialEq, Eq, Structural)]
pub enum ImageFormat {
    Png,
    Jpeg,
}

/// The image format a media type names.
pub open spec fn mime_format(mime: Seq<char>) -> Option<ImageFormat> {
    if mime == "image/png"@ {
        Some(ImageFormat::Png)
    } else if mime == "image/jpeg"@ {
        Some(ImageFormat::Jpeg)
    } else {
        None
    }
}

/// The image format of a file found by URI: by its media type when it has
/// one, else by the extension after the last `.`.
pub open spec fn uri_format(mime: Option<Seq<char>>, uri: Seq<char>) -> Option<ImageFormat> {
    match mime {
        Some(m) => mime_format(m),
        None => {
            let ext = after_last(uri, '.');
            if ext == "png"@ {
                Some(ImageFormat::Png)
            } else if ext == "jpg"@ || ext == "jpeg"@ {
                Some(ImageFormat::Jpeg)
            } else {
                None
            }
        },
    }
}

/// The image format a media type names.
pub fn format_from_mime(mime: &str) -> (r: Option<ImageFormat>)
    ensures
        r == mime_format(mime@),
{
    let m = chars_of(mime);
    if same_chars(&m, &chars_of("image/png")) {
        Some(ImageFormat::Png)
    } else if same_chars(&m, &chars_of("image/jpeg")) {
        Some(ImageFormat::Jpeg)
    } else {
        None
    }
}

/// The image format of a file found by URI (see `uri_format`).
pub fn format_from_uri(mime_type: Option<&str>, uri: &str) -> (r: Option<ImageFormat>)
    ensures
        r == uri_format(
            match mime_type {
                Some(m) => Some(m@),
                None => None,
            },
            uri@,
        ),
{
    match mime_type {
        Some(m) => format_from_mime(m),
        None => {
            let ext = after_last_char(&chars_of(uri), '.');
            if same_chars(&ext, &chars_of("png")) {
                Some(ImageFormat::Png)
            } else if same_chars(&ext, &chars_of("jpg")) || same_chars(&ext, &chars_of("jpeg")) {
                Some(ImageFormat::Jpeg)
            } else {
                None
            }
        },
    }
}

} // verus!
