use std::path::PathBuf;

use vstd::prelude::*;

verus! {

/// A file system path, from `std`.
#[verifier::external_type_specification]
#[verifier::external_body]
pub struct ExPathBuf(PathBuf);

/// `PathBuf::clone` makes a copy holding the same path.
pub assume_specification[ <PathBuf as Clone>::clone ](path: &PathBuf) -> (copy: PathBuf)
    ensures
        copy == *path,
;

/// The path `Path::join` builds from `base` and `relative`: `relative` adjoined
/// to `base` (a relative path below it, an absolute one in its place).
pub uninterp spec fn path_joined(base: PathBuf, relative: PathBuf) -> PathBuf;

/// Calls `Path::join`, which depends on its two paths alone.
#[verifier::external_body]
fn join_path(base: &PathBuf, relative: &PathBuf) -> (joined: PathBuf)
    ensures
        joined == path_joined(*base, *relative),
{
    base.join(relative)
}

/// Where an image comes from.
#[derive(PartialEq, Eq, Hash, Debug, Clone)]
pub enum ImageSource {
    AbsolutePath(PathBuf),
    AssetPath(PathBuf),
    Bundled(String),
}

impl ImageSource {
    /// An image read from an absolute path.
    pub fn absolute(path: PathBuf) -> (s: Self)
        ensures
            s == ImageSource::AbsolutePath(path),
    {
        ImageSource::AbsolutePath(path)
    }

    /// An image read from a path relative to the assets folder.
    pub fn asset(path: PathBuf) -> (s: Self)
        ensures
            s == ImageSource::AssetPath(path),
    {
        ImageSource::AssetPath(path)
    }

    /// An image bundled with the application under a name.
    pub fn bundled(name: String) -> (s: Self)
        ensures
            s == ImageSource::Bundled(name),
    {
        ImageSource::Bundled(name)
    }

    /// The file the image is read from: an absolute path as it is, an asset path
    /// joined below `assets`; none for a bundled image, which no file holds.
    pub fn file_path(&self, assets: &PathBuf) -> (p: Option<PathBuf>)
        ensures
            match self {
                ImageSource::AbsolutePath(path) => p == Some(*path),
                ImageSource::AssetPath(relative) => p == Some(path_joined(*assets, *relative)),
                ImageSource::Bundled(_) => p is None,
            },
    {
        match self {
            ImageSource::AbsolutePath(path) => Some(path.clone()),
            ImageSource::AssetPath(relative) => Some(join_path(assets, relative)),
            ImageSource::Bundled(_) => None,
        }
    }
}

/// The pixel formats an image resource can have.
#[derive(Copy, Clone, Debug, PartialEq, Eq, Structural)]
pub enum ImageFormat {
    Invalid,
    A8,
    RGB8,
    BGRA8,
    RGBAF32,
    RG8,
}

/// The channel layout of a decoded image.
#[derive(Copy, Clone, Debug, PartialEq, Eq, Structural)]
pub enum ColorLayout {
    Luma8,
    LumaA8,
    Rgb8,
    Rgba8,
}

/// The size and format of an image resource, and whether it is fully opaque.
#[derive(Copy, Clone, Debug, PartialEq, Eq, Structural)]
pub struct ImageDescriptor {
    pub width: u32,
    pub height: u32,
    pub format: ImageFormat,
    pub is_opaque: bool,
}

/// Why an image could not be turned into a resource.
#[derive(Clone, Debug, PartialEq, Eq)]
pub enum ImageError {
    UnsupportedError(String),
}

/// A color channel scaled by an alpha value, rounded to the nearest integer.
pub open spec fn premultiplied(channel: u8, alpha: u8) -> int {
    (channel * alpha + 128) / 255
}

/// The alpha byte of the pixel that holds byte `i`.
pub open spec fn alpha_of(data: Seq<u8>, i: int) -> u8 {
    data[i - i % 4 + 3]
}

/// `data` after premultiplying `old`: in each 4-byte pixel, the last byte (alpha)
/// stays, and each of the first three is scaled by it.
pub open spec fn is_premultiplied(old: Seq<u8>, data: Seq<u8>) -> bool {
    &&& data.len() == old.len()
    &&& forall|i: int|
        #![trigger data[i]]
        0 <= i < data.len() ==> data[i] as int == if i % 4 == 3 {
            old[i] as int
        } else {
            premultiplied(old[i], alpha_of(old, i))
        }
}

proof fn lemma_premultiplied_fits(c: u8, a: u8)
    ensures
        0 <= premultiplied(c, a) <= 255,
{
    assert(c * a <= 255 * 255) by (nonlinear_arith)
        requires
            c <= 255,
            a <= 255,
    ;
    assert(0 <= c * a) by (nonlinear_arith);
}

fn premultiply_channel(c: u8, a: u8) -> (r: u8)
    ensures
        r as int == premultiplied(c, a),
{
    proof {
        lemma_premultiplied_fits(c, a);
    }
    let c32 = c as u32;
    let a32 = a as u32;
    assert(c32 * a32 <= 255 * 255) by (nonlinear_arith)
        requires
            c32 <= 255,
            a32 <= 255,
    ;
    ((c32 * a32 + 128) / 255) as u8
}

/// Scales the color channels of each 4-byte pixel (blue, green, red, alpha) by its alpha.
pub fn premultiply(data: &mut [u8])
    requires
        old(data)@.len() % 4 == 0,
    ensures
        is_premultiplied(old(data)@, final(data)@),
{
    let len = data.len();
    let n = len / 4;
    assert(4 * n == len);
    let mut p: usize = 0;
    while p < n
        invariant
            n == old(data)@.len() / 4,
            4 * n == len,
            len == old(data)@.len(),
            old(data)@.len() % 4 == 0,
            data@.len() == old(data)@.len(),
            p <= n,
            forall|i: int|
                #![trigger data@[i]]
                0 <= i < 4 * p ==> data@[i] as int == if i % 4 == 3 {
                    old(data)@[i] as int
                } else {
                    premultiplied(old(data)@[i], alpha_of(old(data)@, i))
                },
            forall|i: int| 4 * p <= i < data@.len() ==> #[trigger] data@[i] == old(data)@[i],
        decreases n - p,
    {
        let base = 4 * p;
        let a = data[base + 3];
        let r = data[base + 2];
        let g = data[base + 1];
        let b = data[base];
        data[base + 3] = a;
        data[base + 2] = premultiply_channel(r, a);
        data[base + 1] = premultiply_channel(g, a);
        data[base] = premultiply_channel(b, a);
        proof {
            assert forall|i: int|
                #![trigger data@[i]]
                0 <= i < 4 * (p + 1) implies data@[i] as int == if i % 4 == 3 {
                    old(data)@[i] as int
                } else {
                    premultiplied(old(data)@[i], alpha_of(old(data)@, i))
                } by {
                if i >= 4 * p {
                    assert(i - i % 4 + 3 == base + 3);
                }
            }
        }
        p = p + 1;
    }
}

/// Every pixel of a 4-byte-per-pixel image has full alpha.
pub open spec fn all_alpha_opaque(bytes: Seq<u8>) -> bool {
    forall|k: int| 0 <= k < bytes.len() / 4 ==> #[trigger] bytes[4 * k + 3] == 255
}

/// Whether an image with this format and these bytes is fully opaque.
pub open spec fn spec_is_image_opaque(format: ImageFormat, bytes: Seq<u8>) -> bool {
    match format {
        ImageFormat::BGRA8 => all_alpha_opaque(bytes),
        ImageFormat::RGB8 | ImageFormat::RG8 => true,
        _ => false,
    }
}

/// Whether an image with this format and these bytes is fully opaque: formats
/// without alpha are, a pure alpha mask is not, and `BGRA8` is when every pixel's
/// alpha byte is 255.
pub fn is_image_opaque(format: ImageFormat, bytes: &[u8]) -> (opaque: bool)
    requires
        format != ImageFormat::Invalid,
        format != ImageFormat::RGBAF32,
    ensures
        opaque == spec_is_image_opaque(format, bytes@),
{
    match format {
        ImageFormat::BGRA8 => {
            let len = bytes.len();
            let n = len / 4;
            assert(4 * n <= len);
            let mut i: usize = 0;
            while i < n
                invariant
                    n == bytes@.len() / 4,
                    4 * n <= len,
                    len == bytes@.len(),
                    format == ImageFormat::BGRA8,
                    i <= n,
                    forall|k: int| 0 <= k < i ==> #[trigger] bytes@[4 * k + 3] == 255,
                decreases n - i,
            {
                if bytes[i * 4 + 3] != 255 {
                    proof {
                        let k = i as int;
                        assert(0 <= k < bytes@.len() / 4);
                        assert(bytes@[4 * k + 3] != 255);
                        assert(!all_alpha_opaque(bytes@));
                    }
                    return false;
                }
                i = i + 1;
            }
            true
        },
        ImageFormat::RGB8 | ImageFormat::RG8 => true,
        _ => false,
    }
}

/// The resource format for a decoded image of this layout, or `None` when the
/// layout is not supported.
pub open spec fn spec_format_for(layout: ColorLayout) -> Option<ImageFormat> {
    match layout {
        ColorLayout::Luma8 => Some(ImageFormat::A8),
        ColorLayout::Rgb8 => Some(ImageFormat::RGB8),
        ColorLayout::Rgba8 => Some(ImageFormat::BGRA8),
        ColorLayout::LumaA8 => None,
    }
}

/// Turns the decoded pixels of an image into the bytes and descriptor of an image
/// resource: picks the format for the layout, premultiplies the alpha of 4-channel
/// images, and records whether the image is opaque. A luma image with alpha is refused.
pub fn prepare_image(layout: ColorLayout, width: u32, height: u32, bytes: Vec<u8>) -> (res: Result<
    (Vec<u8>, ImageDescriptor),
    ImageError,
>)
    requires
        layout == ColorLayout::Rgba8 ==> bytes@.len() % 4 == 0,
    ensures
        layout == ColorLayout::LumaA8 <==> res is Err,
        res matches Ok((data, descriptor)) ==> {
            let format = spec_format_for(layout).unwrap();
            &&& descriptor.width == width
            &&& descriptor.height == height
            &&& descriptor.format == format
            &&& (if format == ImageFormat::BGRA8 {
                is_premultiplied(bytes@, data@)
            } else {
                data@ == bytes@
            })
            &&& descriptor.is_opaque == spec_is_image_opaque(format, data@)
        },
{
    let format = match layout {
        ColorLayout::Luma8 => ImageFormat::A8,
        ColorLayout::Rgb8 => ImageFormat::RGB8,
        ColorLayout::Rgba8 => ImageFormat::BGRA8,
        ColorLayout::LumaA8 => {
            return Err(ImageError::UnsupportedError(String::from_str("ImageLumaA8 unsupported")));
        },
    };
    let mut bytes = bytes;
    if format == ImageFormat::BGRA8 {
        premultiply(bytes.as_mut_slice());
    }
    let opaque = is_image_opaque(format, bytes.as_slice());
    let descriptor = ImageDescriptor { width: width, height: height, format: format, is_opaque: opaque };
    Ok((bytes, descriptor))
}

} // verus!

verus! {

/// Premultiplying never makes a channel brighter than its alpha, leaves fully
/// opaque pixels unchanged, and turns fully transparent ones black.
pub proof fn law_premultiplied_bounds(c: u8, a: u8)
    ensures
        premultiplied(c, a) <= a,
        a == 255 ==> premultiplied(c, a) == c,
        a == 0 ==> premultiplied(c, a) == 0,
{
    assert((c * a + 128) / 255 <= a) by (nonlinear_arith)
        requires
            c <= 255,
            a <= 255,
    ;
    assert(a == 255 ==> (c * a + 128) / 255 == c) by (nonlinear_arith)
        requires
            c <= 255,
    ;
}

/// Images without an alpha channel are opaque; alpha masks are not.
pub proof fn law_opacity_by_format(bytes: Seq<u8>)
    ensures
        spec_is_image_opaque(ImageFormat::RGB8, bytes),
        spec_is_image_opaque(ImageFormat::RG8, bytes),
        !spec_is_image_opaque(ImageFormat::A8, bytes),
{
}

} // verus!
