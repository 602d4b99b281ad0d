//! Choosing how an output image is encoded, from its path.
use vstd::prelude::*;
use image::ImageFormat;
use crate::path::{extension, extension_chars};
use crate::text::{ascii_lower, chars_of, string_of};

verus! {

/// JPEG output is written at this quality.
pub const JPEG_QUALITY: u8 = 95;

/// The image formats that the image crate knows by file extension.
#[derive(Debug, Clone, Copy, PartialEq, Eq, Structural)]
pub enum FormatName {
    Avif,
    Jpeg,
    Png,
    Gif,
    WebP,
    Tiff,
    Tga,
    Dds,
    Bmp,
    Ico,
    Hdr,
    OpenExr,
    Pnm,
    Farbfeld,
    Qoi,
}

/// The format that `image::ImageFormat::from_extension` gives for an
/// extension: the extension is ASCII lower-cased and looked up in its table.
pub open spec fn format_for_extension(ext: Seq<char>) -> Option<FormatName> {
    let e = ascii_lower(ext);
    if e == "avif"@ {
        Some(FormatName::Avif)
    } else if e == "jpg"@ || e == "jpeg"@ || e == "jfif"@ {
        Some(FormatName::Jpeg)
    } else if e == "png"@ || e == "apng"@ {
        Some(FormatName::Png)
    } else if e == "gif"@ {
        Some(FormatName::Gif)
    } else if e == "webp"@ {
        Some(FormatName::WebP)
    } else if e == "tif"@ || e == "tiff"@ {
        Some(FormatName::Tiff)
    } else if e == "tga"@ {
        Some(FormatName::Tga)
    } else if e == "dds"@ {
        Some(FormatName::Dds)
    } else if e == "bmp"@ {
        Some(FormatName::Bmp)
    } else if e == "ico"@ {
        Some(FormatName::Ico)
    } else if e == "hdr"@ {
        Some(FormatName::Hdr)
    } else if e == "exr"@ {
        Some(FormatName::OpenExr)
    } else if e == "pbm"@ || e == "pam"@ || e == "ppm"@ || e == "pgm"@ || e == "pnm"@ {
        Some(FormatName::Pnm)
    } else if e == "ff"@ {
        Some(FormatName::Farbfeld)
    } else if e == "qoi"@ {
        Some(FormatName::Qoi)
    } else {
        None
    }
}

/// Calls `image::ImageFormat::from_extension`, which lower-cases the extension
/// (ASCII only) and looks it up in the table that `format_for_extension`
/// copies; the format found is handed back as the matching `FormatName`.
#[verifier::external_body]
fn format_name_for_extension(ext: &str) -> (res: Option<FormatName>)
    ensures
        res == format_for_extension(ext@),
{
    let f = ImageFormat::from_extension(ext)?;
    Some(match f {
        ImageFormat::Avif => FormatName::Avif, ImageFormat::Jpeg => FormatName::Jpeg,
        ImageFormat::Png => FormatName::Png, ImageFormat::Gif => FormatName::Gif,
        ImageFormat::WebP => FormatName::WebP, ImageFormat::Tiff => FormatName::Tiff,
        ImageFormat::Tga => FormatName::Tga, ImageFormat::Dds => FormatName::Dds,
        ImageFormat::Bmp => FormatName::Bmp, ImageFormat::Ico => FormatName::Ico,
        ImageFormat::Hdr => FormatName::Hdr, ImageFormat::OpenExr => FormatName::OpenExr,
        ImageFormat::Pnm => FormatName::Pnm, ImageFormat::Farbfeld => FormatName::Farbfeld,
        ImageFormat::Qoi => FormatName::Qoi,
        _ => return None,
    })
}

/// How an output file is encoded: JPEG (which has no alpha channel, so the
/// image is written as RGB) at the given quality, or another format with that
/// format's own encoder.
#[derive(Debug, Clone, Copy, PartialEq, Eq, Structural)]
pub enum SaveKind {
    Jpeg { quality: u8 },
    Other(FormatName),
}

/// The encoding for an output of the given format.
pub open spec fn save_kind_for(n: FormatName) -> SaveKind {
    if n == FormatName::Jpeg {
        SaveKind::Jpeg { quality: JPEG_QUALITY }
    } else {
        SaveKind::Other(n)
    }
}

/// The format an output path is written in, by its extension.
pub open spec fn output_format_name(path: Seq<char>) -> Option<FormatName> {
    match extension(path) {
        Some(e) => format_for_extension(e),
        None => None,
    }
}

/// Why an output image cannot be written.
#[derive(Debug, Clone, Copy, PartialEq, Eq, Structural)]
pub enum SaveError {
    /// The output path's extension names no known image format.
    UnknownFormat,
}

/// How the image written to `path` is encoded; refused when the path's
/// extension names no known format.
pub fn output_format(path: &str) -> (res: Result<SaveKind, SaveError>)
    ensures
        match output_format_name(path@) {
            None => res == Err::<SaveKind, SaveError>(SaveError::UnknownFormat),
            Some(n) => res == Ok::<SaveKind, SaveError>(save_kind_for(n)),
        },
{
    let cs = chars_of(path);
    match extension_chars(&cs) {
        None => Err(SaveError::UnknownFormat),
        Some(e) => {
            let ext = string_of(e.as_slice());
            match format_name_for_extension(ext.as_str()) {
                Some(FormatName::Jpeg) => Ok(SaveKind::Jpeg { quality: JPEG_QUALITY }),
                Some(n) => Ok(SaveKind::Other(n)),
                None => Err(SaveError::UnknownFormat),
            }
        },
    }
}

/// The output format follows the path's extension through the image crate's
/// table, in any ASCII case: `jpg`, `jpeg` and `jfif` are written as JPEG at
/// `JPEG_QUALITY`, `png`, `webp` and `bmp` in their own formats, and a path
/// without extension is refused.
pub proof fn lemma_output_format_by_extension(path: Seq<char>)
    ensures
        extension(path) is None ==> output_format_name(path) is None,
        extension(path) matches Some(e) ==> output_format_name(path) == format_for_extension(e),
        extension(path) matches Some(e) && (ascii_lower(e) == "jpg"@ || ascii_lower(e) == "jpeg"@
            || ascii_lower(e) == "jfif"@) ==> output_format_name(path) == Some(FormatName::Jpeg)
            && save_kind_for(FormatName::Jpeg) == (SaveKind::Jpeg { quality: 95 }),
        extension(path) matches Some(e) && ascii_lower(e) == "png"@ ==> output_format_name(path)
            == Some(FormatName::Png),
        extension(path) matches Some(e) && ascii_lower(e) == "webp"@ ==> output_format_name(path)
            == Some(FormatName::WebP),
        extension(path) matches Some(e) && ascii_lower(e) == "bmp"@ ==> output_format_name(path)
            == Some(FormatName::Bmp),
{
    reveal_strlit("avif");
    reveal_strlit("jpg");
    reveal_strlit("jpeg");
    reveal_strlit("jfif");
    reveal_strlit("png");
    reveal_strlit("apng");
    reveal_strlit("gif");
    reveal_strlit("webp");
    reveal_strlit("tif");
    reveal_strlit("tiff");
    reveal_strlit("tga");
    reveal_strlit("dds");
    reveal_strlit("bmp");
    assert("avif"@.len() == 4 && "jpeg"@.len() == 4 && "jfif"@.len() == 4 && "apng"@.len() == 4);
    assert("webp"@.len() == 4 && "tiff"@.len() == 4);
    assert("jpg"@.len() == 3 && "png"@.len() == 3 && "gif"@.len() == 3 && "bmp"@.len() == 3);
    if let Some(e) = extension(path) {
        let l = ascii_lower(e);
        if l == "jpg"@ || l == "jpeg"@ || l == "jfif"@ {
            assert(l != "avif"@) by {
                if l.len() == 4 {
                    assert(l[0] != "avif"@[0]);
                }
            }
        }
        if l == "png"@ {
            assert(l != "avif"@ && l != "jpeg"@ && l != "jfif"@);
            assert(l[0] != "jpg"@[0]);
        }
        if l == "webp"@ {
            assert(l[0] != "avif"@[0] && l[0] != "jpeg"@[0] && l[0] != "jfif"@[0]);
            assert(l[0] != "apng"@[0]);
            assert(l != "jpg"@ && l != "png"@ && l != "gif"@);
        }
        if l == "bmp"@ {
            assert(l[0] != "jpg"@[0] && l[0] != "png"@[0] && l[0] != "gif"@[0]);
            assert(l[0] != "tif"@[0] && l[0] != "tga"@[0] && l[0] != "dds"@[0]);
            assert(l != "avif"@ && l != "jpeg"@ && l != "jfif"@ && l != "apng"@);
            assert(l != "webp"@ && l != "tiff"@);
        }
    }
}

} // verus!
