//! What is decided around the generation of a thumbnail: which generator
//! takes a file, how the video generator is called, and what size and turn
//! the picture generator gives its result.
use vstd::prelude::*;
use vstd::string::*;
use crate::media::{extension, extension_of, lowercased, same_text, to_lowercase, IsMediaError};
use crate::THUMB_SIZE;

verus! {

/// Why a file has no thumbnail.
#[derive(Debug)]
pub enum ThumbError {
    IsMediaError(IsMediaError),
    /// The generator could not be run.
    Io(String),
    /// The picture generator failed.
    Magick(String),
    /// The video generator failed; this is what it wrote about it.
    Ffmpeg(String),
}

/// The two generators.
#[derive(Debug, Clone, Copy, PartialEq, Eq, Structural)]
pub enum Codec {
    /// Takes the first telling frame of a video.
    Ffmpeg,
    /// Scales a picture down.
    Magick,
}

/// The generator for `path`: the video generator for the extension `mp4` in
/// any case of letters, the picture generator for all else.
pub open spec fn codec_of(path: Seq<char>) -> Codec {
    match extension(path) {
        Some(ext) => if lowercased(ext) == seq!['m', 'p', '4'] {
            Codec::Ffmpeg
        } else {
            Codec::Magick
        },
        None => Codec::Magick,
    }
}

/// Chooses the generator for the file `path`.
pub fn codec_for(path: &str) -> (r: Codec)
    ensures
        r == codec_of(path@),
{
    match extension_of(path) {
        None => Codec::Magick,
        Some(ext) => {
            let lower = to_lowercase(ext);
            proof {
                reveal_strlit("mp4");
            }
            assert("mp4"@ =~= seq!['m', 'p', '4']);
            if same_text(lower.as_str(), "mp4") {
                Codec::Ffmpeg
            } else {
                Codec::Magick
            }
        },
    }
}

/// The character of the digit `d`.
pub open spec fn digit_char(d: nat) -> char {
    if d == 0 {
        '0'
    } else if d == 1 {
        '1'
    } else if d == 2 {
        '2'
    } else if d == 3 {
        '3'
    } else if d == 4 {
        '4'
    } else if d == 5 {
        '5'
    } else if d == 6 {
        '6'
    } else if d == 7 {
        '7'
    } else if d == 8 {
        '8'
    } else {
        '9'
    }
}

/// The decimal digits of `n`.
pub open spec fn decimal(n: nat) -> Seq<char>
    decreases n,
{
    if n < 10 {
        seq![digit_char(n)]
    } else {
        decimal(n / 10).push(digit_char(n % 10))
    }
}

fn digit_text(d: usize) -> (r: &'static str)
    requires
        d < 10,
    ensures
        r@ == seq![digit_char(d as nat)],
{
    proof {
        reveal_strlit("0");
        reveal_strlit("1");
        reveal_strlit("2");
        reveal_strlit("3");
        reveal_strlit("4");
        reveal_strlit("5");
        reveal_strlit("6");
        reveal_strlit("7");
        reveal_strlit("8");
        reveal_strlit("9");
    }
    let r = if d == 0 {
        "0"
    } else if d == 1 {
        "1"
    } else if d == 2 {
        "2"
    } else if d == 3 {
        "3"
    } else if d == 4 {
        "4"
    } else if d == 5 {
        "5"
    } else if d == 6 {
        "6"
    } else if d == 7 {
        "7"
    } else if d == 8 {
        "8"
    } else {
        "9"
    };
    assert(r@ =~= seq![digit_char(d as nat)]);
    r
}

/// Writes `n` in decimal digits.
pub fn decimal_text(n: usize) -> (r: String)
    ensures
        r@ == decimal(n as nat),
    decreases n,
{
    if n < 10 {
        String::from_str(digit_text(n))
    } else {
        let mut s = decimal_text(n / 10);
        s.append(digit_text(n % 10));
        assert(s@ =~= decimal(n as nat));
        s
    }
}

/// The filter that has the video generator pick a telling frame and scale
/// its longer edge to `size`, the other edge in proportion and even.
pub open spec fn filter_text(size: nat) -> Seq<char> {
    "thumbnail,scale='if(gt(iw,ih),"@ + decimal(size) + ",trunc(oh*a/2)*2)':'if(gt(iw,ih),trunc(ow/a/2)*2,"@
        + decimal(size) + ")'"@
}

/// The filter for thumbnails whose longer edge is `size`.
pub fn ffmpeg_filter(size: u16) -> (r: String)
    ensures
        r@ == filter_text(size as nat),
{
    let digits = decimal_text(size as usize);
    let mut s = String::from_str("thumbnail,scale='if(gt(iw,ih),");
    s.append(digits.as_str());
    s.append(",trunc(oh*a/2)*2)':'if(gt(iw,ih),trunc(ow/a/2)*2,");
    s.append(digits.as_str());
    s.append(")'");
    s
}

/// The arguments with which the video generator writes one thumbnail of
/// `path` to its output.
pub open spec fn ffmpeg_arguments(path: Seq<char>) -> Seq<Seq<char>> {
    seq![
        "-v"@,
        "error"@,
        "-i"@,
        path,
        "-vf"@,
        filter_text(THUMB_SIZE as nat),
        "-frames:v"@,
        "1"@,
        "-f"@,
        "image2pipe"@,
        "-"@,
    ]
}

/// The arguments for the video generator.
pub fn ffmpeg_args(path: &str) -> (r: Vec<String>)
    ensures
        r@.len() == 11,
        forall|i: int| 0 <= i < 11 ==> (#[trigger] r@[i])@ == ffmpeg_arguments(path@)[i],
{
    let mut args: Vec<String> = Vec::new();
    args.push(String::from_str("-v"));
    args.push(String::from_str("error"));
    args.push(String::from_str("-i"));
    args.push(String::from_str(path));
    args.push(String::from_str("-vf"));
    args.push(ffmpeg_filter(THUMB_SIZE));
    args.push(String::from_str("-frames:v"));
    args.push(String::from_str("1"));
    args.push(String::from_str("-f"));
    args.push(String::from_str("image2pipe"));
    args.push(String::from_str("-"));
    args
}

/// What the run of the video generator gave: its output where it ended
/// well, and what it wrote about its failure where it did not.
pub fn ffmpeg_outcome(success: bool, stdout: Vec<u8>, stderr: String) -> (r: Result<
    Vec<u8>,
    ThumbError,
>)
    ensures
        r == (if success {
            Ok::<Vec<u8>, ThumbError>(stdout)
        } else {
            Err::<Vec<u8>, ThumbError>(ThumbError::Ffmpeg(stderr))
        }),
{
    if success {
        Ok(stdout)
    } else {
        Err(ThumbError::Ffmpeg(stderr))
    }
}

/// The edge used in place of one that is 0.
pub const FALLBACK_EDGE: usize = 16;

/// The edge of a picture as the generator reckons with it: an edge of 0 is
/// taken as the fallback.
pub fn source_edge(edge: usize) -> (r: usize)
    ensures
        r == (if edge == 0 {
            FALLBACK_EDGE
        } else {
            edge
        }),
{
    if edge == 0 {
        FALLBACK_EDGE
    } else {
        edge
    }
}

/// How the picture generator makes its thumbnail.
#[derive(Debug, Clone, Copy, PartialEq, Eq, Structural)]
pub struct Geometry {
    /// Whether the picture is first turned upright.
    pub auto_orient: bool,
    pub width: usize,
    pub height: usize,
}

/// The geometry for a picture that scales to `width` by `height` and whose
/// orientation tag is `orientation`. A size with an edge of 0 gives way to
/// the fallback square. A picture that stands upright, tag 1, is not
/// turned; of the others, those lying on their side, tags 5 to 8, swap
/// width and height.
pub open spec fn geometry_of(width: usize, height: usize, orientation: u32) -> Geometry {
    let (w, h) = if width == 0 || height == 0 {
        (FALLBACK_EDGE, FALLBACK_EDGE)
    } else {
        (width, height)
    };
    if orientation == 1 {
        Geometry { auto_orient: false, width: w, height: h }
    } else if 5 <= orientation <= 8 {
        Geometry { auto_orient: true, width: h, height: w }
    } else {
        Geometry { auto_orient: true, width: w, height: h }
    }
}

/// Decides how the picture generator makes its thumbnail.
pub fn thumb_geometry(width: usize, height: usize, orientation: u32) -> (r: Geometry)
    ensures
        r == geometry_of(width, height, orientation),
{
    let (new_width, new_height) = if width == 0 || height == 0 {
        (FALLBACK_EDGE, FALLBACK_EDGE)
    } else {
        (width, height)
    };
    match orientation {
        1 => Geometry { auto_orient: false, width: new_width, height: new_height },
        6 | 8 | 5 | 7 => Geometry { auto_orient: true, width: new_height, height: new_width },
        _ => Geometry { auto_orient: true, width: new_width, height: new_height },
    }
}

} // verus!
