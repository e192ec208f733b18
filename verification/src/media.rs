//! Which files count as media, judged by the extension of their name.
use vstd::prelude::*;
use vstd::string::*;

verus! {

/// The kinds of media that are indexed.
#[derive(Debug, Clone, Copy, PartialEq, Eq, Structural)]
pub enum MediaType {
    Jpeg,
    Gif,
    Png,
    Mp4,
}

/// Why a path could not be judged.
#[derive(Debug)]
pub enum IsMediaError {
    PathEncoding,
}

/// The position of the last `c` in `s`, or -1 where `s` holds none.
pub open spec fn last_index_of(s: Seq<char>, c: char) -> int
    decreases s.len(),
{
    if s.len() == 0 {
        -1
    } else if s.last() == c {
        s.len() - 1
    } else {
        last_index_of(s.drop_last(), c)
    }
}

/// Where `last_index_of` finds a position, `c` stands there.
pub proof fn lemma_last_index_of(s: Seq<char>, c: char)
    ensures
        -1 <= last_index_of(s, c) < s.len(),
        last_index_of(s, c) >= 0 ==> s[last_index_of(s, c)] == c,
    decreases s.len(),
{
    if s.len() > 0 && s.last() != c {
        lemma_last_index_of(s.drop_last(), c);
    }
}

/// The last component of `path`: what follows its last separator.
pub open spec fn file_name(path: Seq<char>) -> Seq<char> {
    path.subrange(last_index_of(path, '/') + 1, path.len() as int)
}

/// The extension of `path`: what follows the last dot of its file name.
/// There is none where the file name is `..`, holds no dot, or holds its
/// only dot in front.
pub open spec fn extension(path: Seq<char>) -> Option<Seq<char>> {
    let name = file_name(path);
    let dot = last_index_of(name, '.');
    if name == seq!['.', '.'] || dot <= 0 {
        None
    } else {
        Some(name.subrange(dot + 1, name.len() as int))
    }
}

/// The kind of media that a lower-case extension stands for.
pub open spec fn media_type_of(ext: Seq<char>) -> Option<MediaType> {
    if ext == seq!['j', 'p', 'g'] || ext == seq!['j', 'p', 'e', 'g'] || ext == seq!['j', 'p', 'e'] {
        Some(MediaType::Jpeg)
    } else if ext == seq!['g', 'i', 'f'] {
        Some(MediaType::Gif)
    } else if ext == seq!['p', 'n', 'g'] {
        Some(MediaType::Png)
    } else if ext == seq!['m', 'p', '4'] {
        Some(MediaType::Mp4)
    } else {
        None
    }
}

/// The lower-case form of a text, as `str::to_lowercase` computes it.
pub uninterp spec fn lowercased(s: Seq<char>) -> Seq<char>;

/// The kind of media that `path` names, judged by its extension without
/// regard to case.
pub open spec fn media_type(path: Seq<char>) -> Option<MediaType> {
    match extension(path) {
        Some(ext) => media_type_of(lowercased(ext)),
        None => None,
    }
}

/// `str::to_lowercase` of std: the result is the lower-case form of `s`,
/// a function of `s` alone.
#[verifier::external_body]
pub(crate) fn to_lowercase(s: &str) -> (r: String)
    ensures
        r@ == lowercased(s@),
{
    s.to_lowercase()
}

/// Whether two texts are equal.
pub fn same_text(a: &str, b: &str) -> (r: bool)
    ensures
        r == (a@ == b@),
{
    let x = String::from_str(a);
    let y = String::from_str(b);
    x.eq(&y)
}

/// The position of the last `c` among the first `end` characters of `s`.
fn find_last(s: &str, end: usize, c: char) -> (r: Option<usize>)
    requires
        end <= s@.len(),
    ensures
        match r {
            Some(i) => i < end && i == last_index_of(s@.take(end as int), c),
            None => last_index_of(s@.take(end as int), c) == -1,
        },
{
    let mut i = end;
    while i > 0
        invariant
            i <= end <= s@.len(),
            last_index_of(s@.take(end as int), c) == last_index_of(s@.take(i as int), c),
        decreases i,
    {
        assert(s@.take(i as int).drop_last() =~= s@.take(i - 1));
        if s.get_char(i - 1) == c {
            return Some(i - 1);
        }
        i -= 1;
    }
    None
}

/// The kind of media that the lower-case extension `ext` stands for.
pub fn media_type_of_extension(ext: &str) -> (r: Option<MediaType>)
    ensures
        r == media_type_of(ext@),
{
    proof {
        reveal_strlit("jpg");
        reveal_strlit("jpeg");
        reveal_strlit("jpe");
        reveal_strlit("gif");
        reveal_strlit("png");
        reveal_strlit("mp4");
    }
    assert("jpg"@ =~= seq!['j', 'p', 'g']);
    assert("jpeg"@ =~= seq!['j', 'p', 'e', 'g']);
    assert("jpe"@ =~= seq!['j', 'p', 'e']);
    assert("gif"@ =~= seq!['g', 'i', 'f']);
    assert("png"@ =~= seq!['p', 'n', 'g']);
    assert("mp4"@ =~= seq!['m', 'p', '4']);
    if same_text(ext, "jpg") || same_text(ext, "jpeg") || same_text(ext, "jpe") {
        Some(MediaType::Jpeg)
    } else if same_text(ext, "gif") {
        Some(MediaType::Gif)
    } else if same_text(ext, "png") {
        Some(MediaType::Png)
    } else if same_text(ext, "mp4") {
        Some(MediaType::Mp4)
    } else {
        None
    }
}

/// The extension of `path`, if it has one.
pub fn extension_of(path: &str) -> (r: Option<&str>)
    ensures
        match r {
            Some(e) => extension(path@) == Some(e@),
            None => extension(path@) is None,
        },
{
    let n = path.unicode_len();
    assert(path@.take(n as int) =~= path@);
    let start = match find_last(path, n, '/') {
        Some(i) => i + 1,
        None => 0,
    };
    let name = path.substring_char(start, n);
    let m = n - start;
    assert(name@.take(m as int) =~= name@);
    match find_last(name, m, '.') {
        None => None,
        Some(dot) => {
            if dot == 0 {
                None
            } else if m == 2 && name.get_char(0) == '.' {
                proof {
                    lemma_last_index_of(name@, '.');
                }
                assert(name@ =~= seq!['.', '.']);
                None
            } else {
                assert(name@ != seq!['.', '.']) by {
                    if name@ == seq!['.', '.'] {
                        assert(name@.len() == 2);
                        assert(name@[0] == '.');
                    }
                }
                Some(name.substring_char(dot + 1, m))
            }
        },
    }
}

/// The kind of media that `path` names, or `None` where its extension is
/// none of the indexed ones.
pub fn is_media(path: &str) -> (r: Result<Option<MediaType>, IsMediaError>)
    ensures
        r == Ok::<Option<MediaType>, IsMediaError>(media_type(path@)),
{
    match extension_of(path) {
        None => Ok(None),
        Some(ext) => {
            let lower = to_lowercase(ext);
            Ok(media_type_of_extension(lower.as_str()))
        },
    }
}

} // verus!
