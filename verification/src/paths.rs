//! Catalog paths: `/`-separated, rooted at `/`.
use vstd::prelude::*;
use vstd::string::*;

verus! {

/// `path` extended by `sub`: a `sub` that starts at the root replaces
/// `path`; otherwise `sub` is appended, after a separator unless `path` is
/// empty or already ends in one.
pub open spec fn pushed(path: Seq<char>, sub: Seq<char>) -> Seq<char> {
    if sub.len() > 0 && sub[0] == '/' {
        sub
    } else if path.len() == 0 || path.last() == '/' {
        path + sub
    } else {
        path + seq!['/'] + sub
    }
}

/// The path of `sub` inside `dir`; the name `.` stands for `dir` itself.
pub open spec fn joined(dir: Seq<char>, sub: Seq<char>) -> Seq<char> {
    if sub == seq!['.'] {
        dir
    } else {
        pushed(dir, sub)
    }
}

/// `path` without the separators it starts with.
pub open spec fn relative(path: Seq<char>) -> Seq<char>
    decreases path.len(),
{
    if path.len() > 0 && path[0] == '/' {
        relative(path.drop_first())
    } else {
        path
    }
}

/// Where the catalog path `path` lies below `root`.
pub open spec fn rooted(root: Seq<char>, path: Seq<char>) -> Seq<char> {
    pushed(root, relative(path))
}

/// Whether `path` starts with `prefix`, character by character.
pub open spec fn under(prefix: Seq<char>, path: Seq<char>) -> bool {
    prefix.is_prefix_of(path)
}

/// The text with which every path below `folder` starts: the path of the
/// folder, then a separator.
pub open spec fn beneath(folder: Seq<char>) -> Seq<char> {
    folder + seq!['/']
}

/// Whether `path` is the folder `folder` or lies below it. A path that only
/// starts with the text of `folder`, as that of a sibling with a longer
/// name does, is not within it.
pub open spec fn within(folder: Seq<char>, path: Seq<char>) -> bool {
    path == folder || under(beneath(folder), path)
}

/// The text with which every path below `folder` starts.
pub fn beneath_prefix(folder: &str) -> (r: String)
    ensures
        r@ == beneath(folder@),
{
    proof {
        reveal_strlit("/");
    }
    assert("/"@ =~= seq!['/']);
    let mut prefix = String::from_str(folder);
    prefix.append("/");
    prefix
}

/// Whether `name` is the single character `.`.
pub fn is_current_dir(name: &str) -> (r: bool)
    ensures
        r == (name@ == seq!['.']),
{
    if name.unicode_len() == 1 {
        let c = name.get_char(0);
        assert(c == '.' ==> name@ =~= seq!['.']);
        c == '.'
    } else {
        false
    }
}

/// Extends `path` by `sub`.
pub fn push(path: &mut String, sub: &str)
    ensures
        final(path)@ == pushed(old(path)@, sub@),
{
    let absolute = !sub.is_empty() && sub.get_char(0) == '/';
    if absolute {
        *path = String::from_str(sub);
    } else {
        let n = path.as_str().unicode_len();
        let need_sep = n > 0 && path.as_str().get_char(n - 1) != '/';
        if need_sep {
            proof {
                reveal_strlit("/");
            }
            assert("/"@ =~= seq!['/']);
            path.append("/");
        }
        path.append(sub);
    }
}

/// The path of `sub` inside `dir`.
pub fn subpath(dir: &str, sub: &str) -> (r: String)
    ensures
        r@ == joined(dir@, sub@),
{
    let mut path = String::from_str(dir);
    if !is_current_dir(sub) {
        push(&mut path, sub);
    }
    path
}

/// The file below `root` that the catalog path `path` names.
pub fn fullpath(root: &str, path: &str) -> (r: String)
    ensures
        r@ == rooted(root@, path@),
{
    let n = path.unicode_len();
    let mut i: usize = 0;
    assert(path@.subrange(0, n as int) =~= path@);
    while i < n && path.get_char(i) == '/'
        invariant
            i <= n,
            n == path@.len(),
            relative(path@) == relative(path@.subrange(i as int, n as int)),
        decreases n - i,
    {
        assert(path@.subrange(i as int, n as int).drop_first() =~= path@.subrange(
            i + 1,
            n as int,
        ));
        i += 1;
    }
    let rest = path.substring_char(i, n);
    let mut full = String::from_str(root);
    push(&mut full, rest);
    full
}

} // verus!
