//! Paths, held as text: joining as `PathBuf::join` does on Unix, `~` and
//! `.` expansion, the base directory of a run, and the places of the
//! files that a run writes.
use vstd::prelude::*;
use crate::text::{append_str, chars_of, copy_range, string_of};

verus! {

/// The directory under the base directory that holds received test cases.
pub const TESTCASES_DIR: &'static str = "testcases";

/// The directory under the base directory where a CPH editor plugin keeps
/// its problem files.
pub const CPH_DIR: &'static str = ".cph";

/// The directory under the base directory for binaries and other
/// generated files.
pub const TEMP_DIR: &'static str = "temp";

/// The name of the cache file of source hashes.
pub const CACHE_FILENAME: &'static str = ".vrun_cache";

/// Whether a path is absolute: on Unix, whether it starts with `/`.
pub open spec fn is_absolute(p: Seq<char>) -> bool {
    p.len() > 0 && p[0] == '/'
}

/// `base` joined with `rel`: an absolute `rel` replaces `base`; otherwise a
/// `/` separates them unless `base` is empty or already ends in one.
pub open spec fn join_path(base: Seq<char>, rel: Seq<char>) -> Seq<char> {
    if is_absolute(rel) {
        rel
    } else if base.len() > 0 && base.last() != '/' {
        base + seq!['/'] + rel
    } else {
        base + rel
    }
}

/// `base` joined with `rel` (see [`join_path`]).
pub fn join(base: &str, rel: &str) -> (r: String)
    ensures
        r@ == join_path(base@, rel@),
{
    let b = chars_of(base);
    let rv = chars_of(rel);
    if rv.len() > 0 && rv[0] == '/' {
        return string_of(&rv);
    }
    let mut out = copy_range(&b, 0, b.len());
    assert(b@.subrange(0, b@.len() as int) == b@);
    if b.len() > 0 && b[b.len() - 1] != '/' {
        out.push('/');
    }
    append_str(&mut out, rel);
    string_of(&out)
}

/// The path that a command-line path argument names: `~` is the home
/// directory, `.` the working directory, and `~/x` the path `x` under the
/// home directory, each as far as that directory is known.
pub open spec fn expanded(
    path: Seq<char>,
    home: Option<Seq<char>>,
    cwd: Option<Seq<char>>,
) -> Seq<char> {
    if path == seq!['~'] && home is Some {
        home->0
    } else if path == seq!['.'] && cwd is Some {
        cwd->0
    } else if path.len() >= 2 && path[0] == '~' && path[1] == '/' && home is Some {
        join_path(home->0, path.skip(2))
    } else {
        path
    }
}

/// The view of an optional string.
pub open spec fn opt_view(o: Option<&str>) -> Option<Seq<char>> {
    match o {
        Some(s) => Some(s@),
        None => None,
    }
}

/// Expands a command-line path argument (see [`expanded`]); `home` and
/// `cwd` are the home and working directories where they are known.
pub fn expand_path(path: &str, home: Option<&str>, cwd: Option<&str>) -> (r: String)
    ensures
        r@ == expanded(path@, opt_view(home), opt_view(cwd)),
{
    let p = chars_of(path);
    if p.len() == 1 && p[0] == '~' {
        if let Some(h) = home {
            assert(p@ == seq!['~']);
            return h.to_owned();
        }
    }
    if p.len() == 1 && p[0] == '.' {
        if let Some(c) = cwd {
            assert(p@ == seq!['.']);
            assert(p@ != seq!['~']);
            return c.to_owned();
        }
    }
    if p.len() >= 2 && p[0] == '~' && p[1] == '/' {
        if let Some(h) = home {
            assert(p@ != seq!['~']);
            assert(p@ != seq!['.']);
            let rest = copy_range(&p, 2, p.len());
            let rest_s = string_of(&rest);
            assert(rest@ == p@.skip(2));
            return join(h, rest_s.as_str());
        }
    }
    assert(p@.len() == 1 && p@[0] == '~' ==> p@ == seq!['~']);
    assert(p@.len() == 1 && p@[0] == '.' ==> p@ == seq!['.']);
    path.to_owned()
}

/// What `Path::parent` gives for a path: the path without its final
/// component, `Some("")` for a relative path of one component, and `None`
/// for a root or an empty path.
pub uninterp spec fn path_parent(p: Seq<char>) -> Option<Seq<char>>;

/// What `Path::file_name` gives for a path: its final component unless
/// that is `..`.
pub uninterp spec fn path_file_name(p: Seq<char>) -> Option<Seq<char>>;

/// What `Path::file_stem` gives for a path: its file name without the
/// last extension.
pub uninterp spec fn path_file_stem(p: Seq<char>) -> Option<Seq<char>>;

/// The view of an optional string.
pub open spec fn opt_string_view(o: Option<String>) -> Option<Seq<char>> {
    match o {
        Some(s) => Some(s@),
        None => None,
    }
}

/// `std::path::Path::parent`; the contract claims only that the result is
/// the value [`path_parent`] names for the path.
#[verifier::external_body]
pub(crate) fn parent(p: &str) -> (r: Option<String>)
    ensures
        opt_string_view(r) == path_parent(p@),
{
    std::path::Path::new(p).parent().map(|q| q.to_string_lossy().into_owned())
}

/// `std::path::Path::file_name`; the contract claims only that the result
/// is the value [`path_file_name`] names for the path.
#[verifier::external_body]
pub(crate) fn file_name(p: &str) -> (r: Option<String>)
    ensures
        opt_string_view(r) == path_file_name(p@),
{
    std::path::Path::new(p).file_name().map(|q| q.to_string_lossy().into_owned())
}

/// `std::path::Path::file_stem`; the contract claims only that the result
/// is the value [`path_file_stem`] names for the path.
#[verifier::external_body]
pub(crate) fn file_stem(p: &str) -> (r: Option<String>)
    ensures
        opt_string_view(r) == path_file_stem(p@),
{
    std::path::Path::new(p).file_stem().map(|q| q.to_string_lossy().into_owned())
}

/// The base directory of a run, given the parent of the given file (none
/// when no file is given or its path has no parent): the directory given
/// on the command line (expanded), else that parent when it is not empty,
/// else the working directory, else `.`.
pub open spec fn base_from(
    explicit_dir: Option<Seq<char>>,
    fallback_parent: Option<Seq<char>>,
    home: Option<Seq<char>>,
    cwd: Option<Seq<char>>,
) -> Seq<char> {
    if explicit_dir is Some {
        expanded(explicit_dir->0, home, cwd)
    } else if fallback_parent is Some && fallback_parent->0.len() > 0 {
        fallback_parent->0
    } else if cwd is Some {
        cwd->0
    } else {
        seq!['.']
    }
}

/// The base directory of a run: the directory given on the command line
/// (expanded), else the directory of the given file when it has a
/// non-empty one, else the working directory, else `.`.
pub open spec fn resolved_base(
    explicit_dir: Option<Seq<char>>,
    fallback_file: Option<Seq<char>>,
    home: Option<Seq<char>>,
    cwd: Option<Seq<char>>,
) -> Seq<char> {
    base_from(
        explicit_dir,
        match fallback_file {
            Some(f) => path_parent(f),
            None => None,
        },
        home,
        cwd,
    )
}

/// The base directory of a run, given the parent of the given file (see
/// [`base_from`]).
pub fn base_dir_from(
    explicit_dir: Option<&str>,
    fallback_parent: Option<&str>,
    home: Option<&str>,
    cwd: Option<&str>,
) -> (r: String)
    ensures
        r@ == base_from(opt_view(explicit_dir), opt_view(fallback_parent), opt_view(home), opt_view(cwd)),
{
    if let Some(dir) = explicit_dir {
        return expand_path(dir, home, cwd);
    }
    if let Some(p) = fallback_parent {
        if !p.is_empty() {
            return p.to_owned();
        }
    }
    match cwd {
        Some(c) => c.to_owned(),
        None => {
            let dot = ".";
            proof {
                reveal_strlit(".");
            }
            dot.to_owned()
        },
    }
}

/// The base directory of a run (see [`resolved_base`]).
pub fn resolve_base(
    explicit_dir: Option<&str>,
    fallback_file: Option<&str>,
    home: Option<&str>,
    cwd: Option<&str>,
) -> (r: String)
    ensures
        r@ == resolved_base(opt_view(explicit_dir), opt_view(fallback_file), opt_view(home), opt_view(cwd)),
{
    let fallback_parent = match (explicit_dir, fallback_file) {
        (None, Some(file)) => parent(file),
        _ => None,
    };
    match fallback_parent {
        Some(p) => base_dir_from(explicit_dir, Some(p.as_str()), home, cwd),
        None => base_dir_from(explicit_dir, None, home, cwd),
    }
}

/// A source path made absolute: kept when absolute, else taken relative to
/// the working directory (`.` when that is unknown).
pub open spec fn absolute_path(source: Seq<char>, cwd: Option<Seq<char>>) -> Seq<char> {
    if is_absolute(source) {
        source
    } else {
        join_path(
            match cwd {
                Some(c) => c,
                None => seq!['.'],
            },
            source,
        )
    }
}

/// A source path made absolute (see [`absolute_path`]).
pub fn resolve_source(source: &str, cwd: Option<&str>) -> (r: String)
    ensures
        r@ == absolute_path(source@, opt_view(cwd)),
{
    let s = chars_of(source);
    if s.len() > 0 && s[0] == '/' {
        return source.to_owned();
    }
    match cwd {
        Some(c) => join(c, source),
        None => {
            let dot = ".";
            proof {
                reveal_strlit(".");
            }
            join(dot, source)
        },
    }
}

/// The cache file of source hashes for a base directory.
pub fn cache_file_path(base_dir: &str) -> (r: String)
    ensures
        r@ == join_path(join_path(base_dir@, TEMP_DIR@), CACHE_FILENAME@),
{
    let t = join(base_dir, TEMP_DIR);
    join(t.as_str(), CACHE_FILENAME)
}

} // verus!
