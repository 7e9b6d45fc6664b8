use vstd::prelude::*;
use vstd::string::*;

verus! {

broadcast use vstd::string::group_string_axioms;

/// The last component of the path `path` as `Path::file_name` gives it on
/// the platform the library is built for, when there is one.
pub uninterp spec fn path_file_name(path: Seq<char>) -> Option<Seq<char>>;

/// `Path::file_name` on `path`, as text. The contract claims only that the
/// result is a function of the path's text (`path_file_name`).
#[verifier::external_body]
fn file_name_of(path: &str) -> (r: Option<String>)
    ensures
        match r {
            Some(s) => path_file_name(path@) == Some(s@),
            None => path_file_name(path@) is None,
        },
{
    std::path::Path::new(path).file_name().map(|s| s.to_string_lossy().into_owned())
}

/// The part of `path` after the leading components that make up `root`, as
/// `Path::strip_prefix` gives it on the platform the library is built for;
/// `None` when `root` does not start `path`.
pub uninterp spec fn path_relative_to(path: Seq<char>, root: Seq<char>) -> Option<Seq<char>>;

/// `Path::strip_prefix` of `path` by `root`, as text. The contract claims
/// only that the result is a function of the two texts (`path_relative_to`).
#[verifier::external_body]
fn strip_path_prefix(path: &str, root: &str) -> (r: Option<String>)
    ensures
        match r {
            Some(s) => path_relative_to(path@, root@) == Some(s@),
            None => path_relative_to(path@, root@) is None,
        },
{
    std::path::Path::new(path).strip_prefix(root).ok().map(|p| p.display().to_string())
}

/// The extension of the path `path` (after the last `.` of its file name) as
/// `Path::extension` gives it, when there is one.
pub uninterp spec fn path_extension(path: Seq<char>) -> Option<Seq<char>>;

/// `Path::extension` on `path`, as text. The contract claims only that the
/// result is a function of the path's text (`path_extension`).
#[verifier::external_body]
pub(crate) fn extension_of(path: &str) -> (r: Option<String>)
    ensures
        match r {
            Some(s) => path_extension(path@) == Some(s@),
            None => path_extension(path@) is None,
        },
{
    std::path::Path::new(path).extension().map(|s| s.to_string_lossy().into_owned())
}

/// The file name shown for a path: its last component, or `?` when it has none.
pub open spec fn shown_file_name(path: Seq<char>) -> Seq<char> {
    match path_file_name(path) {
        Some(n) => n,
        None => "?"@,
    }
}

/// The file name of `p` for display (see `shown_file_name`).
pub fn file_name_utf8(p: &str) -> (r: String)
    ensures
        r@ == shown_file_name(p@),
{
    match file_name_of(p) {
        Some(n) => n,
        None => "?".to_owned(),
    }
}

/// The path shown for `path` found under `root`: relative to `root` when
/// `root` starts it, else the full path.
pub open spec fn shown_path(root: Seq<char>, path: Seq<char>) -> Seq<char> {
    match path_relative_to(path, root) {
        Some(rel) => rel,
        None => path,
    }
}

/// `path` relative to `root` when `root` starts it, else `path` itself.
pub fn relative_or_full(root: &str, path: &str) -> (r: String)
    ensures
        r@ == shown_path(root@, path@),
{
    match strip_path_prefix(path, root) {
        Some(rel) => rel,
        None => path.to_owned(),
    }
}

/// The key under which a found file is remembered, so that a file reached
/// from two searched directories is taken once: its canonical form when the
/// file system gave one (`canonical`), else the path as found.
pub fn dedup_key(path: &str, canonical: Option<String>) -> (r: String)
    ensures
        r@ == match canonical {
            Some(c) => c@,
            None => path@,
        },
{
    match canonical {
        Some(c) => c,
        None => path.to_owned(),
    }
}

/// Whether the path `a` orders before the path `b`, as `Path`'s ordering
/// (component by component) decides it.
pub uninterp spec fn path_precedes(a: Seq<char>, b: Seq<char>) -> bool;

/// `Path`'s `<` on the two paths. The contract claims only that the answer is
/// a function of the two texts (`path_precedes`).
#[verifier::external_body]
fn path_less(a: &str, b: &str) -> (r: bool)
    ensures
        r == path_precedes(a@, b@),
{
    std::path::Path::new(a) < std::path::Path::new(b)
}

/// Whether the paths `a` and `b` are equal as `Path`'s equality (component
/// by component) decides it.
pub uninterp spec fn path_same(a: Seq<char>, b: Seq<char>) -> bool;

/// `Path`'s `==` on the two paths. The contract claims only that the answer
/// is a function of the two texts (`path_same`).
#[verifier::external_body]
fn path_eq(a: &str, b: &str) -> (r: bool)
    ensures
        r == path_same(a@, b@),
{
    std::path::Path::new(a) == std::path::Path::new(b)
}

/// The directories searched for drawings: the current directory and the
/// directory of the executable, each where it could be found, sorted by
/// `Path`'s ordering with a repeated directory taken once; `.` when neither
/// could be found.
pub open spec fn search_dirs(current: Option<Seq<char>>, exe_parent: Option<Seq<char>>) -> Seq<Seq<char>> {
    match (current, exe_parent) {
        (Some(a), Some(b)) => {
            let sorted = if path_precedes(b, a) { seq![b, a] } else { seq![a, b] };
            if path_same(sorted[1], sorted[0]) { seq![sorted[0]] } else { sorted }
        },
        (Some(a), None) => seq![a],
        (None, Some(b)) => seq![b],
        (None, None) => seq!["."@],
    }
}

/// The text of an optional string.
pub open spec fn opt_text(o: Option<String>) -> Option<Seq<char>> {
    match o {
        Some(s) => Some(s@),
        None => None,
    }
}

/// The directories to search (see `search_dirs`), given the current directory
/// and the directory of the executable where the system could tell them.
pub fn scan_search_dirs(current: Option<String>, exe_parent: Option<String>) -> (r: Vec<String>)
    ensures
        r@.map_values(|d: String| d@) == search_dirs(opt_text(current), opt_text(exe_parent)),
{
    let ghost cv = opt_text(current);
    let ghost ev = opt_text(exe_parent);
    let mut dirs: Vec<String> = Vec::new();
    match current {
        Some(a) => {
            match exe_parent {
                Some(b) => {
                    let (first, second) = if path_less(b.as_str(), a.as_str()) { (b, a) } else { (a, b) };
                    let same = path_eq(second.as_str(), first.as_str());
                    dirs.push(first);
                    if !same {
                        dirs.push(second);
                    }
                },
                None => dirs.push(a),
            }
        },
        None => {
            match exe_parent {
                Some(b) => dirs.push(b),
                None => dirs.push(".".to_owned()),
            }
        },
    }
    proof {
        reveal_strlit(".");
        assert(dirs@.map_values(|d: String| d@) =~= search_dirs(cv, ev));
    }
    dirs
}

} // verus!
