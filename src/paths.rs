//! Source paths of the file entries of line-number programs.
use vstd::prelude::*;
use normalize_path::NormalizePath;
use crate::vlq::push_char;

verus! {

/// A file entry of a line-number program, with its strings resolved.
#[derive(Debug, Clone, PartialEq, Eq)]
pub struct FileEntry {
    /// The compilation directory of the unit, if it declares one.
    pub comp_dir: Option<String>,
    /// The directory the file entry declares, if any.
    pub directory: Option<String>,
    /// The file name the entry declares.
    pub name: String,
}

/// Whether a path is absolute: it starts with a separator.
pub open spec fn is_absolute(p: Seq<char>) -> bool {
    p.len() > 0 && (p[0] == '/' || p[0] == '\\')
}

/// `rest` read relative to `base`: an absolute `rest` stands alone, else
/// the two are joined by one separator.
pub open spec fn joined(base: Seq<char>, rest: Seq<char>) -> Seq<char> {
    if is_absolute(rest) || base.len() == 0 {
        rest
    } else if base.last() == '/' || base.last() == '\\' {
        base + rest
    } else {
        base + seq!['/'] + rest
    }
}

/// The path of a file entry: its name under its directory, under the
/// compilation directory where the result is still relative.
pub open spec fn entry_path(e: FileEntry) -> Seq<char> {
    let p = match e.directory {
        Some(d) => joined(d@, e.name@),
        None => e.name@,
    };
    match e.comp_dir {
        Some(c) => joined(c@, p),
        None => p,
    }
}

/// A path with every backslash turned into a forward slash.
pub open spec fn forward_slashes(p: Seq<char>) -> Seq<char> {
    p.map_values(|c: char| if c == '\\' { '/' } else { c })
}

/// The lexically normalized form of a path: `.` components dropped, each
/// `..` removing the component before it, repeated separators collapsed.
pub uninterp spec fn normalized_path(p: Seq<char>) -> Seq<char>;

/// Relies on `normalize_path::NormalizePath::normalize`, which rebuilds the
/// path from the components of the input alone, without I/O.
#[verifier::external_body]
fn normalize(p: &str) -> (r: String)
    ensures
        r@ == normalized_path(p@),
{
    std::path::Path::new(p).normalize().to_string_lossy().into_owned()
}

fn join(base: &str, rest: &str) -> (r: String)
    ensures
        r@ == joined(base@, rest@),
{
    let rest_len = rest.unicode_len();
    if rest_len > 0 {
        let c = rest.get_char(0);
        if c == '/' || c == '\\' {
            return String::from_str(rest);
        }
    }
    let n = base.unicode_len();
    if n == 0 {
        return String::from_str(rest);
    }
    let mut out = String::from_str(base);
    let last = base.get_char(n - 1);
    if last != '/' && last != '\\' {
        push_char(&mut out, '/');
    }
    out.append(rest);
    out
}

fn with_forward_slashes(p: &str) -> (r: String)
    ensures
        r@ == forward_slashes(p@),
{
    let mut out = String::new();
    for c in it: p.chars()
        invariant
            it.seq() == p@,
            out@ == forward_slashes(p@.take(it.index() as int)),
    {
        let ghost i = it.index() as int;
        push_char(&mut out, if c == '\\' { '/' } else { c });
        assert(forward_slashes(p@.take(i + 1)) =~= forward_slashes(p@.take(i)) + seq![
            if c == '\\' { '/' } else { c },
        ]);
    }
    assert(p@.take(p@.len() as int) =~= p@);
    out
}

/// The normalized, forward-slash source path of a file entry.
pub fn source_path(e: &FileEntry) -> (r: String)
    ensures
        r@ == forward_slashes(normalized_path(entry_path(*e))),
{
    let p = match &e.directory {
        Some(d) => join(d.as_str(), e.name.as_str()),
        None => e.name.clone(),
    };
    let full = match &e.comp_dir {
        Some(c) => join(c.as_str(), p.as_str()),
        None => p,
    };
    let n = normalize(full.as_str());
    with_forward_slashes(n.as_str())
}

} // verus!
