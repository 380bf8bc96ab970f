//! Where the result of a run is written.

use crate::chars;
use std::path::Path;
use vstd::prelude::*;
use vstd::string::StringExecFns;

verus! {

/// The part of the path behind its last slash.
pub open spec fn last_part(path: Seq<char>) -> Seq<char> {
    match chars::last_index_of(path, '/') {
        Some(at) => path.skip(at + 1),
        None => path,
    }
}

/// The part of the path before its last slash.
pub open spec fn directory(path: Seq<char>) -> Option<Seq<char>> {
    match chars::last_index_of(path, '/') {
        Some(at) => Some(path.take(at)),
        None => None,
    }
}

/// The name is that of a file wherever it stands: it is not empty, names no
/// directory by a dot or two, and has no separator of any platform in it.
pub open spec fn is_file_name(name: Seq<char>) -> bool {
    &&& name.len() > 0
    &&& name != seq!['.']
    &&& name != seq!['.', '.']
    &&& forall|i: int|
        0 <= i < name.len() ==> #[trigger] name[i] != '/' && name[i] != '\\' && name[i] != ':'
}

/// The directory is written part by part: every part is a name or the two
/// dots of the directory above, and the first may be the single dot of the
/// current one.
pub open spec fn is_plain_directory(path: Seq<char>) -> bool
    decreases path.len(),
{
    let part = last_part(path);
    match chars::last_index_of(path, '/') {
        Some(at) => (is_file_name(part) || part == seq!['.', '.']) && (at == 0 || (0 < at
            < path.len() && is_plain_directory(path.take(at)))),
        None => is_file_name(part) || part == seq!['.', '.'] || part == seq!['.'],
    }
}

/// The path is a file name, or one behind the root or a plain directory.
pub open spec fn is_tidy(path: Seq<char>) -> bool {
    is_file_name(last_part(path)) && match chars::last_index_of(path, '/') {
        Some(at) => at == 0 || is_plain_directory(path.take(at)),
        None => true,
    }
}

/// The file name up to its last dot, unless that is its first character.
pub open spec fn stem_of(name: Seq<char>) -> Seq<char> {
    match chars::last_index_of(name, '.') {
        Some(at) => if at > 0 {
            name.take(at)
        } else {
            name
        },
        None => name,
    }
}

/// What follows the last dot of the file name, unless that is its first
/// character.
pub open spec fn extension_of(name: Seq<char>) -> Option<Seq<char>> {
    match chars::last_index_of(name, '.') {
        Some(at) => if at > 0 {
            Some(name.skip(at + 1))
        } else {
            None
        },
        None => None,
    }
}

/// `Path::file_stem`: of a tidy path, its file name up to the last dot. What
/// it gives for other paths depends on the platform and is left unsaid.
#[verifier::external_body]
fn file_stem(path: &str) -> (r: Option<String>)
    ensures
        is_tidy(path@) ==> match r {
            Some(stem) => stem@ == stem_of(last_part(path@)),
            None => false,
        },
{
    Path::new(path).file_stem().map(|s| s.to_string_lossy().into_owned())
}

/// `Path::extension`: of a tidy path, what follows the last dot of its file
/// name. What it gives for other paths depends on the platform and is left
/// unsaid.
#[verifier::external_body]
fn extension(path: &str) -> (r: Option<String>)
    ensures
        is_tidy(path@) ==> match r {
            Some(ext) => extension_of(last_part(path@)) == Some(ext@),
            None => extension_of(last_part(path@)) is None,
        },
{
    Path::new(path).extension().map(|s| s.to_string_lossy().into_owned())
}

/// `Path::with_file_name`: a tidy path keeps its directory, behind which the
/// separator of the platform and the new name stand. What it gives for other
/// paths and names depends on the platform and is left unsaid.
#[verifier::external_body]
fn with_file_name(path: &str, name: &str) -> (r: String)
    ensures
        is_tidy(path@) && is_file_name(name@) ==> is_renamed(path@, name@, r@),
{
    Path::new(path).with_file_name(name).to_string_lossy().into_owned()
}

/// `r` is `path` with another file name: in the same directory, behind the
/// separator of some platform.
pub open spec fn is_renamed(path: Seq<char>, name: Seq<char>, r: Seq<char>) -> bool {
    match directory(path) {
        None => r == name,
        Some(dir) => r == dir + seq!['/'] + name || r == dir + seq!['\\'] + name,
    }
}

/// The file name for a suffix.
pub open spec fn suffixed(
    stem: Option<Seq<char>>,
    extension: Option<Seq<char>>,
    suffix: Seq<char>,
) -> Seq<char> {
    let base = match stem {
        Some(s) => s,
        None => Seq::empty(),
    } + "-"@ + suffix;
    match extension {
        Some(ext) => base + "."@ + ext,
        None => base,
    }
}

/// `name.json` with suffix `10m` becomes `name-10m.json`, for the stem and
/// the extension of a file name.
pub fn suffixed_name(stem: Option<&str>, extension: Option<&str>, suffix: &str) -> (r: String)
    ensures
        r@ == suffixed(
            match stem {
                Some(s) => Some(s@),
                None => None,
            },
            match extension {
                Some(e) => Some(e@),
                None => None,
            },
            suffix@,
        ),
{
    let mut out = match stem {
        Some(s) => String::from_str(s),
        None => String::new(),
    };
    proof {
        if stem is None {
            assert(out@ =~= Seq::empty());
        }
    }
    out.append("-");
    out.append(suffix);
    match extension {
        Some(e) => {
            out.append(".");
            out.append(e);
        },
        None => {},
    }
    out
}

/// Runs with different suffixes get file names of their own.
pub proof fn law_suffixes_keep_file_names_apart(
    stem: Option<Seq<char>>,
    extension: Option<Seq<char>>,
    a: Seq<char>,
    b: Seq<char>,
)
    requires
        suffixed(stem, extension, a) == suffixed(stem, extension, b),
    ensures
        a == b,
{
    let base = match stem {
        Some(s) => s,
        None => Seq::empty(),
    } + "-"@;
    let n = base.len() as int;
    let x = suffixed(stem, extension, a);
    let y = suffixed(stem, extension, b);
    match extension {
        Some(ext) => {
            assert(x.len() == n + a.len() + "."@.len() + ext.len());
            assert(y.len() == n + b.len() + "."@.len() + ext.len());
        },
        None => {
            assert(x.len() == n + a.len());
            assert(y.len() == n + b.len());
        },
    }
    assert(x.subrange(n, n + a.len()) =~= a);
    assert(y.subrange(n, n + b.len()) =~= b);
}

/// `dir/name.json` with suffix `10m` becomes `dir/name-10m.json`.
pub fn with_suffix(path: &str, suffix: &str) -> (r: String)
    ensures
        is_tidy(path@) && is_file_name(
            suffixed(
                Some(stem_of(last_part(path@))),
                extension_of(last_part(path@)),
                suffix@,
            ),
        ) ==> is_renamed(
            path@,
            suffixed(
                Some(stem_of(last_part(path@))),
                extension_of(last_part(path@)),
                suffix@,
            ),
            r@,
        ),
{
    let stem = file_stem(path);
    let ext = extension(path);
    let name = suffixed_name(
        match &stem {
            Some(s) => Some(s.as_str()),
            None => None,
        },
        match &ext {
            Some(e) => Some(e.as_str()),
            None => None,
        },
        suffix,
    );
    with_file_name(path, name.as_str())
}

/// The directory that a file stands in, given the parent of its path: the
/// current one when that is empty.
pub fn output_directory(parent: Option<&str>) -> (r: String)
    ensures
        r@ == match parent {
            Some(p) => if p@.len() > 0 {
                p@
            } else {
                "."@
            },
            None => "."@,
        },
{
    match parent {
        Some(p) => if p.unicode_len() > 0 {
            String::from_str(p)
        } else {
            String::from_str(".")
        },
        None => String::from_str("."),
    }
}

/// Fails early when the result could not be written after the run: the
/// directory has to exist, and the path must not be one.
pub fn check_writable(
    path: &str,
    directory: &str,
    directory_exists: bool,
    path_is_directory: bool,
) -> (r: Result<(), String>)
    ensures
        match r {
            Ok(()) => directory_exists && !path_is_directory,
            Err(why) => if !directory_exists {
                why@ == "output directory "@ + directory@ + " does not exist"@
            } else {
                path_is_directory && why@ == "output path "@ + path@ + " is a directory"@
            },
        },
{
    if !directory_exists {
        let mut why = String::from_str("output directory ");
        why.append(directory);
        why.append(" does not exist");
        return Err(why);
    }
    if path_is_directory {
        let mut why = String::from_str("output path ");
        why.append(path);
        why.append(" is a directory");
        return Err(why);
    }
    Ok(())
}

} // verus!
