//! Paths as the fonts are keyed by, and the checks on the font root that
//! the user gives.
use vstd::prelude::*;

verus! {

/// Whether `camino::Utf8Path::is_absolute` holds of the path `path` (on the
/// platform the library is built for).
pub uninterp spec fn path_is_absolute(path: Seq<char>) -> bool;

/// `camino::Utf8Path::is_absolute`. Claimed: the answer is
/// `path_is_absolute` of the path's text.
#[verifier::external_body]
fn is_absolute_path(path: &str) -> (r: bool)
    ensures
        r == path_is_absolute(path@),
{
    camino::Utf8Path::new(path).is_absolute()
}

/// The text of a font file's canonical path, as canonicalization gives it
/// (`Utf8Path::canonicalize_utf8`: absolute, with symbolic links and `.` and
/// `..` resolved), so that one physical file has one such path. Resolving a
/// path reads the disk, which the caller does; of the text, only that it is
/// absolute is checked here.
pub struct CanonicalPath {
    text: String,
}

impl View for CanonicalPath {
    type V = Seq<char>;

    closed spec fn view(&self) -> Seq<char> {
        self.text@
    }
}

/// The texts of a sequence of canonical paths.
pub open spec fn path_views(v: Seq<CanonicalPath>) -> Seq<Seq<char>> {
    v.map_values(|c: CanonicalPath| c@)
}

impl CanonicalPath {
    /// Takes the text of a canonicalized path; `None` when it is not
    /// absolute, which a canonical path always is.
    pub fn new(resolved: String) -> (r: Option<CanonicalPath>)
        ensures
            r is Some <==> path_is_absolute(resolved@),
            r matches Some(c) ==> c@ == resolved@,
    {
        if is_absolute_path(resolved.as_str()) {
            Some(CanonicalPath { text: resolved })
        } else {
            None
        }
    }

    /// The path's text.
    pub fn as_str(&self) -> (r: &str)
        ensures
            r@ == self@,
    {
        self.text.as_str()
    }

    /// A copy of the path.
    pub fn duplicate(&self) -> (r: CanonicalPath)
        ensures
            r@ == self@,
    {
        CanonicalPath { text: self.text.clone() }
    }
}

/// Why a font root is refused.
#[derive(Debug, Clone, Copy, PartialEq, Eq)]
pub enum FontRootError {
    /// No path was given.
    Empty,
    /// The path is not absolute.
    NotAbsolute,
    /// The path does not name a directory.
    NotADirectory,
}

/// The check on the text of a font root: it must not be empty, and it must
/// be absolute.
pub fn check_font_root_text(root: &str) -> (r: Result<(), FontRootError>)
    ensures
        root@.len() == 0 ==> r == Err::<(), FontRootError>(FontRootError::Empty),
        root@.len() > 0 && !path_is_absolute(root@) ==> r == Err::<(), FontRootError>(
            FontRootError::NotAbsolute,
        ),
        root@.len() > 0 && path_is_absolute(root@) ==> r is Ok,
{
    if root.is_empty() {
        Err(FontRootError::Empty)
    } else if !is_absolute_path(root) {
        Err(FontRootError::NotAbsolute)
    } else {
        Ok(())
    }
}

/// The check on what the font root names once resolved: a directory.
pub fn check_font_root_kind(is_dir: bool) -> (r: Result<(), FontRootError>)
    ensures
        r is Ok <==> is_dir,
        !is_dir ==> r == Err::<(), FontRootError>(FontRootError::NotADirectory),
{
    if is_dir {
        Ok(())
    } else {
        Err(FontRootError::NotADirectory)
    }
}

} // verus!
