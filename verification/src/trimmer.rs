//! Source paths relative to the directory in which a project is assembled.

use vstd::prelude::*;
use vstd::string::*;

verus! {

/// A path in the file system, by its components.
pub struct FsPath {
    pub is_absolute: bool,
    pub components: Vec<String>,
}

/// The contents of a [`FsPath`].
pub ghost struct PathModel {
    pub is_absolute: bool,
    pub components: Seq<Seq<char>>,
}

impl FsPath {
    pub open spec fn view(&self) -> PathModel {
        PathModel { is_absolute: self.is_absolute, components: texts(self.components@) }
    }
}

pub open spec fn texts(components: Seq<String>) -> Seq<Seq<char>> {
    Seq::new(components.len(), |i: int| components[i]@)
}

/// A path below another: absolute paths are not below anything but themselves.
pub open spec fn joined_path(base: PathModel, path: PathModel) -> PathModel {
    if path.is_absolute {
        path
    } else {
        PathModel {
            is_absolute: base.is_absolute,
            components: base.components + path.components,
        }
    }
}

/// What is left of `path` behind `base`, if it lies there.
pub open spec fn below(base: PathModel, path: PathModel) -> Option<Seq<Seq<char>>> {
    let n = base.components.len() as int;
    if base.is_absolute == path.is_absolute && n <= path.components.len() && path.components.take(n)
        == base.components {
        Some(path.components.skip(n))
    } else {
        None
    }
}

pub(crate) fn copy_components(components: &Vec<String>, from: usize, out: &mut Vec<String>)
    requires
        from <= components@.len(),
    ensures
        texts(final(out)@) == texts(old(out)@) + texts(components@).skip(from as int),
{
    let ghost before = texts(out@);
    let ghost all = texts(components@);
    let mut i: usize = from;
    assert(texts(out@) =~= before + all.subrange(from as int, i as int));
    while i < components.len()
        invariant
            from <= i <= components@.len(),
            all == texts(components@),
            texts(out@) == before + all.subrange(from as int, i as int),
        decreases components@.len() - i,
    {
        let ghost now = texts(out@);
        out.push(components[i].clone());
        assert(texts(out@) =~= now.push(all[i as int]));
        assert(texts(out@) =~= before + all.subrange(from as int, i + 1));
        i += 1;
    }
    assert(all.subrange(from as int, i as int) =~= all.skip(from as int));
}

fn copy_path(path: &FsPath) -> (copy: FsPath)
    ensures
        copy@ == path@,
{
    let mut components: Vec<String> = Vec::new();
    copy_components(&path.components, 0, &mut components);
    let copy = FsPath { is_absolute: path.is_absolute, components };
    assert(copy@.components =~= path@.components);
    copy
}

fn same_path(a: &FsPath, b: &FsPath) -> (res: bool)
    ensures
        res == (a@ == b@),
{
    if a.is_absolute != b.is_absolute {
        return false;
    }
    if a.components.len() != b.components.len() {
        assert(a@.components.len() != b@.components.len());
        return false;
    }
    let mut i: usize = 0;
    while i < a.components.len()
        invariant
            i <= a.components@.len() == b.components@.len(),
            forall|k: int| 0 <= k < i ==> #[trigger] a@.components[k] == b@.components[k],
        decreases a.components@.len() - i,
    {
        if a.components[i] != b.components[i] {
            assert(a@.components[i as int] != b@.components[i as int]);
            return false;
        }
        assert(a@.components[i as int] == b@.components[i as int]);
        i += 1;
    }
    assert(a@.components =~= b@.components);
    true
}

/// Trims the working directory off source paths.
///
/// Looking a path up in the file system is left to the caller: it hands in what it found.
pub struct SourcePathTrimmer {
    pub cwd: FsPath,
}

impl SourcePathTrimmer {
    /// A trimmer for a working directory, which is known by its canonical path if it has one.
    pub fn new(cwd: FsPath, canonical: Option<FsPath>) -> (trimmer: SourcePathTrimmer)
        ensures
            trimmer.cwd@ == (match canonical {
                Some(c) => c@,
                None => cwd@,
            }),
    {
        match canonical {
            Some(c) => SourcePathTrimmer { cwd: c },
            None => SourcePathTrimmer { cwd },
        }
    }

    /// The path to look up: relative paths start in the working directory.
    pub fn absolute_path(&self, path: &FsPath) -> (absolute: FsPath)
        ensures
            absolute@ == joined_path(self.cwd@, path@),
    {
        if path.is_absolute {
            copy_path(path)
        } else {
            let mut components: Vec<String> = Vec::new();
            copy_components(&self.cwd.components, 0, &mut components);
            copy_components(&path.components, 0, &mut components);
            let absolute = FsPath { is_absolute: self.cwd.is_absolute, components };
            assert(absolute@.components =~= self.cwd@.components + path@.components);
            absolute
        }
    }

    /// Trims a path whose canonical form is `canonical`, if it has one. A path outside of the
    /// working directory stays as it is.
    pub fn trim_path(&self, path: &FsPath, canonical: Option<FsPath>) -> (trimmed: FsPath)
        ensures
            ({
                let looked_up = match canonical {
                    Some(c) => c@,
                    None => joined_path(self.cwd@, path@),
                };
                trimmed@ == (match below(self.cwd@, looked_up) {
                    Some(rest) => PathModel { is_absolute: false, components: rest },
                    None => path@,
                })
            }),
    {
        let looked_up = match canonical {
            Some(c) => c,
            None => self.absolute_path(path),
        };
        let n: usize = self.cwd.components.len();
        let ghost base = self.cwd@;
        let ghost full = looked_up@;
        if self.cwd.is_absolute != looked_up.is_absolute || n > looked_up.components.len() {
            return copy_path(path);
        }
        let mut i: usize = 0;
        while i < n
            invariant
                i <= n == self.cwd.components@.len(),
                n <= looked_up.components@.len(),
                base == self.cwd@,
                full == looked_up@,
                full == (match canonical {
                    Some(c) => c@,
                    None => joined_path(self.cwd@, path@),
                }),
                forall|k: int| 0 <= k < i ==> base.components[k] == full.components[k],
            decreases n - i,
        {
            if self.cwd.components[i] != looked_up.components[i] {
                assert(base.components[i as int] != full.components[i as int]);
                assert(full.components.take(n as int)[i as int] == full.components[i as int]);
                return copy_path(path);
            }
            i += 1;
        }
        assert(full.components.take(n as int) =~= base.components);
        let mut components: Vec<String> = Vec::new();
        copy_components(&looked_up.components, n, &mut components);
        let trimmed = FsPath { is_absolute: false, components };
        assert(trimmed@.components =~= full.components.skip(n as int));
        trimmed
    }

    /// What the path of a location is trimmed to, if that is another one. Locations that are not in
    /// the file system stay as they are.
    pub fn trim_uri(&self, scheme: Option<String>, path: &FsPath, canonical: Option<FsPath>) -> (
    trimmed: Option<FsPath>)
        ensures
            ({
                let looked_up = match canonical {
                    Some(c) => c@,
                    None => joined_path(self.cwd@, path@),
                };
                let is_file = match scheme {
                    None => true,
                    Some(s) => s@ == "file"@,
                };
                let shorter = match below(self.cwd@, looked_up) {
                    Some(rest) => PathModel { is_absolute: false, components: rest },
                    None => path@,
                };
                match trimmed {
                    Some(trimmed) => is_file && shorter != path@ && trimmed@ == shorter,
                    None => !is_file || shorter == path@,
                }
            }),
    {
        if !SourcePathTrimmer::is_filesystem_scheme(scheme) {
            return None;
        }
        let trimmed = self.trim_path(path, canonical);
        if same_path(&trimmed, path) {
            None
        } else {
            Some(trimmed)
        }
    }

    /// Whether a location is a path in the file system: it has no scheme, or the scheme of files.
    pub fn is_filesystem_scheme(scheme: Option<String>) -> (res: bool)
        ensures
            res == (match scheme {
                None => true,
                Some(s) => s@ == "file"@,
            }),
    {
        match scheme {
            None => true,
            Some(s) => s == String::from_str("file"),
        }
    }
}

/// Joining a relative path to the working directory and trimming it gives the path back.
pub proof fn law_trim_joined(cwd: PathModel, path: PathModel)
    requires
        !path.is_absolute,
    ensures
        below(cwd, joined_path(cwd, path)) == Some(path.components),
{
    let full = joined_path(cwd, path);
    let n = cwd.components.len() as int;
    assert(full.components.take(n) =~= cwd.components);
    assert(full.components.skip(n) =~= path.components);
}

/// What is trimmed is found again: what is left of a path below a directory, joined to the
/// directory, is the path. A path that is not below the directory does not start with it.
pub proof fn law_trimmed_paths_are_found_again(cwd: PathModel, path: PathModel)
    ensures
        match below(cwd, path) {
            Some(rest) => joined_path(cwd, PathModel { is_absolute: false, components: rest })
                == path,
            None => cwd.is_absolute != path.is_absolute || cwd.components.len()
                > path.components.len() || exists|i: int|
                0 <= i < cwd.components.len() && cwd.components[i] != #[trigger] path.components[i],
        },
{
    let n = cwd.components.len() as int;
    if let Some(rest) = below(cwd, path) {
        assert(cwd.components + rest =~= path.components);
    } else if cwd.is_absolute == path.is_absolute && n <= path.components.len() {
        if forall|i: int|
            0 <= i < n ==> cwd.components[i] == #[trigger] path.components[i] {
            assert(path.components.take(n) =~= cwd.components);
        }
    }
}

} // verus!
