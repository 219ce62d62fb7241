//! Naming of scratch directories: `<base>/<prefix>/<prefix>_<suffix>`, with
//! a random suffix of ASCII letters and digits.

use vstd::prelude::*;

use crate::path::{chars_of, AbsPath, PathModel};

verus! {

/// How many random characters end a scratch directory's name.
pub const SUFFIX_LENGTH: usize = 10;

pub open spec fn is_ascii_alphanumeric(c: char) -> bool {
    ('a' <= c && c <= 'z') || ('A' <= c && c <= 'Z') || ('0' <= c && c <= '9')
}

/// A suffix that a scratch directory's name may end with.
pub open spec fn is_suffix(s: Seq<char>) -> bool {
    s.len() == SUFFIX_LENGTH && forall|i: int| 0 <= i < s.len() ==> is_ascii_alphanumeric(#[trigger] s[i])
}

/// Where the scratch directory with this prefix and suffix lives.
pub open spec fn temp_path(base: PathModel, prefix: Seq<char>, suffix: Seq<char>) -> PathModel {
    base.push(prefix).push(prefix + seq!['_'] + suffix)
}

/// Relies on rand's `Alphanumeric` distribution, sampled through
/// `thread_rng`: it gives a byte of `A-Z`, `a-z` or `0-9`.
#[verifier::external_body]
fn random_alphanumeric() -> (c: char)
    ensures
        is_ascii_alphanumeric(c),
{
    rand::Rng::sample(&mut rand::thread_rng(), rand::distributions::Alphanumeric) as char
}

/// A scratch directory's path. Its owner removes the directory when done.
#[derive(Debug)]
pub struct FakeTempDir {
    path: AbsPath,
}

impl FakeTempDir {
    pub closed spec fn path_view(&self) -> PathModel {
        self.path@
    }

    /// The scratch directory under `base` named by `prefix` and `suffix`.
    pub fn with_suffix(base: &AbsPath, prefix: &str, suffix: &Vec<char>) -> (r: FakeTempDir)
        ensures
            r.path_view() == temp_path(base@, prefix@, suffix@),
    {
        let p = chars_of(prefix);
        let mut name = chars_of(prefix);
        name.push('_');
        let mut i: usize = 0;
        let ghost start = name@;
        while i < suffix.len()
            invariant
                start == prefix@ + seq!['_'],
                0 <= i <= suffix@.len(),
                name@ == start + suffix@.subrange(0, i as int),
            decreases suffix@.len() - i,
        {
            name.push(suffix[i]);
            i = i + 1;
            assert(name@ =~= start + suffix@.subrange(0, i as int));
        }
        assert(suffix@.subrange(0, suffix@.len() as int) =~= suffix@);
        let path = base.child(&p).child(&name);
        FakeTempDir { path }
    }

    /// A scratch directory under `base` with a fresh random suffix.
    pub fn new(base: &AbsPath, prefix: &str) -> (r: FakeTempDir)
        ensures
            exists|s: Seq<char>| is_suffix(s) && r.path_view() == temp_path(base@, prefix@, s),
    {
        let mut suffix: Vec<char> = Vec::new();
        while suffix.len() < SUFFIX_LENGTH
            invariant
                suffix@.len() <= SUFFIX_LENGTH,
                forall|i: int| 0 <= i < suffix@.len() ==> is_ascii_alphanumeric(#[trigger] suffix@[i]),
            decreases SUFFIX_LENGTH - suffix@.len(),
        {
            suffix.push(random_alphanumeric());
        }
        let r = FakeTempDir::with_suffix(base, prefix, &suffix);
        assert(is_suffix(suffix@));
        r
    }

    /// The scratch directory that was made at `path`.
    pub(crate) fn made_at(path: AbsPath) -> (r: FakeTempDir)
        ensures
            r.path_view() == path@,
    {
        FakeTempDir { path }
    }

    pub fn path(&self) -> (r: &AbsPath)
        ensures
            r@ == self.path_view(),
    {
        &self.path
    }
}

} // verus!
