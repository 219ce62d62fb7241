use vstd::prelude::*;

verus! {

/// An absolute path as the sequence of its components; the root is empty.
pub type PathModel = Seq<Seq<char>>;

/// The state of a left-to-right scan over a path string: the components
/// completed so far and the one being read.
pub open spec fn scan(s: Seq<char>) -> (Seq<Seq<char>>, Seq<char>)
    decreases s.len(),
{
    if s.len() == 0 {
        (Seq::empty(), Seq::empty())
    } else {
        let (done, cur) = scan(s.drop_last());
        let c = s.last();
        if c == '/' {
            if cur.len() > 0 {
                (done.push(cur), Seq::empty())
            } else {
                (done, Seq::empty())
            }
        } else {
            (done, cur.push(c))
        }
    }
}

/// The non-empty pieces of `s` between `/` separators, in order.
pub open spec fn components(s: Seq<char>) -> Seq<Seq<char>> {
    let (done, cur) = scan(s);
    if cur.len() > 0 {
        done.push(cur)
    } else {
        done
    }
}

/// A path string is absolute when it starts at the root.
pub open spec fn is_absolute(s: Seq<char>) -> bool {
    s.len() > 0 && s[0] == '/'
}

/// `.` and `..`, which this file system does not interpret.
pub open spec fn is_special(c: Seq<char>) -> bool {
    c == seq!['.'] || c == seq!['.', '.']
}

pub open spec fn has_special(cs: Seq<Seq<char>>) -> bool {
    exists|i: int| 0 <= i < cs.len() && is_special(#[trigger] cs[i])
}

/// The path that a string names, seen from the directory `cwd`, or `None`
/// when it holds a `.` or `..` component.
pub open spec fn expand(cwd: PathModel, s: Seq<char>) -> Option<PathModel> {
    if has_special(components(s)) {
        None
    } else if is_absolute(s) {
        Some(components(s))
    } else {
        Some(cwd + components(s))
    }
}

/// `a` is `b` or lies below it.
pub open spec fn is_prefix(a: PathModel, b: PathModel) -> bool {
    a.len() <= b.len() && b.subrange(0, a.len() as int) == a
}

/// `b` lies strictly below `a`.
pub open spec fn is_strict_prefix(a: PathModel, b: PathModel) -> bool {
    a.len() < b.len() && b.subrange(0, a.len() as int) == a
}

/// The path text of an absolute path: `/` alone for the root.
pub open spec fn path_text(p: PathModel) -> Seq<char>
    decreases p.len(),
{
    if p.len() == 0 {
        seq!['/']
    } else if p.len() == 1 {
        seq!['/'] + p[0]
    } else {
        path_text(p.drop_last()) + seq!['/'] + p.last()
    }
}

pub open spec fn comps_view(v: Seq<Vec<char>>) -> Seq<Seq<char>> {
    v.map_values(|c: Vec<char>| c@)
}

proof fn lemma_comps_view_push(v: Seq<Vec<char>>, c: Vec<char>)
    ensures
        comps_view(v.push(c)) == comps_view(v).push(c@),
{
    assert(comps_view(v.push(c)) =~= comps_view(v).push(c@));
}

/// An absolute path, held as its components.
#[derive(Debug)]
pub struct AbsPath {
    pub comps: Vec<Vec<char>>,
}

impl View for AbsPath {
    type V = PathModel;

    open spec fn view(&self) -> PathModel {
        comps_view(self.comps@)
    }
}

/// Relies on `FromIterator<char>` for `String`: the string holds exactly
/// the given characters.
#[verifier::external_body]
pub(crate) fn string_from_chars(v: &Vec<char>) -> (r: String)
    ensures
        r@ == v@,
{
    v.iter().collect()
}

fn chars_eq(a: &Vec<char>, b: &Vec<char>) -> (r: bool)
    ensures
        r == (a@ == b@),
{
    if a.len() != b.len() {
        return false;
    }
    let mut i: usize = 0;
    while i < a.len()
        invariant
            a@.len() == b@.len(),
            0 <= i <= a@.len(),
            forall|j: int| 0 <= j < i ==> a@[j] == b@[j],
        decreases a@.len() - i,
    {
        if a[i] != b[i] {
            return false;
        }
        i = i + 1;
    }
    assert(a@ =~= b@);
    true
}

fn clone_chars(a: &Vec<char>) -> (r: Vec<char>)
    ensures
        r@ == a@,
{
    let mut r: Vec<char> = Vec::new();
    let mut i: usize = 0;
    while i < a.len()
        invariant
            0 <= i <= a@.len(),
            r@ == a@.subrange(0, i as int),
        decreases a@.len() - i,
    {
        r.push(a[i]);
        i = i + 1;
    }
    assert(r@ =~= a@);
    r
}

impl AbsPath {
    /// The root directory `/`.
    pub fn root() -> (r: AbsPath)
        ensures
            r@ == Seq::<Seq<char>>::empty(),
    {
        let r = AbsPath { comps: Vec::new() };
        assert(r@ =~= Seq::<Seq<char>>::empty());
        r
    }

    pub fn len(&self) -> (r: usize)
        ensures
            r == self@.len(),
    {
        self.comps.len()
    }

    /// A copy of this path.
    pub fn copy(&self) -> (r: AbsPath)
        ensures
            r@ == self@,
    {
        let mut comps: Vec<Vec<char>> = Vec::new();
        let mut i: usize = 0;
        while i < self.comps.len()
            invariant
                0 <= i <= self@.len(),
                comps_view(comps@) == self@.subrange(0, i as int),
            decreases self@.len() - i,
        {
            let c = clone_chars(&self.comps[i]);
            assert(self@[i as int] == self.comps@[i as int]@);
            proof { lemma_comps_view_push(comps@, c); }
            comps.push(c);
            i = i + 1;
            assert(comps_view(comps@) =~= self@.subrange(0, i as int));
        }
        assert(self@.subrange(0, self@.len() as int) =~= self@);
        AbsPath { comps }
    }

    /// Whether two paths name the same place.
    pub fn same(&self, other: &AbsPath) -> (r: bool)
        ensures
            r == (self@ == other@),
    {
        if self.comps.len() != other.comps.len() {
            return false;
        }
        let mut i: usize = 0;
        while i < self.comps.len()
            invariant
                self@.len() == other@.len(),
                0 <= i <= self@.len(),
                forall|j: int| 0 <= j < i ==> self@[j] == other@[j],
            decreases self@.len() - i,
        {
            assert(self@[i as int] == self.comps@[i as int]@);
            assert(other@[i as int] == other.comps@[i as int]@);
            if !chars_eq(&self.comps[i], &other.comps[i]) {
                return false;
            }
            i = i + 1;
        }
        assert(self@ =~= other@);
        true
    }

    /// Whether `self` is `other` or one of its ancestors.
    pub fn is_prefix_of(&self, other: &AbsPath) -> (r: bool)
        ensures
            r == is_prefix(self@, other@),
    {
        if self.comps.len() > other.comps.len() {
            return false;
        }
        let mut i: usize = 0;
        while i < self.comps.len()
            invariant
                self@.len() <= other@.len(),
                0 <= i <= self@.len(),
                forall|j: int| 0 <= j < i ==> self@[j] == other@[j],
            decreases self@.len() - i,
        {
            assert(self@[i as int] == self.comps@[i as int]@);
            assert(other@[i as int] == other.comps@[i as int]@);
            if !chars_eq(&self.comps[i], &other.comps[i]) {
                assert(other@.subrange(0, self@.len() as int)[i as int] != self@[i as int]);
                return false;
            }
            i = i + 1;
        }
        assert(other@.subrange(0, self@.len() as int) =~= self@);
        true
    }

    /// This path with one more component at its end.
    pub fn child(&self, name: &Vec<char>) -> (r: AbsPath)
        ensures
            r@ == self@.push(name@),
    {
        let mut r = self.copy();
        let c = clone_chars(name);
        proof { lemma_comps_view_push(r.comps@, c); }
        r.comps.push(c);
        assert(r@ =~= self@.push(name@));
        r
    }

    /// The directory holding this path; the root has none.
    pub fn parent(&self) -> (r: Option<AbsPath>)
        ensures
            self@.len() == 0 ==> r is None,
            self@.len() > 0 ==> r is Some && r->0@ == self@.drop_last(),
    {
        if self.comps.len() == 0 {
            return None;
        }
        let mut comps: Vec<Vec<char>> = Vec::new();
        let mut i: usize = 0;
        let n = self.comps.len() - 1;
        while i < n
            invariant
                n == self@.len() - 1,
                0 <= i <= n,
                comps_view(comps@) == self@.subrange(0, i as int),
            decreases n - i,
        {
            assert(self@[i as int] == self.comps@[i as int]@);
            let c = clone_chars(&self.comps[i]);
            proof { lemma_comps_view_push(comps@, c); }
            comps.push(c);
            i = i + 1;
            assert(comps_view(comps@) =~= self@.subrange(0, i as int));
        }
        Some(AbsPath { comps })
    }

    /// `base` followed by the components of this path past its first `skip`.
    pub fn rebase(&self, skip: usize, base: &AbsPath) -> (r: AbsPath)
        requires
            skip <= self@.len(),
        ensures
            r@ == base@ + self@.skip(skip as int),
    {
        let mut r = base.copy();
        let mut i: usize = skip;
        while i < self.comps.len()
            invariant
                skip <= i <= self@.len(),
                r@ == base@ + self@.subrange(skip as int, i as int),
            decreases self@.len() - i,
        {
            assert(self@[i as int] == self.comps@[i as int]@);
            let c = clone_chars(&self.comps[i]);
            proof { lemma_comps_view_push(r.comps@, c); }
            r.comps.push(c);
            i = i + 1;
            assert(r@ =~= base@ + self@.subrange(skip as int, i as int));
        }
        assert(self@.subrange(skip as int, self@.len() as int) =~= self@.skip(skip as int));
        r
    }

    /// The text of this path: `/` for the root, else `/` before each component.
    pub fn to_path_string(&self) -> (r: String)
        ensures
            r@ == path_text(self@),
    {
        let mut text: Vec<char> = Vec::new();
        text.push('/');
        let mut i: usize = 0;
        while i < self.comps.len()
            invariant
                0 <= i <= self@.len(),
                text@ == path_text(self@.subrange(0, i as int)),
            decreases self@.len() - i,
        {
            if i > 0 {
                text.push('/');
            }
            let c = &self.comps[i];
            assert(self@[i as int] == c@);
            let mut j: usize = 0;
            let ghost start = text@;
            while j < c.len()
                invariant
                    0 <= j <= c@.len(),
                    text@ == start + c@.subrange(0, j as int),
                decreases c@.len() - j,
            {
                text.push(c[j]);
                j = j + 1;
                assert(text@ =~= start + c@.subrange(0, j as int));
            }
            assert(c@.subrange(0, c@.len() as int) =~= c@);
            let ghost prev = self@.subrange(0, i as int);
            assert(self@.subrange(0, i + 1).drop_last() =~= prev);
            i = i + 1;
        }
        assert(self@.subrange(0, self@.len() as int) =~= self@);
        string_from_chars(&text)
    }
}

/// The characters of `s`.
pub fn chars_of(s: &str) -> (r: Vec<char>)
    ensures
        r@ == s@,
{
    let n = s.unicode_len();
    let mut r: Vec<char> = Vec::new();
    let mut i: usize = 0;
    while i < n
        invariant
            n == s@.len(),
            0 <= i <= n,
            r@ == s@.subrange(0, i as int),
        decreases n - i,
    {
        r.push(s.get_char(i));
        i = i + 1;
        assert(r@ =~= s@.subrange(0, i as int));
    }
    assert(r@ =~= s@);
    r
}

/// The components of a path string, in order.
pub fn split_components(s: &str) -> (r: Vec<Vec<char>>)
    ensures
        comps_view(r@) == components(s@),
{
    let n = s.unicode_len();
    let mut done: Vec<Vec<char>> = Vec::new();
    let mut cur: Vec<char> = Vec::new();
    let mut i: usize = 0;
    while i < n
        invariant
            n == s@.len(),
            0 <= i <= n,
            (comps_view(done@), cur@) == scan(s@.subrange(0, i as int)),
        decreases n - i,
    {
        let c = s.get_char(i);
        assert(s@.subrange(0, i + 1).drop_last() =~= s@.subrange(0, i as int));
        if c == '/' {
            if cur.len() > 0 {
                done.push(cur);
                cur = Vec::new();
            }
        } else {
            cur.push(c);
        }
        i = i + 1;
        assert(comps_view(done@) =~= scan(s@.subrange(0, i as int)).0);
        assert(cur@ =~= scan(s@.subrange(0, i as int)).1);
    }
    assert(s@.subrange(0, n as int) =~= s@);
    if cur.len() > 0 {
        done.push(cur);
    }
    assert(comps_view(done@) =~= components(s@));
    done
}

/// The path that a symlink's stored text leads to: only an absolute path
/// without `.` or `..` names a place.
pub open spec fn target_of(source: Seq<char>) -> Option<PathModel> {
    if is_absolute(source) && !has_special(components(source)) {
        Some(components(source))
    } else {
        None
    }
}

fn is_dot_or_dot_dot(c: &Vec<char>) -> (r: bool)
    ensures
        r == is_special(c@),
{
    if c.len() == 1 && c[0] == '.' {
        assert(c@ =~= seq!['.']);
        true
    } else if c.len() == 2 && c[0] == '.' && c[1] == '.' {
        assert(c@ =~= seq!['.', '.']);
        true
    } else {
        false
    }
}

pub(crate) fn any_special(comps: &Vec<Vec<char>>) -> (r: bool)
    ensures
        r == has_special(comps_view(comps@)),
{
    let mut i: usize = 0;
    while i < comps.len()
        invariant
            0 <= i <= comps@.len(),
            forall|j: int| 0 <= j < i ==> !is_special(#[trigger] comps_view(comps@)[j]),
        decreases comps@.len() - i,
    {
        assert(comps_view(comps@)[i as int] == comps@[i as int]@);
        if is_dot_or_dot_dot(&comps[i]) {
            return true;
        }
        i = i + 1;
    }
    false
}

fn starts_at_root(s: &str) -> (r: bool)
    ensures
        r == is_absolute(s@),
{
    s.unicode_len() > 0 && s.get_char(0) == '/'
}

/// The place that a symlink's stored text leads to, if any.
pub fn target_path(source: &str) -> (r: Option<AbsPath>)
    ensures
        match r {
            Some(p) => target_of(source@) == Some(p@),
            None => target_of(source@) is None,
        },
{
    if !starts_at_root(source) {
        return None;
    }
    let comps = split_components(source);
    if any_special(&comps) {
        return None;
    }
    Some(AbsPath { comps })
}

/// The path that the string `s` names, seen from the directory `cwd`.
pub fn expand_path(cwd: &AbsPath, s: &str) -> (r: Option<AbsPath>)
    ensures
        match r {
            Some(p) => expand(cwd@, s@) == Some(p@),
            None => expand(cwd@, s@) is None,
        },
{
    let comps = split_components(s);
    if any_special(&comps) {
        return None;
    }
    let rel = AbsPath { comps };
    if starts_at_root(s) {
        Some(rel)
    } else {
        Some(rel.rebase(0, cwd))
    }
}

} // verus!
