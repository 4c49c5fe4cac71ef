//! Paths inside the virtual filesystem, relative to the mount root.

use vstd::prelude::*;
use vstd::string::*;
use crate::text::str_eq;

verus! {

/// A path relative to the mount root, held as its components.
///
/// The root is the empty path. Every component is non-empty and holds no
/// `/`; the textual form joins the components with `/`.
#[derive(Debug)]
pub struct VfsPath {
    segs: Vec<String>,
    text: String,
}

/// Why a string is not a valid virtual path.
#[derive(Debug, Clone, Copy, PartialEq, Eq)]
pub enum PathError {
    /// A component is empty: a leading, trailing or doubled `/`.
    EmptyComponent,
    /// A component to append holds a `/` or is empty.
    InvalidName,
}

/// A valid component: non-empty and free of `/`.
pub open spec fn valid_segment(s: Seq<char>) -> bool {
    s.len() > 0 && !s.contains('/')
}

/// Components joined with `/`.
pub open spec fn join_segments(segs: Seq<Seq<char>>) -> Seq<char>
    decreases segs.len(),
{
    if segs.len() == 0 {
        Seq::empty()
    } else if segs.len() == 1 {
        segs[0]
    } else {
        join_segments(segs.drop_last()) + seq!['/'] + segs.last()
    }
}

/// The text of a valid path: empty (the root), or no leading, trailing or
/// doubled `/`.
pub open spec fn valid_path_text(s: Seq<char>) -> bool {
    s.len() == 0 || (s[0] != '/' && s.last() != '/'
        && forall|i: int| 0 <= i < s.len() - 1 && s[i] == '/' ==> #[trigger] s[i + 1] != '/')
}

/// The characters of each string in `v`.
pub open spec fn views(v: Seq<String>) -> Seq<Seq<char>> {
    v.map_values(|s: String| s@)
}

/// The characters of each string slice in `v`.
pub open spec fn str_views(v: Seq<&str>) -> Seq<Seq<char>> {
    v.map_values(|s: &str| s@)
}

impl View for VfsPath {
    type V = Seq<Seq<char>>;

    closed spec fn view(&self) -> Seq<Seq<char>> {
        views(self.segs@)
    }
}

impl VfsPath {
    #[verifier::type_invariant]
    spec fn inv(&self) -> bool {
        &&& forall|i: int| 0 <= i < self.segs@.len() ==> valid_segment(#[trigger] self.segs@[i]@)
        &&& self.text@ == join_segments(views(self.segs@))
    }

    /// Every component of `self` is valid.
    pub fn check_valid(&self)
        ensures
            forall|i: int| 0 <= i < self@.len() ==> valid_segment(#[trigger] self@[i]),
    {
        proof { use_type_invariant(self); }
    }

    /// The mount root.
    pub fn root() -> (r: Self)
        ensures
            r@ == Seq::<Seq<char>>::empty(),
    {
        let r = VfsPath { segs: Vec::new(), text: String::new() };
        assert(r@ =~= Seq::<Seq<char>>::empty());
        r
    }

    /// Whether this is the mount root.
    pub fn is_root(&self) -> (r: bool)
        ensures
            r == (self@.len() == 0),
    {
        self.segs.len() == 0
    }

    /// Number of components.
    pub fn depth(&self) -> (r: usize)
        ensures
            r == self@.len(),
    {
        self.segs.len()
    }

    /// Component `i`.
    pub fn component(&self, i: usize) -> (r: &str)
        requires
            i < self@.len(),
        ensures
            r@ == self@[i as int],
    {
        self.segs[i].as_str()
    }

    /// The components, borrowed.
    pub fn segments(&self) -> (r: Vec<&str>)
        ensures
            str_views(r@) == self@,
    {
        let mut r: Vec<&str> = Vec::new();
        let n = self.segs.len();
        let mut i: usize = 0;
        while i < n
            invariant
                n == self.segs@.len(),
                i <= n,
                r@.len() == i,
                forall|j: int| 0 <= j < i ==> #[trigger] r@[j]@ == self.segs@[j]@,
            decreases n - i,
        {
            r.push(self.segs[i].as_str());
            i = i + 1;
        }
        assert(str_views(r@) =~= self@);
        r
    }

    /// The last component; `None` at the root.
    pub fn name(&self) -> (r: Option<&str>)
        ensures
            r is None <==> self@.len() == 0,
            r matches Some(n) ==> n@ == self@.last(),
    {
        let n = self.segs.len();
        if n == 0 {
            None
        } else {
            Some(self.segs[n - 1].as_str())
        }
    }

    /// The parent directory; `None` at the root.
    pub fn parent(&self) -> (r: Option<VfsPath>)
        ensures
            r is None <==> self@.len() == 0,
            r matches Some(p) ==> p@ == self@.drop_last(),
    {
        proof { use_type_invariant(self); }
        let n = self.segs.len();
        if n == 0 {
            return None;
        }
        let mut segs: Vec<String> = Vec::new();
        let mut i: usize = 0;
        while i < n - 1
            invariant
                n == self.segs@.len(),
                n > 0,
                i <= n - 1,
                segs@.len() == i,
                forall|j: int| 0 <= j < i ==> #[trigger] segs@[j]@ == self.segs@[j]@,
                forall|j: int| 0 <= j < n ==> valid_segment(#[trigger] self.segs@[j]@),
            decreases n - 1 - i,
        {
            segs.push(self.segs[i].clone());
            i = i + 1;
        }
        let text = text_of(&segs);
        let p = VfsPath { segs, text };
        assert(p@ =~= self@.drop_last());
        Some(p)
    }

    /// This path with `name` appended as a new last component.
    pub fn join(&self, name: &str) -> (r: Result<VfsPath, PathError>)
        ensures
            r is Ok <==> valid_segment(name@),
            r matches Ok(p) ==> p@ == self@.push(name@),
            r matches Err(e) ==> e == PathError::InvalidName,
    {
        proof { use_type_invariant(self); }
        if !is_valid_segment(name) {
            return Err(PathError::InvalidName);
        }
        let mut segs: Vec<String> = Vec::new();
        let n = self.segs.len();
        let mut i: usize = 0;
        while i < n
            invariant
                n == self.segs@.len(),
                i <= n,
                segs@.len() == i,
                forall|j: int| 0 <= j < i ==> #[trigger] segs@[j]@ == self.segs@[j]@,
                forall|j: int| 0 <= j < n ==> valid_segment(#[trigger] self.segs@[j]@),
            decreases n - i,
        {
            segs.push(self.segs[i].clone());
            i = i + 1;
        }
        let mut text = self.text.clone();
        if n > 0 {
            text.append("/");
        }
        text.append(name);
        segs.push(name.to_owned());
        proof {
            reveal_strlit("/");
            let nv = views(segs@);
            assert(nv.drop_last() =~= views(self.segs@));
            assert(nv.last() == name@);
            if n == 0 {
                assert(nv =~= seq![name@]);
            } else {
                assert(views(self.segs@).len() > 0);
                assert(text@ =~= join_segments(nv.drop_last()) + seq!['/'] + nv.last());
            }
        }
        let p = VfsPath { segs, text };
        assert(p@ =~= self@.push(name@));
        Ok(p)
    }

    /// Whether `self` is `prefix` or lies below it.
    pub fn starts_with(&self, prefix: &VfsPath) -> (r: bool)
        ensures
            r == (prefix@.len() <= self@.len() && self@.subrange(0, prefix@.len() as int) == prefix@),
    {
        let n = prefix.segs.len();
        if n > self.segs.len() {
            return false;
        }
        let mut i: usize = 0;
        while i < n
            invariant
                n == prefix@.len(),
                n <= self@.len(),
                i <= n,
                forall|j: int| 0 <= j < i ==> #[trigger] self@[j] == prefix@[j],
            decreases n - i,
        {
            if !str_eq(self.segs[i].as_str(), prefix.segs[i].as_str()) {
                assert(self@.subrange(0, n as int)[i as int] != prefix@[i as int]);
                return false;
            }
            i = i + 1;
        }
        assert(self@.subrange(0, n as int) =~= prefix@);
        true
    }

    /// Component-wise equality.
    pub fn equals(&self, other: &VfsPath) -> (r: bool)
        ensures
            r == (self@ == other@),
    {
        if self.segs.len() != other.segs.len() {
            return false;
        }
        let r = self.starts_with(other);
        assert(self@.subrange(0, other@.len() as int) =~= self@);
        r
    }

    /// An independent copy.
    pub fn duplicate(&self) -> (r: VfsPath)
        ensures
            r@ == self@,
    {
        proof { use_type_invariant(self); }
        let mut segs: Vec<String> = Vec::new();
        let n = self.segs.len();
        let mut i: usize = 0;
        while i < n
            invariant
                n == self.segs@.len(),
                i <= n,
                segs@.len() == i,
                forall|j: int| 0 <= j < i ==> #[trigger] segs@[j]@ == self.segs@[j]@,
                forall|j: int| 0 <= j < n ==> valid_segment(#[trigger] self.segs@[j]@),
            decreases n - i,
        {
            segs.push(self.segs[i].clone());
            i = i + 1;
        }
        assert(views(segs@) =~= views(self.segs@));
        let p = VfsPath { segs, text: self.text.clone() };
        assert(p@ =~= self@);
        p
    }

    /// The textual form: components joined with `/` (empty for the root).
    pub fn as_string(&self) -> (r: String)
        ensures
            r@ == join_segments(self@),
    {
        proof { use_type_invariant(self); }
        self.text.clone()
    }

    /// The textual form, borrowed.
    pub fn as_str(&self) -> (r: &str)
        ensures
            r@ == join_segments(self@),
    {
        proof { use_type_invariant(self); }
        self.text.as_str()
    }

    /// Parse a path from its textual form. The empty string is the root;
    /// otherwise the text must have no leading, trailing or doubled `/`.
    pub fn new(s: &str) -> (r: Result<VfsPath, PathError>)
        ensures
            r is Ok <==> valid_path_text(s@),
            r matches Ok(p) ==> join_segments(p@) == s@,
            r matches Err(e) ==> e == PathError::EmptyComponent,
    {
        let n = s.unicode_len();
        let mut segs: Vec<String> = Vec::new();
        let mut start: usize = 0;
        let mut i: usize = 0;
        if n == 0 {
            let p = VfsPath { segs, text: String::new() };
            assert(p@ =~= Seq::<Seq<char>>::empty());
            return Ok(p);
        }
        while i < n
            invariant
                n == s@.len(),
                n > 0,
                start <= i <= n,
                forall|j: int| start <= j < i ==> #[trigger] s@[j] != '/',
                segs@.len() == 0 ==> start == 0,
                segs@.len() > 0 ==> start > 0 && s@[start - 1] == '/'
                    && join_segments(views(segs@)) + seq!['/'] == s@.subrange(0, start as int),
                forall|j: int| 0 <= j < segs@.len() ==> valid_segment(#[trigger] segs@[j]@),
                s@[0] != '/' || i == 0,
                forall|j: int| 0 <= j < start - 1 && s@[j] == '/' ==> #[trigger] s@[j + 1] != '/',
            decreases n - i,
        {
            if s.get_char(i) == '/' {
                if i == start {
                    proof {
                        if i > 0 {
                            assert(s@[i - 1] == '/' && s@[i as int] == '/');
                        }
                    }
                    return Err(PathError::EmptyComponent);
                }
                let seg = s.substring_char(start, i).to_owned();
                proof {
                    assert forall|c: char| seg@.contains(c) implies c != '/' by {
                        let k = choose|k: int| 0 <= k < seg@.len() && seg@[k] == c;
                        assert(s@[start + k] == c);
                    }
                    let old_segs = views(segs@);
                    let new_segs = views(segs@.push(seg));
                    assert(new_segs.drop_last() =~= old_segs);
                    if segs@.len() == 0 {
                        assert(new_segs =~= seq![seg@]);
                    }
                    assert(join_segments(new_segs) + seq!['/'] =~= s@.subrange(0, i + 1));
                }
                segs.push(seg);
                start = i + 1;
            }
            i = i + 1;
        }
        if start == n {
            return Err(PathError::EmptyComponent);
        }
        let seg = s.substring_char(start, n).to_owned();
        proof {
            assert forall|c: char| seg@.contains(c) implies c != '/' by {
                let k = choose|k: int| 0 <= k < seg@.len() && seg@[k] == c;
                assert(s@[start + k] == c);
            }
            let old_segs = views(segs@);
            let new_segs = views(segs@.push(seg));
            assert(new_segs.drop_last() =~= old_segs);
            if segs@.len() == 0 {
                assert(new_segs =~= seq![seg@]);
            }
            assert(join_segments(new_segs) =~= s@);
        }
        segs.push(seg);
        let p = VfsPath { segs, text: s.to_owned() };
        assert(valid_path_text(s@)) by {
            assert forall|j: int| 0 <= j < s@.len() - 1 && s@[j] == '/' implies #[trigger] s@[j + 1] != '/' by {
                if j >= start - 1 {
                    assert(j == start - 1);
                }
            }
        }
        Ok(p)
    }
}

/// The components of `segs` joined with `/`.
fn text_of(segs: &Vec<String>) -> (r: String)
    ensures
        r@ == join_segments(views(segs@)),
{
    let n = segs.len();
    if n == 0 {
        assert(views(segs@) =~= Seq::<Seq<char>>::empty());
        return String::new();
    }
    let ghost v = views(segs@);
    let mut r = String::from_str(segs[0].as_str());
    let mut i: usize = 1;
    assert(v.subrange(0, 1) =~= seq![v[0]]);
    while i < n
        invariant
            n == segs@.len(),
            v == views(segs@),
            1 <= i <= n,
            r@ == join_segments(v.subrange(0, i as int)),
        decreases n - i,
    {
        r.append("/");
        r.append(segs[i].as_str());
        proof {
            reveal_strlit("/");
            assert(v.subrange(0, i + 1).drop_last() =~= v.subrange(0, i as int));
        }
        i = i + 1;
    }
    assert(v.subrange(0, n as int) =~= v);
    r
}

/// Whether `name` is a valid component: non-empty and free of `/`.
pub fn is_valid_segment(name: &str) -> (r: bool)
    ensures
        r == valid_segment(name@),
{
    let n = name.unicode_len();
    if n == 0 {
        return false;
    }
    let mut i: usize = 0;
    while i < n
        invariant
            n == name@.len(),
            i <= n,
            forall|j: int| 0 <= j < i ==> #[trigger] name@[j] != '/',
        decreases n - i,
    {
        if name.get_char(i) == '/' {
            assert(name@.contains('/'));
            return false;
        }
        i = i + 1;
    }
    true
}

/// A child's text is longer than its directory's, so the two differ.
pub proof fn lemma_child_text_longer(p: Seq<Seq<char>>, name: Seq<char>)
    requires
        name.len() > 0,
    ensures
        join_segments(p.push(name)).len() > join_segments(p).len(),
        join_segments(p.push(name)) != join_segments(p),
{
    assert(p.push(name).drop_last() =~= p);
    assert(p.push(name).last() == name);
    if p.len() == 0 {
        assert(p.push(name).len() == 1);
        assert(p.push(name)[0] == name);
    }
}

/// The text of a single valid component holds no `/`; that of two or
/// more holds one.
proof fn lemma_join_slash(a: Seq<Seq<char>>)
    requires
        a.len() > 0,
        forall|i: int| 0 <= i < a.len() ==> valid_segment(#[trigger] a[i]),
    ensures
        a.len() == 1 ==> !join_segments(a).contains('/'),
        a.len() >= 2 ==> join_segments(a).contains('/'),
{
    if a.len() >= 2 {
        let x = join_segments(a.drop_last());
        assert(join_segments(a)[x.len() as int] == '/');
    } else {
        assert(valid_segment(a[0]));
    }
}

/// `x1/y1 == x2/y2` with `y1`, `y2` free of `/` splits both alike.
proof fn lemma_split_last(x1: Seq<char>, y1: Seq<char>, x2: Seq<char>, y2: Seq<char>)
    requires
        x1 + seq!['/'] + y1 == x2 + seq!['/'] + y2,
        !y1.contains('/'),
        !y2.contains('/'),
    ensures
        x1 == x2,
        y1 == y2,
{
    let a1 = x1 + seq!['/'];
    let a2 = x2 + seq!['/'];
    let t = a1 + y1;
    let t2 = a2 + y2;
    assert(t.len() == t2.len());
    assert(a1[x1.len() as int] == '/');
    assert(a2[x2.len() as int] == '/');
    if y1.len() < y2.len() {
        let k = x1.len() as int;
        assert(t[k] == '/');
        assert(k >= a2.len());
        assert(t2[k] == y2[k - a2.len()]);
        assert(y2.contains(y2[k - a2.len()]));
    } else if y2.len() < y1.len() {
        let k = x2.len() as int;
        assert(t2[k] == '/');
        assert(k >= a1.len());
        assert(t[k] == y1[k - a1.len()]);
        assert(y1.contains(y1[k - a1.len()]));
    }
    assert(x1.len() == x2.len());
    assert(x1 =~= t.subrange(0, x1.len() as int));
    assert(x2 =~= t2.subrange(0, x2.len() as int));
    assert(y1 =~= t.subrange(x1.len() + 1 as int, t.len() as int));
    assert(y2 =~= t2.subrange(x2.len() + 1 as int, t2.len() as int));
}

/// A path's text determines its components: two paths of valid
/// components with the same text are the same path.
pub proof fn law_text_determines_path(a: Seq<Seq<char>>, b: Seq<Seq<char>>)
    requires
        forall|i: int| 0 <= i < a.len() ==> valid_segment(#[trigger] a[i]),
        forall|i: int| 0 <= i < b.len() ==> valid_segment(#[trigger] b[i]),
        join_segments(a) == join_segments(b),
    ensures
        a == b,
    decreases a.len(),
{
    if a.len() == 0 || b.len() == 0 {
        if a.len() > 0 {
            assert(valid_segment(a[0]));
            if a.len() >= 2 {
                lemma_join_slash(a);
            }
            assert(join_segments(a).len() > 0) by {
                if a.len() >= 2 {
                    assert(join_segments(a).contains('/'));
                }
            }
        }
        if b.len() > 0 {
            assert(valid_segment(b[0]));
            if b.len() >= 2 {
                lemma_join_slash(b);
            }
            assert(join_segments(b).len() > 0) by {
                if b.len() >= 2 {
                    assert(join_segments(b).contains('/'));
                }
            }
        }
        assert(a =~= b);
    } else {
        lemma_join_slash(a);
        lemma_join_slash(b);
        if a.len() == 1 && b.len() == 1 {
            assert(a =~= b);
        } else if a.len() >= 2 && b.len() >= 2 {
            let fa = a.drop_last();
            let fb = b.drop_last();
            assert(valid_segment(a.last()));
            assert(valid_segment(b.last()));
            lemma_split_last(join_segments(fa), a.last(), join_segments(fb), b.last());
            assert forall|i: int| 0 <= i < fa.len() implies valid_segment(#[trigger] fa[i]) by {
                assert(fa[i] == a[i]);
            }
            assert forall|i: int| 0 <= i < fb.len() implies valid_segment(#[trigger] fb[i]) by {
                assert(fb[i] == b[i]);
            }
            law_text_determines_path(fa, fb);
            assert(a =~= fa.push(a.last()));
            assert(b =~= fb.push(b.last()));
        }
    }
}

/// The text of a path of valid components is valid path text, so parsing
/// it succeeds.
pub proof fn law_text_is_valid(p: Seq<Seq<char>>)
    requires
        forall|i: int| 0 <= i < p.len() ==> valid_segment(#[trigger] p[i]),
    ensures
        valid_path_text(join_segments(p)),
    decreases p.len(),
{
    if p.len() == 1 {
        assert(valid_segment(p[0]));
        let s = p[0];
        assert forall|i: int| 0 <= i < s.len() - 1 && s[i] == '/' implies #[trigger] s[i + 1] != '/' by {
            assert(s.contains(s[i]));
        }
        if s[0] == '/' { assert(s.contains(s[0])); }
        if s.last() == '/' { assert(s.contains(s[s.len() - 1])); }
    } else if p.len() >= 2 {
        let f = p.drop_last();
        assert forall|i: int| 0 <= i < f.len() implies valid_segment(#[trigger] f[i]) by {
            assert(f[i] == p[i]);
        }
        law_text_is_valid(f);
        let x = join_segments(f);
        let y = p.last();
        assert(valid_segment(p[p.len() - 1]));
        assert(valid_segment(f[0]));
        assert(x.len() > 0) by {
            if f.len() >= 2 {
                lemma_join_slash(f);
            }
        }
        let t = join_segments(p);
        assert(t == x + seq!['/'] + y);
        assert(t[0] == x[0]);
        assert(t.last() == y.last());
        if y.last() == '/' { assert(y.contains(y[y.len() - 1])); }
        assert forall|i: int| 0 <= i < t.len() - 1 && t[i] == '/' implies #[trigger] t[i + 1] != '/' by {
            if i < x.len() - 1 {
                assert(t[i] == x[i]);
                assert(t[i + 1] == x[i + 1]);
            } else if i == x.len() - 1 {
                assert(t[i] == x.last());
            } else if i == x.len() {
                assert(t[i + 1] == y[0]);
                if y[0] == '/' { assert(y.contains(y[0])); }
            } else {
                let k = i - x.len() - 1;
                assert(t[i] == y[k]);
                assert(y.contains(y[k]));
            }
        }
    }
}

/// Parsing the text of a path gives that path back: the parse succeeds,
/// and any path of valid components with that text is the path itself.
pub proof fn law_parse_text_round_trip(p: Seq<Seq<char>>, q: Seq<Seq<char>>)
    requires
        forall|i: int| 0 <= i < p.len() ==> valid_segment(#[trigger] p[i]),
        forall|i: int| 0 <= i < q.len() ==> valid_segment(#[trigger] q[i]),
        join_segments(q) == join_segments(p),
    ensures
        valid_path_text(join_segments(p)),
        q == p,
{
    law_text_is_valid(p);
    law_text_determines_path(q, p);
}

} // verus!
