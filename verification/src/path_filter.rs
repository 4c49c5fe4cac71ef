//! Which changed paths can skip subtree invalidation: those inside the git
//! directory and those that gitignore rules exclude.

use vstd::prelude::*;
use ignore::gitignore::Gitignore;
use crate::path::{join_segments, law_text_is_valid, valid_path_text, valid_segment, VfsPath};
use crate::text::str_eq;

verus! {

#[verifier::external_type_specification]
#[verifier::external_body]
pub struct ExGitignore(Gitignore);

/// What one gitignore matcher says of a path.
#[derive(Debug, Clone, Copy, PartialEq, Eq, Structural)]
pub enum Verdict {
    /// The path, or a parent of it, is ignored.
    Ignore,
    /// The path, or a parent of it, is explicitly kept.
    Whitelist,
    /// No rule applies.
    NoMatch,
}

/// ignore's `Gitignore::matched_path_or_any_parents` on a path text, taken
/// as a file. What it returns depends on the matcher's rules, which are
/// not visible here, so nothing is claimed of the verdict. The call
/// asserts that no root is left once a leading `./` and the matcher's root
/// are stripped, so the text must be a non-empty relative path text with
/// no empty component.
#[verifier::external_body]
fn gitignore_verdict(g: &Gitignore, path: &str) -> (r: Verdict)
    requires
        path@.len() > 0,
        valid_path_text(path@),
{
    match g.matched_path_or_any_parents(std::path::Path::new(path), false) {
        ignore::Match::Ignore(_) => Verdict::Ignore,
        ignore::Match::Whitelist(_) => Verdict::Whitelist,
        ignore::Match::None => Verdict::NoMatch,
    }
}

/// The decision of matchers consulted in order: the first that ignores or
/// whitelists decides; none deciding keeps the path.
pub open spec fn decided(vs: Seq<Verdict>) -> bool
    decreases vs.len(),
{
    if vs.len() == 0 {
        false
    } else {
        match vs[0] {
            Verdict::Ignore => true,
            Verdict::Whitelist => false,
            Verdict::NoMatch => decided(vs.subrange(1, vs.len() as int)),
        }
    }
}

/// Matchers consulted in order: the first with a verdict on the path
/// decides, whatever later ones say. A path it whitelists is kept; a path
/// it ignores is skipped.
pub proof fn law_first_verdict_decides(vs: Seq<Verdict>, k: int)
    requires
        0 <= k < vs.len(),
        forall|j: int| 0 <= j < k ==> (#[trigger] vs[j]) is NoMatch,
        !(vs[k] is NoMatch),
    ensures
        decided(vs) == (vs[k] is Ignore),
        vs[k] is Whitelist ==> !decided(vs),
    decreases k,
{
    if k > 0 {
        let rest = vs.subrange(1, vs.len() as int);
        assert(vs[0] is NoMatch);
        assert forall|j: int| 0 <= j < k - 1 implies (#[trigger] rest[j]) is NoMatch by {
            assert(rest[j] == vs[j + 1]);
        }
        assert(rest[k - 1] == vs[k]);
        law_first_verdict_decides(rest, k - 1);
    }
}

/// A path on which no matcher has a verdict is kept.
pub proof fn law_no_verdict_keeps(vs: Seq<Verdict>)
    requires
        forall|j: int| 0 <= j < vs.len() ==> (#[trigger] vs[j]) is NoMatch,
    ensures
        !decided(vs),
    decreases vs.len(),
{
    if vs.len() > 0 {
        let rest = vs.subrange(1, vs.len() as int);
        assert(vs[0] is NoMatch);
        assert forall|j: int| 0 <= j < rest.len() implies (#[trigger] rest[j]) is NoMatch by {
            assert(rest[j] == vs[j + 1]);
        }
        law_no_verdict_keeps(rest);
    }
}

/// `vs` are the verdicts of the first matchers of `n`, consulted in order
/// until one of them decides: every matcher when none does.
pub open spec fn consulted(vs: Seq<Verdict>, n: nat) -> bool {
    &&& vs.len() <= n
    &&& forall|j: int| 0 <= j < vs.len() - 1 ==> (#[trigger] vs[j]) is NoMatch
    &&& vs.len() < n ==> vs.len() > 0 && !(vs.last() is NoMatch)
}

/// Decide from matcher verdicts given in consultation order.
pub fn decide(verdicts: &[Verdict]) -> (r: bool)
    ensures
        r == decided(verdicts@),
{
    let n = verdicts.len();
    let mut i: usize = 0;
    assert(verdicts@.subrange(0, n as int) =~= verdicts@);
    while i < n
        invariant
            n == verdicts@.len(),
            i <= n,
            decided(verdicts@) == decided(verdicts@.subrange(i as int, n as int)),
        decreases n - i,
    {
        let ghost sub = verdicts@.subrange(i as int, n as int);
        proof {
            assert(sub[0] == verdicts@[i as int]);
            assert(sub.subrange(1, sub.len() as int) =~= verdicts@.subrange(i + 1, n as int));
        }
        match verdicts[i] {
            Verdict::Ignore => return true,
            Verdict::Whitelist => return false,
            Verdict::NoMatch => {},
        }
        i = i + 1;
    }
    false
}

/// Fast filter for changed paths that need no subtree invalidation.
pub struct PathFilter {
    /// The name of the git directory at the top of the project, if any.
    pub git_dir_component: Option<String>,
    /// Gitignore matchers, consulted in order (deepest files first).
    pub matchers: Vec<Gitignore>,
}

impl PathFilter {
    /// A filter with the given git directory name and matchers.
    pub fn new(git_dir_component: Option<String>, matchers: Vec<Gitignore>) -> (r: Self)
        ensures
            r.git_dir_component == git_dir_component,
            r.matchers == matchers,
    {
        PathFilter { git_dir_component, matchers }
    }

    /// Whether a change at `path` can skip subtree invalidation: never the
    /// root; always a path inside the git directory; otherwise as the
    /// first gitignore matcher with a verdict says (ignored: skip,
    /// whitelisted: keep), and kept when none has one.
    pub fn is_skippable(&self, path: &VfsPath) -> (r: bool)
        ensures
            path@.len() == 0 ==> !r,
            path@.len() > 0 && (self.git_dir_component matches Some(g) && path@[0] == g@) ==> r,
            path@.len() > 0 && !(self.git_dir_component matches Some(g) && path@[0] == g@)
                ==> exists|vs: Seq<Verdict>| consulted(vs, self.matchers@.len()) && r == #[trigger] decided(vs),
    {
        if path.is_root() {
            return false;
        }
        path.check_valid();
        match &self.git_dir_component {
            Some(g) => {
                if str_eq(path.component(0), g.as_str()) {
                    return true;
                }
            },
            None => {},
        }
        let text = path.as_str();
        proof {
            assert(valid_segment(path@[0]));
            lemma_join_starts(path@);
            law_text_is_valid(path@);
        }
        let n = self.matchers.len();
        let mut verdicts: Vec<Verdict> = Vec::new();
        let mut i: usize = 0;
        while i < n
            invariant
                n == self.matchers@.len(),
                i <= n,
                verdicts@.len() == i,
                text@.len() > 0,
                valid_path_text(text@),
                path@.len() > 0,
                !(self.git_dir_component matches Some(g) && path@[0] == g@),
                forall|j: int| 0 <= j < i ==> verdicts@[j] is NoMatch,
            decreases n - i,
        {
            let v = gitignore_verdict(&self.matchers[i], text);
            verdicts.push(v);
            match v {
                Verdict::NoMatch => {},
                _ => {
                    let r = decide(verdicts.as_slice());
                    assert(decided(verdicts@) == r);
                    return r;
                },
            }
            i = i + 1;
        }
        let r = decide(verdicts.as_slice());
        assert(decided(verdicts@) == r);
        r
    }
}

/// The text of a non-root path with valid components starts with its first
/// component, which holds no `/`.
proof fn lemma_join_starts(segs: Seq<Seq<char>>)
    requires
        segs.len() > 0,
        forall|i: int| 0 <= i < segs.len() ==> valid_segment(#[trigger] segs[i]),
    ensures
        join_segments(segs).len() > 0,
        join_segments(segs)[0] == segs[0][0],
        join_segments(segs)[0] != '/',
    decreases segs.len(),
{
    assert(valid_segment(segs[0]));
    assert(segs[0].len() > 0);
    if !(segs[0][0] != '/') {
        assert(segs[0].contains('/'));
    }
    if segs.len() > 1 {
        let front = segs.drop_last();
        assert forall|i: int| 0 <= i < front.len() implies valid_segment(#[trigger] front[i]) by {
            assert(front[i] == segs[i]);
        }
        lemma_join_starts(front);
        assert(front[0] == segs[0]);
    }
}

/// Index `a` comes before index `b` deepest first: it is deeper, or as
/// deep and earlier.
pub open spec fn deeper_first(depths: Seq<usize>, a: int, b: int) -> bool {
    depths[a] > depths[b] || (depths[a] == depths[b] && a < b)
}

/// `r` lists distinct indices of `depths` deepest first, and includes every
/// index deeper than `d`, and no other.
spec fn ordered_down_to(depths: Seq<usize>, r: Seq<usize>, d: int) -> bool {
    &&& r.no_duplicates()
    &&& forall|x: int| 0 <= x < r.len() ==> (#[trigger] r[x]) < depths.len() && depths[r[x] as int] > d
    &&& forall|i: int| 0 <= i < depths.len() && depths[i] > d ==> #[trigger] r.contains(i as usize)
    &&& forall|a: int, b: int| 0 <= a < b < r.len() ==> deeper_first(depths, #[trigger] r[a] as int, #[trigger] r[b] as int)
}

/// Append the indices of depth `d`, in order.
fn collect_depth(depths: &[usize], d: usize, r: &mut Vec<usize>)
    requires
        ordered_down_to(depths@, old(r)@, d as int),
    ensures
        ordered_down_to(depths@, final(r)@, d - 1),
{
    let ghost r0 = r@;
    let n = depths.len();
    let mut i: usize = 0;
    while i < n
        invariant
            n == depths@.len(),
            i <= n,
            r@.len() >= r0.len(),
            r@.subrange(0, r0.len() as int) == r0,
            ordered_down_to(depths@, r0, d as int),
            r@.no_duplicates(),
            forall|x: int| r0.len() <= x < r@.len() ==> (#[trigger] r@[x]) < i && depths@[r@[x] as int] == d,
            forall|x: int| 0 <= x < r@.len() ==> (#[trigger] r@[x]) < depths@.len() && depths@[r@[x] as int] >= d,
            forall|j: int| 0 <= j < i && depths@[j] == d ==> #[trigger] r@.contains(j as usize),
            forall|j: int| 0 <= j < depths@.len() && depths@[j] > d ==> #[trigger] r@.contains(j as usize),
            forall|a: int, b: int| 0 <= a < b < r@.len() ==> deeper_first(depths@, #[trigger] r@[a] as int, #[trigger] r@[b] as int),
        decreases n - i,
    {
        if depths[i] == d {
            let ghost before = r@;
            proof {
                assert forall|x: int| 0 <= x < before.len() implies before[x] != i by {
                    if x < r0.len() {
                        assert(before[x] == r0[x]);
                        assert(depths@[r0[x] as int] > d);
                    }
                }
            }
            r.push(i);
            proof {
                assert(r@.subrange(0, r0.len() as int) =~= before.subrange(0, r0.len() as int));
                assert forall|a: int, b: int| 0 <= a < b < r@.len() implies deeper_first(depths@, #[trigger] r@[a] as int, #[trigger] r@[b] as int) by {
                    if b == r@.len() - 1 {
                        if a < r0.len() {
                            assert(r@[a] == r0[a]);
                        }
                    } else {
                        assert(r@[a] == before[a] && r@[b] == before[b]);
                    }
                }
                assert forall|j: int| 0 <= j < i + 1 && depths@[j] == d implies #[trigger] r@.contains(j as usize) by {
                    if j < i {
                        assert(before.contains(j as usize));
                        let x = choose|x: int| 0 <= x < before.len() && before[x] == j as usize;
                        assert(r@[x] == j as usize);
                    } else {
                        assert(r@[r@.len() - 1] == i);
                    }
                }
                assert forall|j: int| 0 <= j < depths@.len() && depths@[j] > d implies #[trigger] r@.contains(j as usize) by {
                    assert(before.contains(j as usize));
                    let x = choose|x: int| 0 <= x < before.len() && before[x] == j as usize;
                    assert(r@[x] == j as usize);
                }
            }
        }
        i = i + 1;
    }
}

/// The indices of `depths` ordered deepest first, equal depths keeping
/// their order: a permutation of the indices.
pub fn deepest_first(depths: &[usize]) -> (r: Vec<usize>)
    ensures
        r@.no_duplicates(),
        forall|x: int| 0 <= x < r@.len() ==> (#[trigger] r@[x]) < depths@.len(),
        forall|i: int| 0 <= i < depths@.len() ==> #[trigger] r@.contains(i as usize),
        forall|a: int, b: int| 0 <= a < b < r@.len() ==> deeper_first(depths@, #[trigger] r@[a] as int, #[trigger] r@[b] as int),
{
    let n = depths.len();
    let mut m: usize = 0;
    let mut i: usize = 0;
    while i < n
        invariant
            n == depths@.len(),
            i <= n,
            forall|j: int| 0 <= j < i ==> depths@[j] <= m,
        decreases n - i,
    {
        if depths[i] > m {
            m = depths[i];
        }
        i = i + 1;
    }
    let mut r: Vec<usize> = Vec::new();
    let mut d = m;
    while d > 0
        invariant
            n == depths@.len(),
            d <= m,
            forall|j: int| 0 <= j < n ==> depths@[j] <= m,
            ordered_down_to(depths@, r@, d as int),
        decreases d,
    {
        collect_depth(depths, d, &mut r);
        d = d - 1;
    }
    collect_depth(depths, 0, &mut r);
    r
}

} // verus!
