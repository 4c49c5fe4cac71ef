//! Segment patterns and single-segment matching.

use vstd::prelude::*;
use crate::text::{is_prefix, is_suffix, str_eq, strip_prefix, strip_suffix};

verus! {

/// Pattern that one route level matches against one path segment.
#[derive(Debug, Clone, Copy)]
pub enum SegmentMatcher {
    /// Exact literal, compared character by character.
    Exact(&'static str),
    /// Named capture of one segment, with an optional prefix and suffix
    /// that are stripped before capturing.
    Capture { name: &'static str, prefix: Option<&'static str>, suffix: Option<&'static str> },
    /// Rest capture of one or more segments, with an optional suffix.
    RestCapture { name: &'static str, suffix: Option<&'static str> },
    /// Matches any depth.
    Glob,
    /// Root node of a tree; matches the mount root.
    Root,
}

/// Result of a successful single-segment match.
#[derive(Debug)]
pub enum CaptureResult {
    /// Matched without capturing (exact literal).
    Matched,
    /// Captured `(name, value)`.
    Single(&'static str, String),
}

/// The part of `seg` left after removing an optional prefix, or `None`
/// when the prefix is required and absent.
pub open spec fn after_prefix(prefix: Option<&'static str>, seg: Seq<char>) -> Option<Seq<char>> {
    match prefix {
        Some(p) => if is_prefix(p@, seg) { Some(seg.subrange(p@.len() as int, seg.len() as int)) } else { None },
        None => Some(seg),
    }
}

/// The part of `seg` left after removing an optional suffix, or `None`
/// when the suffix is required and absent.
pub open spec fn before_suffix(suffix: Option<&'static str>, seg: Seq<char>) -> Option<Seq<char>> {
    match suffix {
        Some(s) => if is_suffix(s@, seg) { Some(seg.subrange(0, seg.len() - s@.len())) } else { None },
        None => Some(seg),
    }
}

/// The value a capture with `prefix`/`suffix` takes from `seg`: the text
/// between them, which must be non-empty.
pub open spec fn captured_value(prefix: Option<&'static str>, suffix: Option<&'static str>, seg: Seq<char>) -> Option<Seq<char>> {
    match after_prefix(prefix, seg) {
        Some(rest) => match before_suffix(suffix, rest) {
            Some(v) => if v.len() > 0 { Some(v) } else { None },
            None => None,
        },
        None => None,
    }
}

impl CaptureResult {
    /// `None` for a plain match, `Some((name, value))` for a capture.
    pub open spec fn view_capture(self) -> Option<(Seq<char>, Seq<char>)> {
        match self {
            CaptureResult::Matched => None,
            CaptureResult::Single(n, v) => Some((n@, v@)),
        }
    }
}

impl SegmentMatcher {
    /// What `matches` returns for `seg`: `None` when it does not match,
    /// `Some(None)` for a plain match, `Some(Some((name, value)))` for a capture.
    pub open spec fn spec_matches(self, seg: Seq<char>) -> Option<Option<(Seq<char>, Seq<char>)>> {
        match self {
            SegmentMatcher::Exact(e) => if seg == e@ { Some(None) } else { None },
            SegmentMatcher::Capture { name, prefix, suffix } => match captured_value(prefix, suffix, seg) {
                Some(v) => Some(Some((name@, v))),
                None => None,
            },
            _ => None,
        }
    }

    /// Precedence rank; lower ranks are tried first.
    pub open spec fn spec_precedence(self) -> u8 {
        match self {
            SegmentMatcher::Root => 0,
            SegmentMatcher::Exact(_) => 1,
            SegmentMatcher::Capture { prefix, suffix, .. } => if prefix is Some || suffix is Some { 2 } else { 3 },
            SegmentMatcher::RestCapture { .. } => 4,
            SegmentMatcher::Glob => 5,
        }
    }

    /// Match one path segment. Rest captures, globs and the root are handled
    /// by the tree walk and never match here.
    pub fn matches(&self, segment: &str) -> (r: Option<CaptureResult>)
        ensures
            r is Some <==> self.spec_matches(segment@) is Some,
            r matches Some(c) ==> Some(c.view_capture()) == self.spec_matches(segment@),
    {
        match self {
            SegmentMatcher::Exact(expected) => {
                if str_eq(segment, expected) {
                    Some(CaptureResult::Matched)
                } else {
                    None
                }
            },
            SegmentMatcher::Capture { name, prefix, suffix } => {
                let remaining = match prefix {
                    Some(pfx) => match strip_prefix(segment, pfx) {
                        Some(r) => r,
                        None => return None,
                    },
                    None => segment,
                };
                let captured = match suffix {
                    Some(sfx) => match strip_suffix(remaining, sfx) {
                        Some(r) => r,
                        None => return None,
                    },
                    None => remaining,
                };
                if captured.is_empty() {
                    None
                } else {
                    Some(CaptureResult::Single(name, captured.to_owned()))
                }
            },
            _ => None,
        }
    }

    /// Precedence rank for deterministic matching order; lower is tried first.
    pub fn precedence(&self) -> (r: u8)
        ensures
            r == self.spec_precedence(),
    {
        match self {
            SegmentMatcher::Root => 0,
            SegmentMatcher::Exact(_) => 1,
            SegmentMatcher::Capture { prefix: Some(_), .. } => 2,
            SegmentMatcher::Capture { suffix: Some(_), .. } => 2,
            SegmentMatcher::Capture { .. } => 3,
            SegmentMatcher::RestCapture { .. } => 4,
            SegmentMatcher::Glob => 5,
        }
    }
}

/// The text of an optional affix; empty when absent.
pub open spec fn affix_text(o: Option<&'static str>) -> Seq<char> {
    match o {
        Some(t) => t@,
        None => Seq::empty(),
    }
}

/// A capture takes back exactly the text placed between its prefix and
/// suffix: for every non-empty `v`, the segment `prefix + v + suffix`
/// matches and captures `v`; and a segment that a capture matches is the
/// captured (non-empty) value wrapped in the prefix and suffix.
pub proof fn law_capture_round_trip(
    name: &'static str,
    prefix: Option<&'static str>,
    suffix: Option<&'static str>,
    v: Seq<char>,
    seg: Seq<char>,
)
    ensures
        v.len() > 0 ==> (SegmentMatcher::Capture { name, prefix, suffix }).spec_matches(
            affix_text(prefix) + v + affix_text(suffix),
        ) == Some(Some((name@, v))),
        (SegmentMatcher::Capture { name, prefix, suffix }).spec_matches(seg) matches Some(Some((n, w)))
            ==> n == name@ && w.len() > 0 && seg == affix_text(prefix) + w + affix_text(suffix),
{
    let p = affix_text(prefix);
    let q = affix_text(suffix);
    let full = p + v + q;
    assert(full.subrange(0, p.len() as int) =~= p);
    let rest = full.subrange(p.len() as int, full.len() as int);
    assert(rest =~= v + q);
    assert(rest.subrange(rest.len() - q.len(), rest.len() as int) =~= q);
    assert(rest.subrange(0, rest.len() - q.len()) =~= v);
    assert(after_prefix(prefix, full) == Some(rest));
    assert(before_suffix(suffix, rest) == Some(v));
    match captured_value(prefix, suffix, seg) {
        Some(w) => {
            let r = after_prefix(prefix, seg)->Some_0;
            assert(seg =~= p + r) by {
                assert(seg.subrange(0, p.len() as int) == p);
            }
            assert(r =~= w + q) by {
                assert(r.subrange(r.len() - q.len(), r.len() as int) == q);
            }
            assert(seg =~= p + w + q);
        },
        None => {},
    }
}

} // verus!
