//! Shared formatting: file-name slugs, git dates and unified diffs.

use vstd::prelude::*;
use vstd::string::*;
use convert_case::Casing;

verus! {

/// An ASCII letter or digit.
pub open spec fn ascii_alnum(c: char) -> bool {
    ('a' <= c && c <= 'z') || ('A' <= c && c <= 'Z') || ('0' <= c && c <= '9')
}

/// The ASCII letters and digits of `s`, each maximal run of them a word,
/// the words separated by single spaces.
pub open spec fn words_of(s: Seq<char>) -> Seq<char>
    decreases s.len(),
{
    if s.len() == 0 {
        Seq::empty()
    } else {
        let p = words_of(s.drop_last());
        let c = s.last();
        if !ascii_alnum(c) {
            p
        } else if p.len() > 0 && !ascii_alnum(s[s.len() - 2]) {
            p + seq![' ', c]
        } else {
            p.push(c)
        }
    }
}

/// The kebab-case form convert_case gives a text.
pub uninterp spec fn kebab_case(s: Seq<char>) -> Seq<char>;

/// convert_case's `to_case(Case::Kebab)`; its result is named
/// [`kebab_case`]. Its words are pieces of the input, lowercased, joined
/// by `-`, so ASCII input gives ASCII output.
#[verifier::external_body]
fn case_to_kebab(s: &str) -> (r: String)
    ensures
        r@ == kebab_case(s@),
        vstd::utf8::is_ascii_chars(s@) ==> vstd::utf8::is_ascii_chars(r@),
{
    s.to_case(convert_case::Case::Kebab)
}

/// The words of `s` (ASCII letters and digits), separated by single spaces.
pub fn ascii_words(s: &str) -> (r: String)
    ensures
        r@ == words_of(s@),
{
    let n = s.unicode_len();
    let mut out = String::new();
    let mut i: usize = 0;
    while i < n
        invariant
            n == s@.len(),
            i <= n,
            out@ == words_of(s@.subrange(0, i as int)),
        decreases n - i,
    {
        let c = s.get_char(i);
        let alnum = ('a' <= c && c <= 'z') || ('A' <= c && c <= 'Z') || ('0' <= c && c <= '9');
        let prev_alnum = if i == 0 {
            true
        } else {
            let p = s.get_char(i - 1);
            ('a' <= p && p <= 'z') || ('A' <= p && p <= 'Z') || ('0' <= p && p <= '9')
        };
        proof {
            let sub = s@.subrange(0, i + 1);
            assert(sub.drop_last() =~= s@.subrange(0, i as int));
            assert(sub.last() == c);
            if i > 0 {
                assert(sub[sub.len() - 2] == s@[i - 1]);
            }
        }
        if alnum {
            if out.unicode_len() > 0 && !prev_alnum {
                out.append(" ");
            }
            let one = s.substring_char(i, i + 1);
            proof {
                assert(one@ =~= seq![c]);
            }
            out.append(one);
            proof {
                reveal_strlit(" ");
            }
        }
        proof {
            let sub = s@.subrange(0, i + 1);
            if alnum && words_of(s@.subrange(0, i as int)).len() > 0 && !prev_alnum {
                assert(out@ =~= words_of(s@.subrange(0, i as int)) + seq![' ', c]);
            } else if alnum {
                assert(out@ =~= words_of(s@.subrange(0, i as int)).push(c));
            }
        }
        i = i + 1;
    }
    assert(s@.subrange(0, n as int) =~= s@);
    out
}

/// `s` in kebab case: its ASCII letters and digits, the other characters
/// acting as word separators, converted by convert_case.
pub fn to_kebab_raw(s: &str) -> (r: String)
    ensures
        r@ == kebab_case(words_of(s@)),
        vstd::utf8::is_ascii_chars(r@),
{
    let words = ascii_words(s);
    proof {
        lemma_words_ascii(s@);
    }
    case_to_kebab(words.as_str())
}

/// The index of the last `c` in `s`, if any.
pub open spec fn last_index_of(s: Seq<char>, c: char) -> Option<int>
    decreases s.len(),
{
    if s.len() == 0 {
        None
    } else if s.last() == c {
        Some(s.len() - 1)
    } else {
        last_index_of(s.drop_last(), c)
    }
}

/// `s` cut to at most `max_len` characters, at the last hyphen within the
/// limit when there is one.
pub open spec fn truncated_kebab(s: Seq<char>, max_len: nat) -> Seq<char> {
    if s.len() <= max_len {
        s
    } else {
        let slice = s.subrange(0, max_len as int);
        match last_index_of(slice, '-') {
            Some(p) => slice.subrange(0, p),
            None => slice,
        }
    }
}

/// Truncate an ASCII kebab-case text to `max_len`, cutting at a hyphen.
pub fn truncate_kebab(s: &str, max_len: usize) -> (r: String)
    requires
        s.is_ascii(),
    ensures
        r@ == truncated_kebab(s@, max_len as nat),
{
    let n = s.unicode_len();
    if n <= max_len {
        return s.to_owned();
    }
    let slice = s.substring_char(0, max_len);
    let mut j: usize = max_len;
    assert(slice@.subrange(0, max_len as int) =~= slice@);
    while j > 0
        invariant
            j <= max_len,
            max_len < n,
            n == s@.len(),
            slice@ == s@.subrange(0, max_len as int),
            last_index_of(slice@, '-') == last_index_of(slice@.subrange(0, j as int), '-'),
        decreases j,
    {
        let c = slice.get_char(j - 1);
        proof {
            assert(slice@.subrange(0, j as int).drop_last() =~= slice@.subrange(0, j - 1));
            assert(slice@.subrange(0, j as int).last() == c);
        }
        if c == '-' {
            return slice.substring_char(0, j - 1).to_owned();
        }
        j = j - 1;
    }
    slice.to_owned()
}

/// `s` in kebab case, truncated to `max_len` at a hyphen boundary.
pub fn to_kebab(s: &str, max_len: usize) -> (r: String)
    ensures
        r@ == truncated_kebab(kebab_case(words_of(s@)), max_len as nat),
{
    let raw = to_kebab_raw(s);
    truncate_kebab(raw.as_str(), max_len)
}

/// The words of a text are ASCII.
proof fn lemma_words_ascii(s: Seq<char>)
    ensures
        vstd::utf8::is_ascii_chars(words_of(s)),
    decreases s.len(),
{
    if s.len() > 0 {
        lemma_words_ascii(s.drop_last());
        let p = words_of(s.drop_last());
        assert(vstd::utf8::is_ascii_chars(p + seq![' ', s.last()]) || !ascii_alnum(s.last()));
        assert(vstd::utf8::is_ascii_chars(p.push(s.last())) || !ascii_alnum(s.last()));
    }
}

/// The `YYYY-MM-DD` UTC date jiff gives a Unix time in seconds, or `None`
/// where jiff has no timestamp for it.
pub uninterp spec fn utc_date(epoch_secs: i64) -> Option<Seq<char>>;

/// jiff's `Timestamp::from_second`, formatted in UTC with `%Y-%m-%d`; the
/// result is named [`utc_date`] and nothing more is claimed of it.
#[verifier::external_body]
fn jiff_utc_date(epoch_secs: i64) -> (r: Option<String>)
    ensures
        r is Some <==> utc_date(epoch_secs) is Some,
        r matches Some(d) ==> d@ == utc_date(epoch_secs)->Some_0,
{
    match jiff::Timestamp::from_second(epoch_secs) {
        Ok(ts) => Some(ts.to_zoned(jiff::tz::TimeZone::UTC).strftime("%Y-%m-%d").to_string()),
        Err(_) => None,
    }
}

/// A git timestamp (seconds since the epoch) as `YYYY-MM-DD`, or `-` when
/// it is out of range.
pub fn format_git_date(epoch_secs: i64) -> (r: String)
    ensures
        r@ == match utc_date(epoch_secs) {
            Some(d) => d,
            None => "-"@,
        },
{
    match jiff_utc_date(epoch_secs) {
        Some(d) => d,
        None => "-".to_owned(),
    }
}

/// The unified diff similar computes from `old` to `new` (line by line),
/// with the given header names.
pub uninterp spec fn line_diff(old: Seq<char>, new: Seq<char>, a: Seq<char>, b: Seq<char>) -> Seq<char>;

/// similar's `TextDiff::from_lines(old, new).unified_diff().header(a, b)`,
/// rendered; the result is named [`line_diff`]. Identical texts give no
/// hunk, and the header is written only before a hunk, so their diff is
/// empty.
#[verifier::external_body]
fn similar_unified_diff(old: &str, new: &str, a: &str, b: &str) -> (r: String)
    ensures
        r@ == line_diff(old@, new@, a@, b@),
        old@ == new@ ==> r@.len() == 0,
{
    similar::TextDiff::from_lines(old, new).unified_diff().header(a, b).to_string()
}

/// The unified diff from `old` to `new` with `a/<path>` and `b/<path>`
/// headers.
pub fn unified_diff(old: &str, new: &str, path: &str) -> (r: String)
    ensures
        r@ == line_diff(old@, new@, "a/"@ + path@, "b/"@ + path@),
        old@ == new@ ==> r@.len() == 0,
{
    let mut a = String::from_str("a/");
    a.append(path);
    let mut b = String::from_str("b/");
    b.append(path);
    similar_unified_diff(old, new, a.as_str(), b.as_str())
}

/// Where `last_index_of` finds `c`, `c` is.
proof fn lemma_last_index_of(s: Seq<char>, c: char)
    ensures
        last_index_of(s, c) matches Some(p) ==> 0 <= p < s.len() && s[p] == c,
    decreases s.len(),
{
    if s.len() > 0 && s.last() != c {
        lemma_last_index_of(s.drop_last(), c);
    }
}

/// Truncation keeps a prefix of the text no longer than the limit.
pub proof fn law_truncation_is_bounded_prefix(s: Seq<char>, max_len: nat)
    ensures
        truncated_kebab(s, max_len).len() <= max_len,
        truncated_kebab(s, max_len) == s.subrange(0, truncated_kebab(s, max_len).len() as int),
{
    if s.len() <= max_len {
        assert(s.subrange(0, s.len() as int) =~= s);
    } else {
        let slice = s.subrange(0, max_len as int);
        lemma_last_index_of(slice, '-');
        match last_index_of(slice, '-') {
            Some(p) => {
                assert(slice.subrange(0, p) =~= s.subrange(0, p));
            },
            None => {},
        }
    }
}

} // verus!
