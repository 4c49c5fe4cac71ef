//! Route pattern strings (`"symbols"`, `"**"`, `"{name}@"`, `"{..path}"`)
//! and their parsing and validation.

use vstd::prelude::*;
use vstd::string::*;
use crate::text::{str_eq, strip_prefix};

verus! {

/// A modifier chained on a static file declaration.
#[derive(Debug, Clone, Copy, PartialEq, Eq, Structural)]
pub enum FileModifier {
    /// Content is produced afresh on every read.
    NoCache,
    /// Left out of directory listings, reachable by name.
    Hidden,
    /// Line ranges can be sliced out of the file.
    Sliceable,
}

/// A parsed segment pattern.
pub enum ParsedPattern {
    /// A literal segment.
    Exact(String),
    /// `**`: any remaining segments.
    Glob,
    /// `{name}` with optional text before and after it.
    Capture { name: String, prefix: Option<String>, suffix: Option<String> },
    /// `{..name}` with an optional suffix: the remaining segments.
    RestCapture { name: String, suffix: Option<String> },
}

/// Mathematical view of a [`ParsedPattern`].
pub ghost enum PatternView {
    Exact(Seq<char>),
    Glob,
    Capture { name: Seq<char>, prefix: Option<Seq<char>>, suffix: Option<Seq<char>> },
    RestCapture { name: Seq<char>, suffix: Option<Seq<char>> },
}

/// The characters of an optional string.
pub open spec fn opt_view(o: Option<String>) -> Option<Seq<char>> {
    match o {
        Some(s) => Some(s@),
        None => None,
    }
}

impl View for ParsedPattern {
    type V = PatternView;

    open spec fn view(&self) -> PatternView {
        match self {
            ParsedPattern::Exact(s) => PatternView::Exact(s@),
            ParsedPattern::Glob => PatternView::Glob,
            ParsedPattern::Capture { name, prefix, suffix } => PatternView::Capture {
                name: name@,
                prefix: opt_view(*prefix),
                suffix: opt_view(*suffix),
            },
            ParsedPattern::RestCapture { name, suffix } => PatternView::RestCapture {
                name: name@,
                suffix: opt_view(*suffix),
            },
        }
    }
}

/// Why a pattern or a file modifier is rejected.
#[derive(Debug, PartialEq, Eq)]
pub enum PatternError {
    /// More than one `{`.
    MultipleOpen,
    /// More than one `}`.
    MultipleClose,
    /// The `}` comes before the `{`.
    CloseBeforeOpen,
    /// `{}`: nothing between the braces.
    EmptyBraces,
    /// A `{` without a `}`.
    Unclosed,
    /// A `}` without a `{`.
    Unopened,
    /// `{..}`: no name after the rest marker.
    EmptyName,
    /// The capture name does not start with a letter or `_`.
    InvalidIdentStart,
    /// The capture name holds a character other than letters, digits, `_`.
    InvalidIdentChars,
    /// A rest capture with text before it.
    RestWithPrefix,
    /// A lookup pattern that is not a capture.
    LookupNotCapture,
    /// A lookup capture with neither prefix nor suffix.
    LookupWithoutAffix,
    /// A file modifier of this name does not exist.
    UnknownModifier(String),
}

/// The message of each pattern error.
pub open spec fn pattern_error_text(e: PatternError) -> Seq<char> {
    match e {
        PatternError::MultipleOpen => "pattern contains multiple `{` — only one capture group `{name}` is supported"@,
        PatternError::MultipleClose => "pattern contains multiple `}` — only one capture group `{name}` is supported"@,
        PatternError::CloseBeforeOpen => "closing `}` appears before opening `{` in pattern"@,
        PatternError::EmptyBraces => "empty capture name in pattern — expected `{name}`"@,
        PatternError::Unclosed => "unclosed `{` in pattern — expected `{name}`"@,
        PatternError::Unopened => "unopened `}` in pattern — expected `{name}`"@,
        PatternError::EmptyName => "empty capture name"@,
        PatternError::InvalidIdentStart => "capture name is not a valid identifier"@,
        PatternError::InvalidIdentChars => "capture name contains invalid characters"@,
        PatternError::RestWithPrefix => "rest captures (`{..name}`) cannot have a prefix"@,
        PatternError::LookupNotCapture => "lookup pattern must be a capture (e.g., \"{name}.ext\" or \"PREFIX:{name}\")"@,
        PatternError::LookupWithoutAffix => "lookup pattern capture must have a prefix or suffix (e.g., \"{}.ext\" or \"BLAME.md:{}\")"@,
        PatternError::UnknownModifier(_) => "unknown file modifier"@,
    }
}

impl PatternError {
    /// The error's message.
    pub fn message(&self) -> (r: &'static str)
        ensures
            r@ == pattern_error_text(*self),
    {
        match self {
            PatternError::MultipleOpen => "pattern contains multiple `{` — only one capture group `{name}` is supported",
            PatternError::MultipleClose => "pattern contains multiple `}` — only one capture group `{name}` is supported",
            PatternError::CloseBeforeOpen => "closing `}` appears before opening `{` in pattern",
            PatternError::EmptyBraces => "empty capture name in pattern — expected `{name}`",
            PatternError::Unclosed => "unclosed `{` in pattern — expected `{name}`",
            PatternError::Unopened => "unopened `}` in pattern — expected `{name}`",
            PatternError::EmptyName => "empty capture name",
            PatternError::InvalidIdentStart => "capture name is not a valid identifier",
            PatternError::InvalidIdentChars => "capture name contains invalid characters",
            PatternError::RestWithPrefix => "rest captures (`{..name}`) cannot have a prefix",
            PatternError::LookupNotCapture => "lookup pattern must be a capture (e.g., \"{name}.ext\" or \"PREFIX:{name}\")",
            PatternError::LookupWithoutAffix => "lookup pattern capture must have a prefix or suffix (e.g., \"{}.ext\" or \"BLAME.md:{}\")",
            PatternError::UnknownModifier(_) => "unknown file modifier",
        }
    }
}

/// The number of occurrences of `c` in `s`.
pub open spec fn count_of(s: Seq<char>, c: char) -> nat
    decreases s.len(),
{
    if s.len() == 0 {
        0
    } else {
        count_of(s.drop_last(), c) + if s.last() == c { 1nat } else { 0nat }
    }
}

/// The index of the first `c` in `s`, if any.
pub open spec fn first_of(s: Seq<char>, c: char) -> Option<int>
    decreases s.len(),
{
    if s.len() == 0 {
        None
    } else {
        match first_of(s.drop_last(), c) {
            Some(i) => Some(i),
            None => if s.last() == c { Some(s.len() - 1) } else { None },
        }
    }
}

/// `first_of` names the first occurrence.
proof fn lemma_first_of(s: Seq<char>, c: char)
    ensures
        first_of(s, c) matches Some(i) ==> 0 <= i < s.len() && s[i] == c,
    decreases s.len(),
{
    if s.len() > 0 {
        lemma_first_of(s.drop_last(), c);
        if first_of(s.drop_last(), c) is Some {
            let i = first_of(s.drop_last(), c)->Some_0;
            assert(s.drop_last()[i] == s[i]);
        }
    }
}

/// The character positions of the braces of a pattern's single capture,
/// `None` when it has no braces, or why its braces are malformed.
pub open spec fn brace_positions(s: Seq<char>) -> Result<Option<(int, int)>, PatternError> {
    let oc = count_of(s, '{');
    let cc = count_of(s, '}');
    if oc == 0 && cc == 0 {
        Ok(None)
    } else if oc > 1 {
        Err(PatternError::MultipleOpen)
    } else if cc > 1 {
        Err(PatternError::MultipleClose)
    } else {
        match (first_of(s, '{'), first_of(s, '}')) {
            (Some(o), Some(c)) => if c < o {
                Err(PatternError::CloseBeforeOpen)
            } else if c == o + 1 {
                Err(PatternError::EmptyBraces)
            } else {
                Ok(Some((o, c)))
            },
            (Some(_), None) => Err(PatternError::Unclosed),
            _ => Err(PatternError::Unopened),
        }
    }
}

/// Check the braces of a pattern: at most one `{name}`, well formed.
/// Returns the character positions of `{` and `}`, or `None` without braces.
fn brace_chars(s: &str) -> (r: Result<Option<(usize, usize)>, PatternError>)
    ensures
        match (r, brace_positions(s@)) {
            (Ok(None), Ok(None)) => true,
            (Ok(Some((o, c))), Ok(Some((so, sc)))) => o == so && c == sc,
            (Err(e), Err(se)) => e == se,
            _ => false,
        },
        r matches Ok(Some((o, c))) ==> o + 1 < c < s@.len(),
{
    proof {
        lemma_first_of(s@, '{');
        lemma_first_of(s@, '}');
    }
    let n = s.unicode_len();
    let mut oc: usize = 0;
    let mut cc: usize = 0;
    let mut op: Option<usize> = None;
    let mut cp: Option<usize> = None;
    let mut i: usize = 0;
    while i < n
        invariant
            n == s@.len(),
            i <= n,
            oc == count_of(s@.subrange(0, i as int), '{'),
            cc == count_of(s@.subrange(0, i as int), '}'),
            oc <= i,
            cc <= i,
            match op {
                Some(p) => first_of(s@.subrange(0, i as int), '{') == Some(p as int),
                None => first_of(s@.subrange(0, i as int), '{') is None,
            },
            match cp {
                Some(p) => first_of(s@.subrange(0, i as int), '}') == Some(p as int),
                None => first_of(s@.subrange(0, i as int), '}') is None,
            },
            op is None <==> oc == 0,
            cp is None <==> cc == 0,
            op matches Some(p) ==> p < i,
            cp matches Some(p) ==> p < i,
        decreases n - i,
    {
        let ch = s.get_char(i);
        proof {
            let sub = s@.subrange(0, i + 1);
            assert(sub.drop_last() =~= s@.subrange(0, i as int));
            assert(sub.last() == ch);
        }
        if ch == '{' {
            oc = oc + 1;
            if op.is_none() {
                op = Some(i);
            }
        } else if ch == '}' {
            cc = cc + 1;
            if cp.is_none() {
                cp = Some(i);
            }
        }
        i = i + 1;
    }
    assert(s@.subrange(0, n as int) =~= s@);
    if oc == 0 && cc == 0 {
        return Ok(None);
    }
    if oc > 1 {
        return Err(PatternError::MultipleOpen);
    }
    if cc > 1 {
        return Err(PatternError::MultipleClose);
    }
    match (op, cp) {
        (Some(o), Some(c)) => {
            if c < o {
                return Err(PatternError::CloseBeforeOpen);
            }
            if c == o + 1 {
                return Err(PatternError::EmptyBraces);
            }
            Ok(Some((o, c)))
        },
        (Some(_), None) => Err(PatternError::Unclosed),
        _ => Err(PatternError::Unopened),
    }
}

/// The number of bytes UTF-8 takes for `c`.
pub open spec fn utf8_width(c: char) -> nat {
    let v = c as u32;
    if v <= 0x7F { 1 } else if v <= 0x7FF { 2 } else if v <= 0xFFFF { 3 } else { 4 }
}

/// The number of bytes UTF-8 takes for `s`.
pub open spec fn utf8_len(s: Seq<char>) -> nat
    decreases s.len(),
{
    if s.len() == 0 { 0 } else { utf8_width(s[0]) + utf8_len(s.drop_first()) }
}

/// The byte offset of the character at index `i` of `s`.
pub open spec fn byte_offset(s: Seq<char>, i: int) -> nat {
    utf8_len(s.subrange(0, i))
}

/// The UTF-8 length is that of vstd's encoding.
proof fn lemma_utf8_len_encoding(s: Seq<char>)
    ensures
        utf8_len(s) == vstd::utf8::encode_utf8(s).len(),
    decreases s.len(),
{
    if s.len() > 0 {
        lemma_utf8_len_encoding(s.drop_first());
        vstd::utf8::char_is_scalar(s[0]);
    }
}

/// Appending a character adds its width.
proof fn lemma_utf8_len_push(s: Seq<char>, c: char)
    ensures
        utf8_len(s.push(c)) == utf8_len(s) + utf8_width(c),
    decreases s.len(),
{
    if s.len() > 0 {
        lemma_utf8_len_push(s.drop_first(), c);
        assert(s.push(c).drop_first() =~= s.drop_first().push(c));
        assert(s.push(c)[0] == s[0]);
    } else {
        assert(s.push(c).drop_first() =~= Seq::<char>::empty());
        assert(s.push(c)[0] == c);
        assert(utf8_len(Seq::<char>::empty()) == 0);
    }
}

/// A prefix takes no more bytes than the whole.
proof fn lemma_utf8_len_prefix(s: Seq<char>, i: int)
    requires
        0 <= i <= s.len(),
    ensures
        utf8_len(s.subrange(0, i)) <= utf8_len(s),
    decreases s.len() - i,
{
    if i < s.len() {
        lemma_utf8_len_prefix(s, i + 1);
        lemma_utf8_len_push(s.subrange(0, i), s[i]);
        assert(s.subrange(0, i + 1) =~= s.subrange(0, i).push(s[i]));
    } else {
        assert(s.subrange(0, i) =~= s);
    }
}

/// The byte offset of the character at index `i` of `s`.
fn byte_offset_of(s: &str, i: usize) -> (r: usize)
    requires
        i <= s@.len(),
        vstd::utf8::encode_utf8(s@).len() <= usize::MAX,
    ensures
        r == byte_offset(s@, i as int),
{
    proof {
        lemma_utf8_len_encoding(s@);
        lemma_utf8_len_prefix(s@, i as int);
    }
    let mut off: usize = 0;
    let mut j: usize = 0;
    assert(s@.subrange(0, 0) =~= Seq::<char>::empty());
    while j < i
        invariant
            i <= s@.len(),
            j <= i,
            off == utf8_len(s@.subrange(0, j as int)),
            utf8_len(s@.subrange(0, i as int)) <= usize::MAX,
        decreases i - j,
    {
        let c = s.get_char(j);
        proof {
            lemma_utf8_len_push(s@.subrange(0, j as int), c);
            assert(s@.subrange(0, j + 1) =~= s@.subrange(0, j as int).push(c));
            lemma_utf8_len_prefix(s@.subrange(0, i as int), j + 1);
            assert(s@.subrange(0, i as int).subrange(0, j + 1) =~= s@.subrange(0, j + 1));
        }
        let v = c as u32;
        let w: usize = if v <= 0x7F { 1 } else if v <= 0x7FF { 2 } else if v <= 0xFFFF { 3 } else { 4 };
        off = off + w;
        j = j + 1;
    }
    off
}

/// Check the braces of a pattern: at most one `{name}`, well formed.
/// Returns the byte offsets of `{` and `}`, or `None` without braces.
pub fn validate_braces(s: &str) -> (r: Result<Option<(usize, usize)>, PatternError>)
    requires
        vstd::utf8::encode_utf8(s@).len() <= usize::MAX,
    ensures
        match (r, brace_positions(s@)) {
            (Ok(None), Ok(None)) => true,
            (Ok(Some((o, c))), Ok(Some((so, sc)))) => o == byte_offset(s@, so) && c == byte_offset(s@, sc),
            (Err(e), Err(se)) => e == se,
            _ => false,
        },
{
    match brace_chars(s) {
        Ok(Some((o, c))) => Ok(Some((byte_offset_of(s, o), byte_offset_of(s, c)))),
        Ok(None) => Ok(None),
        Err(e) => Err(e),
    }
}

/// A character that may start an identifier: an ASCII letter or `_`.
pub open spec fn ident_start(c: char) -> bool {
    ('a' <= c && c <= 'z') || ('A' <= c && c <= 'Z') || c == '_'
}

/// A character that may continue an identifier: an ASCII letter or digit, or `_`.
pub open spec fn ident_char(c: char) -> bool {
    ident_start(c) || ('0' <= c && c <= '9')
}

/// Why a non-empty capture name is not an identifier, if it is not one.
pub open spec fn name_problem(name: Seq<char>) -> Option<PatternError> {
    if !ident_start(name[0]) {
        Some(PatternError::InvalidIdentStart)
    } else if !(forall|i: int| 0 <= i < name.len() ==> ident_char(#[trigger] name[i])) {
        Some(PatternError::InvalidIdentChars)
    } else {
        None
    }
}

/// Check that a non-empty capture name is an ASCII identifier.
fn validate_capture_name(name: &str) -> (r: Result<(), PatternError>)
    requires
        name@.len() > 0,
    ensures
        match name_problem(name@) {
            None => r is Ok,
            Some(e) => r == Err::<(), PatternError>(e),
        },
{
    let c0 = name.get_char(0);
    if !(('a' <= c0 && c0 <= 'z') || ('A' <= c0 && c0 <= 'Z') || c0 == '_') {
        return Err(PatternError::InvalidIdentStart);
    }
    let n = name.unicode_len();
    let mut i: usize = 0;
    while i < n
        invariant
            n == name@.len(),
            n > 0,
            ident_start(name@[0]),
            i <= n,
            forall|j: int| 0 <= j < i ==> ident_char(#[trigger] name@[j]),
        decreases n - i,
    {
        let c = name.get_char(i);
        if !(('a' <= c && c <= 'z') || ('A' <= c && c <= 'Z') || c == '_' || ('0' <= c && c <= '9')) {
            assert(!ident_char(name@[i as int]));
            return Err(PatternError::InvalidIdentChars);
        }
        i = i + 1;
    }
    Ok(())
}

/// The text before position `o`, if any.
pub open spec fn before(s: Seq<char>, o: int) -> Option<Seq<char>> {
    if o > 0 {
        Some(s.subrange(0, o))
    } else {
        None
    }
}

/// The text after position `c`, if any.
pub open spec fn after(s: Seq<char>, c: int) -> Option<Seq<char>> {
    if c + 1 < s.len() {
        Some(s.subrange(c + 1, s.len() as int))
    } else {
        None
    }
}

/// What a pattern string parses to: `**` is a glob, a string without braces
/// an exact segment, `{name}` a capture with the text around it as prefix
/// and suffix, and `{..name}` a rest capture, which takes no prefix.
pub open spec fn pattern_of(s: Seq<char>) -> Result<PatternView, PatternError> {
    if s == "**"@ {
        Ok(PatternView::Glob)
    } else {
        match brace_positions(s) {
            Err(e) => Err(e),
            Ok(None) => Ok(PatternView::Exact(s)),
            Ok(Some((o, c))) => {
                let inner = s.subrange(o + 1, c);
                let is_rest = inner.len() >= 2 && inner.subrange(0, 2) == ".."@;
                let name = if is_rest { inner.subrange(2, inner.len() as int) } else { inner };
                if name.len() == 0 {
                    Err(PatternError::EmptyName)
                } else if name_problem(name) is Some {
                    Err(name_problem(name)->Some_0)
                } else if is_rest {
                    if o > 0 {
                        Err(PatternError::RestWithPrefix)
                    } else {
                        Ok(PatternView::RestCapture { name, suffix: after(s, c) })
                    }
                } else {
                    Ok(PatternView::Capture { name, prefix: before(s, o), suffix: after(s, c) })
                }
            },
        }
    }
}

/// Parse a segment pattern string.
pub fn parse_pattern(s: &str) -> (r: Result<ParsedPattern, PatternError>)
    ensures
        match (r, pattern_of(s@)) {
            (Ok(p), Ok(v)) => p@ == v,
            (Err(e), Err(se)) => e == se,
            _ => false,
        },
{
    proof {
        reveal_strlit("**");
        reveal_strlit("..");
    }
    if str_eq(s, "**") {
        return Ok(ParsedPattern::Glob);
    }
    let (open, close) = match brace_chars(s) {
        Err(e) => return Err(e),
        Ok(None) => return Ok(ParsedPattern::Exact(s.to_owned())),
        Ok(Some(pos)) => pos,
    };
    let n = s.unicode_len();
    let inner = s.substring_char(open + 1, close);
    let (is_rest, name) = match strip_prefix(inner, "..") {
        Some(rest) => (true, rest),
        None => (false, inner),
    };
    proof {
        if is_rest {
            assert(inner@.subrange(0, 2) == ".."@);
            assert(name@ =~= inner@.subrange(2, inner@.len() as int));
        } else {
            assert(!(inner@.len() >= 2 && inner@.subrange(0, 2) == ".."@));
        }
    }
    if name.unicode_len() == 0 {
        return Err(PatternError::EmptyName);
    }
    match validate_capture_name(name) {
        Err(e) => return Err(e),
        Ok(()) => {},
    }
    let prefix = if open > 0 {
        Some(s.substring_char(0, open).to_owned())
    } else {
        None
    };
    let suffix = if close + 1 < n {
        Some(s.substring_char(close + 1, n).to_owned())
    } else {
        None
    };
    if is_rest {
        if open > 0 {
            return Err(PatternError::RestWithPrefix);
        }
        Ok(ParsedPattern::RestCapture { name: name.to_owned(), suffix })
    } else {
        Ok(ParsedPattern::Capture { name: name.to_owned(), prefix, suffix })
    }
}

/// A lookup pattern must be a capture with a prefix or a suffix.
pub open spec fn lookup_problem(p: PatternView) -> Option<PatternError> {
    match p {
        PatternView::Capture { prefix, suffix, .. } => if prefix is None && suffix is None {
            Some(PatternError::LookupWithoutAffix)
        } else {
            None
        },
        _ => Some(PatternError::LookupNotCapture),
    }
}

/// Parse the pattern of a pattern lookup: a capture with a prefix or a
/// suffix around it.
pub fn parse_lookup_pattern(s: &str) -> (r: Result<ParsedPattern, PatternError>)
    ensures
        match pattern_of(s@) {
            Err(e) => r == Err::<ParsedPattern, PatternError>(e),
            Ok(v) => match lookup_problem(v) {
                Some(e) => r == Err::<ParsedPattern, PatternError>(e),
                None => r matches Ok(p) && p@ == v,
            },
        },
{
    let p = match parse_pattern(s) {
        Ok(p) => p,
        Err(e) => return Err(e),
    };
    match &p {
        ParsedPattern::Capture { prefix, suffix, .. } => {
            if prefix.is_none() && suffix.is_none() {
                return Err(PatternError::LookupWithoutAffix);
            }
        },
        _ => return Err(PatternError::LookupNotCapture),
    }
    Ok(p)
}

/// The modifier a name stands for.
pub open spec fn modifier_named(s: Seq<char>) -> Option<FileModifier> {
    if s == "no_cache"@ {
        Some(FileModifier::NoCache)
    } else if s == "hidden"@ {
        Some(FileModifier::Hidden)
    } else if s == "sliceable"@ {
        Some(FileModifier::Sliceable)
    } else {
        None
    }
}

/// The file modifier named `name`.
pub fn resolve_file_modifier(name: &str) -> (r: Result<FileModifier, PatternError>)
    ensures
        match modifier_named(name@) {
            Some(m) => r == Ok::<FileModifier, PatternError>(m),
            None => r matches Err(PatternError::UnknownModifier(n)) && n@ == name@,
        },
{
    if str_eq(name, "no_cache") {
        Ok(FileModifier::NoCache)
    } else if str_eq(name, "hidden") {
        Ok(FileModifier::Hidden)
    } else if str_eq(name, "sliceable") {
        Ok(FileModifier::Sliceable)
    } else {
        Err(PatternError::UnknownModifier(name.to_owned()))
    }
}

/// Two patterns of one level are ambiguous together: equal exact
/// segments, or two captures, two rest captures, or two globs.
pub open spec fn ambiguous(a: PatternView, b: PatternView) -> bool {
    match (a, b) {
        (PatternView::Exact(x), PatternView::Exact(y)) => x == y,
        (PatternView::Capture { .. }, PatternView::Capture { .. }) => true,
        (PatternView::RestCapture { .. }, PatternView::RestCapture { .. }) => true,
        (PatternView::Glob, PatternView::Glob) => true,
        _ => false,
    }
}

/// Why a route tree is ambiguous.
#[derive(Debug, PartialEq, Eq)]
pub enum RouteConflict {
    /// The same exact segment twice at one level.
    DuplicateExact(String),
    /// Two captures at one level.
    MultipleCaptures,
    /// Two rest captures at one level.
    MultipleRestCaptures,
    /// Two globs at one level.
    MultipleGlobs,
}

/// Whether two patterns of one level are ambiguous together; the conflict
/// if they are.
pub(crate) fn conflict_between(a: &ParsedPattern, b: &ParsedPattern) -> (r: Option<RouteConflict>)
    ensures
        r is Some <==> ambiguous(a@, b@),
        r matches Some(c) ==> match c {
            RouteConflict::DuplicateExact(n) => a@ == PatternView::Exact(n@),
            RouteConflict::MultipleCaptures => a@ is Capture,
            RouteConflict::MultipleRestCaptures => a@ is RestCapture,
            RouteConflict::MultipleGlobs => a@ is Glob,
        },
{
    match (a, b) {
        (ParsedPattern::Exact(x), ParsedPattern::Exact(y)) => {
            if str_eq(x.as_str(), y.as_str()) {
                Some(RouteConflict::DuplicateExact(x.clone()))
            } else {
                None
            }
        },
        (ParsedPattern::Capture { .. }, ParsedPattern::Capture { .. }) => Some(RouteConflict::MultipleCaptures),
        (ParsedPattern::RestCapture { .. }, ParsedPattern::RestCapture { .. }) => Some(RouteConflict::MultipleRestCaptures),
        (ParsedPattern::Glob, ParsedPattern::Glob) => Some(RouteConflict::MultipleGlobs),
        _ => None,
    }
}

/// The text of an optional affix; empty when absent.
pub open spec fn opt_text(o: Option<Seq<char>>) -> Seq<char> {
    match o {
        Some(t) => t,
        None => Seq::empty(),
    }
}

/// The pattern string a parsed pattern stands for.
pub open spec fn pattern_text(p: PatternView) -> Seq<char> {
    match p {
        PatternView::Glob => "**"@,
        PatternView::Exact(e) => e,
        PatternView::Capture { name, prefix, suffix } => opt_text(prefix) + "{"@ + name + "}"@ + opt_text(suffix),
        PatternView::RestCapture { name, suffix } => "{.."@ + name + "}"@ + opt_text(suffix),
    }
}

/// A parsed pattern gives its string back: a glob is `**`, an exact
/// segment is the string itself and holds no brace, a capture is its
/// prefix, `{`, its name, `}` and its suffix, and a rest capture is `{..`,
/// its name, `}` and its suffix; a present prefix or suffix is never
/// empty, and a name never is.
pub proof fn law_pattern_round_trip(s: Seq<char>)
    ensures
        pattern_of(s) matches Ok(p) ==> {
            &&& pattern_text(p) == s
            &&& p is Exact ==> count_of(s, '{') == 0 && count_of(s, '}') == 0
            &&& p matches PatternView::Capture { name, prefix, suffix } ==> name.len() > 0
                && (prefix matches Some(t) ==> t.len() > 0) && (suffix matches Some(t) ==> t.len() > 0)
            &&& p matches PatternView::RestCapture { name, suffix } ==> name.len() > 0
                && (suffix matches Some(t) ==> t.len() > 0)
        },
{
    reveal_strlit("**");
    reveal_strlit("{");
    reveal_strlit("}");
    reveal_strlit("{..");
    reveal_strlit("..");
    if s != "**"@ {
        if brace_positions(s) is Ok && brace_positions(s)->Ok_0 is Some {
            let (o, c) = brace_positions(s)->Ok_0->Some_0;
            lemma_first_of(s, '{');
            lemma_first_of(s, '}');
            let inner = s.subrange(o + 1, c);
            let tail = opt_text(after(s, c));
            assert(tail =~= s.subrange(c + 1, s.len() as int));
            assert(opt_text(before(s, o)) =~= s.subrange(0, o));
            assert(s =~= s.subrange(0, o) + "{"@ + inner + "}"@ + tail);
            let is_rest = inner.len() >= 2 && inner.subrange(0, 2) == ".."@;
            if is_rest {
                assert(inner =~= ".."@ + inner.subrange(2, inner.len() as int));
                if o == 0 {
                    assert("{.."@ =~= "{"@ + ".."@);
                    assert(s =~= "{.."@ + inner.subrange(2, inner.len() as int) + "}"@ + tail);
                }
            }
        }
    }
}

} // verus!
