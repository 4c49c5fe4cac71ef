//! The route declaration language: a provider type, a comma, and a braced
//! block of entries, given as token trees.
//!
//! ```text
//! Input   := Type "," { Entries }
//! Entries := (Entry ","?)*
//! Entry   := "lookup" Lookup | "file" File | "children" ( Ident ) | Segment
//! Segment := ["no_emit"] Str ["=>" ("lookup" Lookup | Ident)] [{ Entries }]
//! Lookup  := ( Ident ) | Str "=>" Ident
//! File    := ( Str "," Expr ) ("." Ident [( )])*
//! ```
//!
//! A segment's handler `=> lookup ...` ends the segment; a segment's block
//! may not hold a `children` entry.

use vstd::prelude::*;
use crate::pattern::{
    ambiguous, conflict_between, lookup_problem, modifier_named, opt_text, opt_view, parse_lookup_pattern, parse_pattern, pattern_of,
    resolve_file_modifier, FileModifier, ParsedPattern, PatternError, PatternView, RouteConflict,
};
use crate::text::{is_prefix, is_suffix, str_eq, strip_prefix, strip_suffix};

verus! {

/// The delimiters of a token group.
#[derive(Debug, Clone, Copy, PartialEq, Eq, Structural)]
pub enum Delim {
    Paren,
    Brace,
    Bracket,
}

/// A token tree: an identifier, a string literal (its value), a
/// punctuation character, or a delimited group of token trees.
#[derive(Debug)]
pub enum Token {
    Ident(String),
    Str(String),
    Punct(char),
    Group(Delim, Vec<Token>),
}

/// Mathematical view of a [`Token`].
pub ghost enum TokenView {
    Ident(Seq<char>),
    Str(Seq<char>),
    Punct(char),
    Group(Delim, Seq<TokenView>),
}

impl Token {
    /// The token's view.
    pub open spec fn view_of(self) -> TokenView
        decreases self,
    {
        match self {
            Token::Ident(s) => TokenView::Ident(s@),
            Token::Str(s) => TokenView::Str(s@),
            Token::Punct(c) => TokenView::Punct(c),
            Token::Group(d, items) => TokenView::Group(d, Seq::new(
                items@.len(),
                |i: int| if 0 <= i < items@.len() { items@[i].view_of() } else { TokenView::Punct(' ') },
            )),
        }
    }
}

impl View for Token {
    type V = TokenView;

    open spec fn view(&self) -> TokenView {
        self.view_of()
    }
}

/// The views of a sequence of tokens.
pub open spec fn tokens_view(ts: Seq<Token>) -> Seq<TokenView> {
    Seq::new(ts.len(), |i: int| ts[i]@)
}

/// A group's items viewed are its view's items.
proof fn lemma_group_view(t: Token)
    requires
        t is Group,
    ensures
        t@ == TokenView::Group(t->Group_0, tokens_view(t->Group_1@)),
{
    assert(tokens_view(t->Group_1@) =~= t@->Group_1);
}

impl Token {
    /// An independent copy.
    pub fn duplicate(&self) -> (r: Self)
        ensures
            r@ == self@,
        decreases self,
    {
        match self {
            Token::Ident(s) => Token::Ident(s.clone()),
            Token::Str(s) => Token::Str(s.clone()),
            Token::Punct(c) => Token::Punct(*c),
            Token::Group(d, items) => {
                let out = duplicate_tokens(items.as_slice());
                proof {
                    lemma_group_view(*self);
                    lemma_group_view(Token::Group(*d, out));
                }
                Token::Group(*d, out)
            },
        }
    }
}

/// Independent copies of `ts`.
pub fn duplicate_tokens(ts: &[Token]) -> (r: Vec<Token>)
    ensures
        tokens_view(r@) == tokens_view(ts@),
    decreases ts@,
{
    let mut out: Vec<Token> = Vec::new();
    let n = ts.len();
    let mut i: usize = 0;
    while i < n
        invariant
            n == ts@.len(),
            i <= n,
            out@.len() == i,
            forall|j: int| 0 <= j < i ==> #[trigger] out@[j]@ == ts@[j]@,
        decreases n - i,
    {
        proof {
            assert(decreases_to!(ts@ => ts@[i as int]));
        }
        out.push(ts[i].duplicate());
        i = i + 1;
    }
    assert(tokens_view(out@) =~= tokens_view(ts@));
    out
}

/// What the grammar expected and did not find.
#[derive(Debug, Clone, Copy, PartialEq, Eq, Structural)]
pub enum SyntaxError {
    /// No provider type before the comma.
    ExpectedProviderType,
    /// A comma is missing.
    ExpectedComma,
    /// The braced block of entries is missing.
    ExpectedBlock,
    /// A segment's pattern string is missing.
    ExpectedPattern,
    /// A handler name is missing.
    ExpectedHandler,
    /// `=>` is missing.
    ExpectedArrow,
    /// A lookup's handler or pattern is missing.
    ExpectedLookup,
    /// A file's parenthesized arguments are missing.
    ExpectedFileArgs,
    /// A file's name string is missing.
    ExpectedFileName,
    /// A file's content expression is missing.
    ExpectedExpression,
    /// A modifier name is missing after `.`.
    ExpectedModifier,
    /// An entry starts with an unknown word.
    UnknownEntry,
    /// `children(..)` inside a segment's block, where `=> handler` serves.
    ChildrenInSegment,
    /// Tokens where none may stand.
    UnexpectedTokens,
    /// A second catch-all lookup in one block.
    DuplicateCatchAll,
}

/// Why a route declaration is rejected.
#[derive(Debug)]
pub enum DslError {
    Syntax(SyntaxError),
    Pattern(PatternError),
}

/// Mathematical view of a [`DslError`].
pub ghost enum DslFault {
    Syntax(SyntaxError),
    Pattern(PatternError),
    UnknownModifier(Seq<char>),
}

/// The view of an error.
pub open spec fn fault_of(e: DslError) -> DslFault {
    match e {
        DslError::Syntax(k) => DslFault::Syntax(k),
        DslError::Pattern(PatternError::UnknownModifier(n)) => DslFault::UnknownModifier(n@),
        DslError::Pattern(p) => DslFault::Pattern(p),
    }
}

/// A lookup entry: every unmatched name, or names matching a pattern.
pub enum LookupEntry {
    CatchAll { handler: String },
    Pattern { pattern: ParsedPattern, handler: String },
}

/// Mathematical view of a [`LookupEntry`].
pub ghost enum LookupView {
    CatchAll(Seq<char>),
    Pattern(PatternView, Seq<char>),
}

impl View for LookupEntry {
    type V = LookupView;

    open spec fn view(&self) -> LookupView {
        match self {
            LookupEntry::CatchAll { handler } => LookupView::CatchAll(handler@),
            LookupEntry::Pattern { pattern, handler } => LookupView::Pattern(pattern@, handler@),
        }
    }
}

/// A static file: its name, its content expression, and its modifiers.
pub struct FileEntry {
    pub name: String,
    pub content: Vec<Token>,
    pub modifiers: Vec<FileModifier>,
}

/// Mathematical view of a [`FileEntry`].
pub ghost struct FileView {
    pub name: Seq<char>,
    pub content: Seq<TokenView>,
    pub modifiers: Seq<FileModifier>,
}

impl View for FileEntry {
    type V = FileView;

    open spec fn view(&self) -> FileView {
        FileView { name: self.name@, content: tokens_view(self.content@), modifiers: self.modifiers@ }
    }
}

/// A segment route with its handler, lookups, files and nested segments.
pub struct SegmentRoute {
    pub parsed_pattern: ParsedPattern,
    pub children_handler: Option<String>,
    pub lookups: Vec<LookupEntry>,
    pub files: Vec<FileEntry>,
    pub sub_routes: Vec<SegmentRoute>,
    /// Not listed as a directory by its parent.
    pub no_emit: bool,
}

/// Mathematical view of a [`SegmentRoute`].
pub ghost struct SegmentView {
    pub pattern: PatternView,
    pub handler: Option<Seq<char>>,
    pub lookups: Seq<LookupView>,
    pub files: Seq<FileView>,
    pub subs: Seq<SegmentView>,
    pub no_emit: bool,
}

/// The views of lookups.
pub open spec fn lookups_view(v: Seq<LookupEntry>) -> Seq<LookupView> {
    Seq::new(v.len(), |i: int| v[i]@)
}

/// The views of files.
pub open spec fn files_view(v: Seq<FileEntry>) -> Seq<FileView> {
    Seq::new(v.len(), |i: int| v[i]@)
}

impl SegmentRoute {
    /// The segment's view.
    pub open spec fn view_of(self) -> SegmentView
        decreases self,
    {
        SegmentView {
            pattern: self.parsed_pattern@,
            handler: match self.children_handler {
                Some(h) => Some(h@),
                None => None,
            },
            lookups: lookups_view(self.lookups@),
            files: files_view(self.files@),
            subs: Seq::new(
                self.sub_routes@.len(),
                |i: int| if 0 <= i < self.sub_routes@.len() { self.sub_routes@[i].view_of() } else { arbitrary() },
            ),
            no_emit: self.no_emit,
        }
    }
}

impl View for SegmentRoute {
    type V = SegmentView;

    open spec fn view(&self) -> SegmentView {
        self.view_of()
    }
}

/// The views of segments.
pub open spec fn segments_view(v: Seq<SegmentRoute>) -> Seq<SegmentView> {
    Seq::new(v.len(), |i: int| v[i]@)
}

/// An entry of a route block.
pub enum RouteEntry {
    Segment(SegmentRoute),
    Lookup(LookupEntry),
    File(FileEntry),
    /// A root-level children handler.
    Children(String),
}

/// Mathematical view of a [`RouteEntry`].
pub ghost enum EntryView {
    Segment(SegmentView),
    Lookup(LookupView),
    File(FileView),
    Children(Seq<char>),
}

impl View for RouteEntry {
    type V = EntryView;

    open spec fn view(&self) -> EntryView {
        match self {
            RouteEntry::Segment(s) => EntryView::Segment(s@),
            RouteEntry::Lookup(l) => EntryView::Lookup(l@),
            RouteEntry::File(f) => EntryView::File(f@),
            RouteEntry::Children(h) => EntryView::Children(h@),
        }
    }
}

/// The views of entries.
pub open spec fn entries_view(v: Seq<RouteEntry>) -> Seq<EntryView> {
    Seq::new(v.len(), |i: int| v[i]@)
}

/// A whole route declaration: the provider type's tokens and the entries.
pub struct RoutesInput {
    pub provider_ty: Vec<Token>,
    pub entries: Vec<RouteEntry>,
}

/// `ts[i]` is the punctuation `c`.
pub open spec fn punct_at(ts: Seq<TokenView>, i: int, c: char) -> bool {
    0 <= i < ts.len() && ts[i] == TokenView::Punct(c)
}

/// `=>` starts at `i`.
pub open spec fn arrow_at(ts: Seq<TokenView>, i: int) -> bool {
    punct_at(ts, i, '=') && punct_at(ts, i + 1, '>')
}

/// `ts[i]` is an identifier.
pub open spec fn ident_at(ts: Seq<TokenView>, i: int) -> bool {
    0 <= i < ts.len() && ts[i] is Ident
}

/// `ts[i]` is the identifier `w`.
pub open spec fn word_at(ts: Seq<TokenView>, i: int, w: Seq<char>) -> bool {
    0 <= i < ts.len() && ts[i] == TokenView::Ident(w)
}

/// `ts[i]` is a group with delimiter `d`.
pub open spec fn group_at(ts: Seq<TokenView>, i: int, d: Delim) -> bool {
    0 <= i < ts.len() && ts[i] is Group && ts[i]->Group_0 == d
}

/// The lookup starting at `i` (after the word `lookup`), and where it ends.
pub open spec fn lookup_from(ts: Seq<TokenView>, i: int) -> Result<(LookupView, int), DslFault> {
    if group_at(ts, i, Delim::Paren) {
        let inner = ts[i]->Group_1;
        if inner.len() == 1 && inner[0] is Ident {
            Ok((LookupView::CatchAll(inner[0]->Ident_0), i + 1))
        } else {
            Err(DslFault::Syntax(SyntaxError::ExpectedHandler))
        }
    } else if 0 <= i < ts.len() && ts[i] is Str {
        match pattern_of(ts[i]->Str_0) {
            Err(e) => Err(DslFault::Pattern(e)),
            Ok(p) => match lookup_problem(p) {
                Some(e) => Err(DslFault::Pattern(e)),
                None => if !arrow_at(ts, i + 1) {
                    Err(DslFault::Syntax(SyntaxError::ExpectedArrow))
                } else if ident_at(ts, i + 3) {
                    Ok((LookupView::Pattern(p, ts[i + 3]->Ident_0), i + 4))
                } else {
                    Err(DslFault::Syntax(SyntaxError::ExpectedHandler))
                },
            },
        }
    } else {
        Err(DslFault::Syntax(SyntaxError::ExpectedLookup))
    }
}

/// The modifiers `.name` or `.name()` chained from `i`, and where they end.
pub open spec fn modifiers_from(ts: Seq<TokenView>, i: int) -> Result<(Seq<FileModifier>, int), DslFault>
    decreases ts.len() - i,
{
    if !punct_at(ts, i, '.') {
        Ok((Seq::empty(), i))
    } else if !ident_at(ts, i + 1) {
        Err(DslFault::Syntax(SyntaxError::ExpectedModifier))
    } else {
        match modifier_named(ts[i + 1]->Ident_0) {
            None => Err(DslFault::UnknownModifier(ts[i + 1]->Ident_0)),
            Some(m) => if group_at(ts, i + 2, Delim::Paren) && ts[i + 2]->Group_1.len() > 0 {
                Err(DslFault::Syntax(SyntaxError::UnexpectedTokens))
            } else {
                let j = if group_at(ts, i + 2, Delim::Paren) { i + 3 } else { i + 2 };
                match modifiers_from(ts, j) {
                    Err(e) => Err(e),
                    Ok((ms, k)) => Ok((seq![m] + ms, k)),
                }
            },
        }
    }
}

/// The file declaration starting at `i` (after the word `file`), and where
/// it ends.
pub open spec fn file_from(ts: Seq<TokenView>, i: int) -> Result<(FileView, int), DslFault> {
    if !group_at(ts, i, Delim::Paren) {
        Err(DslFault::Syntax(SyntaxError::ExpectedFileArgs))
    } else {
        let inner = ts[i]->Group_1;
        if !(inner.len() >= 1 && inner[0] is Str) {
            Err(DslFault::Syntax(SyntaxError::ExpectedFileName))
        } else if !punct_at(inner, 1, ',') {
            Err(DslFault::Syntax(SyntaxError::ExpectedComma))
        } else if inner.len() < 3 {
            Err(DslFault::Syntax(SyntaxError::ExpectedExpression))
        } else {
            match modifiers_from(ts, i + 1) {
                Err(e) => Err(e),
                Ok((ms, j)) => Ok((FileView { name: inner[0]->Str_0, content: inner.subrange(2, inner.len() as int), modifiers: ms }, j)),
            }
        }
    }
}

/// The children handler starting at `i` (after the word `children`).
pub open spec fn children_from(ts: Seq<TokenView>, i: int) -> Result<(Seq<char>, int), DslFault> {
    if group_at(ts, i, Delim::Paren) && ts[i]->Group_1.len() == 1 && ts[i]->Group_1[0] is Ident {
        Ok((ts[i]->Group_1[0]->Ident_0, i + 1))
    } else {
        Err(DslFault::Syntax(SyntaxError::ExpectedHandler))
    }
}

/// The lookups among entries, in order.
pub open spec fn lookups_of(es: Seq<EntryView>) -> Seq<LookupView>
    decreases es.len(),
{
    if es.len() == 0 {
        Seq::empty()
    } else {
        lookups_of(es.drop_last()) + match es.last() {
            EntryView::Lookup(l) => seq![l],
            _ => Seq::empty(),
        }
    }
}

/// The files among entries, in order.
pub open spec fn files_of(es: Seq<EntryView>) -> Seq<FileView>
    decreases es.len(),
{
    if es.len() == 0 {
        Seq::empty()
    } else {
        files_of(es.drop_last()) + match es.last() {
            EntryView::File(f) => seq![f],
            _ => Seq::empty(),
        }
    }
}

/// The segments among entries, in order.
pub open spec fn segments_of(es: Seq<EntryView>) -> Seq<SegmentView>
    decreases es.len(),
{
    if es.len() == 0 {
        Seq::empty()
    } else {
        segments_of(es.drop_last()) + match es.last() {
            EntryView::Segment(s) => seq![s],
            _ => Seq::empty(),
        }
    }
}

/// The entries of a block from `i` on, each optionally followed by a
/// comma; in a segment's block a `children` entry is an error.
pub open spec fn entries_from(ts: Seq<TokenView>, i: int, in_segment: bool) -> Result<Seq<EntryView>, DslFault>
    decreases ts, ts.len() + 1 - i, 2int,
{
    if i < 0 || i >= ts.len() {
        Ok(Seq::empty())
    } else {
        match entry_from(ts, i, in_segment) {
            Err(e) => Err(e),
            Ok((e, j)) => {
                let k = if punct_at(ts, j, ',') { j + 1 } else { j };
                if k <= i || k > ts.len() {
                    Err(DslFault::Syntax(SyntaxError::UnexpectedTokens))
                } else {
                    match entries_from(ts, k, in_segment) {
                        Err(f) => Err(f),
                        Ok(rest) => Ok(seq![e] + rest),
                    }
                }
            },
        }
    }
}

/// The entry starting at `i`, and where it ends.
pub open spec fn entry_from(ts: Seq<TokenView>, i: int, in_segment: bool) -> Result<(EntryView, int), DslFault>
    decreases ts, ts.len() + 1 - i, 1int,
{
    if 0 <= i < ts.len() && ts[i] is Ident && ts[i]->Ident_0 != "no_emit"@ {
        let w = ts[i]->Ident_0;
        if w == "lookup"@ {
            match lookup_from(ts, i + 1) {
                Err(e) => Err(e),
                Ok((l, j)) => Ok((EntryView::Lookup(l), j)),
            }
        } else if w == "file"@ {
            match file_from(ts, i + 1) {
                Err(e) => Err(e),
                Ok((f, j)) => Ok((EntryView::File(f), j)),
            }
        } else if w == "children"@ {
            match children_from(ts, i + 1) {
                Err(e) => Err(e),
                Ok((h, j)) => if in_segment {
                    Err(DslFault::Syntax(SyntaxError::ChildrenInSegment))
                } else {
                    Ok((EntryView::Children(h), j))
                },
            }
        } else {
            Err(DslFault::Syntax(SyntaxError::UnknownEntry))
        }
    } else {
        match segment_from(ts, i) {
            Err(e) => Err(e),
            Ok((s, j)) => Ok((EntryView::Segment(s), j)),
        }
    }
}

/// The segment starting at `i`, and where it ends.
pub open spec fn segment_from(ts: Seq<TokenView>, i: int) -> Result<(SegmentView, int), DslFault>
    decreases ts, ts.len() + 1 - i, 0int,
{
    let no_emit = word_at(ts, i, "no_emit"@) && 0 <= i + 1 < ts.len() && ts[i + 1] is Str;
    let p = if no_emit { i + 1 } else { i };
    if !(0 <= p < ts.len() && ts[p] is Str) {
        Err(DslFault::Syntax(SyntaxError::ExpectedPattern))
    } else {
        match pattern_of(ts[p]->Str_0) {
            Err(e) => Err(DslFault::Pattern(e)),
            Ok(pat) => {
                let base = SegmentView {
                    pattern: pat,
                    handler: None,
                    lookups: Seq::empty(),
                    files: Seq::empty(),
                    subs: Seq::empty(),
                    no_emit,
                };
                let q = p + 1;
                if arrow_at(ts, q) && word_at(ts, q + 2, "lookup"@) {
                    match lookup_from(ts, q + 3) {
                        Err(e) => Err(e),
                        Ok((l, j)) => Ok((SegmentView { lookups: seq![l], ..base }, j)),
                    }
                } else if arrow_at(ts, q) && !ident_at(ts, q + 2) {
                    Err(DslFault::Syntax(SyntaxError::ExpectedHandler))
                } else {
                    let seg = if arrow_at(ts, q) { SegmentView { handler: Some(ts[q + 2]->Ident_0), ..base } } else { base };
                    let b = if arrow_at(ts, q) { q + 3 } else { q };
                    if group_at(ts, b, Delim::Brace) {
                        proof {
                            assert(decreases_to!(ts => ts[b]));
                            assert(decreases_to!(ts[b] => ts[b]->Group_1));
                        }
                        match entries_from(ts[b]->Group_1, 0, true) {
                            Err(e) => Err(e),
                            Ok(es) => Ok((SegmentView {
                                lookups: lookups_of(es),
                                files: files_of(es),
                                subs: segments_of(es),
                                ..seg
                            }, b + 1)),
                        }
                    } else {
                        Ok((seg, b))
                    }
                }
            },
        }
    }
}

/// A whole declaration: the provider type's tokens (all before the comma
/// that precedes the final braced block) and the block's entries.
pub open spec fn routes_of(ts: Seq<TokenView>) -> Result<(Seq<TokenView>, Seq<EntryView>), DslFault> {
    if !group_at(ts, ts.len() - 1, Delim::Brace) {
        Err(DslFault::Syntax(SyntaxError::ExpectedBlock))
    } else if !punct_at(ts, ts.len() - 2, ',') {
        Err(DslFault::Syntax(SyntaxError::ExpectedComma))
    } else if ts.len() < 3 {
        Err(DslFault::Syntax(SyntaxError::ExpectedProviderType))
    } else {
        let inner = ts[ts.len() - 1]->Group_1;
        match entries_from(inner, 0, false) {
            Err(e) => Err(e),
            Ok(es) => Ok((ts.subrange(0, ts.len() - 2), es)),
        }
    }
}

/// The view of token `i` is the view of its slot.
proof fn lemma_token_at(ts: Seq<Token>, i: int)
    requires
        0 <= i < ts.len(),
    ensures
        tokens_view(ts)[i] == ts[i]@,
        tokens_view(ts).len() == ts.len(),
{
}

/// Whether token `i` is the punctuation `c`.
fn is_punct(ts: &[Token], i: usize, c: char) -> (r: bool)
    ensures
        r == punct_at(tokens_view(ts@), i as int, c),
{
    if i >= ts.len() {
        return false;
    }
    proof { lemma_token_at(ts@, i as int); }
    match &ts[i] {
        Token::Punct(x) => *x == c,
        _ => false,
    }
}

/// Whether `=>` starts at `i`.
fn is_arrow(ts: &[Token], i: usize) -> (r: bool)
    ensures
        r == arrow_at(tokens_view(ts@), i as int),
{
    if i >= ts.len() || i + 1 >= ts.len() {
        return false;
    }
    is_punct(ts, i, '=') && is_punct(ts, i + 1, '>')
}

/// The identifier at `i`, if token `i` is one.
fn ident_token(ts: &[Token], i: usize) -> (r: Option<&String>)
    ensures
        r is Some <==> ident_at(tokens_view(ts@), i as int),
        r matches Some(s) ==> tokens_view(ts@)[i as int] == TokenView::Ident(s@),
{
    if i >= ts.len() {
        return None;
    }
    proof { lemma_token_at(ts@, i as int); }
    match &ts[i] {
        Token::Ident(s) => Some(s),
        _ => None,
    }
}

/// The string literal at `i`, if token `i` is one.
fn str_token(ts: &[Token], i: usize) -> (r: Option<&String>)
    ensures
        r is Some <==> (0 <= i < ts@.len() && tokens_view(ts@)[i as int] is Str),
        r matches Some(s) ==> tokens_view(ts@)[i as int] == TokenView::Str(s@),
{
    if i >= ts.len() {
        return None;
    }
    proof { lemma_token_at(ts@, i as int); }
    match &ts[i] {
        Token::Str(s) => Some(s),
        _ => None,
    }
}

/// The items of the group at `i`, if token `i` is a group delimited by `d`.
fn group_token(ts: &[Token], i: usize, d: Delim) -> (r: Option<&Vec<Token>>)
    ensures
        r is Some <==> group_at(tokens_view(ts@), i as int, d),
        r matches Some(v) ==> tokens_view(ts@)[i as int] == TokenView::Group(d, tokens_view(v@)) && i < ts@.len()
            && ts@[i as int] == Token::Group(d, *v),
{
    if i >= ts.len() {
        return None;
    }
    proof { lemma_token_at(ts@, i as int); }
    match &ts[i] {
        Token::Group(e, v) => {
            proof { lemma_group_view(ts@[i as int]); }
            if *e == d {
                Some(v)
            } else {
                None
            }
        },
        _ => None,
    }
}

/// Parse the lookup starting at `i` (after the word `lookup`).
fn parse_lookup(ts: &[Token], i: usize) -> (r: Result<(LookupEntry, usize), DslError>)
    ensures
        match lookup_from(tokens_view(ts@), i as int) {
            Ok((l, j)) => r matches Ok((e, k)) && e@ == l && k == j,
            Err(f) => r matches Err(e) && fault_of(e) == f,
        },
{
    let _n = ts.len();
    match group_token(ts, i, Delim::Paren) {
        Some(inner) => {
            if inner.len() == 1 {
                match ident_token(inner.as_slice(), 0) {
                    Some(h) => return Ok((LookupEntry::CatchAll { handler: h.clone() }, i + 1)),
                    None => {},
                }
            }
            return Err(DslError::Syntax(SyntaxError::ExpectedHandler));
        },
        None => {},
    }
    let lit = match str_token(ts, i) {
        Some(s) => s,
        None => return Err(DslError::Syntax(SyntaxError::ExpectedLookup)),
    };
    let pattern = match parse_lookup_pattern(lit.as_str()) {
        Ok(p) => p,
        Err(e) => return Err(DslError::Pattern(e)),
    };
    if !is_arrow(ts, i + 1) {
        return Err(DslError::Syntax(SyntaxError::ExpectedArrow));
    }
    match ident_token(ts, i + 3) {
        Some(h) => Ok((LookupEntry::Pattern { pattern, handler: h.clone() }, i + 4)),
        None => Err(DslError::Syntax(SyntaxError::ExpectedHandler)),
    }
}

/// Parse the modifiers chained from `i`.
fn parse_file_modifiers(ts: &[Token], i: usize) -> (r: Result<(Vec<FileModifier>, usize), DslError>)
    ensures
        match modifiers_from(tokens_view(ts@), i as int) {
            Ok((ms, j)) => r matches Ok((v, k)) && v@ == ms && k == j,
            Err(f) => r matches Err(e) && fault_of(e) == f,
        },
{
    let _n = ts.len();
    let ghost tv = tokens_view(ts@);
    let mut out: Vec<FileModifier> = Vec::new();
    let mut pos = i;
    while is_punct(ts, pos, '.')
        invariant
            tv == tokens_view(ts@),
            _n == ts@.len(),
            pos <= ts@.len() || pos == i,
            modifiers_from(tv, i as int) == match modifiers_from(tv, pos as int) {
                Ok((ms, j)) => Ok((out@ + ms, j)),
                Err(f) => Err(f),
            },
        decreases ts@.len() - pos,
    {
        let name = match ident_token(ts, pos + 1) {
            Some(n) => n,
            None => return Err(DslError::Syntax(SyntaxError::ExpectedModifier)),
        };
        let m = match resolve_file_modifier(name.as_str()) {
            Ok(m) => m,
            Err(e) => return Err(DslError::Pattern(e)),
        };
        let next = match group_token(ts, pos + 2, Delim::Paren) {
            Some(inner) => {
                if inner.len() > 0 {
                    return Err(DslError::Syntax(SyntaxError::UnexpectedTokens));
                }
                pos + 3
            },
            None => pos + 2,
        };
        let ghost before = out@;
        out.push(m);
        proof {
            match modifiers_from(tv, next as int) {
                Ok((ms, j)) => {
                    assert(seq![m] + ms == out@.subrange(before.len() as int, out@.len() as int) + ms);
                    assert(before + (seq![m] + ms) =~= out@ + ms);
                },
                Err(_) => {},
            }
        }
        pos = next;
    }
    Ok((out, pos))
}

/// Parse the file declaration starting at `i` (after the word `file`).
fn parse_file(ts: &[Token], i: usize) -> (r: Result<(FileEntry, usize), DslError>)
    ensures
        match file_from(tokens_view(ts@), i as int) {
            Ok((f, j)) => r matches Ok((e, k)) && e@ == f && k == j,
            Err(g) => r matches Err(e) && fault_of(e) == g,
        },
{
    let _n = ts.len();
    let inner = match group_token(ts, i, Delim::Paren) {
        Some(v) => v,
        None => return Err(DslError::Syntax(SyntaxError::ExpectedFileArgs)),
    };
    let name = match str_token(inner.as_slice(), 0) {
        Some(n) => n,
        None => return Err(DslError::Syntax(SyntaxError::ExpectedFileName)),
    };
    if !is_punct(inner.as_slice(), 1, ',') {
        return Err(DslError::Syntax(SyntaxError::ExpectedComma));
    }
    if inner.len() < 3 {
        return Err(DslError::Syntax(SyntaxError::ExpectedExpression));
    }
    let content = duplicate_tokens(slice_from(inner.as_slice(), 2));
    let (modifiers, j) = match parse_file_modifiers(ts, i + 1) {
        Ok(x) => x,
        Err(e) => return Err(e),
    };
    proof {
        let iv = tokens_view(inner@);
        assert(tokens_view(content@) =~= iv.subrange(2, iv.len() as int));
    }
    Ok((FileEntry { name: name.clone(), content, modifiers }, j))
}

/// The tokens from `start` on.
fn slice_from(ts: &[Token], start: usize) -> (r: &[Token])
    requires
        start <= ts@.len(),
    ensures
        r@ == ts@.subrange(start as int, ts@.len() as int),
{
    vstd::slice::slice_subrange(ts, start, ts.len())
}

/// Parse the children handler starting at `i` (after the word `children`).
fn parse_children(ts: &[Token], i: usize) -> (r: Result<(String, usize), DslError>)
    ensures
        match children_from(tokens_view(ts@), i as int) {
            Ok((h, j)) => r matches Ok((s, k)) && s@ == h && k == j,
            Err(f) => r matches Err(e) && fault_of(e) == f,
        },
{
    let _n = ts.len();
    match group_token(ts, i, Delim::Paren) {
        Some(inner) => {
            if inner.len() == 1 {
                match ident_token(inner.as_slice(), 0) {
                    Some(h) => return Ok((h.clone(), i + 1)),
                    None => {},
                }
            }
            Err(DslError::Syntax(SyntaxError::ExpectedHandler))
        },
        None => Err(DslError::Syntax(SyntaxError::ExpectedHandler)),
    }
}

/// Split a segment block's entries into its lookups, files and nested
/// segments, each in order.
fn distribute(es: Vec<RouteEntry>) -> (r: (Vec<LookupEntry>, Vec<FileEntry>, Vec<SegmentRoute>))
    ensures
        lookups_view(r.0@) == lookups_of(entries_view(es@)),
        files_view(r.1@) == files_of(entries_view(es@)),
        segments_view(r.2@) == segments_of(entries_view(es@)),
{
    let ghost ev = entries_view(es@);
    let mut lookups: Vec<LookupEntry> = Vec::new();
    let mut files: Vec<FileEntry> = Vec::new();
    let mut subs: Vec<SegmentRoute> = Vec::new();
    let mut rest = es;
    let n = rest.len();
    let mut i: usize = 0;
    assert(lookups_view(lookups@) =~= lookups_of(ev.subrange(0, 0)));
    assert(files_view(files@) =~= files_of(ev.subrange(0, 0)));
    assert(segments_view(subs@) =~= segments_of(ev.subrange(0, 0)));
    while i < n
        invariant
            n == ev.len(),
            i <= n,
            rest@.len() == n - i,
            entries_view(rest@) == ev.subrange(i as int, n as int),
            lookups_view(lookups@) == lookups_of(ev.subrange(0, i as int)),
            files_view(files@) == files_of(ev.subrange(0, i as int)),
            segments_view(subs@) == segments_of(ev.subrange(0, i as int)),
        decreases n - i,
    {
        let ghost r0 = rest@;
        let e = rest.remove(0);
        proof {
            assert(entries_view(r0)[0] == ev.subrange(i as int, n as int)[0]);
            assert(e == r0[0]);
            assert(entries_view(r0)[0] == r0[0]@);
            assert(e@ == ev[i as int]);
            assert(entries_view(rest@) =~= ev.subrange(i + 1, n as int)) by {
                assert forall|k: int| 0 <= k < rest@.len() implies entries_view(rest@)[k] == ev.subrange(i + 1, n as int)[k] by {
                    assert(rest@[k] == r0[k + 1]);
                    assert(entries_view(r0)[k + 1] == ev.subrange(i as int, n as int)[k + 1]);
                }
            }
            let sub = ev.subrange(0, i + 1);
            assert(sub.drop_last() =~= ev.subrange(0, i as int));
            assert(sub.last() == ev[i as int]);
        }
        let ghost lb = lookups_view(lookups@);
        let ghost fb = files_view(files@);
        let ghost sb = segments_view(subs@);
        match e {
            RouteEntry::Lookup(l) => {
                lookups.push(l);
                assert(lookups_view(lookups@) =~= lb + seq![lookups@.last()@]);
                assert(files_view(files@) =~= fb + Seq::empty());
                assert(segments_view(subs@) =~= sb + Seq::empty());
            },
            RouteEntry::File(f) => {
                files.push(f);
                assert(files_view(files@) =~= fb + seq![files@.last()@]);
                assert(lookups_view(lookups@) =~= lb + Seq::empty());
                assert(segments_view(subs@) =~= sb + Seq::empty());
            },
            RouteEntry::Segment(g) => {
                subs.push(g);
                assert(segments_view(subs@) =~= sb + seq![subs@.last()@]);
                assert(lookups_view(lookups@) =~= lb + Seq::empty());
                assert(files_view(files@) =~= fb + Seq::empty());
            },
            RouteEntry::Children(_) => {
                assert(lookups_view(lookups@) =~= lb + Seq::empty());
                assert(files_view(files@) =~= fb + Seq::empty());
                assert(segments_view(subs@) =~= sb + Seq::empty());
            },
        }
        i = i + 1;
    }
    assert(ev.subrange(0, n as int) =~= ev);
    (lookups, files, subs)
}

/// The segment's view, assembled from its parts.
proof fn lemma_segment_view(s: SegmentRoute)
    ensures
        s@.subs == segments_view(s.sub_routes@),
        s@.lookups == lookups_view(s.lookups@),
        s@.files == files_view(s.files@),
        s@.pattern == s.parsed_pattern@,
        s@.no_emit == s.no_emit,
        s@.handler == match s.children_handler {
            Some(h) => Some(h@),
            None => None,
        },
{
    assert(s@.subs =~= segments_view(s.sub_routes@));
}

/// Parse the entries of a block, each optionally followed by a comma; in a
/// segment's block a `children` entry is an error.
pub fn parse_entries(ts: &[Token], in_segment: bool) -> (r: Result<Vec<RouteEntry>, DslError>)
    ensures
        match entries_from(tokens_view(ts@), 0, in_segment) {
            Ok(es) => r matches Ok(v) && entries_view(v@) == es,
            Err(f) => r matches Err(e) && fault_of(e) == f,
        },
    decreases tokens_view(ts@), ts@.len() + 1, 2int,
{
    let ghost tv = tokens_view(ts@);
    let n = ts.len();
    let mut out: Vec<RouteEntry> = Vec::new();
    let mut pos: usize = 0;
    while pos < n
        invariant
            tv == tokens_view(ts@),
            n == ts@.len(),
            pos <= n,
            entries_from(tv, 0, in_segment) == match entries_from(tv, pos as int, in_segment) {
                Ok(rest) => Ok(entries_view(out@) + rest),
                Err(f) => Err(f),
            },
        decreases n - pos,
    {
        let (e, j) = match parse_entry(ts, pos, in_segment) {
            Ok(x) => x,
            Err(err) => return Err(err),
        };
        let k = if is_punct(ts, j, ',') { j + 1 } else { j };
        if k <= pos || k > n {
            return Err(DslError::Syntax(SyntaxError::UnexpectedTokens));
        }
        let ghost before = entries_view(out@);
        out.push(e);
        proof {
            assert(entries_view(out@) =~= before.push(out@.last()@));
            match entries_from(tv, k as int, in_segment) {
                Ok(rest) => {
                    assert(before + (seq![out@.last()@] + rest) =~= entries_view(out@) + rest);
                },
                Err(_) => {},
            }
        }
        pos = k;
    }
    assert(entries_view(out@) + Seq::empty() =~= entries_view(out@));
    Ok(out)
}

/// Parse the entry starting at `i`.
fn parse_entry(ts: &[Token], i: usize, in_segment: bool) -> (r: Result<(RouteEntry, usize), DslError>)
    ensures
        match entry_from(tokens_view(ts@), i as int, in_segment) {
            Ok((ev, j)) => r matches Ok((e, k)) && e@ == ev && k == j,
            Err(f) => r matches Err(e) && fault_of(e) == f,
        },
    decreases tokens_view(ts@), ts@.len() + 1 - i, 1int,
{
    let _n = ts.len();
    match ident_token(ts, i) {
        Some(w) => {
            if !str_eq(w.as_str(), "no_emit") {
                if str_eq(w.as_str(), "lookup") {
                    return match parse_lookup(ts, i + 1) {
                        Ok((l, j)) => Ok((RouteEntry::Lookup(l), j)),
                        Err(e) => Err(e),
                    };
                }
                if str_eq(w.as_str(), "file") {
                    return match parse_file(ts, i + 1) {
                        Ok((f, j)) => Ok((RouteEntry::File(f), j)),
                        Err(e) => Err(e),
                    };
                }
                if str_eq(w.as_str(), "children") {
                    return match parse_children(ts, i + 1) {
                        Ok((h, j)) => if in_segment {
                            Err(DslError::Syntax(SyntaxError::ChildrenInSegment))
                        } else {
                            Ok((RouteEntry::Children(h), j))
                        },
                        Err(e) => Err(e),
                    };
                }
                return Err(DslError::Syntax(SyntaxError::UnknownEntry));
            }
        },
        None => {},
    }
    match parse_segment_route(ts, i) {
        Ok((s, j)) => Ok((RouteEntry::Segment(s), j)),
        Err(e) => Err(e),
    }
}

/// Parse the segment starting at `i`: an optional `no_emit`, the pattern,
/// an optional `=> handler` or `=> lookup ...`, and an optional block.
pub fn parse_segment_route(ts: &[Token], i: usize) -> (r: Result<(SegmentRoute, usize), DslError>)
    ensures
        match segment_from(tokens_view(ts@), i as int) {
            Ok((sv, j)) => r matches Ok((s, k)) && s@ == sv && k == j,
            Err(f) => r matches Err(e) && fault_of(e) == f,
        },
    decreases tokens_view(ts@), ts@.len() + 1 - i, 0int,
{
    let ghost tv = tokens_view(ts@);
    let _n = ts.len();
    let no_emit = match ident_token(ts, i) {
        Some(w) => str_eq(w.as_str(), "no_emit") && str_token(ts, i + 1).is_some(),
        None => false,
    };
    let p = if no_emit { i + 1 } else { i };
    let lit = match str_token(ts, p) {
        Some(s) => s,
        None => return Err(DslError::Syntax(SyntaxError::ExpectedPattern)),
    };
    let parsed_pattern = match parse_pattern(lit.as_str()) {
        Ok(pat) => pat,
        Err(e) => return Err(DslError::Pattern(e)),
    };
    let q = p + 1;
    let arrow = is_arrow(ts, q);
    if arrow {
        match ident_token(ts, q + 2) {
            Some(w) => {
                if str_eq(w.as_str(), "lookup") {
                    let (l, j) = match parse_lookup(ts, q + 3) {
                        Ok(x) => x,
                        Err(e) => return Err(e),
                    };
                    let mut lookups: Vec<LookupEntry> = Vec::new();
                    lookups.push(l);
                    let s = SegmentRoute {
                        parsed_pattern,
                        children_handler: None,
                        lookups,
                        files: Vec::new(),
                        sub_routes: Vec::new(),
                        no_emit,
                    };
                    proof {
                        lemma_segment_view(s);
                        assert(lookups_view(s.lookups@) =~= seq![s.lookups@[0]@]);
                        assert(files_view(s.files@) =~= Seq::empty());
                        assert(segments_view(s.sub_routes@) =~= Seq::empty());
                    }
                    return Ok((s, j));
                }
            },
            None => return Err(DslError::Syntax(SyntaxError::ExpectedHandler)),
        }
    }
    let children_handler = if arrow {
        match ident_token(ts, q + 2) {
            Some(h) => Some(h.clone()),
            None => None,
        }
    } else {
        None
    };
    let b = if arrow { q + 3 } else { q };
    match group_token(ts, b, Delim::Brace) {
        Some(inner) => {
            proof {
                assert(tv[b as int] == TokenView::Group(Delim::Brace, tokens_view(inner@)));
                assert(decreases_to!(tv => tv[b as int]));
                assert(decreases_to!(tv[b as int] => tv[b as int]->Group_1));
            }
            let es = match parse_entries(inner.as_slice(), true) {
                Ok(v) => v,
                Err(e) => return Err(e),
            };
            let (lookups, files, sub_routes) = distribute(es);
            let s = SegmentRoute { parsed_pattern, children_handler, lookups, files, sub_routes, no_emit };
            proof { lemma_segment_view(s); }
            Ok((s, b + 1))
        },
        None => {
            let s = SegmentRoute {
                parsed_pattern,
                children_handler,
                lookups: Vec::new(),
                files: Vec::new(),
                sub_routes: Vec::new(),
                no_emit,
            };
            proof {
                lemma_segment_view(s);
                assert(lookups_view(s.lookups@) =~= Seq::empty());
                assert(files_view(s.files@) =~= Seq::empty());
                assert(segments_view(s.sub_routes@) =~= Seq::empty());
            }
            Ok((s, b))
        },
    }
}

/// Parse a whole declaration: the provider type, a comma, and the braced
/// block of entries, which ends the input.
pub fn parse_routes(ts: &[Token]) -> (r: Result<RoutesInput, DslError>)
    ensures
        match routes_of(tokens_view(ts@)) {
            Ok((ty, es)) => r matches Ok(ri) && tokens_view(ri.provider_ty@) == ty && entries_view(ri.entries@) == es,
            Err(f) => r matches Err(e) && fault_of(e) == f,
        },
{
    let n = ts.len();
    if n == 0 {
        return Err(DslError::Syntax(SyntaxError::ExpectedBlock));
    }
    let block = match group_token(ts, n - 1, Delim::Brace) {
        Some(v) => v,
        None => return Err(DslError::Syntax(SyntaxError::ExpectedBlock)),
    };
    if n < 2 || !is_punct(ts, n - 2, ',') {
        return Err(DslError::Syntax(SyntaxError::ExpectedComma));
    }
    if n < 3 {
        return Err(DslError::Syntax(SyntaxError::ExpectedProviderType));
    }
    let entries = match parse_entries(block.as_slice(), false) {
        Ok(v) => v,
        Err(e) => return Err(e),
    };
    let provider_ty = duplicate_tokens(vstd::slice::slice_subrange(ts, 0, n - 2));
    proof {
        let tv = tokens_view(ts@);
        assert(tokens_view(ts@.subrange(0, n - 2)) =~= tv.subrange(0, n - 2));
    }
    Ok(RoutesInput { provider_ty, entries })
}

/// No two segments of the level `ss` are ambiguous together.
pub open spec fn level_ok(ss: Seq<SegmentView>) -> bool {
    forall|i: int, j: int| 0 <= i < j < ss.len() ==> !ambiguous(#[trigger] ss[i].pattern, #[trigger] ss[j].pattern)
}

/// Every level below the segment `s`, at every depth, is unambiguous.
pub open spec fn subtree_ok(s: SegmentView) -> bool
    decreases s,
{
    &&& level_ok(s.subs)
    &&& forall|i: int| 0 <= i < s.subs.len() ==> subtree_ok(#[trigger] s.subs[i])
}

/// The segments among the entries `es` are unambiguous as one level, and
/// every level below each of them is.
pub open spec fn entries_ok(es: Seq<EntryView>) -> bool {
    &&& forall|i: int, j: int|
        0 <= i < j < es.len() && es[i] is Segment && es[j] is Segment
            ==> !ambiguous(#[trigger] es[i]->Segment_0.pattern, #[trigger] es[j]->Segment_0.pattern)
    &&& forall|i: int| 0 <= i < es.len() && es[i] is Segment ==> subtree_ok(#[trigger] es[i]->Segment_0)
}

/// A segment's subtree is unambiguous exactly when the level of its
/// nested segments is, and each of their subtrees is.
proof fn lemma_subtree_ok(s: SegmentRoute)
    ensures
        subtree_ok(s@) <==> (level_ok(segments_view(s.sub_routes@))
            && forall|i: int| 0 <= i < s.sub_routes@.len() ==> subtree_ok(#[trigger] s.sub_routes@[i]@)),
{
    assert(s@.subs =~= segments_view(s.sub_routes@));
    if forall|i: int| 0 <= i < s.sub_routes@.len() ==> subtree_ok(#[trigger] s.sub_routes@[i]@) {
        assert forall|i: int| 0 <= i < s@.subs.len() implies subtree_ok(#[trigger] s@.subs[i]) by {
            assert(s@.subs[i] == s.sub_routes@[i]@);
        }
    }
    if forall|i: int| 0 <= i < s@.subs.len() ==> subtree_ok(#[trigger] s@.subs[i]) {
        assert forall|i: int| 0 <= i < s.sub_routes@.len() implies subtree_ok(#[trigger] s.sub_routes@[i]@) by {
            assert(s@.subs[i] == s.sub_routes@[i]@);
        }
    }
}

/// Check the segments `ss` of one level and, below each, its nested
/// segments: no level may hold the same exact segment twice, nor two
/// captures, two rest captures or two globs. Each segment is checked
/// against the earlier ones of its level, then its nested segments are
/// checked, before the next segment.
pub fn validate_segments(ss: &Vec<SegmentRoute>) -> (r: Result<(), RouteConflict>)
    ensures
        r is Ok <==> (level_ok(segments_view(ss@)) && forall|i: int| 0 <= i < ss@.len() ==> subtree_ok(#[trigger] ss@[i]@)),
    decreases ss,
{
    let n = ss.len();
    let ghost sv = segments_view(ss@);
    let mut i: usize = 0;
    while i < n
        invariant
            n == ss@.len(),
            sv == segments_view(ss@),
            i <= n,
            forall|a: int, b: int| 0 <= a < b < i ==> !ambiguous(#[trigger] sv[a].pattern, #[trigger] sv[b].pattern),
            forall|a: int| 0 <= a < i ==> subtree_ok(#[trigger] ss@[a]@),
        decreases n - i,
    {
        let mut j: usize = 0;
        while j < i
            invariant
                n == ss@.len(),
                sv == segments_view(ss@),
                j <= i,
                i < n,
                forall|a: int| 0 <= a < j ==> !ambiguous(#[trigger] sv[a].pattern, sv[i as int].pattern),
            decreases i - j,
        {
            match conflict_between(&ss[j].parsed_pattern, &ss[i].parsed_pattern) {
                Some(c) => {
                    proof {
                        assert(ambiguous(sv[j as int].pattern, sv[i as int].pattern));
                    }
                    return Err(c);
                },
                None => {},
            }
            j = j + 1;
        }
        proof {
            assert(decreases_to!(*ss => ss[i as int]));
            assert(decreases_to!(ss[i as int] => ss[i as int].sub_routes));
            lemma_subtree_ok(ss@[i as int]);
        }
        match validate_segments(&ss[i].sub_routes) {
            Ok(()) => {},
            Err(c) => {
                proof {
                    assert(!subtree_ok(ss@[i as int]@));
                }
                return Err(c);
            },
        }
        proof {
            assert(subtree_ok(ss@[i as int]@));
        }
        i = i + 1;
    }
    Ok(())
}

/// Check the route entries `entries`: their segments form one level,
/// checked as [`validate_segments`] checks a level; lookups, files and
/// children handlers take no part.
pub fn validate_entries(entries: &Vec<RouteEntry>) -> (r: Result<(), RouteConflict>)
    ensures
        r is Ok <==> entries_ok(entries_view(entries@)),
{
    let n = entries.len();
    let ghost ev = entries_view(entries@);
    let mut i: usize = 0;
    while i < n
        invariant
            n == entries@.len(),
            ev == entries_view(entries@),
            i <= n,
            forall|a: int, b: int|
                0 <= a < b < i && ev[a] is Segment && ev[b] is Segment
                    ==> !ambiguous(#[trigger] ev[a]->Segment_0.pattern, #[trigger] ev[b]->Segment_0.pattern),
            forall|a: int| 0 <= a < i && ev[a] is Segment ==> subtree_ok(#[trigger] ev[a]->Segment_0),
        decreases n - i,
    {
        if let RouteEntry::Segment(si) = &entries[i] {
            let mut j: usize = 0;
            while j < i
                invariant
                    n == entries@.len(),
                    ev == entries_view(entries@),
                    j <= i,
                    i < n,
                    entries@[i as int] == RouteEntry::Segment(*si),
                    forall|a: int| 0 <= a < j && ev[a] is Segment ==> !ambiguous(#[trigger] ev[a]->Segment_0.pattern, si@.pattern),
                decreases i - j,
            {
                if let RouteEntry::Segment(sj) = &entries[j] {
                    match conflict_between(&sj.parsed_pattern, &si.parsed_pattern) {
                        Some(c) => {
                            proof {
                                assert(ambiguous(ev[j as int]->Segment_0.pattern, ev[i as int]->Segment_0.pattern));
                            }
                            return Err(c);
                        },
                        None => {},
                    }
                }
                j = j + 1;
            }
            proof {
                lemma_subtree_ok(*si);
            }
            match validate_segments(&si.sub_routes) {
                Ok(()) => {},
                Err(c) => {
                    proof {
                        assert(!subtree_ok(ev[i as int]->Segment_0));
                    }
                    return Err(c);
                },
            }
            proof {
                assert(subtree_ok(ev[i as int]->Segment_0));
            }
        }
        i = i + 1;
    }
    Ok(())
}

/// One pattern arm of a lookup plan: the capture name, the text around
/// it, and the handler.
pub struct LookupArm {
    pub capture: String,
    pub prefix: Option<String>,
    pub suffix: Option<String>,
    pub handler: String,
}

/// Mathematical view of a [`LookupArm`].
pub ghost struct ArmView {
    pub capture: Seq<char>,
    pub prefix: Option<Seq<char>>,
    pub suffix: Option<Seq<char>>,
    pub handler: Seq<char>,
}

impl View for LookupArm {
    type V = ArmView;

    open spec fn view(&self) -> ArmView {
        ArmView { capture: self.capture@, prefix: opt_view(self.prefix), suffix: opt_view(self.suffix), handler: self.handler@ }
    }
}

/// How a block's lookups dispatch a name: the pattern arms, tried in
/// order, then the catch-all, if any.
pub struct LookupPlan {
    pub arms: Vec<LookupArm>,
    pub catch_all: Option<String>,
}

/// The views of arms.
pub open spec fn arms_view(v: Seq<LookupArm>) -> Seq<ArmView> {
    Seq::new(v.len(), |i: int| v[i]@)
}

/// The pattern arms of the lookups `ls`, in order.
pub open spec fn pattern_arms(ls: Seq<LookupView>) -> Seq<ArmView>
    decreases ls.len(),
{
    if ls.len() == 0 {
        Seq::empty()
    } else {
        let rest = pattern_arms(ls.drop_last());
        match ls.last() {
            LookupView::Pattern(PatternView::Capture { name, prefix, suffix }, h) =>
                rest.push(ArmView { capture: name, prefix, suffix, handler: h }),
            _ => rest,
        }
    }
}

/// How many catch-all lookups `ls` holds.
pub open spec fn catch_all_count(ls: Seq<LookupView>) -> nat
    decreases ls.len(),
{
    if ls.len() == 0 {
        0
    } else {
        catch_all_count(ls.drop_last()) + if ls.last() is CatchAll { 1nat } else { 0nat }
    }
}

/// The handler of the last catch-all lookup of `ls`, if any.
pub open spec fn catch_all_of(ls: Seq<LookupView>) -> Option<Seq<char>>
    decreases ls.len(),
{
    if ls.len() == 0 {
        None
    } else {
        match ls.last() {
            LookupView::CatchAll(h) => Some(h),
            _ => catch_all_of(ls.drop_last()),
        }
    }
}

/// Plan the lookups of one block: `None` when there are none; an error
/// when two of them are catch-alls; otherwise the pattern arms in order
/// and the catch-all. Every pattern lookup must be a capture with a
/// prefix or a suffix, as parsing guarantees.
pub fn plan_lookups(lookups: &[LookupEntry]) -> (r: Result<Option<LookupPlan>, DslError>)
    requires
        forall|i: int| 0 <= i < lookups@.len() ==> ((#[trigger] lookups@[i])@ matches LookupView::Pattern(p, _)
            ==> lookup_problem(p) is None),
    ensures
        lookups@.len() == 0 ==> r matches Ok(None),
        catch_all_count(lookups_view(lookups@)) >= 2 ==> r matches Err(DslError::Syntax(SyntaxError::DuplicateCatchAll)),
        lookups@.len() > 0 && catch_all_count(lookups_view(lookups@)) < 2 ==> (r matches Ok(Some(plan))
            && arms_view(plan.arms@) == pattern_arms(lookups_view(lookups@))
            && opt_view(plan.catch_all) == catch_all_of(lookups_view(lookups@))),
{
    if lookups.len() == 0 {
        return Ok(None);
    }
    let ghost ls = lookups_view(lookups@);
    let mut arms: Vec<LookupArm> = Vec::new();
    let mut catch_all: Option<String> = None;
    let n = lookups.len();
    let mut i: usize = 0;
    while i < n
        invariant
            n == lookups@.len(),
            ls == lookups_view(lookups@),
            i <= n,
            forall|j: int| 0 <= j < lookups@.len() ==> ((#[trigger] lookups@[j])@ matches LookupView::Pattern(p, _)
                ==> lookup_problem(p) is None),
            arms_view(arms@) == pattern_arms(ls.subrange(0, i as int)),
            opt_view(catch_all) == catch_all_of(ls.subrange(0, i as int)),
            catch_all_count(ls.subrange(0, i as int)) < 2,
            catch_all is None <==> catch_all_count(ls.subrange(0, i as int)) == 0,
        decreases n - i,
    {
        let ghost sub = ls.subrange(0, i + 1);
        proof {
            assert(sub.drop_last() =~= ls.subrange(0, i as int));
            assert(sub.last() == lookups@[i as int]@);
        }
        match &lookups[i] {
            LookupEntry::CatchAll { handler } => {
                if catch_all.is_some() {
                    proof {
                        lemma_catch_all_count_grows(ls, i as int + 1);
                    }
                    return Err(DslError::Syntax(SyntaxError::DuplicateCatchAll));
                }
                catch_all = Some(handler.clone());
            },
            LookupEntry::Pattern { pattern, handler } => {
                match pattern {
                    ParsedPattern::Capture { name, prefix, suffix } => {
                        let ghost a0 = arms@;
                        arms.push(LookupArm { capture: name.clone(), prefix: prefix.clone(), suffix: suffix.clone(), handler: handler.clone() });
                        assert(arms_view(arms@) =~= arms_view(a0).push(arms@[arms@.len() - 1]@));
                    },
                    _ => {
                        proof {
                            assert(lookup_problem(pattern@) is None);
                        }
                    },
                }
            },
        }
        i = i + 1;
    }
    assert(ls.subrange(0, n as int) =~= ls);
    Ok(Some(LookupPlan { arms, catch_all }))
}

/// Two catch-alls in a prefix are two in the whole.
proof fn lemma_catch_all_count_grows(ls: Seq<LookupView>, k: int)
    requires
        0 <= k <= ls.len(),
    ensures
        catch_all_count(ls) >= catch_all_count(ls.subrange(0, k)),
    decreases ls.len() - k,
{
    if k < ls.len() {
        lemma_catch_all_count_grows(ls, k + 1);
        let sub = ls.subrange(0, k + 1);
        assert(sub.drop_last() =~= ls.subrange(0, k));
    } else {
        assert(ls.subrange(0, k) =~= ls);
    }
}

/// What the text `name` leaves for a capture once `prefix` and `suffix`
/// are stripped, if both are there.
pub open spec fn strip_capture(prefix: Option<Seq<char>>, suffix: Option<Seq<char>>, name: Seq<char>) -> Option<Seq<char>> {
    let after = match prefix {
        Some(p) => if is_prefix(p, name) { Some(name.subrange(p.len() as int, name.len() as int)) } else { None },
        None => Some(name),
    };
    match after {
        Some(t) => match suffix {
            Some(q) => if is_suffix(q, t) { Some(t.subrange(0, t.len() - q.len())) } else { None },
            None => Some(t),
        },
        None => None,
    }
}

/// Where the plan with `arms` and `catch_all` sends `name`: the first arm
/// whose stripping leaves a non-empty capture, with the capture's name and
/// value; else the catch-all, with no capture; else nowhere.
pub open spec fn dispatched(arms: Seq<ArmView>, catch_all: Option<Seq<char>>, name: Seq<char>)
    -> Option<(Seq<char>, Option<(Seq<char>, Seq<char>)>)>
    decreases arms.len(),
{
    if arms.len() == 0 {
        match catch_all {
            Some(h) => Some((h, None)),
            None => None,
        }
    } else {
        match strip_capture(arms[0].prefix, arms[0].suffix, name) {
            Some(v) => if v.len() > 0 {
                Some((arms[0].handler, Some((arms[0].capture, v))))
            } else {
                dispatched(arms.subrange(1, arms.len() as int), catch_all, name)
            },
            None => dispatched(arms.subrange(1, arms.len() as int), catch_all, name),
        }
    }
}

/// `name` reads as the arm's prefix, then `v`, then its suffix (an absent
/// affix reads as nothing).
pub open spec fn framed_by(arm: ArmView, v: Seq<char>, name: Seq<char>) -> bool {
    name == opt_text(arm.prefix) + v + opt_text(arm.suffix)
}

/// The arm captures a non-empty part of `name`.
pub open spec fn arm_takes(arm: ArmView, name: Seq<char>) -> bool {
    exists|w: Seq<char>| w.len() > 0 && #[trigger] framed_by(arm, w, name)
}

/// Stripping the affixes gives exactly the text they frame.
proof fn lemma_strip_capture_frames(arm: ArmView, name: Seq<char>)
    ensures
        strip_capture(arm.prefix, arm.suffix, name) matches Some(v) ==> framed_by(arm, v, name),
        forall|v: Seq<char>| #[trigger] framed_by(arm, v, name)
            ==> strip_capture(arm.prefix, arm.suffix, name) == Some(v),
{
    let p = opt_text(arm.prefix);
    let q = opt_text(arm.suffix);
    match strip_capture(arm.prefix, arm.suffix, name) {
        Some(v) => {
            let t = name.subrange(p.len() as int, name.len() as int);
            assert(name =~= p + t);
            assert(t =~= v + q);
            assert(name =~= p + v + q);
        },
        None => {},
    }
    assert forall|v: Seq<char>| #[trigger] framed_by(arm, v, name)
        implies strip_capture(arm.prefix, arm.suffix, name) == Some(v) by {
        assert(name.subrange(0, p.len() as int) =~= p);
        let t = name.subrange(p.len() as int, name.len() as int);
        assert(t =~= v + q);
        assert(t.subrange(t.len() - q.len(), t.len() as int) =~= q);
        assert(t.subrange(0, t.len() - q.len()) =~= v);
    }
}

/// The first arm, in declaration order, that captures a non-empty part of
/// `name` decides the dispatch: its handler, with its capture's name and
/// the captured text, whatever the later arms and the catch-all are.
pub proof fn law_first_capturing_arm_wins(
    arms: Seq<ArmView>,
    catch_all: Option<Seq<char>>,
    name: Seq<char>,
    i: int,
    v: Seq<char>,
)
    requires
        0 <= i < arms.len(),
        v.len() > 0,
        framed_by(arms[i], v, name),
        forall|j: int| 0 <= j < i ==> !arm_takes(#[trigger] arms[j], name),
    ensures
        dispatched(arms, catch_all, name) == Some((arms[i].handler, Some((arms[i].capture, v)))),
    decreases i,
{
    lemma_strip_capture_frames(arms[0], name);
    if i > 0 {
        assert(!arm_takes(arms[0], name));
        match strip_capture(arms[0].prefix, arms[0].suffix, name) {
            Some(w) => {
                assert(framed_by(arms[0], w, name));
                assert(w.len() == 0);
            },
            None => {},
        }
        let rest = arms.subrange(1, arms.len() as int);
        assert forall|j: int| 0 <= j < i - 1 implies !arm_takes(#[trigger] rest[j], name) by {
            assert(rest[j] == arms[j + 1]);
        }
        assert(rest[i - 1] == arms[i]);
        law_first_capturing_arm_wins(rest, catch_all, name, i - 1, v);
    }
}

/// A name that no arm captures goes to the catch-all, with no capture, or
/// nowhere when there is none.
pub proof fn law_uncaptured_goes_to_catch_all(arms: Seq<ArmView>, catch_all: Option<Seq<char>>, name: Seq<char>)
    requires
        forall|j: int| 0 <= j < arms.len() ==> !arm_takes(#[trigger] arms[j], name),
    ensures
        dispatched(arms, catch_all, name) == (match catch_all {
            Some(h) => Some((h, None::<(Seq<char>, Seq<char>)>)),
            None => None,
        }),
    decreases arms.len(),
{
    if arms.len() > 0 {
        lemma_strip_capture_frames(arms[0], name);
        assert(!arm_takes(arms[0], name));
        match strip_capture(arms[0].prefix, arms[0].suffix, name) {
            Some(w) => {
                assert(framed_by(arms[0], w, name));
                assert(w.len() == 0);
            },
            None => {},
        }
        let rest = arms.subrange(1, arms.len() as int);
        assert forall|j: int| 0 <= j < rest.len() implies !arm_takes(#[trigger] rest[j], name) by {
            assert(rest[j] == arms[j + 1]);
        }
        law_uncaptured_goes_to_catch_all(rest, catch_all, name);
    }
}

/// The view of a dispatch result.
pub open spec fn dispatch_view(r: Option<(String, Option<(String, String)>)>) -> Option<(Seq<char>, Option<(Seq<char>, Seq<char>)>)> {
    match r {
        Some((h, Some((c, v)))) => Some((h@, Some((c@, v@)))),
        Some((h, None)) => Some((h@, None)),
        None => None,
    }
}

/// The text `name` leaves for a capture between `prefix` and `suffix`.
fn strip_affixes<'a>(name: &'a str, prefix: &Option<String>, suffix: &Option<String>) -> (r: Option<&'a str>)
    ensures
        match r {
            Some(t) => strip_capture(opt_view(*prefix), opt_view(*suffix), name@) == Some(t@),
            None => strip_capture(opt_view(*prefix), opt_view(*suffix), name@) is None,
        },
{
    let after = match prefix {
        Some(p) => strip_prefix(name, p.as_str()),
        None => Some(name),
    };
    match after {
        Some(t) => match suffix {
            Some(q) => strip_suffix(t, q.as_str()),
            None => Some(t),
        },
        None => None,
    }
}

/// Dispatch the looked-up `name` through `plan`: the handler of the first
/// pattern arm whose prefix and suffix strip leaves a non-empty capture,
/// with the capture's name and value; else the catch-all's handler with no
/// capture; else `None`.
pub fn dispatch_lookup_name(plan: &LookupPlan, name: &str) -> (r: Option<(String, Option<(String, String)>)>)
    ensures
        dispatch_view(r) == dispatched(arms_view(plan.arms@), opt_view(plan.catch_all), name@),
{
    let ghost av = arms_view(plan.arms@);
    let n = plan.arms.len();
    let mut i: usize = 0;
    assert(av.subrange(0, n as int) =~= av);
    while i < n
        invariant
            n == plan.arms@.len(),
            av == arms_view(plan.arms@),
            i <= n,
            dispatched(av, opt_view(plan.catch_all), name@)
                == dispatched(av.subrange(i as int, n as int), opt_view(plan.catch_all), name@),
        decreases n - i,
    {
        let arm = &plan.arms[i];
        let ghost rest = av.subrange(i as int, n as int);
        proof {
            assert(rest[0] == arm@);
            assert(rest.subrange(1, rest.len() as int) =~= av.subrange(i + 1, n as int));
        }
        match strip_affixes(name, &arm.prefix, &arm.suffix) {
            Some(v) => {
                if v.unicode_len() > 0 {
                    return Some((arm.handler.clone(), Some((arm.capture.clone(), v.to_owned()))));
                }
            },
            None => {},
        }
        i = i + 1;
    }
    proof {
        assert(av.subrange(n as int, n as int).len() == 0);
    }
    match &plan.catch_all {
        Some(h) => Some((h.clone(), None)),
        None => None,
    }
}

} // verus!
