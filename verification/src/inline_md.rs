//! Styled spans out of light inline markdown, for the bodies of notes.
//!
//! The markup is what shows up in academic note text:
//!
//! * `*italic*`, `**bold**`, `***bold italic***`. Delimiters pair up by turns: the first
//!   opens, the next of its kind closes. Underscores are text, being far too common in
//!   prose and transliterations.
//! * `[label](url)` links.
//! * `<https://...>` links and bare `http(s)://...` addresses. Sentence punctuation at the
//!   end of a bare address, and a closing parenthesis that it did not open, are not part
//!   of it.
//! * A backslash makes the next character text.
//!
//! Nothing is an error: a delimiter without its counterpart is text.

use vstd::prelude::*;

use crate::style_mapper::opt_text;
use crate::text::{
    chars_at, chars_of, is_alnum, is_white, match_str, starts_with, string_of, trim, trimmed,
};

verus! {

/// A run of note text with its styling.
#[derive(Debug)]
pub struct Span {
    pub text: String,
    pub bold: bool,
    pub italic: bool,
    /// The address, where the span is a link.
    pub link: Option<String>,
}

/// A span.
#[verifier::ext_equal]
pub struct SpanView {
    pub text: Seq<char>,
    pub bold: bool,
    pub italic: bool,
    pub link: Option<Seq<char>>,
}

impl View for Span {
    type V = SpanView;

    open spec fn view(&self) -> SpanView {
        SpanView {
            text: self.text@,
            bold: self.bold,
            italic: self.italic,
            link: opt_text(self.link),
        }
    }
}

/// The spans of a vector.
pub open spec fn spans_view(v: Seq<Span>) -> Seq<SpanView> {
    v.map_values(|s: Span| s@)
}

// ---------------------------------------------------------------------------
// Addresses
// ---------------------------------------------------------------------------

/// The first position at or after `from` that holds `c`.
pub open spec fn find_char(s: Seq<char>, from: int, c: char) -> Option<int>
    decreases s.len() - from,
{
    if from >= s.len() {
        None
    } else if s[from] == c {
        Some(from)
    } else {
        find_char(s, from + 1, c)
    }
}

/// The first position at or after `from` that holds `target`.
pub fn find(chars: &[char], from: usize, target: char) -> (r: Option<usize>)
    requires
        from <= chars@.len(),
    ensures
        match r {
            Some(i) => find_char(chars@, from as int, target) == Some(i as int) && from <= i
                < chars@.len(),
            None => find_char(chars@, from as int, target) is None,
        },
{
    let mut i: usize = from;
    while i < chars.len()
        invariant
            from <= i <= chars@.len(),
            find_char(chars@, from as int, target) == find_char(chars@, i as int, target),
        decreases chars@.len() - i,
    {
        if chars[i] == target {
            return Some(i);
        }
        i += 1;
    }
    None
}

/// An address by its scheme.
pub open spec fn has_scheme(s: Seq<char>) -> bool {
    starts_with(s, "http://"@) || starts_with(s, "https://"@) || starts_with(s, "mailto:"@)
        || starts_with(s, "ftp://"@)
}

/// Whether a text is an address by its scheme.
pub fn looks_like_url(s: &[char]) -> (r: bool)
    ensures
        r == has_scheme(s@),
{
    match_str(s, 0, "http://") || match_str(s, 0, "https://") || match_str(s, 0, "mailto:")
        || match_str(s, 0, "ftp://")
}

/// An address may begin at `i`: not in the middle of a word.
pub open spec fn boundary_at(s: Seq<char>, i: int) -> bool {
    i == 0 || !is_alnum(s[i - 1])
}

/// Whether an address may begin at `i`.
pub fn is_boundary(chars: &[char], i: usize) -> (r: bool)
    requires
        i < chars@.len(),
    ensures
        r == boundary_at(chars@, i as int),
{
    i == 0 || !chars[i - 1].is_alphanumeric()
}

/// `[label](url)` at `start`: the label, the address without white space around it, and
/// the position behind. The address is not empty.
pub open spec fn link_at(s: Seq<char>, start: int) -> Option<(Seq<char>, Seq<char>, int)> {
    match find_char(s, start + 1, ']') {
        None => None,
        Some(close) => if close + 1 >= s.len() || s[close + 1] != '(' {
            None
        } else {
            match find_char(s, close + 2, ')') {
                None => None,
                Some(end) => {
                    let url = trimmed(s.subrange(close + 2, end));
                    if url.len() == 0 {
                        None
                    } else {
                        Some((s.subrange(start + 1, close), url, end + 1))
                    }
                },
            }
        },
    }
}

/// Reads `[label](url)` at `start`: label, address and the number of characters read.
pub fn parse_link(chars: &[char], start: usize) -> (r: Option<(String, String, usize)>)
    requires
        start < chars@.len(),
    ensures
        match r {
            Some((label, url, n)) => link_at(chars@, start as int) == Some(
                (label@, url@, start + n),
            ) && 0 < n && start + n <= chars@.len(),
            None => link_at(chars@, start as int) is None,
        },
{
    let total: usize = chars.len();
    let close: usize = match find(chars, start + 1, ']') {
        Some(i) => i,
        None => {
            return None;
        },
    };
    if close + 1 >= total || chars[close + 1] != '(' {
        return None;
    }
    let end: usize = match find(chars, close + 2, ')') {
        Some(i) => i,
        None => {
            return None;
        },
    };
    let inner = vstd::slice::slice_subrange(chars, close + 2, end);
    let url = trim(inner);
    if url.len() == 0 {
        return None;
    }
    let label = vstd::slice::slice_subrange(chars, start + 1, close);
    Some((string_of(label), string_of(url), end + 1 - start))
}

/// Some character is white space.
pub open spec fn has_white(s: Seq<char>) -> bool {
    exists|i: int| 0 <= i < s.len() && is_white(#[trigger] s[i])
}

fn any_white(s: &[char]) -> (r: bool)
    ensures
        r == has_white(s@),
{
    let mut i: usize = 0;
    while i < s.len()
        invariant
            i <= s@.len(),
            forall|j: int| 0 <= j < i ==> !is_white(#[trigger] s@[j]),
        decreases s@.len() - i,
    {
        if s[i].is_whitespace() {
            return true;
        }
        i += 1;
    }
    false
}

/// `<scheme:...>` at `start`: the address and the position behind.
pub open spec fn angle_link_at(s: Seq<char>, start: int) -> Option<(Seq<char>, int)> {
    match find_char(s, start + 1, '>') {
        None => None,
        Some(close) => {
            let inner = s.subrange(start + 1, close);
            if has_white(inner) || !has_scheme(inner) {
                None
            } else {
                Some((inner, close + 1))
            }
        },
    }
}

/// Reads `<scheme:...>` at `start`: the address and the number of characters read.
pub fn parse_angle_autolink(chars: &[char], start: usize) -> (r: Option<(String, usize)>)
    requires
        start < chars@.len(),
    ensures
        match r {
            Some((url, n)) => angle_link_at(chars@, start as int) == Some((url@, start + n)) && 0
                < n && start + n <= chars@.len(),
            None => angle_link_at(chars@, start as int) is None,
        },
{
    let total: usize = chars.len();
    assert(start < total);
    let close: usize = match find(chars, start + 1, '>') {
        Some(i) => i,
        None => {
            return None;
        },
    };
    let inner = vstd::slice::slice_subrange(chars, start + 1, close);
    if any_white(inner) || !looks_like_url(inner) {
        return None;
    }
    Some((string_of(inner), close + 1 - start))
}

/// A character that ends a bare address.
pub open spec fn ends_url(c: char) -> bool {
    is_white(c) || c == '<' || c == '>' || c == '"' || c == '|' || c == '\\' || c == '^' || c == '`'
        || c == '*' || c == '[' || c == ']'
}

/// The first position at or after `from` where a bare address ends.
pub open spec fn url_end(s: Seq<char>, from: int) -> int
    decreases s.len() - from,
{
    if from >= s.len() || ends_url(s[from]) {
        from
    } else {
        url_end(s, from + 1)
    }
}

/// How often a character occurs.
pub open spec fn char_count(s: Seq<char>, c: char) -> nat
    decreases s.len(),
{
    if s.len() == 0 {
        0
    } else if s.last() == c {
        char_count(s.drop_last(), c) + 1
    } else {
        char_count(s.drop_last(), c)
    }
}

/// The last character belongs to the sentence, not to the address: punctuation, or a
/// closing parenthesis without its opening one.
pub open spec fn ends_in_punctuation(s: Seq<char>) -> bool {
    let c = s.last();
    s.len() > 0 && (c == '.' || c == ',' || c == ';' || c == ':' || c == '!' || c == '?' || c
        == '\'' || c == '"' || (c == ')' && char_count(s, ')') > char_count(s, '(')))
}

/// An address without the punctuation at its end.
pub open spec fn without_punctuation(s: Seq<char>) -> Seq<char>
    decreases s.len(),
{
    if ends_in_punctuation(s) {
        without_punctuation(s.drop_last())
    } else {
        s
    }
}

/// The length of `http://` or `https://` at `start`.
pub open spec fn scheme_at(s: Seq<char>, start: int) -> Option<int> {
    if chars_at(s, start, "http://"@) {
        Some(7)
    } else if chars_at(s, start, "https://"@) {
        Some(8)
    } else {
        None
    }
}

/// A bare address at `start`: more than its scheme.
pub open spec fn bare_url_at(s: Seq<char>, start: int) -> Option<Seq<char>> {
    match scheme_at(s, start) {
        None => None,
        Some(n) => {
            let url = without_punctuation(s.subrange(start, url_end(s, start + n)));
            if url.len() <= n {
                None
            } else {
                Some(url)
            }
        },
    }
}

fn stops_url(c: char) -> (r: bool)
    ensures
        r == ends_url(c),
{
    c.is_whitespace() || c == '<' || c == '>' || c == '"' || c == '|' || c == '\\' || c == '^' || c
        == '`' || c == '*' || c == '[' || c == ']'
}

fn count_char(s: &[char], c: char) -> (n: usize)
    ensures
        n == char_count(s@, c),
{
    let mut n: usize = 0;
    let mut i: usize = 0;
    assert(s@.take(0) =~= Seq::empty());
    while i < s.len()
        invariant
            i <= s@.len(),
            n <= i,
            n == char_count(s@.take(i as int), c),
        decreases s@.len() - i,
    {
        proof {
            assert(s@.take(i + 1).drop_last() =~= s@.take(i as int));
            assert(s@.take(i + 1).last() == s@[i as int]);
        }
        if s[i] == c {
            n += 1;
        }
        i += 1;
    }
    assert(s@.take(i as int) =~= s@);
    n
}

fn has_final_punctuation(s: &[char]) -> (r: bool)
    ensures
        r == ends_in_punctuation(s@),
{
    if s.len() == 0 {
        return false;
    }
    let c: char = s[s.len() - 1];
    c == '.' || c == ',' || c == ';' || c == ':' || c == '!' || c == '?' || c == '\'' || c == '"'
        || (c == ')' && count_char(s, ')') > count_char(s, '('))
}

/// Reads a bare address at `start`: the address and the number of characters read.
pub fn parse_bare_url(chars: &[char], start: usize) -> (r: Option<(String, usize)>)
    requires
        start < chars@.len(),
    ensures
        match r {
            Some((url, n)) => bare_url_at(chars@, start as int) == Some(url@) && n == url@.len()
                && 0 < n && start + n <= chars@.len(),
            None => bare_url_at(chars@, start as int) is None,
        },
{
    proof {
        reveal_strlit("http://");
        reveal_strlit("https://");
    }
    let n: usize = if match_str(chars, start, "http://") {
        7
    } else if match_str(chars, start, "https://") {
        8
    } else {
        return None;
    };
    let total: usize = chars.len();
    assert(start + n <= total);
    let mut end: usize = start + n;
    while end < total && !stops_url(chars[end])
        invariant
            total == chars@.len(),
            start + n <= end <= total,
            url_end(chars@, start + n) == url_end(chars@, end as int),
        decreases chars@.len() - end,
    {
        end += 1;
    }
    let ghost whole = chars@.subrange(start as int, end as int);
    while has_final_punctuation(vstd::slice::slice_subrange(chars, start, end))
        invariant
            start <= end <= chars@.len(),
            without_punctuation(whole) == without_punctuation(
                chars@.subrange(start as int, end as int),
            ),
        decreases end,
    {
        assert(chars@.subrange(start as int, end as int).drop_last() =~= chars@.subrange(
            start as int,
            end - 1,
        ));
        end -= 1;
    }
    let url = vstd::slice::slice_subrange(chars, start, end);
    if url.len() <= n {
        return None;
    }
    Some((string_of(url), url.len()))
}

// ---------------------------------------------------------------------------
// Tokens
// ---------------------------------------------------------------------------

/// A piece of markup.
pub ghost enum Tok {
    /// A character of text.
    Text(Seq<char>),
    /// A delimiter of one, two or three asterisks.
    Stars(nat),
    /// A link: its text and address.
    Link(Seq<char>, Seq<char>),
}

enum Token {
    Text(char),
    Stars(u8),
    Link(String, String),
}

impl Token {
    spec fn view(&self) -> Tok {
        match self {
            Token::Text(c) => Tok::Text(seq![*c]),
            Token::Stars(n) => Tok::Stars(*n as nat),
            Token::Link(text, url) => Tok::Link(text@, url@),
        }
    }
}

spec fn tokens_view(v: Seq<Token>) -> Seq<Tok> {
    v.map_values(|t: Token| t.view())
}

/// The end of the run of asterisks at `i`.
pub open spec fn stars_end(s: Seq<char>, i: int) -> int
    decreases s.len() - i,
{
    if i >= s.len() || s[i] != '*' {
        i
    } else {
        stars_end(s, i + 1)
    }
}

/// The tokens of a run of asterisks: a delimiter of at most three, the rest is text.
pub open spec fn star_tokens(n: nat) -> Seq<Tok> {
    if n <= 3 {
        seq![Tok::Stars(n)]
    } else {
        seq![Tok::Stars(3)] + Seq::new((n - 3) as nat, |i: int| Tok::Text(seq!['*']))
    }
}

/// The tokens that begin at `i`, and the position behind.
pub open spec fn token_at(s: Seq<char>, i: int) -> (Seq<Tok>, int) {
    let c = s[i];
    if c == '\\' && i + 1 < s.len() {
        (seq![Tok::Text(seq![s[i + 1]])], i + 2)
    } else if c == '*' {
        (star_tokens((stars_end(s, i) - i) as nat), stars_end(s, i))
    } else if c == '[' && link_at(s, i) is Some {
        let l = link_at(s, i)->0;
        (seq![Tok::Link(l.0, l.1)], l.2)
    } else if c == '<' && angle_link_at(s, i) is Some {
        let l = angle_link_at(s, i)->0;
        (seq![Tok::Link(l.0, l.0)], l.1)
    } else if c == 'h' && boundary_at(s, i) && bare_url_at(s, i) is Some {
        let url = bare_url_at(s, i)->0;
        (seq![Tok::Link(url, url)], i + url.len())
    } else {
        (seq![Tok::Text(seq![c])], i + 1)
    }
}

/// The tokens of `s` from `i` on.
pub open spec fn tokens(s: Seq<char>, i: int) -> Seq<Tok>
    decreases s.len() - i,
{
    if i >= s.len() {
        Seq::empty()
    } else {
        let (some, next) = token_at(s, i);
        if next <= i || next > s.len() {
            some
        } else {
            some + tokens(s, next)
        }
    }
}

fn push_token(v: &mut Vec<Token>, t: Token)
    ensures
        tokens_view(final(v)@) == tokens_view(old(v)@).push(t.view()),
{
    v.push(t);
    assert(tokens_view(v@) =~= tokens_view(old(v)@).push(t.view()));
}

fn run_of_stars(s: &[char], i: usize) -> (end: usize)
    requires
        i < s@.len(),
        s@[i as int] == '*',
    ensures
        i < end <= s@.len(),
        end == stars_end(s@, i as int),
{
    let mut end: usize = i;
    while end < s.len() && s[end] == '*'
        invariant
            i <= end <= s@.len(),
            stars_end(s@, i as int) == stars_end(s@, end as int),
        decreases s@.len() - end,
    {
        end += 1;
    }
    assert(end > i) by {
        if end == i {
            assert(s@[end as int] == '*');
        }
    }
    end
}

fn push_stars(v: &mut Vec<Token>, n: usize)
    requires
        n > 0,
    ensures
        tokens_view(final(v)@) == tokens_view(old(v)@) + star_tokens(n as nat),
{
    let ghost before = tokens_view(v@);
    if n <= 3 {
        push_token(v, Token::Stars(n as u8));
        assert(tokens_view(v@) =~= before + star_tokens(n as nat));
        return;
    }
    push_token(v, Token::Stars(3));
    let mut i: usize = 3;
    assert(tokens_view(v@) =~= before + (seq![Tok::Stars(3)] + Seq::new(0, |k: int| Tok::Text(seq!['*']))));
    while i < n
        invariant
            3 <= i <= n,
            tokens_view(v@) == before + (seq![Tok::Stars(3)] + Seq::new(
                (i - 3) as nat,
                |k: int| Tok::Text(seq!['*']),
            )),
        decreases n - i,
    {
        push_token(v, Token::Text('*'));
        i += 1;
        assert(tokens_view(v@) =~= before + (seq![Tok::Stars(3)] + Seq::new(
            (i - 3) as nat,
            |k: int| Tok::Text(seq!['*']),
        )));
    }
}

/// Adds the tokens that begin at `i` and gives the position behind.
fn read_token(v: &mut Vec<Token>, s: &[char], i: usize) -> (next: usize)
    requires
        i < s@.len(),
    ensures
        tokens_view(final(v)@) == tokens_view(old(v)@) + token_at(s@, i as int).0,
        next == token_at(s@, i as int).1,
        i < next <= s@.len(),
{
    let ghost before = tokens_view(v@);
    let total: usize = s.len();
    let c: char = s[i];
    if c == '\\' && i + 1 < total {
        push_token(v, Token::Text(s[i + 1]));
        assert(tokens_view(v@) =~= before + token_at(s@, i as int).0);
        return i + 2;
    }
    if c == '*' {
        let end: usize = run_of_stars(s, i);
        push_stars(v, end - i);
        return end;
    }
    if c == '[' {
        if let Some((label, url, n)) = parse_link(s, i) {
            push_token(v, Token::Link(label, url));
            assert(tokens_view(v@) =~= before + token_at(s@, i as int).0);
            return i + n;
        }
    } else if c == '<' {
        if let Some((url, n)) = parse_angle_autolink(s, i) {
            push_token(v, Token::Link(url.as_str().to_owned(), url));
            assert(tokens_view(v@) =~= before + token_at(s@, i as int).0);
            return i + n;
        }
    } else if c == 'h' && is_boundary(s, i) {
        if let Some((url, n)) = parse_bare_url(s, i) {
            push_token(v, Token::Link(url.as_str().to_owned(), url));
            assert(tokens_view(v@) =~= before + token_at(s@, i as int).0);
            return i + n;
        }
    }
    push_token(v, Token::Text(c));
    assert(tokens_view(v@) =~= before + token_at(s@, i as int).0);
    i + 1
}

fn tokenize(s: &[char]) -> (r: Vec<Token>)
    ensures
        tokens_view(r@) == tokens(s@, 0),
{
    let mut r: Vec<Token> = Vec::new();
    let mut i: usize = 0;
    assert(tokens_view(r@) + tokens(s@, 0) =~= tokens(s@, 0));
    while i < s.len()
        invariant
            i <= s@.len(),
            tokens_view(r@) + tokens(s@, i as int) == tokens(s@, 0),
        decreases s@.len() - i,
    {
        let ghost before = tokens_view(r@);
        let next: usize = read_token(&mut r, s, i);
        assert(tokens_view(r@) + tokens(s@, next as int) =~= before + tokens(s@, i as int));
        i = next;
    }
    assert(tokens_view(r@) + tokens(s@, i as int) =~= tokens_view(r@));
    r
}

// ---------------------------------------------------------------------------
// Styles
// ---------------------------------------------------------------------------

/// A delimiter of italics.
pub open spec fn is_italic_mark(t: Tok) -> bool {
    t == Tok::Stars(1) || t == Tok::Stars(3)
}

/// A delimiter of bold text.
pub open spec fn is_bold_mark(t: Tok) -> bool {
    t == Tok::Stars(2) || t == Tok::Stars(3)
}

/// A delimiter of a style.
pub open spec fn is_mark(t: Tok, bold: bool) -> bool {
    if bold {
        is_bold_mark(t)
    } else {
        is_italic_mark(t)
    }
}

/// The delimiter that opens a style and is never followed by another that closes it.
pub open spec fn left_open(toks: Seq<Tok>, bold: bool) -> Option<int>
    decreases toks.len(),
{
    if toks.len() == 0 {
        None
    } else {
        let before = left_open(toks.drop_last(), bold);
        if !is_mark(toks.last(), bold) {
            before
        } else if before is Some {
            None
        } else {
            Some(toks.len() - 1)
        }
    }
}

/// Spans so far, the text of the next span, and its style.
#[verifier::ext_equal]
pub struct StyledView {
    pub spans: Seq<SpanView>,
    pub text: Seq<char>,
    pub bold: bool,
    pub italic: bool,
}

/// The text so far becomes a span, unless there is none.
pub open spec fn flushed(s: StyledView) -> StyledView {
    if s.text.len() == 0 {
        s
    } else {
        StyledView {
            spans: s.spans.push(
                SpanView { text: s.text, bold: s.bold, italic: s.italic, link: None },
            ),
            text: Seq::empty(),
            ..s
        }
    }
}

/// Asterisks as text.
pub open spec fn literal_stars(n: nat) -> Seq<char> {
    Seq::new(n, |i: int| '*')
}

/// What the token at position `k` does. `open_bold` and `open_italic` are the delimiters
/// without a counterpart: they are text.
pub open spec fn styled_step(
    s: StyledView,
    t: Tok,
    k: int,
    open_bold: Option<int>,
    open_italic: Option<int>,
) -> StyledView {
    match t {
        Tok::Text(c) => StyledView { text: s.text + c, ..s },
        Tok::Link(text, url) => {
            let f = flushed(s);
            StyledView {
                spans: f.spans.push(
                    SpanView { text, bold: s.bold, italic: s.italic, link: Some(url) },
                ),
                ..f
            }
        },
        Tok::Stars(n) => {
            let bold = is_bold_mark(t) && open_bold != Some(k);
            let italic = is_italic_mark(t) && open_italic != Some(k);
            let f = if bold || italic {
                flushed(s)
            } else {
                s
            };
            let left: nat = (if is_bold_mark(t) && !bold {
                2nat
            } else {
                0
            }) + (if is_italic_mark(t) && !italic {
                1nat
            } else {
                0
            });
            StyledView {
                spans: f.spans,
                text: f.text + literal_stars(left),
                bold: s.bold != bold,
                italic: s.italic != italic,
            }
        },
    }
}

/// The spans after the first `k` tokens.
pub open spec fn styled(toks: Seq<Tok>, k: int) -> StyledView
    decreases k,
{
    if k <= 0 {
        StyledView { spans: Seq::empty(), text: Seq::empty(), bold: false, italic: false }
    } else {
        styled_step(
            styled(toks, k - 1),
            toks[k - 1],
            k - 1,
            left_open(toks, true),
            left_open(toks, false),
        )
    }
}

/// The styled spans of a text.
pub open spec fn inline_spans(s: Seq<char>) -> Seq<SpanView> {
    let toks = tokens(s, 0);
    flushed(styled(toks, toks.len() as int)).spans
}

fn is_mark_token(t: &Token, bold: bool) -> (r: bool)
    ensures
        r == is_mark(t.view(), bold),
{
    match t {
        Token::Stars(n) => *n == 3 || *n == (if bold {
            2
        } else {
            1
        }),
        _ => false,
    }
}

fn find_left_open(toks: &Vec<Token>, bold: bool) -> (r: Option<usize>)
    ensures
        match r {
            Some(i) => left_open(tokens_view(toks@), bold) == Some(i as int),
            None => left_open(tokens_view(toks@), bold) is None,
        },
{
    let ghost all = tokens_view(toks@);
    let mut open: Option<usize> = None;
    let mut i: usize = 0;
    assert(all.take(0) =~= Seq::empty());
    while i < toks.len()
        invariant
            i <= toks@.len(),
            all == tokens_view(toks@),
            match open {
                Some(k) => left_open(all.take(i as int), bold) == Some(k as int),
                None => left_open(all.take(i as int), bold) is None,
            },
        decreases toks@.len() - i,
    {
        proof {
            assert(all.take(i + 1).drop_last() =~= all.take(i as int));
            assert(all.take(i + 1).last() == toks@[i as int].view());
        }
        if is_mark_token(&toks[i], bold) {
            open = if open.is_some() {
                None
            } else {
                Some(i)
            };
        }
        i += 1;
    }
    assert(all.take(i as int) =~= all);
    open
}

struct Styled {
    spans: Vec<Span>,
    text: String,
    bold: bool,
    italic: bool,
}

impl Styled {
    spec fn view(&self) -> StyledView {
        StyledView {
            spans: spans_view(self.spans@),
            text: self.text@,
            bold: self.bold,
            italic: self.italic,
        }
    }

    fn push_span(&mut self, text: String, link: Option<String>)
        ensures
            final(self).view() == (StyledView {
                spans: old(self).view().spans.push(
                    SpanView {
                        text: text@,
                        bold: old(self).bold,
                        italic: old(self).italic,
                        link: opt_text(link),
                    },
                ),
                ..old(self).view()
            }),
    {
        let span = Span { text, bold: self.bold, italic: self.italic, link };
        let ghost before = self.spans@;
        self.spans.push(span);
        assert(spans_view(self.spans@) =~= spans_view(before).push(span@));
    }

    fn flush(&mut self)
        ensures
            final(self).view() == flushed(old(self).view()),
    {
        if !self.text.as_str().is_empty() {
            let mut text = String::new();
            std::mem::swap(&mut text, &mut self.text);
            self.push_span(text, None);
            assert(self.view() =~= flushed(old(self).view()));
        }
    }

    fn push_literal(&mut self, n: usize)
        requires
            n <= 3,
        ensures
            final(self).view() == (StyledView {
                text: old(self).view().text + literal_stars(n as nat),
                ..old(self).view()
            }),
    {
        let mut i: usize = 0;
        assert(self.text@ =~= old(self).text@ + literal_stars(0));
        while i < n
            invariant
                i <= n,
                self.view() == (StyledView {
                    text: old(self).view().text + literal_stars(i as nat),
                    ..old(self).view()
                }),
            decreases n - i,
        {
            self.text.push('*');
            i += 1;
            assert(self.text@ =~= old(self).text@ + literal_stars(i as nat));
        }
    }

    fn take_stars(&mut self, t: &Token, bold_open: bool, italic_open: bool)
        requires
            t is Stars,
        ensures
            forall|k: int, ob: Option<int>, oi: Option<int>|
                (ob == Some(k)) == bold_open && (oi == Some(k)) == italic_open ==> final(self).view()
                    == #[trigger] styled_step(old(self).view(), t.view(), k, ob, oi),
    {
        let is_bold = is_mark_token(t, true);
        let is_italic = is_mark_token(t, false);
        let bold = is_bold && !bold_open;
        let italic = is_italic && !italic_open;
        let mut left: usize = 0;
        if is_bold && !bold {
            left = left + 2;
        }
        if is_italic && !italic {
            left = left + 1;
        }
        if bold || italic {
            self.flush();
        }
        if bold {
            self.bold = !self.bold;
        }
        if italic {
            self.italic = !self.italic;
        }
        self.push_literal(left);
    }
}

/// The styled spans of a text, from left to right.
pub fn parse_inline(input: &str) -> (r: Vec<Span>)
    ensures
        spans_view(r@) == inline_spans(input@),
{
    let chars = chars_of(input);
    let toks = tokenize(&chars);
    let ghost all = tokens_view(toks@);
    let open_bold = find_left_open(&toks, true);
    let open_italic = find_left_open(&toks, false);
    let ghost ob = left_open(all, true);
    let ghost oi = left_open(all, false);
    let mut s = Styled { spans: Vec::new(), text: String::new(), bold: false, italic: false };
    let mut i: usize = 0;
    assert(s.view() =~= styled(all, 0));
    while i < toks.len()
        invariant
            i <= toks@.len(),
            all == tokens_view(toks@),
            ob == left_open(all, true),
            oi == left_open(all, false),
            ob == (match open_bold {
                Some(k) => Some(k as int),
                None => None,
            }),
            oi == (match open_italic {
                Some(k) => Some(k as int),
                None => None,
            }),
            s.view() == styled(all, i as int),
        decreases toks@.len() - i,
    {
        assert(all[i as int] == toks@[i as int].view());
        let ghost before = s.view();
        match &toks[i] {
            Token::Text(c) => {
                s.text.push(*c);
                assert(s.text@ =~= before.text + seq![*c]);
            },
            Token::Link(text, url) => {
                s.flush();
                s.push_span(text.as_str().to_owned(), Some(url.as_str().to_owned()));
            },
            Token::Stars(_) => {
                let bold_open = match open_bold {
                    Some(k) => k == i,
                    None => false,
                };
                let italic_open = match open_italic {
                    Some(k) => k == i,
                    None => false,
                };
                s.take_stars(&toks[i], bold_open, italic_open);
            },
        }
        assert(s.view() =~= styled_step(before, all[i as int], i as int, ob, oi));
        i += 1;
    }
    s.flush();
    s.spans
}

proof fn lemma_left_open(toks: Seq<Tok>, bold: bool, m: int)
    requires
        0 <= m <= toks.len(),
    ensures
        left_open(toks, bold) matches Some(x) ==> 0 <= x < toks.len() && is_mark(toks[x], bold) && (
        m > x ==> left_open(toks.take(m), bold) == Some(x)) && left_open(toks.take(x), bold)
            is None,
    decreases toks.len(),
{
    if toks.len() > 0 {
        let init = toks.drop_last();
        assert(toks.take(toks.len() as int) =~= toks);
        assert(toks.take(toks.len() - 1) =~= init);
        if m < toks.len() {
            lemma_left_open(init, bold, m);
            assert(init.take(m) =~= toks.take(m));
        } else {
            lemma_left_open(init, bold, m - 1);
        }
        if let Some(x) = left_open(init, bold) {
            assert(init.take(x) =~= toks.take(x));
        }
    }
}

proof fn lemma_styles(toks: Seq<Tok>, k: int)
    requires
        0 <= k <= toks.len(),
    ensures
        styled(toks, k).bold == (left_open(toks.take(k), true) is Some && left_open(
            toks.take(k),
            true,
        ) != left_open(toks, true)),
        styled(toks, k).italic == (left_open(toks.take(k), false) is Some && left_open(
            toks.take(k),
            false,
        ) != left_open(toks, false)),
    decreases k,
{
    if k > 0 {
        lemma_styles(toks, k - 1);
        let upto = toks.take(k);
        assert(upto.drop_last() =~= toks.take(k - 1));
        assert(upto.last() == toks[k - 1]);
        lemma_left_open(toks, true, k);
        lemma_left_open(toks, false, k);
        lemma_left_open(toks, true, k - 1);
        lemma_left_open(toks, false, k - 1);
        lemma_left_open(toks.take(k - 1), true, k - 1);
        lemma_left_open(toks.take(k - 1), false, k - 1);
    }
}

/// Every style that is opened is closed: after the last token neither bold nor italics is
/// on. A delimiter without a counterpart changes no style.
pub proof fn law_styles_closed(s: Seq<char>)
    ensures
        !styled(tokens(s, 0), tokens(s, 0).len() as int).bold,
        !styled(tokens(s, 0), tokens(s, 0).len() as int).italic,
{
    let toks = tokens(s, 0);
    lemma_styles(toks, toks.len() as int);
    assert(toks.take(toks.len() as int) =~= toks);
}

/// A character that is no markup wherever it stands.
pub open spec fn is_plain(c: char) -> bool {
    c != '\\' && c != '*' && c != '[' && c != '<' && c != 'h'
}

/// Every character of `s` is a token of text.
pub open spec fn text_tokens(s: Seq<char>) -> Seq<Tok> {
    s.map_values(|c: char| Tok::Text(seq![c]))
}

proof fn lemma_plain_tokens(s: Seq<char>, i: int)
    requires
        0 <= i <= s.len(),
        forall|j: int| 0 <= j < s.len() ==> is_plain(#[trigger] s[j]),
    ensures
        tokens(s, i) == text_tokens(s.skip(i)),
    decreases s.len() - i,
{
    if i < s.len() {
        assert(is_plain(s[i]));
        lemma_plain_tokens(s, i + 1);
        assert(tokens(s, i) =~= text_tokens(s.skip(i)));
    } else {
        assert(tokens(s, i) =~= text_tokens(s.skip(i)));
    }
}

proof fn lemma_plain_styled(s: Seq<char>, k: int)
    requires
        0 <= k <= s.len(),
    ensures
        styled(text_tokens(s), k) == (StyledView {
            spans: Seq::empty(),
            text: s.take(k),
            bold: false,
            italic: false,
        }),
    decreases k,
{
    if k > 0 {
        lemma_plain_styled(s, k - 1);
        assert(s.take(k) =~= s.take(k - 1) + seq![s[k - 1]]);
    } else {
        assert(s.take(0) =~= Seq::empty());
    }
}

/// Text without markup is one plain span.
pub proof fn law_plain_text(s: Seq<char>)
    requires
        s.len() > 0,
        forall|j: int| 0 <= j < s.len() ==> is_plain(#[trigger] s[j]),
    ensures
        inline_spans(s) == seq![SpanView { text: s, bold: false, italic: false, link: None }],
{
    lemma_plain_tokens(s, 0);
    assert(s.skip(0) =~= s);
    lemma_plain_styled(s, s.len() as int);
    assert(s.take(s.len() as int) =~= s);
    assert(inline_spans(s) =~= seq![
        SpanView { text: s, bold: false, italic: false, link: None },
    ]);
}

} // verus!
