//! Quotation marks of one national style.
//!
//! Documents assembled from mixed sources hold a salad of quotation marks. This module
//! rewrites them to one [`QuoteStyle`].
//!
//! A glyph does not tell whether it opens or closes: what opens an English quotation
//! closes a German one. What stands before a mark tells: it opens at the start of the
//! text, after white space and after an opening delimiter, and closes anywhere else. What
//! stands before is carried from one piece of text to the next.
//!
//! A single mark between letters, or behind a word while no single quotation is open, is
//! an apostrophe in every style.
//!
//! French marks have a narrow space inside, Swiss ones have none. Spaces inside
//! guillemets are dropped before the marks of the new style are set.

use vstd::prelude::*;
use vstd::utf8::encode_utf8;

use crate::bytes::{add_capped, capped, push_all};
use crate::error::Error;
use crate::ns::{PART_DOCUMENT, PART_ENDNOTES, PART_FOOTNOTES};
use crate::package::{part, with_part, Package, Parts};
use crate::paragraph_text::texts_view;
use crate::text::{chars_of, is_alnum, is_white, str_eq};
use crate::xml::{
    emit, emitted, events_view, is_end, is_start, parse_events, text_unescaped, unescape_text,
    xml_events, xml_readable, Ev, EventKind, XmlEvent,
};

verus! {

/// A national convention of quotation marks.
#[derive(Debug, Clone, Copy, PartialEq, Eq, Structural)]
pub enum QuoteStyle {
    /// Germany and Austria.
    German,
    /// English.
    English,
    /// France: guillemets with narrow spaces inside.
    French,
    /// Switzerland: guillemets without spaces.
    Swiss,
}

/// Options of [`normalize_quotes`].
#[derive(Debug, Clone, Copy)]
pub struct QuoteOptions {
    /// Whether single quotation marks are converted too.
    pub singles: bool,
}

impl Default for QuoteOptions {
    fn default() -> (r: Self)
        ensures
            r.singles,
    {
        QuoteOptions { singles: true }
    }
}

// ---------------------------------------------------------------------------
// Marks
// ---------------------------------------------------------------------------

/// What opens a quotation.
pub open spec fn opening(style: QuoteStyle, double: bool) -> Seq<char> {
    match style {
        QuoteStyle::German => if double {
            seq!['\u{201E}']
        } else {
            seq!['\u{201A}']
        },
        QuoteStyle::English => if double {
            seq!['\u{201C}']
        } else {
            seq!['\u{2018}']
        },
        QuoteStyle::French => if double {
            seq!['\u{00AB}', '\u{202F}']
        } else {
            seq!['\u{2039}', '\u{202F}']
        },
        QuoteStyle::Swiss => if double {
            seq!['\u{00AB}']
        } else {
            seq!['\u{2039}']
        },
    }
}

/// What closes a quotation.
pub open spec fn closing(style: QuoteStyle, double: bool) -> Seq<char> {
    match style {
        QuoteStyle::German => if double {
            seq!['\u{201C}']
        } else {
            seq!['\u{2018}']
        },
        QuoteStyle::English => if double {
            seq!['\u{201D}']
        } else {
            seq!['\u{2019}']
        },
        QuoteStyle::French => if double {
            seq!['\u{202F}', '\u{00BB}']
        } else {
            seq!['\u{202F}', '\u{203A}']
        },
        QuoteStyle::Swiss => if double {
            seq!['\u{00BB}']
        } else {
            seq!['\u{203A}']
        },
    }
}

impl QuoteStyle {
    fn double_open(self) -> (r: &'static str)
        ensures
            r@ == opening(self, true),
    {
        proof {
            reveal_strlit("\u{201E}");
            reveal_strlit("\u{201C}");
            reveal_strlit("\u{00AB}\u{202F}");
            reveal_strlit("\u{00AB}");
        }
        let r: &'static str = match self {
            QuoteStyle::German => "\u{201E}",
            QuoteStyle::English => "\u{201C}",
            QuoteStyle::French => "\u{00AB}\u{202F}",
            QuoteStyle::Swiss => "\u{00AB}",
        };
        assert(r@ =~= opening(self, true));
        r
    }

    fn double_close(self) -> (r: &'static str)
        ensures
            r@ == closing(self, true),
    {
        proof {
            reveal_strlit("\u{201C}");
            reveal_strlit("\u{201D}");
            reveal_strlit("\u{202F}\u{00BB}");
            reveal_strlit("\u{00BB}");
        }
        let r: &'static str = match self {
            QuoteStyle::German => "\u{201C}",
            QuoteStyle::English => "\u{201D}",
            QuoteStyle::French => "\u{202F}\u{00BB}",
            QuoteStyle::Swiss => "\u{00BB}",
        };
        assert(r@ =~= closing(self, true));
        r
    }

    fn single_open(self) -> (r: &'static str)
        ensures
            r@ == opening(self, false),
    {
        proof {
            reveal_strlit("\u{201A}");
            reveal_strlit("\u{2018}");
            reveal_strlit("\u{2039}\u{202F}");
            reveal_strlit("\u{2039}");
        }
        let r: &'static str = match self {
            QuoteStyle::German => "\u{201A}",
            QuoteStyle::English => "\u{2018}",
            QuoteStyle::French => "\u{2039}\u{202F}",
            QuoteStyle::Swiss => "\u{2039}",
        };
        assert(r@ =~= opening(self, false));
        r
    }

    fn single_close(self) -> (r: &'static str)
        ensures
            r@ == closing(self, false),
    {
        proof {
            reveal_strlit("\u{2018}");
            reveal_strlit("\u{2019}");
            reveal_strlit("\u{202F}\u{203A}");
            reveal_strlit("\u{203A}");
        }
        let r: &'static str = match self {
            QuoteStyle::German => "\u{2018}",
            QuoteStyle::English => "\u{2019}",
            QuoteStyle::French => "\u{202F}\u{203A}",
            QuoteStyle::Swiss => "\u{203A}",
        };
        assert(r@ =~= closing(self, false));
        r
    }
}

/// A double quotation mark of any style.
pub open spec fn is_double(c: char) -> bool {
    c == '"' || c == '\u{201C}' || c == '\u{201D}' || c == '\u{201E}' || c == '\u{00AB}' || c
        == '\u{00BB}'
}

/// A single quotation mark of any style, or an apostrophe.
pub open spec fn is_single(c: char) -> bool {
    c == '\'' || c == '\u{2018}' || c == '\u{2019}' || c == '\u{201A}' || c == '\u{2039}' || c
        == '\u{203A}'
}

/// A delimiter after which a quotation opens.
pub open spec fn is_opening_delimiter(c: char) -> bool {
    c == '(' || c == '[' || c == '{' || c == '\u{00AB}' || c == '\u{2039}' || c == '\u{201E}' || c
        == '\u{201A}' || c == '\u{201C}' || c == '\u{2018}' || c == '\u{2013}' || c == '\u{2014}'
        || c == '-' || c == '/' || c == ':'
}

/// A mark after this character opens a quotation. `None` is the start of the text.
pub open spec fn opens_after(prev: Option<char>) -> bool {
    match prev {
        None => true,
        Some(c) => is_white(c) || is_opening_delimiter(c),
    }
}

fn double_mark(c: char) -> (r: bool)
    ensures
        r == is_double(c),
{
    c == '"' || c == '\u{201C}' || c == '\u{201D}' || c == '\u{201E}' || c == '\u{00AB}' || c
        == '\u{00BB}'
}

fn single_mark(c: char) -> (r: bool)
    ensures
        r == is_single(c),
{
    c == '\'' || c == '\u{2018}' || c == '\u{2019}' || c == '\u{201A}' || c == '\u{2039}' || c
        == '\u{203A}'
}

fn mark_opens_after(prev: Option<char>) -> (r: bool)
    ensures
        r == opens_after(prev),
{
    match prev {
        None => true,
        Some(c) => c.is_whitespace() || c == '(' || c == '[' || c == '{' || c == '\u{00AB}' || c
            == '\u{2039}' || c == '\u{201E}' || c == '\u{201A}' || c == '\u{201C}' || c
            == '\u{2018}' || c == '\u{2013}' || c == '\u{2014}' || c == '-' || c == '/' || c == ':',
    }
}

// ---------------------------------------------------------------------------
// Spaces inside guillemets
// ---------------------------------------------------------------------------

/// A space behind an opening or before a closing guillemet.
pub open spec fn is_inner_space(s: Seq<char>, i: int) -> bool {
    &&& s[i] == ' ' || s[i] == '\u{00A0}' || s[i] == '\u{202F}'
    &&& (i > 0 && (s[i - 1] == '\u{00AB}' || s[i - 1] == '\u{2039}')) || (i + 1 < s.len() && (s[i
        + 1] == '\u{00BB}' || s[i + 1] == '\u{203A}'))
}

/// The first `n` characters of `s` without the spaces inside guillemets.
pub open spec fn unspaced(s: Seq<char>, n: int) -> Seq<char>
    decreases n,
{
    if n <= 0 {
        Seq::empty()
    } else if is_inner_space(s, n - 1) {
        unspaced(s, n - 1)
    } else {
        unspaced(s, n - 1).push(s[n - 1])
    }
}

fn strip_guillemet_spacing(chars: &[char]) -> (r: Vec<char>)
    ensures
        r@ == unspaced(chars@, chars@.len() as int),
{
    let total: usize = chars.len();
    let mut r: Vec<char> = Vec::new();
    let mut i: usize = 0;
    while i < total
        invariant
            i <= total,
            total == chars@.len(),
            r@ == unspaced(chars@, i as int),
        decreases total - i,
    {
        let c: char = chars[i];
        let space = c == ' ' || c == '\u{00A0}' || c == '\u{202F}';
        let after_open = i > 0 && (chars[i - 1] == '\u{00AB}' || chars[i - 1] == '\u{2039}');
        let before_close = i + 1 < total && (chars[i + 1] == '\u{00BB}' || chars[i + 1]
            == '\u{203A}');
        if !(space && (after_open || before_close)) {
            r.push(c);
        }
        i += 1;
    }
    r
}

// ---------------------------------------------------------------------------
// Conversion
// ---------------------------------------------------------------------------

/// What is carried from one character to the next.
#[verifier::ext_equal]
pub struct QuoteState {
    /// The character before.
    pub prev: Option<char>,
    /// Whether a single quotation is open.
    pub in_single: bool,
    /// How many marks were set.
    pub changes: int,
}

/// The state at the start of a text.
pub open spec fn quote_start() -> QuoteState {
    QuoteState { prev: None, in_single: false, changes: 0 }
}

/// A character of a word.
pub open spec fn is_word(c: Option<char>) -> bool {
    match c {
        Some(c) => is_alnum(c),
        None => false,
    }
}

/// What a single mark becomes, and the state behind it.
pub open spec fn single_step(
    style: QuoteStyle,
    singles: bool,
    s: QuoteState,
    c: char,
    next: Option<char>,
) -> (QuoteState, Seq<char>) {
    let after = QuoteState { prev: Some(c), ..s };
    if is_word(s.prev) && is_word(next) {
        (after, seq!['\u{2019}'])
    } else if !singles {
        (after, seq![c])
    } else if opens_after(s.prev) {
        (
            QuoteState { in_single: true, changes: capped(s.changes + 1), ..after },
            opening(style, false),
        )
    } else if is_word(s.prev) && !s.in_single {
        (after, seq!['\u{2019}'])
    } else {
        (
            QuoteState { in_single: false, changes: capped(s.changes + 1), ..after },
            closing(style, false),
        )
    }
}

/// What a character becomes, and the state behind it. `next` is the character that
/// follows.
pub open spec fn quote_step(
    style: QuoteStyle,
    singles: bool,
    s: QuoteState,
    c: char,
    next: Option<char>,
) -> (QuoteState, Seq<char>) {
    if is_double(c) {
        (
            QuoteState { prev: Some(c), changes: capped(s.changes + 1), ..s },
            if opens_after(s.prev) {
                opening(style, true)
            } else {
                closing(style, true)
            },
        )
    } else if is_single(c) {
        single_step(style, singles, s, c, next)
    } else {
        (QuoteState { prev: Some(c), ..s }, seq![c])
    }
}

/// The character at a position, if there is one.
pub open spec fn char_after(s: Seq<char>, i: int) -> Option<char> {
    if i < s.len() {
        Some(s[i])
    } else {
        None
    }
}

/// The first `n` characters of `s` converted, and the state behind them.
pub open spec fn converted(
    style: QuoteStyle,
    singles: bool,
    start: QuoteState,
    s: Seq<char>,
    n: int,
) -> (QuoteState, Seq<char>)
    decreases n,
{
    if n <= 0 {
        (start, Seq::empty())
    } else {
        let (before, out) = converted(style, singles, start, s, n - 1);
        let (after, more) = quote_step(style, singles, before, s[n - 1], char_after(s, n));
        (after, out + more)
    }
}

/// A piece of text with the marks of a style, and the state behind it.
pub open spec fn quoted_piece(
    style: QuoteStyle,
    singles: bool,
    start: QuoteState,
    text: Seq<char>,
) -> (QuoteState, Seq<char>) {
    let s = unspaced(text, text.len() as int);
    converted(style, singles, start, s, s.len() as int)
}

/// Converts pieces of text one after another.
#[derive(Debug)]
pub struct QuoteNormalizer {
    style: QuoteStyle,
    opts: QuoteOptions,
    prev: Option<char>,
    in_single: bool,
    changes: usize,
}

impl View for QuoteNormalizer {
    type V = QuoteState;

    closed spec fn view(&self) -> QuoteState {
        QuoteState { prev: self.prev, in_single: self.in_single, changes: self.changes as int }
    }
}

impl QuoteNormalizer {
    /// The style that is converted to.
    pub closed spec fn to_style(&self) -> QuoteStyle {
        self.style
    }

    /// Whether single marks are converted.
    pub closed spec fn with_singles(&self) -> bool {
        self.opts.singles
    }

    /// A normalizer at the start of a text.
    pub fn new(style: QuoteStyle, opts: QuoteOptions) -> (r: Self)
        ensures
            r@ == quote_start(),
            r.to_style() == style,
            r.with_singles() == opts.singles,
    {
        QuoteNormalizer { style, opts, prev: None, in_single: false, changes: 0 }
    }

    /// How many marks were set.
    pub fn changes(&self) -> (n: usize)
        ensures
            n == self@.changes,
    {
        self.changes
    }

    fn push_single(&mut self, c: char, next: Option<char>, out: &mut String)
        ensures
            final(self).to_style() == old(self).to_style(),
            final(self).with_singles() == old(self).with_singles(),
            ({
                let (after, more) = single_step(
                    old(self).to_style(),
                    old(self).with_singles(),
                    old(self)@,
                    c,
                    next,
                );
                &&& (QuoteState { prev: Some(c), ..final(self)@ }) == after
                &&& final(out)@ == old(out)@ + more
            }),
    {
        let ghost before = out@;
        let prev_word = match self.prev {
            Some(p) => p.is_alphanumeric(),
            None => false,
        };
        let next_word = match next {
            Some(q) => q.is_alphanumeric(),
            None => false,
        };
        if prev_word && next_word {
            out.push('\u{2019}');
            assert(out@ =~= before + seq!['\u{2019}']);
        } else if !self.opts.singles {
            out.push(c);
            assert(out@ =~= before + seq![c]);
        } else if mark_opens_after(self.prev) {
            out.append(self.style.single_open());
            self.in_single = true;
            self.changes = add_capped(self.changes, 1);
        } else if prev_word && !self.in_single {
            out.push('\u{2019}');
            assert(out@ =~= before + seq!['\u{2019}']);
        } else {
            out.append(self.style.single_close());
            self.in_single = false;
            self.changes = add_capped(self.changes, 1);
        }
    }

    /// Converts a piece of text that follows those before.
    pub fn push(&mut self, text: &str) -> (r: String)
        ensures
            final(self).to_style() == old(self).to_style(),
            final(self).with_singles() == old(self).with_singles(),
            (final(self)@, r@) == quoted_piece(
                old(self).to_style(),
                old(self).with_singles(),
                old(self)@,
                text@,
            ),
    {
        let chars = strip_guillemet_spacing(&chars_of(text));
        let ghost style = self.to_style();
        let ghost singles = self.with_singles();
        let ghost start = self@;
        let total: usize = chars.len();
        let mut out = String::new();
        let mut i: usize = 0;
        assert(out@ =~= Seq::empty());
        while i < total
            invariant
                i <= total,
                total == chars@.len(),
                self.to_style() == style,
                self.with_singles() == singles,
                (self@, out@) == converted(style, singles, start, chars@, i as int),
            decreases total - i,
        {
            let ghost before = out@;
            let c: char = chars[i];
            let next: Option<char> = if i + 1 < total {
                Some(chars[i + 1])
            } else {
                None
            };
            if double_mark(c) {
                if mark_opens_after(self.prev) {
                    out.append(self.style.double_open());
                } else {
                    out.append(self.style.double_close());
                }
                self.changes = add_capped(self.changes, 1);
            } else if single_mark(c) {
                self.push_single(c, next, &mut out);
            } else {
                out.push(c);
                assert(out@ =~= before + seq![c]);
            }
            self.prev = Some(c);
            i += 1;
        }
        out
    }
}

/// A text with the marks of a style.
pub fn normalize_quotes(text: &str, style: QuoteStyle, opts: QuoteOptions) -> (r: String)
    ensures
        r@ == quoted_piece(style, opts.singles, quote_start(), text@).1,
{
    let mut n = QuoteNormalizer::new(style, opts);
    n.push(text)
}

// ---------------------------------------------------------------------------
// Laws
// ---------------------------------------------------------------------------

/// A mark of a style.
pub open spec fn is_mark_of(style: QuoteStyle, c: char, double: bool) -> bool {
    opening(style, double).contains(c) || closing(style, double).contains(c)
}

/// No other double marks than those of the style.
pub open spec fn only_doubles_of(style: QuoteStyle, s: Seq<char>) -> bool {
    forall|i: int| 0 <= i < s.len() && is_double(#[trigger] s[i]) ==> is_mark_of(style, s[i], true)
}

proof fn lemma_marks(style: QuoteStyle)
    ensures
        only_doubles_of(style, opening(style, true)),
        only_doubles_of(style, closing(style, true)),
        only_doubles_of(style, opening(style, false)),
        only_doubles_of(style, closing(style, false)),
{
    let a = opening(style, true);
    let b = closing(style, true);
    assert forall|i: int| 0 <= i < a.len() implies a.contains(#[trigger] a[i]) by {}
    assert forall|i: int| 0 <= i < b.len() implies b.contains(#[trigger] b[i]) by {}
}

/// Every double mark of a converted text is one of the chosen style, whatever marks the
/// text had.
pub proof fn law_one_style(style: QuoteStyle, singles: bool, start: QuoteState, s: Seq<char>, n: int)
    requires
        0 <= n <= s.len(),
    ensures
        only_doubles_of(style, converted(style, singles, start, s, n).1),
    decreases n,
{
    if n > 0 {
        law_one_style(style, singles, start, s, n - 1);
        lemma_marks(style);
        let (before, out) = converted(style, singles, start, s, n - 1);
        let (after, more) = quote_step(style, singles, before, s[n - 1], char_after(s, n));
        assert(only_doubles_of(style, more));
        let all = out + more;
        assert forall|i: int| 0 <= i < all.len() && is_double(#[trigger] all[i]) implies is_mark_of(
            style,
            all[i],
            true,
        ) by {
            if i < out.len() {
                assert(all[i] == out[i]);
            } else {
                assert(all[i] == more[i - out.len()]);
            }
        }
    }
}

/// A text without quotation marks and apostrophes stays as it is, and no mark is counted.
pub proof fn law_without_marks(style: QuoteStyle, singles: bool, start: QuoteState, s: Seq<char>)
    requires
        forall|i: int| 0 <= i < s.len() ==> !is_double(#[trigger] s[i]) && !is_single(s[i]),
    ensures
        quoted_piece(style, singles, start, s).1 == s,
        quoted_piece(style, singles, start, s).0.changes == start.changes,
{
    lemma_unspaced_without_marks(s, s.len() as int);
    assert(s.take(s.len() as int) =~= s);
    lemma_converted_without_marks(style, singles, start, s, s.len() as int);
}

proof fn lemma_unspaced_without_marks(s: Seq<char>, n: int)
    requires
        0 <= n <= s.len(),
        forall|i: int| 0 <= i < s.len() ==> !is_double(#[trigger] s[i]) && !is_single(s[i]),
    ensures
        unspaced(s, n) == s.take(n),
    decreases n,
{
    if n > 0 {
        lemma_unspaced_without_marks(s, n - 1);
        assert(s.take(n) =~= s.take(n - 1).push(s[n - 1]));
        assert(n > 1 ==> !is_double(s[n - 2]) && !is_single(s[n - 2]));
        assert(n < s.len() ==> !is_double(s[n]) && !is_single(s[n]));
    } else {
        assert(s.take(0) =~= Seq::empty());
    }
}

proof fn lemma_converted_without_marks(
    style: QuoteStyle,
    singles: bool,
    start: QuoteState,
    s: Seq<char>,
    n: int,
)
    requires
        0 <= n <= s.len(),
        forall|i: int| 0 <= i < s.len() ==> !is_double(#[trigger] s[i]) && !is_single(s[i]),
    ensures
        converted(style, singles, start, s, n).1 == s.take(n),
        converted(style, singles, start, s, n).0.changes == start.changes,
    decreases n,
{
    if n > 0 {
        lemma_converted_without_marks(style, singles, start, s, n - 1);
        assert(!is_double(s[n - 1]) && !is_single(s[n - 1]));
        assert(s.take(n) =~= s.take(n - 1) + seq![s[n - 1]]);
    } else {
        assert(s.take(0) =~= Seq::empty());
    }
}

/// A text without single marks may be cut anywhere: converting the two pieces one after
/// the other gives what converting the whole gives.
pub proof fn law_pieces(
    style: QuoteStyle,
    singles: bool,
    start: QuoteState,
    a: Seq<char>,
    b: Seq<char>,
)
    requires
        forall|i: int| 0 <= i < a.len() ==> !is_single(#[trigger] a[i]),
        forall|i: int| 0 <= i < b.len() ==> !is_single(#[trigger] b[i]),
    ensures
        ({
            let first = converted(style, singles, start, a, a.len() as int);
            let second = converted(style, singles, first.0, b, b.len() as int);
            converted(style, singles, start, a + b, (a + b).len() as int) == (
                second.0,
                first.1 + second.1,
            )
        }),
{
    lemma_prefix(style, singles, start, a, b, a.len() as int);
    lemma_suffix(style, singles, start, a, b, b.len() as int);
}

proof fn lemma_prefix(
    style: QuoteStyle,
    singles: bool,
    start: QuoteState,
    a: Seq<char>,
    b: Seq<char>,
    n: int,
)
    requires
        0 <= n <= a.len(),
        forall|i: int| 0 <= i < a.len() ==> !is_single(#[trigger] a[i]),
    ensures
        converted(style, singles, start, a + b, n) == converted(style, singles, start, a, n),
    decreases n,
{
    if n > 0 {
        lemma_prefix(style, singles, start, a, b, n - 1);
        assert((a + b)[n - 1] == a[n - 1]);
        assert(!is_single(a[n - 1]));
    }
}

proof fn lemma_suffix(
    style: QuoteStyle,
    singles: bool,
    start: QuoteState,
    a: Seq<char>,
    b: Seq<char>,
    n: int,
)
    requires
        0 <= n <= b.len(),
        forall|i: int| 0 <= i < a.len() ==> !is_single(#[trigger] a[i]),
        forall|i: int| 0 <= i < b.len() ==> !is_single(#[trigger] b[i]),
    ensures
        ({
            let first = converted(style, singles, start, a, a.len() as int);
            let second = converted(style, singles, first.0, b, n);
            converted(style, singles, start, a + b, a.len() + n) == (
                second.0,
                first.1 + second.1,
            )
        }),
    decreases n,
{
    let first = converted(style, singles, start, a, a.len() as int);
    if n > 0 {
        lemma_suffix(style, singles, start, a, b, n - 1);
        assert((a + b)[a.len() + n - 1] == b[n - 1]);
        assert(!is_single(b[n - 1]));
        let second = converted(style, singles, first.0, b, n - 1);
        let (_, more) = quote_step(style, singles, second.0, b[n - 1], char_after(b, n));
        assert(first.1 + (second.1 + more) =~= (first.1 + second.1) + more);
    } else {
        lemma_prefix(style, singles, start, a, b, a.len() as int);
        assert(first.1 + Seq::<char>::empty() =~= first.1);
    }
}

// ---------------------------------------------------------------------------
// Packages
// ---------------------------------------------------------------------------

/// What [`normalize_quotes_in_package`] did.
#[derive(Debug)]
pub struct QuoteReport {
    /// How many marks were set. Apostrophes do not count.
    pub changed: usize,
    /// The parts that were rewritten.
    pub parts: Vec<String>,
}

/// `s` with the three characters escaped that may not stand in text.
pub open spec fn text_escaped(s: Seq<char>) -> Seq<char>
    decreases s.len(),
{
    if s.len() == 0 {
        Seq::empty()
    } else {
        let c = s.last();
        text_escaped(s.drop_last()) + (if c == '&' {
            "&amp;"@
        } else if c == '<' {
            "&lt;"@
        } else if c == '>' {
            "&gt;"@
        } else {
            seq![c]
        })
    }
}

/// A text with the three characters escaped that may not stand in it.
pub fn xml_escape_text(s: &str) -> (r: String)
    ensures
        r@ == text_escaped(s@),
{
    let chars = chars_of(s);
    let mut r = String::new();
    let mut i: usize = 0;
    assert(r@ =~= text_escaped(s@.take(0)));
    while i < chars.len()
        invariant
            i <= chars@.len(),
            chars@ == s@,
            r@ == text_escaped(s@.take(i as int)),
        decreases chars@.len() - i,
    {
        let c: char = chars[i];
        let ghost before = r@;
        proof {
            assert(s@.take(i + 1).drop_last() =~= s@.take(i as int));
            assert(s@.take(i + 1).last() == c);
        }
        if c == '&' {
            r.append("&amp;");
        } else if c == '<' {
            r.append("&lt;");
        } else if c == '>' {
            r.append("&gt;");
        } else {
            r.push(c);
            assert(r@ =~= before + seq![c]);
        }
        i += 1;
    }
    assert(s@.take(i as int) =~= s@);
    r
}

/// The rewriting of a part: its bytes so far, whether inside a text element, what is
/// carried, and whether some text could not be unescaped.
#[verifier::ext_equal]
pub struct QuotedView {
    pub out: Seq<u8>,
    pub in_text: bool,
    pub state: QuoteState,
    /// Whether a text has changed.
    pub touched: bool,
    pub failed: bool,
}

/// What an event does to the rewriting of a part.
pub open spec fn quoted_step(style: QuoteStyle, singles: bool, s: QuotedView, e: Ev) -> QuotedView {
    if s.failed {
        s
    } else if is_start(e, "w:t") {
        QuotedView { out: s.out + emitted(e), in_text: true, ..s }
    } else if is_end(e, "w:t") {
        QuotedView { out: s.out + emitted(e), in_text: false, ..s }
    } else if e.kind == EventKind::Text && s.in_text {
        match text_unescaped(e.raw) {
            Some(text) => {
                let (state, new) = quoted_piece(style, singles, s.state, text);
                QuotedView {
                    out: s.out + encode_utf8(text_escaped(new)),
                    state,
                    touched: s.touched || new != text,
                    ..s
                }
            },
            None => QuotedView { failed: true, ..s },
        }
    } else {
        QuotedView { out: s.out + emitted(e), ..s }
    }
}

/// The rewriting of a part after events.
pub open spec fn quoted_events(style: QuoteStyle, singles: bool, events: Seq<Ev>) -> QuotedView
    decreases events.len(),
{
    if events.len() == 0 {
        QuotedView {
            out: Seq::empty(),
            in_text: false,
            state: quote_start(),
            touched: false,
            failed: false,
        }
    } else {
        quoted_step(
            style,
            singles,
            quoted_events(style, singles, events.drop_last()),
            events.last(),
        )
    }
}

proof fn lemma_failed(style: QuoteStyle, singles: bool, events: Seq<Ev>, k: int)
    requires
        0 <= k <= events.len(),
        quoted_events(style, singles, events.take(k)).failed,
    ensures
        quoted_events(style, singles, events).failed,
    decreases events.len(),
{
    if k == events.len() {
        assert(events.take(k) =~= events);
    } else {
        assert(events.drop_last().take(k) =~= events.take(k));
        lemma_failed(style, singles, events.drop_last(), k);
    }
}

/// Rewrites the marks in the text elements of a part. Returns the bytes, how many marks
/// were set, and whether a text has changed.
pub fn normalize_events(
    events: &Vec<XmlEvent>,
    style: QuoteStyle,
    opts: QuoteOptions,
    part: &str,
) -> (res: Result<(Vec<u8>, usize, bool), Error>)
    ensures
        ({
            let q = quoted_events(style, opts.singles, events_view(events@));
            match res {
                Ok((out, n, touched)) => !q.failed && out@ == q.out && n == q.state.changes
                    && touched == q.touched,
                Err(e) => q.failed && e.is_xml_parse(part@),
            }
        }),
{
    let ghost evs = events_view(events@);
    let mut norm = QuoteNormalizer::new(style, opts);
    let mut out: Vec<u8> = Vec::new();
    let mut in_text = false;
    let mut touched = false;
    let mut i: usize = 0;
    assert(evs.take(0) =~= Seq::empty());
    while i < events.len()
        invariant
            i <= events@.len(),
            evs == events_view(events@),
            norm.to_style() == style,
            norm.with_singles() == opts.singles,
            quoted_events(style, opts.singles, evs.take(i as int)) == (QuotedView {
                out: out@,
                in_text,
                state: norm@,
                touched,
                failed: false,
            }),
        decreases events@.len() - i,
    {
        let ev: &XmlEvent = &events[i];
        proof {
            assert(evs.take(i + 1).drop_last() =~= evs.take(i as int));
            assert(evs.take(i + 1).last() == ev@);
        }
        if ev.is_start("w:t") {
            in_text = true;
            emit(&mut out, ev);
        } else if ev.is_end("w:t") {
            in_text = false;
            emit(&mut out, ev);
        } else if ev.kind == EventKind::Text && in_text {
            match unescape_text(&ev.raw) {
                Ok(text) => {
                    let set = norm.push(&text);
                    if !str_eq(&set, &text) {
                        touched = true;
                    }
                    let new = xml_escape_text(&set);
                    push_all(&mut out, new.as_str().as_bytes());
                },
                Err(source) => {
                    proof {
                        lemma_failed(style, opts.singles, evs, i + 1);
                    }
                    return Err(Error::XmlParse { part: part.to_owned(), source });
                },
            }
        } else {
            emit(&mut out, ev);
        }
        i += 1;
    }
    assert(evs.take(i as int) =~= evs);
    Ok((out, norm.changes(), touched))
}

/// How far the rewriting of a package has come.
#[verifier::ext_equal]
pub struct QuotePass {
    /// The parts as they are now.
    pub parts: Parts,
    /// How many marks were set.
    pub changed: int,
    /// The parts that were rewritten.
    pub rewritten: Seq<Seq<char>>,
    /// The part that could not be read, which ends the rewriting.
    pub failed: Option<Seq<char>>,
}

/// The rewriting after one more part. A part whose texts stay as they are is left alone.
pub open spec fn quote_part(
    style: QuoteStyle,
    singles: bool,
    p: QuotePass,
    name: Seq<char>,
) -> QuotePass {
    if p.failed is Some {
        p
    } else {
        match part(p.parts, name) {
            None => p,
            Some(data) => {
                let q = quoted_events(style, singles, xml_events(data));
                if !xml_readable(data) || q.failed {
                    QuotePass { failed: Some(name), ..p }
                } else if q.touched || q.state.changes > 0 {
                    QuotePass {
                        parts: with_part(p.parts, name, q.out),
                        changed: capped(p.changed + q.state.changes),
                        rewritten: p.rewritten.push(name),
                        ..p
                    }
                } else {
                    p
                }
            },
        }
    }
}

/// The rewriting of the main document, the footnotes and the endnotes.
pub open spec fn quote_pass(style: QuoteStyle, singles: bool, parts: Parts) -> QuotePass {
    let p = QuotePass { parts, changed: 0, rewritten: Seq::empty(), failed: None };
    quote_part(
        style,
        singles,
        quote_part(style, singles, quote_part(style, singles, p, PART_DOCUMENT@), PART_FOOTNOTES@),
        PART_ENDNOTES@,
    )
}

fn normalize_part(
    pkg: &mut Package,
    name: &str,
    style: QuoteStyle,
    opts: QuoteOptions,
    report: &mut QuoteReport,
) -> (res: Result<(), Error>)
    ensures
        final(pkg).source_view() == old(pkg).source_view(),
        ({
            let before = QuotePass {
                parts: old(pkg)@,
                changed: old(report).changed as int,
                rewritten: texts_view(old(report).parts@),
                failed: None,
            };
            let p = quote_part(style, opts.singles, before, name@);
            &&& final(pkg)@ == p.parts
            &&& final(report).changed == p.changed
            &&& texts_view(final(report).parts@) == p.rewritten
            &&& match res {
                Ok(_) => p.failed is None,
                Err(e) => p.failed == Some(name@) && e.is_xml_parse(name@),
            }
        }),
{
    let (out, n, touched) = match pkg.get_part(name) {
        None => {
            return Ok(());
        },
        Some(data) => {
            let events = parse_events(data, name)?;
            normalize_events(&events, style, opts, name)?
        },
    };
    if touched || n > 0 {
        pkg.set_part(name, out);
        report.changed = add_capped(report.changed, n);
        let ghost before = report.parts@;
        report.parts.push(name.to_owned());
        assert(texts_view(report.parts@) =~= texts_view(before).push(name@));
    }
    Ok(())
}

/// Rewrites the marks of the main document, the footnotes and the endnotes.
pub fn normalize_quotes_in_package(
    pkg: &mut Package,
    style: QuoteStyle,
    opts: QuoteOptions,
) -> (res: Result<QuoteReport, Error>)
    ensures
        final(pkg).source_view() == old(pkg).source_view(),
        ({
            let p = quote_pass(style, opts.singles, old(pkg)@);
            &&& final(pkg)@ == p.parts
            &&& match res {
                Ok(r) => p.failed is None && r.changed == p.changed && texts_view(r.parts@)
                    == p.rewritten,
                Err(e) => p.failed is Some && e.is_xml_parse(p.failed->0),
            }
        }),
{
    let mut report = QuoteReport { changed: 0, parts: Vec::new() };
    assert(texts_view(report.parts@) =~= Seq::empty());
    normalize_part(pkg, PART_DOCUMENT, style, opts, &mut report)?;
    normalize_part(pkg, PART_FOOTNOTES, style, opts, &mut report)?;
    normalize_part(pkg, PART_ENDNOTES, style, opts, &mut report)?;
    Ok(report)
}

} // verus!
