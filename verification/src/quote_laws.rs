//! What becomes of the marks and of the other characters of a text.

use vstd::prelude::*;
use vstd::utf8::encode_utf8;

use crate::bytes::capped;
use crate::ns::{PART_DOCUMENT, PART_ENDNOTES, PART_FOOTNOTES};
use crate::package::{lemma_with_part, part, Parts};
use crate::quote_style::{
    char_after, closing, converted, opening, quote_part, quote_pass, quote_start, quote_step,
    quoted_events, quoted_piece, quoted_step, text_escaped, unspaced, QuotePass, QuoteState,
    QuoteStyle,
};
use crate::story::lemma_story_names;
use crate::text::{is_alnum, is_white};
use crate::xml::{emitted, is_start, text_unescaped, xml_events, Ev, EventKind};

verus! {

// ---------------------------------------------------------------------------
// Marks
// ---------------------------------------------------------------------------

/// A straight, curved, low or angular double mark.
pub open spec fn is_double_mark(c: char) -> bool {
    let n = c as int;
    n == 0x22 || n == 0x201c || n == 0x201d || n == 0x201e || n == 0xab || n == 0xbb
}

/// A straight, curved, low or angular single mark.
pub open spec fn is_single_mark(c: char) -> bool {
    let n = c as int;
    n == 0x27 || n == 0x2018 || n == 0x2019 || n == 0x201a || n == 0x2039 || n == 0x203a
}

/// A bracket, a mark that opens, a dash, a hyphen, a slash or a colon.
pub open spec fn is_opener(c: char) -> bool {
    let n = c as int;
    n == 0x28 || n == 0x5b || n == 0x7b || n == 0xab || n == 0x2039 || n == 0x201e || n == 0x201a
        || n == 0x201c || n == 0x2018 || n == 0x2013 || n == 0x2014 || n == 0x2d || n == 0x2f || n
        == 0x3a
}

/// A mark after the first `i` characters of a text opens: at its start, after white space and
/// after what opens.
pub open spec fn opens_at(s: Seq<char>, i: int) -> bool {
    i == 0 || is_white(s[i - 1]) || is_opener(s[i - 1])
}

/// The marks of the four styles: low and high curved ones, high curved ones, angular ones with
/// a narrow space inside, and angular ones.
pub proof fn law_marks_of_styles(double: bool)
    ensures
        ({
            let low: char = if double {
                '„'
            } else {
                '‚'
            };
            let left: char = if double {
                '“'
            } else {
                '‘'
            };
            let right: char = if double {
                '”'
            } else {
                '’'
            };
            let from: char = if double {
                '«'
            } else {
                '‹'
            };
            let to: char = if double {
                '»'
            } else {
                '›'
            };
            &&& opening(QuoteStyle::German, double) == seq![low]
            &&& closing(QuoteStyle::German, double) == seq![left]
            &&& opening(QuoteStyle::English, double) == seq![left]
            &&& closing(QuoteStyle::English, double) == seq![right]
            &&& opening(QuoteStyle::French, double) == seq![from, '\u{202f}']
            &&& closing(QuoteStyle::French, double) == seq!['\u{202f}', to]
            &&& opening(QuoteStyle::Swiss, double) == seq![from]
            &&& closing(QuoteStyle::Swiss, double) == seq![to]
        }),
{
}

proof fn lemma_prev(style: QuoteStyle, singles: bool, s: Seq<char>, n: int)
    requires
        0 <= n <= s.len(),
    ensures
        converted(style, singles, quote_start(), s, n).0.prev == (if n == 0 {
            None
        } else {
            Some(s[n - 1])
        }),
    decreases n,
{
    if n > 0 {
        lemma_prev(style, singles, s, n - 1);
    }
}

/// A double mark, of whatever style, opens or closes by what stands before it, in the marks of
/// the chosen style, and is counted.
pub proof fn law_double_marks_go_by_what_stands_before(
    style: QuoteStyle,
    singles: bool,
    s: Seq<char>,
    i: int,
)
    requires
        0 <= i < s.len(),
        is_double_mark(s[i]),
    ensures
        ({
            let (a, before) = converted(style, singles, quote_start(), s, i);
            let (b, after) = converted(style, singles, quote_start(), s, i + 1);
            &&& opens_at(s, i) ==> after == before + opening(style, true)
            &&& !opens_at(s, i) ==> after == before + closing(style, true)
            &&& b.changes == capped(a.changes + 1)
            &&& b.in_single == a.in_single
        }),
{
    lemma_prev(style, singles, s, i);
}

/// A single mark between two letters or digits is an apostrophe in every style, and is not
/// counted.
pub proof fn law_apostrophes_are_kept(style: QuoteStyle, singles: bool, s: Seq<char>, i: int)
    requires
        0 < i,
        i + 1 < s.len(),
        is_single_mark(s[i]),
        is_alnum(s[i - 1]),
        is_alnum(s[i + 1]),
    ensures
        ({
            let (a, before) = converted(style, singles, quote_start(), s, i);
            let (b, after) = converted(style, singles, quote_start(), s, i + 1);
            &&& after == before.push('’')
            &&& b.changes == a.changes
            &&& b.in_single == a.in_single
        }),
{
    lemma_prev(style, singles, s, i);
    let (a, before) = converted(style, singles, quote_start(), s, i);
    assert(before + seq!['’'] =~= before.push('’'));
}

/// Other single marks stay where single marks are not asked for.
pub proof fn law_single_marks_stay_unless_asked_for(style: QuoteStyle, s: Seq<char>, i: int)
    requires
        0 <= i < s.len(),
        is_single_mark(s[i]),
        i == 0 || !is_alnum(s[i - 1]) || i + 1 == s.len() || !is_alnum(s[i + 1]),
    ensures
        ({
            let (a, before) = converted(style, false, quote_start(), s, i);
            let (b, after) = converted(style, false, quote_start(), s, i + 1);
            after == before.push(s[i]) && b.changes == a.changes
        }),
{
    lemma_prev(style, false, s, i);
    let (a, before) = converted(style, false, quote_start(), s, i);
    assert(before + seq![s[i]] =~= before.push(s[i]));
}

/// Where they are asked for, a single mark that is not between letters or digits opens a
/// quotation after what opens; behind a word it is an apostrophe unless a quotation is open;
/// and otherwise it closes one.
pub proof fn law_single_marks_go_by_what_stands_before(style: QuoteStyle, s: Seq<char>, i: int)
    requires
        0 <= i < s.len(),
        is_single_mark(s[i]),
        i == 0 || !is_alnum(s[i - 1]) || i + 1 == s.len() || !is_alnum(s[i + 1]),
    ensures
        ({
            let (a, before) = converted(style, true, quote_start(), s, i);
            let (b, after) = converted(style, true, quote_start(), s, i + 1);
            let behind_word = i > 0 && is_alnum(s[i - 1]);
            &&& opens_at(s, i) ==> after == before + opening(style, false) && b.in_single
                && b.changes == capped(a.changes + 1)
            &&& !opens_at(s, i) && behind_word && !a.in_single ==> after == before.push('’')
                && !b.in_single && b.changes == a.changes
            &&& !opens_at(s, i) && (!behind_word || a.in_single) ==> after == before + closing(
                style,
                false,
            ) && !b.in_single && b.changes == capped(a.changes + 1)
        }),
{
    lemma_prev(style, true, s, i);
    let (a, before) = converted(style, true, quote_start(), s, i);
    assert(before + seq!['’'] =~= before.push('’'));
}

/// A character that is no mark stays as it is.
pub proof fn law_other_characters_stay(style: QuoteStyle, singles: bool, s: Seq<char>, i: int)
    requires
        0 <= i < s.len(),
        !is_double_mark(s[i]),
        !is_single_mark(s[i]),
    ensures
        ({
            let (a, before) = converted(style, singles, quote_start(), s, i);
            let (b, after) = converted(style, singles, quote_start(), s, i + 1);
            after == before.push(s[i]) && b.changes == a.changes && b.in_single == a.in_single
        }),
{
    let (a, before) = converted(style, singles, quote_start(), s, i);
    assert(before + seq![s[i]] =~= before.push(s[i]));
}

// ---------------------------------------------------------------------------
// Spaces
// ---------------------------------------------------------------------------

/// A blank, a no-break space or a narrow one.
pub open spec fn is_space(c: char) -> bool {
    c as int == 0x20 || c as int == 0xa0 || c as int == 0x202f
}

/// The character stands behind an angular mark that opens, or before one that closes.
pub open spec fn is_inside_angular_marks(s: Seq<char>, i: int) -> bool {
    ||| i > 0 && (s[i - 1] == '«' || s[i - 1] == '‹')
    ||| i + 1 < s.len() && (s[i + 1] == '»' || s[i + 1] == '›')
}

/// Before marks are set, the spaces just inside angular marks go, and nothing else does.
pub proof fn law_only_inner_spaces_go(s: Seq<char>, n: int)
    requires
        0 < n <= s.len(),
    ensures
        is_space(s[n - 1]) && is_inside_angular_marks(s, n - 1) ==> unspaced(s, n) == unspaced(
            s,
            n - 1,
        ),
        !(is_space(s[n - 1]) && is_inside_angular_marks(s, n - 1)) ==> unspaced(s, n) == unspaced(
            s,
            n - 1,
        ).push(s[n - 1]),
        unspaced(s, 0) == Seq::<char>::empty(),
{
}

/// A text is what its characters become, one after the other, from its start, the spaces
/// inside angular marks apart.
pub proof fn law_texts_are_set_from_their_start(style: QuoteStyle, singles: bool, text: Seq<char>)
    ensures
        ({
            let s = unspaced(text, text.len() as int);
            &&& quoted_piece(style, singles, quote_start(), text) == converted(
                style,
                singles,
                quote_start(),
                s,
                s.len() as int,
            )
            &&& converted(style, singles, quote_start(), s, 0).1 == Seq::<char>::empty()
            &&& converted(style, singles, quote_start(), s, 0).0.changes == 0
            &&& !converted(style, singles, quote_start(), s, 0).0.in_single
        }),
{
}

// ---------------------------------------------------------------------------
// The characters that are no marks
// ---------------------------------------------------------------------------

/// The characters that are neither marks nor spaces.
pub open spec fn plain_chars(s: Seq<char>) -> Seq<char>
    decreases s.len(),
{
    if s.len() == 0 {
        Seq::empty()
    } else {
        let c = s.last();
        let before = plain_chars(s.drop_last());
        if is_double_mark(c) || is_single_mark(c) || is_space(c) {
            before
        } else {
            before.push(c)
        }
    }
}

proof fn lemma_plain_concat(a: Seq<char>, b: Seq<char>)
    ensures
        plain_chars(a + b) == plain_chars(a) + plain_chars(b),
    decreases b.len(),
{
    if b.len() == 0 {
        assert(a + b =~= a);
        assert(plain_chars(a) + plain_chars(b) =~= plain_chars(a));
    } else {
        lemma_plain_concat(a, b.drop_last());
        assert((a + b).drop_last() =~= a + b.drop_last());
        assert((a + b).last() == b.last());
        let c = b.last();
        if !(is_double_mark(c) || is_single_mark(c) || is_space(c)) {
            assert(plain_chars(a) + plain_chars(b.drop_last()).push(c) =~= (plain_chars(a)
                + plain_chars(b.drop_last())).push(c));
        }
    }
}

proof fn lemma_plain_marks(style: QuoteStyle, double: bool)
    ensures
        plain_chars(opening(style, double)) == Seq::<char>::empty(),
        plain_chars(closing(style, double)) == Seq::<char>::empty(),
{
    reveal_with_fuel(plain_chars, 3);
}

proof fn lemma_plain_one(c: char)
    ensures
        plain_chars(seq![c]) == if is_double_mark(c) || is_single_mark(c) || is_space(c) {
            Seq::<char>::empty()
        } else {
            seq![c]
        },
{
    reveal_with_fuel(plain_chars, 2);
    assert(seq![c].drop_last() =~= Seq::empty());
    assert(Seq::<char>::empty().push(c) =~= seq![c]);
}

proof fn lemma_plain_unspaced(s: Seq<char>, n: int)
    requires
        0 <= n <= s.len(),
    ensures
        plain_chars(unspaced(s, n)) == plain_chars(s.take(n)),
    decreases n,
{
    if n > 0 {
        lemma_plain_unspaced(s, n - 1);
        let t = s.take(n);
        assert(t.drop_last() =~= s.take(n - 1));
        assert(t.last() == s[n - 1]);
        let u = unspaced(s, n - 1).push(s[n - 1]);
        assert(u.drop_last() =~= unspaced(s, n - 1));
        assert(u.last() == s[n - 1]);
    } else {
        assert(s.take(0) =~= Seq::empty());
    }
}

proof fn lemma_plain_converted(
    style: QuoteStyle,
    singles: bool,
    start: QuoteState,
    s: Seq<char>,
    n: int,
)
    requires
        0 <= n <= s.len(),
    ensures
        plain_chars(converted(style, singles, start, s, n).1) == plain_chars(s.take(n)),
    decreases n,
{
    if n > 0 {
        lemma_plain_converted(style, singles, start, s, n - 1);
        let (before, out) = converted(style, singles, start, s, n - 1);
        let c = s[n - 1];
        let (after, more) = quote_step(style, singles, before, c, char_after(s, n));
        lemma_plain_concat(out, more);
        lemma_plain_marks(style, true);
        lemma_plain_marks(style, false);
        lemma_plain_one(c);
        lemma_plain_one('\u{2019}');
        assert(plain_chars(more) == plain_chars(seq![c]));
        lemma_plain_concat(s.take(n - 1), seq![c]);
        assert(s.take(n) =~= s.take(n - 1) + seq![c]);
    } else {
        assert(s.take(0) =~= Seq::empty());
    }
}

/// Setting marks changes no other characters: marks and spaces apart, the text says what it
/// said, in the same order.
pub proof fn law_only_marks_and_spaces_change(
    style: QuoteStyle,
    singles: bool,
    start: QuoteState,
    text: Seq<char>,
)
    ensures
        plain_chars(quoted_piece(style, singles, start, text).1) == plain_chars(text),
{
    let n = text.len() as int;
    let s = unspaced(text, n);
    lemma_plain_unspaced(text, n);
    lemma_plain_converted(style, singles, start, s, s.len() as int);
    assert(s.take(s.len() as int) =~= s);
    assert(text.take(n) =~= text);
}

// ---------------------------------------------------------------------------
// Escaped text
// ---------------------------------------------------------------------------

/// The entity of a character that may not stand in text.
pub open spec fn entity_of(c: char) -> Seq<char> {
    if c == '<' {
        seq!['&', 'l', 't', ';']
    } else if c == '>' {
        seq!['&', 'g', 't', ';']
    } else {
        seq!['&', 'a', 'm', 'p', ';']
    }
}

/// What a reader of XML makes of a text: each of the three entities stands for its character.
pub open spec fn entities_read(s: Seq<char>) -> Seq<char>
    decreases s.len(),
{
    if s.len() == 0 {
        Seq::empty()
    } else if entity_of('<').is_prefix_of(s) {
        seq!['<'] + entities_read(s.skip(4))
    } else if entity_of('>').is_prefix_of(s) {
        seq!['>'] + entities_read(s.skip(4))
    } else if entity_of('&').is_prefix_of(s) {
        seq!['&'] + entities_read(s.skip(5))
    } else {
        seq![s[0]] + entities_read(s.skip(1))
    }
}

proof fn lemma_escaped_front(c: char, s: Seq<char>)
    ensures
        text_escaped(seq![c] + s) == text_escaped(seq![c]) + text_escaped(s),
    decreases s.len(),
{
    let all = seq![c] + s;
    if s.len() == 0 {
        assert(all =~= seq![c]);
    } else {
        lemma_escaped_front(c, s.drop_last());
        assert(all.drop_last() =~= seq![c] + s.drop_last());
        assert(all.last() == s.last());
    }
}

proof fn lemma_escaped_one(c: char)
    ensures
        text_escaped(seq![c]) == if c == '<' || c == '>' || c == '&' {
            entity_of(c)
        } else {
            seq![c]
        },
{
    reveal_strlit("&lt;");
    reveal_strlit("&gt;");
    reveal_strlit("&amp;");
    assert("&lt;"@ =~= entity_of('<'));
    assert("&gt;"@ =~= entity_of('>'));
    assert("&amp;"@ =~= entity_of('&'));
    assert(seq![c].drop_last() =~= Seq::empty());
    assert(seq![c].last() == c);
    reveal_with_fuel(text_escaped, 2);
    let r = if c == '<' || c == '>' || c == '&' {
        entity_of(c)
    } else {
        seq![c]
    };
    assert(Seq::<char>::empty() + r =~= r);
}

proof fn lemma_read_entity(c: char, y: Seq<char>)
    requires
        c == '<' || c == '>' || c == '&',
    ensures
        entities_read(entity_of(c) + y) == seq![c] + entities_read(y),
{
    let all = entity_of(c) + y;
    assert(all.take(entity_of(c).len() as int) =~= entity_of(c));
    assert(all.skip(entity_of(c).len() as int) =~= y);
    assert(all[1] == entity_of(c)[1]);
    if entity_of('<').is_prefix_of(all) {
        assert(all.take(4)[1] == all[1]);
    }
    if entity_of('>').is_prefix_of(all) {
        assert(all.take(4)[1] == all[1]);
    }
}

proof fn lemma_read_char(c: char, y: Seq<char>)
    requires
        c != '&',
    ensures
        entities_read(seq![c] + y) == seq![c] + entities_read(y),
{
    let all = seq![c] + y;
    assert(all[0] == c);
    assert(all.skip(1) =~= y);
    if entity_of('<').is_prefix_of(all) {
        assert(all.take(4)[0] == all[0]);
    }
    if entity_of('>').is_prefix_of(all) {
        assert(all.take(4)[0] == all[0]);
    }
    if entity_of('&').is_prefix_of(all) {
        assert(all.take(5)[0] == all[0]);
    }
}

proof fn lemma_no_less(x: Seq<char>, y: Seq<char>)
    requires
        forall|i: int| 0 <= i < x.len() ==> #[trigger] x[i] != '<',
        !y.contains('<'),
    ensures
        !(x + y).contains('<'),
{
    assert forall|i: int| 0 <= i < (x + y).len() implies (x + y)[i] != '<' by {
        if i >= x.len() {
            assert((x + y)[i] == y[i - x.len()]);
        }
    }
}

/// A reader of an escaped text reads the text, and no tag starts in what is escaped.
#[verifier::rlimit(40)]
pub proof fn law_escaped_text_is_read_back(s: Seq<char>)
    ensures
        entities_read(text_escaped(s)) == s,
        !text_escaped(s).contains('<'),
    decreases s.len(),
{
    if s.len() > 0 {
        let c = s[0];
        let rest = s.skip(1);
        assert(seq![c] + rest =~= s);
        law_escaped_text_is_read_back(rest);
        lemma_escaped_front(c, rest);
        lemma_escaped_one(c);
        let x = text_escaped(seq![c]);
        let y = text_escaped(rest);
        if c == '<' || c == '>' || c == '&' {
            lemma_read_entity(c, y);
        } else {
            lemma_read_char(c, y);
        }
        lemma_no_less(x, y);
    } else {
        assert(s =~= Seq::empty());
    }
}

// ---------------------------------------------------------------------------
// Parts
// ---------------------------------------------------------------------------

proof fn lemma_push(style: QuoteStyle, singles: bool, events: Seq<Ev>, e: Ev)
    ensures
        quoted_events(style, singles, events.push(e)) == quoted_step(
            style,
            singles,
            quoted_events(style, singles, events),
            e,
        ),
{
    assert(events.push(e).drop_last() =~= events);
}

/// What stands outside texts keeps its bytes.
pub proof fn law_outside_texts_nothing_changes(
    style: QuoteStyle,
    singles: bool,
    before: Seq<Ev>,
    e: Ev,
)
    requires
        !quoted_events(style, singles, before).failed,
        !quoted_events(style, singles, before).in_text || e.kind != EventKind::Text,
    ensures
        ({
            let a = quoted_events(style, singles, before);
            let b = quoted_events(style, singles, before.push(e));
            &&& b.out == a.out + emitted(e)
            &&& b.state == a.state
            &&& b.touched == a.touched
            &&& !b.failed
        }),
{
    lemma_push(style, singles, before, e);
}

/// The text of a text element is written with the marks of the style, and what the marks of one
/// text come to is carried on to the next.
pub proof fn law_texts_are_rewritten(
    style: QuoteStyle,
    singles: bool,
    before: Seq<Ev>,
    open: Ev,
    text: Ev,
    said: Seq<char>,
)
    requires
        !quoted_events(style, singles, before).failed,
        is_start(open, "w:t"),
        text.kind == EventKind::Text,
        text_unescaped(text.raw) == Some(said),
    ensures
        ({
            let a = quoted_events(style, singles, before);
            let b = quoted_events(style, singles, before.push(open).push(text));
            let (state, new) = quoted_piece(style, singles, a.state, said);
            &&& b.out == a.out + emitted(open) + encode_utf8(text_escaped(new))
            &&& b.state == state
            &&& b.touched == (a.touched || new != said)
            &&& !b.failed
        }),
{
    lemma_push(style, singles, before, open);
    lemma_push(style, singles, before.push(open), text);
}

/// What the marks of a style make of a part.
pub open spec fn quoted_part(style: QuoteStyle, singles: bool, data: Option<Seq<u8>>) -> Option<
    Seq<u8>,
> {
    match data {
        None => None,
        Some(d) => {
            let q = quoted_events(style, singles, xml_events(d));
            if q.touched || q.state.changes > 0 {
                Some(q.out)
            } else {
                Some(d)
            }
        },
    }
}

proof fn lemma_quote_part(style: QuoteStyle, singles: bool, p: QuotePass, name: Seq<char>)
    requires
        p.failed is None,
        quote_part(style, singles, p, name).failed is None,
    ensures
        ({
            let q = quote_part(style, singles, p, name);
            &&& part(q.parts, name) == quoted_part(style, singles, part(p.parts, name))
            &&& forall|other: Seq<char>|
                other != name ==> #[trigger] part(q.parts, other) == part(p.parts, other)
        }),
{
    if let Some(data) = part(p.parts, name) {
        lemma_with_part(p.parts, name, quoted_events(style, singles, xml_events(data)).out);
    }
}

/// The marks are set in the main document, the footnotes and the endnotes, each for itself, and
/// in no other part.
pub proof fn law_every_story_part_is_quoted(style: QuoteStyle, singles: bool, parts: Parts)
    requires
        quote_pass(style, singles, parts).failed is None,
    ensures
        ({
            let p = quote_pass(style, singles, parts);
            &&& part(p.parts, PART_DOCUMENT@) == quoted_part(
                style,
                singles,
                part(parts, PART_DOCUMENT@),
            )
            &&& part(p.parts, PART_FOOTNOTES@) == quoted_part(
                style,
                singles,
                part(parts, PART_FOOTNOTES@),
            )
            &&& part(p.parts, PART_ENDNOTES@) == quoted_part(
                style,
                singles,
                part(parts, PART_ENDNOTES@),
            )
            &&& forall|other: Seq<char>|
                other != PART_DOCUMENT@ && other != PART_FOOTNOTES@ && other != PART_ENDNOTES@
                    ==> #[trigger] part(p.parts, other) == part(parts, other)
        }),
{
    lemma_story_names();
    let p0 = QuotePass { parts, changed: 0, rewritten: Seq::empty(), failed: None };
    let p1 = quote_part(style, singles, p0, PART_DOCUMENT@);
    let p2 = quote_part(style, singles, p1, PART_FOOTNOTES@);
    assert(p1.failed is None && p2.failed is None);
    lemma_quote_part(style, singles, p0, PART_DOCUMENT@);
    lemma_quote_part(style, singles, p1, PART_FOOTNOTES@);
    lemma_quote_part(style, singles, p2, PART_ENDNOTES@);
}

} // verus!
