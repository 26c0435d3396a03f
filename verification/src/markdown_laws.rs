//! What each kind of inline markup becomes.

use vstd::prelude::*;

use crate::inline_md::{
    angle_link_at, bare_url_at, boundary_at, char_count, ends_url, find_char, flushed, has_scheme,
    has_white, inline_spans, left_open, link_at, scheme_at, stars_end, styled, styled_step,
    text_tokens, token_at, tokens, url_end, without_punctuation, SpanView, StyledView, Tok,
};
use crate::text::{chars_at, is_alnum, is_white, trimmed};

verus! {

// ---------------------------------------------------------------------------
// Plain text
// ---------------------------------------------------------------------------

/// No address of the web begins at `i`: the letter there stands in the middle of a word, or
/// other letters follow than in the scheme.
pub open spec fn begins_no_address(s: Seq<char>, i: int) -> bool {
    ||| i > 0 && is_alnum(s[i - 1])
    ||| i + 1 < s.len() && s[i + 1] != 't'
    ||| i + 2 < s.len() && s[i + 2] != 't'
    ||| i + 3 < s.len() && s[i + 3] != 'p'
}

/// Text without a backslash, an asterisk and an opening bracket of either kind, in which no
/// address begins.
pub open spec fn is_unmarked(s: Seq<char>) -> bool {
    forall|i: int|
        0 <= i < s.len() ==> (#[trigger] s[i]) != '\\' && s[i] != '*' && s[i] != '[' && s[i] != '<'
            && (s[i] == 'h' ==> begins_no_address(s, i))
}

/// Plain text as spans: one, or none where there is no text.
pub open spec fn plain(s: Seq<char>) -> Seq<SpanView> {
    if s.len() == 0 {
        Seq::empty()
    } else {
        seq![SpanView { text: s, bold: false, italic: false, link: None }]
    }
}

proof fn lemma_no_bare_address(s: Seq<char>, from: int, i: int, j: int)
    requires
        0 <= from <= i < j <= s.len(),
        begins_no_address(s.subrange(from, j), i - from),
    ensures
        !(boundary_at(s, i) && bare_url_at(s, i) is Some),
{
    let part = s.subrange(from, j);
    reveal_strlit("http://");
    reveal_strlit("https://");
    if i > from {
        assert(part[i - from - 1] == s[i - 1]);
    }
    if scheme_at(s, i) is Some {
        let web = if chars_at(s, i, "http://"@) {
            s.subrange(i, i + 7)
        } else {
            s.subrange(i, i + 8)
        };
        assert(web[1] == 't' && web[2] == 't' && web[3] == 'p');
        assert(s[i + 1] == 't' && s[i + 2] == 't' && s[i + 3] == 'p');
    }
}

proof fn lemma_text_from(s: Seq<char>, from: int, i: int, j: int)
    requires
        0 <= from <= i <= j <= s.len(),
        is_unmarked(s.subrange(from, j)),
    ensures
        tokens(s, i) == text_tokens(s.subrange(i, j)) + tokens(s, j),
    decreases j - i,
{
    let part = s.subrange(i, j);
    if i == j {
        assert(text_tokens(part) + tokens(s, j) =~= tokens(s, j));
    } else {
        let rest = s.subrange(i + 1, j);
        assert(s.subrange(from, j)[i - from] == s[i]);
        if s[i] == 'h' {
            lemma_no_bare_address(s, from, i, j);
        }
        lemma_text_from(s, from, i + 1, j);
        assert(token_at(s, i) == (seq![Tok::Text(seq![s[i]])], i + 1));
        assert(text_tokens(part) =~= seq![Tok::Text(seq![s[i]])] + text_tokens(rest));
        assert(tokens(s, i) =~= text_tokens(part) + tokens(s, j));
    }
}

proof fn lemma_text(s: Seq<char>, i: int, j: int)
    requires
        0 <= i <= j <= s.len(),
        is_unmarked(s.subrange(i, j)),
    ensures
        tokens(s, i) == text_tokens(s.subrange(i, j)) + tokens(s, j),
{
    lemma_text_from(s, i, i, j);
}

proof fn lemma_stars_end(s: Seq<char>, i: int, j: int)
    requires
        0 <= i <= j <= s.len(),
        forall|k: int| i <= k < j ==> #[trigger] s[k] == '*',
        j < s.len() ==> s[j] != '*',
    ensures
        stars_end(s, i) == j,
    decreases j - i,
{
    if i < j {
        assert(s[i] == '*');
        lemma_stars_end(s, i + 1, j);
    }
}

proof fn lemma_stars(s: Seq<char>, i: int, n: int)
    requires
        0 <= i,
        1 <= n <= 3,
        i + n <= s.len(),
        forall|k: int| i <= k < i + n ==> #[trigger] s[k] == '*',
        i + n < s.len() ==> s[i + n] != '*',
    ensures
        tokens(s, i) == seq![Tok::Stars(n as nat)] + tokens(s, i + n),
{
    assert(s[i] == '*');
    lemma_stars_end(s, i, i + n);
}

proof fn lemma_open_text(toks: Seq<Tok>, s: Seq<char>, bold: bool)
    ensures
        left_open(toks + text_tokens(s), bold) == left_open(toks, bold),
    decreases s.len(),
{
    let all = toks + text_tokens(s);
    if s.len() == 0 {
        assert(all =~= toks);
    } else {
        lemma_open_text(toks, s.drop_last(), bold);
        assert(all.drop_last() =~= toks + text_tokens(s.drop_last()));
        assert(all.last() == Tok::Text(seq![s.last()]));
    }
}

proof fn lemma_open_push(toks: Seq<Tok>, t: Tok, bold: bool)
    ensures
        left_open(toks.push(t), bold) == (if !crate::inline_md::is_mark(t, bold) {
            left_open(toks, bold)
        } else if left_open(toks, bold) is Some {
            None
        } else {
            Some(toks.len() as int)
        }),
{
    assert(toks.push(t).drop_last() =~= toks);
}

proof fn lemma_styled_text(toks: Seq<Tok>, from: int, s: Seq<char>)
    requires
        0 <= from,
        from + s.len() <= toks.len(),
        forall|k: int| 0 <= k < s.len() ==> #[trigger] toks[from + k] == Tok::Text(seq![s[k]]),
    ensures
        styled(toks, (from + s.len()) as int) == (StyledView {
            text: styled(toks, from).text + s,
            ..styled(toks, from)
        }),
    decreases s.len(),
{
    if s.len() == 0 {
        assert(styled(toks, from).text + s =~= styled(toks, from).text);
    } else {
        let init = s.drop_last();
        let n = s.len() - 1;
        assert forall|k: int| 0 <= k < init.len() implies #[trigger] toks[from + k] == Tok::Text(
            seq![init[k]],
        ) by {
            assert(toks[from + k] == Tok::Text(seq![s[k]]));
        }
        lemma_styled_text(toks, from, init);
        assert(toks[from + n] == Tok::Text(seq![s[n]]));
        assert(styled(toks, from).text + s =~= styled(toks, from).text + init + seq![s[n]]);
    }
}

// ---------------------------------------------------------------------------
// Emphasis
// ---------------------------------------------------------------------------

/// A run of asterisks.
pub open spec fn stars(n: int) -> Seq<char> {
    Seq::new(n as nat, |i: int| '*')
}

proof fn lemma_sub_unmarked(s: Seq<char>, i: int, part: Seq<char>)
    requires
        0 <= i,
        i + part.len() <= s.len(),
        s.subrange(i, (i + part.len()) as int) == part,
        is_unmarked(part),
    ensures
        tokens(s, i) == text_tokens(part) + tokens(s, (i + part.len()) as int),
{
    lemma_text(s, i, (i + part.len()) as int);
}

proof fn lemma_emphasis_tokens(a: Seq<char>, n: int, b: Seq<char>, c: Seq<char>)
    requires
        1 <= n <= 3,
        is_unmarked(a),
        is_unmarked(b),
        b.len() > 0,
        is_unmarked(c),
    ensures
        tokens(a + stars(n) + b + stars(n) + c, 0) == text_tokens(a).push(Tok::Stars(n as nat))
            + text_tokens(b).push(Tok::Stars(n as nat)) + text_tokens(c),
{
    let s = a + stars(n) + b + stars(n) + c;
    let i = a.len() as int;
    let j = i + n;
    let k = j + b.len();
    let l = k + n;
    assert(s.subrange(0, i) =~= a);
    assert(s.subrange(j, k) =~= b);
    assert(s.subrange(l, l + c.len()) =~= c);
    lemma_sub_unmarked(s, 0, a);
    assert(s[j] == b[0]);
    lemma_stars(s, i, n);
    lemma_sub_unmarked(s, j, b);
    if c.len() > 0 {
        assert(s[l] == c[0]);
    }
    lemma_stars(s, k, n);
    lemma_sub_unmarked(s, l, c);
    let m = Tok::Stars(n as nat);
    assert(tokens(s, l + c.len()) =~= Seq::empty());
    assert(tokens(s, 0) =~= text_tokens(a).push(m) + text_tokens(b).push(m) + text_tokens(c));
}

/// Text between two runs of one asterisk is in italics, of two asterisks bold, and of three
/// both; the asterisks go, and the text around them stays plain.
pub proof fn law_emphasis(a: Seq<char>, n: int, b: Seq<char>, c: Seq<char>)
    requires
        1 <= n <= 3,
        is_unmarked(a),
        is_unmarked(b),
        b.len() > 0,
        is_unmarked(c),
    ensures
        inline_spans(a + stars(n) + b + stars(n) + c) == plain(a).push(
            SpanView { text: b, bold: n >= 2, italic: n != 2, link: None },
        ) + plain(c),
{
    lemma_emphasis_tokens(a, n, b, c);
    let m = Tok::Stars(n as nat);
    let t1 = text_tokens(a).push(m);
    let t2 = t1 + text_tokens(b);
    let t3 = t2.push(m);
    let toks = t3 + text_tokens(c);
    assert(toks =~= text_tokens(a).push(m) + text_tokens(b).push(m) + text_tokens(c));
    let none = Seq::<Tok>::empty();
    assert(none + text_tokens(a) =~= text_tokens(a));
    lemma_open_text(none, a, true);
    lemma_open_text(none, a, false);
    lemma_open_push(text_tokens(a), m, true);
    lemma_open_push(text_tokens(a), m, false);
    lemma_open_text(t1, b, true);
    lemma_open_text(t1, b, false);
    lemma_open_push(t2, m, true);
    lemma_open_push(t2, m, false);
    lemma_open_text(t3, c, true);
    lemma_open_text(t3, c, false);
    assert(left_open(toks, true) is None);
    assert(left_open(toks, false) is None);
    let i = a.len() as int;
    lemma_styled_text(toks, 0, a);
    let s0 = styled(toks, i);
    assert(s0.text =~= a);
    assert(toks[i] == m);
    let s1 = styled(toks, i + 1);
    assert(s1 == styled_step(s0, m, i, None, None));
    assert(s1.text =~= Seq::empty());
    lemma_styled_text(toks, i + 1, b);
    let j = i + 1 + b.len();
    let s2 = styled(toks, j);
    assert(s2.text =~= b);
    assert(toks[j] == m);
    let s3 = styled(toks, j + 1);
    assert(s3 == styled_step(s2, m, j, None, None));
    assert(s3.text =~= Seq::empty());
    lemma_styled_text(toks, j + 1, c);
    let s4 = styled(toks, j + 1 + c.len());
    assert(s4.text =~= c);
    assert(s4.spans =~= plain(a).push(
        SpanView { text: b, bold: n >= 2, italic: n != 2, link: None },
    ));
    assert(flushed(s4).spans =~= plain(a).push(
        SpanView { text: b, bold: n >= 2, italic: n != 2, link: None },
    ) + plain(c));
}

/// A run of asterisks without a counterpart is text.
pub proof fn law_lonely_asterisks_are_text(a: Seq<char>, n: int, c: Seq<char>)
    requires
        1 <= n <= 3,
        is_unmarked(a),
        is_unmarked(c),
    ensures
        inline_spans(a + stars(n) + c) == plain(a + stars(n) + c),
{
    let s = a + stars(n) + c;
    let i = a.len() as int;
    let m = Tok::Stars(n as nat);
    assert(s.subrange(0, i) =~= a);
    assert(s.subrange(i + n, i + n + c.len()) =~= c);
    lemma_sub_unmarked(s, 0, a);
    if c.len() > 0 {
        assert(s[i + n] == c[0]);
    }
    lemma_stars(s, i, n);
    lemma_sub_unmarked(s, i + n, c);
    assert(tokens(s, i + n + c.len()) =~= Seq::empty());
    let t1 = text_tokens(a).push(m);
    let toks = t1 + text_tokens(c);
    assert(tokens(s, 0) =~= toks);
    let none = Seq::<Tok>::empty();
    assert(none + text_tokens(a) =~= text_tokens(a));
    lemma_open_text(none, a, true);
    lemma_open_text(none, a, false);
    lemma_open_push(text_tokens(a), m, true);
    lemma_open_push(text_tokens(a), m, false);
    lemma_open_text(t1, c, true);
    lemma_open_text(t1, c, false);
    lemma_styled_text(toks, 0, a);
    let s0 = styled(toks, i);
    assert(s0.text =~= a);
    assert(toks[i] == m);
    let s1 = styled(toks, i + 1);
    assert(s1.text =~= a + stars(n));
    lemma_styled_text(toks, i + 1, c);
    let s2 = styled(toks, i + 1 + c.len());
    assert(s2.text =~= s);
    assert(flushed(s2).spans =~= plain(s));
}

// ---------------------------------------------------------------------------
// One token in plain text
// ---------------------------------------------------------------------------

proof fn lemma_one_token(s: Seq<char>, a: Seq<char>, t: Tok, next: int, c: Seq<char>)
    requires
        is_unmarked(a),
        is_unmarked(c),
        a.len() < next <= s.len(),
        s.subrange(0, a.len() as int) == a,
        token_at(s, a.len() as int) == (seq![t], next),
        s.skip(next) == c,
        !(t is Stars),
    ensures
        t matches Tok::Text(x) ==> inline_spans(s) == plain(a + x + c),
        t matches Tok::Link(text, url) ==> inline_spans(s) == plain(a).push(
            SpanView { text, bold: false, italic: false, link: Some(url) },
        ) + plain(c),
{
    let i = a.len() as int;
    lemma_sub_unmarked(s, 0, a);
    assert(s.subrange(next, next + c.len()) =~= c);
    lemma_sub_unmarked(s, next, c);
    assert(tokens(s, next + c.len()) =~= Seq::empty());
    let t1 = text_tokens(a).push(t);
    let toks = t1 + text_tokens(c);
    assert(tokens(s, 0) =~= toks);
    let none = Seq::<Tok>::empty();
    assert(none + text_tokens(a) =~= text_tokens(a));
    lemma_open_text(none, a, true);
    lemma_open_text(none, a, false);
    lemma_open_push(text_tokens(a), t, true);
    lemma_open_push(text_tokens(a), t, false);
    lemma_open_text(t1, c, true);
    lemma_open_text(t1, c, false);
    lemma_styled_text(toks, 0, a);
    let s0 = styled(toks, i);
    assert(s0.text =~= a);
    assert(toks[i] == t);
    let s1 = styled(toks, i + 1);
    lemma_styled_text(toks, i + 1, c);
    let s2 = styled(toks, i + 1 + c.len());
    match t {
        Tok::Text(x) => {
            assert(s2.text =~= a + x + c);
            assert(flushed(s2).spans =~= plain(a + x + c));
        },
        Tok::Link(text, url) => {
            assert(s1.text =~= Seq::empty());
            assert(s2.text =~= c);
            assert(flushed(s2).spans =~= plain(a).push(
                SpanView { text, bold: false, italic: false, link: Some(url) },
            ) + plain(c));
        },
        _ => {},
    }
}

/// Text without marks in which no address begins is plain, an address in the middle of a word
/// among it.
pub proof fn law_unmarked_text_is_plain(s: Seq<char>)
    requires
        is_unmarked(s),
    ensures
        inline_spans(s) == plain(s),
{
    let n = s.len() as int;
    assert(s.subrange(0, n) =~= s);
    lemma_text(s, 0, n);
    let toks = text_tokens(s);
    assert(tokens(s, n) =~= Seq::empty());
    assert(tokens(s, 0) =~= toks);
    let none = Seq::<Tok>::empty();
    assert(none + toks =~= toks);
    lemma_open_text(none, s, true);
    lemma_open_text(none, s, false);
    lemma_styled_text(toks, 0, s);
    assert(styled(toks, n).text =~= s);
    assert(flushed(styled(toks, n)).spans =~= plain(s));
}

/// A character behind a backslash is text, whatever it is, and the backslash goes.
pub proof fn law_backslashes_make_text(a: Seq<char>, x: char, c: Seq<char>)
    requires
        is_unmarked(a),
        is_unmarked(c),
    ensures
        inline_spans(a + seq!['\\', x] + c) == plain(a + seq![x] + c),
{
    let s = a + seq!['\\', x] + c;
    let i = a.len() as int;
    assert(s[i] == '\\' && s[i + 1] == x);
    assert(s.subrange(0, i) =~= a);
    assert(s.skip(i + 2) =~= c);
    lemma_one_token(s, a, Tok::Text(seq![x]), i + 2, c);
}

proof fn lemma_find_char(s: Seq<char>, from: int, c: char, at: int)
    requires
        0 <= from <= at < s.len(),
        s[at] == c,
        forall|k: int| from <= k < at ==> #[trigger] s[k] != c,
    ensures
        find_char(s, from, c) == Some(at),
    decreases at - from,
{
    if from < at {
        assert(s[from] != c);
        lemma_find_char(s, from + 1, c, at);
    }
}

/// A label in brackets with an address in parentheses behind it is a link with that label.
pub proof fn law_labelled_links(a: Seq<char>, label: Seq<char>, url: Seq<char>, c: Seq<char>)
    requires
        is_unmarked(a),
        is_unmarked(c),
        !label.contains(']'),
        !url.contains(')'),
        url.len() > 0,
        trimmed(url) == url,
    ensures
        inline_spans(a + seq!['['] + label + seq![']', '('] + url + seq![')'] + c) == plain(a).push(
            SpanView { text: label, bold: false, italic: false, link: Some(url) },
        ) + plain(c),
{
    let s = a + seq!['['] + label + seq![']', '('] + url + seq![')'] + c;
    let i = a.len() as int;
    let close = i + 1 + label.len();
    let end = close + 2 + url.len();
    assert(s[i] == '[');
    assert(s.subrange(i + 1, close) =~= label);
    assert(s.subrange(close + 2, end) =~= url);
    assert forall|k: int| i + 1 <= k < close implies #[trigger] s[k] != ']' by {
        assert(s[k] == label[k - i - 1]);
        assert(label.contains(label[k - i - 1]));
    }
    lemma_find_char(s, i + 1, ']', close);
    assert forall|k: int| close + 2 <= k < end implies #[trigger] s[k] != ')' by {
        assert(s[k] == url[k - close - 2]);
        assert(url.contains(url[k - close - 2]));
    }
    lemma_find_char(s, close + 2, ')', end);
    assert(link_at(s, i) == Some((label, url, end + 1)));
    assert(s.subrange(0, i) =~= a);
    assert(s.skip(end + 1) =~= c);
    lemma_one_token(s, a, Tok::Link(label, url), end + 1, c);
}

/// The text starts with the scheme of the web.
pub open spec fn is_web_address(url: Seq<char>) -> bool {
    ("http://"@.is_prefix_of(url) && url.len() > 7) || ("https://"@.is_prefix_of(url) && url.len()
        > 8)
}

proof fn lemma_scheme(url: Seq<char>)
    requires
        is_web_address(url),
    ensures
        has_scheme(url),
        url[0] == 'h',
{
    reveal_strlit("http://");
    reveal_strlit("https://");
    if "http://"@.is_prefix_of(url) {
        assert(url.subrange(0, 7) =~= url.take(7));
        assert(url.take(7)[0] == url[0]);
    } else {
        assert(url.subrange(0, 8) =~= url.take(8));
        assert(url.take(8)[0] == url[0]);
    }
}

/// The text starts with the scheme of the web, of mail or of files.
pub open spec fn is_address(url: Seq<char>) -> bool {
    is_web_address(url) || "mailto:"@.is_prefix_of(url) || "ftp://"@.is_prefix_of(url)
}

proof fn lemma_any_scheme(url: Seq<char>)
    requires
        is_address(url),
    ensures
        has_scheme(url),
{
    reveal_strlit("mailto:");
    reveal_strlit("ftp://");
    if is_web_address(url) {
        lemma_scheme(url);
    } else if "mailto:"@.is_prefix_of(url) {
        assert(url.subrange(0, 7) =~= url.take(7));
    } else {
        assert(url.subrange(0, 6) =~= url.take(6));
    }
}

/// An address in angle brackets is a link, if no white space stands in it.
pub proof fn law_bracketed_addresses(a: Seq<char>, url: Seq<char>, c: Seq<char>)
    requires
        is_unmarked(a),
        is_unmarked(c),
        is_address(url),
        forall|i: int| 0 <= i < url.len() ==> !is_white(#[trigger] url[i]) && url[i] != '>',
    ensures
        inline_spans(a + seq!['<'] + url + seq!['>'] + c) == plain(a).push(
            SpanView { text: url, bold: false, italic: false, link: Some(url) },
        ) + plain(c),
{
    let s = a + seq!['<'] + url + seq!['>'] + c;
    let i = a.len() as int;
    let close = i + 1 + url.len();
    assert(s[i] == '<');
    assert(s.subrange(i + 1, close) =~= url);
    assert forall|k: int| i + 1 <= k < close implies #[trigger] s[k] != '>' by {
        assert(s[k] == url[k - i - 1]);
    }
    lemma_find_char(s, i + 1, '>', close);
    lemma_any_scheme(url);
    assert(!has_white(url));
    assert(angle_link_at(s, i) == Some((url, close + 1)));
    assert(s.subrange(0, i) =~= a);
    assert(s.skip(close + 1) =~= c);
    lemma_one_token(s, a, Tok::Link(url, url), close + 1, c);
}

proof fn lemma_url_end(s: Seq<char>, from: int, at: int)
    requires
        0 <= from <= at <= s.len(),
        forall|k: int| from <= k < at ==> !ends_url(#[trigger] s[k]),
        at < s.len() ==> ends_url(s[at]),
    ensures
        url_end(s, from) == at,
    decreases at - from,
{
    if from < at {
        assert(!ends_url(s[from]));
        lemma_url_end(s, from + 1, at);
    }
}

/// A character that may stand in a bare address.
pub open spec fn is_address_char(c: char) -> bool {
    !is_white(c) && c != '<' && c != '>' && c != '"' && c != '|' && c != '\\' && c != '^' && c
        != '`' && c != '*' && c != '[' && c != ']'
}

/// Punctuation that ends a sentence, or a part of one.
pub open spec fn is_punctuation(c: char) -> bool {
    c == '.' || c == ',' || c == ';' || c == ':' || c == '!' || c == '?' || c == '\''
}

/// A bare address of the web is a link, up to white space or the end, without the punctuation
/// of the sentence behind it. It does not begin in the middle of a word. Left out are addresses
/// with parentheses.
pub proof fn law_bare_addresses(a: Seq<char>, url: Seq<char>, p: Seq<char>, c: Seq<char>)
    requires
        is_unmarked(a),
        a.len() > 0 ==> !is_alnum(a.last()),
        is_web_address(url),
        forall|i: int| 0 <= i < url.len() ==> is_address_char(#[trigger] url[i]) && url[i] != ')',
        !is_punctuation(url.last()),
        forall|i: int|
            0 <= i < p.len() ==> is_punctuation(#[trigger] p[i]) && is_address_char(p[i]),
        is_unmarked(p + c),
        c.len() > 0 ==> is_white(c[0]),
    ensures
        inline_spans(a + url + p + c) == plain(a).push(
            SpanView { text: url, bold: false, italic: false, link: Some(url) },
        ) + plain(p + c),
{
    let s = a + url + p + c;
    let i = a.len() as int;
    let whole = url + p;
    let end = i + whole.len();
    reveal_strlit("http://");
    reveal_strlit("https://");
    lemma_scheme(url);
    assert(s[i] == url[0]);
    assert(boundary_at(s, i)) by {
        if i > 0 {
            assert(s[i - 1] == a.last());
        }
    }
    assert(s.subrange(i, end) =~= whole);
    let n: int = if "http://"@.is_prefix_of(url) {
        7
    } else {
        8
    };
    assert(scheme_at(s, i) == Some(n)) by {
        assert(s.subrange(i, i + 7) =~= url.take(7));
        if n == 8 {
            assert(s.subrange(i, i + 8) =~= url.take(8));
            assert(url.take(8)[4] == url[4]);
            assert(s.subrange(i, i + 7)[4] == url[4]);
            assert("http://"@[4] != url[4]);
        }
    }
    assert forall|k: int| i + n <= k < end implies !ends_url(#[trigger] s[k]) by {
        if k < i + url.len() {
            assert(s[k] == url[k - i]);
        } else {
            assert(s[k] == p[k - i - url.len()]);
        }
    }
    if c.len() > 0 {
        assert(s[end] == c[0]);
    }
    lemma_url_end(s, i + n, end);
    lemma_without(url, p);
    assert(bare_url_at(s, i) == Some(url));
    assert(s.subrange(0, i) =~= a);
    assert(s.skip(i + url.len()) =~= p + c);
    lemma_one_token(s, a, Tok::Link(url, url), i + url.len(), p + c);
}

proof fn lemma_without(url: Seq<char>, p: Seq<char>)
    requires
        url.len() > 0,
        !is_punctuation(url.last()),
        url.last() != '"',
        url.last() != ')',
        forall|i: int| 0 <= i < p.len() ==> is_punctuation(#[trigger] p[i]),
    ensures
        without_punctuation(url + p) == url,
    decreases p.len(),
{
    let whole = url + p;
    if p.len() == 0 {
        assert(whole =~= url);
    } else {
        let init = p.drop_last();
        assert(whole.last() == p[p.len() - 1]);
        assert(whole.drop_last() =~= url + init);
        assert forall|i: int| 0 <= i < init.len() implies is_punctuation(#[trigger] init[i]) by {
            assert(init[i] == p[i]);
        }
        lemma_without(url, init);
    }
}

proof fn lemma_no_count(s: Seq<char>, c: char)
    requires
        !s.contains(c),
    ensures
        char_count(s, c) == 0,
    decreases s.len(),
{
    if s.len() > 0 {
        assert(s[s.len() - 1] == s.last());
        assert forall|i: int| 0 <= i < s.drop_last().len() implies s.drop_last()[i] != c by {
            assert(s[i] == s.drop_last()[i]);
        }
        lemma_no_count(s.drop_last(), c);
    }
}

proof fn lemma_count_concat(a: Seq<char>, b: Seq<char>, c: char)
    ensures
        char_count(a + b, c) == char_count(a, c) + char_count(b, c),
    decreases b.len(),
{
    if b.len() == 0 {
        assert(a + b =~= a);
    } else {
        assert((a + b).drop_last() =~= a + b.drop_last());
        assert((a + b).last() == b.last());
        lemma_count_concat(a, b.drop_last(), c);
    }
}

/// A closing parenthesis at the end of an address belongs to it where the opening one stands in
/// it, and else to the sentence.
pub proof fn law_parentheses_of_addresses(a: Seq<char>, b: Seq<char>)
    requires
        !a.contains('(') && !a.contains(')'),
        !b.contains('(') && !b.contains(')'),
    ensures
        without_punctuation(a + seq!['('] + b + seq![')']) == a + seq!['('] + b + seq![')'],
        without_punctuation(a + seq![')']) == without_punctuation(a),
{
    lemma_no_count(a, '(');
    lemma_no_count(a, ')');
    lemma_no_count(b, '(');
    lemma_no_count(b, ')');
    let open = seq!['('];
    let close = seq![')'];
    assert(open.drop_last() =~= Seq::empty());
    assert(close.drop_last() =~= Seq::empty());
    reveal_with_fuel(char_count, 2);
    assert(char_count(open, '(') == 1 && char_count(open, ')') == 0);
    assert(char_count(close, '(') == 0 && char_count(close, ')') == 1);
    lemma_count_concat(a, open, '(');
    lemma_count_concat(a, open, ')');
    lemma_count_concat(a + open, b, '(');
    lemma_count_concat(a + open, b, ')');
    lemma_count_concat(a + open + b, close, '(');
    lemma_count_concat(a + open + b, close, ')');
    lemma_count_concat(a, close, '(');
    lemma_count_concat(a, close, ')');
    let whole = a + open + b + close;
    assert(whole.last() == ')');
    assert((a + close).last() == ')');
    assert((a + close).drop_last() =~= a);
}

} // verus!
