//! Surface words out of subword tokens.
//!
//! Aligners work on the encoder's subword tokens. Both supported families of tokenizers
//! mark where words begin: WordPiece puts `##` before a token that continues a word,
//! SentencePiece puts U+2581 before a token that starts one. Special tokens carry no
//! surface text and belong to no word.

use vstd::prelude::*;

use crate::paragraph_text::texts_view;
use crate::text::{chars_of, match_str, starts_with, str_eq, string_of};

verus! {

/// A family of tokenizers.
#[derive(Debug, Clone, Copy, PartialEq, Eq, Structural)]
pub enum TokenizerKind {
    /// A token that continues a word is prefixed `##`.
    WordPiece,
    /// A token that starts a word is prefixed U+2581.
    SentencePiece,
    /// Byte-pair encoding: every token counts as a word.
    Bpe,
}

impl TokenizerKind {
    /// The family with a number. Unknown numbers count as WordPiece.
    pub fn from_kind(k: i32) -> (r: Self)
        ensures
            r == (if k == 2 {
                TokenizerKind::SentencePiece
            } else if k == 3 {
                TokenizerKind::Bpe
            } else {
                TokenizerKind::WordPiece
            }),
    {
        match k {
            2 => TokenizerKind::SentencePiece,
            3 => TokenizerKind::Bpe,
            _ => TokenizerKind::WordPiece,
        }
    }
}

/// A surface word, made of one or more tokens.
#[derive(Debug)]
pub struct WordGroup {
    /// The positions of its tokens.
    pub token_indices: Vec<usize>,
    /// Its text.
    pub text: String,
}

/// A surface word.
#[verifier::ext_equal]
pub struct WordView {
    pub tokens: Seq<usize>,
    pub text: Seq<char>,
}

impl View for WordGroup {
    type V = WordView;

    open spec fn view(&self) -> WordView {
        WordView { tokens: self.token_indices@, text: self.text@ }
    }
}

/// The words of a vector.
pub open spec fn words_view(v: Seq<WordGroup>) -> Seq<WordView> {
    v.map_values(|g: WordGroup| g@)
}

/// A token without surface text.
pub open spec fn is_special_token(t: Seq<char>) -> bool {
    t == "[CLS]"@ || t == "[SEP]"@ || t == "[PAD]"@ || t == "[UNK]"@ || t == "[MASK]"@ || t
        == "<s>"@ || t == "</s>"@ || t == "<pad>"@ || t == "<unk>"@ || t == "<mask>"@
}

/// Whether a token has no surface text.
pub fn is_special(tok: &str) -> (r: bool)
    ensures
        r == is_special_token(tok@),
{
    str_eq(tok, "[CLS]") || str_eq(tok, "[SEP]") || str_eq(tok, "[PAD]") || str_eq(tok, "[UNK]")
        || str_eq(tok, "[MASK]") || str_eq(tok, "<s>") || str_eq(tok, "</s>") || str_eq(
        tok,
        "<pad>",
    ) || str_eq(tok, "<unk>") || str_eq(tok, "<mask>")
}

/// The token continues the word before it.
pub open spec fn continues(kind: TokenizerKind, t: Seq<char>) -> bool {
    match kind {
        TokenizerKind::WordPiece => starts_with(t, "##"@),
        TokenizerKind::SentencePiece => !starts_with(t, "\u{2581}"@),
        TokenizerKind::Bpe => false,
    }
}

/// The text of a token without its marker.
pub open spec fn surface(kind: TokenizerKind, t: Seq<char>) -> Seq<char> {
    match kind {
        TokenizerKind::WordPiece => if starts_with(t, "##"@) {
            t.skip(2)
        } else {
            t
        },
        TokenizerKind::SentencePiece => if starts_with(t, "\u{2581}"@) {
            t.skip(1)
        } else {
            t
        },
        TokenizerKind::Bpe => t,
    }
}

/// The words of the first `n` tokens. A token that continues a word joins the last one,
/// or starts the first where there is none yet.
pub open spec fn grouped(tokens: Seq<Seq<char>>, kind: TokenizerKind, n: int) -> Seq<WordView>
    decreases n,
{
    if n <= 0 {
        Seq::empty()
    } else {
        let before = grouped(tokens, kind, n - 1);
        let t = tokens[n - 1];
        let i = (n - 1) as usize;
        if is_special_token(t) {
            before
        } else if continues(kind, t) && before.len() > 0 {
            let last = before.last();
            before.drop_last().push(
                WordView { tokens: last.tokens.push(i), text: last.text + surface(kind, t) },
            )
        } else {
            before.push(WordView { tokens: seq![i], text: surface(kind, t) })
        }
    }
}

/// The token's text without its marker, and whether it continues the word before it.
fn read_surface(kind: TokenizerKind, tok: &str) -> (r: (String, bool))
    ensures
        r.0@ == surface(kind, tok@),
        r.1 == continues(kind, tok@),
{
    proof {
        reveal_strlit("##");
        reveal_strlit("\u{2581}");
    }
    let chars = chars_of(tok);
    match kind {
        TokenizerKind::WordPiece => if match_str(&chars, 0, "##") {
            let rest = vstd::slice::slice_subrange(chars.as_slice(), 2, chars.len());
            assert(rest@ =~= tok@.skip(2));
            (string_of(rest), true)
        } else {
            (tok.to_owned(), false)
        },
        TokenizerKind::SentencePiece => if match_str(&chars, 0, "\u{2581}") {
            let rest = vstd::slice::slice_subrange(chars.as_slice(), 1, chars.len());
            assert(rest@ =~= tok@.skip(1));
            (string_of(rest), false)
        } else {
            (tok.to_owned(), true)
        },
        TokenizerKind::Bpe => (tok.to_owned(), false),
    }
}

/// Groups tokens into surface words, in order. The positions refer to `tokens`.
pub fn group_subwords_to_words(tokens: &[String], kind: TokenizerKind) -> (r: Vec<WordGroup>)
    ensures
        words_view(r@) == grouped(texts_view(tokens@), kind, tokens@.len() as int),
{
    let ghost all = texts_view(tokens@);
    let mut groups: Vec<WordGroup> = Vec::new();
    let mut i: usize = 0;
    assert(words_view(groups@) =~= Seq::empty());
    while i < tokens.len()
        invariant
            i <= tokens@.len(),
            all == texts_view(tokens@),
            words_view(groups@) == grouped(all, kind, i as int),
        decreases tokens@.len() - i,
    {
        assert(all[i as int] == tokens@[i as int]@);
        let ghost before = words_view(groups@);
        if !is_special(&tokens[i]) {
            let (text, joins) = read_surface(kind, &tokens[i]);
            if joins && groups.len() > 0 {
                let ghost last = groups@.last();
                assert(before.last() == last@);
                let mut g = groups.pop().unwrap();
                assert(words_view(groups@) =~= before.drop_last());
                let ghost rest = groups@;
                g.token_indices.push(i);
                g.text.append(&text);
                groups.push(g);
                assert(words_view(groups@) =~= words_view(rest).push(g@));
            } else {
                let ghost rest = groups@;
                let mut token_indices: Vec<usize> = Vec::new();
                token_indices.push(i);
                assert(token_indices@ =~= seq![i]);
                let g = WordGroup { token_indices, text };
                groups.push(g);
                assert(words_view(groups@) =~= words_view(rest).push(g@));
            }
        }
        i += 1;
    }
    groups
}

/// The positions of a word's tokens ascend and stay below `n`.
pub open spec fn ascending_below(tokens: Seq<usize>, n: int) -> bool {
    &&& tokens.len() > 0
    &&& forall|i: int| 0 <= i < tokens.len() ==> #[trigger] tokens[i] < n
    &&& forall|i: int, j: int| 0 <= i < j < tokens.len() ==> #[trigger] tokens[i] < #[trigger] tokens[j]
}

/// Every word has tokens, in ascending order; a word's tokens stand behind those of every
/// word before; and a token belongs to some word exactly where it is not special.
pub proof fn law_words_partition_tokens(tokens: Seq<Seq<char>>, kind: TokenizerKind, n: int)
    requires
        0 <= n <= tokens.len(),
        tokens.len() <= usize::MAX,
    ensures
        forall|k: int|
            0 <= k < grouped(tokens, kind, n).len() ==> ascending_below(
                (#[trigger] grouped(tokens, kind, n)[k]).tokens,
                n,
            ),
        forall|k: int, l: int|
            0 <= k < l < grouped(tokens, kind, n).len() ==> (#[trigger] grouped(
                tokens,
                kind,
                n,
            )[k]).tokens.last() < (#[trigger] grouped(tokens, kind, n)[l]).tokens[0],
        forall|i: usize|
            i < n ==> (is_special_token(tokens[i as int]) <==> !#[trigger] in_some_word(
                grouped(tokens, kind, n),
                i,
            )),
    decreases n,
{
    if n > 0 {
        law_words_partition_tokens(tokens, kind, n - 1);
        let before = grouped(tokens, kind, n - 1);
        let after = grouped(tokens, kind, n);
        let t = tokens[n - 1];
        let i = (n - 1) as usize;
        if is_special_token(t) {
            if in_some_word(after, i) {
                let k = choose|k: int|
                    0 <= k < after.len() && (#[trigger] after[k]).tokens.contains(i);
                assert(ascending_below(before[k].tokens, n - 1));
            }
        } else if continues(kind, t) && before.len() > 0 {
            let p = before.len() - 1;
            let last = before.last();
            assert(ascending_below(before[p].tokens, n - 1));
            assert(after[p].tokens == last.tokens.push(i));
            assert(after[p].tokens[last.tokens.len() as int] == i);
            assert(after[p].tokens.contains(i));
            assert(in_some_word(after, i));
            assert forall|k: int| 0 <= k < p implies after[k] == before[k] by {}
            assert forall|j: usize| j < n - 1 implies (#[trigger] in_some_word(after, j)
                <==> in_some_word(before, j)) by {
                if in_some_word(before, j) {
                    let k = choose|k: int|
                        0 <= k < before.len() && (#[trigger] before[k]).tokens.contains(j);
                    let q = choose|q: int|
                        0 <= q < before[k].tokens.len() && before[k].tokens[q] == j;
                    assert(after[k].tokens[q] == j);
                    assert(after[k].tokens.contains(j));
                }
                if in_some_word(after, j) {
                    let k = choose|k: int|
                        0 <= k < after.len() && (#[trigger] after[k]).tokens.contains(j);
                    let q = choose|q: int|
                        0 <= q < after[k].tokens.len() && after[k].tokens[q] == j;
                    assert(before[k].tokens[q] == j);
                    assert(before[k].tokens.contains(j));
                }
            }
        } else {
            let p = before.len() as int;
            assert(after[p].tokens == seq![i]);
            assert(after[p].tokens[0] == i);
            assert(after[p].tokens.contains(i));
            assert(in_some_word(after, i));
            assert forall|k: int| 0 <= k < p implies after[k] == before[k] && ascending_below(
                (#[trigger] after[k]).tokens,
                n - 1,
            ) by {
                assert(ascending_below(before[k].tokens, n - 1));
            }
            assert forall|k: int, l: int| 0 <= k < l < after.len() implies (
            #[trigger] after[k]).tokens.last() < (#[trigger] after[l]).tokens[0] by {
                assert(after[k] == before[k]);
                if l < p {
                    assert(after[l] == before[l]);
                }
            }
            assert forall|j: usize| j < n - 1 implies (#[trigger] in_some_word(after, j)
                <==> in_some_word(before, j)) by {
                if in_some_word(before, j) {
                    let k = choose|k: int|
                        0 <= k < before.len() && (#[trigger] before[k]).tokens.contains(j);
                    assert(after[k].tokens.contains(j));
                }
                if in_some_word(after, j) {
                    let k = choose|k: int|
                        0 <= k < after.len() && (#[trigger] after[k]).tokens.contains(j);
                    if k < p {
                        assert(before[k].tokens.contains(j));
                    }
                }
            }
        }
    }
}

/// Some word has the token at `i`.
pub open spec fn in_some_word(words: Seq<WordView>, i: usize) -> bool {
    exists|k: int| 0 <= k < words.len() && (#[trigger] words[k]).tokens.contains(i)
}

/// The token starts with two number signs.
pub open spec fn is_hashed(t: Seq<char>) -> bool {
    t.len() >= 2 && t[0] == '#' && t[1] == '#'
}

/// The token starts with the mark of a word's start.
pub open spec fn is_underscored(t: Seq<char>) -> bool {
    t.len() >= 1 && t[0] as int == 0x2581
}

/// In `after` the last word has one more token, with a text.
pub open spec fn is_joined(
    before: Seq<WordView>,
    after: Seq<WordView>,
    token: int,
    text: Seq<char>,
) -> bool {
    &&& after.len() == before.len() > 0
    &&& after.drop_last() == before.drop_last()
    &&& after.last().tokens == before.last().tokens.push(token as usize)
    &&& after.last().text == before.last().text + text
}

/// In `after` there is one more word, of one token, with a text.
pub open spec fn is_begun(
    before: Seq<WordView>,
    after: Seq<WordView>,
    token: int,
    text: Seq<char>,
) -> bool {
    after == before.push(WordView { tokens: seq![token as usize], text })
}

/// What a token that is not special does to the words before it. Of WordPiece, one that starts
/// with two number signs joins the last word without them, and any other begins a word. Of
/// SentencePiece, one that starts with the mark of a word's start begins a word without it,
/// and any other joins the last. Otherwise every token is a word. Where there is no word yet,
/// a token begins the first.
pub proof fn law_tokens_join_words(tokens: Seq<Seq<char>>, kind: TokenizerKind, n: int)
    requires
        0 <= n < tokens.len(),
        !is_special_token(tokens[n]),
    ensures
        ({
            let before = grouped(tokens, kind, n);
            let after = grouped(tokens, kind, n + 1);
            let t = tokens[n];
            let bare = if kind is WordPiece && is_hashed(t) {
                t.skip(2)
            } else if kind is SentencePiece && is_underscored(t) {
                t.skip(1)
            } else {
                t
            };
            let joins = before.len() > 0 && ((kind is WordPiece && is_hashed(t)) || (
            kind is SentencePiece && !is_underscored(t)));
            &&& joins ==> is_joined(before, after, n, bare)
            &&& !joins ==> is_begun(before, after, n, bare)
        }),
{
    let t = tokens[n];
    reveal_strlit("##");
    reveal_strlit("\u{2581}");
    assert(starts_with(t, "##"@) <==> is_hashed(t)) by {
        if t.len() >= 2 {
            assert(t.subrange(0, 2)[0] == t[0] && t.subrange(0, 2)[1] == t[1]);
            if is_hashed(t) {
                assert(t.subrange(0, 2) =~= "##"@);
            }
        }
    }
    assert(starts_with(t, "\u{2581}"@) <==> is_underscored(t)) by {
        if t.len() >= 1 {
            assert(t.subrange(0, 1)[0] == t[0]);
            if is_underscored(t) {
                assert(t.subrange(0, 1) =~= "\u{2581}"@);
            }
        }
    }
    let before = grouped(tokens, kind, n);
    let after = grouped(tokens, kind, n + 1);
    if before.len() > 0 {
        assert(after.len() == before.len() ==> after.drop_last() =~= before.drop_last());
    }
}

/// A special token is a name in square brackets or in angle brackets, and no word has it.
pub proof fn law_special_tokens_are_bracketed(t: Seq<char>)
    ensures
        is_special_token(t) ==> t.len() >= 3 && ((t[0] == '[' && t.last() == ']') || (t[0] == '<'
            && t.last() == '>')),
        is_special_token("[CLS]"@) && is_special_token("[SEP]"@) && is_special_token("[PAD]"@),
        is_special_token("[UNK]"@) && is_special_token("[MASK]"@) && is_special_token("<s>"@),
        is_special_token("</s>"@) && is_special_token("<pad>"@) && is_special_token("<unk>"@),
        is_special_token("<mask>"@),
{
    reveal_strlit("[CLS]");
    reveal_strlit("[SEP]");
    reveal_strlit("[PAD]");
    reveal_strlit("[UNK]");
    reveal_strlit("[MASK]");
    reveal_strlit("<s>");
    reveal_strlit("</s>");
    reveal_strlit("<pad>");
    reveal_strlit("<unk>");
    reveal_strlit("<mask>");
}

} // verus!
