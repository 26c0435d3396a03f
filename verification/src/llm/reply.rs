//! The replies of providers.

use vstd::prelude::*;

use crate::llm::error::{Error, ErrorView};

use crate::style_mapper::opt_text;
use crate::text::{chars_of, str_eq, string_of, trim, trimmed};

verus! {

/// How many bytes of an error reply are kept.
pub const BODY_LIMIT: usize = 400;

/// How many bytes a character takes in UTF-8.
pub open spec fn byte_len(c: char) -> nat {
    let u = c as u32;
    if u < 0x80 {
        1
    } else if u < 0x800 {
        2
    } else if u < 0x10000 {
        3
    } else {
        4
    }
}

/// How many bytes the first `k` characters take in UTF-8.
pub open spec fn byte_count(s: Seq<char>, k: int) -> nat
    decreases k,
{
    if k <= 0 {
        0
    } else {
        byte_count(s, k - 1) + byte_len(s[k - 1])
    }
}

/// How many of the first `k` characters fit into `n` bytes.
pub open spec fn fitting(s: Seq<char>, n: int, k: int) -> int
    decreases k,
{
    if k <= 0 || byte_count(s, k) <= n {
        k
    } else {
        fitting(s, n, k - 1)
    }
}

/// A text of at most `n` bytes as it is; of a longer one the characters that fit into `n`
/// bytes, and an ellipsis.
pub open spec fn truncated(s: Seq<char>, n: int) -> Seq<char> {
    if byte_count(s, s.len() as int) <= n {
        s
    } else {
        s.take(fitting(s, n, s.len() as int)).push('…')
    }
}

fn char_bytes(c: char) -> (n: u64)
    ensures
        n == byte_len(c),
{
    let u: u32 = c as u32;
    if u < 0x80 {
        1
    } else if u < 0x800 {
        2
    } else if u < 0x10000 {
        3
    } else {
        4
    }
}

proof fn lemma_fitting(s: Seq<char>, n: int, k: int, m: int)
    requires
        0 <= m <= k <= s.len(),
        byte_count(s, m) <= n,
        m < k ==> byte_count(s, m + 1) > n,
        0 <= n,
    ensures
        fitting(s, n, k) == m,
    decreases k,
{
    if m < k {
        lemma_byte_count(s, m + 1, k);
        lemma_fitting(s, n, k - 1, m);
    }
}

proof fn lemma_byte_count(s: Seq<char>, a: int, b: int)
    requires
        0 <= a <= b <= s.len(),
    ensures
        byte_count(s, a) <= byte_count(s, b),
    decreases b,
{
    if a < b {
        lemma_byte_count(s, a, b - 1);
    }
}

/// A text of at most `n` bytes as it is; of a longer one the characters that fit into `n`
/// bytes, and an ellipsis.
pub fn truncate(s: String, n: usize) -> (r: String)
    ensures
        r@ == truncated(s@, n as int),
{
    let chars = chars_of(&s);
    let limit: u128 = n as u128;
    let mut bytes: u128 = 0;
    let mut k: usize = 0;
    while k < chars.len()
        invariant
            k <= chars@.len(),
            chars@ == s@,
            limit == n,
            bytes == byte_count(s@, k as int),
            bytes <= limit,
        decreases chars@.len() - k,
    {
        let more: u128 = char_bytes(chars[k]) as u128;
        if bytes + more > limit {
            proof {
                lemma_byte_count(s@, k + 1, s@.len() as int);
                lemma_fitting(s@, n as int, s@.len() as int, k as int);
            }
            let mut r = string_of(vstd::slice::slice_subrange(chars.as_slice(), 0, k));
            assert(r@ =~= s@.take(k as int));
            r.push('…');
            return r;
        }
        bytes = bytes + more;
        k += 1;
    }
    s
}

/// A status of success.
pub open spec fn is_success(status: u16) -> bool {
    200 <= status && status < 300
}

/// Passes the body of a successful reply on. Any other status is an error.
pub fn check_status(provider: &'static str, status: u16, body: String) -> (r: Result<String, Error>)
    ensures
        match r {
            Ok(b) => is_success(status) && b == body,
            Err(e) => !is_success(status) && e@ == (ErrorView::Api {
                provider: provider@,
                status,
                body: truncated(body@, BODY_LIMIT as int),
            }),
        },
{
    if 200 <= status && status < 300 {
        return Ok(body);
    }
    Err(Error::Api { provider, status, body: truncate(body, BODY_LIMIT) })
}

fn trimmed_string(s: &str) -> (r: String)
    ensures
        r@ == trimmed(s@),
{
    string_of(trim(&chars_of(s)))
}

/// The contents of a vector of optional strings.
pub open spec fn contents_view(v: Seq<Option<String>>) -> Seq<Option<Seq<char>>> {
    v.map_values(|c: Option<String>| opt_text(c))
}

/// The translation in a chat completion: the content of the first choice, without white
/// space around it.
pub fn chat_content(provider: &'static str, contents: &Vec<Option<String>>) -> (r: Result<
    String,
    Error,
>)
    ensures
        ({
            let all = contents_view(contents@);
            match r {
                Ok(t) => all.len() > 0 && all[0] is Some && t@ == trimmed(all[0]->0),
                Err(e) => (all.len() == 0 || all[0] is None) && e@ == (ErrorView::BadResponse {
                    provider: provider@,
                    reason: "missing choices[0].message.content"@,
                }),
            }
        }),
{
    if contents.len() > 0 {
        assert(contents_view(contents@)[0] == opt_text(contents@[0]));
        if let Some(text) = &contents[0] {
            return Ok(trimmed_string(text));
        }
    }
    Err(Error::BadResponse { provider, reason: "missing choices[0].message.content".to_owned() })
}

/// A block of a message: its type, and its text where it has one.
#[derive(Debug)]
pub struct ContentBlock {
    /// The type.
    pub block_type: String,
    /// The text.
    pub text: Option<String>,
}

/// The first block of text among `blocks`, looked for from `from` on.
pub open spec fn text_block(blocks: Seq<ContentBlock>, from: int) -> Option<int>
    decreases blocks.len() - from,
{
    if from >= blocks.len() {
        None
    } else if blocks[from].block_type@ == "text"@ {
        Some(from)
    } else {
        text_block(blocks, from + 1)
    }
}

/// The text of the first block of text.
pub open spec fn block_text(blocks: Seq<ContentBlock>) -> Option<Seq<char>> {
    match text_block(blocks, 0) {
        Some(i) => opt_text(blocks[i].text),
        None => None,
    }
}

/// The translation in a message: the text of its first block of text, without white space
/// around it.
pub fn message_text(provider: &'static str, blocks: &Vec<ContentBlock>) -> (r: Result<
    String,
    Error,
>)
    ensures
        match r {
            Ok(t) => block_text(blocks@) is Some && t@ == trimmed(block_text(blocks@)->0),
            Err(e) => block_text(blocks@) is None && e@ == (ErrorView::BadResponse {
                provider: provider@,
                reason: "no text block in response.content"@,
            }),
        },
{
    let mut i: usize = 0;
    while i < blocks.len() && !str_eq(&blocks[i].block_type, "text")
        invariant
            i <= blocks@.len(),
            text_block(blocks@, 0) == text_block(blocks@, i as int),
        decreases blocks@.len() - i,
    {
        i += 1;
    }
    if i < blocks.len() {
        if let Some(text) = &blocks[i].text {
            return Ok(trimmed_string(text));
        }
    }
    Err(Error::BadResponse { provider, reason: "no text block in response.content".to_owned() })
}

/// The translation in a generated response, without white space around it.
pub fn generated_text(response: &str) -> (r: String)
    ensures
        r@ == trimmed(response@),
{
    trimmed_string(response)
}

} // verus!
