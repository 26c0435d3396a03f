//! The bodies of notes as a file gives them: a JSON object from numbers to texts.

use std::collections::BTreeMap;
use vstd::prelude::*;
use vstd::std_specs::cmp::OrdSpec;

use crate::llm::json::{json_texts, pairs_view, parse_texts};
use crate::text::{chars_of, parse_unsigned, parsed_unsigned};

verus! {

/// Why a file gives no notes.
#[derive(Debug)]
pub enum NotesError {
    /// The file is no JSON object of strings: why not, in words.
    Json(String),
    /// A key that is not a number from zero to `u32::MAX`.
    Key(String),
}

/// Why a file gives no notes.
pub ghost enum NotesErrorView {
    Json(Seq<char>),
    Key(Seq<char>),
}

impl View for NotesError {
    type V = NotesErrorView;

    open spec fn view(&self) -> NotesErrorView {
        match self {
            NotesError::Json(reason) => NotesErrorView::Json(reason@),
            NotesError::Key(key) => NotesErrorView::Key(key@),
        }
    }
}

/// The number that a key denotes.
pub open spec fn note_number(key: Seq<char>) -> Option<u32> {
    match parsed_unsigned(key, u32::MAX as int) {
        Some(n) => Some(n as u32),
        None => None,
    }
}

/// The first key at or after the `i`-th that denotes no number.
pub open spec fn bad_key(pairs: Seq<(Seq<char>, Seq<char>)>, i: int) -> Option<Seq<char>>
    decreases pairs.len() - i,
{
    if i >= pairs.len() {
        None
    } else if note_number(pairs[i].0) is None {
        Some(pairs[i].0)
    } else {
        bad_key(pairs, i + 1)
    }
}

/// The texts of the first `k` pairs by the numbers that their keys denote; of pairs with the
/// same number the last counts.
pub open spec fn by_number(pairs: Seq<(Seq<char>, Seq<char>)>, k: int) -> Map<u32, Seq<char>>
    decreases k,
{
    if k <= 0 {
        Map::empty()
    } else {
        by_number(pairs, k - 1).insert(note_number(pairs[k - 1].0)->0, pairs[k - 1].1)
    }
}

/// The notes that pairs of keys and texts give, or the first key that denotes no number.
pub open spec fn notes_of(pairs: Seq<(Seq<char>, Seq<char>)>) -> Result<
    Map<u32, Seq<char>>,
    Seq<char>,
> {
    match bad_key(pairs, 0) {
        Some(key) => Err(key),
        None => Ok(by_number(pairs, pairs.len() as int)),
    }
}

/// The texts of a map of strings.
pub open spec fn bodies_view(m: Map<u32, String>) -> Map<u32, Seq<char>> {
    m.map_values(|s: String| s@)
}

/// The notes that pairs of keys and texts give, or the first key that denotes no number.
pub fn numbered_notes(pairs: &Vec<(String, String)>) -> (r: Result<BTreeMap<u32, String>, String>)
    ensures
        match r {
            Ok(m) => notes_of(pairs_view(pairs@)) == Ok::<Map<u32, Seq<char>>, Seq<char>>(
                bodies_view(m@),
            ),
            Err(key) => notes_of(pairs_view(pairs@)) == Err::<Map<u32, Seq<char>>, Seq<char>>(
                key@,
            ),
        },
{
    broadcast use vstd::std_specs::btree::group_btree_axioms;

    let ghost all = pairs_view(pairs@);
    let mut m: BTreeMap<u32, String> = BTreeMap::new();
    let mut i: usize = 0;
    assert(bodies_view(m@) =~= by_number(all, 0));
    while i < pairs.len()
        invariant
            i <= pairs@.len(),
            all == pairs_view(pairs@),
            bad_key(all, 0) == bad_key(all, i as int),
            bodies_view(m@) == by_number(all, i as int),
        decreases pairs@.len() - i,
    {
        assert(all[i as int] == (pairs@[i as int].0@, pairs@[i as int].1@));
        match parse_unsigned(&chars_of(&pairs[i].0), u32::MAX as u64) {
            Some(n) => {
                let ghost before = m@;
                let text = pairs[i].1.as_str().to_owned();
                m.insert(n as u32, text);
                assert(bodies_view(m@) =~= by_number(all, i + 1));
            },
            None => {
                return Err(pairs[i].0.as_str().to_owned());
            },
        }
        i += 1;
    }
    Ok(m)
}

/// The notes that the text of a file gives.
pub open spec fn file_notes(text: Seq<char>) -> Result<Map<u32, Seq<char>>, NotesErrorView> {
    match json_texts(text) {
        Err(reason) => Err(NotesErrorView::Json(reason)),
        Ok(pairs) => match notes_of(pairs) {
            Err(key) => Err(NotesErrorView::Key(key)),
            Ok(notes) => Ok(notes),
        },
    }
}

/// Reads the notes from the text of a file.
pub fn read_notes(text: &str) -> (r: Result<BTreeMap<u32, String>, NotesError>)
    ensures
        match r {
            Ok(m) => file_notes(text@) == Ok::<Map<u32, Seq<char>>, NotesErrorView>(
                bodies_view(m@),
            ),
            Err(e) => file_notes(text@) == Err::<Map<u32, Seq<char>>, NotesErrorView>(e@),
        },
{
    match parse_texts(text) {
        Err(reason) => Err(NotesError::Json(reason)),
        Ok(pairs) => match numbered_notes(&pairs) {
            Err(key) => Err(NotesError::Key(key)),
            Ok(notes) => Ok(notes),
        },
    }
}

proof fn lemma_bad_key(pairs: Seq<(Seq<char>, Seq<char>)>, i: int)
    requires
        0 <= i,
    ensures
        bad_key(pairs, i) matches Some(key) ==> exists|k: int|
            i <= k < pairs.len() && (#[trigger] pairs[k]).0 == key && note_number(key) is None
                && forall|j: int| i <= j < k ==> note_number((#[trigger] pairs[j]).0) is Some,
        bad_key(pairs, i) is None ==> forall|k: int|
            i <= k < pairs.len() ==> note_number((#[trigger] pairs[k]).0) is Some,
    decreases pairs.len() - i,
{
    if i < pairs.len() {
        lemma_bad_key(pairs, i + 1);
        if note_number(pairs[i].0) is None {
            assert(pairs[i].0 == bad_key(pairs, i)->0);
        } else if let Some(key) = bad_key(pairs, i + 1) {
            let k = choose|k: int|
                i + 1 <= k < pairs.len() && (#[trigger] pairs[k]).0 == key && note_number(key)
                    is None && forall|j: int|
                    i + 1 <= j < k ==> note_number((#[trigger] pairs[j]).0) is Some;
            assert(pairs[k].0 == key);
        }
    }
}

proof fn lemma_by_number(pairs: Seq<(Seq<char>, Seq<char>)>, n: int, k: int)
    requires
        0 <= k < n <= pairs.len(),
        forall|j: int|
            k < j < n ==> note_number((#[trigger] pairs[j]).0)->0 != note_number(pairs[k].0)->0,
    ensures
        by_number(pairs, n).contains_key(note_number(pairs[k].0)->0),
        by_number(pairs, n)[note_number(pairs[k].0)->0] == pairs[k].1,
    decreases n,
{
    if k < n - 1 {
        assert(note_number(pairs[n - 1].0)->0 != note_number(pairs[k].0)->0);
        lemma_by_number(pairs, n - 1, k);
    }
}

/// Where every key is a number, each note is found under its number, the last where several
/// keys are the same number; and where some key is none, the first such key is told.
pub proof fn law_notes_are_found_under_their_numbers(pairs: Seq<(Seq<char>, Seq<char>)>, k: int)
    requires
        0 <= k < pairs.len(),
    ensures
        (forall|j: int| 0 <= j < pairs.len() ==> note_number((#[trigger] pairs[j]).0) is Some)
            ==> notes_of(pairs) is Ok,
        (forall|j: int| 0 <= j < pairs.len() ==> note_number((#[trigger] pairs[j]).0) is Some) && (
        forall|j: int|
            k < j < pairs.len() ==> note_number((#[trigger] pairs[j]).0) != note_number(pairs[k].0))
            ==> notes_of(pairs)->Ok_0.contains_key(note_number(pairs[k].0)->0)
            && notes_of(pairs)->Ok_0[note_number(pairs[k].0)->0] == pairs[k].1,
        note_number(pairs[k].0) is None && (forall|j: int|
            0 <= j < k ==> note_number((#[trigger] pairs[j]).0) is Some) ==> notes_of(pairs) == Err::<
            Map<u32, Seq<char>>,
            Seq<char>,
        >(pairs[k].0),
{
    lemma_bad_key(pairs, 0);
    if forall|j: int| 0 <= j < pairs.len() ==> note_number((#[trigger] pairs[j]).0) is Some {
        if let Some(key) = bad_key(pairs, 0) {
            let i = choose|i: int|
                0 <= i < pairs.len() && (#[trigger] pairs[i]).0 == key && note_number(key) is None
                    && forall|j: int| 0 <= j < i ==> note_number((#[trigger] pairs[j]).0) is Some;
            assert(note_number(pairs[i].0) is Some);
        }
        if forall|j: int|
            k < j < pairs.len() ==> note_number((#[trigger] pairs[j]).0) != note_number(
                pairs[k].0,
            ) {
            assert forall|j: int| k < j < pairs.len() implies note_number(
                (#[trigger] pairs[j]).0,
            )->0 != note_number(pairs[k].0)->0 by {
                assert(note_number(pairs[j].0) is Some && note_number(pairs[k].0) is Some);
                assert(note_number(pairs[j].0) != note_number(pairs[k].0));
            }
            lemma_by_number(pairs, pairs.len() as int, k);
        }
    }
    if note_number(pairs[k].0) is None && (forall|j: int|
        0 <= j < k ==> note_number((#[trigger] pairs[j]).0) is Some) {
        if let Some(key) = bad_key(pairs, 0) {
            let i = choose|i: int|
                0 <= i < pairs.len() && (#[trigger] pairs[i]).0 == key && note_number(key) is None
                    && forall|j: int| 0 <= j < i ==> note_number((#[trigger] pairs[j]).0) is Some;
            if i < k {
                assert(note_number(pairs[i].0) is Some);
            }
            if k < i {
                assert(note_number(pairs[k].0) is Some);
            }
        } else {
            assert(note_number(pairs[k].0) is Some);
        }
    }
}

} // verus!
