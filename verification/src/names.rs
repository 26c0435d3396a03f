//! Ordered maps and sets keyed by strings.

use vstd::prelude::*;

use crate::text::{chars_of, str_eq};

verus! {

/// The order of strings: by code point, character by character.
pub open spec fn lex_less(a: Seq<char>, b: Seq<char>) -> bool
    decreases a.len(),
{
    if b.len() == 0 {
        false
    } else if a.len() == 0 {
        true
    } else if a[0] == b[0] {
        lex_less(a.skip(1), b.skip(1))
    } else {
        a[0] < b[0]
    }
}

/// No string is less than itself.
pub proof fn lemma_lex_irreflexive(a: Seq<char>)
    ensures
        !lex_less(a, a),
    decreases a.len(),
{
    if a.len() > 0 {
        lemma_lex_irreflexive(a.skip(1));
    }
}

/// The order of strings is transitive.
pub proof fn lemma_lex_transitive(a: Seq<char>, b: Seq<char>, c: Seq<char>)
    requires
        lex_less(a, b),
        lex_less(b, c),
    ensures
        lex_less(a, c),
    decreases a.len(),
{
    if a.len() > 0 && b.len() > 0 && c.len() > 0 && a[0] == b[0] && b[0] == c[0] {
        lemma_lex_transitive(a.skip(1), b.skip(1), c.skip(1));
    }
}

/// Of two different strings one is the lesser.
pub proof fn lemma_lex_total(a: Seq<char>, b: Seq<char>)
    ensures
        a == b || lex_less(a, b) || lex_less(b, a),
    decreases a.len(),
{
    if a.len() > 0 && b.len() > 0 {
        if a[0] == b[0] {
            lemma_lex_total(a.skip(1), b.skip(1));
            if a.skip(1) == b.skip(1) {
                assert(a =~= seq![a[0]] + a.skip(1));
                assert(b =~= seq![b[0]] + b.skip(1));
            }
        }
    } else if a.len() == 0 && b.len() == 0 {
        assert(a =~= b);
    }
}

/// Whether `a` comes before `b`.
pub fn str_less(a: &str, b: &str) -> (r: bool)
    ensures
        r == lex_less(a@, b@),
{
    let x = chars_of(a);
    let y = chars_of(b);
    let mut i: usize = 0;
    assert(x@.skip(0) =~= a@);
    assert(y@.skip(0) =~= b@);
    while i < x.len() && i < y.len()
        invariant
            i <= x@.len(),
            i <= y@.len(),
            x@ == a@,
            y@ == b@,
            lex_less(a@, b@) == lex_less(x@.skip(i as int), y@.skip(i as int)),
        decreases x@.len() - i,
    {
        if x[i] != y[i] {
            return x[i] < y[i];
        }
        assert(x@.skip(i as int).skip(1) =~= x@.skip(i + 1));
        assert(y@.skip(i as int).skip(1) =~= y@.skip(i + 1));
        i += 1;
    }
    i < y.len()
}

/// The entries of a map in key order.
pub type Pairs<V> = Seq<(Seq<char>, V)>;

/// The keys are strictly ascending.
pub open spec fn sorted<V>(m: Pairs<V>) -> bool {
    forall|i: int, j: int| 0 <= i < j < m.len() ==> lex_less(#[trigger] m[i].0, #[trigger] m[j].0)
}

/// The position of a key, looked for from `from` on.
pub open spec fn key_index<V>(m: Pairs<V>, key: Seq<char>, from: int) -> Option<int>
    decreases m.len() - from,
{
    if from >= m.len() {
        None
    } else if m[from].0 == key {
        Some(from)
    } else {
        key_index(m, key, from + 1)
    }
}

/// What a map holds for a key.
pub open spec fn lookup<V>(m: Pairs<V>, key: Seq<char>) -> Option<V> {
    match key_index(m, key, 0) {
        Some(i) => Some(m[i].1),
        None => None,
    }
}

/// The first position at or after `from` whose key is not less than `key`.
pub open spec fn insertion_point<V>(m: Pairs<V>, key: Seq<char>, from: int) -> int
    decreases m.len() - from,
{
    if from >= m.len() || !lex_less(m[from].0, key) {
        from
    } else {
        insertion_point(m, key, from + 1)
    }
}

/// A map with `key` bound to `value`.
pub open spec fn inserted<V>(m: Pairs<V>, key: Seq<char>, value: V) -> Pairs<V> {
    let i = insertion_point(m, key, 0);
    if i < m.len() && m[i].0 == key {
        m.update(i, (key, value))
    } else {
        m.insert(i, (key, value))
    }
}

/// `key_index` is the least position with that key.
pub proof fn lemma_key_index<V>(m: Pairs<V>, key: Seq<char>, from: int)
    requires
        0 <= from,
    ensures
        match key_index(m, key, from) {
            Some(i) => from <= i < m.len() && m[i].0 == key && forall|j: int|
                from <= j < i ==> m[j].0 != key,
            None => forall|j: int| from <= j < m.len() ==> m[j].0 != key,
        },
    decreases m.len() - from,
{
    if from < m.len() && m[from].0 != key {
        lemma_key_index(m, key, from + 1);
    }
}

proof fn lemma_insertion_point<V>(m: Pairs<V>, key: Seq<char>, from: int)
    requires
        0 <= from <= m.len(),
    ensures
        from <= insertion_point(m, key, from) <= m.len(),
        forall|j: int|
            from <= j < insertion_point(m, key, from) ==> lex_less(#[trigger] m[j].0, key),
        insertion_point(m, key, from) < m.len() ==> !lex_less(
            m[insertion_point(m, key, from)].0,
            key,
        ),
    decreases m.len() - from,
{
    if from < m.len() && lex_less(m[from].0, key) {
        lemma_insertion_point(m, key, from + 1);
    }
}

/// An insertion keeps the keys ascending, binds the key to its value and leaves every
/// other key bound as it was.
pub proof fn lemma_inserted<V>(m: Pairs<V>, key: Seq<char>, value: V)
    requires
        sorted(m),
    ensures
        sorted(inserted(m, key, value)),
        lookup(inserted(m, key, value), key) == Some(value),
        forall|other: Seq<char>|
            other != key ==> #[trigger] lookup(inserted(m, key, value), other) == lookup(m, other),
{
    let after = inserted(m, key, value);
    let p = insertion_point(m, key, 0);
    lemma_insertion_point(m, key, 0);
    let replaces = p < m.len() && m[p].0 == key;
    if !replaces {
        assert forall|j: int| p <= j < m.len() implies lex_less(key, #[trigger] m[j].0) by {
            lemma_lex_total(key, m[p].0);
            assert(lex_less(key, m[p].0));
            if j > p {
                assert(lex_less(m[p].0, m[j].0));
                lemma_lex_transitive(key, m[p].0, m[j].0);
            }
        }
        assert forall|i: int, j: int| 0 <= i < j < after.len() implies lex_less(
            #[trigger] after[i].0,
            #[trigger] after[j].0,
        ) by {
            let a = if i < p { i } else { i - 1 };
            let b = if j < p { j } else { j - 1 };
            if i != p {
                assert(after[i] == m[a]);
            }
            if j != p {
                assert(after[j] == m[b]);
            }
        }
    } else {
        assert forall|i: int, j: int| 0 <= i < j < after.len() implies lex_less(
            #[trigger] after[i].0,
            #[trigger] after[j].0,
        ) by {
            assert(after[i].0 == m[i].0);
            assert(after[j].0 == m[j].0);
        }
    }
    assert(after[p] == (key, value));
    lemma_key_index(after, key, 0);
    assert forall|j: int| 0 <= j < p implies #[trigger] after[j].0 != key by {
        lemma_lex_irreflexive(key);
        assert(after[j] == m[j]);
    }
    assert forall|other: Seq<char>| other != key implies #[trigger] lookup(after, other) == lookup(
        m,
        other,
    ) by {
        lemma_key_index(m, other, 0);
        lemma_key_index(after, other, 0);
        match key_index(m, other, 0) {
            Some(i) => {
                let k = if replaces || i < p { i } else { i + 1 };
                assert(after[k] == m[i]);
                lemma_unique(after, other, k);
            },
            None => {
                if key_index(after, other, 0) is Some {
                    let k = key_index(after, other, 0)->0;
                    let i = if replaces || k < p { k } else { k - 1 };
                    assert(k != p);
                    assert(after[k] == m[i]);
                }
            },
        }
    }
}

/// A key of an ascending map stands at one position only.
pub proof fn lemma_unique<V>(m: Pairs<V>, key: Seq<char>, k: int)
    requires
        sorted(m),
        0 <= k < m.len(),
        m[k].0 == key,
    ensures
        key_index(m, key, 0) == Some(k),
{
    lemma_key_index(m, key, 0);
    let i = key_index(m, key, 0)->0;
    if i != k {
        lemma_lex_irreflexive(key);
    }
}

/// A map from strings, ordered by key.
#[derive(Debug)]
pub struct NameMap<V: View> {
    entries: Vec<(String, V)>,
}

impl<V: View> View for NameMap<V> {
    type V = Pairs<V::V>;

    closed spec fn view(&self) -> Pairs<V::V> {
        self.entries@.map_values(|e: (String, V)| (e.0@, e.1@))
    }
}

impl<V: View> NameMap<V> {
    /// The keys are in ascending order. Every map made with `new` and `insert` is so.
    pub open spec fn wf(&self) -> bool {
        sorted(self@)
    }

    /// An empty map.
    pub fn new() -> (r: Self)
        ensures
            r@ == Pairs::<V::V>::empty(),
            r.wf(),
    {
        let entries: Vec<(String, V)> = Vec::new();
        assert(entries@.map_values(|e: (String, V)| (e.0@, e.1@)) =~= Pairs::<V::V>::empty());
        NameMap { entries }
    }

    /// How many keys the map has.
    pub fn len(&self) -> (n: usize)
        ensures
            n == self@.len(),
    {
        self.entries.len()
    }

    /// The `i`-th key in order.
    pub fn key_at(&self, i: usize) -> (r: &str)
        requires
            i < self@.len(),
        ensures
            r@ == self@[i as int].0,
    {
        self.entries[i].0.as_str()
    }

    /// The value of the `i`-th key in order.
    pub fn value_at(&self, i: usize) -> (r: &V)
        requires
            i < self@.len(),
        ensures
            r@ == self@[i as int].1,
    {
        &self.entries[i].1
    }

    /// What the map holds for a key.
    pub fn get(&self, key: &str) -> (r: Option<&V>)
        ensures
            match r {
                Some(v) => lookup(self@, key@) == Some(v@),
                None => lookup(self@, key@) is None,
            },
    {
        let mut i: usize = 0;
        while i < self.entries.len()
            invariant
                i <= self.entries@.len(),
                key_index(self@, key@, 0) == key_index(self@, key@, i as int),
            decreases self.entries@.len() - i,
        {
            assert(self@[i as int] == (self.entries@[i as int].0@, self.entries@[i as int].1@));
            if str_eq(&self.entries[i].0, key) {
                return Some(&self.entries[i].1);
            }
            i += 1;
        }
        None
    }

    /// Whether the map holds anything for a key.
    pub fn contains_key(&self, key: &str) -> (r: bool)
        ensures
            r == (lookup(self@, key@) is Some),
    {
        self.get(key).is_some()
    }

    /// Binds a key to a value.
    pub fn insert(&mut self, key: String, value: V)
        ensures
            final(self)@ == inserted(old(self)@, key@, value@),
            old(self).wf() ==> final(self).wf(),
    {
        let ghost m = self@;
        let ghost entries = self.entries@;
        proof {
            if sorted(m) {
                lemma_inserted(m, key@, value@);
            }
            lemma_insertion_point(m, key@, 0);
        }
        let mut i: usize = 0;
        while i < self.entries.len() && str_less(&self.entries[i].0, &key)
            invariant
                i <= self.entries@.len(),
                m == self@,
                insertion_point(m, key@, 0) == insertion_point(m, key@, i as int),
            decreases self.entries@.len() - i,
        {
            assert(m[i as int] == (self.entries@[i as int].0@, self.entries@[i as int].1@));
            i += 1;
        }
        assert(i < m.len() ==> m[i as int] == (
            self.entries@[i as int].0@,
            self.entries@[i as int].1@,
        ));
        if i < self.entries.len() && str_eq(&self.entries[i].0, &key) {
            proof {
                assert(entries.update(i as int, (key, value)).map_values(
                    |e: (String, V)| (e.0@, e.1@),
                ) =~= m.update(i as int, (key@, value@)));
            }
            self.entries.set(i, (key, value));
        } else {
            proof {
                assert(entries.insert(i as int, (key, value)).map_values(
                    |e: (String, V)| (e.0@, e.1@),
                ) =~= m.insert(i as int, (key@, value@)));
            }
            self.entries.insert(i, (key, value));
        }
    }
}

/// A set of strings, ordered.
#[derive(Debug)]
pub struct NameSet {
    names: NameMap<()>,
}

/// A set of strings holds a name.
pub open spec fn has_name(s: Pairs<()>, name: Seq<char>) -> bool {
    lookup(s, name) is Some
}

impl View for NameSet {
    type V = Pairs<()>;

    closed spec fn view(&self) -> Pairs<()> {
        self.names@
    }
}

impl NameSet {
    /// The names are in ascending order.
    pub open spec fn wf(&self) -> bool {
        sorted(self@)
    }

    /// An empty set.
    pub fn new() -> (r: Self)
        ensures
            r@ == Pairs::<()>::empty(),
            r.wf(),
    {
        NameSet { names: NameMap::new() }
    }

    /// How many names the set holds.
    pub fn len(&self) -> (n: usize)
        ensures
            n == self@.len(),
    {
        self.names.len()
    }

    /// The `i`-th name in order.
    pub fn name_at(&self, i: usize) -> (r: &str)
        requires
            i < self@.len(),
        ensures
            r@ == self@[i as int].0,
    {
        self.names.key_at(i)
    }

    /// Whether the set holds a name.
    pub fn contains(&self, name: &str) -> (r: bool)
        ensures
            r == has_name(self@, name@),
    {
        self.names.contains_key(name)
    }

    /// Adds a name.
    pub fn insert(&mut self, name: String)
        ensures
            final(self)@ == inserted(old(self)@, name@, ()),
            old(self).wf() ==> final(self).wf(),
    {
        self.names.insert(name, ());
    }
}

} // verus!
