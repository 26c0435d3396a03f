//! Validity checks of a package.
//!
//! Seven checks, each of which gives a line for a pass or lines for issues: XML parts
//! parse; rsid values of paragraphs are declared in the settings; paragraph ids are
//! unique; relationship targets exist; the body has only the children it may have, with
//! the section properties last; bookmark ids are unique; relationship ids used in the
//! body exist.

use vstd::prelude::*;

use crate::bytes::{bytes_eq, is_str, lit};
use crate::error::Error;
use crate::names::{
    has_name, inserted, key_index, lemma_inserted, lemma_key_index, lookup, sorted, NameSet, Pairs,
};
use crate::ns::{PART_DOCUMENT, PART_DOCUMENT_RELS, PART_SETTINGS};
use crate::package::{part, parts_view, Package, Parts};
use crate::paragraph_text::texts_view;
use crate::style_mapper::is_open_tag;
use crate::text::{
    chars_at, chars_of, contains_chars, decimal, ends_with, find_chars, find_str, from_lossy,
    is_digit, match_str, starts_with, str_eq, string_of, to_decimal, utf8_lossy,
};
use crate::xml::{
    attributes, attrs_view, events_view, read_events, tag_attrs, tag_name, xml_events,
    xml_failure, xml_readable, At, Ev, EventKind, XmlAttr, XmlEvent,
};

verus! {

/// Outcome of the checks: lines in words.
#[derive(Debug)]
pub struct CheckReport {
    /// One line per passed check.
    pub ok: Vec<String>,
    /// One line per issue. None where the package is valid.
    pub issues: Vec<String>,
}

/// Lines of a report.
#[verifier::ext_equal]
pub struct Lines {
    pub ok: Seq<Seq<char>>,
    pub issues: Seq<Seq<char>>,
}

impl View for CheckReport {
    type V = Lines;

    open spec fn view(&self) -> Lines {
        Lines { ok: texts_view(self.ok@), issues: texts_view(self.issues@) }
    }
}

impl CheckReport {
    /// Whether there are no issues.
    pub fn is_clean(&self) -> (r: bool)
        ensures
            r == (self@.issues.len() == 0),
    {
        self.issues.len() == 0
    }
}

/// No lines.
pub open spec fn no_lines() -> Lines {
    Lines { ok: Seq::empty(), issues: Seq::empty() }
}

/// One line for a pass.
pub open spec fn passed(line: Seq<char>) -> Lines {
    Lines { ok: seq![line], issues: Seq::empty() }
}

/// Lines for issues.
pub open spec fn failed(lines: Seq<Seq<char>>) -> Lines {
    Lines { ok: Seq::empty(), issues: lines }
}

/// The lines of two checks.
pub open spec fn both(a: Lines, b: Lines) -> Lines {
    Lines { ok: a.ok + b.ok, issues: a.issues + b.issues }
}

// ---------------------------------------------------------------------------
// Words
// ---------------------------------------------------------------------------

/// A string as std's `Debug` writes it, in quotes and with escapes.
pub uninterp spec fn quoted(s: Seq<char>) -> Seq<char>;

/// `format!` of a string with `{:?}`.
#[verifier::external_body]
fn quote(s: &str) -> (r: String)
    ensures
        r@ == quoted(s@),
{
    format!("{:?}", s)
}

/// Quoted strings, separated by commas.
pub open spec fn quoted_items(v: Seq<Seq<char>>) -> Seq<char>
    decreases v.len(),
{
    if v.len() == 0 {
        Seq::empty()
    } else if v.len() == 1 {
        quoted(v[0])
    } else {
        quoted_items(v.drop_last()) + ", "@ + quoted(v.last())
    }
}

/// A list of quoted strings in brackets.
pub open spec fn quoted_list(v: Seq<Seq<char>>) -> Seq<char> {
    "["@ + quoted_items(v) + "]"@
}

fn quote_list(v: &Vec<String>) -> (r: String)
    ensures
        r@ == quoted_list(texts_view(v@)),
{
    let ghost all = texts_view(v@);
    let mut r = "[".to_owned();
    let mut i: usize = 0;
    assert(all.take(0) =~= Seq::empty());
    assert(r@ =~= "["@ + quoted_items(all.take(0)));
    while i < v.len()
        invariant
            i <= v@.len(),
            all == texts_view(v@),
            r@ == "["@ + quoted_items(all.take(i as int)),
        decreases v@.len() - i,
    {
        if i > 0 {
            r.append(", ");
        }
        r.append(&quote(&v[i]));
        proof {
            let upto = all.take(i + 1);
            assert(upto.drop_last() =~= all.take(i as int));
            assert(upto.last() == v@[i as int]@);
            assert(r@ =~= "["@ + quoted_items(upto));
        }
        i += 1;
    }
    assert(all.take(i as int) =~= all);
    r.append("]");
    r
}

fn line2(a: &str, b: &str) -> (r: String)
    ensures
        r@ == a@ + b@,
{
    let mut r = a.to_owned();
    r.append(b);
    r
}

fn line3(a: &str, b: &str, c: &str) -> (r: String)
    ensures
        r@ == a@ + b@ + c@,
{
    let mut r = line2(a, b);
    r.append(c);
    r
}

/// The first strings of a sequence.
pub open spec fn first_of(v: Seq<Seq<char>>, n: int) -> Seq<Seq<char>> {
    if v.len() > n {
        v.take(n)
    } else {
        v
    }
}

// ---------------------------------------------------------------------------
// Names of elements and attributes
// ---------------------------------------------------------------------------

/// Whether an attribute is `w:` and a local name.
pub fn attr_is_w(qname: &[u8], local: &str) -> (r: bool)
    ensures
        r == (qname@ == lit("w:") + lit(local)),
{
    let mut full: Vec<u8> = Vec::new();
    crate::bytes::push_str(&mut full, "w:");
    crate::bytes::push_str(&mut full, local);
    assert(full@ =~= lit("w:") + lit(local));
    bytes_eq(qname, &full)
}

/// Whether an element is `w:` and a local name.
pub fn tag_is_w(qname: &[u8], local: &str) -> (r: bool)
    ensures
        r == (qname@ == lit("w:") + lit(local)),
{
    attr_is_w(qname, local)
}

/// The name `w:` and a local name.
pub open spec fn w(local: &str) -> Seq<u8> {
    lit("w:") + lit(local)
}

/// A start or empty tag of the name `w:` and a local name.
pub open spec fn is_w_tag(e: Ev, local: &str) -> bool {
    (e.kind == EventKind::Start || e.kind == EventKind::Empty) && tag_name(e) == w(local)
}

fn w_tag(ev: &XmlEvent, local: &str) -> (r: bool)
    ensures
        r == is_w_tag(ev@, local),
{
    (ev.kind == EventKind::Start || ev.kind == EventKind::Empty) && tag_is_w(ev.name(), local)
}

// ---------------------------------------------------------------------------
// Check 1: XML parses
// ---------------------------------------------------------------------------

/// A part that holds XML.
pub open spec fn holds_xml(name: Seq<char>) -> bool {
    ends_with(name, ".xml"@) || ends_with(name, ".rels"@)
}

/// How many of the parts hold XML.
pub open spec fn xml_parts(parts: Parts) -> nat
    decreases parts.len(),
{
    if parts.len() == 0 {
        0
    } else if holds_xml(parts.last().0) {
        xml_parts(parts.drop_last()) + 1
    } else {
        xml_parts(parts.drop_last())
    }
}

/// The lines for the parts that hold XML and cannot be read.
pub open spec fn parse_errors(parts: Parts) -> Seq<Seq<char>>
    decreases parts.len(),
{
    if parts.len() == 0 {
        Seq::empty()
    } else {
        let before = parse_errors(parts.drop_last());
        let p = parts.last();
        if holds_xml(p.0) && !xml_readable(p.1) {
            before.push("XML parse error: "@ + p.0 + ": "@ + xml_failure(p.1))
        } else {
            before
        }
    }
}

/// The lines of the check that XML parses.
pub open spec fn parse_lines(parts: Parts) -> Lines {
    if parse_errors(parts).len() == 0 {
        passed("All "@ + decimal(xml_parts(parts)) + " XML/rels parts parse cleanly"@)
    } else {
        failed(parse_errors(parts))
    }
}

fn has_suffix(name: &str, suffix: &str) -> (r: bool)
    ensures
        r == ends_with(name@, suffix@),
{
    let s = chars_of(name);
    let t = chars_of(suffix);
    if t.len() > s.len() {
        return false;
    }
    match_str(&s, s.len() - t.len(), suffix)
}

/// Whether a part holds XML.
pub fn is_xml_or_rels(name: &str) -> (r: bool)
    ensures
        r == holds_xml(name@),
{
    has_suffix(name, ".xml") || has_suffix(name, ".rels")
}

fn push_line(v: &mut Vec<String>, line: String)
    ensures
        texts_view(final(v)@) == texts_view(old(v)@).push(line@),
{
    v.push(line);
    assert(texts_view(v@) =~= texts_view(old(v)@).push(line@));
}

/// Adds the line for a pass.
fn pass(r: &mut CheckReport, line: String)
    ensures
        final(r)@ == both(old(r)@, passed(line@)),
{
    push_line(&mut r.ok, line);
    assert(r@ =~= both(old(r)@, passed(line@)));
}

/// Adds the line for an issue.
fn fail(r: &mut CheckReport, line: String)
    ensures
        final(r)@ == both(old(r)@, failed(seq![line@])),
{
    push_line(&mut r.issues, line);
    assert(r@ =~= both(old(r)@, failed(seq![line@])));
}

/// Adds lines for issues.
fn fail_all(r: &mut CheckReport, lines: Vec<String>)
    ensures
        final(r)@ == both(old(r)@, failed(texts_view(lines@))),
{
    let mut lines = lines;
    let ghost all = texts_view(lines@);
    let ghost before = texts_view(r.issues@);
    let ghost v = lines@;
    let ghost w = r.issues@;
    r.issues.append(&mut lines);
    assert(texts_view(r.issues@) =~= before + all);
    assert(r@ =~= both(old(r)@, failed(all)));
}

fn check_xml_parses(pkg: &Package, r: &mut CheckReport)
    ensures
        final(r)@ == both(old(r)@, parse_lines(pkg@)),
{
    let parts = pkg.parts();
    let ghost all = pkg@;
    let mut errors: Vec<String> = Vec::new();
    let mut count: usize = 0;
    let mut i: usize = 0;
    assert(all.take(0) =~= Seq::empty());
    assert(texts_view(errors@) =~= Seq::empty());
    while i < parts.len()
        invariant
            i <= parts@.len(),
            count <= i,
            all == parts_view(parts@),
            count == xml_parts(all.take(i as int)),
            texts_view(errors@) == parse_errors(all.take(i as int)),
        decreases parts@.len() - i,
    {
        let name: &str = parts[i].0;
        let data: &[u8] = parts[i].1;
        proof {
            assert(all.take(i + 1).drop_last() =~= all.take(i as int));
            assert(all.take(i + 1).last() == (name@, data@));
        }
        if is_xml_or_rels(name) {
            count += 1;
            let (_, failure) = read_events(data);
            if let Some(f) = failure {
                let mut line = line3("XML parse error: ", name, ": ");
                line.append(&f.text);
                push_line(&mut errors, line);
            }
        }
        i += 1;
    }
    assert(all.take(i as int) =~= all);
    if errors.len() == 0 {
        let n = to_decimal(count as u64);
        pass(r, line3("All ", &n, " XML/rels parts parse cleanly"));
    } else {
        fail_all(r, errors);
    }
}

// ---------------------------------------------------------------------------
// Values of attributes
// ---------------------------------------------------------------------------

/// The values, not empty, of the attributes with one of the given keys.
pub open spec fn key_values(attrs: Seq<At>, keys: Seq<Seq<u8>>) -> Seq<Seq<char>>
    decreases attrs.len(),
{
    if attrs.len() == 0 {
        Seq::empty()
    } else {
        let before = key_values(attrs.drop_last(), keys);
        let value = utf8_lossy(attrs.last().value);
        if keys.contains(attrs.last().key) && value.len() > 0 {
            before.push(value)
        } else {
            before
        }
    }
}

/// The values, not empty, that the tags of a local name have for one of the given keys.
pub open spec fn tag_values(events: Seq<Ev>, local: &str, keys: Seq<Seq<u8>>) -> Seq<Seq<char>>
    decreases events.len(),
{
    if events.len() == 0 {
        Seq::empty()
    } else {
        let before = tag_values(events.drop_last(), local, keys);
        if is_w_tag(events.last(), local) {
            before + key_values(tag_attrs(events.last(), false), keys)
        } else {
            before
        }
    }
}

/// The strings of a sequence as a set.
pub open spec fn name_set(v: Seq<Seq<char>>) -> Pairs<()>
    decreases v.len(),
{
    if v.len() == 0 {
        Seq::empty()
    } else {
        inserted(name_set(v.drop_last()), v.last(), ())
    }
}

/// The bytes of string literals.
pub open spec fn lits(keys: Seq<&str>) -> Seq<Seq<u8>> {
    keys.map_values(|k: &str| lit(k))
}

fn is_one_of(key: &[u8], keys: &Vec<&str>) -> (r: bool)
    ensures
        r == lits(keys@).contains(key@),
{
    let mut i: usize = 0;
    while i < keys.len()
        invariant
            i <= keys@.len(),
            forall|j: int| 0 <= j < i ==> #[trigger] lits(keys@)[j] != key@,
        decreases keys@.len() - i,
    {
        assert(lits(keys@)[i as int] == lit(keys@[i as int]));
        if is_str(key, keys[i]) {
            return true;
        }
        i += 1;
    }
    false
}

/// Adds the values, not empty, of a tag's attributes with one of the given keys.
fn push_values(values: &mut Vec<String>, ev: &XmlEvent, keys: &Vec<&str>)
    ensures
        texts_view(final(values)@) == texts_view(old(values)@) + key_values(
            tag_attrs(ev@, false),
            lits(keys@),
        ),
{
    let attrs = attributes(ev, false);
    let ghost all = attrs_view(attrs@);
    let ghost before = texts_view(values@);
    let mut i: usize = 0;
    assert(all.take(0) =~= Seq::empty());
    assert(before + key_values(all.take(0), lits(keys@)) =~= before);
    while i < attrs.len()
        invariant
            i <= attrs@.len(),
            all == attrs_view(attrs@),
            texts_view(values@) == before + key_values(all.take(i as int), lits(keys@)),
        decreases attrs@.len() - i,
    {
        proof {
            assert(all.take(i + 1).drop_last() =~= all.take(i as int));
            assert(all.take(i + 1).last() == attrs@[i as int]@);
        }
        let a: &XmlAttr = &attrs[i];
        let value = from_lossy(&a.value);
        if is_one_of(&a.key, keys) && !value.as_str().is_empty() {
            push_line(values, value);
            assert(texts_view(values@) =~= before + key_values(all.take(i + 1), lits(keys@)));
        }
        i += 1;
    }
    assert(all.take(i as int) =~= all);
}

/// The values, not empty, that the tags of a local name have for one of the given keys.
fn values_in(events: &Vec<XmlEvent>, local: &str, keys: &Vec<&str>) -> (r: Vec<String>)
    ensures
        texts_view(r@) == tag_values(events_view(events@), local, lits(keys@)),
{
    let ghost evs = events_view(events@);
    let mut r: Vec<String> = Vec::new();
    let mut i: usize = 0;
    assert(evs.take(0) =~= Seq::empty());
    assert(texts_view(r@) =~= Seq::empty());
    while i < events.len()
        invariant
            i <= events@.len(),
            evs == events_view(events@),
            texts_view(r@) == tag_values(evs.take(i as int), local, lits(keys@)),
        decreases events@.len() - i,
    {
        proof {
            assert(evs.take(i + 1).drop_last() =~= evs.take(i as int));
            assert(evs.take(i + 1).last() == events@[i as int]@);
        }
        if w_tag(&events[i], local) {
            push_values(&mut r, &events[i], keys);
        }
        i += 1;
    }
    assert(evs.take(i as int) =~= evs);
    r
}

fn set_of(v: &Vec<String>) -> (r: NameSet)
    ensures
        r@ == name_set(texts_view(v@)),
        r.wf(),
{
    let ghost all = texts_view(v@);
    let mut r = NameSet::new();
    let mut i: usize = 0;
    assert(all.take(0) =~= Seq::empty());
    while i < v.len()
        invariant
            i <= v@.len(),
            all == texts_view(v@),
            r@ == name_set(all.take(i as int)),
            r.wf(),
        decreases v@.len() - i,
    {
        proof {
            assert(all.take(i + 1).drop_last() =~= all.take(i as int));
            assert(all.take(i + 1).last() == v@[i as int]@);
        }
        r.insert(v[i].as_str().to_owned());
        i += 1;
    }
    assert(all.take(i as int) =~= all);
    r
}

// ---------------------------------------------------------------------------
// Check 2: rsid values are declared
// ---------------------------------------------------------------------------

/// The attributes of a paragraph that hold rsid values.
pub open spec fn rsid_keys() -> Seq<Seq<u8>> {
    lits(seq!["w:rsidR", "w:rsidRPr", "w:rsidDel", "w:rsidRDefault", "w:rsidRPrChange"])
}

/// Reading of the declared rsid values: whether inside the list, at which depth it
/// began, the depth, and the values so far.
#[verifier::ext_equal]
pub struct DeclaredView {
    pub inside: bool,
    pub list_depth: int,
    pub depth: int,
    pub values: Seq<Seq<char>>,
}

/// What an event does to the reading of the declared rsid values.
pub open spec fn declared_step(s: DeclaredView, e: Ev) -> DeclaredView {
    let vals = key_values(tag_attrs(e, false), seq![lit("w:val")]);
    if e.kind == EventKind::Start {
        let depth = s.depth + 1;
        if tag_name(e) == w("rsids") {
            DeclaredView { inside: true, list_depth: depth, depth, ..s }
        } else if s.inside {
            DeclaredView { depth, values: s.values + vals, ..s }
        } else {
            DeclaredView { depth, ..s }
        }
    } else if e.kind == EventKind::Empty {
        if s.inside {
            DeclaredView { values: s.values + vals, ..s }
        } else {
            s
        }
    } else if e.kind == EventKind::End {
        DeclaredView {
            inside: s.inside && s.depth != s.list_depth,
            depth: s.depth - 1,
            ..s
        }
    } else {
        s
    }
}

/// The reading of the declared rsid values after events.
pub open spec fn declared_state(events: Seq<Ev>) -> DeclaredView
    decreases events.len(),
{
    if events.len() == 0 {
        DeclaredView { inside: false, list_depth: 0, depth: 0, values: Seq::empty() }
    } else {
        declared_step(declared_state(events.drop_last()), events.last())
    }
}

/// The rsid values that the settings declare: those inside `w:rsids`.
pub open spec fn declared_rsids(settings: Option<Seq<u8>>) -> Pairs<()> {
    match settings {
        Some(data) => name_set(declared_state(xml_events(data)).values),
        None => Seq::empty(),
    }
}

/// The names of a set that another set does not hold, in order.
pub open spec fn not_in(names: Pairs<()>, others: Pairs<()>) -> Seq<Seq<char>>
    decreases names.len(),
{
    if names.len() == 0 {
        Seq::empty()
    } else {
        let before = not_in(names.drop_last(), others);
        if has_name(others, names.last().0) {
            before
        } else {
            before.push(names.last().0)
        }
    }
}

/// The lines of the check that rsid values are declared.
pub open spec fn rsid_lines(parts: Parts) -> Lines {
    match part(parts, PART_DOCUMENT@) {
        None => failed(seq!["word/document.xml missing — cannot check rsids"@]),
        Some(doc) => if !xml_readable(doc) {
            failed(seq!["rsid check: document.xml parse error: "@ + xml_failure(doc)])
        } else {
            let used = name_set(tag_values(xml_events(doc), "p", rsid_keys()));
            let missing = not_in(used, declared_rsids(part(parts, PART_SETTINGS@)));
            if missing.len() > 0 {
                failed(
                    seq![
                        decimal(missing.len())
                            + " paragraph rsid value(s) not in settings.xml <w:rsids> — causes 'Word found unreadable content'. Sample: "@
                            + quoted_list(first_of(missing, 4)),
                    ],
                )
            } else if used.len() > 0 {
                passed(
                    decimal(used.len()) + " rsid value(s), all declared in settings.xml"@,
                )
            } else {
                passed("No rsid attributes in body paragraphs"@)
            }
        },
    }
}

fn declared_in(events: &Vec<XmlEvent>) -> (r: Vec<String>)
    ensures
        texts_view(r@) == declared_state(events_view(events@)).values,
{
    let ghost evs = events_view(events@);
    let keys: Vec<&str> = vec!["w:val"];
    assert(lits(keys@) =~= seq![lit("w:val")]);
    let mut inside = false;
    let mut list_depth: i128 = 0;
    let mut depth: i128 = 0;
    let mut values: Vec<String> = Vec::new();
    let mut i: usize = 0;
    assert(evs.take(0) =~= Seq::empty());
    assert(texts_view(values@) =~= Seq::empty());
    while i < events.len()
        invariant
            i <= events@.len(),
            evs == events_view(events@),
            lits(keys@) == seq![lit("w:val")],
            -i <= depth <= i,
            declared_state(evs.take(i as int)) == (DeclaredView {
                inside,
                list_depth: list_depth as int,
                depth: depth as int,
                values: texts_view(values@),
            }),
        decreases events@.len() - i,
    {
        let ev: &XmlEvent = &events[i];
        proof {
            assert(evs.take(i + 1).drop_last() =~= evs.take(i as int));
            assert(evs.take(i + 1).last() == ev@);
        }
        if ev.kind == EventKind::Start {
            depth += 1;
            if tag_is_w(ev.name(), "rsids") {
                inside = true;
                list_depth = depth;
            } else if inside {
                push_values(&mut values, ev, &keys);
            }
        } else if ev.kind == EventKind::Empty {
            if inside {
                push_values(&mut values, ev, &keys);
            }
        } else if ev.kind == EventKind::End {
            if inside && depth == list_depth {
                inside = false;
            }
            depth -= 1;
        }
        i += 1;
    }
    assert(evs.take(i as int) =~= evs);
    values
}

fn names_not_in(names: &NameSet, others: &NameSet) -> (r: Vec<String>)
    ensures
        texts_view(r@) == not_in(names@, others@),
{
    let ghost all = names@;
    let mut r: Vec<String> = Vec::new();
    let mut i: usize = 0;
    assert(all.take(0) =~= Seq::empty());
    assert(texts_view(r@) =~= Seq::empty());
    while i < names.len()
        invariant
            i <= names@.len(),
            all == names@,
            texts_view(r@) == not_in(all.take(i as int), others@),
        decreases names@.len() - i,
    {
        proof {
            assert(all.take(i + 1).drop_last() =~= all.take(i as int));
            assert(all.take(i + 1).last() == all[i as int]);
        }
        let name: &str = names.name_at(i);
        if !others.contains(name) {
            push_line(&mut r, name.to_owned());
        }
        i += 1;
    }
    assert(all.take(i as int) =~= all);
    r
}

/// The first `n` strings, or all where there are fewer.
fn first_strings(v: Vec<String>, n: usize) -> (r: Vec<String>)
    ensures
        texts_view(r@) == first_of(texts_view(v@), n as int),
{
    let ghost all = texts_view(v@);
    let mut r = v;
    if r.len() > n {
        r.truncate(n);
        assert(texts_view(r@) =~= all.take(n as int));
    }
    r
}

fn check_rsids(pkg: &Package, r: &mut CheckReport)
    ensures
        final(r)@ == both(old(r)@, rsid_lines(pkg@)),
{
    let doc = match pkg.get_part(PART_DOCUMENT) {
        Some(d) => d,
        None => {
            fail(r, "word/document.xml missing — cannot check rsids".to_owned());
            return;
        },
    };
    let (events, failure) = read_events(doc);
    if let Some(f) = failure {
        fail(r, line2("rsid check: document.xml parse error: ", &f.text));
        return;
    }
    let keys: Vec<&str> = vec!["w:rsidR", "w:rsidRPr", "w:rsidDel", "w:rsidRDefault", "w:rsidRPrChange"];
    assert(lits(keys@) =~= rsid_keys());
    let used = set_of(&values_in(&events, "p", &keys));
    let declared = match pkg.get_part(PART_SETTINGS) {
        Some(data) => {
            let (settings, _) = read_events(data);
            set_of(&declared_in(&settings))
        },
        None => NameSet::new(),
    };
    let missing = names_not_in(&used, &declared);
    if missing.len() > 0 {
        let n = to_decimal(missing.len() as u64);
        let sample = quote_list(&first_strings(missing, 4));
        fail(
            r,
            line3(
                &n,
                " paragraph rsid value(s) not in settings.xml <w:rsids> — causes 'Word found unreadable content'. Sample: ",
                &sample,
            ),
        );
    } else if used.len() > 0 {
        let n = to_decimal(used.len() as u64);
        pass(r, line2(&n, " rsid value(s), all declared in settings.xml"));
    } else {
        pass(r, "No rsid attributes in body paragraphs".to_owned());
    }
}

// ---------------------------------------------------------------------------
// Check 3: paragraph ids are unique
// ---------------------------------------------------------------------------

/// How often a string occurs.
pub open spec fn times(v: Seq<Seq<char>>, s: Seq<char>) -> nat
    decreases v.len(),
{
    if v.len() == 0 {
        0
    } else if v.last() == s {
        times(v.drop_last(), s) + 1
    } else {
        times(v.drop_last(), s)
    }
}

/// The names of a set that occur more than once in a sequence, in order.
pub open spec fn repeated(names: Pairs<()>, v: Seq<Seq<char>>) -> Seq<Seq<char>>
    decreases names.len(),
{
    if names.len() == 0 {
        Seq::empty()
    } else {
        let before = repeated(names.drop_last(), v);
        if times(v, names.last().0) > 1 {
            before.push(names.last().0)
        } else {
            before
        }
    }
}

/// The strings that occur more than once, in order.
pub open spec fn duplicates(v: Seq<Seq<char>>) -> Seq<Seq<char>> {
    repeated(name_set(v), v)
}

fn count_of(v: &Vec<String>, s: &str) -> (n: usize)
    ensures
        n == times(texts_view(v@), s@),
{
    let ghost all = texts_view(v@);
    let mut n: usize = 0;
    let mut i: usize = 0;
    assert(all.take(0) =~= Seq::empty());
    while i < v.len()
        invariant
            i <= v@.len(),
            n <= i,
            all == texts_view(v@),
            n == times(all.take(i as int), s@),
        decreases v@.len() - i,
    {
        proof {
            assert(all.take(i + 1).drop_last() =~= all.take(i as int));
            assert(all.take(i + 1).last() == v@[i as int]@);
        }
        if str_eq(&v[i], s) {
            n += 1;
        }
        i += 1;
    }
    assert(all.take(i as int) =~= all);
    n
}

fn duplicates_of(v: &Vec<String>) -> (r: Vec<String>)
    ensures
        texts_view(r@) == duplicates(texts_view(v@)),
{
    let names = set_of(v);
    let ghost all = names@;
    let mut r: Vec<String> = Vec::new();
    let mut i: usize = 0;
    assert(all.take(0) =~= Seq::empty());
    assert(texts_view(r@) =~= Seq::empty());
    while i < names.len()
        invariant
            i <= names@.len(),
            all == names@,
            texts_view(r@) == repeated(all.take(i as int), texts_view(v@)),
        decreases names@.len() - i,
    {
        proof {
            assert(all.take(i + 1).drop_last() =~= all.take(i as int));
            assert(all.take(i + 1).last() == all[i as int]);
        }
        let name: &str = names.name_at(i);
        if count_of(v, name) > 1 {
            push_line(&mut r, name.to_owned());
        }
        i += 1;
    }
    assert(all.take(i as int) =~= all);
    r
}

/// A string, repeated.
pub open spec fn copies(s: Seq<char>, n: nat) -> Seq<Seq<char>> {
    Seq::new(n, |i: int| s)
}

/// The paragraph ids of a part.
pub open spec fn ids_of(data: Seq<u8>) -> Seq<Seq<char>> {
    tag_values(xml_events(data), "p", seq![lit("w14:paraId")])
}

/// The paragraph ids of the `.xml` parts.
pub open spec fn para_ids(parts: Parts) -> Seq<Seq<char>>
    decreases parts.len(),
{
    if parts.len() == 0 {
        Seq::empty()
    } else {
        let before = para_ids(parts.drop_last());
        if ends_with(parts.last().0, ".xml"@) {
            before + ids_of(parts.last().1)
        } else {
            before
        }
    }
}

/// The name of the part that holds each paragraph id.
pub open spec fn para_owners(parts: Parts) -> Seq<Seq<char>>
    decreases parts.len(),
{
    if parts.len() == 0 {
        Seq::empty()
    } else {
        let before = para_owners(parts.drop_last());
        if ends_with(parts.last().0, ".xml"@) {
            before + copies(parts.last().0, ids_of(parts.last().1).len())
        } else {
            before
        }
    }
}

/// The owners at whose position `ids` holds `id`.
pub open spec fn owners_of(ids: Seq<Seq<char>>, owners: Seq<Seq<char>>, id: Seq<char>) -> Seq<
    Seq<char>,
>
    decreases ids.len(),
{
    if ids.len() == 0 || owners.len() == 0 {
        Seq::empty()
    } else {
        let before = owners_of(ids.drop_last(), owners.drop_last(), id);
        if ids.last() == id {
            before.push(owners.last())
        } else {
            before
        }
    }
}

/// The lines for duplicate paragraph ids.
pub open spec fn para_id_issues(
    dupes: Seq<Seq<char>>,
    ids: Seq<Seq<char>>,
    owners: Seq<Seq<char>>,
) -> Seq<Seq<char>> {
    dupes.map_values(
        |id: Seq<char>|
            "Duplicate w14:paraId "@ + quoted(id) + " appears "@ + decimal(times(ids, id))
                + "x in: "@ + quoted_list(owners_of(ids, owners, id)),
    )
}

/// The lines of the check that paragraph ids are unique. At most three are reported.
pub open spec fn para_id_lines(parts: Parts) -> Lines {
    let ids = para_ids(parts);
    let dupes = duplicates(ids);
    if dupes.len() == 0 {
        passed(decimal(ids.len()) + " w14:paraId values across all parts, all unique"@)
    } else {
        failed(para_id_issues(first_of(dupes, 3), ids, para_owners(parts)))
    }
}

fn find_owners(ids: &Vec<String>, owners: &Vec<String>, id: &str) -> (r: Vec<String>)
    requires
        ids@.len() == owners@.len(),
    ensures
        texts_view(r@) == owners_of(texts_view(ids@), texts_view(owners@), id@),
{
    let ghost all = texts_view(ids@);
    let ghost who = texts_view(owners@);
    let mut r: Vec<String> = Vec::new();
    let mut i: usize = 0;
    assert(texts_view(r@) =~= Seq::empty());
    while i < ids.len()
        invariant
            i <= ids@.len(),
            ids@.len() == owners@.len(),
            all == texts_view(ids@),
            who == texts_view(owners@),
            texts_view(r@) == owners_of(all.take(i as int), who.take(i as int), id@),
        decreases ids@.len() - i,
    {
        proof {
            assert(all.take(i + 1).drop_last() =~= all.take(i as int));
            assert(all.take(i + 1).last() == ids@[i as int]@);
            assert(who.take(i + 1).drop_last() =~= who.take(i as int));
            assert(who.take(i + 1).last() == owners@[i as int]@);
        }
        if str_eq(&ids[i], id) {
            push_line(&mut r, owners[i].as_str().to_owned());
        }
        i += 1;
    }
    assert(all.take(i as int) =~= all);
    assert(who.take(i as int) =~= who);
    r
}

/// Adds the paragraph ids of a part.
fn push_ids(ids: &mut Vec<String>, owners: &mut Vec<String>, name: &str, data: &[u8])
    requires
        old(ids)@.len() == old(owners)@.len(),
    ensures
        final(ids)@.len() == final(owners)@.len(),
        texts_view(final(ids)@) == texts_view(old(ids)@) + ids_of(data@),
        texts_view(final(owners)@) == texts_view(old(owners)@) + copies(
            name@,
            ids_of(data@).len(),
        ),
{
    let (events, _) = read_events(data);
    let keys: Vec<&str> = vec!["w14:paraId"];
    assert(lits(keys@) =~= seq![lit("w14:paraId")]);
    let mut found = values_in(&events, "p", &keys);
    let n: usize = found.len();
    let ghost new = texts_view(found@);
    let ghost before = texts_view(owners@);
    assert(new.len() == n);
    ids.append(&mut found);
    assert(texts_view(ids@) =~= texts_view(old(ids)@) + new);
    let mut i: usize = 0;
    assert(before + copies(name@, 0) =~= before);
    while i < n
        invariant
            i <= n,
            owners@.len() == before.len() + i,
            texts_view(owners@) == before + copies(name@, i as nat),
        decreases n - i,
    {
        push_line(owners, name.to_owned());
        i += 1;
        assert(texts_view(owners@) =~= before + copies(name@, i as nat));
    }
}

fn check_para_id_uniqueness(pkg: &Package, r: &mut CheckReport)
    ensures
        final(r)@ == both(old(r)@, para_id_lines(pkg@)),
{
    let parts = pkg.parts();
    let ghost all = pkg@;
    let mut ids: Vec<String> = Vec::new();
    let mut owners: Vec<String> = Vec::new();
    let mut i: usize = 0;
    assert(all.take(0) =~= Seq::empty());
    assert(texts_view(ids@) =~= Seq::empty());
    assert(texts_view(owners@) =~= Seq::empty());
    while i < parts.len()
        invariant
            i <= parts@.len(),
            all == parts_view(parts@),
            ids@.len() == owners@.len(),
            texts_view(ids@) == para_ids(all.take(i as int)),
            texts_view(owners@) == para_owners(all.take(i as int)),
        decreases parts@.len() - i,
    {
        let name: &str = parts[i].0;
        let data: &[u8] = parts[i].1;
        proof {
            assert(all.take(i + 1).drop_last() =~= all.take(i as int));
            assert(all.take(i + 1).last() == (name@, data@));
        }
        if has_suffix(name, ".xml") {
            push_ids(&mut ids, &mut owners, name, data);
        }
        i += 1;
    }
    assert(all.take(i as int) =~= all);
    let dupes = duplicates_of(&ids);
    if dupes.len() == 0 {
        let n = to_decimal(ids.len() as u64);
        pass(r, line2(&n, " w14:paraId values across all parts, all unique"));
    } else {
        let dupes = first_strings(dupes, 3);
        let lines = para_id_report(&dupes, &ids, &owners);
        fail_all(r, lines);
    }
}

fn para_id_report(dupes: &Vec<String>, ids: &Vec<String>, owners: &Vec<String>) -> (r: Vec<String>)
    requires
        ids@.len() == owners@.len(),
    ensures
        texts_view(r@) == para_id_issues(
            texts_view(dupes@),
            texts_view(ids@),
            texts_view(owners@),
        ),
{
    let ghost want = para_id_issues(texts_view(dupes@), texts_view(ids@), texts_view(owners@));
    let mut lines: Vec<String> = Vec::new();
    let mut i: usize = 0;
    assert(texts_view(lines@) =~= want.take(0));
    while i < dupes.len()
        invariant
            i <= dupes@.len(),
            ids@.len() == owners@.len(),
            want == para_id_issues(texts_view(dupes@), texts_view(ids@), texts_view(owners@)),
            texts_view(lines@) == want.take(i as int),
        decreases dupes@.len() - i,
    {
        let id: &str = dupes[i].as_str();
        let mut line = line3("Duplicate w14:paraId ", &quote(id), " appears ");
        line.append(&to_decimal(count_of(ids, id) as u64));
        line.append("x in: ");
        line.append(&quote_list(&find_owners(ids, owners, id)));
        assert(line@ == want[i as int]);
        push_line(&mut lines, line);
        assert(texts_view(lines@) =~= want.take(i + 1));
        i += 1;
    }
    assert(want.take(i as int) =~= want);
    lines
}

// ---------------------------------------------------------------------------
// Check 4: relationship targets exist
// ---------------------------------------------------------------------------

/// What stands between the slashes.
pub open spec fn segments(s: Seq<char>) -> Seq<Seq<char>>
    decreases s.len(),
{
    if s.len() == 0 {
        seq![Seq::empty()]
    } else {
        let before = segments(s.drop_last());
        if s.last() == '/' {
            before.push(Seq::empty())
        } else {
            before.drop_last().push(before.last().push(s.last()))
        }
    }
}

/// A path, followed segment by segment: two dots go up, one dot or nothing stays.
pub open spec fn followed(path: Seq<Seq<char>>) -> Seq<Seq<char>>
    decreases path.len(),
{
    if path.len() == 0 {
        Seq::empty()
    } else {
        let before = followed(path.drop_last());
        if path.last() == ".."@ {
            if before.len() == 0 {
                before
            } else {
                before.drop_last()
            }
        } else if path.last().len() == 0 || path.last() == "."@ {
            before
        } else {
            before.push(path.last())
        }
    }
}

/// Segments, joined by slashes.
pub open spec fn joined_path(path: Seq<Seq<char>>) -> Seq<char>
    decreases path.len(),
{
    if path.len() == 0 {
        Seq::empty()
    } else if path.len() == 1 {
        path[0]
    } else {
        joined_path(path.drop_last()) + "/"@ + path.last()
    }
}

/// The part that a relationship target denotes, seen from a directory. A target that
/// starts with a slash is seen from the root and taken as it stands.
pub open spec fn resolved_target(base: Seq<char>, target: Seq<char>) -> Seq<char> {
    if target.len() > 0 && target[0] == '/' {
        target.skip(1)
    } else if base.len() == 0 {
        joined_path(followed(segments(target)))
    } else {
        joined_path(followed(segments(base + "/"@ + target)))
    }
}

fn split_path(s: &str) -> (r: Vec<String>)
    ensures
        texts_view(r@) == segments(s@),
{
    let chars = chars_of(s);
    let ghost all = s@;
    let mut r: Vec<String> = Vec::new();
    let mut current = String::new();
    let mut i: usize = 0;
    assert(texts_view(r@).push(current@) =~= segments(all.take(0)));
    while i < chars.len()
        invariant
            i <= chars@.len(),
            chars@ == all,
            texts_view(r@).push(current@) == segments(all.take(i as int)),
        decreases chars@.len() - i,
    {
        proof {
            assert(all.take(i + 1).drop_last() =~= all.take(i as int));
            assert(all.take(i + 1).last() == all[i as int]);
            assert(texts_view(r@).push(current@).drop_last() =~= texts_view(r@));
        }
        let c: char = chars[i];
        if c == '/' {
            push_line(&mut r, current);
            current = String::new();
        } else {
            current.push(c);
        }
        assert(texts_view(r@).push(current@) =~= segments(all.take(i + 1)));
        i += 1;
    }
    assert(all.take(i as int) =~= all);
    push_line(&mut r, current);
    r
}

fn follow_path(path: &Vec<String>) -> (r: Vec<String>)
    ensures
        texts_view(r@) == followed(texts_view(path@)),
{
    let ghost all = texts_view(path@);
    let mut r: Vec<String> = Vec::new();
    let mut i: usize = 0;
    assert(all.take(0) =~= Seq::empty());
    assert(texts_view(r@) =~= Seq::empty());
    while i < path.len()
        invariant
            i <= path@.len(),
            all == texts_view(path@),
            texts_view(r@) == followed(all.take(i as int)),
        decreases path@.len() - i,
    {
        proof {
            assert(all.take(i + 1).drop_last() =~= all.take(i as int));
            assert(all.take(i + 1).last() == path@[i as int]@);
        }
        let segment: &str = path[i].as_str();
        let ghost before = texts_view(r@);
        if str_eq(segment, "..") {
            let _ = r.pop();
            assert(before.len() > 0 ==> texts_view(r@) =~= before.drop_last());
            assert(before.len() == 0 ==> texts_view(r@) =~= before);
        } else if !segment.is_empty() && !str_eq(segment, ".") {
            push_line(&mut r, segment.to_owned());
        }
        i += 1;
    }
    assert(all.take(i as int) =~= all);
    r
}

fn join_path(path: &Vec<String>) -> (r: String)
    ensures
        r@ == joined_path(texts_view(path@)),
{
    let ghost all = texts_view(path@);
    let mut r = String::new();
    let mut i: usize = 0;
    assert(all.take(0) =~= Seq::empty());
    assert(r@ =~= Seq::empty());
    while i < path.len()
        invariant
            i <= path@.len(),
            all == texts_view(path@),
            r@ == joined_path(all.take(i as int)),
        decreases path@.len() - i,
    {
        if i > 0 {
            r.append("/");
        }
        r.append(&path[i]);
        proof {
            let upto = all.take(i + 1);
            assert(upto.drop_last() =~= all.take(i as int));
            assert(upto.last() == path@[i as int]@);
            if i == 0 {
                assert(r@ =~= upto[0]);
            }
        }
        i += 1;
    }
    assert(all.take(i as int) =~= all);
    r
}

/// The part that a relationship target denotes, seen from a directory.
pub fn resolve_relative_target(base: &str, target: &str) -> (r: String)
    ensures
        r@ == resolved_target(base@, target@),
{
    let t = chars_of(target);
    if t.len() > 0 && t[0] == '/' {
        let r = string_of(vstd::slice::slice_subrange(t.as_slice(), 1, t.len()));
        assert(r@ =~= target@.skip(1));
        return r;
    }
    if base.is_empty() {
        return join_path(&follow_path(&split_path(target)));
    }
    let combined = line3(base, "/", target);
    join_path(&follow_path(&split_path(&combined)))
}

/// `s` without the occurrences of `needle`, found from left to right.
pub open spec fn without(s: Seq<char>, needle: Seq<char>) -> Seq<char>
    decreases s.len(),
{
    match find_chars(s, needle, 0) {
        Some(i) => if needle.len() > 0 && 0 <= i && i + needle.len() <= s.len() {
            s.take(i) + without(s.skip(i + needle.len()), needle)
        } else {
            s
        },
        None => s,
    }
}

/// What stands before the last slash, or nothing where there is none.
pub open spec fn directory(s: Seq<char>) -> Seq<char>
    decreases s.len(),
{
    if s.len() == 0 {
        s
    } else if s.last() == '/' {
        s.drop_last()
    } else {
        directory(s.drop_last())
    }
}

/// The directory from which the targets of a relationships part are seen.
pub open spec fn rels_base(name: Seq<char>) -> Seq<char> {
    directory(without(name, "_rels/"@))
}

proof fn lemma_find_shift(s: Seq<char>, needle: Seq<char>, k: int, from: int)
    requires
        0 <= k <= s.len(),
        0 <= from,
    ensures
        find_chars(s.skip(k), needle, from) == match find_chars(s, needle, from + k) {
            Some(i) => Some(i - k),
            None => None,
        },
    decreases s.len() - from,
{
    let t = s.skip(k);
    if from + needle.len() <= t.len() {
        assert(t.subrange(from, from + needle.len()) =~= s.subrange(
            from + k,
            from + k + needle.len(),
        ));
        if !chars_at(t, from, needle) {
            if needle.len() == 0 {
                assert(t.subrange(from, from) =~= needle);
            }
            lemma_find_shift(s, needle, k, from + 1);
        }
    }
}

fn remove_all(s: &str, needle: &str) -> (r: String)
    requires
        needle@.len() > 0,
    ensures
        r@ == without(s@, needle@),
{
    let chars = chars_of(s);
    let n: usize = chars_of(needle).len();
    let mut r: Vec<char> = Vec::new();
    let mut from: usize = 0;
    assert(r@ + without(s@.skip(0), needle@) =~= without(s@, needle@)) by {
        assert(s@.skip(0) =~= s@);
    }
    loop
        invariant
            chars@ == s@,
            n == needle@.len(),
            n > 0,
            from <= chars@.len(),
            r@ + without(s@.skip(from as int), needle@) == without(s@, needle@),
        decreases chars@.len() - from,
    {
        let ghost rest = s@.skip(from as int);
        proof {
            lemma_find_shift(s@, needle@, from as int, 0);
        }
        match find_str(&chars, needle, from) {
            Some(i) => {
                proof {
                    lemma_find_from(s@, needle@, from as int);
                    assert(rest.take(i - from) =~= s@.subrange(from as int, i as int));
                    assert(rest.skip(i - from + n) =~= s@.skip(i + n));
                }
                let ghost before = r@;
                r.extend_from_slice(vstd::slice::slice_subrange(chars.as_slice(), from, i));
                assert(r@ =~= before + s@.subrange(from as int, i as int));
                let total: usize = chars.len();
                assert(i + n <= total);
                from = i + n;
                assert(r@ + without(s@.skip(from as int), needle@) =~= before + without(
                    rest,
                    needle@,
                ));
            },
            None => {
                let ghost before = r@;
                r.extend_from_slice(vstd::slice::slice_subrange(chars.as_slice(), from, chars.len()));
                assert(r@ =~= before + rest);
                return string_of(&r);
            },
        }
    }
}

proof fn lemma_find_from(s: Seq<char>, needle: Seq<char>, from: int)
    requires
        0 <= from,
    ensures
        match find_chars(s, needle, from) {
            Some(i) => from <= i && i + needle.len() <= s.len() && chars_at(s, i, needle),
            None => true,
        },
    decreases s.len() - from,
{
    if from + needle.len() <= s.len() && !chars_at(s, from, needle) {
        if needle.len() == 0 {
            assert(s.subrange(from, from) =~= needle);
        }
        lemma_find_from(s, needle, from + 1);
    }
}

fn directory_of(s: &str) -> (r: String)
    ensures
        r@ == directory(s@),
{
    let chars = chars_of(s);
    let mut n: usize = chars.len();
    assert(s@.take(n as int) =~= s@);
    while n > 0
        invariant
            n <= chars@.len(),
            chars@ == s@,
            directory(s@) == directory(s@.take(n as int)),
        decreases n,
    {
        assert(s@.take(n as int).drop_last() =~= s@.take(n - 1));
        n -= 1;
        if chars[n] == '/' {
            return string_of(vstd::slice::slice_subrange(chars.as_slice(), 0, n));
        }
    }
    assert(s@.take(0) =~= Seq::empty());
    String::new()
}

/// The target of a relationship: the value of the last `Target` attribute.
pub open spec fn rel_target(attrs: Seq<At>) -> Option<Seq<char>>
    decreases attrs.len(),
{
    if attrs.len() == 0 {
        None
    } else if attrs.last().key == lit("Target") {
        Some(utf8_lossy(attrs.last().value))
    } else {
        rel_target(attrs.drop_last())
    }
}

/// A relationship points out of the package.
pub open spec fn is_external(attrs: Seq<At>) -> bool {
    exists|i: int|
        0 <= i < attrs.len() && (#[trigger] attrs[i]).key == lit("TargetMode") && attrs[i].value
            == lit("External")
}

/// The target of a relationship inside the package.
pub open spec fn inner_target(attrs: Seq<At>) -> Option<Seq<char>> {
    if is_external(attrs) {
        None
    } else {
        rel_target(attrs)
    }
}

fn find_inner_target(attrs: &Vec<XmlAttr>) -> (r: Option<String>)
    ensures
        match r {
            Some(t) => inner_target(attrs_view(attrs@)) == Some(t@),
            None => inner_target(attrs_view(attrs@)) is None,
        },
{
    let ghost all = attrs_view(attrs@);
    let mut i: usize = 0;
    let mut target: Option<String> = None;
    assert(all.take(0) =~= Seq::empty());
    while i < attrs.len()
        invariant
            i <= attrs@.len(),
            all == attrs_view(attrs@),
            rel_target(all.take(i as int)) == match target {
                Some(t) => Some(t@),
                None => None,
            },
            forall|j: int|
                0 <= j < i ==> !((#[trigger] all[j]).key == lit("TargetMode") && all[j].value
                    == lit("External")),
        decreases attrs@.len() - i,
    {
        let a: &XmlAttr = &attrs[i];
        proof {
            assert(all.take(i + 1).drop_last() =~= all.take(i as int));
            assert(all.take(i + 1).last() == a@);
            assert(all[i as int] == a@);
        }
        if is_str(&a.key, "Target") {
            target = Some(from_lossy(&a.value));
        }
        if is_str(&a.key, "TargetMode") && is_str(&a.value, "External") {
            assert(is_external(all));
            return None;
        }
        i += 1;
    }
    assert(all.take(i as int) =~= all);
    target
}

/// The lines for the targets of a relationships part that denote no part.
pub open spec fn missing_in(
    events: Seq<Ev>,
    name: Seq<char>,
    parts: Parts,
) -> Seq<Seq<char>>
    decreases events.len(),
{
    if events.len() == 0 {
        Seq::empty()
    } else {
        let before = missing_in(events.drop_last(), name, parts);
        let e = events.last();
        if !is_open_tag(e, "Relationship") {
            before
        } else {
            match inner_target(tag_attrs(e, false)) {
                None => before,
                Some(t) => {
                    let full = resolved_target(rels_base(name), t);
                    if full.len() > 0 && part(parts, full) is None {
                        before.push(
                            "Missing rel target "@ + quoted(t) + " (resolved: "@ + quoted(full)
                                + ") in "@ + name,
                        )
                    } else {
                        before
                    }
                },
            }
        }
    }
}

/// The lines for the targets of the relationships parts among `some` that denote no
/// part of `parts`.
pub open spec fn missing_targets(some: Parts, parts: Parts) -> Seq<Seq<char>>
    decreases some.len(),
{
    if some.len() == 0 {
        Seq::empty()
    } else {
        let before = missing_targets(some.drop_last(), parts);
        let p = some.last();
        if ends_with(p.0, ".rels"@) {
            before + missing_in(xml_events(p.1), p.0, parts)
        } else {
            before
        }
    }
}

/// The lines of the check that relationship targets exist. At most five are reported.
pub open spec fn target_lines(parts: Parts) -> Lines {
    let missing = missing_targets(parts, parts);
    if missing.len() == 0 {
        passed("All relationship targets present in ZIP"@)
    } else {
        failed(first_of(missing, 5))
    }
}

/// Adds the lines for the targets of a relationships part that denote no part.
fn push_missing(lines: &mut Vec<String>, pkg: &Package, name: &str, data: &[u8])
    ensures
        texts_view(final(lines)@) == texts_view(old(lines)@) + missing_in(
            xml_events(data@),
            name@,
            pkg@,
        ),
{
    let (events, _) = read_events(data);
    let ghost evs = events_view(events@);
    let ghost before = texts_view(lines@);
    proof {
        reveal_strlit("_rels/");
    }
    let base = directory_of(&remove_all(name, "_rels/"));
    let mut i: usize = 0;
    assert(evs.take(0) =~= Seq::empty());
    assert(before + missing_in(evs.take(0), name@, pkg@) =~= before);
    while i < events.len()
        invariant
            i <= events@.len(),
            evs == events_view(events@),
            base@ == rels_base(name@),
            texts_view(lines@) == before + missing_in(evs.take(i as int), name@, pkg@),
        decreases events@.len() - i,
    {
        let ev: &XmlEvent = &events[i];
        proof {
            assert(evs.take(i + 1).drop_last() =~= evs.take(i as int));
            assert(evs.take(i + 1).last() == ev@);
        }
        if ev.is_open_tag("Relationship") {
            if let Some(t) = find_inner_target(&attributes(ev, false)) {
                let full = resolve_relative_target(&base, &t);
                if !full.as_str().is_empty() && pkg.get_part(&full).is_none() {
                    let mut line = line3("Missing rel target ", &quote(&t), " (resolved: ");
                    line.append(&quote(&full));
                    line.append(") in ");
                    line.append(name);
                    push_line(lines, line);
                    assert(texts_view(lines@) =~= before + missing_in(
                        evs.take(i + 1),
                        name@,
                        pkg@,
                    ));
                }
            }
        }
        i += 1;
    }
    assert(evs.take(i as int) =~= evs);
}

fn check_rel_targets(pkg: &Package, r: &mut CheckReport)
    ensures
        final(r)@ == both(old(r)@, target_lines(pkg@)),
{
    let parts = pkg.parts();
    let ghost all = pkg@;
    let mut lines: Vec<String> = Vec::new();
    let mut i: usize = 0;
    assert(all.take(0) =~= Seq::empty());
    assert(texts_view(lines@) =~= Seq::empty());
    while i < parts.len()
        invariant
            i <= parts@.len(),
            all == parts_view(parts@),
            all == pkg@,
            texts_view(lines@) == missing_targets(all.take(i as int), all),
        decreases parts@.len() - i,
    {
        let name: &str = parts[i].0;
        let data: &[u8] = parts[i].1;
        proof {
            assert(all.take(i + 1).drop_last() =~= all.take(i as int));
            assert(all.take(i + 1).last() == (name@, data@));
        }
        if has_suffix(name, ".rels") {
            push_missing(&mut lines, pkg, name, data);
        }
        i += 1;
    }
    assert(all.take(i as int) =~= all);
    if lines.len() == 0 {
        pass(r, "All relationship targets present in ZIP".to_owned());
    } else {
        let lines = first_strings(lines, 5);
        fail_all(r, lines);
    }
}

// ---------------------------------------------------------------------------
// Check 5: structure of the body
// ---------------------------------------------------------------------------

/// Reading of the body's children: whether inside the body, at which depth it began,
/// the depth, and the names of the children so far.
#[verifier::ext_equal]
pub struct ChildrenView {
    pub inside: bool,
    pub body_depth: int,
    pub depth: int,
    pub names: Seq<Seq<char>>,
}

/// What an event does to the reading of the body's children.
pub open spec fn children_step(s: ChildrenView, e: Ev) -> ChildrenView {
    let name = utf8_lossy(tag_name(e));
    if e.kind == EventKind::Start {
        let depth = s.depth + 1;
        if tag_name(e) == w("body") {
            ChildrenView { inside: true, body_depth: depth, depth, ..s }
        } else if s.inside && depth == s.body_depth + 1 {
            ChildrenView { depth, names: s.names.push(name), ..s }
        } else {
            ChildrenView { depth, ..s }
        }
    } else if e.kind == EventKind::Empty {
        if s.inside && s.depth == s.body_depth {
            ChildrenView { names: s.names.push(name), ..s }
        } else {
            s
        }
    } else if e.kind == EventKind::End {
        ChildrenView { inside: s.inside && s.depth != s.body_depth, depth: s.depth - 1, ..s }
    } else {
        s
    }
}

/// The reading of the body's children after events.
pub open spec fn children_state(events: Seq<Ev>) -> ChildrenView
    decreases events.len(),
{
    if events.len() == 0 {
        ChildrenView { inside: false, body_depth: 0, depth: 0, names: Seq::empty() }
    } else {
        children_step(children_state(events.drop_last()), events.last())
    }
}

/// An element that may stand in the body. A bookmark that spans paragraphs has its
/// ends there.
pub open spec fn is_body_child(name: Seq<char>) -> bool {
    name == "w:p"@ || name == "w:tbl"@ || name == "w:sectPr"@ || name == "w:bookmarkStart"@ || name
        == "w:bookmarkEnd"@
}

/// The names of elements that may not stand in the body.
pub open spec fn unexpected(names: Seq<Seq<char>>) -> Seq<Seq<char>>
    decreases names.len(),
{
    if names.len() == 0 {
        Seq::empty()
    } else if is_body_child(names.last()) {
        unexpected(names.drop_last())
    } else {
        unexpected(names.drop_last()).push(names.last())
    }
}

/// The names of a set, in order.
pub open spec fn names_of(s: Pairs<()>) -> Seq<Seq<char>> {
    s.map_values(|e: (Seq<char>, ())| e.0)
}

/// A truth value in words.
pub open spec fn bool_text(b: bool) -> Seq<char> {
    if b {
        "true"@
    } else {
        "false"@
    }
}

/// The lines for the children of a body.
pub open spec fn children_lines(names: Seq<Seq<char>>) -> Lines {
    let sect_last = names.len() > 0 && names.last() == "w:sectPr"@;
    if names.len() == 0 {
        no_lines()
    } else if unexpected(names).len() > 0 {
        failed(
            seq![
                "Body has unexpected element tags: "@ + quoted_list(
                    names_of(name_set(unexpected(names))),
                ),
            ],
        )
    } else if !sect_last && names.contains("w:sectPr"@) {
        failed(seq!["Body <w:sectPr> is not the last child"@])
    } else {
        passed(
            "Body structure valid ("@ + decimal(names.len()) + " children, sectPr at end: "@
                + bool_text(sect_last) + ")"@,
        )
    }
}

/// The lines of the check of the body's structure.
pub open spec fn body_lines(parts: Parts) -> Lines {
    match part(parts, PART_DOCUMENT@) {
        Some(doc) => if xml_readable(doc) {
            children_lines(children_state(xml_events(doc)).names)
        } else {
            no_lines()
        },
        None => no_lines(),
    }
}

fn body_children(events: &Vec<XmlEvent>) -> (r: Vec<String>)
    ensures
        texts_view(r@) == children_state(events_view(events@)).names,
{
    let ghost evs = events_view(events@);
    let mut inside = false;
    let mut body_depth: i128 = 0;
    let mut depth: i128 = 0;
    let mut names: Vec<String> = Vec::new();
    let mut i: usize = 0;
    assert(evs.take(0) =~= Seq::empty());
    assert(texts_view(names@) =~= Seq::empty());
    while i < events.len()
        invariant
            i <= events@.len(),
            evs == events_view(events@),
            -i <= depth <= i,
            -i <= body_depth <= i,
            children_state(evs.take(i as int)) == (ChildrenView {
                inside,
                body_depth: body_depth as int,
                depth: depth as int,
                names: texts_view(names@),
            }),
        decreases events@.len() - i,
    {
        let ev: &XmlEvent = &events[i];
        proof {
            assert(evs.take(i + 1).drop_last() =~= evs.take(i as int));
            assert(evs.take(i + 1).last() == ev@);
        }
        if ev.kind == EventKind::Start {
            depth += 1;
            if tag_is_w(ev.name(), "body") {
                inside = true;
                body_depth = depth;
            } else if inside && depth == body_depth + 1 {
                push_line(&mut names, from_lossy(ev.name()));
            }
        } else if ev.kind == EventKind::Empty {
            if inside && depth == body_depth {
                push_line(&mut names, from_lossy(ev.name()));
            }
        } else if ev.kind == EventKind::End {
            if inside && depth == body_depth {
                inside = false;
            }
            depth -= 1;
        }
        i += 1;
    }
    assert(evs.take(i as int) =~= evs);
    names
}

fn may_stand_in_body(name: &str) -> (r: bool)
    ensures
        r == is_body_child(name@),
{
    str_eq(name, "w:p") || str_eq(name, "w:tbl") || str_eq(name, "w:sectPr") || str_eq(
        name,
        "w:bookmarkStart",
    ) || str_eq(name, "w:bookmarkEnd")
}

fn unexpected_of(names: &Vec<String>) -> (r: Vec<String>)
    ensures
        texts_view(r@) == unexpected(texts_view(names@)),
{
    let ghost all = texts_view(names@);
    let mut r: Vec<String> = Vec::new();
    let mut i: usize = 0;
    assert(all.take(0) =~= Seq::empty());
    assert(texts_view(r@) =~= Seq::empty());
    while i < names.len()
        invariant
            i <= names@.len(),
            all == texts_view(names@),
            texts_view(r@) == unexpected(all.take(i as int)),
        decreases names@.len() - i,
    {
        proof {
            assert(all.take(i + 1).drop_last() =~= all.take(i as int));
            assert(all.take(i + 1).last() == names@[i as int]@);
        }
        if !may_stand_in_body(&names[i]) {
            push_line(&mut r, names[i].as_str().to_owned());
        }
        i += 1;
    }
    assert(all.take(i as int) =~= all);
    r
}

fn has_string(v: &Vec<String>, s: &str) -> (r: bool)
    ensures
        r == texts_view(v@).contains(s@),
{
    let mut i: usize = 0;
    while i < v.len()
        invariant
            i <= v@.len(),
            forall|j: int| 0 <= j < i ==> #[trigger] texts_view(v@)[j] != s@,
        decreases v@.len() - i,
    {
        assert(texts_view(v@)[i as int] == v@[i as int]@);
        if str_eq(&v[i], s) {
            return true;
        }
        i += 1;
    }
    false
}

fn listed(s: &NameSet) -> (r: Vec<String>)
    ensures
        texts_view(r@) == names_of(s@),
{
    let mut r: Vec<String> = Vec::new();
    let mut i: usize = 0;
    assert(texts_view(r@) =~= names_of(s@).take(0));
    while i < s.len()
        invariant
            i <= s@.len(),
            texts_view(r@) == names_of(s@).take(i as int),
        decreases s@.len() - i,
    {
        push_line(&mut r, s.name_at(i).to_owned());
        assert(texts_view(r@) =~= names_of(s@).take(i + 1));
        i += 1;
    }
    assert(names_of(s@).take(i as int) =~= names_of(s@));
    r
}

/// Adds the lines for the children of a body.
fn report_children(names: &Vec<String>, r: &mut CheckReport)
    ensures
        final(r)@ == both(old(r)@, children_lines(texts_view(names@))),
{
    let ghost all = texts_view(names@);
    if names.len() == 0 {
        assert(r@ =~= both(old(r)@, no_lines()));
        return;
    }
    assert(all.last() == names@.last()@);
    let sect_last = str_eq(&names[names.len() - 1], "w:sectPr");
    let bad = unexpected_of(names);
    if bad.len() > 0 {
        let list = quote_list(&listed(&set_of(&bad)));
        fail(r, line2("Body has unexpected element tags: ", &list));
    } else if !sect_last && has_string(names, "w:sectPr") {
        fail(r, "Body <w:sectPr> is not the last child".to_owned());
    } else {
        let n = to_decimal(names.len() as u64);
        let mut line = line3("Body structure valid (", &n, " children, sectPr at end: ");
        if sect_last {
            line.append("true");
        } else {
            line.append("false");
        }
        line.append(")");
        pass(r, line);
    }
}

fn check_body_structure(pkg: &Package, r: &mut CheckReport)
    ensures
        final(r)@ == both(old(r)@, body_lines(pkg@)),
{
    assert(r@ =~= both(old(r)@, no_lines()));
    if let Some(doc) = pkg.get_part(PART_DOCUMENT) {
        let (events, failure) = read_events(doc);
        if failure.is_none() {
            let names = body_children(&events);
            report_children(&names, r);
        }
    }
}

// ---------------------------------------------------------------------------
// Check 6: bookmark ids are unique
// ---------------------------------------------------------------------------

/// The lines for duplicate bookmark ids.
pub open spec fn bookmark_issues(dupes: Seq<Seq<char>>, ids: Seq<Seq<char>>) -> Seq<Seq<char>> {
    dupes.map_values(
        |id: Seq<char>|
            "Duplicate bookmarkStart id="@ + quoted(id) + " appears "@ + decimal(times(ids, id))
                + "x"@,
    )
}

/// The lines of the check that bookmark ids are unique. At most three are reported.
pub open spec fn bookmark_lines(parts: Parts) -> Lines {
    match part(parts, PART_DOCUMENT@) {
        Some(doc) => if xml_readable(doc) {
            let ids = tag_values(xml_events(doc), "bookmarkStart", seq![lit("w:id")]);
            let dupes = duplicates(ids);
            if dupes.len() == 0 {
                passed(decimal(ids.len()) + " bookmarkStart ID(s), all unique"@)
            } else {
                failed(bookmark_issues(first_of(dupes, 3), ids))
            }
        } else {
            no_lines()
        },
        None => no_lines(),
    }
}

fn bookmark_report(dupes: &Vec<String>, ids: &Vec<String>) -> (r: Vec<String>)
    ensures
        texts_view(r@) == bookmark_issues(texts_view(dupes@), texts_view(ids@)),
{
    let ghost want = bookmark_issues(texts_view(dupes@), texts_view(ids@));
    let mut lines: Vec<String> = Vec::new();
    let mut i: usize = 0;
    assert(texts_view(lines@) =~= want.take(0));
    while i < dupes.len()
        invariant
            i <= dupes@.len(),
            want == bookmark_issues(texts_view(dupes@), texts_view(ids@)),
            texts_view(lines@) == want.take(i as int),
        decreases dupes@.len() - i,
    {
        let id: &str = dupes[i].as_str();
        let mut line = line3("Duplicate bookmarkStart id=", &quote(id), " appears ");
        line.append(&to_decimal(count_of(ids, id) as u64));
        line.append("x");
        assert(line@ == want[i as int]);
        push_line(&mut lines, line);
        assert(texts_view(lines@) =~= want.take(i + 1));
        i += 1;
    }
    assert(want.take(i as int) =~= want);
    lines
}

fn check_bookmark_ids(pkg: &Package, r: &mut CheckReport)
    ensures
        final(r)@ == both(old(r)@, bookmark_lines(pkg@)),
{
    assert(r@ =~= both(old(r)@, no_lines()));
    if let Some(doc) = pkg.get_part(PART_DOCUMENT) {
        let (events, failure) = read_events(doc);
        if failure.is_none() {
            let keys: Vec<&str> = vec!["w:id"];
            assert(lits(keys@) =~= seq![lit("w:id")]);
            let ids = values_in(&events, "bookmarkStart", &keys);
            let dupes = duplicates_of(&ids);
            if dupes.len() == 0 {
                let n = to_decimal(ids.len() as u64);
                pass(r, line2(&n, " bookmarkStart ID(s), all unique"));
            } else {
                let dupes = first_strings(dupes, 3);
                let lines = bookmark_report(&dupes, &ids);
                fail_all(r, lines);
            }
        }
    }
}

// ---------------------------------------------------------------------------
// Check 7: relationship ids used in the body exist
// ---------------------------------------------------------------------------

/// A relationship id: `rId` and a number.
pub open spec fn is_rid(s: Seq<char>) -> bool {
    starts_with(s, "rId"@) && s.len() > 3 && forall|i: int| 3 <= i < s.len() ==> is_digit(s[i])
}

/// The relationship ids in the attributes that `needle` opens, from `from` on, added to
/// a set.
pub open spec fn rids_from(
    s: Seq<char>,
    needle: Seq<char>,
    from: int,
    found: Pairs<()>,
) -> Pairs<()>
    decreases s.len() - from,
{
    match find_chars(s, needle, from) {
        None => found,
        Some(i) => {
            let start = i + needle.len();
            match find_chars(s, "\""@, start) {
                None => found,
                Some(end) => if from < end <= s.len() && start <= end {
                    let value = s.subrange(start, end);
                    rids_from(
                        s,
                        needle,
                        end,
                        if is_rid(value) {
                            inserted(found, value, ())
                        } else {
                            found
                        },
                    )
                } else {
                    found
                },
            }
        },
    }
}

/// The relationship ids used in a body.
pub open spec fn used_rids(s: Seq<char>) -> Pairs<()> {
    let a = rids_from(s, "r:id=\""@, 0, Seq::empty());
    let b = rids_from(s, "r:embed=\""@, 0, a);
    rids_from(s, "r:link=\""@, 0, b)
}

/// The names of a set for which a text holds no `Id` attribute.
pub open spec fn without_id(names: Pairs<()>, rels: Seq<char>) -> Seq<Seq<char>>
    decreases names.len(),
{
    if names.len() == 0 {
        Seq::empty()
    } else {
        let before = without_id(names.drop_last(), rels);
        if contains_chars(rels, "Id=\""@ + names.last().0 + "\""@) {
            before
        } else {
            before.push(names.last().0)
        }
    }
}

/// The lines for the relationship ids used in a body, given the text of the
/// relationships.
pub open spec fn rid_lines(used: Pairs<()>, rels: Option<Seq<char>>) -> Lines {
    if used.len() == 0 {
        no_lines()
    } else {
        match rels {
            None => failed(seq!["Body has rId references but no document.xml.rels"@]),
            Some(text) => {
                let missing = without_id(used, text);
                if missing.len() == 0 {
                    passed(
                        decimal(used.len()) + " body relationship reference(s), all resolved"@,
                    )
                } else {
                    failed(
                        seq![
                            "Body references "@ + decimal(missing.len())
                                + " rId(s) not in document.xml.rels: "@ + quoted_list(missing),
                        ],
                    )
                }
            },
        }
    }
}

/// The lines of the check that relationship ids used in the body exist.
pub open spec fn inline_rid_lines(parts: Parts) -> Lines {
    match part(parts, PART_DOCUMENT@) {
        None => no_lines(),
        Some(doc) => rid_lines(
            used_rids(utf8_lossy(doc)),
            match part(parts, PART_DOCUMENT_RELS@) {
                Some(rels) => Some(utf8_lossy(rels)),
                None => None,
            },
        ),
    }
}

fn is_rid_text(s: &[char]) -> (r: bool)
    ensures
        r == is_rid(s@),
{
    proof {
        reveal_strlit("rId");
    }
    if !match_str(s, 0, "rId") || s.len() == 3 {
        return false;
    }
    let mut i: usize = 3;
    while i < s.len()
        invariant
            3 <= i <= s@.len(),
            forall|j: int| 3 <= j < i ==> is_digit(s@[j]),
        decreases s@.len() - i,
    {
        if !('0' <= s[i] && s[i] <= '9') {
            return false;
        }
        i += 1;
    }
    true
}

/// Adds the relationship ids in the attributes that `needle` opens.
fn collect_rids(s: &[char], needle: &str, found: &mut NameSet)
    requires
        needle@.len() > 0,
        old(found).wf(),
    ensures
        final(found)@ == rids_from(s@, needle@, 0, old(found)@),
        final(found).wf(),
{
    let n: usize = chars_of(needle).len();
    let mut from: usize = 0;
    let ghost first = found@;
    loop
        invariant
            n == needle@.len(),
            n > 0,
            from <= s@.len(),
            found.wf(),
            rids_from(s@, needle@, 0, first) == rids_from(s@, needle@, from as int, found@),
        ensures
            found.wf(),
            found@ == rids_from(s@, needle@, 0, first),
        decreases s@.len() - from,
    {
        let at: usize = match find_str(s, needle, from) {
            Some(i) => i,
            None => {
                break;
            },
        };
        let total: usize = s.len();
        assert(at + n <= total);
        let start: usize = at + n;
        let end: usize = match find_str(s, "\"", start) {
            Some(i) => i,
            None => {
                break;
            },
        };
        proof {
            lemma_find_from(s@, needle@, from as int);
            lemma_find_from(s@, "\""@, start as int);
        }
        let value = vstd::slice::slice_subrange(s, start, end);
        if is_rid_text(value) {
            found.insert(string_of(value));
        }
        from = end;
    }
}

fn lacking_id(names: &NameSet, rels: &[char]) -> (r: Vec<String>)
    ensures
        texts_view(r@) == without_id(names@, rels@),
{
    let ghost all = names@;
    let mut r: Vec<String> = Vec::new();
    let mut i: usize = 0;
    assert(all.take(0) =~= Seq::empty());
    assert(texts_view(r@) =~= Seq::empty());
    while i < names.len()
        invariant
            i <= names@.len(),
            all == names@,
            texts_view(r@) == without_id(all.take(i as int), rels@),
        decreases names@.len() - i,
    {
        proof {
            assert(all.take(i + 1).drop_last() =~= all.take(i as int));
            assert(all.take(i + 1).last() == all[i as int]);
        }
        let name: &str = names.name_at(i);
        let attr = line3("Id=\"", name, "\"");
        if find_str(rels, &attr, 0).is_none() {
            push_line(&mut r, name.to_owned());
        }
        i += 1;
    }
    assert(all.take(i as int) =~= all);
    r
}

fn check_inline_rids(pkg: &Package, r: &mut CheckReport)
    ensures
        final(r)@ == both(old(r)@, inline_rid_lines(pkg@)),
{
    assert(r@ =~= both(old(r)@, no_lines()));
    let doc = match pkg.get_part(PART_DOCUMENT) {
        Some(d) => d,
        None => {
            return;
        },
    };
    let body = chars_of(&from_lossy(doc));
    let mut rids = NameSet::new();
    proof {
        reveal_strlit("r:id=\"");
        reveal_strlit("r:embed=\"");
        reveal_strlit("r:link=\"");
    }
    collect_rids(&body, "r:id=\"", &mut rids);
    collect_rids(&body, "r:embed=\"", &mut rids);
    collect_rids(&body, "r:link=\"", &mut rids);
    if rids.len() == 0 {
        return;
    }
    match pkg.get_part(PART_DOCUMENT_RELS) {
        Some(rels) => {
            let text = chars_of(&from_lossy(rels));
            let missing = lacking_id(&rids, &text);
            if missing.len() == 0 {
                let n = to_decimal(rids.len() as u64);
                pass(r, line2(&n, " body relationship reference(s), all resolved"));
            } else {
                let n = to_decimal(missing.len() as u64);
                let mut line = line3(
                    "Body references ",
                    &n,
                    " rId(s) not in document.xml.rels: ",
                );
                line.append(&quote_list(&missing));
                fail(r, line);
            }
        },
        None => {
            fail(r, "Body has rId references but no document.xml.rels".to_owned());
        },
    }
}

// ---------------------------------------------------------------------------
// All checks
// ---------------------------------------------------------------------------

/// The lines of all checks.
pub open spec fn check_lines(parts: Parts) -> Lines {
    both(
        both(
            both(
                both(
                    both(both(parse_lines(parts), rsid_lines(parts)), para_id_lines(parts)),
                    target_lines(parts),
                ),
                body_lines(parts),
            ),
            bookmark_lines(parts),
        ),
        inline_rid_lines(parts),
    )
}

/// Runs the checks. A part that cannot be read is an issue, not an error.
pub fn check_package(pkg: &Package) -> (res: Result<CheckReport, Error>)
    ensures
        res is Ok,
        res->Ok_0@ == check_lines(pkg@),
{
    let mut r = CheckReport { ok: Vec::new(), issues: Vec::new() };
    assert(r@ =~= no_lines());
    assert(both(no_lines(), parse_lines(pkg@)) =~= parse_lines(pkg@));
    check_xml_parses(pkg, &mut r);
    check_rsids(pkg, &mut r);
    check_para_id_uniqueness(pkg, &mut r);
    check_rel_targets(pkg, &mut r);
    check_body_structure(pkg, &mut r);
    check_bookmark_ids(pkg, &mut r);
    check_inline_rids(pkg, &mut r);
    Ok(r)
}

// ---------------------------------------------------------------------------
// Laws
// ---------------------------------------------------------------------------

proof fn lemma_no_parse_errors(parts: Parts, i: int)
    requires
        parse_errors(parts).len() == 0,
        0 <= i < parts.len(),
        holds_xml(parts[i].0),
    ensures
        xml_readable(parts[i].1),
    decreases parts.len(),
{
    if i < parts.len() - 1 {
        assert(parts.drop_last()[i] == parts[i]);
        lemma_no_parse_errors(parts.drop_last(), i);
    }
}

proof fn lemma_name_set(v: Seq<Seq<char>>, i: int)
    ensures
        sorted(name_set(v)),
        0 <= i < v.len() ==> has_name(name_set(v), v[i]),
    decreases v.len(),
{
    if v.len() > 0 {
        let before = name_set(v.drop_last());
        lemma_name_set(v.drop_last(), i);
        lemma_inserted(before, v.last(), ());
        if 0 <= i < v.len() - 1 {
            assert(v.drop_last()[i] == v[i]);
            if v[i] != v.last() {
                assert(lookup(name_set(v), v[i]) == lookup(before, v[i]));
            }
        }
    }
}

proof fn lemma_none_repeated(names: Pairs<()>, v: Seq<Seq<char>>, i: int)
    requires
        repeated(names, v).len() == 0,
        0 <= i < names.len(),
    ensures
        times(v, names[i].0) <= 1,
    decreases names.len(),
{
    if i < names.len() - 1 {
        assert(names.drop_last()[i] == names[i]);
        lemma_none_repeated(names.drop_last(), v, i);
    }
}

proof fn lemma_times(v: Seq<Seq<char>>, i: int)
    requires
        0 <= i < v.len(),
    ensures
        times(v, v[i]) >= 1,
    decreases v.len(),
{
    if i < v.len() - 1 {
        assert(v.drop_last()[i] == v[i]);
        lemma_times(v.drop_last(), i);
    }
}

proof fn lemma_times_twice(v: Seq<Seq<char>>, i: int, j: int)
    requires
        0 <= i < j < v.len(),
        v[i] == v[j],
    ensures
        times(v, v[i]) >= 2,
    decreases v.len(),
{
    let init = v.drop_last();
    assert(init[i] == v[i]);
    if j < v.len() - 1 {
        assert(init[j] == v[j]);
        lemma_times_twice(init, i, j);
    } else {
        lemma_times(init, i);
    }
}

/// Where no string occurs more than once, no two are the same.
pub proof fn law_no_duplicates(v: Seq<Seq<char>>)
    requires
        duplicates(v).len() == 0,
    ensures
        forall|i: int, j: int| 0 <= i < j < v.len() ==> #[trigger] v[i] != #[trigger] v[j],
{
    assert forall|i: int, j: int| 0 <= i < j < v.len() implies #[trigger] v[i] != #[trigger] v[j] by {
        if v[i] == v[j] {
            lemma_times_twice(v, i, j);
            lemma_name_set(v, i);
            let k = key_index(name_set(v), v[i], 0)->0;
            lemma_key_index(name_set(v), v[i], 0);
            lemma_none_repeated(name_set(v), v, k);
        }
    }
}

proof fn lemma_all_in(names: Pairs<()>, others: Pairs<()>, i: int)
    requires
        not_in(names, others).len() == 0,
        0 <= i < names.len(),
    ensures
        has_name(others, names[i].0),
    decreases names.len(),
{
    if i < names.len() - 1 {
        assert(names.drop_last()[i] == names[i]);
        lemma_all_in(names.drop_last(), others, i);
    }
}

/// A package without issues has a main document; each of its XML parts can be read; no
/// two of its paragraphs have the same id; every session id of its paragraphs is
/// declared in its settings; and no relationship has a target that is not there.
pub proof fn law_clean_package(parts: Parts)
    requires
        check_lines(parts).issues.len() == 0,
    ensures
        part(parts, PART_DOCUMENT@) is Some,
        forall|i: int|
            0 <= i < parts.len() && holds_xml((#[trigger] parts[i]).0) ==> xml_readable(parts[i].1),
        forall|i: int, j: int|
            0 <= i < j < para_ids(parts).len() ==> #[trigger] para_ids(parts)[i]
                != #[trigger] para_ids(parts)[j],
        ({
            let used = tag_values(
                xml_events(part(parts, PART_DOCUMENT@)->0),
                "p",
                rsid_keys(),
            );
            forall|i: int|
                0 <= i < used.len() ==> has_name(
                    declared_rsids(part(parts, PART_SETTINGS@)),
                    #[trigger] used[i],
                )
        }),
        missing_targets(parts, parts).len() == 0,
{
    assert(parse_errors(parts).len() == 0);
    assert forall|i: int| 0 <= i < parts.len() && holds_xml((#[trigger] parts[i]).0) implies xml_readable(
        parts[i].1,
    ) by {
        lemma_no_parse_errors(parts, i);
    }
    law_no_duplicates(para_ids(parts));
    let used = tag_values(xml_events(part(parts, PART_DOCUMENT@)->0), "p", rsid_keys());
    let names = name_set(used);
    let declared = declared_rsids(part(parts, PART_SETTINGS@));
    assert(not_in(names, declared).len() == 0);
    assert forall|i: int| 0 <= i < used.len() implies has_name(declared, #[trigger] used[i]) by {
        lemma_name_set(used, i);
        lemma_key_index(names, used[i], 0);
        lemma_all_in(names, declared, key_index(names, used[i], 0)->0);
    }
}

} // verus!
