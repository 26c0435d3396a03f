//! XML as a sequence of events.
//!
//! A part is read into events with `quick-xml`; every operation of the library
//! works on the event sequence and writes bytes back. An event is its kind and
//! the raw bytes between its delimiters.

use quick_xml::events::Event;
use quick_xml::reader::Reader;
use vstd::prelude::*;
use vstd::utf8::*;

use crate::bytes::{is_str, lit, push_all, push_str};
use crate::error::Error;
use crate::wellformed::{is_token, reads_of, starts_with_mark, well_formed};

verus! {

/// The kinds of XML event.
#[derive(Clone, Copy, Debug, PartialEq, Eq, Structural)]
pub enum EventKind {
    /// `<tag ..>`
    Start,
    /// `</tag>`
    End,
    /// `<tag ../>`
    Empty,
    /// Escaped character data.
    Text,
    /// `<![CDATA[..]]>`
    CData,
    /// `<!--..-->`
    Comment,
    /// `<?xml ..?>`
    Decl,
    /// Any other `<?..?>`
    PI,
    /// `<!DOCTYPE ..>`
    DocType,
    /// The end of the input.
    Eof,
}

/// What an event says: its kind and the bytes between its delimiters.
#[verifier::ext_equal]
pub struct Ev {
    pub kind: EventKind,
    pub raw: Seq<u8>,
}

/// An event of an XML part.
#[derive(Debug)]
pub struct XmlEvent {
    pub kind: EventKind,
    pub raw: Vec<u8>,
}

impl View for XmlEvent {
    type V = Ev;

    open spec fn view(&self) -> Ev {
        Ev { kind: self.kind, raw: self.raw@ }
    }
}

/// The events that a vector of events stands for.
pub open spec fn events_view(v: Seq<XmlEvent>) -> Seq<Ev> {
    v.map_values(|e: XmlEvent| e@)
}

/// What an attribute says: its key and its raw value.
#[verifier::ext_equal]
pub struct At {
    pub key: Seq<u8>,
    pub value: Seq<u8>,
}

/// An attribute of a tag.
#[derive(Debug)]
pub struct XmlAttr {
    pub key: Vec<u8>,
    pub value: Vec<u8>,
}

impl View for XmlAttr {
    type V = At;

    open spec fn view(&self) -> At {
        At { key: self.key@, value: self.value@ }
    }
}

/// The attributes that a vector of attributes stands for.
pub open spec fn attrs_view(v: Seq<XmlAttr>) -> Seq<At> {
    v.map_values(|a: XmlAttr| a@)
}

// ---------------------------------------------------------------------------
// Reading
// ---------------------------------------------------------------------------

/// `quick_xml::reader::Reader`.
#[verifier::external_type_specification]
#[verifier::external_body]
#[verifier::reject_recursive_types(R)]
pub struct ExReader<R>(quick_xml::reader::Reader<R>);

/// What a reader still holds: the events it has yet to hand out, in order. A
/// read that fails stands as the text of its error.
pub uninterp spec fn reader_rest(reader: Reader<&[u8]>) -> Seq<Result<Ev, Seq<char>>>;

/// What a fresh reader over `input` holds.
pub uninterp spec fn xml_reads(input: Seq<u8>) -> Seq<Result<Ev, Seq<char>>>;

/// Why a part cannot be read.
#[derive(Debug)]
pub struct ReadFailure {
    pub error: quick_xml::Error,
    /// The error in words.
    pub text: String,
}

/// `Reader::from_reader` on a byte slice, with the default configuration: text is
/// not trimmed, empty elements stay empty, end names are checked. What such a reader
/// hands out before a read fails is well-formed. It reads back what was written of
/// well-formed events, save a byte order mark at the start, which it drops.
#[verifier::external_body]
fn open_reader<'a>(input: &'a [u8]) -> (reader: Reader<&'a [u8]>)
    ensures
        reader_rest(reader) == xml_reads(input@),
        well_formed(read_prefix(reader_rest(reader))),
        forall|events: Seq<Ev>|
            #![trigger emitted_all(events)]
            input@ == emitted_all(events) && well_formed(events) && !starts_with_mark(events)
                ==> reader_rest(reader) == reads_of(events),
{
    Reader::from_reader(input)
}

/// `Reader::read_event` on a byte slice: hands out the next event and drops it from
/// what the reader holds, fails with the error in words where the next read fails, and
/// is at the end of the input where nothing is left.
#[verifier::external_body]
fn read_event<'a>(reader: &mut Reader<&'a [u8]>) -> (res: Result<XmlEvent, ReadFailure>)
    ensures
        reader_rest(*old(reader)).len() == 0 ==> res is Ok && res->Ok_0.kind == EventKind::Eof,
        reader_rest(*old(reader)).len() > 0 ==> match reader_rest(*old(reader))[0] {
            Ok(e) => {
                &&& res is Ok
                &&& res->Ok_0@ == e
                &&& e.kind != EventKind::Eof
                &&& reader_rest(*final(reader)) == reader_rest(*old(reader)).drop_first()
            },
            Err(text) => res is Err && res->Err_0.text@ == text,
        },
{
    let ev = reader.read_event().map_err(|error| ReadFailure { text: error.to_string(), error })?;
    let kind = match &ev {
        Event::Start(_) => EventKind::Start,
        Event::End(_) => EventKind::End,
        Event::Empty(_) => EventKind::Empty,
        Event::Text(_) => EventKind::Text,
        Event::CData(_) => EventKind::CData,
        Event::Comment(_) => EventKind::Comment,
        Event::Decl(_) => EventKind::Decl,
        Event::PI(_) => EventKind::PI,
        Event::DocType(_) => EventKind::DocType,
        Event::Eof => EventKind::Eof,
    };
    Ok(XmlEvent { kind, raw: ev.to_vec() })
}

/// The events before the first read that fails.
pub open spec fn read_prefix(reads: Seq<Result<Ev, Seq<char>>>) -> Seq<Ev>
    decreases reads.len(),
{
    if reads.len() == 0 {
        Seq::empty()
    } else {
        match reads[0] {
            Ok(e) => seq![e] + read_prefix(reads.drop_first()),
            Err(_) => Seq::empty(),
        }
    }
}

/// Every read succeeds.
pub open spec fn all_read(reads: Seq<Result<Ev, Seq<char>>>) -> bool {
    forall|i: int| 0 <= i < reads.len() ==> reads[i] is Ok
}

/// The error, in words, of the first read that fails.
pub open spec fn first_failure(reads: Seq<Result<Ev, Seq<char>>>) -> Seq<char>
    decreases reads.len(),
{
    if reads.len() == 0 {
        Seq::empty()
    } else {
        match reads[0] {
            Ok(_) => first_failure(reads.drop_first()),
            Err(text) => text,
        }
    }
}

/// The events of `input`, up to the first that cannot be read.
pub open spec fn xml_events(input: Seq<u8>) -> Seq<Ev> {
    read_prefix(xml_reads(input))
}

/// `input` can be read to its end.
pub open spec fn xml_readable(input: Seq<u8>) -> bool {
    all_read(xml_reads(input))
}

/// Why `input` cannot be read, in words.
pub open spec fn xml_failure(input: Seq<u8>) -> Seq<char> {
    first_failure(xml_reads(input))
}

/// Events that reading gives back where they were written.
pub open spec fn reads_back(events: Seq<Ev>) -> bool {
    xml_readable(emitted_all(events)) && xml_events(emitted_all(events)) == events
}

/// What every reader over `input` promises: the events are well-formed, and where
/// `input` was written from well-formed events, these are the events.
pub open spec fn is_read(input: Seq<u8>) -> bool {
    &&& well_formed(xml_events(input))
    &&& forall|events: Seq<Ev>|
        #![trigger emitted_all(events)]
        input == emitted_all(events) && well_formed(events) && !starts_with_mark(events)
            ==> reads_back(events)
}

proof fn lemma_reads_of(events: Seq<Ev>)
    ensures
        read_prefix(reads_of(events)) == events,
        all_read(reads_of(events)),
    decreases events.len(),
{
    if events.len() > 0 {
        let reads = reads_of(events);
        assert(reads.drop_first() =~= reads_of(events.drop_first()));
        lemma_reads_of(events.drop_first());
        assert(seq![events[0]] + events.drop_first() =~= events);
    } else {
        assert(read_prefix(reads_of(events)) =~= events);
    }
}

/// Reads the events of a part, up to the end or the first failure.
pub fn read_events(input: &[u8]) -> (res: (Vec<XmlEvent>, Option<ReadFailure>))
    ensures
        events_view(res.0@) == xml_events(input@),
        res.1 is None <==> xml_readable(input@),
        res.1 matches Some(f) ==> f.text@ == xml_failure(input@),
        is_read(input@),
{
    let mut reader = open_reader(input);
    proof {
        assert forall|events: Seq<Ev>|
            #![trigger emitted_all(events)]
            input@ == emitted_all(events) && well_formed(events) && !starts_with_mark(
                events,
            ) implies reads_back(events) by {
            lemma_reads_of(events);
        }
    }
    let mut events: Vec<XmlEvent> = Vec::new();
    let ghost reads = xml_reads(input@);
    assert(events_view(events@) + read_prefix(reads) =~= read_prefix(reads));
    assert(reads.skip(0) =~= reads);
    loop
        invariant
            reads == xml_reads(input@),
            is_read(input@),
            reader_rest(reader).len() <= reads.len(),
            reader_rest(reader) == reads.skip(reads.len() - reader_rest(reader).len()),
            forall|i: int|
                0 <= i < reads.len() - reader_rest(reader).len() ==> reads[i] is Ok,
            first_failure(reads) == first_failure(reader_rest(reader)),
            events_view(events@) + read_prefix(reader_rest(reader)) == read_prefix(reads),
        decreases reader_rest(reader).len(),
    {
        let ghost rest = reader_rest(reader);
        let ghost before = events@;
        match read_event(&mut reader) {
            Ok(ev) => {
                if ev.kind == EventKind::Eof {
                    proof {
                        assert(rest.len() == 0);
                        assert(events_view(events@) + read_prefix(rest) =~= events_view(events@));
                    }
                    return (events, None);
                }
                proof {
                    assert(rest.len() > 0);
                    assert(rest[0] == reads[reads.len() - rest.len()]);
                    assert(rest.drop_first() =~= reads.skip(reads.len() - (rest.len() - 1)));
                }
                events.push(ev);
                proof {
                    assert(events_view(events@) =~= events_view(before) + seq![ev@]);
                    assert(events_view(events@) + read_prefix(rest.drop_first()) =~= events_view(
                        before,
                    ) + read_prefix(rest));
                }
            },
            Err(e) => {
                proof {
                    assert(rest.len() > 0);
                    assert(rest[0] == reads[reads.len() - rest.len()]);
                    assert(events_view(events@) + read_prefix(rest) =~= events_view(events@));
                }
                return (events, Some(e));
            },
        }
    }
}

/// Reads a part to its end, or says which part could not be read.
pub fn parse_events(input: &[u8], part: &str) -> (res: Result<Vec<XmlEvent>, Error>)
    ensures
        match res {
            Ok(v) => xml_readable(input@) && events_view(v@) == xml_events(input@),
            Err(e) => !xml_readable(input@) && e.is_xml_parse(part@),
        },
        is_read(input@),
{
    let (events, failure) = read_events(input);
    match failure {
        None => Ok(events),
        Some(f) => Err(Error::XmlParse { part: part.to_owned(), source: f.error }),
    }
}

// ---------------------------------------------------------------------------
// Writing
// ---------------------------------------------------------------------------

/// The bytes an event is written as.
pub open spec fn emitted(e: Ev) -> Seq<u8> {
    match e.kind {
        EventKind::Start => lit("<") + e.raw + lit(">"),
        EventKind::End => lit("</") + e.raw + lit(">"),
        EventKind::Empty => lit("<") + e.raw + lit("/>"),
        EventKind::Text => e.raw,
        EventKind::CData => lit("<![CDATA[") + e.raw + lit("]]>"),
        EventKind::Comment => lit("<!--") + e.raw + lit("-->"),
        EventKind::Decl | EventKind::PI => lit("<?") + e.raw + lit("?>"),
        EventKind::DocType => lit("<!DOCTYPE ") + e.raw + lit(">"),
        EventKind::Eof => Seq::empty(),
    }
}

/// The bytes a sequence of events is written as.
pub open spec fn emitted_all(events: Seq<Ev>) -> Seq<u8>
    decreases events.len(),
{
    if events.len() == 0 {
        Seq::empty()
    } else {
        emitted_all(events.drop_last()) + emitted(events.last())
    }
}

/// Appends `before`, the bytes `raw` and `after`.
fn push_wrapped(out: &mut Vec<u8>, before: &str, raw: &[u8], after: &str)
    ensures
        final(out)@ == old(out)@ + (lit(before) + raw@ + lit(after)),
{
    push_str(out, before);
    push_all(out, raw);
    push_str(out, after);
    assert(out@ =~= old(out)@ + (lit(before) + raw@ + lit(after)));
}

/// Writes an event given by its kind and raw bytes.
pub fn emit_raw(out: &mut Vec<u8>, kind: EventKind, raw: &[u8])
    ensures
        final(out)@ == old(out)@ + emitted(Ev { kind, raw: raw@ }),
{
    match kind {
        EventKind::Start => push_wrapped(out, "<", raw, ">"),
        EventKind::End => push_wrapped(out, "</", raw, ">"),
        EventKind::Empty => push_wrapped(out, "<", raw, "/>"),
        EventKind::Text => push_all(out, raw),
        EventKind::CData => push_wrapped(out, "<![CDATA[", raw, "]]>"),
        EventKind::Comment => push_wrapped(out, "<!--", raw, "-->"),
        EventKind::Decl => push_wrapped(out, "<?", raw, "?>"),
        EventKind::PI => push_wrapped(out, "<?", raw, "?>"),
        EventKind::DocType => push_wrapped(out, "<!DOCTYPE ", raw, ">"),
        EventKind::Eof => {
            assert(out@ =~= old(out)@ + Seq::<u8>::empty());
        },
    }
}

/// Writes an event.
pub fn emit(out: &mut Vec<u8>, ev: &XmlEvent)
    ensures
        final(out)@ == old(out)@ + emitted(ev@),
{
    emit_raw(out, ev.kind, &ev.raw);
}

// ---------------------------------------------------------------------------
// Names and attributes
// ---------------------------------------------------------------------------

/// XML white space.
pub open spec fn is_xml_space(b: u8) -> bool {
    b == 0x20 || b == 0x09 || b == 0x0a || b == 0x0d
}

/// Length of the name that the content of a tag starts with: everything up to the
/// first white space, looked for from `from` on.
pub open spec fn name_end(raw: Seq<u8>, from: int) -> int
    decreases raw.len() - from,
{
    if from >= raw.len() || is_xml_space(raw[from]) {
        from
    } else {
        name_end(raw, from + 1)
    }
}

/// The name in a start or empty tag: the raw bytes up to the first white space. In
/// an end tag the raw bytes are the name.
pub open spec fn tag_name(e: Ev) -> Seq<u8> {
    if e.kind == EventKind::End {
        e.raw
    } else {
        e.raw.take(name_end(e.raw, 0))
    }
}

/// A start tag named `name`.
pub open spec fn is_start(e: Ev, name: &str) -> bool {
    e.kind == EventKind::Start && tag_name(e) == lit(name)
}

/// An end tag named `name`.
pub open spec fn is_end(e: Ev, name: &str) -> bool {
    e.kind == EventKind::End && tag_name(e) == lit(name)
}

/// An empty tag named `name`.
pub open spec fn is_empty_tag(e: Ev, name: &str) -> bool {
    e.kind == EventKind::Empty && tag_name(e) == lit(name)
}

/// The name is part of the tag.
pub proof fn lemma_name_end(raw: Seq<u8>, from: int)
    requires
        0 <= from <= raw.len(),
    ensures
        from <= name_end(raw, from) <= raw.len(),
    decreases raw.len() - from,
{
    if !(from >= raw.len() || is_xml_space(raw[from])) {
        lemma_name_end(raw, from + 1);
    }
}

impl XmlEvent {
    /// Length of the name at the start of the raw bytes.
    fn name_len(&self) -> (n: usize)
        ensures
            n <= self.raw@.len(),
            n == name_end(self.raw@, 0),
    {
        let mut n: usize = 0;
        while n < self.raw.len()
            invariant
                n <= self.raw@.len(),
                name_end(self.raw@, 0) == name_end(self.raw@, n as int),
            decreases self.raw@.len() - n,
        {
            let b: u8 = self.raw[n];
            if b == 0x20 || b == 0x09 || b == 0x0a || b == 0x0d {
                return n;
            }
            n += 1;
        }
        n
    }

    /// The tag's name.
    pub fn name(&self) -> (r: &[u8])
        ensures
            r@ == tag_name(self@),
    {
        if self.kind == EventKind::End {
            return self.raw.as_slice();
        }
        let n: usize = self.name_len();
        vstd::slice::slice_subrange(self.raw.as_slice(), 0, n)
    }

    /// Whether the tag is named `name`.
    pub fn has_name(&self, name: &str) -> (r: bool)
        ensures
            r == (tag_name(self@) == lit(name)),
    {
        is_str(self.name(), name)
    }

    /// Whether this is a start tag named `name`.
    pub fn is_start(&self, name: &str) -> (r: bool)
        ensures
            r == is_start(self@, name),
    {
        self.kind == EventKind::Start && self.has_name(name)
    }

    /// Whether this is an end tag named `name`.
    pub fn is_end(&self, name: &str) -> (r: bool)
        ensures
            r == is_end(self@, name),
    {
        self.kind == EventKind::End && self.has_name(name)
    }

    /// Whether this is an empty tag named `name`.
    pub fn is_empty_tag(&self, name: &str) -> (r: bool)
        ensures
            r == is_empty_tag(self@, name),
    {
        self.kind == EventKind::Empty && self.has_name(name)
    }

    /// A copy of the event.
    pub fn copy(&self) -> (r: XmlEvent)
        ensures
            r@ == self@,
    {
        XmlEvent { kind: self.kind, raw: crate::bytes::to_vec(&self.raw) }
    }
}

/// A tag that can have attributes.
pub open spec fn is_tag(e: Ev) -> bool {
    e.kind == EventKind::Start || e.kind == EventKind::Empty
}

/// One more attribute, written out.
pub open spec fn attr_bytes(key: Seq<u8>, value: Seq<u8>) -> Seq<u8> {
    lit(" ") + key + lit("=\"") + value + lit("\"")
}

/// Attributes, written out.
pub open spec fn attrs_bytes(attrs: Seq<At>) -> Seq<u8>
    decreases attrs.len(),
{
    if attrs.len() == 0 {
        Seq::empty()
    } else {
        attrs_bytes(attrs.drop_last()) + attr_bytes(attrs.last().key, attrs.last().value)
    }
}

/// An attribute that is read as it is written: its key holds no white space and none of
/// `= > " '`, its value no quotation mark.
pub open spec fn is_plain_attr(a: At) -> bool {
    &&& a.key.len() > 0
    &&& forall|i: int|
        0 <= i < a.key.len() ==> !is_xml_space(#[trigger] a.key[i]) && a.key[i] != 0x3d && a.key[i]
            != 0x3e && a.key[i] != 0x22 && a.key[i] != 0x27
    &&& !a.value.contains(0x22)
}

/// Every attribute is read as it is written.
pub open spec fn all_plain_attrs(attrs: Seq<At>) -> bool {
    forall|i: int| 0 <= i < attrs.len() ==> is_plain_attr(#[trigger] attrs[i])
}

/// A tag that consists of a name and of attributes that are read as they are written.
pub open spec fn is_tag_of(e: Ev, name: Seq<u8>, attrs: Seq<At>) -> bool {
    &&& is_tag(e)
    &&& is_token(e)
    &&& e.raw == name + attrs_bytes(attrs)
    &&& forall|i: int| 0 <= i < name.len() ==> !is_xml_space(#[trigger] name[i])
    &&& all_plain_attrs(attrs)
    &&& unique_keys(attrs)
}

/// No two attributes have the same key.
pub open spec fn unique_keys(attrs: Seq<At>) -> bool {
    forall|i: int, j: int|
        0 <= i < j < attrs.len() ==> (#[trigger] attrs[i]).key != (#[trigger] attrs[j]).key
}

/// The attributes of a tag that consists of a name and attributes are those attributes.
pub open spec fn attrs_read_back(e: Ev, checked: bool) -> bool {
    forall|name: Seq<u8>, attrs: Seq<At>|
        #[trigger] is_tag_of(e, name, attrs) ==> tag_attrs(e, checked) == attrs
}

/// What the attribute iterator of `quick-xml` yields on a tag written out in full,
/// with or without its check for duplicate keys. An item that it reports as
/// malformed stands as `None`.
pub uninterp spec fn tag_attributes(tag: Seq<u8>, checked: bool) -> Seq<Option<At>>;

/// The items of a vector of attributes or malformed attributes.
pub open spec fn items_view(v: Seq<Option<XmlAttr>>) -> Seq<Option<At>> {
    v.map_values(
        |a: Option<XmlAttr>|
            match a {
                Some(a) => Some(a@),
                None => None,
            },
    )
}

/// No two items have the same key.
pub open spec fn distinct_keys(items: Seq<Option<At>>) -> bool {
    forall|i: int, j: int|
        0 <= i < j < items.len() && items[i] is Some && items[j] is Some ==> (
        #[trigger] items[i])->0.key != (#[trigger] items[j])->0.key
}

/// `BytesStart::attributes`, with `Attributes::with_checks`, on the tag that `tag`
/// holds: everything the iterator yields, in order. With the check, a key that
/// already occurred is reported as malformed. Of a tag that was written as a name and
/// attributes with plain keys, in double quotes, these attributes are what it yields.
#[verifier::external_body]
fn list_attributes(tag: &[u8], checked: bool) -> (items: Vec<Option<XmlAttr>>)
    ensures
        items_view(items@) == tag_attributes(tag@, checked),
        checked ==> distinct_keys(items_view(items@)),
        forall|e: Ev, name: Seq<u8>, attrs: Seq<At>| #[trigger]
            is_tag_of(e, name, attrs) && tag@ == emitted(e) ==> items_view(items@)
                == attrs.map_values(|a: At| Some(a)),
{
    let mut reader = Reader::from_reader(tag);
    match reader.read_event() {
        Ok(Event::Start(s)) | Ok(Event::Empty(s)) => s
            .attributes()
            .with_checks(checked)
            .map(|a| a.ok().map(|a| XmlAttr { key: a.key.as_ref().to_vec(), value: a.value.to_vec() }))
            .collect(),
        _ => Vec::new(),
    }
}

/// The items that are not `None`, in order.
pub open spec fn well_formed_items(items: Seq<Option<At>>) -> Seq<At>
    decreases items.len(),
{
    if items.len() == 0 {
        Seq::empty()
    } else {
        match items.last() {
            Some(a) => well_formed_items(items.drop_last()).push(a),
            None => well_formed_items(items.drop_last()),
        }
    }
}

/// The well-formed attributes of a tag, in order. With `checked`, a key that
/// already occurred counts as malformed.
pub open spec fn tag_attrs(e: Ev, checked: bool) -> Seq<At> {
    well_formed_items(tag_attributes(emitted(e), checked))
}

proof fn lemma_unique_keys(items: Seq<Option<At>>)
    requires
        distinct_keys(items),
    ensures
        unique_keys(well_formed_items(items)),
        forall|i: int|
            0 <= i < well_formed_items(items).len() ==> items.contains(
                Some(#[trigger] well_formed_items(items)[i]),
            ),
    decreases items.len(),
{
    if items.len() > 0 {
        let init = items.drop_last();
        let w = well_formed_items(items);
        assert forall|i: int, j: int|
            0 <= i < j < init.len() && init[i] is Some && init[j] is Some implies (
        #[trigger] init[i])->0.key != (#[trigger] init[j])->0.key by {
            assert(items[i] == init[i] && items[j] == init[j]);
        }
        lemma_unique_keys(init);
        let wi = well_formed_items(init);
        assert forall|i: int| 0 <= i < wi.len() implies items.contains(
            Some(#[trigger] wi[i]),
        ) by {
            let k = choose|k: int| 0 <= k < init.len() && init[k] == Some(wi[i]);
            assert(items[k] == Some(wi[i]));
        }
        if items.last() is Some {
            let a = items.last()->0;
            assert(w == wi.push(a));
            assert(items[items.len() - 1] == Some(a));
            assert forall|i: int, j: int| 0 <= i < j < w.len() implies (#[trigger] w[i]).key != (
            #[trigger] w[j]).key by {
                if j == w.len() - 1 {
                    assert(w[i] == wi[i]);
                    let k = choose|k: int| 0 <= k < init.len() && init[k] == Some(wi[i]);
                    assert(items[k] == Some(wi[i]));
                } else {
                    assert(w[i] == wi[i] && w[j] == wi[j]);
                }
            }
        }
    }
}

proof fn lemma_all_items(attrs: Seq<At>)
    ensures
        well_formed_items(attrs.map_values(|a: At| Some(a))) == attrs,
    decreases attrs.len(),
{
    let items = attrs.map_values(|a: At| Some(a));
    if attrs.len() > 0 {
        lemma_all_items(attrs.drop_last());
        assert(items.drop_last() =~= attrs.drop_last().map_values(|a: At| Some(a)));
        assert(attrs.drop_last().push(attrs.last()) =~= attrs);
    } else {
        assert(well_formed_items(items) =~= attrs);
    }
}

/// The well-formed attributes of a tag.
pub fn attributes(ev: &XmlEvent, checked: bool) -> (r: Vec<XmlAttr>)
    ensures
        attrs_view(r@) == tag_attrs(ev@, checked),
        checked ==> unique_keys(attrs_view(r@)),
        attrs_read_back(ev@, checked),
{
    let mut tag: Vec<u8> = Vec::new();
    emit(&mut tag, ev);
    assert(tag@ =~= emitted(ev@));
    let mut items = list_attributes(&tag, checked);
    let ghost all = items_view(items@);
    proof {
        assert forall|name: Seq<u8>, attrs: Seq<At>| #[trigger]
            is_tag_of(ev@, name, attrs) implies tag_attrs(ev@, checked) == attrs by {
            lemma_all_items(attrs);
        }
        if checked {
            lemma_unique_keys(all);
        }
    }
    let n: usize = items.len();
    let mut r: Vec<XmlAttr> = Vec::new();
    let mut i: usize = 0;
    assert(attrs_view(r@) =~= well_formed_items(all.take(0)));
    while i < n
        invariant
            i <= n,
            n == items@.len(),
            n == all.len(),
            forall|j: int| i <= j < n ==> #[trigger] items_view(items@)[j] == all[j],
            attrs_view(r@) == well_formed_items(all.take(i as int)),
        decreases n - i,
    {
        let mut item: Option<XmlAttr> = None;
        let ghost rest = items_view(items@);
        assert(rest[i as int] == all[i as int]);
        std::mem::swap(&mut item, &mut items[i]);
        proof {
            assert(all.take(i + 1).drop_last() =~= all.take(i as int));
            assert(all.take(i + 1).last() == all[i as int]);
            assert forall|j: int| i + 1 <= j < n implies #[trigger] items_view(items@)[j] == all[j] by {
                assert(rest[j] == all[j]);
            }
        }
        if let Some(a) = item {
            let ghost before = r@;
            r.push(a);
            assert(attrs_view(r@) =~= attrs_view(before).push(a@));
        }
        i += 1;
    }
    assert(all.take(n as int) =~= all);
    r
}

/// The first attribute with the given key, looked for from `from` on.
pub open spec fn attr_index(attrs: Seq<At>, key: Seq<u8>, from: int) -> Option<int>
    decreases attrs.len() - from,
{
    if from >= attrs.len() {
        None
    } else if attrs[from].key == key {
        Some(from)
    } else {
        attr_index(attrs, key, from + 1)
    }
}

/// The value of the first attribute with the given key.
pub open spec fn attr_value(attrs: Seq<At>, key: &str) -> Option<Seq<u8>> {
    match attr_index(attrs, lit(key), 0) {
        Some(i) => Some(attrs[i].value),
        None => None,
    }
}

/// The position of the first attribute with the given key.
pub fn find_attr(attrs: &Vec<XmlAttr>, key: &str) -> (r: Option<usize>)
    ensures
        match r {
            Some(i) => i < attrs@.len() && attr_index(attrs_view(attrs@), lit(key), 0) == Some(
                i as int,
            ),
            None => attr_index(attrs_view(attrs@), lit(key), 0) is None,
        },
{
    let mut i: usize = 0;
    while i < attrs.len()
        invariant
            i <= attrs@.len(),
            attr_index(attrs_view(attrs@), lit(key), 0) == attr_index(
                attrs_view(attrs@),
                lit(key),
                i as int,
            ),
        decreases attrs@.len() - i,
    {
        assert(attrs_view(attrs@)[i as int] == attrs@[i as int]@);
        if is_str(&attrs[i].key, key) {
            return Some(i);
        }
        i += 1;
    }
    None
}

/// The value of a tag's first well-formed attribute with the given key.
pub fn get_attr(ev: &XmlEvent, key: &str) -> (r: Option<Vec<u8>>)
    ensures
        match r {
            Some(v) => attr_value(tag_attrs(ev@, true), key) == Some(v@),
            None => attr_value(tag_attrs(ev@, true), key) is None,
        },
{
    let attrs = attributes(ev, true);
    match find_attr(&attrs, key) {
        Some(i) => {
            assert(attrs_view(attrs@)[i as int] == attrs@[i as int]@);
            Some(crate::bytes::to_vec(&attrs[i].value))
        },
        None => None,
    }
}

// ---------------------------------------------------------------------------
// Text
// ---------------------------------------------------------------------------

/// What stands for a character in escaped text.
pub open spec fn escaped_char(c: char) -> Seq<char> {
    if c == '<' {
        "&lt;"@
    } else if c == '>' {
        "&gt;"@
    } else if c == '&' {
        "&amp;"@
    } else if c == '\'' {
        "&apos;"@
    } else if c == '"' {
        "&quot;"@
    } else {
        seq![c]
    }
}

/// `s` with the five special characters of XML escaped.
pub open spec fn escaped(s: Seq<char>) -> Seq<char>
    decreases s.len(),
{
    if s.len() == 0 {
        Seq::empty()
    } else {
        escaped(s.drop_last()) + escaped_char(s.last())
    }
}

/// What `quick-xml` makes of escaped text: `None` where the bytes are not UTF-8 or
/// hold an entity it does not know.
pub uninterp spec fn text_unescaped(raw: Seq<u8>) -> Option<Seq<char>>;

/// `quick_xml::escape::escape`: replaces `<`, `>`, `&`, `'` and `"` by their
/// entities and keeps every other character. Unescaping gives the text back.
#[verifier::external_body]
pub(crate) fn escape_text(text: &str) -> (r: String)
    ensures
        r@ == escaped(text@),
        text_unescaped(encode_utf8(r@)) == Some(text@),
{
    quick_xml::escape::escape(text).into_owned()
}

/// `BytesText::unescape`: decodes the bytes as UTF-8 and resolves the predefined
/// entities and character references.
#[verifier::external_body]
pub(crate) fn unescape_text(raw: &[u8]) -> (r: Result<String, quick_xml::Error>)
    ensures
        match r {
            Ok(s) => text_unescaped(raw@) == Some(s@),
            Err(_) => text_unescaped(raw@) is None,
        },
{
    let text = std::str::from_utf8(raw)?;
    Ok(quick_xml::events::BytesText::from_escaped(text).unescape()?.into_owned())
}

} // verus!
