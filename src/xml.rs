//! quick-xml's reader over a document held in memory. What it returns is named as a
//! function of the document and of the calls made on the reader so far.
use vstd::prelude::*;

verus! {

#[verifier::external_type_specification]
#[verifier::external_body]
pub struct ExXmlError(quick_xml::Error);

/// A `quick_xml::Reader` over a byte slice, opaque to proofs.
#[verifier::external_body]
pub struct XmlInner<'a> {
    reader: quick_xml::Reader<&'a [u8]>,
}

/// An XML event, as far as the metadata needs to tell them apart.
pub enum XmlEvent {
    /// A start tag, with its name.
    Start(Vec<u8>),
    /// The end of the document.
    Eof,
    /// Anything else.
    Other,
}

/// Event kind: a start tag.
pub const EVENT_START: u8 = 0;
/// Event kind: the end of the document.
pub const EVENT_EOF: u8 = 1;
/// Event kind: any other event.
pub const EVENT_OTHER: u8 = 2;
/// Event kind: a reader error.
pub const EVENT_ERROR: u8 = 3;

/// What `quick_xml::Reader::read_event` returns on a reader made by `from_reader` over
/// `doc`, with text trimming on, after the calls `calls` (`None` for `read_event`,
/// `Some(end)` for `read_text(end)`): the kind of event and, for a start tag, its name.
pub uninterp spec fn xml_event_at(doc: Seq<u8>, calls: Seq<Option<Seq<u8>>>) -> (u8, Seq<u8>);

/// What `quick_xml::Reader::read_text(end)` returns on such a reader after the calls
/// `calls`: the text as UTF-8 bytes, or `None` for an error.
pub uninterp spec fn xml_text_at(doc: Seq<u8>, calls: Seq<Option<Seq<u8>>>, end: Seq<u8>) -> Option<Seq<u8>>;

/// A reader over `doc`, with the calls made on it so far.
pub struct XmlReader<'a> {
    inner: XmlInner<'a>,
    doc: Ghost<Seq<u8>>,
    calls: Ghost<Seq<Option<Seq<u8>>>>,
}

/// Relies on `quick_xml::Reader::from_reader`: a reader at the start of `xml`.
#[verifier::external_body]
fn xml_from_reader<'a>(xml: &'a [u8]) -> XmlInner<'a> {
    XmlInner { reader: quick_xml::Reader::from_reader(xml) }
}

/// Relies on `quick_xml::Reader::trim_text`: text events lose surrounding whitespace.
#[verifier::external_body]
fn xml_trim_text(inner: &mut XmlInner) {
    inner.reader.trim_text(true);
}

/// Relies on `quick_xml::Reader::read_event`: the next event of the document, which
/// depends on the document and the calls made before.
#[verifier::external_body]
fn xml_read_event(reader: &mut XmlReader) -> (r: Result<XmlEvent, quick_xml::Error>)
    ensures
        final(reader).doc@ == old(reader).doc@,
        final(reader).calls@ == old(reader).calls@.push(None),
        match r {
            Ok(XmlEvent::Start(name)) => xml_event_at(old(reader).doc@, old(reader).calls@) == (
                EVENT_START,
                name@,
            ),
            Ok(XmlEvent::Eof) => xml_event_at(old(reader).doc@, old(reader).calls@).0 == EVENT_EOF,
            Ok(XmlEvent::Other) => xml_event_at(old(reader).doc@, old(reader).calls@).0
                == EVENT_OTHER,
            Err(_) => xml_event_at(old(reader).doc@, old(reader).calls@).0 == EVENT_ERROR,
        },
{
    let mut buf = Vec::new();
    match reader.inner.reader.read_event(&mut buf) {
        Ok(quick_xml::events::Event::Start(e)) => Ok(XmlEvent::Start(e.name().to_vec())),
        Ok(quick_xml::events::Event::Eof) => Ok(XmlEvent::Eof),
        Ok(_) => Ok(XmlEvent::Other),
        Err(e) => Err(e),
    }
}

/// Relies on `quick_xml::Reader::read_text`: the text of the element just opened, up
/// to its end tag `end`, which depends on the document and the calls made before.
#[verifier::external_body]
fn xml_read_text(reader: &mut XmlReader, end: &[u8]) -> (r: Result<Vec<u8>, quick_xml::Error>)
    ensures
        final(reader).doc@ == old(reader).doc@,
        final(reader).calls@ == old(reader).calls@.push(Some(end@)),
        match r {
            Ok(t) => xml_text_at(old(reader).doc@, old(reader).calls@, end@) == Some(t@),
            Err(_) => xml_text_at(old(reader).doc@, old(reader).calls@, end@) is None,
        },
{
    match reader.inner.reader.read_text(end, &mut Vec::new()) {
        Ok(s) => Ok(s.into_bytes()),
        Err(e) => Err(e),
    }
}

impl<'a> XmlReader<'a> {
    /// The document read.
    pub closed spec fn doc(&self) -> Seq<u8> {
        self.doc@
    }

    /// The calls made so far.
    pub closed spec fn calls(&self) -> Seq<Option<Seq<u8>>> {
        self.calls@
    }

    /// A reader over `xml` that trims text, with no call made yet.
    pub fn new(xml: &'a [u8]) -> (r: XmlReader<'a>)
        ensures
            r.doc() == xml@,
            r.calls() == Seq::<Option<Seq<u8>>>::empty(),
    {
        let mut inner = xml_from_reader(xml);
        xml_trim_text(&mut inner);
        XmlReader { inner, doc: Ghost(xml@), calls: Ghost(Seq::empty()) }
    }

    /// The next event.
    pub fn read_event(&mut self) -> (r: Result<XmlEvent, quick_xml::Error>)
        ensures
            final(self).doc() == old(self).doc(),
            final(self).calls() == old(self).calls().push(None),
            match r {
                Ok(XmlEvent::Start(name)) => xml_event_at(old(self).doc(), old(self).calls()) == (
                    EVENT_START,
                    name@,
                ),
                Ok(XmlEvent::Eof) => xml_event_at(old(self).doc(), old(self).calls()).0 == EVENT_EOF,
                Ok(XmlEvent::Other) => xml_event_at(old(self).doc(), old(self).calls()).0
                    == EVENT_OTHER,
                Err(_) => xml_event_at(old(self).doc(), old(self).calls()).0 == EVENT_ERROR,
            },
    {
        xml_read_event(self)
    }

    /// The text of the element just opened, up to its end tag `end`.
    pub fn read_text(&mut self, end: &[u8]) -> (r: Result<Vec<u8>, quick_xml::Error>)
        ensures
            final(self).doc() == old(self).doc(),
            final(self).calls() == old(self).calls().push(Some(end@)),
            match r {
                Ok(t) => xml_text_at(old(self).doc(), old(self).calls(), end@) == Some(t@),
                Err(_) => xml_text_at(old(self).doc(), old(self).calls(), end@) is None,
            },
    {
        xml_read_text(self, end)
    }
}

} // verus!
