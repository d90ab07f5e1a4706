//! Reading a document with quick_xml and building its tree.
use vstd::prelude::*;

use quick_xml::events::Event;
use quick_xml::Reader;

use crate::builder::{
    attr_map, lemma_run_concat, lemma_run_done, outcome, result_view, run, start,
    BuildError, EventModel, Progress, TreeBuilder, XmlEvent,
};
use crate::element::Element;

verus! {

/// quick_xml's error: carried through to the caller untouched.
#[verifier::external_type_specification]
#[verifier::external_body]
pub struct ExXmlError(quick_xml::Error);

/// quick_xml's pull reader.
#[verifier::external_type_specification]
#[verifier::external_body]
#[verifier::reject_recursive_types(R)]
pub struct ExReader<R>(quick_xml::Reader<R>);

/// The events, as modelled, that a reader over a byte slice yields from here
/// on: every one up to and including the end of the input, or, where reading
/// fails first, every one before the failure.
pub uninterp spec fn events_ahead(r: Reader<&[u8]>) -> Seq<EventModel>;

/// Whether a reader over a byte slice fails before it reaches the end of the input.
pub uninterp spec fn fails_ahead(r: Reader<&[u8]>) -> bool;

/// What a reader made by `Reader::from_str` over the text `s` yields: its events...
pub uninterp spec fn xml_events(s: Seq<char>) -> Seq<EventModel>;

/// ... and whether it fails before the end of the input.
pub uninterp spec fn xml_fails(s: Seq<char>) -> bool;

/// Relies on quick_xml::Reader::from_str: a reader over the bytes of `s`,
/// in its default configuration, so that what it yields depends on `s` alone.
pub assume_specification<'a>[ quick_xml::Reader::<&'a [u8]>::from_str ](s: &'a str) -> (r: Reader<&'a [u8]>)
    ensures
        events_ahead(r) == xml_events(s@),
        fails_ahead(r) == xml_fails(s@),
;

/// An event as the tokenizer hands it over, its names, values and text still bytes.
pub enum RawEvent {
    /// An opening tag, or a self-closing one where `closed` is set: its local
    /// name and its attributes as key and value, `None` for one that the
    /// tokenizer could not read.
    Start { name: Vec<u8>, attributes: Vec<Option<(Vec<u8>, Vec<u8>)>>, closed: bool },
    Text(Vec<u8>),
    End,
    Eof,
    Other,
}

/// The attributes that a raw start tag gives its element, once decoded.
pub open spec fn raw_attr_map(s: Seq<Option<(Vec<u8>, Vec<u8>)>>) -> Map<Seq<char>, Seq<char>>
    decreases s.len(),
{
    if s.len() == 0 {
        Map::empty()
    } else {
        let m = raw_attr_map(s.drop_last());
        match s.last() {
            Some(p) => m.insert(utf8_lossy(p.0@), utf8_lossy(p.1@)),
            None => m,
        }
    }
}

/// The model of a raw event once decoded.
pub open spec fn raw_view(ev: RawEvent) -> EventModel {
    match ev {
        RawEvent::Start { name, attributes, closed } => if closed {
            EventModel::Empty(utf8_lossy(name@), raw_attr_map(attributes@))
        } else {
            EventModel::Start(utf8_lossy(name@), raw_attr_map(attributes@))
        },
        RawEvent::Text(t) => EventModel::Text(utf8_lossy(t@)),
        RawEvent::End => EventModel::End,
        RawEvent::Eof => EventModel::Eof,
        RawEvent::Other => EventModel::Other,
    }
}

/// Relies on quick_xml::Reader::<&[u8]>::read_event: the next event. Reading
/// depends on the reader's value alone (its remaining slice and its state),
/// so the event is the first of those ahead, and an error comes exactly
/// where no event is left before a failure.
#[verifier::external_body]
fn read_raw(reader: &mut Reader<&[u8]>) -> (r: Result<RawEvent, quick_xml::Error>)
    ensures
        r is Err <==> (fails_ahead(*old(reader)) && events_ahead(*old(reader)).len() == 0),
        r is Ok ==> events_ahead(*old(reader)).len() > 0
            && events_ahead(*old(reader))[0] == raw_view(r.unwrap()),
        r is Ok && !(r.unwrap() is Eof) ==> events_ahead(*old(reader)) == seq![raw_view(r.unwrap())] + events_ahead(*final(reader))
            && fails_ahead(*final(reader)) == fails_ahead(*old(reader)),
        r is Ok && r.unwrap() is Eof ==> events_ahead(*old(reader)) == seq![EventModel::Eof] && !fails_ahead(*old(reader)),
{
    let ev = reader.read_event()?;
    Ok(match &ev {
        Event::Start(e) | Event::Empty(e) => RawEvent::Start {
            name: e.local_name().as_ref().to_vec(),
            attributes: e.attributes().map(|a| a.ok().map(|a| (a.key.as_ref().to_vec(), a.value.to_vec()))).collect(),
            closed: matches!(ev, Event::Empty(_)),
        },
        Event::Text(t) => RawEvent::Text(t.to_vec()),
        Event::End(_) => RawEvent::End,
        Event::Eof => RawEvent::Eof,
        _ => RawEvent::Other,
    })
}

/// What `String::from_utf8_lossy` makes of a byte sequence.
pub uninterp spec fn utf8_lossy(b: Seq<u8>) -> Seq<char>;

/// Relies on String::from_utf8_lossy: the text of `b`, each invalid sequence
/// replaced by U+FFFD; no bytes give no text.
#[verifier::external_body]
fn lossy_text(b: &[u8]) -> (r: String)
    ensures
        r@ == utf8_lossy(b@),
        b@.len() == 0 ==> r@.len() == 0,
{
    String::from_utf8_lossy(b).into_owned()
}

/// `a` is the decoded form of the raw attribute `raw`.
pub open spec fn decodes_attribute(raw: Option<(Vec<u8>, Vec<u8>)>, a: Option<(String, String)>) -> bool {
    match raw {
        Some(p) => match a {
            Some(q) => q.0@ == utf8_lossy(p.0@) && q.1@ == utf8_lossy(p.1@),
            None => false,
        },
        None => a is None,
    }
}

/// `a` holds the decoded forms of the raw attributes `raw`, in the same order.
pub open spec fn decodes_attributes(raw: Seq<Option<(Vec<u8>, Vec<u8>)>>, a: Seq<Option<(String, String)>>) -> bool {
    &&& a.len() == raw.len()
    &&& forall|i: int| 0 <= i < a.len() ==> decodes_attribute(#[trigger] raw[i], a[i])
}

proof fn lemma_decoded_attr_map(raw: Seq<Option<(Vec<u8>, Vec<u8>)>>, a: Seq<Option<(String, String)>>)
    requires
        decodes_attributes(raw, a),
    ensures
        attr_map(a) == raw_attr_map(raw),
    decreases raw.len(),
{
    if raw.len() > 0 {
        assert(decodes_attribute(raw[raw.len() - 1], a[a.len() - 1]));
        assert forall|i: int| 0 <= i < a.len() - 1 implies decodes_attribute(#[trigger] raw.drop_last()[i], a.drop_last()[i]) by {
            assert(decodes_attribute(raw[i], a[i]));
        }
        lemma_decoded_attr_map(raw.drop_last(), a.drop_last());
    }
}

/// `ev` is the decoded form of the raw event `raw`: every name, value and
/// text decoded, attributes in the same order.
pub open spec fn decodes(raw: RawEvent, ev: XmlEvent) -> bool {
    match raw {
        RawEvent::Start { name, attributes, closed } => match ev {
            XmlEvent::Start { name: n, attributes: a } => {
                &&& !closed
                &&& n@ == utf8_lossy(name@)
                &&& decodes_attributes(attributes@, a@)
            },
            XmlEvent::Empty { name: n, attributes: a } => {
                &&& closed
                &&& n@ == utf8_lossy(name@)
                &&& decodes_attributes(attributes@, a@)
            },
            _ => false,
        },
        RawEvent::Text(t) => match ev {
            XmlEvent::Text(s) => s@ == utf8_lossy(t@),
            _ => false,
        },
        RawEvent::End => ev is End,
        RawEvent::Eof => ev is Eof,
        RawEvent::Other => ev is Other,
    }
}

/// Decodes the names, values and text of a raw event.
pub fn decode_event(raw: RawEvent) -> (r: XmlEvent)
    ensures
        decodes(raw, r),
        r@ == raw_view(raw),
{
    let ghost raw_copy = raw;
    let r = match raw {
        RawEvent::Start { name, attributes, closed } => {
            let mut decoded: Vec<Option<(String, String)>> = Vec::new();
            let mut i: usize = 0;
            while i < attributes.len()
                invariant
                    i <= attributes@.len(),
                    decoded@.len() == i,
                    forall|j: int| 0 <= j < i ==> decodes_attribute(#[trigger] attributes@[j], decoded@[j]),
                decreases attributes@.len() - i,
            {
                let a = match &attributes[i] {
                    Some(p) => Some((lossy_text(p.0.as_slice()), lossy_text(p.1.as_slice()))),
                    None => None,
                };
                decoded.push(a);
                i = i + 1;
            }
            proof {
                lemma_decoded_attr_map(attributes@, decoded@);
            }
            let n = lossy_text(name.as_slice());
            if closed {
                XmlEvent::Empty { name: n, attributes: decoded }
            } else {
                XmlEvent::Start { name: n, attributes: decoded }
            }
        },
        RawEvent::Text(t) => XmlEvent::Text(lossy_text(t.as_slice())),
        RawEvent::End => XmlEvent::End,
        RawEvent::Eof => XmlEvent::Eof,
        RawEvent::Other => XmlEvent::Other,
    };
    r
}

/// How a build over `evs` ends when reading fails right after them: the
/// outcome where the events already finished it, else the tokenizer's error.
pub open spec fn ends_as_failed(evs: Seq<EventModel>, r: Result<Element, BuildError>) -> bool {
    match run(Progress::Open(start()), evs) {
        Progress::Done(res) => result_view(r) == res,
        Progress::Open(_) => r matches Err(BuildError::Xml(_)),
    }
}

impl Element {
    /// Reads events from `reader` and builds the document's tree. It stops
    /// at the end of the input, at the first event that ends the build, or
    /// at the first tokenizer failure, which it hands on as `BuildError::Xml`.
    pub fn from_reader(reader: Reader<&[u8]>) -> (r: Result<Element, BuildError>)
        ensures
            !fails_ahead(reader) ==> result_view(r) == outcome(events_ahead(reader)),
            fails_ahead(reader) ==> ends_as_failed(events_ahead(reader), r),
    {
        let ghost all = events_ahead(reader);
        let ghost fails = fails_ahead(reader);
        let mut source = reader;
        let mut builder = TreeBuilder::new();
        let ghost mut seen: Seq<EventModel> = Seq::empty();
        assert(all =~= seen + events_ahead(source));
        loop
            invariant
                all == events_ahead(reader),
                fails == fails_ahead(reader),
                all == seen + events_ahead(source),
                fails == fails_ahead(source),
                run(Progress::Open(start()), seen) == Progress::Open(builder@),
            decreases events_ahead(source).len(),
        {
            let ghost before = source;
            let raw = match read_raw(&mut source) {
                Ok(raw) => raw,
                Err(e) => {
                    proof {
                        assert(all =~= seen);
                    }
                    return Err(BuildError::Xml(e));
                },
            };
            let ghost rest = events_ahead(source);
            let ev = decode_event(raw);
            let ghost em = ev@;
            let ghost next = seen.push(em);
            proof {
                assert(next.drop_last() =~= seen);
                assert(em == events_ahead(before)[0]);
            }
            match builder.feed(ev) {
                Some(res) => {
                    proof {
                        let tail = all.skip(next.len() as int);
                        assert(all =~= next + tail) by {
                            if !(em is Eof) {
                                assert(events_ahead(before) =~= seq![em] + rest);
                            }
                        }
                        lemma_run_concat(Progress::Open(start()), next, tail);
                        lemma_run_done(result_view(res), tail);
                        let tail2 = tail.push(EventModel::Eof);
                        assert(all.push(EventModel::Eof) =~= next + tail2);
                        lemma_run_concat(Progress::Open(start()), next, tail2);
                        lemma_run_done(result_view(res), tail2);
                    }
                    return res;
                },
                None => {
                    proof {
                        assert(!(em is Eof));
                        assert(all =~= next + rest);
                        seen = next;
                    }
                },
            }
        }
    }
}

impl std::str::FromStr for Element {
    type Err = BuildError;

    /// Builds the tree of the document `s`, read by quick_xml.
    fn from_str(s: &str) -> (r: Result<Element, BuildError>)
        ensures
            !xml_fails(s@) ==> result_view(r) == outcome(xml_events(s@)),
            xml_fails(s@) ==> ends_as_failed(xml_events(s@), r),
    {
        Element::from_reader(Reader::from_str(s))
    }
}

} // verus!
