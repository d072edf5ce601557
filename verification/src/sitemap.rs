//! Reading the addresses of the pages out of a sitemap.

use crate::bytes::{is_name, name};
use quick_xml::events::Event;
use vstd::prelude::*;

verus! {

/// A reader of XML events over the bytes of a text.
#[verifier::external_type_specification]
#[verifier::external_body]
#[verifier::reject_recursive_types(R)]
pub struct ExReader<R>(quick_xml::Reader<R>);

/// What a reader of XML gives at one step.
#[derive(Debug)]
pub enum XmlEvent {
    /// A start tag, with its name.
    Start(Vec<u8>),
    /// An end tag.
    End,
    /// An empty element tag.
    Empty,
    /// Character data between tags, as it is written.
    Text(String),
    /// Character data in a `CDATA` section.
    CData,
    /// A comment.
    Comment,
    /// The XML declaration.
    Decl,
    /// A processing instruction.
    PI,
    /// A document type definition.
    DocType,
    /// A reference to an entity or a character.
    GeneralRef,
    /// The end of the document.
    Eof,
    /// What could not be read.
    Failed,
}

/// An XML event as a mathematical value.
pub enum XmlEventValue {
    Start(Seq<u8>),
    End,
    Empty,
    Text(Seq<char>),
    CData,
    Comment,
    Decl,
    PI,
    DocType,
    GeneralRef,
    Eof,
    Failed,
}

impl View for XmlEvent {
    type V = XmlEventValue;

    open spec fn view(&self) -> XmlEventValue {
        match self {
            XmlEvent::Start(n) => XmlEventValue::Start(n@),
            XmlEvent::End => XmlEventValue::End,
            XmlEvent::Empty => XmlEventValue::Empty,
            XmlEvent::Text(t) => XmlEventValue::Text(t@),
            XmlEvent::CData => XmlEventValue::CData,
            XmlEvent::Comment => XmlEventValue::Comment,
            XmlEvent::Decl => XmlEventValue::Decl,
            XmlEvent::PI => XmlEventValue::PI,
            XmlEvent::DocType => XmlEventValue::DocType,
            XmlEvent::GeneralRef => XmlEventValue::GeneralRef,
            XmlEvent::Eof => XmlEventValue::Eof,
            XmlEvent::Failed => XmlEventValue::Failed,
        }
    }
}

/// The events that a reader has ahead of it, up to the end of the document.
pub uninterp spec fn events_ahead(reader: quick_xml::Reader<&[u8]>) -> Seq<XmlEventValue>;

/// The events of an XML text, up to the end of the document.
pub uninterp spec fn xml_events(xml: Seq<char>) -> Seq<XmlEventValue>;

/// `quick_xml::Reader::from_str`: a reader over a text. It is taken on trust
/// that the reader has the events of the text ahead of it, which depend on
/// the text alone.
#[verifier::external_body]
fn open_reader(xml: &str) -> (reader: quick_xml::Reader<&[u8]>)
    ensures
        events_ahead(reader) == xml_events(xml@),
{
    quick_xml::Reader::from_str(xml)
}

/// `quick_xml::Reader::read_event` on a reader over a slice. It is taken on
/// trust that a step gives the first of the events ahead and leaves the
/// others, and that after the end of the document every step gives the end
/// again. What a step gives is kept kind by kind; what could not be read
/// is `Failed`.
#[verifier::external_body]
fn read_event(reader: &mut quick_xml::Reader<&[u8]>) -> (event: XmlEvent)
    ensures
        events_ahead(*old(reader)).len() > 0 ==> event@ == events_ahead(*old(reader))[0]
            && events_ahead(*final(reader)) == events_ahead(*old(reader)).drop_first(),
        events_ahead(*old(reader)).len() == 0 ==> event@ == XmlEventValue::Eof && events_ahead(
            *final(reader),
        ).len() == 0,
{
    match reader.read_event() {
        Ok(Event::Start(e)) => XmlEvent::Start(e.name().as_ref().as_bytes().to_vec()),
        Ok(Event::End(_)) => XmlEvent::End,
        Ok(Event::Empty(_)) => XmlEvent::Empty,
        Ok(Event::Text(t)) => XmlEvent::Text(t.into_inner().into_owned()),
        Ok(Event::CData(_)) => XmlEvent::CData,
        Ok(Event::Comment(_)) => XmlEvent::Comment,
        Ok(Event::Decl(_)) => XmlEvent::Decl,
        Ok(Event::PI(_)) => XmlEvent::PI,
        Ok(Event::DocType(_)) => XmlEvent::DocType,
        Ok(Event::GeneralRef(_)) => XmlEvent::GeneralRef,
        Ok(Event::Eof) => XmlEvent::Eof,
        Err(_) => XmlEvent::Failed,
    }
}

/// Whether an event is the start of a `loc` element.
pub open spec fn starts_loc(e: XmlEventValue) -> bool {
    e == XmlEventValue::Start(name("loc"))
}

/// The addresses in a sequence of events: after each start of a `loc`
/// element the next event is taken, and kept if it is text. Reading stops
/// at the end of the document and at what could not be read.
pub open spec fn links_in(events: Seq<XmlEventValue>) -> Seq<Seq<char>>
    decreases events.len(),
{
    if events.len() == 0 {
        Seq::empty()
    } else if events[0] is Eof || events[0] is Failed {
        Seq::empty()
    } else if starts_loc(events[0]) {
        if events.len() == 1 {
            Seq::empty()
        } else {
            match events[1] {
                XmlEventValue::Text(t) => seq![t] + links_in(events.skip(2)),
                _ => links_in(events.skip(2)),
            }
        }
    } else {
        links_in(events.skip(1))
    }
}

/// The texts of a list of strings.
pub open spec fn texts(list: Seq<String>) -> Seq<Seq<char>> {
    Seq::new(list.len(), |i: int| list[i]@)
}

/// The values of a list of events.
pub open spec fn event_values(list: Seq<XmlEvent>) -> Seq<XmlEventValue> {
    Seq::new(list.len(), |i: int| list[i]@)
}

/// Whether an event is the start of a `loc` element.
fn is_loc_start(event: &XmlEvent) -> (r: bool)
    ensures
        r == starts_loc(event@),
{
    match event {
        XmlEvent::Start(n) => is_name(n.as_slice(), "loc"),
        _ => false,
    }
}

/// The addresses in a list of events.
pub fn links_of_events(events: Vec<XmlEvent>) -> (links: Vec<String>)
    ensures
        texts(links@) == links_in(event_values(events@)),
{
    let ghost all = event_values(events@);
    let mut list = events;
    let n = list.len();
    let mut links: Vec<String> = Vec::new();
    let mut i: usize = 0;
    proof {
        assert(all.skip(0) =~= all);
        assert(texts(links@) =~= Seq::<Seq<char>>::empty());
        assert(Seq::<Seq<char>>::empty() + links_in(all) =~= links_in(all));
    }
    while i < n
        invariant
            i <= n,
            n == list@.len(),
            all.len() == n,
            all == event_values(events@),
            forall|j: int| i <= j < n ==> all[j] == list@[j]@,
            links_in(all) == texts(links@) + links_in(all.skip(i as int)),
        decreases n - i,
    {
        let ghost rest = all.skip(i as int);
        proof {
            assert(rest[0] == all[i as int]);
            assert(rest.skip(1) =~= all.skip(i + 1));
            assert(texts(links@) + Seq::<Seq<char>>::empty() =~= texts(links@));
        }
        match &list[i] {
            XmlEvent::Eof | XmlEvent::Failed => {
                return links;
            },
            _ => {},
        }
        if is_loc_start(&list[i]) {
            if i + 1 < n {
                proof {
                    assert(rest[1] == all[i + 1]);
                    assert(rest.skip(2) =~= all.skip(i + 2));
                }
                let mut taken = XmlEvent::Eof;
                core::mem::swap(&mut list[i + 1], &mut taken);
                if let XmlEvent::Text(t) = taken {
                    let ghost before = texts(links@);
                    links.push(t);
                    proof {
                        assert(texts(links@) =~= before + seq![t@]);
                        assert(before + (seq![t@] + links_in(all.skip(i + 2))) =~= (before + seq![t@])
                            + links_in(all.skip(i + 2)));
                    }
                }
                i += 2;
            } else {
                return links;
            }
        } else {
            i += 1;
        }
    }
    proof {
        assert(all.skip(n as int) =~= Seq::<XmlEventValue>::empty());
        assert(texts(links@) + Seq::<Seq<char>>::empty() =~= texts(links@));
    }
    links
}

/// The addresses that a sitemap lists: the text after each start of a `loc`
/// element.
pub fn sitemap_links(xml: &str) -> (links: Vec<String>)
    ensures
        texts(links@) == links_in(xml_events(xml@)),
{
    let mut reader = open_reader(xml);
    let ghost all = events_ahead(reader);
    let mut links: Vec<String> = Vec::new();
    proof {
        assert(texts(links@) =~= Seq::<Seq<char>>::empty());
        assert(Seq::<Seq<char>>::empty() + links_in(all) =~= links_in(all));
    }
    loop
        invariant
            links_in(all) == texts(links@) + links_in(events_ahead(reader)),
            all == xml_events(xml@),
        decreases events_ahead(reader).len(),
    {
        let ghost ahead = events_ahead(reader);
        let event = read_event(&mut reader);
        proof {
            if ahead.len() > 0 {
                assert(ahead.skip(1) =~= ahead.drop_first());
            }
            assert(texts(links@) + Seq::<Seq<char>>::empty() =~= texts(links@));
        }
        match &event {
            XmlEvent::Eof | XmlEvent::Failed => {
                return links;
            },
            _ => {},
        }
        if is_loc_start(&event) {
            let ghost after = events_ahead(reader);
            let next = read_event(&mut reader);
            proof {
                if after.len() > 0 {
                    assert(after.drop_first() =~= ahead.skip(2));
                    assert(after[0] == ahead[1]);
                } else {
                    assert(links_in(events_ahead(reader)) =~= Seq::<Seq<char>>::empty());
                }
            }
            if let XmlEvent::Text(t) = next {
                let ghost before = texts(links@);
                links.push(t);
                proof {
                    assert(texts(links@) =~= before + seq![t@]);
                    assert(before + (seq![t@] + links_in(ahead.skip(2))) =~= (before + seq![t@])
                        + links_in(ahead.skip(2)));
                }
            }
        }
    }
}

} // verus!
