//! The external event source: a pull parser over markup text, consumed
//! event by event and fed to the builder.
//!
//! The parser itself — lexing, namespace resolution, attribute
//! un-escaping — is the xml crate's work and is not re-implemented here.
//! What it yields for a given text is named by the uninterpreted
//! functions below, and everything after the pull is verified: the
//! events are collected in order and handed to [`build`].

use vstd::prelude::*;

use crate::builder::{build, build_model, BuildError, BuildErrorV, Event, EventV};
use crate::dom::{wf, Attribute, Document, DocumentV, Namespace, QName};

verus! {

/// The xml crate's pull parser over an in-memory copy of the text,
/// opaque to verification; its state is described only through
/// [`reader_events`].
#[verifier::external_body]
pub struct EventSource {
    inner: xml::reader::EventReader<std::io::Cursor<Vec<u8>>>,
}

/// The events a reader will still yield, in order, up to its end: the
/// whole document's events for a fresh reader, cut after the first
/// source error if the text is malformed.
pub uninterp spec fn reader_events(r: EventSource) -> Seq<EventV>;

/// The event sequence the parser yields for a given text. The parser is
/// deterministic, so this is a function of the characters alone.
pub uninterp spec fn events_of(s: Seq<char>) -> Seq<EventV>;

/// Relies on `xml::reader::EventReader::new`: a fresh pull parser over
/// the bytes of `s` that will yield exactly the events of `s`.
#[verifier::external_body]
fn reader_from_str(s: &str) -> (r: EventSource)
    ensures
        reader_events(r) == events_of(s@),
{
    EventSource { inner: xml::reader::EventReader::new(std::io::Cursor::new(s.as_bytes().to_vec())) }
}

/// The xml crate's event type, opaque here; only the conversion wrapper
/// below looks inside one.
#[verifier::external_type_specification]
#[verifier::external_body]
pub struct ExXmlEvent(xml::reader::XmlEvent);

/// Relies on the fields of `xml::reader::XmlEvent`'s `StartElement`
/// variant: moves the qualified name, the ordered attribute list, and
/// the namespace snapshot into the library's event, one for one. Any
/// other variant handed to it counts as informational metadata.
#[verifier::external_body]
fn convert_start(ev: xml::reader::XmlEvent) -> (r: Event) {
    let qn = |n: xml::name::OwnedName| QName {
        local_name: n.local_name,
        prefix: n.prefix,
        namespace: n.namespace,
    };
    match ev {
        xml::reader::XmlEvent::StartElement { name, attributes, namespace } => Event::StartElement {
            name: qn(name),
            attributes: attributes.into_iter().map(|a| Attribute { name: qn(a.name), value: a.value }).collect(),
            namespace: Namespace { entries: namespace.0.into_iter().collect() },
        },
        _ => Event::Metadata,
    }
}

/// Relies on `xml::reader::EventReader::next`: yields the parser's next
/// event, converted to the library's event type; `None` stands for the
/// end of the document. Its documentation states that after an error or
/// the document's end, every further call returns the same again — so a
/// source error is terminal in [`reader_events`] and the end state
/// yields `None` forever.
#[verifier::external_body]
fn next_event(r: &mut EventSource) -> (ev: Option<Event>)
    ensures
        reader_events(*old(r)).len() == 0 ==> ev is None && reader_events(*final(r))
            == reader_events(*old(r)),
        reader_events(*old(r)).len() > 0 ==> ev is Some && ev->0.deep_view() == reader_events(
            *old(r),
        ).first(),
        reader_events(*old(r)).len() > 0 && !(reader_events(*old(r)).first() is SourceError)
            ==> reader_events(*final(r)) == reader_events(*old(r)).drop_first(),
        reader_events(*old(r)).len() > 0 && reader_events(*old(r)).first() is SourceError
            ==> reader_events(*old(r)).len() == 1 && reader_events(*final(r)) == reader_events(
            *old(r),
        ),
{
    match r.inner.next() {
        Ok(ev @ xml::reader::XmlEvent::StartElement { .. }) => Some(convert_start(ev)),
        Ok(xml::reader::XmlEvent::EndElement { .. }) => Some(Event::EndElement),
        Ok(xml::reader::XmlEvent::Characters(c)) => Some(Event::Text { content: c }),
        Ok(xml::reader::XmlEvent::CData(c)) => Some(Event::Text { content: c }),
        Ok(xml::reader::XmlEvent::EndDocument) => None,
        Ok(_) => Some(Event::Metadata),
        Err(e) => Some(Event::SourceError { message: e.msg() }),
    }
}

/// Pulls every event the parser yields for `s`, in order.
fn read_events(s: &str) -> (evs: Vec<Event>)
    ensures
        evs.deep_view() == events_of(s@),
{
    let mut r = reader_from_str(s);
    let mut evs: Vec<Event> = Vec::new();
    proof {
        assert(evs.deep_view() + reader_events(r) =~= events_of(s@));
    }
    loop
        invariant
            evs.deep_view() + reader_events(r) == events_of(s@),
        decreases reader_events(r).len(),
    {
        let ghost pre = evs.deep_view();
        let ghost rem = reader_events(r);
        let ev = next_event(&mut r);
        match ev {
            None => {
                proof {
                    assert(evs.deep_view() =~= events_of(s@));
                }
                return evs;
            },
            Some(e) => {
                let stop = match &e {
                    Event::SourceError { .. } => true,
                    _ => false,
                };
                evs.push(e);
                proof {
                    assert(evs.deep_view() =~= pre.push(rem.first()));
                    assert(pre.push(rem.first()) =~= pre + seq![rem.first()]);
                }
                if stop {
                    proof {
                        assert(rem =~= seq![rem.first()]);
                        assert(evs.deep_view() =~= events_of(s@));
                    }
                    return evs;
                }
                proof {
                    assert(evs.deep_view() + reader_events(r) =~= events_of(s@));
                }
            },
        }
    }
}

/// Builds a document straight from markup text: the external parser
/// turns the text into events — named by [`events_of`] — and the
/// verified builder turns those events into the tree, with exactly the
/// result the builder's transition table prescribes for them.
pub fn build_from_str(s: &str) -> (r: Result<Document, BuildError>)
    ensures
        r is Ok ==> build_model(events_of(s@)) == Ok::<DocumentV, BuildErrorV>(
            r->Ok_0.deep_view(),
        ),
        r is Err ==> build_model(events_of(s@)) == Err::<DocumentV, BuildErrorV>(
            r->Err_0.deep_view(),
        ),
        r is Ok ==> wf(r->Ok_0.deep_view()),
{
    let evs = read_events(s);
    build(&evs)
}

} // verus!
