//! Reading the events of an XML document one by one.
use vstd::prelude::*;

use crate::text::text_view;

verus! {

/// A pull reader of the `quick_xml` crate.
#[verifier::external_type_specification]
#[verifier::external_body]
#[verifier::reject_recursive_types(R)]
pub struct ExReader<R>(quick_xml::Reader<R>);

/// One event of a document, as far as the extractors look at it.
pub enum XmlItem {
    /// An element begins: its name without the prefix, and the value of the
    /// attribute that was asked for.
    Start { local: Seq<u8>, attribute: Option<Seq<u8>> },
    /// An element ends.
    End { local: Seq<u8> },
    /// Text between tags; `None` where it is not valid in the document's
    /// encoding.
    Text(Option<Seq<char>>),
    /// Anything else.
    Other,
    /// The document is not well formed here. Nothing is read behind it.
    Broken,
}

/// One event, as it is handed out.
#[derive(Debug)]
pub enum XmlEvent {
    /// An element begins: its name without the prefix, and the value of the
    /// attribute that was asked for.
    Start { local: Vec<u8>, attribute: Option<Vec<u8>> },
    /// An element ends.
    End { local: Vec<u8> },
    /// Text between tags; `None` where it is not valid in the document's
    /// encoding.
    Text(Option<String>),
    /// Anything else.
    Other,
    /// The document is not well formed here. Nothing is read behind it.
    Broken,
}

impl View for XmlEvent {
    type V = XmlItem;

    open spec fn view(&self) -> XmlItem {
        match *self {
            XmlEvent::Start { local, attribute } => XmlItem::Start {
                local: local@,
                attribute: match attribute {
                    Some(value) => Some(value@),
                    None => None,
                },
            },
            XmlEvent::End { local } => XmlItem::End { local: local@ },
            XmlEvent::Text(text) => XmlItem::Text(text_view(text)),
            XmlEvent::Other => XmlItem::Other,
            XmlEvent::Broken => XmlItem::Broken,
        }
    }
}

/// The events that a reader still holds, with the given attribute of each
/// element, up to the end of the document or to the first place where it is
/// not well formed, which is an event of its own.
pub uninterp spec fn events_left(reader: quick_xml::Reader<&[u8]>, attribute: Seq<char>) -> Seq<XmlItem>;

/// The events of a document, with the given attribute of each element, up to
/// its end or to the first place where it is not well formed, which is an event
/// of its own; with `trim`, text loses the white space around it.
pub uninterp spec fn document_events(bytes: Seq<u8>, trim: bool, attribute: Seq<char>) -> Seq<XmlItem>;

/// `quick_xml::Reader::from_reader` starts reading at the first byte, and
/// `trim_text` sets whether text loses the white space around it. Which events
/// the bytes stand for is not stated.
#[verifier::external_body]
pub(crate) fn open_document(bytes: &[u8], trim: bool) -> (r: quick_xml::Reader<&[u8]>)
    ensures
        forall|attribute: Seq<char>| #[trigger]
            events_left(r, attribute) == document_events(bytes@, trim, attribute),
{
    let mut reader = quick_xml::Reader::from_reader(bytes);
    reader.config_mut().trim_text(trim);
    reader
}

/// `quick_xml::Reader::read_event` hands out the next event and moves past it; at
/// the end of the document there is none. An error says that the document is not
/// well formed there, and is the last event that counts: what is read behind it is
/// not stated. The attribute's value is the one that
/// `BytesStart::try_get_attribute` finds, and text is decoded by
/// `BytesText::decode`.
#[verifier::external_body]
pub(crate) fn next_event(reader: &mut quick_xml::Reader<&[u8]>, attribute: &str) -> (r: Option<
    XmlEvent,
>)
    ensures
        match r {
            Some(event) => {
                let left = events_left(*old(reader), attribute@);
                &&& left.len() > 0
                &&& event@ == left[0]
                &&& if event@ is Broken {
                    left.len() == 1
                } else {
                    events_left(*final(reader), attribute@) == left.drop_first()
                }
            },
            None => events_left(*old(reader), attribute@).len() == 0,
        },
{
    match reader.read_event() {
        Ok(quick_xml::events::Event::Start(e)) => Some(XmlEvent::Start {
            local: e.local_name().as_ref().to_vec(),
            attribute: e.try_get_attribute(attribute).ok().flatten().map(|a| a.value.to_vec()),
        }),
        Ok(quick_xml::events::Event::End(e)) => Some(
            XmlEvent::End { local: e.local_name().as_ref().to_vec() },
        ),
        Ok(quick_xml::events::Event::Text(t)) => Some(XmlEvent::Text(t.decode().ok().map(|s| s.into_owned()))),
        Ok(quick_xml::events::Event::Eof) => None,
        Ok(_) => Some(XmlEvent::Other),
        Err(_) => Some(XmlEvent::Broken),
    }
}

/// Whether a name in bytes is the given name, which is plain ASCII.
pub open spec fn is_named(local: Seq<u8>, name: Seq<char>) -> bool {
    local.len() == name.len() && forall|k: int|
        0 <= k < local.len() ==> #[trigger] local[k] as int == name[k] as int
}

/// Whether a name in bytes is the given name.
pub fn named(local: &Vec<u8>, name: &str) -> (r: bool)
    ensures
        r == is_named(local@, name@),
{
    let mut k: usize = 0;
    for c in it: name.chars()
        invariant
            it.seq() == name@,
            k == it.index(),
            k <= local.len(),
            forall|j: int| 0 <= j < k ==> #[trigger] local@[j] as int == name@[j] as int,
    {
        if k >= local.len() || local[k] as char != c {
            return false;
        }
        k = k + 1;
    }
    k == local.len()
}

/// A name is told by its bytes: two names that the same bytes stand for are the same, and
/// so are two runs of bytes that stand for the same name.
pub proof fn a_name_is_told_by_its_bytes(
    local: Seq<u8>,
    other: Seq<u8>,
    name: Seq<char>,
    word: Seq<char>,
)
    ensures
        is_named(local, name) && is_named(local, word) ==> name == word,
        is_named(local, name) && is_named(other, name) ==> local == other,
        is_named(local, name) ==> local.len() == name.len(),
        local.len() == 0 ==> is_named(local, Seq::empty()),
{
    if is_named(local, name) && is_named(local, word) {
        assert forall|k: int| 0 <= k < name.len() implies #[trigger] name[k] == word[k] by {
            assert(local[k] as int == name[k] as int);
            assert(local[k] as int == word[k] as int);
        }
        assert(name =~= word);
    }
    if is_named(local, name) && is_named(other, name) {
        assert forall|k: int| 0 <= k < local.len() implies #[trigger] local[k] == other[k] by {
            assert(local[k] as int == name[k] as int);
            assert(other[k] as int == name[k] as int);
        }
        assert(local =~= other);
    }
}

} // verus!
