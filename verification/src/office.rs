//! Office documents: zip archives of XML parts.
//!
//! The three formats share one shape, so they share their readers. A reader
//! takes one XML event at a time and remembers which events it has seen; what
//! it holds is stated over those.
use vstd::prelude::*;

use vstd::relations::{sorted_by, total_ordering};
use vstd::seq_lib::lemma_sorted_unique;

use crate::archive::{
    archive_bytes, content_of, names_of_parts, open_archive, part_content, part_names, read_part,
    Content, Listing, PartError,
};
use crate::extract::{
    cap_body_text, nothing_found, Extraction, MAX_BODY_TEXT_CHARS, MAX_EXTRACT_BYTES,
};
use crate::fspath::texts;
use crate::text::{
    begins, chars_of, count_words, ends, first_chars, lemma_sorts_before_total,
    lemma_sorts_before_transitive, lower_text, lowercase, parse_number, parsed_number, sorts_before,
    text_begins, text_ends, text_sorts_before, text_view, trimmed, trimmed_len, words_upto,
};
use crate::xml::{
    document_events, events_left, is_named, named, next_event, open_document, XmlEvent, XmlItem,
};

verus! {

/// The attribute that is asked for: in a worksheet it holds a cell's type.
pub open spec fn cell_type() -> Seq<char> {
    "t"@
}

/// The events of a part, with the attribute that holds a cell's type.
pub open spec fn part_events(bytes: Seq<u8>, trim: bool) -> Seq<XmlItem> {
    document_events(bytes, trim, cell_type())
}

/// Whether an element of that name begins here.
pub open spec fn starts(item: XmlItem, name: Seq<char>) -> bool {
    match item {
        XmlItem::Start { local, .. } => is_named(local, name),
        _ => false,
    }
}

/// Whether an element of that name ends here.
pub open spec fn finishes(item: XmlItem, name: Seq<char>) -> bool {
    match item {
        XmlItem::End { local } => is_named(local, name),
        _ => false,
    }
}

/// Whether the last tag of that name began an element.
pub open spec fn inside(items: Seq<XmlItem>, name: Seq<char>) -> bool
    decreases items.len(),
{
    if items.len() == 0 {
        false
    } else if starts(items.last(), name) {
        true
    } else if finishes(items.last(), name) {
        false
    } else {
        inside(items.drop_last(), name)
    }
}

/// The text that an event holds, if it holds any.
pub open spec fn text_in(item: XmlItem) -> Seq<char> {
    match item {
        XmlItem::Text(Some(text)) => text,
        _ => Seq::empty(),
    }
}

// Paragraphs.

/// The text of a document or a slide: what stands inside text elements, and a
/// line break behind every paragraph.
pub open spec fn paragraph_text(items: Seq<XmlItem>) -> Seq<char>
    decreases items.len(),
{
    if items.len() == 0 {
        Seq::empty()
    } else {
        let before = paragraph_text(items.drop_last());
        if finishes(items.last(), "p"@) && !finishes(items.last(), "t"@) {
            before.push('\n')
        } else if inside(items.drop_last(), "t"@) {
            before + text_in(items.last())
        } else {
            before
        }
    }
}

/// Collects the text of a document or a slide.
pub struct ParagraphReader {
    out: String,
    in_text: bool,
    seen: Ghost<Seq<XmlItem>>,
}

impl ParagraphReader {
    /// The events that were read.
    pub closed spec fn seen(&self) -> Seq<XmlItem> {
        self.seen@
    }

    pub closed spec fn wf(&self) -> bool {
        &&& self.out@ == paragraph_text(self.seen@)
        &&& self.in_text == inside(self.seen@, "t"@)
    }

    pub fn new() -> (r: ParagraphReader)
        ensures
            r.wf(),
            r.seen() == Seq::<XmlItem>::empty(),
    {
        ParagraphReader { out: String::new(), in_text: false, seen: Ghost(Seq::empty()) }
    }

    /// Take the next event.
    pub fn read(&mut self, event: &XmlEvent)
        requires
            old(self).wf(),
        ensures
            final(self).wf(),
            final(self).seen() == old(self).seen().push(event@),
    {
        proof {
            assert(self.seen@.push(event@).drop_last() =~= self.seen@);
            lemma_one_name(event@);
        }
        match event {
            XmlEvent::Start { local, .. } => {
                if named(local, "t") {
                    self.in_text = true;
                }
            },
            XmlEvent::End { local } => {
                if named(local, "t") {
                    self.in_text = false;
                } else if named(local, "p") {
                    self.out.push('\n');
                }
            },
            XmlEvent::Text(Some(text)) => {
                if self.in_text {
                    self.out.append(text.as_str());
                }
            },
            _ => {},
        }
        proof {
            self.seen@ = self.seen@.push(event@);
            assert(self.out@ =~= paragraph_text(self.seen@));
        }
    }

    /// The text that was collected.
    pub fn text(self) -> (r: String)
        requires
            self.wf(),
        ensures
            r@ == paragraph_text(self.seen()),
    {
        self.out
    }
}

/// An element has one name.
proof fn lemma_one_name(item: XmlItem)
    ensures
        item matches XmlItem::Start { local, .. } ==> has_one_name(local),
        item matches XmlItem::End { local } ==> has_one_name(local),
{
    reveal_strlit("t");
    reveal_strlit("p");
    reveal_strlit("c");
    reveal_strlit("v");
    reveal_strlit("row");
    reveal_strlit("si");
    match item {
        XmlItem::Start { local, .. } => {
            assert(local.len() > 0 ==> local[0] as int >= 0);
        },
        XmlItem::End { local } => {
            assert(local.len() > 0 ==> local[0] as int >= 0);
        },
        _ => {},
    }
}

spec fn has_one_name(local: Seq<u8>) -> bool {
    &&& is_named(local, "t"@) ==> !is_named(local, "p"@) && !is_named(local, "c"@) && !is_named(
        local,
        "v"@,
    ) && !is_named(local, "row"@) && !is_named(local, "si"@)
    &&& is_named(local, "v"@) ==> !is_named(local, "c"@) && !is_named(local, "row"@)
}

/// The text of a part of a document or a presentation.
pub fn extract_paragraph_text(xml: &[u8]) -> (r: String)
    ensures
        r@ == paragraph_text(part_events(xml@, false)),
{
    let mut reader = open_document(xml, false);
    let mut paragraphs = ParagraphReader::new();
    let ghost all = part_events(xml@, false);
    assert(all =~= paragraphs.seen() + events_left(reader, "t"@));
    loop
        invariant_except_break
            all == paragraphs.seen() + events_left(reader, "t"@),
        invariant
            paragraphs.wf(),
        ensures
            paragraphs.seen() == all,
        decreases events_left(reader, "t"@).len(),
    {
        match next_event(&mut reader, "t") {
            Some(event) => {
                let broken = matches!(event, XmlEvent::Broken);
                paragraphs.read(&event);
                if broken {
                    assert(all =~= paragraphs.seen());
                    break;
                }
                assert(all =~= paragraphs.seen() + events_left(reader, "t"@));
            },
            None => {
                assert(all =~= paragraphs.seen());
                break;
            },
        }
    }
    paragraphs.text()
}

// Properties.

/// The property whose element is open: `Some(true)` the title, `Some(false)`
/// the author.
pub open spec fn open_property(items: Seq<XmlItem>) -> Option<bool>
    decreases items.len(),
{
    if items.len() == 0 {
        None
    } else {
        match items.last() {
            XmlItem::Start { local, .. } => if is_named(local, "title"@) {
                Some(true)
            } else if is_named(local, "creator"@) {
                Some(false)
            } else {
                None
            },
            XmlItem::End { .. } => None,
            _ => open_property(items.drop_last()),
        }
    }
}

/// The first text that is not empty in an element of the given property.
pub open spec fn property_text(items: Seq<XmlItem>, title: bool) -> Option<Seq<char>>
    decreases items.len(),
{
    if items.len() == 0 {
        None
    } else {
        match property_text(items.drop_last(), title) {
            Some(text) => Some(text),
            None => if open_property(items.drop_last()) == Some(title) && text_in(
                items.last(),
            ).len() > 0 {
                Some(text_in(items.last()))
            } else {
                None
            },
        }
    }
}

/// Collects the title and the author of a document.
pub struct PropertyReader {
    title: Option<String>,
    author: Option<String>,
    current: Option<bool>,
    seen: Ghost<Seq<XmlItem>>,
}

impl PropertyReader {
    /// The events that were read.
    pub closed spec fn seen(&self) -> Seq<XmlItem> {
        self.seen@
    }

    pub closed spec fn wf(&self) -> bool {
        &&& text_view(self.title) == property_text(self.seen@, true)
        &&& text_view(self.author) == property_text(self.seen@, false)
        &&& self.current == open_property(self.seen@)
    }

    pub fn new() -> (r: PropertyReader)
        ensures
            r.wf(),
            r.seen() == Seq::<XmlItem>::empty(),
    {
        PropertyReader { title: None, author: None, current: None, seen: Ghost(Seq::empty()) }
    }

    /// Take the next event.
    pub fn read(&mut self, event: &XmlEvent)
        requires
            old(self).wf(),
        ensures
            final(self).wf(),
            final(self).seen() == old(self).seen().push(event@),
    {
        proof {
            assert(self.seen@.push(event@).drop_last() =~= self.seen@);
        }
        match event {
            XmlEvent::Start { local, .. } => {
                self.current = if named(local, "title") {
                    Some(true)
                } else if named(local, "creator") {
                    Some(false)
                } else {
                    None
                };
            },
            XmlEvent::End { .. } => {
                self.current = None;
            },
            XmlEvent::Text(Some(text)) => {
                if !text.as_str().is_empty() {
                    match self.current {
                        Some(true) => {
                            if self.title.is_none() {
                                self.title = Some(text.clone());
                            }
                        },
                        Some(false) => {
                            if self.author.is_none() {
                                self.author = Some(text.clone());
                            }
                        },
                        None => {},
                    }
                }
            },
            _ => {},
        }
        proof {
            self.seen@ = self.seen@.push(event@);
        }
    }

    /// The title and the author that were found.
    pub fn properties(self) -> (r: (Option<String>, Option<String>))
        requires
            self.wf(),
        ensures
            text_view(r.0) == property_text(self.seen(), true),
            text_view(r.1) == property_text(self.seen(), false),
    {
        (self.title, self.author)
    }
}

/// Whether a document is not well formed.
pub open spec fn is_broken(items: Seq<XmlItem>) -> bool {
    items.len() > 0 && items.last() is Broken
}

/// A property of a document: none where the part that holds it is not well formed.
pub open spec fn property_in(items: Seq<XmlItem>, title: bool) -> Option<Seq<char>> {
    if is_broken(items) {
        None
    } else {
        property_text(items, title)
    }
}

/// The title and the author in a part that holds a document's properties.
pub fn extract_properties(xml: &[u8]) -> (r: (Option<String>, Option<String>))
    ensures
        text_view(r.0) == property_in(part_events(xml@, true), true),
        text_view(r.1) == property_in(part_events(xml@, true), false),
{
    let mut reader = open_document(xml, true);
    let mut found = PropertyReader::new();
    let ghost all = part_events(xml@, true);
    assert(all =~= found.seen() + events_left(reader, "t"@));
    loop
        invariant_except_break
            all == found.seen() + events_left(reader, "t"@),
        invariant
            found.wf(),
            all == part_events(xml@, true),
            !is_broken(found.seen()),
        ensures
            found.seen() == all,
        decreases events_left(reader, "t"@).len(),
    {
        match next_event(&mut reader, "t") {
            Some(event) => {
                if matches!(event, XmlEvent::Broken) {
                    assert(all.last() is Broken);
                    return (None, None);
                }
                found.read(&event);
                assert(all =~= found.seen() + events_left(reader, "t"@));
            },
            None => {
                assert(all =~= found.seen());
                break;
            },
        }
    }
    found.properties()
}

// Shared strings.

/// The text collected for the entry of the table that is being read.
pub open spec fn entry_text(items: Seq<XmlItem>) -> Seq<char>
    decreases items.len(),
{
    if items.len() == 0 || starts(items.last(), "si"@) || finishes(items.last(), "si"@) {
        Seq::empty()
    } else if inside(items.drop_last(), "t"@) {
        entry_text(items.drop_last()) + text_in(items.last())
    } else {
        entry_text(items.drop_last())
    }
}

/// The table of strings that the cells of a workbook share, in order.
pub open spec fn table_of(items: Seq<XmlItem>) -> Seq<Seq<char>>
    decreases items.len(),
{
    if items.len() == 0 {
        Seq::empty()
    } else if finishes(items.last(), "si"@) {
        table_of(items.drop_last()).push(entry_text(items.drop_last()))
    } else {
        table_of(items.drop_last())
    }
}

/// Collects the table of shared strings.
pub struct TableReader {
    strings: Vec<String>,
    current: String,
    in_text: bool,
    seen: Ghost<Seq<XmlItem>>,
}

impl TableReader {
    /// The events that were read.
    pub closed spec fn seen(&self) -> Seq<XmlItem> {
        self.seen@
    }

    pub closed spec fn wf(&self) -> bool {
        &&& texts(self.strings@) == table_of(self.seen@)
        &&& self.current@ == entry_text(self.seen@)
        &&& self.in_text == inside(self.seen@, "t"@)
    }

    pub fn new() -> (r: TableReader)
        ensures
            r.wf(),
            r.seen() == Seq::<XmlItem>::empty(),
    {
        let r = TableReader {
            strings: Vec::new(),
            current: String::new(),
            in_text: false,
            seen: Ghost(Seq::empty()),
        };
        assert(texts(r.strings@) =~= table_of(r.seen@));
        r
    }

    /// Take the next event.
    pub fn read(&mut self, event: &XmlEvent)
        requires
            old(self).wf(),
        ensures
            final(self).wf(),
            final(self).seen() == old(self).seen().push(event@),
    {
        proof {
            assert(self.seen@.push(event@).drop_last() =~= self.seen@);
            lemma_one_name(event@);
        }
        match event {
            XmlEvent::Start { local, .. } => {
                if named(local, "si") {
                    self.current = String::new();
                } else if named(local, "t") {
                    self.in_text = true;
                }
            },
            XmlEvent::End { local } => {
                if named(local, "si") {
                    let ghost before = texts(self.strings@);
                    let done = self.current.clone();
                    self.strings.push(done);
                    self.current = String::new();
                    assert(texts(self.strings@) =~= before.push(old(self).current@));
                } else if named(local, "t") {
                    self.in_text = false;
                }
            },
            XmlEvent::Text(Some(text)) => {
                if self.in_text {
                    self.current.append(text.as_str());
                }
            },
            _ => {},
        }
        proof {
            self.seen@ = self.seen@.push(event@);
            assert(self.current@ =~= entry_text(self.seen@));
        }
    }

    /// The table that was collected.
    pub fn table(self) -> (r: Vec<String>)
        requires
            self.wf(),
        ensures
            texts(r@) == table_of(self.seen()),
    {
        self.strings
    }
}

/// The table in a part that holds a workbook's shared strings.
pub fn extract_table(xml: &[u8]) -> (r: Vec<String>)
    ensures
        texts(r@) == table_of(part_events(xml@, false)),
{
    let mut reader = open_document(xml, false);
    let mut found = TableReader::new();
    let ghost all = part_events(xml@, false);
    assert(all =~= found.seen() + events_left(reader, "t"@));
    loop
        invariant_except_break
            all == found.seen() + events_left(reader, "t"@),
        invariant
            found.wf(),
        ensures
            found.seen() == all,
        decreases events_left(reader, "t"@).len(),
    {
        match next_event(&mut reader, "t") {
            Some(event) => {
                let broken = matches!(event, XmlEvent::Broken);
                found.read(&event);
                if broken {
                    assert(all =~= found.seen());
                    break;
                }
                assert(all =~= found.seen() + events_left(reader, "t"@));
            },
            None => {
                assert(all =~= found.seen());
                break;
            },
        }
    }
    found.table()
}

// Worksheets.

/// Whether the last cell that began refers to the table of shared strings.
pub open spec fn cell_is_shared(items: Seq<XmlItem>) -> bool
    decreases items.len(),
{
    if items.len() == 0 {
        false
    } else {
        match items.last() {
            XmlItem::Start { local, attribute } if is_named(local, "c"@) => match attribute {
                Some(value) => is_named(value, "s"@),
                None => false,
            },
            _ => cell_is_shared(items.drop_last()),
        }
    }
}

/// Whether a value is open that refers to the table of shared strings.
pub open spec fn in_shared_value(items: Seq<XmlItem>) -> bool
    decreases items.len(),
{
    if items.len() == 0 {
        false
    } else if starts(items.last(), "v"@) {
        cell_is_shared(items.drop_last())
    } else if finishes(items.last(), "v"@) {
        false
    } else {
        in_shared_value(items.drop_last())
    }
}

/// The entry of the table that a text refers to by its position, with a space
/// behind it; nothing where the text is no position in the table.
pub open spec fn referred(text: Seq<char>, table: Seq<Seq<char>>) -> Seq<char> {
    match parsed_number(text, usize::MAX as nat) {
        Some(k) if k < table.len() => table[k as int].push(' '),
        _ => Seq::empty(),
    }
}

/// The text of a worksheet: inline strings and the shared strings that cells
/// refer to, each with a space behind it, and a line break behind every row.
/// Numbers and other values are not text.
pub open spec fn sheet_text(items: Seq<XmlItem>, table: Seq<Seq<char>>) -> Seq<char>
    decreases items.len(),
{
    if items.len() == 0 {
        Seq::empty()
    } else {
        let before = sheet_text(items.drop_last(), table);
        match items.last() {
            XmlItem::End { local } => if is_named(local, "t"@) {
                before.push(' ')
            } else if is_named(local, "row"@) {
                before.push('\n')
            } else {
                before
            },
            XmlItem::Text(Some(text)) => if inside(items.drop_last(), "t"@) {
                before + text
            } else if in_shared_value(items.drop_last()) {
                before + referred(text, table)
            } else {
                before
            },
            _ => before,
        }
    }
}

/// Collects the text of a worksheet.
pub struct SheetReader<'a> {
    table: &'a Vec<String>,
    out: String,
    shared_cell: bool,
    in_text: bool,
    in_value: bool,
    seen: Ghost<Seq<XmlItem>>,
}

impl<'a> SheetReader<'a> {
    /// The events that were read.
    pub closed spec fn seen(&self) -> Seq<XmlItem> {
        self.seen@
    }

    /// The table of shared strings.
    pub closed spec fn table(&self) -> Seq<Seq<char>> {
        texts(self.table@)
    }

    pub closed spec fn wf(&self) -> bool {
        &&& self.out@ == sheet_text(self.seen@, texts(self.table@))
        &&& self.shared_cell == cell_is_shared(self.seen@)
        &&& self.in_text == inside(self.seen@, "t"@)
        &&& self.in_value == in_shared_value(self.seen@)
    }

    pub fn new(table: &'a Vec<String>) -> (r: SheetReader<'a>)
        ensures
            r.wf(),
            r.seen() == Seq::<XmlItem>::empty(),
            r.table() == texts(table@),
    {
        SheetReader {
            table,
            out: String::new(),
            shared_cell: false,
            in_text: false,
            in_value: false,
            seen: Ghost(Seq::empty()),
        }
    }

    /// Take the next event.
    pub fn read(&mut self, event: &XmlEvent)
        requires
            old(self).wf(),
        ensures
            final(self).wf(),
            final(self).seen() == old(self).seen().push(event@),
            final(self).table() == old(self).table(),
    {
        proof {
            assert(self.seen@.push(event@).drop_last() =~= self.seen@);
            lemma_one_name(event@);
        }
        match event {
            XmlEvent::Start { local, attribute } => {
                if named(local, "c") {
                    self.shared_cell = match attribute {
                        Some(value) => named(value, "s"),
                        None => false,
                    };
                } else if named(local, "t") {
                    self.in_text = true;
                } else if named(local, "v") {
                    self.in_value = self.shared_cell;
                }
            },
            XmlEvent::End { local } => {
                if named(local, "t") {
                    self.in_text = false;
                    self.out.push(' ');
                } else if named(local, "v") {
                    self.in_value = false;
                } else if named(local, "row") {
                    self.out.push('\n');
                }
            },
            XmlEvent::Text(Some(text)) => {
                if self.in_text {
                    self.out.append(text.as_str());
                } else if self.in_value {
                    if let Some(k) = parse_number(text.as_str(), usize::MAX as u64) {
                        if k < self.table.len() as u64 {
                            assert(texts(self.table@)[k as int] == self.table@[k as int]@);
                            self.out.append(self.table[k as usize].as_str());
                            self.out.push(' ');
                        }
                    }
                }
            },
            _ => {},
        }
        proof {
            self.seen@ = self.seen@.push(event@);
            assert(self.out@ =~= sheet_text(self.seen@, texts(self.table@)));
        }
    }

    /// The text that was collected.
    pub fn text(self) -> (r: String)
        requires
            self.wf(),
        ensures
            r@ == sheet_text(self.seen(), self.table()),
    {
        self.out
    }
}

/// The text of a part that is a worksheet.
pub fn extract_sheet_text(xml: &[u8], table: &Vec<String>) -> (r: String)
    ensures
        r@ == sheet_text(part_events(xml@, false), texts(table@)),
{
    let ghost shared = texts(table@);
    let mut reader = open_document(xml, false);
    let mut sheet = SheetReader::new(table);
    let ghost all = part_events(xml@, false);
    assert(all =~= sheet.seen() + events_left(reader, "t"@));
    loop
        invariant_except_break
            all == sheet.seen() + events_left(reader, "t"@),
        invariant
            sheet.wf(),
            sheet.table() == shared,
        ensures
            sheet.seen() == all,
        decreases events_left(reader, "t"@).len(),
    {
        match next_event(&mut reader, "t") {
            Some(event) => {
                let broken = matches!(event, XmlEvent::Broken);
                sheet.read(&event);
                if broken {
                    assert(all =~= sheet.seen());
                    break;
                }
                assert(all =~= sheet.seen() + events_left(reader, "t"@));
            },
            None => {
                assert(all =~= sheet.seen());
                break;
            },
        }
    }
    sheet.text()
}

// Parts.

/// Whether a part's name has the given beginning and end.
pub open spec fn is_part_named(name: Seq<char>, prefix: Seq<char>, suffix: Seq<char>) -> bool {
    begins(name, prefix) && ends(name, suffix)
}

/// The order in which parts are read: that of their names.
pub open spec fn name_order() -> spec_fn(Seq<char>, Seq<char>) -> bool {
    |a: Seq<char>, b: Seq<char>| !sorts_before(b, a)
}

/// The names that have the given beginning and end, in order.
pub open spec fn ordered_parts(names: Seq<Seq<char>>, prefix: Seq<char>, suffix: Seq<char>) -> Seq<
    Seq<char>,
> {
    names.filter(|name: Seq<char>| is_part_named(name, prefix, suffix)).sort_by(name_order())
}

pub(crate) proof fn lemma_name_order()
    ensures
        total_ordering(name_order()),
{
    let leq = name_order();
    assert forall|a: Seq<char>| #[trigger] leq(a, a) by {
        lemma_sorts_before_total(a, a);
    }
    assert forall|a: Seq<char>, b: Seq<char>| #[trigger] leq(a, b) && #[trigger] leq(b, a) implies a
        == b by {
        lemma_sorts_before_total(a, b);
    }
    assert forall|a: Seq<char>, b: Seq<char>, c: Seq<char>| #[trigger]
        leq(a, b) && #[trigger] leq(b, c) implies leq(a, c) by {
        lemma_sorts_before_total(a, b);
        lemma_sorts_before_total(b, c);
        lemma_sorts_before_total(a, c);
        lemma_sorts_before_transitive(a, b, c);
        if sorts_before(c, a) {
            lemma_sorts_before_transitive(c, a, b);
        }
    }
    assert forall|a: Seq<char>, b: Seq<char>| #[trigger] leq(a, b) || #[trigger] leq(b, a) by {
        lemma_sorts_before_total(a, b);
    }
}

/// Put a name into an ordered list.
fn insert_name(list: &mut Vec<String>, name: String)
    requires
        sorted_by(texts(old(list)@), name_order()),
    ensures
        sorted_by(texts(final(list)@), name_order()),
        texts(final(list)@).to_multiset() == texts(old(list)@).to_multiset().insert(name@),
{
    let ghost before = texts(list@);
    let mut k: usize = list.len();
    while k > 0 && text_sorts_before(name.as_str(), list[k - 1].as_str())
        invariant
            0 <= k <= list.len(),
            before == texts(list@),
            forall|j: int| k <= j < list.len() ==> sorts_before(name@, #[trigger] before[j]),
        decreases k,
    {
        k = k - 1;
    }
    let ghost leq = name_order();
    proof {
        lemma_name_order();
        if k > 0 {
            assert(leq(before[k - 1], name@));
            assert forall|j: int| 0 <= j < k implies leq(#[trigger] before[j], name@) by {
                if j < k - 1 {
                    assert(leq(before[j], before[k - 1]));
                }
            }
        }
        assert forall|j: int| k <= j < before.len() implies leq(name@, #[trigger] before[j]) by {
            lemma_sorts_before_total(name@, before[j]);
        }
        broadcast use vstd::seq_lib::group_to_multiset_ensures;

        assert(before.insert(k as int, name@).to_multiset() =~= before.to_multiset().insert(
            name@,
        ));
    }
    let ghost added = name@;
    list.insert(k, name);
    proof {
        assert(texts(list@) =~= before.insert(k as int, added));
    }
}

/// The names that have the given beginning and end, in order.
pub fn matching_parts(names: &Vec<String>, prefix: &str, suffix: &str) -> (r: Vec<String>)
    ensures
        texts(r@) == ordered_parts(texts(names@), prefix@, suffix@),
{
    let mut out: Vec<String> = Vec::new();
    let ghost keep = |name: Seq<char>| is_part_named(name, prefix@, suffix@);
    let ghost all = texts(names@);
    let mut k: usize = 0;
    assert(all.take(0).filter(keep) =~= Seq::<Seq<char>>::empty()) by {
        reveal(Seq::filter);
    }
    assert(texts(out@) =~= Seq::<Seq<char>>::empty());
    while k < names.len()
        invariant
            0 <= k <= names.len(),
            all == texts(names@),
            keep == (|name: Seq<char>| is_part_named(name, prefix@, suffix@)),
            sorted_by(texts(out@), name_order()),
            texts(out@).to_multiset() == all.take(k as int).filter(keep).to_multiset(),
        decreases names.len() - k,
    {
        let name = &names[k];
        proof {
            assert(all[k as int] == name@);
            assert(all.take(k + 1).drop_last() =~= all.take(k as int));
            assert(all.take(k + 1).last() == name@);
            reveal(Seq::filter);
        }
        let ghost kept = all.take(k as int).filter(keep);
        if text_begins(name.as_str(), prefix) && text_ends(name.as_str(), suffix) {
            insert_name(&mut out, name.clone());
            proof {
                broadcast use vstd::seq_lib::group_to_multiset_ensures;

                assert(kept.push(name@).to_multiset() =~= kept.to_multiset().insert(name@));
            }
        }
        k = k + 1;
    }
    proof {
        assert(all.take(names.len() as int) =~= all);
        lemma_name_order();
        all.filter(keep).lemma_sort_by_ensures(name_order());
        lemma_sorted_unique(
            texts(out@),
            all.filter(keep).sort_by(name_order()),
            name_order(),
        );
    }
    out
}

// What a text says about its document.

/// A shorter text than this gives no language: it is too little to go by.
pub const MIN_CHARS_FOR_LANG_DETECT: usize = 40;

/// A text with more characters than this, in lower case, gives no language either:
/// its trigrams are counted in 32 bits.
pub const MAX_CHARS_FOR_LANG_DETECT: usize = 4_294_967_295;

/// The code of the language that `whatlang::detect` finds a text to be in.
pub uninterp spec fn detected_language(text: Seq<char>) -> Option<Seq<char>>;

/// `whatlang::detect` guesses a text's language from its script and its
/// trigrams, and `Lang::code` names it by three letters; which language a text
/// is in is not stated. It counts the trigrams of the lower case text in a `u32`,
/// so a text that could have more is not handed to it.
#[verifier::external_body]
fn language_code(text: &str) -> (r: Option<String>)
    requires
        lowercase(text@).len() <= MAX_CHARS_FOR_LANG_DETECT,
    ensures
        text_view(r) == detected_language(text@),
{
    whatlang::detect(text).map(|info| info.lang().code().to_string())
}

/// The language of a text that is long enough to tell, and not too long.
pub open spec fn language_of(text: Seq<char>) -> Option<Seq<char>> {
    if trimmed(text).len() < MIN_CHARS_FOR_LANG_DETECT || lowercase(text).len()
        > MAX_CHARS_FOR_LANG_DETECT {
        None
    } else {
        detected_language(text)
    }
}

/// The language of a text that is long enough to tell, and not too long.
pub fn detect_language(text: &str) -> (r: Option<String>)
    ensures
        text_view(r) == language_of(text@),
{
    if trimmed_len(text) < MIN_CHARS_FOR_LANG_DETECT || chars_of(lower_text(text).as_str()).len()
        > MAX_CHARS_FOR_LANG_DETECT {
        None
    } else {
        language_code(text)
    }
}

/// A count, as far as it fits.
pub open spec fn as_count(n: nat) -> int {
    if n <= i64::MAX {
        n as int
    } else {
        i64::MAX as int
    }
}

/// A count, as far as it fits.
pub fn count_of(n: usize) -> (r: i64)
    ensures
        r == as_count(n as nat),
{
    if n as u64 <= i64::MAX as u64 {
        n as i64
    } else {
        i64::MAX
    }
}

/// Whether an extraction says what a document's text and properties say, and
/// nothing else.
pub open spec fn describes(
    e: Extraction,
    title: Option<Seq<char>>,
    author: Option<Seq<char>>,
    language: Option<Seq<char>>,
    pages: Option<int>,
    text: Seq<char>,
) -> bool {
    &&& text_view(e.title) == title
    &&& text_view(e.author) == author
    &&& text_view(e.language) == language
    &&& match pages {
        Some(n) => e.page_count is Some && e.page_count.unwrap() == n,
        None => e.page_count is None,
    }
    &&& e.word_count is Some && e.word_count.unwrap() == as_count(words_upto(text, text.len()))
    &&& text_view(e.body_text) == Some(first_chars(text, MAX_BODY_TEXT_CHARS as nat))
    &&& e == (Extraction {
        title: e.title,
        author: e.author,
        language: e.language,
        page_count: e.page_count,
        word_count: e.word_count,
        body_text: e.body_text,
        ..nothing_found()
    })
}

/// Put together what a document's text and properties say.
pub fn describe(
    title: Option<String>,
    author: Option<String>,
    language: Option<String>,
    pages: Option<i64>,
    text: &str,
) -> (r: Extraction)
    ensures
        describes(
            r,
            text_view(title),
            text_view(author),
            text_view(language),
            match pages {
                Some(n) => Some(n as int),
                None => None,
            },
            text@,
        ),
{
    let words = count_words(text);
    let mut e = Extraction::default();
    e.title = title;
    e.author = author;
    e.language = language;
    e.page_count = pages;
    e.word_count = Some(count_of(words));
    e.body_text = Some(cap_body_text(text));
    e
}

// Whole documents.

/// What is read of a part: no more than the cap, whatever it would unpack to.
pub open spec fn part_read(bytes: Seq<u8>, name: Seq<char>) -> Content {
    part_content(bytes, name, MAX_EXTRACT_BYTES as nat)
}

/// The property that the part for properties holds; none where that part is
/// missing or not well formed.
pub open spec fn property_of(bytes: Seq<u8>, title: bool) -> Option<Seq<char>> {
    match part_read(bytes, "docProps/core.xml"@) {
        Content::Bytes(core) => property_in(part_events(core, true), title),
        _ => None,
    }
}

/// The shared strings of a workbook; none where their part is missing.
pub open spec fn shared_table(bytes: Seq<u8>) -> Seq<Seq<char>> {
    match part_read(bytes, "xl/sharedStrings.xml"@) {
        Content::Bytes(table) => table_of(part_events(table, false)),
        _ => Seq::empty(),
    }
}

/// What comes of reading text: the text, or why there is none.
pub enum Reading {
    Text(Seq<char>),
    Failed(Seq<char>),
}

/// Why a part that makes up a document could not be had.
pub open spec fn part_failure(name: Seq<char>, content: Content) -> Seq<char> {
    match content {
        Content::Missing(e) => "reading "@ + name + ": "@ + e,
        Content::Unreadable(e) => e,
        Content::Bytes(_) => Seq::empty(),
    }
}

/// The text of one part: a worksheet where a table of shared strings is given,
/// paragraphs otherwise.
pub open spec fn part_text(content: Content, name: Seq<char>, table: Option<Seq<Seq<char>>>) -> Reading {
    match content {
        Content::Bytes(xml) => Reading::Text(
            match table {
                Some(t) => sheet_text(part_events(xml, false), t),
                None => paragraph_text(part_events(xml, false)),
            },
        ),
        _ => Reading::Failed(part_failure(name, content)),
    }
}

/// The text of several parts, a line break behind each; the first part that
/// cannot be had decides.
pub open spec fn parts_text(
    bytes: Seq<u8>,
    names: Seq<Seq<char>>,
    table: Option<Seq<Seq<char>>>,
) -> Reading
    decreases names.len(),
{
    if names.len() == 0 {
        Reading::Text(Seq::empty())
    } else {
        match parts_text(bytes, names.drop_last(), table) {
            Reading::Failed(e) => Reading::Failed(e),
            Reading::Text(before) => match part_text(
                part_read(bytes, names.last()),
                names.last(),
                table,
            ) {
                Reading::Failed(e) => Reading::Failed(e),
                Reading::Text(text) => Reading::Text((before + text).push('\n')),
            },
        }
    }
}

/// Whether `r` is the outcome of extracting a document with the given text and
/// number of pages.
pub open spec fn is_outcome(
    r: Result<Extraction, String>,
    bytes: Seq<u8>,
    pages: Option<int>,
    reading: Reading,
) -> bool {
    match reading {
        Reading::Text(text) => match r {
            Ok(e) => describes(
                e,
                property_of(bytes, true),
                property_of(bytes, false),
                language_of(text),
                pages,
                text,
            ),
            Err(_) => false,
        },
        Reading::Failed(reason) => match r {
            Ok(_) => false,
            Err(e) => e@ == reason,
        },
    }
}

/// Why an archive cannot be opened.
pub open spec fn broken_archive(e: Seq<char>) -> Reading {
    Reading::Failed("opening zip: "@ + e)
}

/// What is to be had of a text document.
pub open spec fn is_docx_outcome(r: Result<Extraction, String>, bytes: Seq<u8>) -> bool {
    match part_names(bytes) {
        Listing::Broken(e) => is_outcome(r, bytes, None, broken_archive(e)),
        Listing::Parts(_) => is_outcome(
            r,
            bytes,
            None,
            part_text(
                part_read(bytes, "word/document.xml"@),
                "word/document.xml"@,
                None,
            ),
        ),
    }
}

/// What is to be had of a document whose pages are parts of their own.
pub open spec fn is_paged_outcome(
    r: Result<Extraction, String>,
    bytes: Seq<u8>,
    prefix: Seq<char>,
    missing: Seq<char>,
    table: Option<Seq<Seq<char>>>,
) -> bool {
    match part_names(bytes) {
        Listing::Broken(e) => is_outcome(r, bytes, None, broken_archive(e)),
        Listing::Parts(names) => {
            let pages = ordered_parts(names, prefix, ".xml"@);
            if pages.len() == 0 {
                is_outcome(r, bytes, None, Reading::Failed(missing))
            } else {
                is_outcome(
                    r,
                    bytes,
                    Some(as_count(pages.len())),
                    parts_text(bytes, pages, table),
                )
            }
        },
    }
}

/// What is to be had of a workbook: every worksheet counts as a page.
pub open spec fn is_xlsx_outcome(r: Result<Extraction, String>, bytes: Seq<u8>) -> bool {
    is_paged_outcome(
        r,
        bytes,
        "xl/worksheets/sheet"@,
        "no xl/worksheets/sheet*.xml entries"@,
        Some(shared_table(bytes)),
    )
}

/// What is to be had of a presentation: every slide is a page.
pub open spec fn is_pptx_outcome(r: Result<Extraction, String>, bytes: Seq<u8>) -> bool {
    is_paged_outcome(
        r,
        bytes,
        "ppt/slides/slide"@,
        "no ppt/slides/slide*.xml entries"@,
        None,
    )
}

/// Why a part that makes up a document could not be had.
fn part_error(name: &str, e: PartError) -> (r: String)
    ensures
        r@ == part_failure(name@, content_of(Err(e))),
{
    match e {
        PartError::Missing(words) => {
            let mut out = String::new();
            out.append("reading ");
            out.append(name);
            out.append(": ");
            out.append(words.as_str());
            assert(out@ =~= "reading "@ + name@ + ": "@ + words@);
            out
        },
        PartError::Unreadable(words) => words,
    }
}

fn archive_error(e: &str) -> (r: String)
    ensures
        Reading::Failed(r@) == broken_archive(e@),
{
    let mut out = String::new();
    out.append("opening zip: ");
    out.append(e);
    assert(out@ =~= "opening zip: "@ + e@);
    out
}

/// The title and the author of a document.
fn read_core_properties(archive: &mut zip::ZipArchive<std::io::Cursor<&[u8]>>) -> (r: (
    Option<String>,
    Option<String>,
))
    ensures
        archive_bytes(*final(archive)) == archive_bytes(*old(archive)),
        text_view(r.0) == property_of(archive_bytes(*old(archive)), true),
        text_view(r.1) == property_of(archive_bytes(*old(archive)), false),
{
    match read_part(archive, "docProps/core.xml", MAX_EXTRACT_BYTES) {
        Ok(xml) => extract_properties(xml.as_slice()),
        Err(_) => (None, None),
    }
}

/// The shared strings of a workbook.
fn read_shared_strings(archive: &mut zip::ZipArchive<std::io::Cursor<&[u8]>>) -> (r: Vec<String>)
    ensures
        archive_bytes(*final(archive)) == archive_bytes(*old(archive)),
        texts(r@) == shared_table(archive_bytes(*old(archive))),
{
    match read_part(archive, "xl/sharedStrings.xml", MAX_EXTRACT_BYTES) {
        Ok(xml) => extract_table(xml.as_slice()),
        Err(_) => {
            let none: Vec<String> = Vec::new();
            assert(texts(none@) =~= Seq::<Seq<char>>::empty());
            none
        },
    }
}

/// Whether `r` is the outcome of reading text.
pub open spec fn is_reading(r: Result<String, String>, reading: Reading) -> bool {
    match (r, reading) {
        (Ok(text), Reading::Text(t)) => text@ == t,
        (Err(e), Reading::Failed(f)) => e@ == f,
        _ => false,
    }
}

pub open spec fn optional_table(table: Option<&Vec<String>>) -> Option<Seq<Seq<char>>> {
    match table {
        Some(t) => Some(texts(t@)),
        None => None,
    }
}

/// The text of several parts, a line break behind each.
fn read_parts(
    archive: &mut zip::ZipArchive<std::io::Cursor<&[u8]>>,
    names: &Vec<String>,
    table: Option<&Vec<String>>,
) -> (r: Result<String, String>)
    ensures
        archive_bytes(*final(archive)) == archive_bytes(*old(archive)),
        is_reading(
            r,
            parts_text(archive_bytes(*old(archive)), texts(names@), optional_table(table)),
        ),
{
    let ghost bytes = archive_bytes(*archive);
    let ghost all = texts(names@);
    let ghost shared = optional_table(table);
    let mut out = String::new();
    let mut k: usize = 0;
    assert(all.take(0) =~= Seq::<Seq<char>>::empty());
    while k < names.len()
        invariant
            0 <= k <= names.len(),
            archive_bytes(*archive) == bytes,
            bytes == archive_bytes(*old(archive)),
            all == texts(names@),
            shared == optional_table(table),
            parts_text(bytes, all.take(k as int), shared) == Reading::Text(out@),
        decreases names.len() - k,
    {
        let name = &names[k];
        proof {
            assert(all[k as int] == name@);
            assert(all.take(k + 1).drop_last() =~= all.take(k as int));
            assert(all.take(k + 1).last() == name@);
        }
        match read_part(archive, name.as_str(), MAX_EXTRACT_BYTES) {
            Ok(xml) => {
                let text = match table {
                    Some(t) => extract_sheet_text(xml.as_slice(), t),
                    None => extract_paragraph_text(xml.as_slice()),
                };
                out.append(text.as_str());
                out.push('\n');
            },
            Err(e) => {
                proof {
                    assert(parts_text(bytes, all.take(k + 1), shared) == Reading::Failed(
                        part_failure(name@, content_of(Err(e))),
                    ));
                    lemma_failure_stays(bytes, all, shared, k + 1);
                }
                return Err(part_error(name.as_str(), e));
            },
        }
        k = k + 1;
    }
    assert(all.take(names.len() as int) =~= all);
    Ok(out)
}

/// Once a part has failed, the parts behind it change nothing.
proof fn lemma_failure_stays(
    bytes: Seq<u8>,
    names: Seq<Seq<char>>,
    table: Option<Seq<Seq<char>>>,
    k: int,
)
    requires
        0 <= k <= names.len(),
        parts_text(bytes, names.take(k), table) is Failed,
    ensures
        parts_text(bytes, names, table) == parts_text(bytes, names.take(k), table),
    decreases names.len() - k,
{
    if k == names.len() {
        assert(names.take(k) =~= names);
    } else {
        assert(names.take(k + 1).drop_last() =~= names.take(k));
        lemma_failure_stays(bytes, names, table, k + 1);
    }
}

/// Extract what a text document holds.
pub fn extract_docx(bytes: &[u8]) -> (r: Result<Extraction, String>)
    ensures
        is_docx_outcome(r, bytes@),
{
    match open_archive(bytes) {
        Ok(mut archive) => {
            let (title, author) = read_core_properties(&mut archive);
            match read_part(&mut archive, "word/document.xml", MAX_EXTRACT_BYTES) {
                Ok(xml) => {
                    let text = extract_paragraph_text(xml.as_slice());
                    let language = detect_language(text.as_str());
                    Ok(describe(title, author, language, None, text.as_str()))
                },
                Err(e) => Err(part_error("word/document.xml", e)),
            }
        },
        Err(e) => Err(archive_error(e.as_str())),
    }
}

/// Extract what the pages of a document hold that are parts of their own.
fn describe_pages(
    archive: &mut zip::ZipArchive<std::io::Cursor<&[u8]>>,
    prefix: &str,
    missing: &str,
    table: Option<&Vec<String>>,
) -> (r: Result<Extraction, String>)
    requires
        part_names(archive_bytes(*old(archive))) is Parts,
    ensures
        is_paged_outcome(
            r,
            archive_bytes(*old(archive)),
            prefix@,
            missing@,
            optional_table(table),
        ),
{
    let (title, author) = read_core_properties(archive);
    let names = names_of_parts(archive);
    let pages = matching_parts(&names, prefix, ".xml");
    let ghost ordered = texts(pages@);
    assert(ordered.len() == pages.len());
    if pages.len() == 0 {
        return Err(missing.to_owned());
    }
    match read_parts(archive, &pages, table) {
        Ok(text) => {
            let language = detect_language(text.as_str());
            let count = count_of(pages.len());
            Ok(describe(title, author, language, Some(count), text.as_str()))
        },
        Err(e) => Err(e),
    }
}

/// Extract what a workbook holds.
pub fn extract_xlsx(bytes: &[u8]) -> (r: Result<Extraction, String>)
    ensures
        is_xlsx_outcome(r, bytes@),
{
    match open_archive(bytes) {
        Ok(mut archive) => {
            let table = read_shared_strings(&mut archive);
            describe_pages(
                &mut archive,
                "xl/worksheets/sheet",
                "no xl/worksheets/sheet*.xml entries",
                Some(&table),
            )
        },
        Err(e) => Err(archive_error(e.as_str())),
    }
}

/// Extract what a presentation holds.
pub fn extract_pptx(bytes: &[u8]) -> (r: Result<Extraction, String>)
    ensures
        is_pptx_outcome(r, bytes@),
{
    match open_archive(bytes) {
        Ok(mut archive) => describe_pages(
            &mut archive,
            "ppt/slides/slide",
            "no ppt/slides/slide*.xml entries",
            None,
        ),
        Err(e) => Err(archive_error(e.as_str())),
    }
}

} // verus!
