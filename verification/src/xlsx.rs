//! Spreadsheets (`.xlsx`): the shared strings table, the sheet list and each
//! sheet's cells, read from the workbook's XML parts, and the table a sheet
//! makes (first row the headers, the other rows the data).

use vstd::prelude::*;
use crate::error::VVError;
use crate::archive::{archive_entries, entry_contents_named, EntryReadError, has_entry, open_archive, part_contents, zip_archive, zip_error_text, MemArchive};
use crate::text::{chars_eq, chars_of, extend, string_from_chars, string_views, is_digit};
use crate::units::parse::digits_value;
use crate::value::{parse_cell_ref_checked, sanitize_column_name, spec_cell_ref, spec_sanitize};
use quick_xml::events::{BytesEnd, BytesStart, BytesText, Event};
use quick_xml::Reader;

verus! {

#[verifier::external_type_specification]
#[verifier::external_body]
#[verifier::reject_recursive_types(R)]
pub struct ExXmlReader<R>(Reader<R>);

#[verifier::external_type_specification]
#[verifier::external_body]
pub struct ExBytesStart<'a>(BytesStart<'a>);

#[verifier::external_type_specification]
#[verifier::external_body]
pub struct ExBytesEnd<'a>(BytesEnd<'a>);

#[verifier::external_type_specification]
#[verifier::external_body]
pub struct ExBytesText<'a>(BytesText<'a>);

#[verifier::external_type_specification]
#[verifier::external_body]
pub struct ExXmlError(quick_xml::Error);

/// An XML event as `quick_xml` reports it, the parts this module reads
/// still in the reader's own types.
pub enum RawEvent<'a> {
    Start(BytesStart<'a>),
    Empty(BytesStart<'a>),
    Text(BytesText<'a>),
    End(BytesEnd<'a>),
    Eof,
    Other,
}

/// What a reader reads: the bytes it was made over, whether it trims
/// text, and how many events it has given so far.
pub uninterp spec fn reader_state(reader: Reader<&[u8]>) -> (Seq<u8>, bool, nat);

/// What the `n`-th call (from 0) of `Reader::read_event` gives on a reader
/// made over `bytes` and set to trim text or not before its first event:
/// the event as plain values, or the text of the error.
pub uninterp spec fn xml_event_at(bytes: Seq<u8>, trim: bool, n: nat) -> Result<ItemView, Seq<char>>;

/// What `BytesStart::name` gives for a tag, as text.
pub uninterp spec fn start_tag_name(e: BytesStart) -> Seq<char>;

/// What `BytesStart::attributes` gives for a tag: its well-formed
/// attributes in order, key and raw value as text.
pub uninterp spec fn start_tag_attributes(e: BytesStart) -> Seq<(Seq<char>, Seq<char>)>;

/// What `BytesEnd::name` gives for a tag, as text.
pub uninterp spec fn end_tag_name(e: BytesEnd) -> Seq<char>;

/// What `BytesText::unescape` gives for a text event: the text with its
/// entity references resolved, or the text of its error.
pub uninterp spec fn unescaped(t: BytesText) -> Result<Seq<char>, Seq<char>>;

/// An event the reader gave, as plain values.
pub open spec fn raw_view(ev: RawEvent) -> ItemView {
    match ev {
        RawEvent::Start(e) => ItemView::Start(start_tag_name(e), start_tag_attributes(e)),
        RawEvent::Empty(e) => ItemView::Empty(start_tag_name(e), start_tag_attributes(e)),
        RawEvent::Text(t) => ItemView::Text(unescaped(t)),
        RawEvent::End(e) => ItemView::End(end_tag_name(e)),
        RawEvent::Eof => ItemView::Eof,
        RawEvent::Other => ItemView::Other,
    }
}

/// `Reader::from_reader` over bytes in memory: a reader over the bytes
/// that has given no event and does not trim text.
#[verifier::external_body]
pub(crate) fn xml_reader(bytes: &[u8]) -> (res: Reader<&[u8]>)
    ensures
        reader_state(res) == (bytes@, false, 0nat),
{
    Reader::from_reader(bytes)
}

/// `Config::trim_text(true)` on the reader: whitespace around text is
/// dropped and whitespace-only text produces no event. Set before the first
/// event, the reader then gives the events of a trimming reader.
#[verifier::external_body]
pub(crate) fn trim_text(reader: &mut Reader<&[u8]>)
    ensures
        reader_state(*old(reader)).2 == 0 ==> reader_state(*final(reader)) == (reader_state(*old(reader)).0, true, 0nat),
{
    reader.config_mut().trim_text(true)
}

/// `Reader::read_event`: the next event of the document, or the text of
/// the error that stops reading.
#[verifier::external_body]
pub(crate) fn read_event<'a>(reader: &mut Reader<&'a [u8]>) -> (res: Result<RawEvent<'a>, String>)
    ensures
        reader_state(*final(reader)) == (reader_state(*old(reader)).0, reader_state(*old(reader)).1, reader_state(*old(reader)).2 + 1),
        match res {
            Ok(ev) => xml_event_at(reader_state(*old(reader)).0, reader_state(*old(reader)).1, reader_state(*old(reader)).2) == Ok::<ItemView, Seq<char>>(raw_view(ev)),
            Err(m) => xml_event_at(reader_state(*old(reader)).0, reader_state(*old(reader)).1, reader_state(*old(reader)).2) == Err::<ItemView, Seq<char>>(m@),
        },
{
    match reader.read_event() {
        Ok(Event::Start(e)) => Ok(RawEvent::Start(e)),
        Ok(Event::Empty(e)) => Ok(RawEvent::Empty(e)),
        Ok(Event::Text(t)) => Ok(RawEvent::Text(t)),
        Ok(Event::End(e)) => Ok(RawEvent::End(e)),
        Ok(Event::Eof) => Ok(RawEvent::Eof),
        Ok(_) => Ok(RawEvent::Other),
        Err(e) => Err(e.to_string()),
    }
}

/// `BytesStart::name`: the element's qualified name, as text (invalid
/// UTF-8 replaced).
#[verifier::external_body]
pub(crate) fn start_name(e: &BytesStart) -> (res: String)
    ensures
        res@ == start_tag_name(*e),
{
    String::from_utf8_lossy(e.name().as_ref()).into_owned()
}

/// `BytesEnd::name`: the element's qualified name, as text.
#[verifier::external_body]
pub(crate) fn end_name(e: &BytesEnd) -> (res: String)
    ensures
        res@ == end_tag_name(*e),
{
    String::from_utf8_lossy(e.name().as_ref()).into_owned()
}

/// `BytesStart::attributes`: the element's well-formed attributes in
/// document order, key and raw value as text (malformed ones skipped).
#[verifier::external_body]
pub(crate) fn start_attributes(e: &BytesStart) -> (res: Vec<(String, String)>)
    ensures
        attrs_view(res@) == start_tag_attributes(*e),
{
    e.attributes()
        .flatten()
        .map(|a| (String::from_utf8_lossy(a.key.as_ref()).into_owned(), String::from_utf8_lossy(&a.value).into_owned()))
        .collect()
}

/// `BytesText::unescape`: the text with its entity references resolved, or
/// the text of its error.
#[verifier::external_body]
pub(crate) fn unescape_text(t: &BytesText) -> (res: Result<String, String>)
    ensures
        match res {
            Ok(s) => unescaped(*t) == Ok::<Seq<char>, Seq<char>>(s@),
            Err(m) => unescaped(*t) == Err::<Seq<char>, Seq<char>>(m@),
        },
{
    match t.unescape() {
        Ok(s) => Ok(s.into_owned()),
        Err(e) => Err(e.to_string()),
    }
}

/// An element tag: its name and its attributes (key, raw value) in order.
pub struct XmlTag {
    pub name: String,
    pub attributes: Vec<(String, String)>,
}

/// An XML event as plain values. A text event carries its unescaped text,
/// or the message of the error unescaping it gave.
pub enum XmlItem {
    Start(XmlTag),
    Empty(XmlTag),
    Text(Result<String, String>),
    End(String),
    Eof,
    Other,
}

/// An event as the contracts see it: tag names, attributes and text as
/// character sequences.
pub enum ItemView {
    Start(Seq<char>, Seq<(Seq<char>, Seq<char>)>),
    Empty(Seq<char>, Seq<(Seq<char>, Seq<char>)>),
    Text(Result<Seq<char>, Seq<char>>),
    End(Seq<char>),
    Eof,
    Other,
}

/// The view of an event.
pub open spec fn item_view(x: XmlItem) -> ItemView {
    match x {
        XmlItem::Start(t) => ItemView::Start(t.name@, attrs_view(t.attributes@)),
        XmlItem::Empty(t) => ItemView::Empty(t.name@, attrs_view(t.attributes@)),
        XmlItem::Text(r) => ItemView::Text(match r { Ok(s) => Ok(s@), Err(m) => Err(m@) }),
        XmlItem::End(n) => ItemView::End(n@),
        XmlItem::Eof => ItemView::Eof,
        XmlItem::Other => ItemView::Other,
    }
}

/// The views of events.
pub open spec fn items_view(items: Seq<XmlItem>) -> Seq<ItemView> {
    items.map_values(|x: XmlItem| item_view(x))
}

/// Reads the next event of the document as plain values: the event the
/// reader gives next, or its error as an XML error.
pub fn next_item(reader: &mut Reader<&[u8]>) -> (res: Result<XmlItem, VVError>)
    ensures
        reader_state(*final(reader)) == (reader_state(*old(reader)).0, reader_state(*old(reader)).1, reader_state(*old(reader)).2 + 1),
        match xml_event_at(reader_state(*old(reader)).0, reader_state(*old(reader)).1, reader_state(*old(reader)).2) {
            Ok(iv) => res matches Ok(it) && item_view(it) == iv,
            Err(m) => res matches Err(VVError::Xml(e)) && e@ == m,
        },
{
    match read_event(reader) {
        Ok(RawEvent::Start(e)) => Ok(XmlItem::Start(XmlTag { name: start_name(&e), attributes: start_attributes(&e) })),
        Ok(RawEvent::Empty(e)) => Ok(XmlItem::Empty(XmlTag { name: start_name(&e), attributes: start_attributes(&e) })),
        Ok(RawEvent::Text(t)) => Ok(XmlItem::Text(unescape_text(&t))),
        Ok(RawEvent::End(e)) => Ok(XmlItem::End(end_name(&e))),
        Ok(RawEvent::Eof) => Ok(XmlItem::Eof),
        Ok(RawEvent::Other) => Ok(XmlItem::Other),
        Err(m) => Err(VVError::Xml(m)),
    }
}

/// The attributes as plain values.
pub open spec fn attrs_view(a: Seq<(String, String)>) -> Seq<(Seq<char>, Seq<char>)> {
    a.map_values(|x: (String, String)| (x.0@, x.1@))
}

/// The value of the last attribute named `key`, or empty text if none is.
pub open spec fn attr_value(a: Seq<(Seq<char>, Seq<char>)>, key: Seq<char>) -> Seq<char>
    decreases a.len(),
{
    if a.len() == 0 {
        Seq::<char>::empty()
    } else if a.last().0 == key {
        a.last().1
    } else {
        attr_value(a.drop_last(), key)
    }
}

/// Computes `attr_value`.
pub fn attribute(attrs: &Vec<(String, String)>, key: &[char]) -> (res: String)
    ensures
        res@ == attr_value(attrs_view(attrs@), key@),
{
    let ghost av = attrs_view(attrs@);
    let mut k: usize = attrs.len();
    assert(av.take(k as int) == av);
    while k > 0
        invariant
            k <= attrs.len(),
            av == attrs_view(attrs@),
            attr_value(av.take(k as int), key@) == attr_value(av, key@),
        decreases k,
    {
        assert(av.take(k as int).last() == (attrs@[k - 1].0@, attrs@[k - 1].1@));
        assert(av.take(k as int).drop_last() == av.take(k - 1));
        if chars_eq(chars_of(attrs[k - 1].0.as_str()).as_slice(), key) {
            return string_from_chars(chars_of(attrs[k - 1].1.as_str()).as_slice());
        }
        k = k - 1;
    }
    String::new()
}

/// The name is `n` (given as characters).
fn name_is(name: &String, n: &[char]) -> (res: bool)
    ensures
        res == (name@ == n@),
{
    chars_eq(chars_of(name.as_str()).as_slice(), n)
}

// ---------------------------------------------------------------------------
// Shared strings
// ---------------------------------------------------------------------------

/// The state of reading the shared strings table: the strings so far, the
/// one being read, and whether inside an `si` and a `t` element.
pub struct SharedStrings {
    pub strings: Vec<String>,
    pub current: String,
    pub in_si: bool,
    pub in_t: bool,
}

/// The shared strings state as plain values.
pub open spec fn shared_view(s: SharedStrings) -> (Seq<Seq<char>>, Seq<char>, bool, bool) {
    (string_views(s.strings@), s.current@, s.in_si, s.in_t)
}

/// The name `si`.
pub open spec fn si_name() -> Seq<char> { seq!['s', 'i'] }

/// The name `t`.
pub open spec fn t_name() -> Seq<char> { seq!['t'] }

/// One event of the shared strings part: `si` starts a string, `t` inside
/// it starts its text, text inside `t` is appended, the end of `si` records
/// the string; an unescaping error inside `t` is an error.
pub open spec fn shared_step(st: (Seq<Seq<char>>, Seq<char>, bool, bool), ev: ItemView) -> Result<(Seq<Seq<char>>, Seq<char>, bool, bool), Seq<char>> {
    let (strings, current, in_si, in_t) = st;
    match ev {
        ItemView::Start(name, _) => if name == si_name() {
            Ok((strings, Seq::<char>::empty(), true, in_t))
        } else if name == t_name() && in_si {
            Ok((strings, current, in_si, true))
        } else {
            Ok(st)
        },
        ItemView::Text(r) => if in_t {
            match r {
                Ok(x) => Ok((strings, current + x, in_si, in_t)),
                Err(m) => Err(m),
            }
        } else {
            Ok(st)
        },
        ItemView::End(n) => if n == si_name() {
            Ok((strings.push(current), Seq::<char>::empty(), false, in_t))
        } else if n == t_name() {
            Ok((strings, current, in_si, false))
        } else {
            Ok(st)
        },
        _ => Ok(st),
    }
}

/// Applies one event to the shared strings state.
pub fn shared_strings_step(st: &mut SharedStrings, ev: &XmlItem) -> (res: Result<(), VVError>)
    ensures
        match shared_step(shared_view(*old(st)), item_view(*ev)) {
            Ok(n) => res is Ok && shared_view(*final(st)) == n,
            Err(m) => res matches Err(VVError::Xml(e)) && e@ == m,
        },
{
    let si: [char; 2] = ['s', 'i'];
    let t: [char; 1] = ['t'];
    assert(si@ == si_name() && t@ == t_name());
    match ev {
        XmlItem::Start(tag) => {
            if name_is(&tag.name, &si) {
                st.in_si = true;
                st.current = String::new();
            } else if name_is(&tag.name, &t) && st.in_si {
                st.in_t = true;
            }
            Ok(())
        },
        XmlItem::Text(r) => {
            if st.in_t {
                match r {
                    Ok(x) => {
                        let mut c = chars_of(st.current.as_str());
                        extend(&mut c, chars_of(x.as_str()).as_slice());
                        st.current = string_from_chars(c.as_slice());
                        Ok(())
                    },
                    Err(m) => Err(VVError::Xml(string_from_chars(chars_of(m.as_str()).as_slice()))),
                }
            } else {
                Ok(())
            }
        },
        XmlItem::End(n) => {
            if name_is(n, &si) {
                st.in_si = false;
                let cur = string_from_chars(chars_of(st.current.as_str()).as_slice());
                let ghost before = string_views(st.strings@);
                st.strings.push(cur);
                assert(string_views(st.strings@) == before.push(cur@));
                st.current = String::new();
            } else if name_is(n, &t) {
                st.in_t = false;
            }
            Ok(())
        },
        _ => Ok(()),
    }
}

// ---------------------------------------------------------------------------
// Sheet list and relationships
// ---------------------------------------------------------------------------

/// One event of the workbook part: a `sheet` element (empty or not) with a
/// non-empty `name` and `r:id` adds (name, id).
pub open spec fn sheet_step(sheets: Seq<(Seq<char>, Seq<char>)>, ev: ItemView) -> Seq<(Seq<char>, Seq<char>)> {
    let tag_of = |tname: Seq<char>, attrs: Seq<(Seq<char>, Seq<char>)>| {
        if tname == seq!['s', 'h', 'e', 'e', 't'] {
            let name = attr_value(attrs, seq!['n', 'a', 'm', 'e']);
            let rid = attr_value(attrs, seq!['r', ':', 'i', 'd']);
            if name.len() > 0 && rid.len() > 0 { sheets.push((name, rid)) } else { sheets }
        } else {
            sheets
        }
    };
    match ev {
        ItemView::Start(n, a) => tag_of(n, a),
        ItemView::Empty(n, a) => tag_of(n, a),
        _ => sheets,
    }
}

/// One event of the workbook relationships part: a `Relationship` element
/// with a non-empty `Id` and `Target` maps the id to the target, replacing
/// an earlier mapping of the same id.
pub open spec fn relationship_step(rels: Seq<(Seq<char>, Seq<char>)>, ev: ItemView) -> Seq<(Seq<char>, Seq<char>)> {
    let tag_of = |tname: Seq<char>, attrs: Seq<(Seq<char>, Seq<char>)>| {
        if tname == seq!['R', 'e', 'l', 'a', 't', 'i', 'o', 'n', 's', 'h', 'i', 'p'] {
            let id = attr_value(attrs, seq!['I', 'd']);
            let target = attr_value(attrs, seq!['T', 'a', 'r', 'g', 'e', 't']);
            if id.len() > 0 && target.len() > 0 { map_insert(rels, id, target) } else { rels }
        } else {
            rels
        }
    };
    match ev {
        ItemView::Start(n, a) => tag_of(n, a),
        ItemView::Empty(n, a) => tag_of(n, a),
        _ => rels,
    }
}

/// Index of the entry with key `k`.
pub open spec fn key_index(m: Seq<(Seq<char>, Seq<char>)>, k: Seq<char>) -> Option<int>
    decreases m.len(),
{
    if m.len() == 0 {
        None
    } else if m.last().0 == k {
        Some(m.len() - 1)
    } else {
        key_index(m.drop_last(), k)
    }
}

/// Maps `k` to `v`: the entry with that key gets the value, or a new entry
/// is added.
pub open spec fn map_insert(m: Seq<(Seq<char>, Seq<char>)>, k: Seq<char>, v: Seq<char>) -> Seq<(Seq<char>, Seq<char>)> {
    match key_index(m, k) {
        Some(i) => m.update(i, (k, v)),
        None => m.push((k, v)),
    }
}

proof fn lemma_key_index(m: Seq<(Seq<char>, Seq<char>)>, k: Seq<char>)
    ensures
        match key_index(m, k) {
            Some(i) => 0 <= i < m.len() && m[i].0 == k,
            None => forall|j: int| 0 <= j < m.len() ==> (#[trigger] m[j]).0 != k,
        },
    decreases m.len(),
{
    if m.len() > 0 && m.last().0 != k {
        lemma_key_index(m.drop_last(), k);
        assert forall|j: int| 0 <= j < m.len() - 1 implies m.drop_last()[j] == #[trigger] m[j] by {}
    }
}

/// The pairs as plain values.
pub open spec fn pairs_view(v: Seq<(String, String)>) -> Seq<(Seq<char>, Seq<char>)> {
    v.map_values(|x: (String, String)| (x.0@, x.1@))
}

fn key_index_exec(m: &Vec<(String, String)>, k: &[char]) -> (res: Option<usize>)
    ensures
        match res {
            Some(i) => key_index(pairs_view(m@), k@) == Some(i as int),
            None => key_index(pairs_view(m@), k@) is None,
        },
{
    let ghost mv = pairs_view(m@);
    let mut j: usize = m.len();
    assert(mv.take(j as int) == mv);
    while j > 0
        invariant
            j <= m.len(),
            mv == pairs_view(m@),
            key_index(mv.take(j as int), k@) is Some ==> key_index(mv, k@) == key_index(mv.take(j as int), k@),
            key_index(mv.take(j as int), k@) is None ==> (key_index(mv, k@) is None || key_index(mv, k@) == key_index(mv, k@)),
            forall|q: int| j <= q < m.len() ==> mv[q].0 != k@,
        decreases j,
    {
        assert(mv.take(j as int).last() == mv[j - 1]);
        assert(mv.take(j as int).drop_last() == mv.take(j - 1));
        if chars_eq(chars_of(m[j - 1].0.as_str()).as_slice(), k) {
            proof { lemma_key_index_suffix(mv, k@, j as int); }
            return Some(j - 1);
        }
        j = j - 1;
    }
    proof {
        lemma_key_index(mv, k@);
    }
    None
}

proof fn lemma_key_index_suffix(m: Seq<(Seq<char>, Seq<char>)>, k: Seq<char>, j: int)
    requires
        0 < j <= m.len(),
        m[j - 1].0 == k,
        forall|q: int| j <= q < m.len() ==> m[q].0 != k,
    ensures
        key_index(m, k) == Some(j - 1),
    decreases m.len(),
{
    if m.len() > j {
        assert(m.last() == m[m.len() - 1]);
        assert forall|q: int| j <= q < m.drop_last().len() implies m.drop_last()[q].0 != k by {
            assert(m.drop_last()[q] == m[q]);
        }
        assert(m.drop_last()[j - 1] == m[j - 1]);
        lemma_key_index_suffix(m.drop_last(), k, j);
    }
}

/// Applies one event of the workbook part.
pub fn workbook_step(sheets: &mut Vec<(String, String)>, ev: &XmlItem)
    ensures
        pairs_view(final(sheets)@) == sheet_step(pairs_view(old(sheets)@), item_view(*ev)),
{
    let sheet: [char; 5] = ['s', 'h', 'e', 'e', 't'];
    let name: [char; 4] = ['n', 'a', 'm', 'e'];
    let rid: [char; 4] = ['r', ':', 'i', 'd'];
    assert(sheet@ == seq!['s', 'h', 'e', 'e', 't'] && name@ == seq!['n', 'a', 'm', 'e'] && rid@ == seq!['r', ':', 'i', 'd']);
    let tag = match ev {
        XmlItem::Start(t) => t,
        XmlItem::Empty(t) => t,
        _ => return,
    };
    if name_is(&tag.name, &sheet) {
        let n = attribute(&tag.attributes, &name);
        let r = attribute(&tag.attributes, &rid);
        if !n.as_str().is_empty() && !r.as_str().is_empty() {
            let ghost before = pairs_view(sheets@);
            sheets.push((n, r));
            assert(pairs_view(sheets@) =~= before.push((n@, r@)));
        }
    }
}

/// Applies one event of the relationships part.
pub fn relationships_step(rels: &mut Vec<(String, String)>, ev: &XmlItem)
    ensures
        pairs_view(final(rels)@) == relationship_step(pairs_view(old(rels)@), item_view(*ev)),
{
    let relationship: [char; 12] = ['R', 'e', 'l', 'a', 't', 'i', 'o', 'n', 's', 'h', 'i', 'p'];
    let id: [char; 2] = ['I', 'd'];
    let target: [char; 6] = ['T', 'a', 'r', 'g', 'e', 't'];
    assert(relationship@ == seq!['R', 'e', 'l', 'a', 't', 'i', 'o', 'n', 's', 'h', 'i', 'p']);
    assert(id@ == seq!['I', 'd'] && target@ == seq!['T', 'a', 'r', 'g', 'e', 't']);
    let tag = match ev {
        XmlItem::Start(t) => t,
        XmlItem::Empty(t) => t,
        _ => return,
    };
    if name_is(&tag.name, &relationship) {
        let i = attribute(&tag.attributes, &id);
        let t = attribute(&tag.attributes, &target);
        if !i.as_str().is_empty() && !t.as_str().is_empty() {
            let ghost before = pairs_view(rels@);
            proof { lemma_key_index(pairs_view(rels@), i@); }
            match key_index_exec(rels, chars_of(i.as_str()).as_slice()) {
                Some(j) => {
                    rels.set(j, (i, t));
                    assert(pairs_view(rels@) =~= before.update(j as int, (i@, t@)));
                },
                None => {
                    rels.push((i, t));
                    assert(pairs_view(rels@) =~= before.push((i@, t@)));
                },
            }
        }
    }
}

/// The part a relationship target names: without its leading `/`s when it
/// has one, otherwise below `xl/`.
pub open spec fn target_part(target: Seq<char>) -> Seq<char> {
    if target.len() > 0 && target[0] == '/' {
        target.skip(leading_slashes(target) as int)
    } else {
        seq!['x', 'l', '/'] + target
    }
}

/// Number of leading `/` characters.
pub open spec fn leading_slashes(s: Seq<char>) -> nat
    decreases s.len(),
{
    if s.len() > 0 && s[0] == '/' { 1 + leading_slashes(s.skip(1)) } else { 0 }
}

/// Each sheet with a known relationship id, with the part holding it, in
/// sheet order.
pub open spec fn spec_sheet_paths(sheets: Seq<(Seq<char>, Seq<char>)>, rels: Seq<(Seq<char>, Seq<char>)>) -> Seq<(Seq<char>, Seq<char>)>
    decreases sheets.len(),
{
    if sheets.len() == 0 {
        Seq::empty()
    } else {
        let r = spec_sheet_paths(sheets.drop_last(), rels);
        match key_index(rels, sheets.last().1) {
            Some(i) => r.push((sheets.last().0, target_part(rels[i].1))),
            None => r,
        }
    }
}

proof fn lemma_leading_slashes(s: Seq<char>, i: int)
    requires
        0 <= i <= s.len(),
        forall|j: int| 0 <= j < i ==> s[j] == '/',
        i < s.len() ==> s[i] != '/',
    ensures
        leading_slashes(s) == i,
    decreases i,
{
    if i > 0 {
        assert forall|j: int| 0 <= j < i - 1 implies s.skip(1)[j] == '/' by {
            assert(s.skip(1)[j] == s[j + 1]);
        }
        if i < s.len() {
            assert(s.skip(1)[i - 1] == s[i]);
        }
        lemma_leading_slashes(s.skip(1), i - 1);
    } else if s.len() > 0 {
        assert(s[0] != '/');
    }
}

fn target_part_exec(target: &String) -> (res: String)
    ensures
        res@ == target_part(target@),
{
    let t = chars_of(target.as_str());
    if t.len() > 0 && t[0] == '/' {
        let mut i: usize = 0;
        while i < t.len() && t[i] == '/'
            invariant
                i <= t.len(),
                forall|j: int| 0 <= j < i ==> t@[j] == '/',
            decreases t.len() - i,
        {
            i = i + 1;
        }
        proof { lemma_leading_slashes(t@, i as int); }
        let r = crate::text::sub_chars(t.as_slice(), i, t.len());
        assert(r@ == t@.skip(i as int));
        string_from_chars(r.as_slice())
    } else {
        let mut r: Vec<char> = vec!['x', 'l', '/'];
        extend(&mut r, t.as_slice());
        assert(r@ == seq!['x', 'l', '/'] + t@);
        string_from_chars(r.as_slice())
    }
}

/// Pairs each sheet name with the part holding the sheet.
pub fn resolve_sheet_paths(sheets: &Vec<(String, String)>, rels: &Vec<(String, String)>) -> (res: Vec<(String, String)>)
    ensures
        pairs_view(res@) == spec_sheet_paths(pairs_view(sheets@), pairs_view(rels@)),
{
    let ghost sv = pairs_view(sheets@);
    let mut res: Vec<(String, String)> = Vec::new();
    let mut i: usize = 0;
    while i < sheets.len()
        invariant
            i <= sheets.len(),
            sv == pairs_view(sheets@),
            pairs_view(res@) == spec_sheet_paths(sv.take(i as int), pairs_view(rels@)),
        decreases sheets.len() - i,
    {
        assert(sv.take(i + 1).drop_last() == sv.take(i as int));
        assert(sv.take(i + 1).last() == (sheets@[i as int].0@, sheets@[i as int].1@));
        match key_index_exec(rels, chars_of(sheets[i].1.as_str()).as_slice()) {
            Some(j) => {
                proof { lemma_key_index(pairs_view(rels@), sheets@[i as int].1@); }
                let name = string_from_chars(chars_of(sheets[i].0.as_str()).as_slice());
                let path = target_part_exec(&rels[j].1);
                let ghost before = pairs_view(res@);
                res.push((name, path));
                assert(pairs_view(res@) =~= before.push((name@, path@)));
            },
            None => {},
        }
        i = i + 1;
    }
    assert(sv.take(sheets.len() as int) == sv);
    res
}

// ---------------------------------------------------------------------------
// Worksheets
// ---------------------------------------------------------------------------

/// A cell skipped while reading a sheet, for the reader to be told of.
pub enum SheetWarning {
    /// A shared-string cell whose index is past the table (`max` being the
    /// last index, or 0 for an empty table).
    IndexOutOfRange { index: usize, max: usize, cell: String },
    /// A shared-string cell whose value is not an index.
    MalformedIndex { value: String, cell: String },
}

/// A warning as plain values: (out of range?, index, max, value, cell).
pub open spec fn warning_view(w: SheetWarning) -> (bool, int, int, Seq<char>, Seq<char>) {
    match w {
        SheetWarning::IndexOutOfRange { index, max, cell } => (true, index as int, max as int, Seq::<char>::empty(), cell@),
        SheetWarning::MalformedIndex { value, cell } => (false, 0, 0, value@, cell@),
    }
}

/// The state of reading a sheet: the cells so far (row, column, text),
/// the largest row and column, and the cell being read.
pub struct SheetState {
    pub cells: Vec<(usize, usize, String)>,
    pub max_row: usize,
    pub max_col: usize,
    pub cell_ref: String,
    pub cell_type: String,
    pub in_cell: bool,
    pub in_value: bool,
    pub in_inline: bool,
    pub in_t: bool,
    pub value: String,
    pub warnings: Vec<SheetWarning>,
}

/// The sheet state as plain values.
pub struct SheetView {
    pub cells: Seq<(int, int, Seq<char>)>,
    pub max_row: int,
    pub max_col: int,
    pub cell_ref: Seq<char>,
    pub cell_type: Seq<char>,
    pub in_cell: bool,
    pub in_value: bool,
    pub in_inline: bool,
    pub in_t: bool,
    pub value: Seq<char>,
    pub warnings: Seq<(bool, int, int, Seq<char>, Seq<char>)>,
}

/// The cells as plain values.
pub open spec fn cells_view(c: Seq<(usize, usize, String)>) -> Seq<(int, int, Seq<char>)> {
    c.map_values(|x: (usize, usize, String)| (x.0 as int, x.1 as int, x.2@))
}

/// The view of a sheet state.
pub open spec fn sheet_view(s: SheetState) -> SheetView {
    SheetView {
        cells: cells_view(s.cells@),
        max_row: s.max_row as int,
        max_col: s.max_col as int,
        cell_ref: s.cell_ref@,
        cell_type: s.cell_type@,
        in_cell: s.in_cell,
        in_value: s.in_value,
        in_inline: s.in_inline,
        in_t: s.in_t,
        value: s.value@,
        warnings: s.warnings@.map_values(|w: SheetWarning| warning_view(w)),
    }
}

/// A state before the first event.
pub fn new_sheet_state() -> (res: SheetState)
    ensures
        sheet_view(res).cells.len() == 0,
        res.max_row == 0 && res.max_col == 0,
        sheet_view(res).cell_ref.len() == 0 && sheet_view(res).cell_type.len() == 0 && sheet_view(res).value.len() == 0,
        !res.in_cell && !res.in_value && !res.in_inline && !res.in_t,
        res.warnings@.len() == 0,
        sheet_view(res) == initial_sheet(),
{
    let res = SheetState {
        cells: Vec::new(),
        max_row: 0,
        max_col: 0,
        cell_ref: String::new(),
        cell_type: String::new(),
        in_cell: false,
        in_value: false,
        in_inline: false,
        in_t: false,
        value: String::new(),
        warnings: Vec::new(),
    };
    proof {
        let v = sheet_view(res);
        assert(v.cells =~= Seq::<(int, int, Seq<char>)>::empty());
        assert(v.warnings =~= Seq::<(bool, int, int, Seq<char>, Seq<char>)>::empty());
        assert(v.cell_ref =~= Seq::<char>::empty());
        assert(v.cell_type =~= Seq::<char>::empty());
        assert(v.value =~= Seq::<char>::empty());
    }
    res
}

/// Index of the cell at (row, column).
pub open spec fn cell_index(cells: Seq<(int, int, Seq<char>)>, row: int, col: int) -> Option<int>
    decreases cells.len(),
{
    if cells.len() == 0 {
        None
    } else if cells.last().0 == row && cells.last().1 == col {
        Some(cells.len() - 1)
    } else {
        cell_index(cells.drop_last(), row, col)
    }
}

/// The text of the cell at (row, column), if there is one.
pub open spec fn cell_at(cells: Seq<(int, int, Seq<char>)>, row: int, col: int) -> Option<Seq<char>> {
    match cell_index(cells, row, col) {
        Some(i) => Some(cells[i].2),
        None => None,
    }
}

/// Sets the cell at (row, column), replacing an earlier value.
pub open spec fn cell_insert(cells: Seq<(int, int, Seq<char>)>, row: int, col: int, v: Seq<char>) -> Seq<(int, int, Seq<char>)> {
    match cell_index(cells, row, col) {
        Some(i) => cells.update(i, (row, col, v)),
        None => cells.push((row, col, v)),
    }
}

/// An unsigned number's text without its `+`.
pub open spec fn uint_digits(s: Seq<char>) -> Seq<char> {
    if s.len() > 0 && s[0] == '+' { s.skip(1) } else { s }
}

/// The number a text denotes in the syntax of `str::parse` for unsigned
/// integers: an optional `+`, then one or more ASCII digits.
pub open spec fn spec_parse_uint(s: Seq<char>) -> Option<int> {
    if s.len() == 0 {
        None
    } else {
        let digits = uint_digits(s);
        if digits.len() == 0 || !(forall|k: int| 0 <= k < digits.len() ==> is_digit(#[trigger] digits[k])) {
            None
        } else {
            Some(digits_value(digits))
        }
    }
}

/// The element names the sheet reader looks at.
pub open spec fn c_name() -> Seq<char> { seq!['c'] }
pub open spec fn v_name() -> Seq<char> { seq!['v'] }
pub open spec fn is_name() -> Seq<char> { seq!['i', 's'] }
pub open spec fn s_type() -> Seq<char> { seq!['s'] }

/// The state after a cell whose text is dropped: the cell forgotten and
/// the reader no longer in a cell.
pub open spec fn skip_cell(st: SheetView, w: (bool, int, int, Seq<char>, Seq<char>)) -> SheetView {
    SheetView {
        cell_ref: Seq::<char>::empty(),
        value: Seq::<char>::empty(),
        cell_type: Seq::<char>::empty(),
        in_cell: false,
        warnings: st.warnings.push(w),
        ..st
    }
}

/// The end of a `c` element: a cell with a reference and a value is
/// recorded at the row and column its reference gives, its text being the
/// shared string its value indexes when its type is `s`; a shared-string
/// cell whose value is no index into the table is skipped with a warning.
pub open spec fn end_cell(st: SheetView, shared: Seq<Seq<char>>) -> SheetView {
    let closed = |s: SheetView| SheetView { in_cell: false, in_inline: false, in_t: false, ..s };
    if st.cell_ref.len() > 0 && st.value.len() > 0 {
        let (row, col) = spec_cell_ref(st.cell_ref);
        let record = |v: Seq<char>| closed(SheetView {
            cells: cell_insert(st.cells, row, col, v),
            max_row: if row > st.max_row { row } else { st.max_row },
            max_col: if col > st.max_col { col } else { st.max_col },
            ..st
        });
        if st.cell_type == s_type() {
            match spec_parse_uint(st.value) {
                Some(idx) => if idx > usize::MAX {
                    skip_cell(st, (false, 0, 0, st.value, st.cell_ref))
                } else if idx < shared.len() {
                    record(shared[idx])
                } else {
                    skip_cell(st, (true, idx, if shared.len() > 0 { shared.len() - 1 } else { 0 }, Seq::<char>::empty(), st.cell_ref))
                },
                None => skip_cell(st, (false, 0, 0, st.value, st.cell_ref)),
            }
        } else {
            record(st.value)
        }
    } else {
        closed(st)
    }
}

/// One event of a sheet part.
pub open spec fn sheet_event(st: SheetView, ev: ItemView, shared: Seq<Seq<char>>) -> Result<SheetView, Seq<char>> {
    match ev {
        ItemView::Start(n, attrs) => {
            if n == c_name() {
                Ok(SheetView {
                    in_cell: true,
                    cell_ref: attr_value(attrs, seq!['r']),
                    cell_type: attr_value(attrs, seq!['t']),
                    value: Seq::<char>::empty(),
                    ..st
                })
            } else if n == v_name() && st.in_cell {
                Ok(SheetView { in_value: true, ..st })
            } else if n == is_name() && st.in_cell {
                Ok(SheetView { in_inline: true, ..st })
            } else if n == t_name() && st.in_inline {
                Ok(SheetView { in_t: true, ..st })
            } else {
                Ok(st)
            }
        },
        ItemView::Text(r) => if st.in_value || st.in_t {
            match r {
                Ok(x) => Ok(SheetView { value: st.value + x, ..st }),
                Err(m) => Err(m),
            }
        } else {
            Ok(st)
        },
        ItemView::End(n) => if n == c_name() {
            Ok(end_cell(st, shared))
        } else if n == v_name() {
            Ok(SheetView { in_value: false, ..st })
        } else if n == is_name() {
            Ok(SheetView { in_inline: false, ..st })
        } else if n == t_name() {
            Ok(SheetView { in_t: false, ..st })
        } else {
            Ok(st)
        },
        _ => Ok(st),
    }
}

/// The event ends a cell whose reference names a row or column past what
/// a `usize` holds.
pub open spec fn ref_overflows(st: SheetView, ev: ItemView) -> bool {
    &&& ev matches ItemView::End(n) && n == c_name()
    &&& st.cell_ref.len() > 0 && st.value.len() > 0
    &&& (spec_cell_ref(st.cell_ref).0 > usize::MAX || spec_cell_ref(st.cell_ref).1 > usize::MAX)
}

proof fn lemma_cell_index(cells: Seq<(int, int, Seq<char>)>, row: int, col: int)
    ensures
        match cell_index(cells, row, col) {
            Some(i) => 0 <= i < cells.len() && cells[i].0 == row && cells[i].1 == col,
            None => true,
        },
    decreases cells.len(),
{
    if cells.len() > 0 && !(cells.last().0 == row && cells.last().1 == col) {
        lemma_cell_index(cells.drop_last(), row, col);
    }
}

fn cell_index_exec(cells: &Vec<(usize, usize, String)>, row: usize, col: usize) -> (res: Option<usize>)
    ensures
        match res {
            Some(i) => i < cells.len() && cell_index(cells_view(cells@), row as int, col as int) == Some(i as int),
            None => cell_index(cells_view(cells@), row as int, col as int) is None,
        },
{
    let ghost cv = cells_view(cells@);
    let mut j: usize = cells.len();
    assert(cv.take(j as int) == cv);
    while j > 0
        invariant
            j <= cells.len(),
            cv == cells_view(cells@),
            cell_index(cv.take(j as int), row as int, col as int) == cell_index(cv, row as int, col as int),
        decreases j,
    {
        assert(cv.take(j as int).last() == cv[j - 1]);
        assert(cv.take(j as int).drop_last() == cv.take(j - 1));
        if cells[j - 1].0 == row && cells[j - 1].1 == col {
            return Some(j - 1);
        }
        j = j - 1;
    }
    None
}

proof fn lemma_uint_digits(s: Seq<char>, start: int)
    requires
        s.len() > 0,
        start == if s[0] == '+' { 1int } else { 0int },
    ensures
        s.skip(start) == uint_digits(s),
{
    if start == 0 {
        assert(s.skip(0) == s);
    }
}

/// `str::parse::<usize>`: the number the text denotes, if it is one and
/// fits.
#[verifier::loop_isolation(false)]
pub fn parse_usize(text: &str) -> (res: Option<usize>)
    ensures
        match res {
            Some(v) => spec_parse_uint(text@) == Some(v as int),
            None => match spec_parse_uint(text@) {
                Some(n) => n > usize::MAX,
                None => true,
            },
        },
{
    let s = chars_of(text);
    if s.len() == 0 {
        return None;
    }
    let start: usize = if s[0] == '+' { 1 } else { 0 };
    proof { lemma_uint_digits(s@, start as int); }
    if start == s.len() {
        return None;
    }
    let mut k: usize = start;
    while k < s.len()
        invariant
            start <= k <= s.len(),
            s@ == text@,
            forall|m: int| start <= m < k ==> is_digit(#[trigger] s@[m]),
        decreases s.len() - k,
    {
        if !('0' <= s[k] && s[k] <= '9') {
            assert(uint_digits(text@)[k - start] == s@[k as int]);
            assert(!is_digit(uint_digits(text@)[k - start]));
            return None;
        }
        k = k + 1;
    }
    let ghost digits = s@.skip(start as int);
    assert(forall|m: int| 0 <= m < digits.len() ==> is_digit(#[trigger] digits[m])) by {
        assert forall|m: int| 0 <= m < digits.len() implies is_digit(#[trigger] digits[m]) by {
            assert(digits[m] == s@[start + m]);
        }
    }
    let mut acc: usize = 0;
    let mut j: usize = start;
    while j < s.len()
        invariant
            start <= j <= s.len(),
            s@ == text@,
            digits == s@.skip(start as int),
            forall|m: int| 0 <= m < digits.len() ==> is_digit(#[trigger] digits[m]),
            acc as int == digits_value(digits.take(j - start)),
        decreases s.len() - j,
    {
        assert(digits.take(j + 1 - start).drop_last() == digits.take(j - start));
        assert(digits.take(j + 1 - start).last() == s@[j as int]);
        let d: usize = (s[j] as u32 - '0' as u32) as usize;
        assert(digits_value(digits.take(j + 1 - start)) == acc as int * 10 + d as int);
        match acc.checked_mul(10) {
            Some(m) => match m.checked_add(d) {
                Some(n) => { acc = n; },
                None => {
                    proof { crate::units::parse::lemma_digits_grow(digits, j + 1 - start); }
                    return None;
                },
            },
            None => {
                proof { crate::units::parse::lemma_digits_grow(digits, j + 1 - start); }
                return None;
            },
        }
        j = j + 1;
    }
    assert(digits.take(s.len() - start) == digits);
    Some(acc)
}

fn copy_str(s: &String) -> (res: String)
    ensures
        res@ == s@,
{
    string_from_chars(chars_of(s.as_str()).as_slice())
}

/// Records a cell's text at (row, column).
fn insert_cell(st: &mut SheetState, row: usize, col: usize, v: String)
    ensures
        sheet_view(*final(st)) == (SheetView {
            cells: cell_insert(sheet_view(*old(st)).cells, row as int, col as int, v@),
            max_row: if row > old(st).max_row { row as int } else { old(st).max_row as int },
            max_col: if col > old(st).max_col { col as int } else { old(st).max_col as int },
            ..sheet_view(*old(st))
        }),
{
    let ghost before = cells_view(st.cells@);
    proof { lemma_cell_index(before, row as int, col as int); }
    match cell_index_exec(&st.cells, row, col) {
        Some(i) => {
            st.cells.set(i, (row, col, v));
            assert(cells_view(st.cells@) =~= before.update(i as int, (row as int, col as int, v@)));
        },
        None => {
            st.cells.push((row, col, v));
            assert(cells_view(st.cells@) =~= before.push((row as int, col as int, v@)));
        },
    }
    if row > st.max_row {
        st.max_row = row;
    }
    if col > st.max_col {
        st.max_col = col;
    }
}

/// Forgets the cell being read, with a warning.
fn skip_cell_exec(st: &mut SheetState, w: SheetWarning)
    ensures
        sheet_view(*final(st)) == skip_cell(sheet_view(*old(st)), warning_view(w)),
{
    let ghost before = st.warnings@.map_values(|x: SheetWarning| warning_view(x));
    st.warnings.push(w);
    assert(st.warnings@.map_values(|x: SheetWarning| warning_view(x)) =~= before.push(warning_view(w)));
    st.cell_ref = String::new();
    st.value = String::new();
    st.cell_type = String::new();
    st.in_cell = false;
}

/// Applies one event of a sheet part. A cell whose reference names a row
/// or column past what a `usize` holds is refused with `XlsxFormat`.
pub fn worksheet_step(st: &mut SheetState, ev: &XmlItem, shared: &Vec<String>) -> (res: Result<(), VVError>)
    ensures
        ref_overflows(sheet_view(*old(st)), item_view(*ev)) ==> (res matches Err(VVError::XlsxFormat(r)) && r@ == old(st).cell_ref@),
        !ref_overflows(sheet_view(*old(st)), item_view(*ev)) ==> match sheet_event(sheet_view(*old(st)), item_view(*ev), string_views(shared@)) {
            Ok(n) => res is Ok && sheet_view(*final(st)) == n,
            Err(m) => res matches Err(VVError::Xml(e)) && e@ == m,
        },
{
    let c: [char; 1] = ['c'];
    let v: [char; 1] = ['v'];
    let is: [char; 2] = ['i', 's'];
    let t: [char; 1] = ['t'];
    let r: [char; 1] = ['r'];
    let sv: [char; 1] = ['s'];
    assert(c@ == c_name() && v@ == v_name() && is@ == is_name() && t@ == t_name());
    assert(r@ == seq!['r'] && sv@ == s_type());
    match ev {
        XmlItem::Start(tag) => {
            if name_is(&tag.name, &c) {
                st.in_cell = true;
                st.cell_ref = attribute(&tag.attributes, &r);
                st.cell_type = attribute(&tag.attributes, &t);
                st.value = String::new();
            } else if name_is(&tag.name, &v) && st.in_cell {
                st.in_value = true;
            } else if name_is(&tag.name, &is) && st.in_cell {
                st.in_inline = true;
            } else if name_is(&tag.name, &t) && st.in_inline {
                st.in_t = true;
            }
            Ok(())
        },
        XmlItem::Text(x) => {
            if st.in_value || st.in_t {
                match x {
                    Ok(text) => {
                        let mut val = chars_of(st.value.as_str());
                        extend(&mut val, chars_of(text.as_str()).as_slice());
                        st.value = string_from_chars(val.as_slice());
                        Ok(())
                    },
                    Err(m) => Err(VVError::Xml(copy_str(m))),
                }
            } else {
                Ok(())
            }
        },
        XmlItem::End(n) => {
            if name_is(n, &c) {
                if !st.cell_ref.as_str().is_empty() && !st.value.as_str().is_empty() {
                    let (row, col) = match parse_cell_ref_checked(st.cell_ref.as_str()) {
                        Some(rc) => rc,
                        None => return Err(VVError::XlsxFormat(copy_str(&st.cell_ref))),
                    };
                    if name_is(&st.cell_type, &sv) {
                        match parse_usize(st.value.as_str()) {
                            Some(idx) => {
                                if idx < shared.len() {
                                    let text = copy_str(&shared[idx]);
                                    insert_cell(st, row, col, text);
                                } else {
                                    let max: usize = if shared.len() > 0 { shared.len() - 1 } else { 0 };
                                    let w = SheetWarning::IndexOutOfRange { index: idx, max, cell: copy_str(&st.cell_ref) };
                                    skip_cell_exec(st, w);
                                    return Ok(());
                                }
                            },
                            None => {
                                let w = SheetWarning::MalformedIndex { value: copy_str(&st.value), cell: copy_str(&st.cell_ref) };
                                skip_cell_exec(st, w);
                                return Ok(());
                            },
                        }
                    } else {
                        let text = copy_str(&st.value);
                        insert_cell(st, row, col, text);
                    }
                }
                st.in_cell = false;
                st.in_inline = false;
                st.in_t = false;
            } else if name_is(n, &v) {
                st.in_value = false;
            } else if name_is(n, &is) {
                st.in_inline = false;
            } else if name_is(n, &t) {
                st.in_t = false;
            }
            Ok(())
        },
        _ => Ok(()),
    }
}

/// A sheet as a table: column names and rows of cell texts.
pub struct SheetTable {
    pub headers: Vec<String>,
    pub rows: Vec<Vec<String>>,
}

/// The name of column `col`: its first-row cell sanitized, or `col_` and
/// its number when that cell is empty.
pub open spec fn spec_header(cells: Seq<(int, int, Seq<char>)>, col: int) -> Seq<char> {
    match cell_at(cells, 1, col) {
        Some(s) => spec_sanitize(s),
        None => seq!['c', 'o', 'l', '_'] + crate::graph::decimal(col as nat),
    }
}

/// The table's column names: one per column up to the largest, none when
/// the sheet has no cells.
pub open spec fn spec_headers(st: SheetView) -> Seq<Seq<char>> {
    if st.cells.len() == 0 {
        Seq::empty()
    } else {
        Seq::new(st.max_col as nat, |i: int| spec_header(st.cells, i + 1))
    }
}

/// The table's rows: rows 2 up to the largest, each with one text per
/// column (empty for a missing cell); none when the sheet has no cells.
pub open spec fn spec_rows(st: SheetView) -> Seq<Seq<Seq<char>>> {
    if st.cells.len() == 0 {
        Seq::empty()
    } else {
        Seq::new(if st.max_row >= 2 { (st.max_row - 1) as nat } else { 0 }, |r: int|
            Seq::new(st.max_col as nat, |c: int| match cell_at(st.cells, r + 2, c + 1) {
                Some(s) => s,
                None => Seq::<char>::empty(),
            }))
    }
}

/// The rows as plain values.
pub open spec fn rows_view(rows: Seq<Vec<String>>) -> Seq<Seq<Seq<char>>> {
    rows.map_values(|r: Vec<String>| string_views(r@))
}

fn cell_text(st: &SheetState, row: usize, col: usize) -> (res: Option<String>)
    ensures
        match res {
            Some(s) => cell_at(sheet_view(*st).cells, row as int, col as int) == Some(s@),
            None => cell_at(sheet_view(*st).cells, row as int, col as int) is None,
        },
{
    proof { lemma_cell_index(cells_view(st.cells@), row as int, col as int); }
    match cell_index_exec(&st.cells, row, col) {
        Some(i) => Some(copy_str(&st.cells[i].2)),
        None => None,
    }
}

/// Builds the table of a sheet from its cells: the first row gives the
/// column names, the following rows the data.
pub fn sheet_table(st: &SheetState) -> (res: SheetTable)
    ensures
        string_views(res.headers@) == spec_headers(sheet_view(*st)),
        rows_view(res.rows@) == spec_rows(sheet_view(*st)),
{
    let ghost sv = sheet_view(*st);
    if st.cells.len() == 0 {
        let res = SheetTable { headers: Vec::new(), rows: Vec::new() };
        assert(string_views(res.headers@) =~= spec_headers(sv));
        assert(rows_view(res.rows@) =~= spec_rows(sv));
        return res;
    }
    let mut headers: Vec<String> = Vec::new();
    let mut col: usize = 0;
    while col < st.max_col
        invariant
            col <= st.max_col,
            sv == sheet_view(*st),
            string_views(headers@) == Seq::new(col as nat, |i: int| spec_header(sv.cells, i + 1)),
        decreases st.max_col - col,
    {
        let c1 = col + 1;
        let h = match cell_text(st, 1, c1) {
            Some(s) => sanitize_column_name(s.as_str()),
            None => {
                let mut name: Vec<char> = vec!['c', 'o', 'l', '_'];
                extend(&mut name, crate::graph::decimal_chars(c1 as u64).as_slice());
                assert(name@ == seq!['c', 'o', 'l', '_'] + crate::graph::decimal(c1 as nat));
                string_from_chars(name.as_slice())
            },
        };
        let ghost before = string_views(headers@);
        headers.push(h);
        assert(string_views(headers@) =~= Seq::new((col + 1) as nat, |i: int| spec_header(sv.cells, i + 1))) by {
            assert(string_views(headers@) == before.push(h@));
        }
        col = col + 1;
    }
    let nrows: usize = if st.max_row >= 2 { st.max_row - 1 } else { 0 };
    let mut rows: Vec<Vec<String>> = Vec::new();
    let mut r: usize = 0;
    while r < nrows
        invariant
            r <= nrows,
            nrows as int == (if sv.max_row >= 2 { sv.max_row - 1 } else { 0 }),
            sv == sheet_view(*st),
            rows_view(rows@) == Seq::new(r as nat, |q: int| Seq::new(sv.max_col as nat, |c: int| match cell_at(sv.cells, q + 2, c + 1) {
                Some(s) => s,
                None => Seq::<char>::empty(),
            })),
        decreases nrows - r,
    {
        let mut row: Vec<String> = Vec::new();
        let mut c: usize = 0;
        while c < st.max_col
            invariant
                c <= st.max_col,
                r < nrows,
                nrows as int == (if sv.max_row >= 2 { sv.max_row - 1 } else { 0 }),
                sv == sheet_view(*st),
                string_views(row@) == Seq::new(c as nat, |k: int| match cell_at(sv.cells, r + 2, k + 1) {
                    Some(s) => s,
                    None => Seq::<char>::empty(),
                }),
            decreases st.max_col - c,
        {
            let text = match cell_text(st, r + 2, c + 1) {
                Some(s) => s,
                None => String::new(),
            };
            let ghost before = string_views(row@);
            row.push(text);
            assert(string_views(row@) =~= Seq::new((c + 1) as nat, |k: int| match cell_at(sv.cells, r + 2, k + 1) {
                Some(s) => s,
                None => Seq::<char>::empty(),
            })) by {
                assert(string_views(row@) == before.push(text@));
            }
            c = c + 1;
        }
        let ghost before = rows_view(rows@);
        let ghost rv = string_views(row@);
        rows.push(row);
        assert(rows_view(rows@) =~= before.push(rv));
        assert(rows_view(rows@) =~= Seq::new((r + 1) as nat, |q: int| Seq::new(sv.max_col as nat, |c: int| match cell_at(sv.cells, q + 2, c + 1) {
            Some(s) => s,
            None => Seq::<char>::empty(),
        })));
        r = r + 1;
    }
    SheetTable { headers, rows }
}

// ---------------------------------------------------------------------------
// Reading the workbook
// ---------------------------------------------------------------------------

/// The errors reading a part of the workbook can give.
pub open spec fn part_error(e: VVError) -> bool {
    e is Zip || e is Io || e is Xml || e is XlsxFormat
}

/// Reads the part `name` of the archive: the contents of the entry of that
/// name; a zip error when the archive has none or cannot open it, an XML
/// error (as the XML reader reports a failed read of its input) when its
/// contents cannot be read to the end. The entries stay.
fn part_bytes(archive: &mut MemArchive, name: &str) -> (res: Result<Vec<u8>, VVError>)
    ensures
        archive_entries(*final(archive)) == archive_entries(*old(archive)),
        match part_contents(archive_entries(*old(archive)), name@) {
            Some(c) => res matches Ok(b) && b@ == c,
            None => res matches Err(e) && part_error(e),
        },
{
    let ghost es = archive_entries(*archive);
    proof {
        if has_entry(es, name@) {
            let i = choose|i: int| 0 <= i < es.len() && #[trigger] es[i].0 == name@;
            assert(es[i].0 == name@);
        }
    }
    match entry_contents_named(archive, name) {
        Ok(b) => Ok(b),
        Err(EntryReadError::Zip(z)) => Err(VVError::Zip(zip_error_text(&z))),
        Err(EntryReadError::Io(i)) => Err(VVError::Xml(xml_io_error_text(i))),
    }
}

/// The text of the XML reader's error for a failed read of its input: the
/// `Display` of `quick_xml::Error::from` the I/O error (`I/O error: ` and
/// the I/O error's text). Nothing is stated of the text.
#[verifier::external_body]
fn xml_io_error_text(e: std::io::Error) -> (res: String) {
    quick_xml::Error::from(e).to_string()
}

/// The message of a document whose events outnumber its bytes.
pub open spec fn overlong_message() -> Seq<char> {
    "document has more events than bytes"@
}

/// The error for a document whose events outnumber its bytes.
fn overlong_document() -> (res: VVError)
    ensures
        res matches VVError::Xml(m) && m@ == overlong_message(),
{
    VVError::Xml(String::from_str("document has more events than bytes"))
}

/// The events a trimming reader over `bytes` gives from its `n`-th on,
/// with `budget` more events allowed after the next: each event up to the
/// end of the document (which is not included), and what stopped the
/// reading early: the text of an error, or the budget running out.
pub open spec fn read_from(bytes: Seq<u8>, n: nat, budget: nat) -> (Seq<ItemView>, Option<Seq<char>>)
    decreases budget,
{
    match xml_event_at(bytes, true, n) {
        Err(m) => (Seq::empty(), Some(m)),
        Ok(iv) => if iv is Eof {
            (Seq::empty(), None)
        } else if budget == 0 {
            (seq![iv], Some(overlong_message()))
        } else {
            let r = read_from(bytes, n + 1, (budget - 1) as nat);
            (seq![iv] + r.0, r.1)
        },
    }
}

/// The events of a document, read by a trimming reader, and what stopped
/// the reading early: no more events are read than the document has bytes.
pub open spec fn xml_read(bytes: Seq<u8>) -> (Seq<ItemView>, Option<Seq<char>>) {
    read_from(bytes, 0, bytes.len())
}

/// Reads the events of a document until its end: the events before the
/// end, and what stopped the reading early, if anything: an XML error, or
/// more events than the document has bytes.
pub fn read_items(bytes: &[u8]) -> (res: (Vec<XmlItem>, Option<VVError>))
    ensures
        items_view(res.0@) == xml_read(bytes@).0,
        match xml_read(bytes@).1 {
            Some(m) => res.1 matches Some(VVError::Xml(e)) && e@ == m,
            None => res.1 is None,
        },
        forall|k: int| 0 <= k < res.0@.len() ==> !(#[trigger] res.0@[k] is Eof),
{
    let mut reader = xml_reader(bytes);
    trim_text(&mut reader);
    let mut items: Vec<XmlItem> = Vec::new();
    let mut budget: usize = bytes.len();
    assert(items_view(items@) =~= Seq::<ItemView>::empty());
    assert(xml_read(bytes@).0 =~= Seq::<ItemView>::empty() + read_from(bytes@, 0, budget as nat).0);
    loop
        invariant
            reader_state(reader) == (bytes@, true, items@.len()),
            xml_read(bytes@).0 == items_view(items@) + read_from(bytes@, items@.len(), budget as nat).0,
            xml_read(bytes@).1 == read_from(bytes@, items@.len(), budget as nat).1,
            forall|k: int| 0 <= k < items@.len() ==> !(#[trigger] items@[k] is Eof),
        decreases budget,
    {
        let ghost k = items@.len();
        let ghost r = read_from(bytes@, k, budget as nat);
        let ev = match next_item(&mut reader) {
            Ok(ev) => ev,
            Err(e) => {
                assert(r.0 =~= Seq::<ItemView>::empty());
                assert(xml_read(bytes@).0 =~= items_view(items@));
                return (items, Some(e));
            },
        };
        if let XmlItem::Eof = ev {
            assert(r.0 =~= Seq::<ItemView>::empty());
            assert(xml_read(bytes@).0 =~= items_view(items@));
            return (items, None);
        }
        let ghost before = items@;
        items.push(ev);
        assert(items_view(items@) =~= items_view(before).push(item_view(ev)));
        if budget == 0 {
            assert(xml_read(bytes@).0 =~= items_view(items@));
            return (items, Some(overlong_document()));
        }
        let ghost r2 = read_from(bytes@, k + 1, (budget - 1) as nat);
        assert(r.0 == seq![item_view(ev)] + r2.0);
        assert(items_view(before) + r.0 =~= items_view(items@) + r2.0);
        budget = budget - 1;
    }
}

/// The shared strings state before the first event.
pub open spec fn initial_shared() -> (Seq<Seq<char>>, Seq<char>, bool, bool) {
    (Seq::<Seq<char>>::empty(), Seq::<char>::empty(), false, false)
}

/// The shared strings state after the events, or the message of the first
/// event that failed.
pub open spec fn shared_fold(items: Seq<ItemView>) -> Result<(Seq<Seq<char>>, Seq<char>, bool, bool), Seq<char>>
    decreases items.len(),
{
    if items.len() == 0 {
        Ok(initial_shared())
    } else {
        match shared_fold(items.drop_last()) {
            Ok(st) => shared_step(st, items.last()),
            Err(m) => Err(m),
        }
    }
}

/// The shared strings table of a document given by its events and what
/// stopped reading it: the strings its `si` elements hold, in order; the
/// first failing event's error; otherwise the error that stopped reading.
pub fn shared_strings_from_items(items: &Vec<XmlItem>, stop: Option<VVError>) -> (res: Result<Vec<String>, VVError>)
    ensures
        match shared_fold(items_view(items@)) {
            Err(m) => res matches Err(VVError::Xml(e)) && e@ == m,
            Ok(st) => match stop {
                Some(e) => res == Err::<Vec<String>, VVError>(e),
                None => res matches Ok(v) && string_views(v@) == st.0,
            },
        },
{
    let mut st = SharedStrings { strings: Vec::new(), current: String::new(), in_si: false, in_t: false };
    assert(shared_view(st) == initial_shared());
    let mut i: usize = 0;
    while i < items.len()
        invariant
            i <= items@.len(),
            shared_fold(items_view(items@).take(i as int)) == Ok::<(Seq<Seq<char>>, Seq<char>, bool, bool), Seq<char>>(shared_view(st)),
        decreases items.len() - i,
    {
        assert(items_view(items@).take(i + 1).drop_last() == items_view(items@).take(i as int));
        assert(items_view(items@).take(i + 1).last() == item_view(items@[i as int]));
        match shared_strings_step(&mut st, &items[i]) {
            Ok(()) => {},
            Err(e) => {
                proof { lemma_shared_fold_error(items_view(items@), i as int); }
                return Err(e);
            },
        }
        i = i + 1;
    }
    assert(items_view(items@).take(items.len() as int) == items_view(items@));
    match stop {
        Some(e) => Err(e),
        None => Ok(st.strings),
    }
}

proof fn lemma_shared_fold_error(items: Seq<ItemView>, i: int)
    requires
        0 <= i < items.len(),
        shared_fold(items.take(i + 1)) is Err,
    ensures
        shared_fold(items) == shared_fold(items.take(i + 1)),
    decreases items.len() - i,
{
    if items.len() > i + 1 {
        assert(items.drop_last().take(i + 1) == items.take(i + 1));
        lemma_shared_fold_error(items.drop_last(), i);
    } else {
        assert(items.take(i + 1) == items);
    }
}

/// The sheets a workbook part's events list.
pub open spec fn sheets_fold(items: Seq<ItemView>) -> Seq<(Seq<char>, Seq<char>)>
    decreases items.len(),
{
    if items.len() == 0 { Seq::empty() } else { sheet_step(sheets_fold(items.drop_last()), items.last()) }
}

/// The relationships a relationships part's events give.
pub open spec fn relationships_fold(items: Seq<ItemView>) -> Seq<(Seq<char>, Seq<char>)>
    decreases items.len(),
{
    if items.len() == 0 { Seq::empty() } else { relationship_step(relationships_fold(items.drop_last()), items.last()) }
}

/// The sheets (name, relationship id) a workbook part lists, given by its
/// events and what stopped reading it.
pub fn sheets_from_items(items: &Vec<XmlItem>, stop: Option<VVError>) -> (res: Result<Vec<(String, String)>, VVError>)
    ensures
        match stop {
            Some(e) => res == Err::<Vec<(String, String)>, VVError>(e),
            None => res matches Ok(v) && pairs_view(v@) == sheets_fold(items_view(items@)),
        },
{
    let mut sheets: Vec<(String, String)> = Vec::new();
    let mut i: usize = 0;
    while i < items.len()
        invariant
            i <= items@.len(),
            pairs_view(sheets@) == sheets_fold(items_view(items@).take(i as int)),
        decreases items.len() - i,
    {
        assert(items_view(items@).take(i + 1).drop_last() == items_view(items@).take(i as int));
        assert(items_view(items@).take(i + 1).last() == item_view(items@[i as int]));
        workbook_step(&mut sheets, &items[i]);
        i = i + 1;
    }
    assert(items_view(items@).take(items.len() as int) == items_view(items@));
    match stop {
        Some(e) => Err(e),
        None => Ok(sheets),
    }
}

/// The relationships (id, target) a relationships part gives, given by its
/// events and what stopped reading it.
pub fn relationships_from_items(items: &Vec<XmlItem>, stop: Option<VVError>) -> (res: Result<Vec<(String, String)>, VVError>)
    ensures
        match stop {
            Some(e) => res == Err::<Vec<(String, String)>, VVError>(e),
            None => res matches Ok(v) && pairs_view(v@) == relationships_fold(items_view(items@)),
        },
{
    let mut rels: Vec<(String, String)> = Vec::new();
    let mut i: usize = 0;
    while i < items.len()
        invariant
            i <= items@.len(),
            pairs_view(rels@) == relationships_fold(items_view(items@).take(i as int)),
        decreases items.len() - i,
    {
        assert(items_view(items@).take(i + 1).drop_last() == items_view(items@).take(i as int));
        assert(items_view(items@).take(i + 1).last() == item_view(items@[i as int]));
        relationships_step(&mut rels, &items[i]);
        i = i + 1;
    }
    assert(items_view(items@).take(items.len() as int) == items_view(items@));
    match stop {
        Some(e) => Err(e),
        None => Ok(rels),
    }
}

/// A sheet state before the first event.
pub open spec fn initial_sheet() -> SheetView {
    SheetView {
        cells: Seq::empty(),
        max_row: 0,
        max_col: 0,
        cell_ref: Seq::empty(),
        cell_type: Seq::empty(),
        in_cell: false,
        in_value: false,
        in_inline: false,
        in_t: false,
        value: Seq::empty(),
        warnings: Seq::empty(),
    }
}

/// The sheet state after the events, or the first failure: a cell
/// reference past what a `usize` holds (`true`, with the reference), or a
/// failing event (`false`, with its message).
pub open spec fn sheet_fold(items: Seq<ItemView>, shared: Seq<Seq<char>>) -> Result<SheetView, (bool, Seq<char>)>
    decreases items.len(),
{
    if items.len() == 0 {
        Ok(initial_sheet())
    } else {
        match sheet_fold(items.drop_last(), shared) {
            Ok(st) => if ref_overflows(st, items.last()) {
                Err((true, st.cell_ref))
            } else {
                match sheet_event(st, items.last(), shared) {
                    Ok(n) => Ok(n),
                    Err(m) => Err((false, m)),
                }
            },
            Err(f) => Err(f),
        }
    }
}

proof fn lemma_sheet_fold_error(items: Seq<ItemView>, shared: Seq<Seq<char>>, i: int)
    requires
        0 <= i < items.len(),
        sheet_fold(items.take(i + 1), shared) is Err,
    ensures
        sheet_fold(items, shared) == sheet_fold(items.take(i + 1), shared),
    decreases items.len() - i,
{
    if items.len() > i + 1 {
        assert(items.drop_last().take(i + 1) == items.take(i + 1));
        lemma_sheet_fold_error(items.drop_last(), shared, i);
    } else {
        assert(items.take(i + 1) == items);
    }
}

/// A sheet's table and skipped cells from its part's events and what
/// stopped reading it: the table the final state makes and the warnings
/// met; the first failure's error (`XlsxFormat` with the cell reference, or
/// `Xml` with the message); otherwise the error that stopped reading.
pub fn sheet_from_items(items: &Vec<XmlItem>, stop: Option<VVError>, shared_strings: &Vec<String>)
    -> (res: Result<(SheetTable, Vec<SheetWarning>), VVError>)
    ensures
        match sheet_fold(items_view(items@), string_views(shared_strings@)) {
            Err((true, r)) => res matches Err(VVError::XlsxFormat(e)) && e@ == r,
            Err((false, m)) => res matches Err(VVError::Xml(e)) && e@ == m,
            Ok(st) => match stop {
                Some(e) => res == Err::<(SheetTable, Vec<SheetWarning>), VVError>(e),
                None => res matches Ok((t, w)) && string_views(t.headers@) == spec_headers(st)
                    && rows_view(t.rows@) == spec_rows(st)
                    && w@.map_values(|x: SheetWarning| warning_view(x)) == st.warnings,
            },
        },
{
    let ghost sh = string_views(shared_strings@);
    let mut st = new_sheet_state();
    let mut i: usize = 0;
    while i < items.len()
        invariant
            i <= items@.len(),
            sh == string_views(shared_strings@),
            sheet_fold(items_view(items@).take(i as int), sh) == Ok::<SheetView, (bool, Seq<char>)>(sheet_view(st)),
        decreases items.len() - i,
    {
        assert(items_view(items@).take(i + 1).drop_last() == items_view(items@).take(i as int));
        assert(items_view(items@).take(i + 1).last() == item_view(items@[i as int]));
        match worksheet_step(&mut st, &items[i], shared_strings) {
            Ok(()) => {},
            Err(e) => {
                proof { lemma_sheet_fold_error(items_view(items@), sh, i as int); }
                return Err(e);
            },
        }
        i = i + 1;
    }
    assert(items_view(items@).take(items.len() as int) == items_view(items@));
    match stop {
        Some(e) => Err(e),
        None => {
            let table = sheet_table(&st);
            Ok((table, st.warnings))
        },
    }
}

/// The name of the shared strings part.
pub open spec fn shared_strings_part() -> Seq<char> {
    "xl/sharedStrings.xml"@
}

/// The name of the workbook part.
pub open spec fn workbook_part() -> Seq<char> {
    "xl/workbook.xml"@
}

/// The name of the workbook relationships part.
pub open spec fn workbook_rels_part() -> Seq<char> {
    "xl/_rels/workbook.xml.rels"@
}

/// The shared strings table the bytes of the shared strings part hold, or
/// the message of the XML error reading it.
pub open spec fn spec_shared_strings(c: Seq<u8>) -> Result<Seq<Seq<char>>, Seq<char>> {
    match shared_fold(xml_read(c).0) {
        Err(m) => Err(m),
        Ok(st) => match xml_read(c).1 {
            Some(m) => Err(m),
            None => Ok(st.0),
        },
    }
}

/// The sheets (name, relationship id) the bytes of a workbook part list.
pub open spec fn spec_sheet_list(c: Seq<u8>) -> Result<Seq<(Seq<char>, Seq<char>)>, Seq<char>> {
    match xml_read(c).1 {
        Some(m) => Err(m),
        None => Ok(sheets_fold(xml_read(c).0)),
    }
}

/// The relationships (id, target) the bytes of a relationships part give.
pub open spec fn spec_relationship_list(c: Seq<u8>) -> Result<Seq<(Seq<char>, Seq<char>)>, Seq<char>> {
    match xml_read(c).1 {
        Some(m) => Err(m),
        None => Ok(relationships_fold(xml_read(c).0)),
    }
}

/// The sheets of a workbook with the parts holding them, from the entries
/// of its archive: none where a part it reads is missing or unreadable, an
/// XML error's message, or the list.
pub open spec fn spec_workbook_sheets(es: Seq<(Seq<char>, Option<Seq<u8>>)>) -> Option<Result<Seq<(Seq<char>, Seq<char>)>, Seq<char>>> {
    match part_contents(es, workbook_part()) {
        None => None,
        Some(wc) => match spec_sheet_list(wc) {
            Err(m) => Some(Err(m)),
            Ok(sheets) => match part_contents(es, workbook_rels_part()) {
                None => None,
                Some(rc) => match spec_relationship_list(rc) {
                    Err(m) => Some(Err(m)),
                    Ok(rels) => Some(Ok(spec_sheet_paths(sheets, rels))),
                },
            },
        },
    }
}

/// The final state of reading a sheet part's bytes, or the first failure:
/// a cell reference past what a `usize` holds (`true`), or an XML error
/// (`false`), with its text.
pub open spec fn spec_worksheet(c: Seq<u8>, shared: Seq<Seq<char>>) -> Result<SheetView, (bool, Seq<char>)> {
    match sheet_fold(xml_read(c).0, shared) {
        Err(f) => Err(f),
        Ok(st) => match xml_read(c).1 {
            Some(m) => Err((false, m)),
            None => Ok(st),
        },
    }
}

/// A table and its skipped cells are what the sheet state makes.
pub open spec fn table_of(t: SheetTable, w: Seq<SheetWarning>, st: SheetView) -> bool {
    &&& string_views(t.headers@) == spec_headers(st)
    &&& rows_view(t.rows@) == spec_rows(st)
    &&& w.map_values(|x: SheetWarning| warning_view(x)) == st.warnings
}

/// Loads the shared strings table from `xl/sharedStrings.xml`: the strings
/// its `si` elements hold, in order; an error when the part is missing or
/// unreadable, or its XML is in error.
pub fn load_shared_strings(archive: &mut MemArchive) -> (res: Result<Vec<String>, VVError>)
    ensures
        archive_entries(*final(archive)) == archive_entries(*old(archive)),
        match part_contents(archive_entries(*old(archive)), shared_strings_part()) {
            None => res matches Err(e) && part_error(e),
            Some(c) => match spec_shared_strings(c) {
                Ok(ss) => res matches Ok(v) && string_views(v@) == ss,
                Err(m) => res matches Err(VVError::Xml(e)) && e@ == m,
            },
        },
{
    let bytes = match part_bytes(archive, "xl/sharedStrings.xml") {
        Ok(b) => b,
        Err(e) => return Err(e),
    };
    let (items, stop) = read_items(bytes.as_slice());
    shared_strings_from_items(&items, stop)
}

/// The sheets of the workbook with the parts holding them: names and
/// relationship ids from `xl/workbook.xml`, ids resolved through
/// `xl/_rels/workbook.xml.rels`.
pub fn get_sheet_paths(archive: &mut MemArchive) -> (res: Result<Vec<(String, String)>, VVError>)
    ensures
        archive_entries(*final(archive)) == archive_entries(*old(archive)),
        match spec_workbook_sheets(archive_entries(*old(archive))) {
            None => res matches Err(e) && part_error(e),
            Some(Err(m)) => res matches Err(VVError::Xml(e)) && e@ == m,
            Some(Ok(ps)) => res matches Ok(v) && pairs_view(v@) == ps,
        },
{
    let wb = match part_bytes(archive, "xl/workbook.xml") {
        Ok(b) => b,
        Err(e) => return Err(e),
    };
    let (wb_items, wb_stop) = read_items(wb.as_slice());
    let sheets = match sheets_from_items(&wb_items, wb_stop) {
        Ok(s) => s,
        Err(e) => return Err(e),
    };
    let rels_bytes = match part_bytes(archive, "xl/_rels/workbook.xml.rels") {
        Ok(b) => b,
        Err(e) => return Err(e),
    };
    let (rel_items, rel_stop) = read_items(rels_bytes.as_slice());
    let rels = match relationships_from_items(&rel_items, rel_stop) {
        Ok(r) => r,
        Err(e) => return Err(e),
    };
    Ok(resolve_sheet_paths(&sheets, &rels))
}

/// Reads the sheet in the part `xml_path` into a table, with the cells it
/// skipped: an error when the part is missing or unreadable, its XML is in
/// error, or a cell reference is past what a `usize` holds.
pub fn parse_worksheet(archive: &mut MemArchive, xml_path: &str, shared_strings: &Vec<String>)
    -> (res: Result<(SheetTable, Vec<SheetWarning>), VVError>)
    ensures
        archive_entries(*final(archive)) == archive_entries(*old(archive)),
        match part_contents(archive_entries(*old(archive)), xml_path@) {
            None => res matches Err(e) && part_error(e),
            Some(c) => match spec_worksheet(c, string_views(shared_strings@)) {
                Err((true, r)) => res matches Err(VVError::XlsxFormat(e)) && e@ == r,
                Err((false, m)) => res matches Err(VVError::Xml(e)) && e@ == m,
                Ok(st) => res matches Ok((t, w)) && table_of(t, w@, st),
            },
        },
{
    let bytes = match part_bytes(archive, xml_path) {
        Ok(b) => b,
        Err(e) => return Err(e),
    };
    let (items, stop) = read_items(bytes.as_slice());
    sheet_from_items(&items, stop, shared_strings)
}

/// One sheet of a workbook: its sanitized name, its table and the cells
/// skipped while reading it.
pub struct Sheet {
    pub name: String,
    pub table: SheetTable,
    pub warnings: Vec<SheetWarning>,
}

/// The shared strings a workbook's sheets are read with: the table of its
/// shared strings part, or none where that part is missing, unreadable or
/// in error.
pub open spec fn spec_shared_for(es: Seq<(Seq<char>, Option<Seq<u8>>)>) -> Seq<Seq<char>> {
    match part_contents(es, shared_strings_part()) {
        Some(c) => match spec_shared_strings(c) {
            Ok(ss) => ss,
            Err(_) => Seq::empty(),
        },
        None => Seq::empty(),
    }
}

/// The sheet part `path` of the archive reads without failure.
pub open spec fn sheet_readable(es: Seq<(Seq<char>, Option<Seq<u8>>)>, path: Seq<char>) -> bool {
    match part_contents(es, path) {
        Some(c) => spec_worksheet(c, spec_shared_for(es)) is Ok,
        None => false,
    }
}

/// Every sheet part of the list reads without failure.
pub open spec fn all_sheets_readable(es: Seq<(Seq<char>, Option<Seq<u8>>)>, ps: Seq<(Seq<char>, Seq<char>)>) -> bool {
    forall|i: int| 0 <= i < ps.len() ==> #[trigger] sheet_readable(es, ps[i].1)
}

/// The sheet as it is read from the part `path` of the archive.
pub open spec fn sheet_is(s: Sheet, es: Seq<(Seq<char>, Option<Seq<u8>>)>, name: Seq<char>, path: Seq<char>) -> bool {
    &&& s.name@ == spec_sanitize(name)
    &&& match part_contents(es, path) {
        Some(c) => match spec_worksheet(c, spec_shared_for(es)) {
            Ok(st) => table_of(s.table, s.warnings@, st),
            Err(_) => false,
        },
        None => false,
    }
}

/// Reads a workbook from its bytes: every sheet, in workbook order, under
/// its sanitized name (a later sheet replacing an earlier one of the same
/// name when they are put in a map). A missing or unreadable shared strings
/// table counts as an empty one. Fails when the bytes hold no archive, the
/// sheet list cannot be read, or a sheet cannot be read.
pub fn parse_xlsx(bytes: Vec<u8>) -> (res: Result<Vec<Sheet>, VVError>)
    ensures
        match zip_archive(bytes@) {
            None => res matches Err(e) && part_error(e),
            Some(es) => match spec_workbook_sheets(es) {
                None => res matches Err(e) && part_error(e),
                Some(Err(m)) => res matches Err(VVError::Xml(e)) && e@ == m,
                Some(Ok(ps)) => if all_sheets_readable(es, ps) {
                    res matches Ok(v) && v.len() == ps.len()
                        && forall|i: int| 0 <= i < ps.len() ==> #[trigger] sheet_is(v@[i], es, ps[i].0, ps[i].1)
                } else {
                    res matches Err(e) && part_error(e)
                },
            },
        },
{
    let ghost bv = bytes@;
    let mut archive = match open_archive(bytes) {
        Ok(a) => a,
        Err(e) => return Err(VVError::Zip(zip_error_text(&e))),
    };
    let ghost es = archive_entries(archive);
    let shared = match load_shared_strings(&mut archive) {
        Ok(v) => v,
        Err(_) => Vec::new(),
    };
    assert(string_views(shared@) == spec_shared_for(es));
    let sheets = match get_sheet_paths(&mut archive) {
        Ok(v) => v,
        Err(e) => return Err(e),
    };
    let ghost ps = pairs_view(sheets@);
    let mut out: Vec<Sheet> = Vec::new();
    let mut i: usize = 0;
    while i < sheets.len()
        invariant
            i <= sheets.len(),
            out@.len() == i,
            ps == pairs_view(sheets@),
            ps.len() == sheets@.len(),
            archive_entries(archive) == es,
            zip_archive(bv) == Some(es),
            bv == bytes@,
            spec_workbook_sheets(es) == Some(Ok::<Seq<(Seq<char>, Seq<char>)>, Seq<char>>(ps)),
            string_views(shared@) == spec_shared_for(es),
            forall|j: int| 0 <= j < i ==> #[trigger] sheet_readable(es, ps[j].1),
            forall|j: int| 0 <= j < i ==> #[trigger] sheet_is(out@[j], es, ps[j].0, ps[j].1),
        decreases sheets.len() - i,
    {
        assert(ps[i as int] == (sheets@[i as int].0@, sheets@[i as int].1@));
        let (table, warnings) = match parse_worksheet(&mut archive, sheets[i].1.as_str(), &shared) {
            Ok(tw) => tw,
            Err(e) => {
                assert(!sheet_readable(es, ps[i as int].1));
                assert(!all_sheets_readable(es, ps));
                assert(part_error(e));
                return Err(e);
            },
        };
        let ghost before = out@;
        out.push(Sheet { name: sanitize_column_name(sheets[i].0.as_str()), table, warnings });
        proof {
            assert(forall|j: int| 0 <= j < i ==> out@[j] == before[j]);
            assert(sheet_is(out@[i as int], es, ps[i as int].0, ps[i as int].1));
        }
        i = i + 1;
    }
    Ok(out)
}

} // verus!
