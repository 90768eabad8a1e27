//! Picks, from a version history document, the version that was current at a
//! given moment.
use vstd::prelude::*;
use crate::datetime::{DateTime, dt_le};
use crate::errors::BBError;
use crate::fileversionparser::{
    encoding, rejects, FileVersion, FileVersionParser, VersionModel, lemma_encoding_injective,
};

verus! {

/// One attribute of an XML element: its local name and its value.
#[derive(Debug, Clone, PartialEq, Eq)]
pub struct Attribute {
    pub name: String,
    pub value: String,
}

/// What the history resolver needs to know of one XML reader event.
#[derive(Debug, Clone, PartialEq, Eq)]
pub enum XmlItem {
    /// An opening tag, with its local name and attributes in document order.
    Element { name: String, attributes: Vec<Attribute> },
    /// The document is not well-formed from here on.
    Malformed { message: String },
    /// Any other event.
    Other,
}

/// An `XmlItem` as mathematical values.
pub enum ItemModel {
    Element { name: Seq<char>, attributes: Seq<(Seq<char>, Seq<char>)> },
    Malformed,
    Other,
}

impl View for XmlItem {
    type V = ItemModel;

    open spec fn view(&self) -> ItemModel {
        match self {
            XmlItem::Element { name, attributes } => ItemModel::Element {
                name: name@,
                attributes: attributes@.map_values(|a: Attribute| (a.name@, a.value@)),
            },
            XmlItem::Malformed { .. } => ItemModel::Malformed,
            XmlItem::Other => ItemModel::Other,
        }
    }
}

/// The events, in document order, that an XML reader produces for `input`,
/// up to and including the end of the document or the first error.
pub uninterp spec fn xml_items_of(input: Seq<u8>) -> Seq<ItemModel>;

/// The events of a document, read from xml-rs as they are asked for.
#[verifier::external_body]
pub struct XmlEvents<'a> {
    events: xml::reader::Events<&'a [u8]>,
}

/// The events that `events` has still to yield.
pub uninterp spec fn pending_items(events: XmlEvents) -> Seq<ItemModel>;

/// Relies on `xml::reader::EventReader::new` and its `into_iter`: an iterator
/// that reads the events of `input` as they are asked for.
#[verifier::external_body]
fn xml_events<'a>(input: &'a [u8]) -> (r: XmlEvents<'a>)
    ensures
        pending_items(r) == xml_items_of(input@),
{
    XmlEvents { events: xml::reader::EventReader::new(input).into_iter() }
}

/// Relies on `Iterator::next` of `xml::reader::Events`: each event once, in
/// document order, then `None` after the end of the document or the first error.
#[verifier::external_body]
fn next_item(events: &mut XmlEvents) -> (r: Option<XmlItem>)
    ensures
        pending_items(*old(events)).len() == 0 ==> r is None && pending_items(*final(events))
            == pending_items(*old(events)),
        pending_items(*old(events)).len() > 0 ==> (r matches Some(x) && x@ == pending_items(
            *old(events),
        )[0]),
        pending_items(*old(events)).len() > 0 ==> pending_items(*final(events)) == pending_items(
            *old(events),
        ).drop_first(),
{
    events.events.next().map(|e| match e {
        Ok(xml::reader::XmlEvent::StartElement { name, attributes, .. }) => XmlItem::Element {
            name: name.local_name,
            attributes: attributes.into_iter().map(|a| Attribute { name: a.name.local_name, value: a.value }).collect(),
        },
        Err(err) => XmlItem::Malformed { message: err.to_string() },
        Ok(_) => XmlItem::Other,
    })
}

/// The ways a resolution can fail, without their messages.
pub enum Failure {
    /// The version string is not in the version grammar.
    BadVersion(Seq<char>),
    /// The document is malformed, or an entry's attributes are.
    BadDocument,
    /// No entry is marked current.
    NoCurrent,
    /// No entry at or before the cutoff precedes the current one.
    NoMatch,
}

/// `e` is the error that stands for `f`.
pub open spec fn error_is(e: BBError, f: Failure) -> bool {
    match f {
        Failure::BadVersion(text) => rejects(e, text),
        Failure::BadDocument => e is MalformedDocument,
        Failure::NoCurrent => e is NoCurrentMarker,
        Failure::NoMatch => e is NoMatchingVersion,
    }
}

/// The value of an `is_current` flag, if it is one of the accepted words.
pub open spec fn flag_of(s: Seq<char>) -> Option<bool> {
    if s == "True"@ || s == "true"@ {
        Some(true)
    } else if s == "False"@ || s == "false"@ {
        Some(false)
    } else {
        None
    }
}

/// The well-formed version written as `s`, if there is one.
pub open spec fn version_of(s: Seq<char>) -> Option<VersionModel> {
    if exists|m: VersionModel| m.wf() && encoding(m) == s {
        Some(choose|m: VersionModel| m.wf() && encoding(m) == s)
    } else {
        None
    }
}

/// The flag and version that the first `n` attributes of an entry give, each
/// read in document order; a later attribute of a name replaces an earlier one.
pub open spec fn scan_attributes(attrs: Seq<(Seq<char>, Seq<char>)>, n: int) -> Result<
    (Option<bool>, Option<VersionModel>),
    Failure,
>
    decreases n,
{
    if n <= 0 {
        Ok((None, None))
    } else {
        match scan_attributes(attrs, n - 1) {
            Err(f) => Err(f),
            Ok((current, version)) => {
                let (key, value) = attrs[n - 1];
                if key == "is_current"@ {
                    match flag_of(value) {
                        Some(b) => Ok((Some(b), version)),
                        None => Err(Failure::BadDocument),
                    }
                } else if key == "version"@ {
                    match version_of(value) {
                        Some(v) => Ok((current, Some(v))),
                        None => Err(Failure::BadVersion(value)),
                    }
                } else {
                    Err(Failure::BadDocument)
                }
            },
        }
    }
}

/// An entry's current flag and version, both of which it must carry.
pub open spec fn entry_of(attrs: Seq<(Seq<char>, Seq<char>)>) -> Result<(bool, VersionModel), Failure> {
    match scan_attributes(attrs, attrs.len() as int) {
        Err(f) => Err(f),
        Ok((Some(c), Some(v))) => Ok((c, v)),
        Ok(_) => Err(Failure::BadDocument),
    }
}

/// What one event does to a resolution: go on with a (possibly new)
/// candidate, or end it with an outcome.
pub enum Step {
    Continue(Option<VersionModel>),
    Done(Result<VersionModel, Failure>),
}

/// One event of the resolution, with `candidate` the version retained so far:
/// an `elt` entry at or before `cutoff` replaces the candidate, and the entry
/// marked current ends the search with the candidate then retained.
#[verifier::opaque]
pub open spec fn step(item: ItemModel, cutoff: DateTime, candidate: Option<VersionModel>) -> Step {
    match item {
        ItemModel::Malformed => Step::Done(Err(Failure::BadDocument)),
        ItemModel::Other => Step::Continue(candidate),
        ItemModel::Element { name, attributes } => {
            if name != "elt"@ {
                Step::Continue(candidate)
            } else {
                match entry_of(attributes) {
                    Err(f) => Step::Done(Err(f)),
                    Ok((current, v)) => {
                        let next = if dt_le(v.date_time, cutoff) {
                            Some(v)
                        } else {
                            candidate
                        };
                        if current {
                            match next {
                                Some(c) => Step::Done(Ok(c)),
                                None => Step::Done(Err(Failure::NoMatch)),
                            }
                        } else {
                            Step::Continue(next)
                        }
                    },
                }
            }
        },
    }
}

/// The outcome of reading `items` from position `i` on with `candidate` the
/// version retained so far; running out of items means no entry was current.
pub open spec fn resolve_from(
    items: Seq<ItemModel>,
    i: int,
    cutoff: DateTime,
    candidate: Option<VersionModel>,
) -> Result<VersionModel, Failure>
    decreases items.len() - i,
{
    if i < 0 || i >= items.len() {
        Err(Failure::NoCurrent)
    } else {
        match step(items[i], cutoff, candidate) {
            Step::Continue(next) => resolve_from(items, i + 1, cutoff, next),
            Step::Done(outcome) => outcome,
        }
    }
}

/// The outcome of resolving a whole history at `cutoff`.
pub open spec fn resolution(items: Seq<ItemModel>, cutoff: DateTime) -> Result<VersionModel, Failure> {
    resolve_from(items, 0, cutoff, None)
}

/// `r` is the result that `outcome` describes.
pub open spec fn result_is(r: Result<FileVersion, BBError>, outcome: Result<VersionModel, Failure>) -> bool {
    match (r, outcome) {
        (Ok(v), Ok(m)) => v@ == m,
        (Err(e), Err(f)) => error_is(e, f),
        _ => false,
    }
}

/// `a` and `b` hold the same characters.
fn text_equals(a: &str, b: &str) -> (r: bool)
    ensures
        r == (a@ == b@),
{
    let n = a.unicode_len();
    if n != b.unicode_len() {
        return false;
    }
    let mut i: usize = 0;
    while i < n
        invariant
            n == a@.len() == b@.len(),
            i <= n,
            a@.subrange(0, i as int) == b@.subrange(0, i as int),
        decreases n - i,
    {
        if a.get_char(i) != b.get_char(i) {
            return false;
        }
        assert(a@.subrange(0, i + 1) =~= a@.subrange(0, i as int).push(a@[i as int]));
        assert(b@.subrange(0, i + 1) =~= b@.subrange(0, i as int).push(b@[i as int]));
        i = i + 1;
    }
    assert(a@ =~= a@.subrange(0, n as int));
    assert(b@ =~= b@.subrange(0, n as int));
    true
}

/// Reads an `is_current` flag: `True` or `true`, `False` or `false`.
pub fn match_current_str(current: &str) -> (r: Result<bool, BBError>)
    ensures
        r matches Ok(b) ==> flag_of(current@) == Some(b),
        r matches Err(e) ==> flag_of(current@) is None && e is MalformedDocument,
{
    if text_equals(current, "True") || text_equals(current, "true") {
        Ok(true)
    } else if text_equals(current, "False") || text_equals(current, "false") {
        Ok(false)
    } else {
        let msg = String::from_str("unable to parse is_current value: '").concat(current).concat("'");
        Err(BBError::MalformedDocument(msg))
    }
}

/// Parses a version string, as `version_of` describes.
fn read_version(s: &str) -> (r: Result<FileVersion, BBError>)
    ensures
        r matches Ok(v) ==> version_of(s@) == Some(v@),
        r matches Err(e) ==> version_of(s@) is None && rejects(e, s@),
{
    let r = FileVersionParser::parse(s);
    proof {
        if r is Ok {
            let v = r->Ok_0;
            let m = choose|m: VersionModel| m.wf() && encoding(m) == s@;
            lemma_encoding_injective(m, v@);
        }
    }
    r
}

/// The attributes as pairs of name and value.
pub open spec fn attributes_model(attrs: Seq<Attribute>) -> Seq<(Seq<char>, Seq<char>)> {
    attrs.map_values(|a: Attribute| (a.name@, a.value@))
}

/// The items as mathematical values.
pub open spec fn items_model(items: Seq<XmlItem>) -> Seq<ItemModel> {
    items.map_values(|x: XmlItem| x@)
}

pub open spec fn version_model(v: Option<FileVersion>) -> Option<VersionModel> {
    match v {
        Some(f) => Some(f@),
        None => None,
    }
}

/// Reads the current flag and the version of one history entry.
pub fn evaluate_entry(attributes: &Vec<Attribute>) -> (r: Result<(bool, FileVersion), BBError>)
    ensures
        match (r, entry_of(attributes_model(attributes@))) {
            (Ok((c, v)), Ok((c2, m))) => c == c2 && v@ == m,
            (Err(e), Err(f)) => error_is(e, f),
            _ => false,
        },
{
    let ghost model = attributes_model(attributes@);
    let mut current: Option<bool> = None;
    let mut version: Option<FileVersion> = None;
    let mut i: usize = 0;
    while i < attributes.len()
        invariant
            model == attributes_model(attributes@),
            i <= attributes@.len(),
            scan_attributes(model, i as int) == Ok::<(Option<bool>, Option<VersionModel>), Failure>(
                (current, version_model(version)),
            ),
        decreases attributes@.len() - i,
    {
        let attr = &attributes[i];
        assert(model[i as int] == (attr.name@, attr.value@));
        if text_equals(attr.name.as_str(), "is_current") {
            match match_current_str(attr.value.as_str()) {
                Ok(b) => {
                    current = Some(b);
                },
                Err(e) => {
                    assert(scan_attributes(model, model.len() as int) == Err::<(Option<bool>, Option<VersionModel>), Failure>(Failure::BadDocument)) by {
                        lemma_scan_fails_on(model, i as int + 1, Failure::BadDocument);
                    }
                    return Err(e);
                },
            }
        } else if text_equals(attr.name.as_str(), "version") {
            match read_version(attr.value.as_str()) {
                Ok(v) => {
                    version = Some(v);
                },
                Err(e) => {
                    assert(scan_attributes(model, model.len() as int) == Err::<(Option<bool>, Option<VersionModel>), Failure>(Failure::BadVersion(attr.value@))) by {
                        lemma_scan_fails_on(model, i as int + 1, Failure::BadVersion(attr.value@));
                    }
                    return Err(e);
                },
            }
        } else {
            let msg = String::from_str("attribute not valid: ").concat(attr.name.as_str());
            assert(scan_attributes(model, model.len() as int) == Err::<(Option<bool>, Option<VersionModel>), Failure>(Failure::BadDocument)) by {
                lemma_scan_fails_on(model, i as int + 1, Failure::BadDocument);
            }
            return Err(BBError::MalformedDocument(msg));
        }
        i = i + 1;
    }
    match (current, version) {
        (Some(c), Some(v)) => Ok((c, v)),
        _ => Err(BBError::MalformedDocument(String::from_str("an entry lacks is_current or version"))),
    }
}

/// Once the scan of the first `k` attributes fails, so does the scan of all of them.
proof fn lemma_scan_fails_on(attrs: Seq<(Seq<char>, Seq<char>)>, k: int, f: Failure)
    requires
        0 <= k <= attrs.len(),
        scan_attributes(attrs, k) == Err::<(Option<bool>, Option<VersionModel>), Failure>(f),
    ensures
        scan_attributes(attrs, attrs.len() as int) == Err::<(Option<bool>, Option<VersionModel>), Failure>(f),
    decreases attrs.len() - k,
{
    if k < attrs.len() {
        lemma_scan_fails_on(attrs, k + 1, f);
    }
}

/// Applies one event to a resolution: `None` to go on, with `candidate`
/// updated, or the result that ends it.
pub fn resolve_step(item: &XmlItem, cutoff: &DateTime, candidate: &mut Option<FileVersion>) -> (r:
    Option<Result<FileVersion, BBError>>)
    ensures
        match step(item@, *cutoff, version_model(*old(candidate))) {
            Step::Continue(next) => r is None && version_model(*final(candidate)) == next,
            Step::Done(outcome) => (r matches Some(x) && result_is(x, outcome)) && (outcome is Err
                ==> *final(candidate) == *old(candidate)),
        },
{
    reveal(step);
    match item {
        XmlItem::Malformed { message } => Some(Err(BBError::MalformedDocument(message.clone()))),
        XmlItem::Other => None,
        XmlItem::Element { name, attributes } => {
            if !text_equals(name.as_str(), "elt") {
                return None;
            }
            match evaluate_entry(attributes) {
                Err(e) => Some(Err(e)),
                Ok((current, v)) => {
                    if v.date_time.le(cutoff) {
                        *candidate = Some(v);
                    }
                    if current {
                        match candidate.take() {
                            Some(c) => Some(Ok(c)),
                            None => Some(Err(BBError::NoMatchingVersion)),
                        }
                    } else {
                        None
                    }
                },
            }
        },
    }
}

/// Resolves a history given as reader events: the version retained when the
/// entry marked current is reached, where each `elt` entry at or before
/// `cutoff` replaces the one retained before it.
pub fn resolve_items(items: &Vec<XmlItem>, cutoff: DateTime) -> (r: Result<FileVersion, BBError>)
    ensures
        result_is(r, resolution(items_model(items@), cutoff)),
{
    let ghost model = items_model(items@);
    let mut candidate: Option<FileVersion> = None;
    let mut i: usize = 0;
    while i < items.len()
        invariant
            model == items_model(items@),
            i <= items@.len(),
            resolution(model, cutoff) == resolve_from(model, i as int, cutoff, version_model(candidate)),
        decreases items@.len() - i,
    {
        assert(model[i as int] == items@[i as int]@);
        if let Some(done) = resolve_step(&items[i], &cutoff, &mut candidate) {
            return done;
        }
        i = i + 1;
    }
    Err(BBError::NoCurrentMarker)
}

/// The version of a history document that was current at `datetime`: read in
/// document order, each `elt` entry at or before `datetime` replaces the
/// version retained before it, and the entry marked current ends the search.
/// Reading stops there: later entries, and anything after them, are not read.
pub fn get_file_version_on(input: &[u8], datetime: DateTime) -> (r: Result<FileVersion, BBError>)
    ensures
        result_is(r, resolution(xml_items_of(input@), datetime)),
{
    let ghost model = xml_items_of(input@);
    let mut events = xml_events(input);
    let mut candidate: Option<FileVersion> = None;
    let ghost mut i: int = 0;
    loop
        invariant
            model == xml_items_of(input@),
            0 <= i <= model.len(),
            pending_items(events) == model.subrange(i, model.len() as int),
            resolution(model, datetime) == resolve_from(model, i, datetime, version_model(candidate)),
        decreases pending_items(events).len(),
    {
        let ghost before = pending_items(events);
        let next = next_item(&mut events);
        match next {
            None => {
                assert(before.len() == 0);
                assert(i == model.len());
                return Err(BBError::NoCurrentMarker);
            },
            Some(item) => {
                assert(before.len() > 0);
                assert(before[0] == model[i]);
                let ghost prior = version_model(candidate);
                assert(resolve_from(model, i, datetime, prior) == match step(model[i], datetime, prior) {
                    Step::Continue(n) => resolve_from(model, i + 1, datetime, n),
                    Step::Done(outcome) => outcome,
                });
                if let Some(done) = resolve_step(&item, &datetime, &mut candidate) {
                    return done;
                }
                proof {
                    i = i + 1;
                }
                assert(pending_items(events) =~= model.subrange(i, model.len() as int));
            },
        }
    }
}

/// Every `elt` entry of `items` is well-formed and not marked current, and no
/// item reports malformed XML.
pub open spec fn none_current(items: Seq<ItemModel>) -> bool {
    forall|i: int|
        0 <= i < items.len() ==> match #[trigger] items[i] {
            ItemModel::Malformed => false,
            ItemModel::Other => true,
            ItemModel::Element { name, attributes } => name == "elt"@ ==> entry_of(attributes) matches Ok(
                (false, _),
            ),
        }
}

/// A history in which no entry is marked current fails with that complaint,
/// whatever the cutoff.
pub proof fn lemma_no_current_marker(items: Seq<ItemModel>, cutoff: DateTime)
    requires
        none_current(items),
    ensures
        resolution(items, cutoff) == Err::<VersionModel, Failure>(Failure::NoCurrent),
{
    lemma_no_current_from(items, 0, cutoff, None);
}

proof fn lemma_no_current_from(
    items: Seq<ItemModel>,
    i: int,
    cutoff: DateTime,
    candidate: Option<VersionModel>,
)
    requires
        none_current(items),
        0 <= i,
    ensures
        resolve_from(items, i, cutoff, candidate) == Err::<VersionModel, Failure>(Failure::NoCurrent),
    decreases items.len() - i,
{
    reveal(step);
    if i < items.len() {
        if let Step::Continue(next) = step(items[i], cutoff, candidate) {
            lemma_no_current_from(items, i + 1, cutoff, next);
        }
    }
}

/// The version that the `elt` entry `item` carries, where it is one.
pub open spec fn entry_version(item: ItemModel) -> Option<(bool, VersionModel)> {
    match item {
        ItemModel::Element { name, attributes } => {
            if name == "elt"@ {
                match entry_of(attributes) {
                    Ok(e) => Some(e),
                    Err(_) => None,
                }
            } else {
                None
            }
        },
        _ => None,
    }
}

/// Item `k` is an entry whose version is at or before `cutoff`.
pub open spec fn selected(items: Seq<ItemModel>, k: int, cutoff: DateTime) -> bool {
    entry_version(items[k]) matches Some((_, v)) && dt_le(v.date_time, cutoff)
}

/// Item `c` is the first entry marked current, and every item before it is
/// a well-formed entry or an event that is not an entry.
pub open spec fn current_at(items: Seq<ItemModel>, c: int) -> bool {
    &&& 0 <= c < items.len()
    &&& entry_version(items[c]) matches Some((true, _))
    &&& forall|i: int|
        0 <= i < c ==> match #[trigger] items[i] {
            ItemModel::Malformed => false,
            ItemModel::Other => true,
            ItemModel::Element { name, attributes } => name == "elt"@ ==> entry_of(attributes) matches Ok(
                (false, _),
            ),
        }
}

/// The version of the last selected item before position `upto`.
pub open spec fn last_selected(items: Seq<ItemModel>, upto: int, cutoff: DateTime) -> Option<VersionModel>
    decreases upto,
{
    if upto <= 0 {
        None
    } else if selected(items, upto - 1, cutoff) {
        Some(entry_version(items[upto - 1])->Some_0.1)
    } else {
        last_selected(items, upto - 1, cutoff)
    }
}

proof fn lemma_resolve_to_current(items: Seq<ItemModel>, i: int, c: int, cutoff: DateTime)
    requires
        current_at(items, c),
        0 <= i <= c,
    ensures
        resolve_from(items, i, cutoff, last_selected(items, i, cutoff)) == match last_selected(
            items,
            c + 1,
            cutoff,
        ) {
            Some(v) => Ok::<VersionModel, Failure>(v),
            None => Err(Failure::NoMatch),
        },
    decreases c - i,
{
    reveal(step);
    let cand = last_selected(items, i, cutoff);
    assert(last_selected(items, i + 1, cutoff) == if selected(items, i, cutoff) {
        Some(entry_version(items[i])->Some_0.1)
    } else {
        cand
    });
    if i < c {
        match items[i] {
            ItemModel::Malformed => {},
            ItemModel::Other => {},
            ItemModel::Element { name, attributes } => {},
        }
        lemma_resolve_to_current(items, i + 1, c, cutoff);
    }
}

/// The version of the last selected item before `upto`, described without recursion.
proof fn lemma_last_selected(items: Seq<ItemModel>, upto: int, cutoff: DateTime)
    requires
        0 <= upto <= items.len(),
    ensures
        (forall|k: int| 0 <= k < upto ==> !selected(items, k, cutoff)) ==> last_selected(
            items,
            upto,
            cutoff,
        ) is None,
        forall|k: int|
            0 <= k < upto && selected(items, k, cutoff) && (forall|j: int|
                k < j < upto ==> !selected(items, j, cutoff)) ==> last_selected(items, upto, cutoff)
                == Some(entry_version(items[k])->Some_0.1),
    decreases upto,
{
    if upto > 0 {
        lemma_last_selected(items, upto - 1, cutoff);
        assert forall|k: int|
            0 <= k < upto && selected(items, k, cutoff) && (forall|j: int|
                k < j < upto ==> !selected(items, j, cutoff)) implies last_selected(items, upto, cutoff)
            == Some(entry_version(items[k])->Some_0.1) by {
            if k < upto - 1 {
                assert(!selected(items, upto - 1, cutoff));
            }
        }
    }
}

/// Where entry `c` is the first marked current, the history resolves to the
/// version of the last entry up to and including `c` that is at or before
/// `cutoff`, whatever follows `c`; where there is no such entry, it fails
/// with no matching version.
pub proof fn lemma_resolution_selects(items: Seq<ItemModel>, c: int, cutoff: DateTime)
    requires
        current_at(items, c),
    ensures
        forall|k: int|
            0 <= k <= c && selected(items, k, cutoff) && (forall|j: int|
                k < j <= c ==> !selected(items, j, cutoff)) ==> resolution(items, cutoff) == Ok::<
                VersionModel,
                Failure,
            >(entry_version(items[k])->Some_0.1),
        (forall|k: int| 0 <= k <= c ==> !selected(items, k, cutoff)) ==> resolution(items, cutoff)
            == Err::<VersionModel, Failure>(Failure::NoMatch),
{
    lemma_resolve_to_current(items, 0, c, cutoff);
    lemma_last_selected(items, c + 1, cutoff);
    assert(last_selected(items, 0, cutoff) is None);
}

/// A cutoff at or after the current entry's time selects the current entry,
/// however late the cutoff and whatever entries follow it.
pub proof fn lemma_current_caps_selection(items: Seq<ItemModel>, c: int, cutoff: DateTime)
    requires
        current_at(items, c),
        dt_le(entry_version(items[c])->Some_0.1.date_time, cutoff),
    ensures
        resolution(items, cutoff) == Ok::<VersionModel, Failure>(entry_version(items[c])->Some_0.1),
{
    lemma_resolution_selects(items, c, cutoff);
    assert(selected(items, c, cutoff));
    assert(forall|j: int| c < j <= c ==> !selected(items, j, cutoff));
}

/// A cutoff before every entry up to the current one fails with no matching
/// version, not with a missing current marker.
pub proof fn lemma_cutoff_before_all(items: Seq<ItemModel>, c: int, cutoff: DateTime)
    requires
        current_at(items, c),
        forall|k: int| 0 <= k <= c ==> !selected(items, k, cutoff),
    ensures
        resolution(items, cutoff) == Err::<VersionModel, Failure>(Failure::NoMatch),
{
    lemma_resolution_selects(items, c, cutoff);
}

} // verus!
