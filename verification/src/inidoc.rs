use crate::document::{Document, Pair, Section, SectionView};
use vstd::prelude::*;

verus! {

/// The document that the INI reader yields for this text, or nothing when
/// the text does not parse.
pub uninterp spec fn ini_document_of(text: Seq<char>) -> Option<Seq<SectionView>>;

/// The text that the INI writer produces for this document.
pub uninterp spec fn ini_text_of(d: Seq<SectionView>) -> Seq<char>;

/// Relies on ini::Ini::load_from_str: whether the text parses, and what it
/// parses to, is a function of the text alone; iteration yields the sections
/// and, within each, the key-value pairs in their stored order.
#[verifier::external_body]
pub(crate) fn parse_ini_text(text: &str) -> (r: Option<Document>)
    ensures
        r is Some <==> ini_document_of(text@) is Some,
        r is Some ==> r->0@ == ini_document_of(text@)->0,
{
    let parsed = match ini::Ini::load_from_str(text) {
        Ok(p) => p,
        Err(_) => return None,
    };
    let mut sections = Vec::new();
    for (name, props) in parsed.iter() {
        let mut pairs = Vec::new();
        for (k, v) in props.iter() {
            pairs.push(Pair { key: k.to_string(), value: v.to_string() });
        }
        sections.push(Section { name: name.map(str::to_string), pairs });
    }
    Some(Document { sections })
}

/// Relies on ini::Ini::write_to: what it writes is a function of the
/// document alone, sections and pairs written in their stored order with
/// the default write options. A repeated section name becomes a further
/// properties block under the same key, as the crate's own parser stores it,
/// so such sections are written separately and in order.
#[verifier::external_body]
pub(crate) fn render_ini_text(d: &Document) -> (r: String)
    ensures
        r@ == ini_text_of(d@),
{
    let mut out = ini::Ini::new();
    for s in d.sections.iter() {
        let mut props = ini::Properties::new();
        for p in s.pairs.iter() {
            props.append(p.key.as_str(), p.value.as_str());
        }
        match out.entry(s.name.clone()) {
            ini::SectionEntry::Vacant(v) => drop(v.insert(props)),
            ini::SectionEntry::Occupied(mut o) => o.append(props),
        }
    }
    let mut buf: Vec<u8> = Vec::new();
    let _ = out.write_to(&mut buf);
    String::from_utf8_lossy(&buf).into_owned()
}

} // verus!
