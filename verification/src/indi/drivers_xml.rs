use vstd::prelude::*;

use crate::indi::drivers::{appended, groups_sorted, Drivers, DriversError, DriversErrorModel, GroupModel, XmlElement};
use crate::text::str_eq;

verus! {

#[verifier::external_type_specification]
#[verifier::external_body]
pub struct ExXmlTreeElement(xmltree::Element);

/// What `xmltree::Element::parse` reads from some bytes, as the library sees the root
/// element (see `parse_xml`); none where the bytes are not a well-formed XML document.
pub uninterp spec fn parsed_xml(text: Seq<u8>) -> Option<XmlElement>;

/// The library's view of an element that `xmltree` read: its name, its attributes in the
/// order of their names (the crate keeps them in a sorted map), its child elements in
/// order, and its text as `Element::get_text` joins the text and CDATA nodes. Comments
/// and processing instructions are not part of that view.
#[verifier::external_body]
fn element_view(e: &xmltree::Element) -> XmlElement {
    XmlElement {
        name: e.name.clone(),
        attributes: e.attributes.iter().map(|(k, v)| (k.clone(), v.clone())).collect(),
        children: e.children.iter().filter_map(|node| node.as_element()).map(element_view).collect(),
        text: e.get_text().map(|t| t.to_string()),
    }
}

/// `xmltree::Element::parse` on some bytes: the root element of the document they hold
/// (see `element_view`), or none where the crate reports them malformed. What comes back
/// is a function of the bytes alone, named `parsed_xml`.
#[verifier::external_body]
fn parse_xml(text: &[u8]) -> (r: Option<XmlElement>)
    ensures
        r == parsed_xml(text@),
{
    match xmltree::Element::parse(text) {
        Ok(e) => Some(element_view(&e)),
        Err(_) => None,
    }
}

/// The drivers of one XML document: none where it is not well-formed XML; otherwise the
/// drivers of its root element (see `appended`), each group's in their order, or the
/// first error of reading them.
pub open spec fn text_drivers(text: Seq<u8>) -> Option<(Seq<GroupModel>, Option<DriversErrorModel>)> {
    match parsed_xml(text) {
        None => None,
        Some(e) => {
            let (gs, err) = appended(Seq::empty(), e.children@, e.children@.len() as int);
            Some((groups_sorted(gs), err))
        },
    }
}

/// The drivers listed in one XML document (see `text_drivers`).
pub fn drivers_from_text(text: &[u8]) -> (r: Option<Result<Drivers, DriversError>>)
    ensures
        match text_drivers(text@) {
            None => r is None,
            Some((gs, None)) => r matches Some(Ok(d)) && d@ == gs,
            Some((_, Some(em))) => r matches Some(Err(e)) && e@ == em,
        },
{
    match parse_xml(text) {
        None => None,
        Some(xml) => {
            let mut result = Drivers::new_empty();
            match result.append_file_data(&xml) {
                Err(e) => Some(Err(e)),
                Ok(()) => {
                    result.sort_group_items();
                    Some(Ok(result))
                },
            }
        },
    }
}

/// The drivers gathered from the first `k` XML documents: each that parses and whose
/// root element is `driversList` adds the drivers of its groups (see `appended`); the
/// first error stops the gathering.
pub open spec fn texts_drivers(texts: Seq<Seq<u8>>, k: int) -> (Seq<GroupModel>, Option<DriversErrorModel>)
    decreases k,
{
    if k <= 0 {
        (Seq::empty(), None)
    } else {
        let s = texts_drivers(texts, k - 1);
        if s.1 is Some {
            s
        } else {
            match parsed_xml(texts[k - 1]) {
                Some(e) => if e.name@ == "driversList"@ {
                    appended(s.0, e.children@, e.children@.len() as int)
                } else {
                    s
                },
                None => s,
            }
        }
    }
}

/// The drivers listed in some XML documents, the files of a directory (see
/// `texts_drivers`), each group's in their order; or the first error.
pub fn drivers_from_texts(texts: &[Vec<u8>]) -> (r: Result<Drivers, DriversError>)
    ensures
        match texts_drivers(Seq::new(texts@.len(), |i: int| texts@[i]@), texts@.len() as int) {
            (gs, None) => r matches Ok(d) && d@ == groups_sorted(gs),
            (_, Some(em)) => r matches Err(e) && e@ == em,
        },
{
    let ghost ts = Seq::new(texts@.len(), |i: int| texts@[i]@);
    let mut result = Drivers::new_empty();
    let mut i: usize = 0;
    while i < texts.len()
        invariant
            ts == Seq::new(texts@.len(), |j: int| texts@[j]@),
            i <= texts@.len(),
            texts_drivers(ts, i as int) == (result@, None::<DriversErrorModel>),
        decreases texts@.len() - i,
    {
        let parsed = parse_xml(texts[i].as_slice());
        proof {
            assert(ts[i as int] == texts@[i as int]@);
        }
        match parsed {
            None => {},
            Some(xml) => {
                if str_eq(xml.name.as_str(), "driversList") {
                    match result.append_file_data(&xml) {
                        Ok(()) => {},
                        Err(e) => {
                            proof {
                                lemma_texts_drivers_stops(ts, (i + 1) as int, ts.len() as int);
                            }
                            return Err(e);
                        },
                    }
                }
            },
        }
        i = i + 1;
    }
    result.sort_group_items();
    Ok(result)
}

/// Once gathering fails, it fails with the same error on more documents.
proof fn lemma_texts_drivers_stops(texts: Seq<Seq<u8>>, k: int, m: int)
    requires
        0 <= k <= m,
        texts_drivers(texts, k).1 is Some,
    ensures
        texts_drivers(texts, m) == texts_drivers(texts, k),
    decreases m - k,
{
    if k < m {
        lemma_texts_drivers_stops(texts, k, m - 1);
    }
}

} // verus!
