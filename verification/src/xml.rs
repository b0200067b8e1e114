//! A small document model for the vendor's XML records.
//!
//! The raw bytes are parsed by the `elementtree` crate behind a trusted
//! boundary; everything that reads the resulting tree is verified.

use vstd::prelude::*;

verus! {

/// One element of a parsed document: its tag name, its attributes in
/// document order, and its child elements. Character data is not kept;
/// the records read here carry everything in attributes.
pub struct XmlNode {
    /// The local tag name.
    pub tag: String,
    /// Attribute names and values.
    pub attrs: Vec<(String, String)>,
    /// Child elements, in document order.
    pub children: Vec<XmlNode>,
}

/// Whether `elementtree` accepts `bytes` as a well-formed document.
pub uninterp spec fn xml_parses(bytes: Seq<u8>) -> bool;

/// The element tree that `elementtree` builds from a well-formed document:
/// a function of the bytes alone.
pub uninterp spec fn xml_doc_of(bytes: Seq<u8>) -> XmlNode;

#[verifier::external_type_specification]
#[verifier::external_body]
pub struct ExElement(elementtree::Element);

/// Relies on `elementtree::Element::from_reader`: it parses the bytes of an
/// XML document deterministically, accepting or rejecting on the bytes
/// alone, and on success hands back the root element.
#[verifier::external_body]
pub fn parse_xml(bytes: &[u8]) -> (r: Result<XmlNode, String>)
    ensures
        r is Ok <==> xml_parses(bytes@),
        r is Ok ==> r->Ok_0 == xml_doc_of(bytes@),
{
    match elementtree::Element::from_reader(bytes) {
        Ok(root) => Ok(node_of_element(&root)),
        Err(err) => Err(format!("{}", err)),
    }
}

/// Relies on `elementtree::Element`'s accessors `tag`, `attrs` and
/// `children`: rebuilds an element and its descendants as an `XmlNode`,
/// converting tag and attribute names to their local form. Only
/// `parse_xml` above uses it.
#[verifier::external_body]
fn node_of_element(element: &elementtree::Element) -> XmlNode {
    XmlNode {
        tag: element.tag().name().to_string(),
        attrs: element.attrs().map(|(k, v)| (k.name().to_string(), v.to_string())).collect(),
        children: element.children().map(node_of_element).collect(),
    }
}

/// The value of the first attribute of `n` named `key`.
pub open spec fn node_attr(n: XmlNode, key: Seq<char>) -> Option<Seq<char>> {
    first_attr(n.attrs@, key)
}

/// The value of the first pair in `attrs` whose name is `key`.
pub open spec fn first_attr(attrs: Seq<(String, String)>, key: Seq<char>) -> Option<Seq<char>>
    decreases attrs.len(),
{
    if attrs.len() == 0 {
        None
    } else if attrs[0].0@ == key {
        Some(attrs[0].1@)
    } else {
        first_attr(attrs.drop_first(), key)
    }
}

/// The first child of `children` with tag `tag` whose `name` attribute is
/// `name`.
pub open spec fn first_child_named(children: Seq<XmlNode>, tag: Seq<char>, name: Seq<char>) -> Option<
    XmlNode,
>
    decreases children.len(),
{
    if children.len() == 0 {
        None
    } else if children[0].tag@ == tag && node_attr(children[0], "name"@) == Some(name) {
        Some(children[0])
    } else {
        first_child_named(children.drop_first(), tag, name)
    }
}

/// The first child of `children` with tag `tag`.
pub open spec fn first_child_tagged(children: Seq<XmlNode>, tag: Seq<char>) -> Option<XmlNode>
    decreases children.len(),
{
    if children.len() == 0 {
        None
    } else if children[0].tag@ == tag {
        Some(children[0])
    } else {
        first_child_tagged(children.drop_first(), tag)
    }
}

/// The value of the first attribute of `node` named `key`, if any.
pub fn get_attr<'a>(node: &'a XmlNode, key: &str) -> (r: Option<&'a String>)
    ensures
        match r {
            Some(v) => node_attr(*node, key@) == Some(v@),
            None => node_attr(*node, key@) is None,
        },
{
    let mut i: usize = 0;
    proof {
        assert(node.attrs@.skip(0) =~= node.attrs@);
    }
    while i < node.attrs.len()
        invariant
            i <= node.attrs@.len(),
            first_attr(node.attrs@, key@) == first_attr(node.attrs@.skip(i as int), key@),
        decreases node.attrs@.len() - i,
    {
        if crate::text::str_eq(node.attrs[i].0.as_str(), key) {
            return Some(&node.attrs[i].1);
        }
        proof {
            assert(node.attrs@.skip(i as int).drop_first() =~= node.attrs@.skip(i + 1));
        }
        i += 1;
    }
    None
}

/// The first child of `node` with tag `tag` whose `name` attribute equals
/// `name`, if any.
pub fn find_named_child<'a>(node: &'a XmlNode, tag: &str, name: &str) -> (r: Option<&'a XmlNode>)
    ensures
        match r {
            Some(c) => first_child_named(node.children@, tag@, name@) == Some(*c),
            None => first_child_named(node.children@, tag@, name@) is None,
        },
{
    let mut i: usize = 0;
    proof {
        assert(node.children@.skip(0) =~= node.children@);
    }
    while i < node.children.len()
        invariant
            i <= node.children@.len(),
            first_child_named(node.children@, tag@, name@) == first_child_named(
                node.children@.skip(i as int),
                tag@,
                name@,
            ),
        decreases node.children@.len() - i,
    {
        let child = &node.children[i];
        if crate::text::str_eq(child.tag.as_str(), tag) {
            let named = match get_attr(child, "name") {
                Some(v) => crate::text::str_eq(v.as_str(), name),
                None => false,
            };
            if named {
                return Some(child);
            }
        }
        proof {
            assert(node.children@.skip(i as int).drop_first() =~= node.children@.skip(i + 1));
        }
        i += 1;
    }
    None
}

/// The first child of `node` with tag `tag`, if any.
pub fn find_tagged_child<'a>(node: &'a XmlNode, tag: &str) -> (r: Option<&'a XmlNode>)
    ensures
        match r {
            Some(c) => first_child_tagged(node.children@, tag@) == Some(*c),
            None => first_child_tagged(node.children@, tag@) is None,
        },
{
    let mut i: usize = 0;
    proof {
        assert(node.children@.skip(0) =~= node.children@);
    }
    while i < node.children.len()
        invariant
            i <= node.children@.len(),
            first_child_tagged(node.children@, tag@) == first_child_tagged(
                node.children@.skip(i as int),
                tag@,
            ),
        decreases node.children@.len() - i,
    {
        if crate::text::str_eq(node.children[i].tag.as_str(), tag) {
            return Some(&node.children[i]);
        }
        proof {
            assert(node.children@.skip(i as int).drop_first() =~= node.children@.skip(i + 1));
        }
        i += 1;
    }
    None
}

} // verus!
