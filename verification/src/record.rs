//! Reading a product's recent projects record.
//!
//! The record is an XML document holding a component named
//! `RecentProjectsManager`, with an option named `additionalInfo` whose
//! `map` children carry one `entry` per recent project; the entry's `key`
//! attribute is the project path, with a `$USER_HOME$` placeholder for the
//! home directory.

use vstd::prelude::*;
use crate::text::replace_token;
use crate::text::replace_token_str;
use crate::xml::first_child_named;
use crate::xml::first_child_tagged;
use crate::xml::node_attr;
use crate::xml::find_named_child;
use crate::xml::find_tagged_child;
use crate::xml::get_attr;
use crate::xml::parse_xml;
use crate::xml::xml_doc_of;
use crate::xml::xml_parses;
use crate::xml::XmlNode;

verus! {

/// The `key` attributes of the `entry` elements among `children`, in
/// document order; entries without a key are passed over.
pub open spec fn entry_keys(children: Seq<XmlNode>) -> Seq<Seq<char>>
    decreases children.len(),
{
    if children.len() == 0 {
        Seq::empty()
    } else {
        let prior = entry_keys(children.drop_last());
        let c = children.last();
        if c.tag@ == "entry"@ {
            match node_attr(c, "key"@) {
                Some(k) => prior.push(k),
                None => prior,
            }
        } else {
            prior
        }
    }
}

/// The raw project keys of the record rooted at `root`. A record without
/// the component, option or map has no keys; that is not an error.
pub open spec fn record_keys(root: XmlNode) -> Seq<Seq<char>> {
    match first_child_named(root.children@, "component"@, "RecentProjectsManager"@) {
        Some(comp) => match first_child_named(comp.children@, "option"@, "additionalInfo"@) {
            Some(opt) => match first_child_tagged(opt.children@, "map"@) {
                Some(map_node) => entry_keys(map_node.children@),
                None => Seq::empty(),
            },
            None => Seq::empty(),
        },
        None => Seq::empty(),
    }
}

/// The recent project paths of the record: each key with every
/// `$USER_HOME$` placeholder replaced by `home`.
pub open spec fn recent_paths(root: XmlNode, home: Seq<char>) -> Seq<Seq<char>> {
    record_keys(root).map_values(|k: Seq<char>| replace_token(k, "$USER_HOME$"@, home))
}

/// Read the paths of all recent projects from the bytes of a recent
/// projects record, substituting `home` for the home placeholder.
///
/// A malformed document is a hard error; a well-formed document without
/// recent items yields an empty list.
pub fn read_recent_jetbrains_projects(bytes: &[u8], home: &str) -> (r: Result<Vec<String>, String>)
    ensures
        r is Ok <==> xml_parses(bytes@),
        r is Ok ==> r->Ok_0.deep_view() == recent_paths(xml_doc_of(bytes@), home@),
{
    let root = match parse_xml(bytes) {
        Ok(root) => root,
        Err(message) => {
            return Err(message);
        },
    };
    let map_node = match find_named_child(&root, "component", "RecentProjectsManager") {
        Some(comp) => match find_named_child(comp, "option", "additionalInfo") {
            Some(opt) => find_tagged_child(opt, "map"),
            None => None,
        },
        None => None,
    };
    let ghost subst = |k: Seq<char>| replace_token(k, "$USER_HOME$"@, home@);
    let mut paths: Vec<String> = Vec::new();
    match map_node {
        None => {
            proof {
                assert(paths.deep_view() =~= recent_paths(root, home@));
            }
        },
        Some(m) => {
            let mut i: usize = 0;
            proof {
                assert(m.children@.take(0) =~= Seq::<XmlNode>::empty());
                assert(paths.deep_view() =~= entry_keys(m.children@.take(0)).map_values(subst));
            }
            while i < m.children.len()
                invariant
                    i <= m.children@.len(),
                    paths.deep_view() == entry_keys(m.children@.take(i as int)).map_values(subst),
                    subst == (|k: Seq<char>| replace_token(k, "$USER_HOME$"@, home@)),
                decreases m.children@.len() - i,
            {
                let ghost prev = paths.deep_view();
                let child = &m.children[i];
                if crate::text::str_eq(child.tag.as_str(), "entry") {
                    match get_attr(child, "key") {
                        Some(key) => {
                            paths.push(replace_token_str(key.as_str(), "$USER_HOME$", home));
                            proof {
                                assert(paths.deep_view() =~= prev.push(subst(key@)));
                            }
                        },
                        None => {},
                    }
                }
                proof {
                    assert(m.children@.take(i + 1).drop_last() =~= m.children@.take(i as int));
                    assert(m.children@.take(i + 1).last() == m.children@[i as int]);
                    assert(entry_keys(m.children@.take(i + 1)).map_values(subst) =~= paths.deep_view());
                }
                i += 1;
            }
            proof {
                assert(m.children@.take(m.children@.len() as int) =~= m.children@);
                assert(paths.deep_view() =~= recent_paths(root, home@));
            }
        },
    }
    Ok(paths)
}

} // verus!
