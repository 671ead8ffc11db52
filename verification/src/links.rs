//! Cross-document links of an amalgamation: which document holds each
//! element id, and how a link to an id in another document is rewritten.
use vstd::prelude::*;

use crate::paths::{parent_of, parent_path, strip_path_prefix, stripped_path};
use crate::strmap::StrMap;
use crate::text::{chars_of, string_from_range};

verus! {

/// The map from element ids to the documents that hold them, built from the
/// pairs (id, document) in the order they were met: empty ids are left out,
/// and an id met again takes the later document.
pub open spec fn ids_index(pairs: Seq<(Seq<char>, Seq<char>)>) -> Map<Seq<char>, Seq<char>>
    decreases pairs.len(),
{
    if pairs.len() == 0 {
        Map::empty()
    } else {
        let before = ids_index(pairs.drop_last());
        if pairs.last().0.len() == 0 {
            before
        } else {
            before.insert(pairs.last().0, pairs.last().1)
        }
    }
}

/// Builds the map from element ids to document names out of the pairs (id,
/// document name) in the order the ids were met. Empty ids are skipped; an id
/// met twice maps to the later document.
pub fn index_ids(pairs: &Vec<(String, String)>) -> (m: StrMap)
    ensures
        m.wf(),
        m@ == ids_index(pairs.deep_view()),
{
    let ghost ps = pairs.deep_view();
    let mut m = StrMap::new();
    let mut i: usize = 0;
    while i < pairs.len()
        invariant
            ps == pairs.deep_view(),
            ps.len() == pairs.len(),
            i <= pairs.len(),
            m.wf(),
            m@ == ids_index(ps.take(i as int)),
        decreases pairs.len() - i,
    {
        assert(ps.take(i + 1).drop_last() == ps.take(i as int));
        assert(ps.take(i + 1).last() == pairs@[i as int].deep_view());
        let (id, doc) = &pairs[i];
        if !id.as_str().is_empty() {
            m.insert(id.clone(), doc.clone());
        }
        i = i + 1;
    }
    assert(ps.take(pairs.len() as int) == ps);
    m
}

/// Why a link could not be rewritten.
#[derive(Debug, Clone, Copy, PartialEq, Eq)]
pub enum LinkError {
    /// The document that holds the link has no parent directory.
    NoParent,
    /// The target document does not lie under the directory of the document
    /// that holds the link.
    NotUnderDirectory,
}

/// What becomes of the link `url` to the document `target` in the document
/// `docname`, given the directory of `docname` (`parent`) and the path of
/// `target` relative to that directory (`relative`): with no directory the
/// link cannot be rewritten; a link into the same document stays
/// (`Ok(None)`); otherwise the link becomes the relative path followed by
/// `url`, and cannot be rewritten where there is no relative path.
pub open spec fn link_to_document(
    url: Seq<char>,
    docname: Seq<char>,
    target: Seq<char>,
    parent: Option<Seq<char>>,
    relative: Option<Seq<char>>,
) -> Result<Option<Seq<char>>, LinkError> {
    match parent {
        None => Err(LinkError::NoParent),
        Some(_) => if target == docname {
            Ok(None)
        } else {
            match relative {
                None => Err(LinkError::NotUnderDirectory),
                Some(rel) => Ok(Some(rel + url)),
            }
        },
    }
}

/// What becomes of the link `url` in the document `docname`, given the map
/// from ids to documents: a link of the form `#id` to an id of another
/// document is prefixed with the path of that document relative to the
/// directory of `docname`; any other link stays (`Ok(None)`). Finding that
/// directory comes first, for every link to a known id.
pub open spec fn fixed_link(
    index: Map<Seq<char>, Seq<char>>,
    docname: Seq<char>,
    url: Seq<char>,
) -> Result<Option<Seq<char>>, LinkError> {
    if url.len() == 0 || url[0] != '#' {
        Ok(None)
    } else if !index.contains_key(url.drop_first()) {
        Ok(None)
    } else {
        let target = index[url.drop_first()];
        link_to_document(
            url,
            docname,
            target,
            parent_path(docname),
            match parent_path(docname) {
                Some(dir) => stripped_path(target, dir),
                None => None,
            },
        )
    }
}

/// Rewrites the link `url` to the document `target`, found in the document
/// `docname`, given the directory of `docname` (`parent`, `None` where it has
/// none) and the path of `target` relative to that directory (`relative`,
/// `None` where `target` is not under it): `Ok(None)` where `target` is
/// `docname` itself, else the relative path followed by `url`.
pub fn rewritten_link(
    url: &str,
    docname: &str,
    target: &str,
    parent: Option<&str>,
    relative: Option<&str>,
) -> (r: Result<Option<String>, LinkError>)
    ensures
        match r {
            Ok(new_url) => link_to_document(
                url@,
                docname@,
                target@,
                parent.deep_view(),
                relative.deep_view(),
            ) == Ok::<Option<Seq<char>>, LinkError>(new_url.deep_view()),
            Err(e) => link_to_document(
                url@,
                docname@,
                target@,
                parent.deep_view(),
                relative.deep_view(),
            ) == Err::<Option<Seq<char>>, _>(e),
        },
{
    if parent.is_none() {
        return Err(LinkError::NoParent);
    }
    let doc = String::from_str(docname);
    let tgt = String::from_str(target);
    if tgt == doc {
        return Ok(None);
    }
    match relative {
        None => Err(LinkError::NotUnderDirectory),
        Some(rel) => {
            let mut new_url = String::from_str(rel);
            new_url.append(url);
            Ok(Some(new_url))
        },
    }
}

/// Rewrites the link `url` found in the document `docname`: where `url` is
/// `#id` and `id` belongs to another document, the result is the path of that
/// document relative to the directory of `docname`, followed by `url`.
/// `Ok(None)` means that the link stays as it is.
pub fn fix_link(id_to_docname: &StrMap, docname: &str, url: &str) -> (r: Result<
    Option<String>,
    LinkError,
>)
    requires
        id_to_docname.wf(),
    ensures
        match r {
            Ok(new_url) => fixed_link(id_to_docname@, docname@, url@) == Ok::<
                Option<Seq<char>>,
                LinkError,
            >(new_url.deep_view()),
            Err(e) => fixed_link(id_to_docname@, docname@, url@) == Err::<Option<Seq<char>>, _>(e),
        },
{
    let chars = chars_of(url);
    if chars.len() == 0 || chars[0] != '#' {
        return Ok(None);
    }
    let id = string_from_range(&chars, 1, chars.len());
    assert(id@ == url@.drop_first());
    match id_to_docname.get(&id) {
        None => Ok(None),
        Some(target) => {
            let parent = parent_of(docname);
            let doc = String::from_str(docname);
            let relative = match &parent {
                Some(dir) => if *target == doc {
                    None
                } else {
                    strip_path_prefix(target.as_str(), dir.as_str())
                },
                None => None,
            };
            let parent_text = match &parent {
                Some(dir) => Some(dir.as_str()),
                None => None,
            };
            let relative_text = match &relative {
                Some(rel) => Some(rel.as_str()),
                None => None,
            };
            rewritten_link(url, docname, target.as_str(), parent_text, relative_text)
        },
    }
}

} // verus!
