//! What the crawler reads out of an HTML page, through the `select` crate.

use vstd::prelude::*;
use vstd::utf8::valid_utf8;
use select::document::Document;
use select::predicate::Name;

verus! {

/// The largest body handed to the HTML parser. It reads the body into a
/// buffer with a 32-bit capacity that grows in steps of at most 64 KiB past
/// the bytes read and is rounded up to a power of two; up to this many bytes
/// that capacity stays at most 2^31.
pub const HTML_MAX_BYTES: usize = 0x7fff_0000;

/// For each element of a document named `element`, in document order, the
/// values of the attributes `attrs` (in the order of `attrs`).
pub uninterp spec fn attr_values_of(
    body: Seq<u8>,
    element: Seq<char>,
    attrs: Seq<Seq<char>>,
) -> Seq<Seq<Option<Seq<char>>>>;

/// The text of each element of a document whose name is one of `names`, in
/// document order.
pub uninterp spec fn element_texts_of(body: Seq<u8>, names: Seq<Seq<char>>) -> Seq<Seq<char>>;

/// Whether a node's name (as `select::node::Node::name` gives it) is one of
/// `names`; a node without a name (not an element) is not listed.
pub fn is_listed(name: Option<&str>, names: &Vec<String>) -> (r: bool)
    ensures
        name is None ==> !r,
        name matches Some(s) ==> r == names.deep_view().contains(s@),
{
    let s = match name {
        Some(s) => s,
        None => return false,
    };
    let n = s.to_owned();
    let len = names.len();
    for i in 0..len
        invariant
            len == names@.len(),
            name == Some(s),
            n@ == s@,
            forall|j: int| 0 <= j < i ==> names.deep_view()[j] != n@,
    {
        if names[i] == n {
            assert(names.deep_view()[i as int] == n@);
            assert(names.deep_view().contains(n@));
            return true;
        }
    }
    assert(!names.deep_view().contains(n@)) by {
        if names.deep_view().contains(n@) {
            let j = choose|j: int| 0 <= j < names.deep_view().len() && names.deep_view()[j] == n@;
            assert(names.deep_view()[j] != n@);
        }
    }
    false
}

/// Calls `select::document::Document::from_read` on the body once, then
/// `Document::find` three times on the document: with `Name(link_element)`
/// and `Node::attr` for each of `link_attrs` on each node found; with a
/// predicate that holds of a node exactly when [`is_listed`] holds of its
/// `Node::name` and `text_names`, and `Node::text` on each node found; and
/// with `Name(image_element)` and `Node::attr` for each of `image_attrs`.
/// `from_read` fails exactly when the bytes are not valid UTF-8 (it reads
/// them into a tendril and validates that with `str::from_utf8`); otherwise
/// the three lists are `attr_values_of` and `element_texts_of` of the
/// arguments, with one value per listed attribute for each element.
#[verifier::external_body]
pub(crate) fn html_read(
    body: &[u8],
    link_element: &str,
    link_attrs: &Vec<String>,
    text_names: &Vec<String>,
    image_element: &str,
    image_attrs: &Vec<String>,
) -> (r: Option<(Vec<Vec<Option<String>>>, Vec<String>, Vec<Vec<Option<String>>>)>)
    requires
        body@.len() <= HTML_MAX_BYTES,
    ensures
        r is Some <==> valid_utf8(body@),
        r matches Some(v) ==> v.0.deep_view() == attr_values_of(body@, link_element@, link_attrs.deep_view())
            && v.1.deep_view() == element_texts_of(body@, text_names.deep_view())
            && v.2.deep_view() == attr_values_of(body@, image_element@, image_attrs.deep_view()),
        r matches Some(v) ==> forall|i: int| 0 <= i < v.0@.len() ==> (#[trigger] v.0@[i])@.len() == link_attrs@.len(),
        r matches Some(v) ==> forall|i: int| 0 <= i < v.2@.len() ==> (#[trigger] v.2@[i])@.len() == image_attrs@.len(),
{
    let doc = match Document::from_read(body) {
        Ok(doc) => doc,
        Err(_) => return None,
    };
    let rows = |element: &str, attrs: &Vec<String>| -> Vec<Vec<Option<String>>> {
        doc.find(Name(element)).map(|n| attrs.iter().map(|a| n.attr(a).map(str::to_owned)).collect()).collect()
    };
    let texts = doc.find(|n: &select::node::Node| is_listed(n.name(), text_names)).map(|n| n.text()).collect();
    Some((rows(link_element, link_attrs), texts, rows(image_element, image_attrs)))
}

} // verus!
