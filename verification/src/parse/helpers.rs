//! The Markdown syntax tree as the library reads it, and helpers over it.
//!
//! The tree is kept as its pre-order list of nodes: each node carries its
//! kind, its byte range in the source, and its depth below the root.
use vstd::prelude::*;
use vstd::utf8::*;

use core::str::Utf8Error;

verus! {

/// One node of a Markdown syntax tree, as listed in pre-order.
#[derive(Debug, Clone)]
pub struct MdNode {
    /// The grammar's name for the node (`list_item`, `paragraph`, ...).
    pub kind: String,
    /// First byte of the node's text in the source.
    pub start_byte: usize,
    /// One past the last byte of the node's text in the source.
    pub end_byte: usize,
    /// Distance from the root (the root has depth 0).
    pub depth: usize,
}

/// Every node's byte range lies within a source of `len` bytes.
pub open spec fn ranges_within(outline: Seq<MdNode>, len: nat) -> bool {
    forall|i: int|
        0 <= i < outline.len() ==> #[trigger] outline[i].start_byte <= outline[i].end_byte
            <= len
}

#[verifier::external_type_specification]
#[verifier::external_body]
pub struct ExUtf8Error(Utf8Error);

/// Calls `std::str::from_utf8`: `Ok` exactly when the bytes are valid UTF-8,
/// and then the string holds the characters they encode.
#[verifier::external_body]
fn str_from_utf8(b: &[u8]) -> (r: Result<&str, Utf8Error>)
    ensures
        r is Ok == valid_utf8(b@),
        r matches Ok(s) ==> s@ == decode_utf8(b@),
{
    core::str::from_utf8(b)
}

/// The text of a node in the source bytes, when those bytes are valid UTF-8.
pub open spec fn node_text_spec(node: MdNode, source: Seq<u8>) -> Option<Seq<char>> {
    let b = source.subrange(node.start_byte as int, node.end_byte as int);
    if valid_utf8(b) {
        Some(decode_utf8(b))
    } else {
        None
    }
}

/// Get the text of a node from the source bytes.
pub fn node_text<'a>(node: &MdNode, source: &'a [u8]) -> (r: Result<&'a str, Utf8Error>)
    requires
        node.start_byte <= node.end_byte <= source@.len(),
    ensures
        r is Ok == node_text_spec(*node, source@) is Some,
        r matches Ok(s) ==> node_text_spec(*node, source@) == Some(s@),
{
    str_from_utf8(vstd::slice::slice_subrange(source, node.start_byte, node.end_byte))
}

/// The first child of node `i` at or after position `j` whose kind is `kind`:
/// children are the nodes one level deeper in the run of deeper nodes that
/// follows `i`.
pub open spec fn child_from(outline: Seq<MdNode>, i: int, kind: Seq<char>, j: int) -> Option<int>
    decreases outline.len() - j,
{
    if j <= i || j >= outline.len() || outline[j].depth <= outline[i].depth {
        None
    } else if outline[j].depth == outline[i].depth + 1 && outline[j].kind@ == kind {
        Some(j)
    } else {
        child_from(outline, i, kind, j + 1)
    }
}

/// The first child of node `i` whose kind is `kind`.
pub open spec fn find_child_spec(outline: Seq<MdNode>, i: int, kind: Seq<char>) -> Option<int> {
    child_from(outline, i, kind, i + 1)
}

/// Find the first child of node `i` by kind.
pub fn find_child(outline: &Vec<MdNode>, i: usize, kind: &str) -> (r: Option<usize>)
    requires
        i < outline.len(),
    ensures
        match r {
            Some(j) => find_child_spec(outline@, i as int, kind@) == Some(j as int) && i < j
                < outline.len(),
            None => find_child_spec(outline@, i as int, kind@) is None,
        },
{
    let kc = crate::text::chars_of(kind);
    let d = outline[i].depth;
    let mut j: usize = i + 1;
    while j < outline.len() && outline[j].depth > d
        invariant
            i < j,
            j <= outline.len(),
            d == outline@[i as int].depth,
            kc@ == kind@,
            find_child_spec(outline@, i as int, kind@) == child_from(
                outline@,
                i as int,
                kind@,
                j as int,
            ),
        decreases outline.len() - j,
    {
        if outline[j].depth - d == 1 {
            let jc = crate::text::chars_of_string(&outline[j].kind);
            if crate::text::chars_equal(&jc, &kc) {
                return Some(j);
            }
        }
        j = j + 1;
    }
    None
}

} // verus!
