//! Preparing views for publishing: each view comes with its metadata as
//! JSON text and its content as hexadecimal text, and goes out with the
//! content as bytes.

use crate::object_id::ObjectId;
use vstd::prelude::*;
use vstd::utf8::encode_utf8;

verus! {

/// The number that a hexadecimal digit stands for.
pub open spec fn hex_digit(c: u8) -> Option<int> {
    if 48 <= c <= 57 {
        Some(c - 48)
    } else if 65 <= c <= 70 {
        Some(c - 65 + 10)
    } else if 97 <= c <= 102 {
        Some(c - 97 + 10)
    } else {
        None
    }
}

/// The bytes that a hexadecimal text spells: two digits per byte, the
/// high one first, in upper or lower case. A text of odd length or with
/// any other character spells nothing.
pub open spec fn hex_decoded(s: Seq<u8>) -> Option<Seq<u8>> {
    if s.len() % 2 == 0 && forall|i: int| 0 <= i < s.len() ==> hex_digit(#[trigger] s[i]) is Some {
        Some(
            Seq::new(
                (s.len() / 2) as nat,
                |i: int| (hex_digit(s[2 * i]).unwrap() * 16 + hex_digit(s[2 * i + 1]).unwrap()) as u8,
            ),
        )
    } else {
        None
    }
}

/// `hex::decode` from the `hex` crate: the bytes that the text spells, or
/// nothing if its length is odd or it holds a character that is no
/// hexadecimal digit.
#[verifier::external_body]
fn hex_decode(text: &[u8]) -> (r: Option<Vec<u8>>)
    ensures
        match r {
            Some(bytes) => hex_decoded(text@) == Some(bytes@),
            None => hex_decoded(text@) is None,
        },
{
    match hex::decode(text) {
        Ok(bytes) => Some(bytes),
        Err(_) => None,
    }
}

/// A view to publish, as the caller has it.
#[derive(Debug, PartialEq)]
pub struct PublishSource {
    pub view_id: ObjectId,
    /// The name to publish the view under.
    pub publish_name: String,
    /// The view's metadata, as JSON text.
    pub meta_json: String,
    /// The view's content, as hexadecimal text.
    pub blob_hex: String,
}

/// The metadata of a published view.
#[derive(Debug, PartialEq)]
pub struct PublishCollabMetadata {
    pub view_id: ObjectId,
    pub publish_name: String,
    pub metadata: String,
}

/// A view as it is sent for publishing.
#[derive(Debug, PartialEq)]
pub struct PublishCollabItem {
    pub meta: PublishCollabMetadata,
    pub data: Vec<u8>,
    pub comments_enabled: bool,
    pub duplicate_enabled: bool,
}

/// The content of the view is hexadecimal text.
pub open spec fn has_hex_blob(source: PublishSource) -> bool {
    hex_decoded(encode_utf8(source.blob_hex@)) is Some
}

/// The item is the source with its content decoded and the two switches
/// set as given.
pub open spec fn is_item_of(
    item: PublishCollabItem,
    source: PublishSource,
    comments_enabled: bool,
    duplicate_enabled: bool,
) -> bool {
    &&& item.meta.view_id == source.view_id
    &&& item.meta.publish_name@ == source.publish_name@
    &&& item.meta.metadata@ == source.meta_json@
    &&& Some(item.data@) == hex_decoded(encode_utf8(source.blob_hex@))
    &&& item.comments_enabled == comments_enabled
    &&& item.duplicate_enabled == duplicate_enabled
}

/// Turns the views to publish into the items to send, in the same order.
/// If the content of a view is not hexadecimal text, nothing is sent and
/// the result is the place of the first such view.
pub fn publish_collabs(
    data: &Vec<PublishSource>,
    comments_enabled: bool,
    duplicate_enabled: bool,
) -> (r: Result<Vec<PublishCollabItem>, usize>)
    ensures
        match r {
            Ok(items) => items@.len() == data@.len() && forall|k: int|
                0 <= k < data@.len() ==> is_item_of(
                    #[trigger] items@[k],
                    data@[k],
                    comments_enabled,
                    duplicate_enabled,
                ),
            Err(at) => at < data@.len() && !has_hex_blob(data@[at as int]) && forall|k: int|
                0 <= k < at ==> has_hex_blob(#[trigger] data@[k]),
        },
{
    let mut items: Vec<PublishCollabItem> = Vec::new();
    let mut i: usize = 0;
    while i < data.len()
        invariant
            i <= data@.len(),
            items@.len() == i,
            forall|k: int|
                0 <= k < i ==> is_item_of(
                    #[trigger] items@[k],
                    data@[k],
                    comments_enabled,
                    duplicate_enabled,
                ),
            forall|k: int| 0 <= k < i ==> has_hex_blob(#[trigger] data@[k]),
        decreases data@.len() - i,
    {
        let source = &data[i];
        let blob = match hex_decode(source.blob_hex.as_str().as_bytes()) {
            Some(bytes) => bytes,
            None => {
                return Err(i);
            },
        };
        items.push(
            PublishCollabItem {
                meta: PublishCollabMetadata {
                    view_id: source.view_id,
                    publish_name: source.publish_name.clone(),
                    metadata: source.meta_json.clone(),
                },
                data: blob,
                comments_enabled,
                duplicate_enabled,
            },
        );
        i = i + 1;
    }
    Ok(items)
}

} // verus!
