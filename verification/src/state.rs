//! Data carried along with the Wayland objects of the session.
use vstd::prelude::*;
use std::sync::{Arc, Mutex};
use crate::mime::strings_view;

verus! {

/// The standard library's mutex, held here only to carry shared data.
#[verifier::external_type_specification]
#[verifier::external_body]
#[verifier::reject_recursive_types(T)]
pub struct ExMutex<T: ?Sized>(Mutex<T>);

/// The MIME types offered with a selection, filled in as the compositor
/// announces them.
pub struct OfferData {
    pub mimes: Arc<Mutex<Vec<String>>>,
}

/// The MIME types that a mutex built by `new_mime_list` holds.
pub uninterp spec fn mime_list_of(m: Mutex<Vec<String>>) -> Seq<Seq<char>>;

/// A mutex holding the list `value`.
///
/// Calls `Mutex::new`. Claimed: the mutex holds the types of `value`, as
/// `Mutex::new` documents ("Creates a new mutex in an unlocked state ready
/// for use", holding the given value). Not claimed: anything about later
/// changes made through `lock`, which no verified code performs.
#[verifier::external_body]
fn new_mime_list(value: Vec<String>) -> (m: Mutex<Vec<String>>)
    ensures
        mime_list_of(m) == strings_view(value@),
{
    Mutex::new(value)
}

impl OfferData {
    /// Offer data with no MIME type announced yet.
    pub fn new() -> (o: OfferData)
        ensures
            mime_list_of(*o.mimes) == Seq::<Seq<char>>::empty(),
    {
        let list: Vec<String> = Vec::new();
        let m = new_mime_list(list);
        assert(strings_view(list@) =~= Seq::<Seq<char>>::empty());
        OfferData { mimes: Arc::new(m) }
    }
}

/// A record offered back to the clipboard: its type and content.
pub struct SourceMetadata {
    pub mime: String,
    pub data: Vec<u8>,
}

impl SourceMetadata {
    pub fn new(mime: String, data: Vec<u8>) -> (m: SourceMetadata)
        ensures
            m.mime == mime,
            m.data == data,
    {
        SourceMetadata { mime, data }
    }
}

} // verus!
