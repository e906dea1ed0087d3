//! The platform-backed operations, named as the front end invokes them.
//!
//! Each runs the repository protocol against the operating system's
//! credential store through the trusted boundary in [`crate::keychain`]. What
//! that store holds is the platform's business, so the contracts here state
//! only what holds of every outcome; the exact semantics of the protocol is
//! stated and proved over the reference store in [`crate::repository`], and
//! both share the same codec and normalization.

use vstd::prelude::*;

use crate::codec::dec_index;
use crate::codec::dec_record;
use crate::codec::decode_index;
use crate::codec::decode_record;
use crate::codec::encode_index;
use crate::codec::encode_record;
use crate::codec::lemma_index_roundtrip;
use crate::index::normalize_items;
use crate::keychain::entry_delete;
use crate::keychain::entry_get;
use crate::keychain::entry_new;
use crate::keychain::entry_set;
use crate::keychain::fresh_id;
use crate::keychain::DeleteOutcome;
use crate::keychain::GetOutcome;
use crate::repository::find_first_with_label;
use crate::repository::retain_other_ids;
use crate::types::CredentialsIpc;
use crate::types::Error;
use crate::types::IndexItem;
use crate::types::RecordModel;
use crate::types::StoredRecord;

verus! {

/// The service name under which every key of this application lives.
pub const SERVICE_NAME: &'static str = "com.queryforce.app";

/// The reserved key of the index record, distinct from every generated
/// identifier.
pub const INDEX_USERNAME: &'static str = "__ids_index__";

/// Reads the index from the platform store: an absent index record means an
/// empty index, undecodable index text is a hard error. Whatever the store
/// held, every returned entry list is one some index text decodes to.
pub fn read_index() -> (r: Result<Vec<IndexItem>, Error>)
    ensures
        r matches Ok(items) ==> exists|t: Seq<char>| dec_index(t) == Some(items.deep_view()),
        r matches Err(e) ==> e is StoreInit || e is StoreRead || e is Decode,
{
    let entry = match entry_new(SERVICE_NAME, INDEX_USERNAME) {
        Ok(e) => e,
        Err(m) => {
            return Err(Error::StoreInit(m));
        },
    };
    match entry_get(&entry) {
        GetOutcome::Found(text) => match decode_index(text.as_str()) {
            Some(items) => {
                proof {
                    assert(dec_index(text@) == Some(items.deep_view()));
                }
                Ok(items)
            },
            None => Err(Error::Decode),
        },
        GetOutcome::Missing => {
            let items: Vec<IndexItem> = Vec::new();
            proof {
                lemma_index_roundtrip(Seq::empty());
                assert(items.deep_view() =~= Seq::<crate::types::ItemModel>::empty());
            }
            Ok(items)
        },
        GetOutcome::Failure(m) => Err(Error::StoreRead(m)),
    }
}

/// Writes the index to the platform store under the reserved key, first
/// sorting the entries by identifier and dropping duplicate identifiers, so
/// the persisted text is always the normalized entries' canonical encoding.
pub fn write_index(items: Vec<IndexItem>) -> (r: Result<(), Error>)
    ensures
        r matches Err(e) ==> e is StoreInit || e is StoreWrite,
{
    let norm = normalize_items(items);
    let text = encode_index(&norm);
    let entry = match entry_new(SERVICE_NAME, INDEX_USERNAME) {
        Ok(e) => e,
        Err(m) => {
            return Err(Error::StoreInit(m));
        },
    };
    match entry_set(&entry, text.as_str()) {
        Ok(()) => Ok(()),
        Err(m) => Err(Error::StoreWrite(m)),
    }
}

/// Reads one record from the platform store: an absent record is `NotFound`,
/// undecodable text is `Decode`. Every returned record is one some record
/// text decodes to.
pub fn read_record_by_id(id: &str) -> (r: Result<StoredRecord, Error>)
    ensures
        r matches Ok(rec) ==> exists|t: Seq<char>| dec_record(t) == Some(rec@),
{
    let entry = match entry_new(SERVICE_NAME, id) {
        Ok(e) => e,
        Err(m) => {
            return Err(Error::StoreInit(m));
        },
    };
    match entry_get(&entry) {
        GetOutcome::Found(text) => match decode_record(text.as_str()) {
            Some(rec) => {
                proof {
                    assert(dec_record(text@) == Some(rec@));
                }
                Ok(rec)
            },
            None => Err(Error::Decode),
        },
        GetOutcome::Missing => Err(Error::not_found_id(id)),
        GetOutcome::Failure(m) => Err(Error::StoreRead(m)),
    }
}

/// Writes one record to the platform store under its identifier, as the
/// record's canonical text.
pub fn write_record(rec: &StoredRecord) -> (r: Result<(), Error>)
    ensures
        r matches Err(e) ==> e is StoreInit || e is StoreWrite,
{
    let entry = match entry_new(SERVICE_NAME, rec.id.as_str()) {
        Ok(e) => e,
        Err(m) => {
            return Err(Error::StoreInit(m));
        },
    };
    let text = encode_record(rec);
    match entry_set(&entry, text.as_str()) {
        Ok(()) => Ok(()),
        Err(m) => Err(Error::StoreWrite(m)),
    }
}

/// Creates a credential: generates a fresh identifier, writes the record
/// first, then adds `(id, label)` to the index, so a failure in between
/// leaves an orphaned record rather than a dangling index entry. The
/// returned record carries exactly the given fields under the new 36
/// character identifier.
pub fn create_credentials(
    label: String,
    url: String,
    client_id: String,
    client_secret: String,
) -> (r: Result<CredentialsIpc, Error>)
    ensures
        r matches Ok(rec) ==> {
            &&& rec@.label == label@
            &&& rec@.url == url@
            &&& rec@.client_id == client_id@
            &&& rec@.client_secret == client_secret@
            &&& rec@.id.len() == 36
        },
        r matches Err(e) ==> e is StoreInit || e is StoreWrite || e is StoreRead || e is Decode,
{
    let id = fresh_id();
    let rec = StoredRecord { id, label, url, client_id, client_secret };
    match write_record(&rec) {
        Ok(()) => {},
        Err(e) => {
            return Err(e);
        },
    }
    let mut index = match read_index() {
        Ok(ix) => ix,
        Err(e) => {
            return Err(e);
        },
    };
    index.push(IndexItem { id: rec.id.clone(), label: rec.label.clone() });
    match write_index(index) {
        Ok(()) => {},
        Err(e) => {
            return Err(e);
        },
    }
    Ok(rec.to_ipc())
}

/// Creates a credential and discards the returned record, keeping the older
/// calling convention of the front end: the store is left in exactly the
/// state `create_credentials` leaves it in, success and failure included.
pub fn save_credentials(
    label: String,
    url: String,
    client_id: String,
    client_secret: String,
) -> (r: Result<(), Error>)
    ensures
        r matches Err(e) ==> e is StoreInit || e is StoreWrite || e is StoreRead || e is Decode,
{
    match create_credentials(label, url, client_id, client_secret) {
        Ok(_) => Ok(()),
        Err(e) => Err(e),
    }
}

/// Loads the first credential whose label matches exactly, in index order —
/// which is identifier order, so the smallest identifier wins when labels
/// repeat. The entry is chosen by the same verified selection the reference
/// repository uses; a label no entry bears fails with a `NotFound` that
/// names the label.
pub fn load_credentials(label: String) -> (r: Result<CredentialsIpc, Error>)
    ensures
        r matches Ok(rec) ==> exists|t: Seq<char>| dec_record(t) == Some(rec@),
{
    let index = match read_index() {
        Ok(ix) => ix,
        Err(e) => {
            return Err(e);
        },
    };
    match find_first_with_label(&index, label.as_str()) {
        None => Err(Error::not_found_label(label.as_str())),
        Some(it) => match read_record_by_id(it.id.as_str()) {
            Ok(rec) => Ok(rec.to_ipc()),
            Err(e) => Err(e),
        },
    }
}

/// Loads one credential by identifier.
pub fn load_credentials_by_id(id: String) -> (r: Result<CredentialsIpc, Error>)
    ensures
        r matches Ok(rec) ==> exists|t: Seq<char>| dec_record(t) == Some(rec@),
{
    match read_record_by_id(id.as_str()) {
        Ok(rec) => Ok(rec.to_ipc()),
        Err(e) => Err(e),
    }
}

/// Every record in the list is one that some record text decodes to.
pub open spec fn all_decodable(s: Seq<RecordModel>) -> bool {
    forall|i: int| 0 <= i < s.len() ==> exists|t: Seq<char>| dec_record(t) == Some(#[trigger] s[i])
}

/// Lists every credential the index knows and the store can resolve, in
/// index order. An entry whose record is missing or undecodable is skipped,
/// never a reason to fail the whole listing; every returned record is one
/// some record text decodes to.
pub fn load_all_credentials() -> (r: Result<Vec<CredentialsIpc>, Error>)
    ensures
        r matches Ok(out) ==> all_decodable(out.deep_view()),
        r matches Err(e) ==> e is StoreInit || e is StoreRead || e is Decode,
{
    let index = match read_index() {
        Ok(ix) => ix,
        Err(e) => {
            return Err(e);
        },
    };
    let mut out: Vec<CredentialsIpc> = Vec::new();
    let n = index.len();
    let mut k: usize = 0;
    while k < n
        invariant
            n == index@.len(),
            k <= n,
            all_decodable(out.deep_view()),
        decreases n - k,
    {
        let ghost out0 = out.deep_view();
        match read_record_by_id(index[k].id.as_str()) {
            Ok(rec) => {
                let ipc = rec.to_ipc();
                proof {
                    assert(ipc@ == rec@);
                }
                out.push(ipc);
                proof {
                    assert(out.deep_view() =~= out0.push(rec@));
                    assert forall|i: int| 0 <= i < out.deep_view().len() implies exists|t: Seq<char>|
                        dec_record(t) == Some(#[trigger] out.deep_view()[i]) by {
                        if i < out0.len() {
                            assert(out.deep_view()[i] == out0[i]);
                        } else {
                            assert(out.deep_view()[i] == rec@);
                        }
                    }
                    assert(all_decodable(out.deep_view()));
                }
            },
            Err(_) => {},
        }
        k = k + 1;
    }
    Ok(out)
}

/// Deletes a credential by identifier: removes the record first — treating
/// an absent record as success, so delete is idempotent — then drops the
/// identifier from the index and writes the index back.
pub fn delete_credentials(id: String) -> (r: Result<(), Error>)
    ensures
        r matches Err(e) ==> !(e is NotFound),
{
    let entry = match entry_new(SERVICE_NAME, id.as_str()) {
        Ok(e) => e,
        Err(m) => {
            return Err(Error::StoreInit(m));
        },
    };
    match entry_delete(&entry) {
        DeleteOutcome::Removed => {},
        DeleteOutcome::Failure(m) => {
            return Err(Error::StoreDelete(m));
        },
    }
    let index = match read_index() {
        Ok(ix) => ix,
        Err(e) => {
            return Err(e);
        },
    };
    let kept = retain_other_ids(index, id.as_str());
    match write_index(kept) {
        Ok(()) => Ok(()),
        Err(e) => Err(e),
    }
}

} // verus!
