//! The data model: credential records, index entries, and the error taxonomy.

use vstd::prelude::*;
use vstd::string::StringExecFns;

verus! {

/// Mathematical model of a credential record: all five fields as character
/// sequences.
pub struct RecordModel {
    pub id: Seq<char>,
    pub label: Seq<char>,
    pub url: Seq<char>,
    pub client_id: Seq<char>,
    pub client_secret: Seq<char>,
}

/// Mathematical model of one index entry.
pub struct ItemModel {
    pub id: Seq<char>,
    pub label: Seq<char>,
}

/// The record type handed across the IPC boundary to the front end.
#[derive(Debug, Clone)]
pub struct CredentialsIpc {
    pub id: String,
    pub label: String,
    pub url: String,
    pub client_id: String,
    pub client_secret: String,
}

impl View for CredentialsIpc {
    type V = RecordModel;

    open spec fn view(&self) -> RecordModel {
        RecordModel {
            id: self.id@,
            label: self.label@,
            url: self.url@,
            client_id: self.client_id@,
            client_secret: self.client_secret@,
        }
    }
}

impl DeepView for CredentialsIpc {
    type V = RecordModel;

    open spec fn deep_view(&self) -> RecordModel {
        self.view()
    }
}

/// The stored (keychain) payload. Mirrors the IPC record and keeps the id.
#[derive(Debug, Clone)]
pub struct StoredRecord {
    pub id: String,
    pub label: String,
    pub url: String,
    pub client_id: String,
    pub client_secret: String,
}

impl View for StoredRecord {
    type V = RecordModel;

    open spec fn view(&self) -> RecordModel {
        RecordModel {
            id: self.id@,
            label: self.label@,
            url: self.url@,
            client_id: self.client_id@,
            client_secret: self.client_secret@,
        }
    }
}

impl DeepView for StoredRecord {
    type V = RecordModel;

    open spec fn deep_view(&self) -> RecordModel {
        self.view()
    }
}

impl StoredRecord {
    /// Converts a stored record into the IPC shape, field for field.
    pub fn to_ipc(&self) -> (r: CredentialsIpc)
        ensures
            r@ == self@,
    {
        CredentialsIpc {
            id: self.id.clone(),
            label: self.label.clone(),
            url: self.url.clone(),
            client_id: self.client_id.clone(),
            client_secret: self.client_secret.clone(),
        }
    }
}

/// One entry of the label index: an id and the label it carried when last
/// written.
#[derive(Debug, Clone)]
pub struct IndexItem {
    pub id: String,
    pub label: String,
}

impl View for IndexItem {
    type V = ItemModel;

    open spec fn view(&self) -> ItemModel {
        ItemModel { id: self.id@, label: self.label@ }
    }
}

impl DeepView for IndexItem {
    type V = ItemModel;

    open spec fn deep_view(&self) -> ItemModel {
        self.view()
    }
}

/// The error taxonomy of the store layer and the repository.
#[derive(Debug)]
pub enum Error {
    /// The underlying secret store could not be opened for a key.
    StoreInit(String),
    /// The store rejected a read for a reason other than absence.
    StoreRead(String),
    /// The store rejected a write.
    StoreWrite(String),
    /// The store rejected a delete for a reason other than absence.
    StoreDelete(String),
    /// A requested key or label does not exist; the message names what was
    /// looked for.
    NotFound(String),
    /// Stored text does not parse as the expected structured value.
    Decode,
}

impl Error {
    /// A human-readable description of the failure.
    pub fn message(&self) -> String {
        match self {
            Error::StoreInit(m) => m.clone(),
            Error::StoreRead(m) => m.clone(),
            Error::StoreWrite(m) => m.clone(),
            Error::StoreDelete(m) => m.clone(),
            Error::NotFound(m) => m.clone(),
            Error::Decode => String::from_str("stored value could not be decoded"),
        }
    }

    /// The failure for an identifier no record is stored under, named in the
    /// message, so a miss by id reads differently from a miss by label.
    pub fn not_found_id(id: &str) -> (e: Error)
        ensures
            e is NotFound,
            e matches Error::NotFound(m) ==> m@ == "No credential found with id '"@ + id@ + "'"@,
    {
        let mut m = String::from_str("No credential found with id '");
        m.append(id);
        m.append("'");
        Error::NotFound(m)
    }

    /// The failure for a label no index entry bears, named in the message.
    pub fn not_found_label(label: &str) -> (e: Error)
        ensures
            e is NotFound,
            e matches Error::NotFound(m) ==> m@ == "No credential found with label '"@ + label@
                + "'"@,
    {
        let mut m = String::from_str("No credential found with label '");
        m.append(label);
        m.append("'");
        Error::NotFound(m)
    }
}

} // verus!
