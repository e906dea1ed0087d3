//! The credential repository over the reference store.
//!
//! The repository keeps two pieces of state coherent: one record per
//! identifier, and a single index record under a reserved key. Every mutation
//! writes the record space first and the index second, so a failure between
//! the two steps leaves an orphaned record, never a dangling index entry.
//!
//! The operations here run against [`MemStore`], an in-memory store with the
//! same single-key interface as the platform store. It is the reference
//! semantics of the protocol: the contracts below say exactly what each
//! operation does to the store, and the proof functions state the laws the
//! protocol obeys. The platform-backed operations mirror these against the
//! operating system's store.

use vstd::prelude::*;
use vstd::hash_map::StringHashMap;
use vstd::string::StrSliceExecFns;

use crate::codec::dec_index;
use crate::codec::dec_record;
use crate::codec::decode_index;
use crate::codec::decode_record;
use crate::codec::enc_index;
use crate::codec::enc_record;
use crate::codec::encode_index;
use crate::codec::encode_record;
use crate::codec::lemma_index_roundtrip;
use crate::codec::lemma_record_roundtrip;
use crate::index::has_id;
use crate::index::lemma_normalize;
use crate::index::lemma_normalize_idempotent;
use crate::index::lemma_normalize_sorted;
use crate::index::lex_lt;
use crate::index::normalize;
use crate::index::normalize_items;
use crate::index::sorted_insert;
use crate::index::find_id;
use crate::index::lemma_find_id_has;
use crate::index::lemma_sorted_insert;
use crate::index::strict_sorted;
use crate::keychain::fresh_id;
use crate::types::CredentialsIpc;
use crate::types::Error;
use crate::types::IndexItem;
use crate::types::ItemModel;
use crate::types::RecordModel;
use crate::types::StoredRecord;

verus! {

/// The reserved key under which the index is stored; no generated identifier
/// collides with it, since generated identifiers are 36 characters long.
pub open spec fn index_key() -> Seq<char> {
    "__ids_index__"@
}

/// A generated identifier never equals the reserved index key.
pub proof fn lemma_id_not_index_key(id: Seq<char>)
    requires
        id.len() == 36,
    ensures
        id != index_key(),
{
    reveal_strlit("__ids_index__");
}

/// An in-memory key/value store with the platform store's interface:
/// single-key get, set, and delete, nothing transactional across keys. It
/// serves as the reference store the repository's contracts are stated over.
pub struct MemStore {
    map: StringHashMap<String>,
}

impl View for MemStore {
    type V = Map<Seq<char>, Seq<char>>;

    closed spec fn view(&self) -> Map<Seq<char>, Seq<char>> {
        Map::new(|k: Seq<char>| self.map@.dom().contains(k), |k: Seq<char>| self.map@[k]@)
    }
}

impl MemStore {
    /// An empty store.
    pub fn new() -> (r: Self)
        ensures
            r@ == Map::<Seq<char>, Seq<char>>::empty(),
    {
        let r = MemStore { map: StringHashMap::new() };
        proof {
            assert(r@ =~= Map::<Seq<char>, Seq<char>>::empty());
        }
        r
    }

    /// The value stored under a key, if any.
    pub fn get(&self, key: &str) -> (r: Option<String>)
        ensures
            match r {
                Some(v) => self@.contains_key(key@) && self@[key@] == v@,
                None => !self@.contains_key(key@),
            },
    {
        match self.map.get(key) {
            Some(v) => Some(v.clone()),
            None => None,
        }
    }

    /// Stores a value under a key, replacing what was there.
    pub fn set(&mut self, key: &str, value: String)
        ensures
            final(self)@ == old(self)@.insert(key@, value@),
    {
        let ghost v0 = value@;
        self.map.insert(key.to_owned(), value);
        proof {
            assert(self@ =~= old(self)@.insert(key@, v0));
        }
    }

    /// Removes a key; removing an absent key changes nothing.
    pub fn remove(&mut self, key: &str)
        ensures
            final(self)@ == old(self)@.remove(key@),
    {
        self.map.remove(key);
        proof {
            assert(self@ =~= old(self)@.remove(key@));
        }
    }
}

/// The index entries a store holds: the empty sequence when the reserved key
/// is absent, the decoded entries when it is present, nothing when the stored
/// text does not decode.
pub open spec fn spec_index_items(store: Map<Seq<char>, Seq<char>>) -> Option<Seq<ItemModel>> {
    if !store.contains_key(index_key()) {
        Some(Seq::empty())
    } else {
        dec_index(store[index_key()])
    }
}

/// Whether the store's index is readable.
pub open spec fn store_ok(store: Map<Seq<char>, Seq<char>>) -> bool {
    spec_index_items(store) is Some
}

/// The record a store holds under an identifier, if present and decodable.
pub open spec fn rec_at(store: Map<Seq<char>, Seq<char>>, id: Seq<char>) -> Option<RecordModel> {
    if store.contains_key(id) {
        dec_record(store[id])
    } else {
        None
    }
}

/// Reads the index: absent means empty, undecodable text is a hard error.
pub fn read_index(store: &MemStore) -> (r: Result<Vec<IndexItem>, Error>)
    ensures
        match r {
            Ok(items) => spec_index_items(store@) == Some(items.deep_view()),
            Err(e) => e is Decode && !store_ok(store@),
        },
{
    match store.get("__ids_index__") {
        None => {
            let items: Vec<IndexItem> = Vec::new();
            proof {
                assert(items.deep_view() =~= Seq::<ItemModel>::empty());
            }
            Ok(items)
        },
        Some(text) => match decode_index(text.as_str()) {
            Some(items) => Ok(items),
            None => Err(Error::Decode),
        },
    }
}

/// Writes the index under the reserved key, first sorting the entries by
/// identifier and dropping duplicate identifiers.
pub fn write_index(store: &mut MemStore, items: Vec<IndexItem>)
    ensures
        final(store)@ == old(store)@.insert(
            index_key(),
            enc_index(normalize(items.deep_view())),
        ),
{
    let norm = normalize_items(items);
    let text = encode_index(&norm);
    store.set("__ids_index__", text);
}

/// Creates a credential: generates a fresh identifier, writes the record
/// under it, then adds the identifier and label to the index. The record is
/// written before the index so that a failure between the two steps leaves
/// an orphaned record, not a dangling index entry; on an unreadable index
/// the record therefore stays written.
pub fn create(
    store: &mut MemStore,
    label: &str,
    url: &str,
    client_id: &str,
    client_secret: &str,
) -> (r: Result<CredentialsIpc, Error>)
    ensures
        match r {
            Ok(rec) => {
                &&& store_ok(old(store)@)
                &&& rec@.label == label@
                &&& rec@.url == url@
                &&& rec@.client_id == client_id@
                &&& rec@.client_secret == client_secret@
                &&& rec@.id.len() == 36
                &&& final(store)@ == old(store)@.insert(rec@.id, enc_record(rec@)).insert(
                    index_key(),
                    enc_index(
                        normalize(
                            spec_index_items(old(store)@).unwrap().push(
                                ItemModel { id: rec@.id, label: label@ },
                            ),
                        ),
                    ),
                )
            },
            Err(e) => {
                &&& e is Decode
                &&& !store_ok(old(store)@)
                &&& exists|id: Seq<char>|
                    id.len() == 36 && final(store)@ == old(store)@.insert(
                        id,
                        enc_record(
                            RecordModel {
                                id: id,
                                label: label@,
                                url: url@,
                                client_id: client_id@,
                                client_secret: client_secret@,
                            },
                        ),
                    )
            },
        },
{
    let id = fresh_id();
    let rec = StoredRecord {
        id,
        label: label.to_owned(),
        url: url.to_owned(),
        client_id: client_id.to_owned(),
        client_secret: client_secret.to_owned(),
    };
    let text = encode_record(&rec);
    store.set(rec.id.as_str(), text);
    proof {
        lemma_id_not_index_key(rec@.id);
        assert(spec_index_items(store@) == spec_index_items(old(store)@));
    }
    let mut index = match read_index(store) {
        Ok(ix) => ix,
        Err(e) => {
            proof {
                assert(store@ == old(store)@.insert(rec@.id, enc_record(rec@)));
            }
            return Err(e);
        },
    };
    let ghost items0 = index.deep_view();
    index.push(IndexItem { id: rec.id.clone(), label: rec.label.clone() });
    proof {
        assert(index.deep_view() =~= items0.push(ItemModel { id: rec@.id, label: label@ }));
    }
    write_index(store, index);
    Ok(rec.to_ipc())
}

/// Creates a credential and discards the returned record: the store ends in
/// exactly the state a create leaves it in, only the generated identifier is
/// not handed back.
pub fn save(
    store: &mut MemStore,
    label: &str,
    url: &str,
    client_id: &str,
    client_secret: &str,
) -> (r: Result<(), Error>)
    ensures
        match r {
            Ok(_) => {
                &&& store_ok(old(store)@)
                &&& exists|id: Seq<char>|
                    {
                        &&& id.len() == 36
                        &&& final(store)@ == old(store)@.insert(
                            id,
                            enc_record(
                                RecordModel {
                                    id: id,
                                    label: label@,
                                    url: url@,
                                    client_id: client_id@,
                                    client_secret: client_secret@,
                                },
                            ),
                        ).insert(
                            index_key(),
                            enc_index(
                                normalize(
                                    spec_index_items(old(store)@).unwrap().push(
                                        ItemModel { id: id, label: label@ },
                                    ),
                                ),
                            ),
                        )
                    }
            },
            Err(e) => {
                &&& e is Decode
                &&& !store_ok(old(store)@)
                &&& exists|id: Seq<char>|
                    id.len() == 36 && final(store)@ == old(store)@.insert(
                        id,
                        enc_record(
                            RecordModel {
                                id: id,
                                label: label@,
                                url: url@,
                                client_id: client_id@,
                                client_secret: client_secret@,
                            },
                        ),
                    )
            },
        },
{
    match create(store, label, url, client_id, client_secret) {
        Ok(rec) => {
            proof {
                let wid = rec@.id;
                assert(rec@ == RecordModel {
                    id: wid,
                    label: label@,
                    url: url@,
                    client_id: client_id@,
                    client_secret: client_secret@,
                });
                assert(wid.len() == 36 && store@ == old(store)@.insert(
                    wid,
                    enc_record(
                        RecordModel {
                            id: wid,
                            label: label@,
                            url: url@,
                            client_id: client_id@,
                            client_secret: client_secret@,
                        },
                    ),
                ).insert(
                    index_key(),
                    enc_index(
                        normalize(
                            spec_index_items(old(store)@).unwrap().push(
                                ItemModel { id: wid, label: label@ },
                            ),
                        ),
                    ),
                ));
            }
            Ok(())
        },
        Err(e) => Err(e),
    }
}

/// Loads the record stored under an identifier: absent is `NotFound`,
/// undecodable text is `Decode`.
pub fn load_by_id(store: &MemStore, id: &str) -> (r: Result<CredentialsIpc, Error>)
    ensures
        match r {
            Ok(rec) => rec_at(store@, id@) == Some(rec@),
            Err(e) => {
                &&& rec_at(store@, id@) is None
                &&& e is NotFound <==> !store@.contains_key(id@)
                &&& e is Decode <==> store@.contains_key(id@)
            },
        },
{
    match store.get(id) {
        None => Err(Error::not_found_id(id)),
        Some(text) => match decode_record(text.as_str()) {
            Some(rec) => Ok(rec.to_ipc()),
            None => Err(Error::Decode),
        },
    }
}

/// The first index entry bearing a label, in index order.
pub open spec fn first_with_label(items: Seq<ItemModel>, label: Seq<char>) -> Option<ItemModel>
    decreases items.len(),
{
    if items.len() == 0 {
        None
    } else if items[0].label == label {
        Some(items[0])
    } else {
        first_with_label(items.drop_first(), label)
    }
}

/// The first index entry bearing the label, in index order — which, for
/// every index the repository writes, is identifier order, so among entries
/// sharing the label the one with the smallest identifier comes back.
pub fn find_first_with_label(items: &Vec<IndexItem>, label: &str) -> (r: Option<IndexItem>)
    ensures
        match r {
            Some(it) => first_with_label(items.deep_view(), label@) == Some(it@),
            None => first_with_label(items.deep_view(), label@) is None,
        },
{
    let ghost full = items.deep_view();
    let n = items.len();
    let mut k: usize = 0;
    proof {
        assert(full.skip(0) =~= full);
    }
    while k < n
        invariant
            n == items@.len(),
            k <= n,
            full == items.deep_view(),
            full.len() == n,
            forall|m: int| 0 <= m < n ==> full[m] == items@[m]@,
            first_with_label(full, label@) == first_with_label(full.skip(k as int), label@),
        decreases n - k,
    {
        proof {
            assert(full.skip(k as int)[0] == full[k as int]);
            assert(full.skip(k as int).drop_first() =~= full.skip(k + 1));
        }
        if crate::index::str_eq(items[k].label.as_str(), label) {
            let it = IndexItem { id: items[k].id.clone(), label: items[k].label.clone() };
            proof {
                assert(it@ == full[k as int]);
            }
            return Some(it);
        }
        k = k + 1;
    }
    proof {
        assert(full.skip(n as int) =~= Seq::<ItemModel>::empty());
    }
    None
}

/// Loads the record of the first index entry whose label matches exactly.
/// Labels are not unique; the first match in index order wins, and the index
/// is identifier-sorted, so the entry with the smallest identifier wins. A
/// label no entry bears fails with a `NotFound` that names the label.
pub fn load_by_label(store: &MemStore, label: &str) -> (r: Result<CredentialsIpc, Error>)
    ensures
        !store_ok(store@) ==> (r matches Err(e) && e is Decode),
        store_ok(store@) ==> match first_with_label(spec_index_items(store@).unwrap(), label@) {
            None => (r matches Err(e) && e is NotFound),
            Some(it) => match r {
                Ok(rec) => rec_at(store@, it.id) == Some(rec@),
                Err(e) => {
                    &&& rec_at(store@, it.id) is None
                    &&& e is NotFound <==> !store@.contains_key(it.id)
                    &&& e is Decode <==> store@.contains_key(it.id)
                },
            },
        },
{
    let items = match read_index(store) {
        Ok(ix) => ix,
        Err(e) => {
            return Err(e);
        },
    };
    match find_first_with_label(&items, label) {
        None => Err(Error::not_found_label(label)),
        Some(it) => load_by_id(store, it.id.as_str()),
    }
}

/// The records a store holds for a list of index entries, in entry order;
/// entries whose record is missing or does not decode are skipped.
pub open spec fn collect_records(store: Map<Seq<char>, Seq<char>>, items: Seq<ItemModel>) -> Seq<
    RecordModel,
>
    decreases items.len(),
{
    if items.len() == 0 {
        Seq::empty()
    } else {
        match rec_at(store, items[0].id) {
            Some(r) => seq![r] + collect_records(store, items.drop_first()),
            None => collect_records(store, items.drop_first()),
        }
    }
}

/// Lists every credential the index knows and the store can resolve, in
/// index order. An entry whose record is missing or undecodable is skipped,
/// never a reason to fail the whole listing; only an unreadable index fails.
pub fn load_all(store: &MemStore) -> (r: Result<Vec<CredentialsIpc>, Error>)
    ensures
        match r {
            Ok(out) => store_ok(store@) && out.deep_view() == collect_records(
                store@,
                spec_index_items(store@).unwrap(),
            ),
            Err(e) => e is Decode && !store_ok(store@),
        },
{
    let items = match read_index(store) {
        Ok(ix) => ix,
        Err(e) => {
            return Err(e);
        },
    };
    let ghost full = items.deep_view();
    let mut out: Vec<CredentialsIpc> = Vec::new();
    let n = items.len();
    let mut k: usize = 0;
    proof {
        assert(full.skip(0) =~= full);
        assert(out.deep_view() =~= Seq::<RecordModel>::empty());
        assert(collect_records(store@, full) =~= out.deep_view() + collect_records(
            store@,
            full.skip(0),
        ));
    }
    while k < n
        invariant
            n == items@.len(),
            k <= n,
            full == items.deep_view(),
            full.len() == n,
            forall|m: int| 0 <= m < n ==> full[m] == items@[m]@,
            spec_index_items(store@) == Some(full),
            collect_records(store@, full) == out.deep_view() + collect_records(
                store@,
                full.skip(k as int),
            ),
        decreases n - k,
    {
        proof {
            assert(full.skip(k as int)[0] == full[k as int]);
            assert(full.skip(k as int).drop_first() =~= full.skip(k + 1));
        }
        let ghost out0 = out.deep_view();
        match load_by_id(store, items[k].id.as_str()) {
            Ok(rec) => {
                out.push(rec);
                proof {
                    assert(out.deep_view() =~= out0.push(rec@));
                    assert(collect_records(store@, full.skip(k as int)) == seq![rec@]
                        + collect_records(store@, full.skip(k + 1)));
                    assert(out0 + (seq![rec@] + collect_records(store@, full.skip(k + 1))) =~= out0.push(
                        rec@,
                    ) + collect_records(store@, full.skip(k + 1)));
                }
            },
            Err(_) => {
                proof {
                    assert(collect_records(store@, full.skip(k as int)) == collect_records(
                        store@,
                        full.skip(k + 1),
                    ));
                }
            },
        }
        k = k + 1;
    }
    proof {
        assert(full.skip(n as int) =~= Seq::<ItemModel>::empty());
        assert(out.deep_view() =~= collect_records(store@, full));
    }
    Ok(out)
}

/// The entries of `items` whose identifier is not `id`, in order.
pub open spec fn without_id(items: Seq<ItemModel>, id: Seq<char>) -> Seq<ItemModel>
    decreases items.len(),
{
    if items.len() == 0 {
        Seq::empty()
    } else if items[0].id == id {
        without_id(items.drop_first(), id)
    } else {
        seq![items[0]] + without_id(items.drop_first(), id)
    }
}

/// Keeps the entries whose identifier differs from `id`.
pub(crate) fn retain_other_ids(items: Vec<IndexItem>, id: &str) -> (r: Vec<IndexItem>)
    ensures
        r.deep_view() == without_id(items.deep_view(), id@),
{
    let ghost full = items.deep_view();
    let mut out: Vec<IndexItem> = Vec::new();
    let n = items.len();
    let mut k: usize = 0;
    proof {
        assert(full.skip(0) =~= full);
        assert(out.deep_view() =~= Seq::<ItemModel>::empty());
        assert(without_id(full, id@) =~= out.deep_view() + without_id(full.skip(0), id@));
    }
    while k < n
        invariant
            n == items@.len(),
            k <= n,
            full == items.deep_view(),
            full.len() == n,
            forall|m: int| 0 <= m < n ==> full[m] == items@[m]@,
            without_id(full, id@) == out.deep_view() + without_id(full.skip(k as int), id@),
        decreases n - k,
    {
        proof {
            assert(full.skip(k as int)[0] == full[k as int]);
            assert(full.skip(k as int).drop_first() =~= full.skip(k + 1));
        }
        let ghost out0 = out.deep_view();
        if !crate::index::str_eq(items[k].id.as_str(), id) {
            let kept = IndexItem { id: items[k].id.clone(), label: items[k].label.clone() };
            proof {
                assert(kept@ == full[k as int]);
            }
            out.push(kept);
            proof {
                assert(out.deep_view() =~= out0.push(full[k as int]));
                assert(without_id(full.skip(k as int), id@) == seq![full[k as int]] + without_id(
                    full.skip(k + 1),
                    id@,
                ));
                assert(out0 + (seq![full[k as int]] + without_id(full.skip(k + 1), id@)) =~= out0.push(
                    full[k as int],
                ) + without_id(full.skip(k + 1), id@));
            }
        } else {
            proof {
                assert(without_id(full.skip(k as int), id@) == without_id(full.skip(k + 1), id@));
            }
        }
        k = k + 1;
    }
    proof {
        assert(full.skip(n as int) =~= Seq::<ItemModel>::empty());
        assert(out.deep_view() =~= without_id(full, id@));
    }
    out
}

/// Deletes a credential: removes the record first — treating an absent
/// record as success, so delete is idempotent — then drops the identifier
/// from the index and writes the index back. The ordering mirrors create's:
/// a failure between the steps leaves an orphaned record at worst.
pub fn delete(store: &mut MemStore, id: &str) -> (r: Result<(), Error>)
    ensures
        match r {
            Ok(_) => {
                &&& store_ok(old(store)@.remove(id@))
                &&& final(store)@ == old(store)@.remove(id@).insert(
                    index_key(),
                    enc_index(
                        normalize(
                            without_id(
                                spec_index_items(old(store)@.remove(id@)).unwrap(),
                                id@,
                            ),
                        ),
                    ),
                )
            },
            Err(e) => {
                &&& e is Decode
                &&& !store_ok(old(store)@.remove(id@))
                &&& final(store)@ == old(store)@.remove(id@)
            },
        },
{
    store.remove(id);
    let items = match read_index(store) {
        Ok(ix) => ix,
        Err(e) => {
            return Err(e);
        },
    };
    let kept = retain_other_ids(items, id);
    write_index(store, kept);
    Ok(())
}

/// Round trip: in the store a create leaves behind, the new identifier
/// resolves to a record with exactly the created fields, whatever index text
/// the create wrote beside it.
pub proof fn lemma_create_then_load(
    store: Map<Seq<char>, Seq<char>>,
    rec: RecordModel,
    index_text: Seq<char>,
)
    requires
        rec.id != index_key(),
    ensures
        rec_at(
            store.insert(rec.id, enc_record(rec)).insert(index_key(), index_text),
            rec.id,
        ) == Some(rec),
{
    lemma_record_roundtrip(rec);
    let s1 = store.insert(rec.id, enc_record(rec)).insert(index_key(), index_text);
    assert(s1.contains_key(rec.id));
    assert(s1[rec.id] == enc_record(rec));
}

/// What a store holds in its index right after an index write: exactly the
/// normalized entries.
pub proof fn lemma_index_after_write(store: Map<Seq<char>, Seq<char>>, items: Seq<ItemModel>)
    ensures
        spec_index_items(store.insert(index_key(), enc_index(normalize(items)))) == Some(
            normalize(items),
        ),
{
    lemma_index_roundtrip(normalize(items));
}

/// Index normalization: what a write persists is strictly identifier-sorted
/// and duplicate-free, holds exactly the identifiers handed in, and writing
/// the persisted entries again persists identical text.
pub proof fn lemma_write_normalizes(items: Seq<ItemModel>)
    ensures
        strict_sorted(normalize(items)),
        forall|x: Seq<char>| has_id(normalize(items), x) == has_id(items, x),
        enc_index(normalize(normalize(items))) == enc_index(normalize(items)),
{
    lemma_normalize(items);
    lemma_normalize_idempotent(items);
}

/// Dropping an identifier drops exactly its entries.
pub proof fn lemma_without_id(items: Seq<ItemModel>, id: Seq<char>)
    ensures
        !has_id(without_id(items, id), id),
        forall|x: Seq<char>| x != id ==> has_id(without_id(items, id), x) == has_id(items, x),
    decreases items.len(),
{
    let res = without_id(items, id);
    if items.len() == 0 {
    } else {
        let tail = items.drop_first();
        lemma_without_id(tail, id);
        if items[0].id == id {
            assert forall|x: Seq<char>| x != id implies has_id(res, x) == has_id(items, x) by {
                if has_id(items, x) {
                    let k = choose|k: int| 0 <= k < items.len() && items[k].id == x;
                    assert(tail[k - 1].id == x);
                }
                if has_id(tail, x) {
                    let k = choose|k: int| 0 <= k < tail.len() && tail[k].id == x;
                    assert(items[k + 1].id == x);
                }
            }
        } else {
            let sub = without_id(tail, id);
            assert(res == seq![items[0]] + sub);
            assert(res[0] == items[0]);
            assert(forall|k: int| 0 <= k < sub.len() ==> res[k + 1] == sub[k]);
            assert(!has_id(res, id)) by {
                if has_id(res, id) {
                    let k = choose|k: int| 0 <= k < res.len() && res[k].id == id;
                    if k > 0 {
                        assert(sub[k - 1].id == id);
                    }
                }
            }
            assert forall|x: Seq<char>| x != id implies has_id(res, x) == has_id(items, x) by {
                if has_id(res, x) {
                    let k = choose|k: int| 0 <= k < res.len() && res[k].id == x;
                    if k == 0 {
                        assert(items[0].id == x);
                    } else {
                        assert(sub[k - 1].id == x);
                        assert(has_id(tail, x));
                        let m = choose|m: int| 0 <= m < tail.len() && tail[m].id == x;
                        assert(items[m + 1].id == x);
                    }
                }
                if has_id(items, x) {
                    let k = choose|k: int| 0 <= k < items.len() && items[k].id == x;
                    if k == 0 {
                        assert(res[0].id == x);
                    } else {
                        assert(tail[k - 1].id == x);
                        assert(has_id(tail, x));
                        assert(has_id(without_id(tail, id), x));
                        let m = choose|m: int| 0 <= m < sub.len() && sub[m].id == x;
                        assert(res[m + 1].id == x);
                    }
                }
            }
        }
    }
}

/// Dropping an identifier that occurs nowhere changes nothing.
pub proof fn lemma_without_id_absent(items: Seq<ItemModel>, id: Seq<char>)
    requires
        !has_id(items, id),
    ensures
        without_id(items, id) == items,
    decreases items.len(),
{
    if items.len() == 0 {
        assert(without_id(items, id) =~= items);
    } else {
        assert(items[0].id != id);
        assert(!has_id(items.drop_first(), id)) by {
            if has_id(items.drop_first(), id) {
                let k = choose|k: int|
                    0 <= k < items.drop_first().len() && items.drop_first()[k].id == id;
                assert(items[k + 1].id == id);
            }
        }
        lemma_without_id_absent(items.drop_first(), id);
        assert(without_id(items, id) =~= items);
    }
}

/// Idempotent delete: the store a successful delete leaves behind accepts a
/// second delete of the same identifier, the second delete changes nothing,
/// and the identifier resolves to no record in between.
pub proof fn lemma_delete_idempotent(store: Map<Seq<char>, Seq<char>>, id: Seq<char>)
    requires
        id != index_key(),
        store_ok(store.remove(id)),
    ensures
        ({
            let items1 = without_id(spec_index_items(store.remove(id)).unwrap(), id);
            let store1 = store.remove(id).insert(index_key(), enc_index(normalize(items1)));
            &&& store_ok(store1.remove(id))
            &&& !store1.contains_key(id)
            &&& rec_at(store1, id) is None
            &&& store1.remove(id).insert(
                index_key(),
                enc_index(
                    normalize(without_id(spec_index_items(store1.remove(id)).unwrap(), id)),
                ),
            ) == store1
        }),
{
    let items0 = spec_index_items(store.remove(id)).unwrap();
    let items1 = without_id(items0, id);
    let store1 = store.remove(id).insert(index_key(), enc_index(normalize(items1)));
    assert(store1.remove(id) =~= store1);
    lemma_index_roundtrip(normalize(items1));
    assert(spec_index_items(store1.remove(id)) == Some(normalize(items1)));
    lemma_without_id(items0, id);
    lemma_normalize(items1);
    assert(!has_id(normalize(items1), id));
    lemma_without_id_absent(normalize(items1), id);
    lemma_normalize_idempotent(items1);
    assert(store1.remove(id).insert(
        index_key(),
        enc_index(normalize(without_id(spec_index_items(store1.remove(id)).unwrap(), id))),
    ) =~= store1);
}

/// Removing one record's key from the store changes no other record and
/// leaves the index as it was.
proof fn lemma_collect_remove(store: Map<Seq<char>, Seq<char>>, id: Seq<char>, items: Seq<
    ItemModel,
>)
    ensures
        collect_records(store.remove(id), items) == collect_records(store, without_id(items, id)),
    decreases items.len(),
{
    if items.len() == 0 {
    } else {
        let it = items[0];
        let tail = items.drop_first();
        lemma_collect_remove(store, id, tail);
        if it.id == id {
            assert(rec_at(store.remove(id), it.id) is None);
            assert(collect_records(store.remove(id), items) == collect_records(
                store.remove(id),
                tail,
            ));
        } else {
            assert(rec_at(store.remove(id), it.id) == rec_at(store, it.id));
            let w = without_id(items, id);
            assert(w == seq![it] + without_id(tail, id));
            assert(w[0] == it);
            assert(w.drop_first() =~= without_id(tail, id));
            match rec_at(store, it.id) {
                Some(r) => {
                    assert(collect_records(store.remove(id), items) == seq![r] + collect_records(
                        store.remove(id),
                        tail,
                    ));
                    assert(collect_records(store, w) == seq![r] + collect_records(
                        store,
                        without_id(tail, id),
                    ));
                },
                None => {
                    assert(collect_records(store.remove(id), items) == collect_records(
                        store.remove(id),
                        tail,
                    ));
                    assert(collect_records(store, w) == collect_records(
                        store,
                        without_id(tail, id),
                    ));
                },
            }
        }
    }
}

/// Partial-failure tolerance: when the record of an indexed identifier is
/// removed from the store behind the repository's back, the index still
/// reads, listing still succeeds, and it returns exactly the records of the
/// other entries.
pub proof fn lemma_load_all_tolerates_missing(
    store: Map<Seq<char>, Seq<char>>,
    id: Seq<char>,
    items: Seq<ItemModel>,
)
    requires
        id != index_key(),
        spec_index_items(store) == Some(items),
    ensures
        store_ok(store.remove(id)),
        spec_index_items(store.remove(id)) == Some(items),
        collect_records(store.remove(id), items) == collect_records(store, without_id(items, id)),
{
    lemma_collect_remove(store, id, items);
}

/// What a create adds to the index: with a fresh identifier, the normalized
/// entries hold exactly one entry under it, bearing the given label, and
/// every other identifier resolves as before.
pub proof fn lemma_create_adds_entry(items: Seq<ItemModel>, id: Seq<char>, label: Seq<char>)
    requires
        !has_id(items, id),
    ensures
        strict_sorted(normalize(items.push(ItemModel { id, label }))),
        find_id(normalize(items.push(ItemModel { id, label })), id) == Some(
            ItemModel { id, label },
        ),
        forall|x: Seq<char>|
            x != id ==> find_id(normalize(items.push(ItemModel { id, label })), x) == find_id(
                normalize(items),
                x,
            ),
{
    let it = ItemModel { id, label };
    let s = items.push(it);
    assert(s.drop_last() =~= items);
    assert(s.last() == it);
    lemma_normalize(items);
    assert(!has_id(normalize(items), id));
    assert(normalize(s) == sorted_insert(normalize(items), it));
    lemma_sorted_insert(normalize(items), it);
}

/// Shared-label tie-break after two creates: with both identifiers fresh
/// and distinct, the index a second create leaves behind holds both
/// entries, a lookup of the shared label finds an entry, and that entry
/// carries an identifier no greater than either of the two.
pub proof fn lemma_two_creates_tie_break(
    items0: Seq<ItemModel>,
    id1: Seq<char>,
    id2: Seq<char>,
    label: Seq<char>,
)
    requires
        !has_id(items0, id1),
        !has_id(items0, id2),
        id1 != id2,
    ensures
        ({
            let ix1 = normalize(items0.push(ItemModel { id: id1, label }));
            let ix2 = normalize(ix1.push(ItemModel { id: id2, label }));
            &&& find_id(ix2, id1) == Some(ItemModel { id: id1, label })
            &&& find_id(ix2, id2) == Some(ItemModel { id: id2, label })
            &&& first_with_label(ix2, label) is Some
            &&& (first_with_label(ix2, label) matches Some(it) ==> (it.id == id1 || lex_lt(
                it.id,
                id1,
            )) && (it.id == id2 || lex_lt(it.id, id2)))
        }),
{
    let e1 = ItemModel { id: id1, label };
    let e2 = ItemModel { id: id2, label };
    let s1 = items0.push(e1);
    let ix1 = normalize(s1);
    lemma_create_adds_entry(items0, id1, label);
    lemma_normalize(s1);
    assert(!has_id(s1, id2)) by {
        if has_id(s1, id2) {
            let k = choose|k: int| 0 <= k < s1.len() && s1[k].id == id2;
            if k < items0.len() {
                assert(items0[k].id == id2);
            } else {
                assert(s1[k] == e1);
            }
        }
    }
    assert(!has_id(ix1, id2));
    lemma_create_adds_entry(ix1, id2, label);
    let s2 = ix1.push(e2);
    let ix2 = normalize(s2);
    assert(find_id(ix2, id2) == Some(e2));
    assert(find_id(ix2, id1) == find_id(normalize(ix1), id1));
    lemma_normalize_sorted(ix1);
    assert(find_id(ix2, id1) == Some(e1));
    lemma_find_id_has(ix2, id1);
    lemma_find_id_has(ix2, id2);
    let k1 = choose|k: int| 0 <= k < ix2.len() && ix2[k] == e1;
    let k2 = choose|k: int| 0 <= k < ix2.len() && ix2[k] == e2;
    lemma_first_label_smallest(ix2, label);
    match first_with_label(ix2, label) {
        None => {
            assert(ix2[k1].label != label);
            assert(false);
        },
        Some(it) => {
            assert(ix2[k1].label == label);
            assert(it.id == ix2[k1].id || lex_lt(it.id, ix2[k1].id));
            assert(ix2[k2].label == label);
            assert(it.id == ix2[k2].id || lex_lt(it.id, ix2[k2].id));
        },
    }
}

/// Label-lookup tie-break: in a strictly identifier-sorted index — and every
/// index the repository writes is one — the first entry bearing a label
/// carries the smallest identifier among all entries bearing it, so a lookup
/// of a shared label is deterministic.
pub proof fn lemma_first_label_smallest(items: Seq<ItemModel>, label: Seq<char>)
    requires
        strict_sorted(items),
    ensures
        first_with_label(items, label) matches Some(it) ==> {
            &&& it.label == label
            &&& exists|k: int| 0 <= k < items.len() && items[k] == it
            &&& forall|k: int|
                0 <= k < items.len() && items[k].label == label ==> it.id == items[k].id || lex_lt(
                    it.id,
                    items[k].id,
                )
        },
        first_with_label(items, label) is None ==> forall|k: int|
            0 <= k < items.len() ==> items[k].label != label,
    decreases items.len(),
{
    if items.len() == 0 {
    } else if items[0].label == label {
        let it = items[0];
        assert(items[0] == it);
        assert forall|k: int|
            0 <= k < items.len() && items[k].label == label implies it.id == items[k].id
            || lex_lt(it.id, items[k].id) by {
            if k > 0 {
                assert(lex_lt(items[0].id, items[k].id));
            }
        }
    } else {
        let tail = items.drop_first();
        assert(strict_sorted(tail)) by {
            assert forall|i: int, j: int| 0 <= i < j < tail.len() implies lex_lt(
                tail[i].id,
                tail[j].id,
            ) by {
                assert(tail[i] == items[i + 1]);
                assert(tail[j] == items[j + 1]);
            }
        }
        lemma_first_label_smallest(tail, label);
        match first_with_label(tail, label) {
            Some(it) => {
                let m = choose|m: int| 0 <= m < tail.len() && tail[m] == it;
                assert(items[m + 1] == it);
                assert forall|k: int|
                    0 <= k < items.len() && items[k].label == label implies it.id == items[k].id
                    || lex_lt(it.id, items[k].id) by {
                    if k > 0 {
                        assert(tail[k - 1] == items[k]);
                    }
                }
            },
            None => {
                assert forall|k: int| 0 <= k < items.len() implies items[k].label != label by {
                    if k > 0 {
                        assert(tail[k - 1] == items[k]);
                    }
                }
            },
        }
    }
}

} // verus!
