//! The event log kept in an Automerge document: a list object under the
//! root key `events`, one map object per event. Each event is numbered,
//! given the identity of its file and linked by hash to the newest earlier
//! event about the same file; the list is capped in length.
use vstd::prelude::*;

use automerge::transaction::Transactable;
use automerge::{AutoCommit, ObjId, ObjType, ReadDoc, Value, ROOT};

use crate::events::{
    blake3_hex, chain_input, chain_text, file_id_of, hash_of, tail, Ev, EvView,
};

verus! {

#[verifier::external_type_specification]
#[verifier::external_body]
pub struct ExAutoCommit(AutoCommit);

#[verifier::external_type_specification]
#[verifier::external_body]
pub struct ExObjId(ObjId);

// What a document holds, as the wrappers below read and change it. Objects
// are told apart by their key: the counter and actor of the operation that
// made them, which stay the same however the document's actor table is
// laid out.

/// Identity of an object: its operation counter and actor bytes.
pub type ObjKey = (u64, Seq<u8>);

/// The key of an object id (`ExId`'s counter and actor, which its
/// equality compares; the root gets its own key).
pub uninterp spec fn obj_key(id: ObjId) -> ObjKey;

/// Elements of the list object `list`: the key of each element that is an
/// object, nothing for a scalar element.
pub uninterp spec fn list_elems(doc: AutoCommit, list: ObjKey) -> Seq<Option<ObjKey>>;

/// String-valued keys of the map object `obj` (none for other objects).
pub uninterp spec fn map_texts(doc: AutoCommit, obj: ObjKey) -> Map<Seq<char>, Seq<char>>;

/// Keys of the map object `obj` whose value reads as an `i64`
/// (`Value::to_i64`; none for other objects).
pub uninterp spec fn map_ints(doc: AutoCommit, obj: ObjKey) -> Map<Seq<char>, i64>;

/// `obj` is a list object of the document.
pub uninterp spec fn is_list(doc: AutoCommit, obj: ObjKey) -> bool;

/// `obj` is a map object of the document.
pub uninterp spec fn is_map(doc: AutoCommit, obj: ObjKey) -> bool;

/// The string at `key` of `obj`, or empty.
pub open spec fn text_or(doc: AutoCommit, obj: ObjKey, key: Seq<char>) -> Seq<char> {
    if map_texts(doc, obj).contains_key(key) {
        map_texts(doc, obj)[key]
    } else {
        seq![]
    }
}

/// The number at `key` of `obj`, or 0.
pub open spec fn int_or(doc: AutoCommit, obj: ObjKey, key: Seq<char>) -> i64 {
    if map_ints(doc, obj).contains_key(key) {
        map_ints(doc, obj)[key]
    } else {
        0
    }
}

/// The key is that of the document's root map.
pub uninterp spec fn is_root(k: ObjKey) -> bool;

/// The object under `key` of the root map, when that value is an object.
pub uninterp spec fn root_entry(doc: AutoCommit, key: Seq<char>) -> Option<ObjKey>;

/// Every object keeps its kind from `a` to `b`, and the root map its
/// objects.
pub open spec fn kinds_kept(a: AutoCommit, b: AutoCommit) -> bool {
    &&& forall|o: ObjKey| #[trigger] is_list(b, o) == is_list(a, o)
    &&& forall|o: ObjKey| #[trigger] is_map(b, o) == is_map(a, o)
    &&& forall|k: Seq<char>| #[trigger] root_entry(b, k) == root_entry(a, k)
}

/// Every list holds the same elements in `a` and `b`, but `except`.
pub open spec fn lists_kept(a: AutoCommit, b: AutoCommit, except: Option<ObjKey>) -> bool {
    forall|l: ObjKey| Some(l) != except ==> #[trigger] list_elems(b, l) == list_elems(a, l)
}

/// Every map holds the same fields in `a` and `b`, but `except`.
pub open spec fn maps_kept(a: AutoCommit, b: AutoCommit, except: Option<ObjKey>) -> bool {
    &&& forall|m: ObjKey| Some(m) != except ==> #[trigger] map_texts(b, m) == map_texts(a, m)
    &&& forall|m: ObjKey| Some(m) != except ==> #[trigger] map_ints(b, m) == map_ints(a, m)
}

/// `a` and `b` hold the same objects with the same contents.
pub open spec fn same_contents(a: AutoCommit, b: AutoCommit) -> bool {
    &&& lists_kept(a, b, None)
    &&& maps_kept(a, b, None)
    &&& kinds_kept(a, b)
}

/// A new, empty document (`AutoCommit::new`).
#[verifier::external_body]
fn am_new() -> (r: AutoCommit) {
    AutoCommit::new()
}

/// Puts a new, empty list object under `key` of the root map
/// (`Transactable::put_object` with `ObjType::List`). This cannot fail:
/// the root object always exists, is a map, and takes string keys, and
/// creating an object always yields a new operation.
#[verifier::external_body]
fn am_put_list(doc: &mut AutoCommit, key: &str) -> (r: Option<ObjId>)
    ensures
        r is Some,
        r matches Some(id) ==> is_list(*final(doc), obj_key(id)) && list_elems(
            *final(doc),
            obj_key(id),
        ) == Seq::<Option<ObjKey>>::empty() && root_entry(*final(doc), key@) == Some(obj_key(id)),
{
    doc.put_object(ROOT, key, ObjType::List).ok()
}

/// The object under `key` of the root map, when that value is an object
/// (`ReadDoc::get` and `Value::is_object`).
#[verifier::external_body]
fn am_root_object(doc: &AutoCommit, key: &str) -> (r: Option<ObjId>)
    ensures
        match r {
            Some(id) => root_entry(*doc, key@) == Some(obj_key(id)),
            None => root_entry(*doc, key@) is None,
        },
{
    match doc.get(ROOT, key) {
        Ok(Some((Value::Object(_), id))) => Some(id),
        _ => None,
    }
}

/// Whether `obj` is a list object (`ReadDoc::object_type`).
#[verifier::external_body]
fn am_is_list(doc: &AutoCommit, obj: &ObjId) -> (r: bool)
    ensures
        r == is_list(*doc, obj_key(*obj)),
{
    matches!(doc.object_type(obj), Ok(ObjType::List))
}

/// Number of elements of a list (`ReadDoc::length`).
#[verifier::external_body]
fn am_len(doc: &AutoCommit, list: &ObjId) -> (r: usize)
    requires
        is_list(*doc, obj_key(*list)),
    ensures
        r == list_elems(*doc, obj_key(*list)).len(),
{
    doc.length(list)
}

/// The element at `i` of a list, when it is an object (`ReadDoc::get`).
#[verifier::external_body]
fn am_elem(doc: &AutoCommit, list: &ObjId, i: usize) -> (r: Option<ObjId>)
    requires
        is_list(*doc, obj_key(*list)),
        i < list_elems(*doc, obj_key(*list)).len(),
    ensures
        match r {
            Some(id) => list_elems(*doc, obj_key(*list))[i as int] == Some(obj_key(id)),
            None => list_elems(*doc, obj_key(*list))[i as int] is None,
        },
{
    match doc.get(list, i) {
        Ok(Some((Value::Object(_), id))) => Some(id),
        _ => None,
    }
}

/// The string at `key` of `obj`, or empty (`ReadDoc::get`,
/// `Value::to_str`).
#[verifier::external_body]
fn am_text(doc: &AutoCommit, obj: &ObjId, key: &str) -> (r: String)
    ensures
        r@ == text_or(*doc, obj_key(*obj), key@),
{
    match doc.get(obj, key) {
        Ok(Some((v, _))) => v.to_str().unwrap_or_default().to_owned(),
        _ => String::new(),
    }
}

/// The number at `key` of `obj`, or 0 (`ReadDoc::get`,
/// `Value::to_i64`).
#[verifier::external_body]
fn am_int(doc: &AutoCommit, obj: &ObjId, key: &str) -> (r: i64)
    ensures
        r == int_or(*doc, obj_key(*obj), key@),
{
    match doc.get(obj, key) {
        Ok(Some((v, _))) => v.to_i64().unwrap_or(0),
        _ => 0,
    }
}

/// Inserts a new, empty map object at `idx` of a list
/// (`Transactable::insert_object` with `ObjType::Map`), which cannot fail
/// on a list and an index within it. The new object is one the document
/// did not have, and not the root; nothing else changes.
#[verifier::external_body]
fn am_insert_map(doc: &mut AutoCommit, list: &ObjId, idx: usize) -> (r: ObjId)
    requires
        is_list(*old(doc), obj_key(*list)),
        idx <= list_elems(*old(doc), obj_key(*list)).len(),
    ensures
        list_elems(*final(doc), obj_key(*list)) == list_elems(*old(doc), obj_key(*list)).insert(
            idx as int,
            Some(obj_key(r)),
        ),
        !list_elems(*old(doc), obj_key(*list)).contains(Some(obj_key(r))),
        !is_map(*old(doc), obj_key(r)) && !is_list(*old(doc), obj_key(r)),
        !is_root(obj_key(r)),
        is_map(*final(doc), obj_key(r)),
        map_texts(*final(doc), obj_key(r)).dom() == Set::<Seq<char>>::empty(),
        map_ints(*final(doc), obj_key(r)).dom() == Set::<Seq<char>>::empty(),
        lists_kept(*old(doc), *final(doc), Some(obj_key(*list))),
        maps_kept(*old(doc), *final(doc), Some(obj_key(r))),
        forall|o: ObjKey| #[trigger] is_list(*old(doc), o) ==> is_list(*final(doc), o),
        forall|o: ObjKey| #[trigger] is_map(*old(doc), o) ==> is_map(*final(doc), o),
        forall|k: Seq<char>| #[trigger] root_entry(*final(doc), k) == root_entry(*old(doc), k),
{
    doc.insert_object(list, idx, ObjType::Map).unwrap()
}

/// Sets `key` of a map object other than the root to a string
/// (`Transactable::put`), which cannot fail on a map; the key no longer
/// holds a number. (A key of the root may hold an object, which the
/// string would replace.)
#[verifier::external_body]
fn am_put_text(doc: &mut AutoCommit, obj: &ObjId, key: &str, v: &str)
    requires
        is_map(*old(doc), obj_key(*obj)),
        !is_root(obj_key(*obj)),
    ensures
        map_texts(*final(doc), obj_key(*obj)) == map_texts(*old(doc), obj_key(*obj)).insert(
            key@,
            v@,
        ),
        map_ints(*final(doc), obj_key(*obj)) == map_ints(*old(doc), obj_key(*obj)).remove(key@),
        lists_kept(*old(doc), *final(doc), None),
        maps_kept(*old(doc), *final(doc), Some(obj_key(*obj))),
        kinds_kept(*old(doc), *final(doc)),
{
    doc.put(obj, key, v).unwrap()
}

/// Sets `key` of a map object other than the root to a number
/// (`Transactable::put`), which cannot fail on a map; the key no longer
/// holds a string. (A key of the root may hold an object, which the
/// number would replace.)
#[verifier::external_body]
fn am_put_int(doc: &mut AutoCommit, obj: &ObjId, key: &str, v: i64)
    requires
        is_map(*old(doc), obj_key(*obj)),
        !is_root(obj_key(*obj)),
    ensures
        map_ints(*final(doc), obj_key(*obj)) == map_ints(*old(doc), obj_key(*obj)).insert(key@, v),
        map_texts(*final(doc), obj_key(*obj)) == map_texts(*old(doc), obj_key(*obj)).remove(
            key@,
        ),
        lists_kept(*old(doc), *final(doc), None),
        maps_kept(*old(doc), *final(doc), Some(obj_key(*obj))),
        kinds_kept(*old(doc), *final(doc)),
{
    doc.put(obj, key, v).unwrap()
}

/// Deletes the element at `idx` of a list (`Transactable::delete`), which
/// cannot fail on a list and an index within it. The objects still in
/// the list keep their fields.
#[verifier::external_body]
fn am_delete(doc: &mut AutoCommit, list: &ObjId, idx: usize)
    requires
        is_list(*old(doc), obj_key(*list)),
        idx < list_elems(*old(doc), obj_key(*list)).len(),
    ensures
        list_elems(*final(doc), obj_key(*list)) == list_elems(*old(doc), obj_key(*list)).remove(
            idx as int,
        ),
        lists_kept(*old(doc), *final(doc), Some(obj_key(*list))),
        forall|m: ObjKey|
            #![trigger map_texts(*final(doc), m)]
            list_elems(*final(doc), obj_key(*list)).contains(Some(m)) ==> map_texts(*final(doc), m)
                == map_texts(*old(doc), m),
        forall|m: ObjKey|
            #![trigger map_ints(*final(doc), m)]
            list_elems(*final(doc), obj_key(*list)).contains(Some(m)) ==> map_ints(*final(doc), m)
                == map_ints(*old(doc), m),
        kinds_kept(*old(doc), *final(doc)),
{
    doc.delete(list, idx).unwrap()
}

/// The document in its binary format (`AutoCommit::save`, which first
/// commits pending changes); what the document holds does not change. The
/// bytes carry the commit's time, so nothing names them; they encode the
/// document's contents and its whole history of changes.
#[verifier::external_body]
fn am_save(doc: &mut AutoCommit) -> (r: Vec<u8>)
    ensures
        loadable(r@),
        same_contents(*old(doc), *final(doc)),
        same_contents(saved_doc(r@), *final(doc)),
        doc_changes(saved_doc(r@)) == doc_changes(*final(doc)),
{
    doc.save()
}

/// The bytes are a document `AutoCommit::load` accepts.
pub uninterp spec fn loadable(bytes: Seq<u8>) -> bool;

/// The document the bytes encode, as `AutoCommit::load` reads it (apart
/// from the actor loading gives the reader).
pub uninterp spec fn saved_doc(bytes: Seq<u8>) -> AutoCommit;

/// Hashes of the committed changes in a document's history.
pub uninterp spec fn doc_changes(doc: AutoCommit) -> Set<Seq<u8>>;

/// The document holds operations not yet committed as a change.
pub uninterp spec fn has_pending(doc: AutoCommit) -> bool;

/// A document read from its binary format (`AutoCommit::load`); `None`
/// when the bytes are not one. The loaded document gets a random actor,
/// so only its contents and history are stated; no transaction is open
/// on it.
#[verifier::external_body]
fn am_load(bytes: &[u8]) -> (r: Option<AutoCommit>)
    ensures
        r is Some <==> loadable(bytes@),
        r matches Some(d) ==> same_contents(d, saved_doc(bytes@)) && doc_changes(d) == doc_changes(
            saved_doc(bytes@),
        ) && !has_pending(d),
{
    AutoCommit::load(bytes).ok()
}

/// Merges the changes of `other`, which has no uncommitted operations
/// (`merge` would first commit them as a new change), into `doc`
/// (`AutoCommit::merge`); `false`
/// when Automerge refuses them (say, two changes of one actor with the same
/// sequence number). After a merge that went through, every change of
/// `other` is in `doc`'s history. When `doc` already had them all there is
/// nothing to apply: the merge goes through and the contents do not
/// change. Where `other` brings new changes, the merged contents follow
/// Automerge's conflict rules and are not stated, nor what a refused merge
/// left applied.
#[verifier::external_body]
fn am_merge(doc: &mut AutoCommit, other: &mut AutoCommit) -> (r: bool)
    requires
        !has_pending(*old(other)),
    ensures
        r ==> doc_changes(*old(other)).subset_of(doc_changes(*final(doc))),
        doc_changes(*old(other)).subset_of(doc_changes(*old(doc))) ==> r && same_contents(
            *old(doc),
            *final(doc),
        ),
{
    doc.merge(other).is_ok()
}

/// Most events the log keeps.
pub const LOG_CAP: usize = 10000;

/// The event log: a document and its list of events.
pub struct Store {
    pub doc: AutoCommit,
    pub events: ObjId,
}

/// The elements of the store's event list.
pub open spec fn log_of(s: Store) -> Seq<Option<ObjKey>> {
    list_elems(s.doc, obj_key(s.events))
}

/// The store's `events` object is a list.
pub open spec fn listed(s: Store) -> bool {
    is_list(s.doc, obj_key(s.events))
}

/// The event an element's map object describes, each field read as
/// stored (numbers narrowed back to their field's type), absent fields
/// empty or 0.
pub open spec fn record_of(doc: AutoCommit, id: ObjKey) -> EvView {
    EvView {
        seq: int_or(doc, id, "seq"@) as u64,
        ts: text_or(doc, id, "ts"@),
        epoch_ms: int_or(doc, id, "epoch_ms"@),
        pid: int_or(doc, id, "pid"@) as u32,
        tid: int_or(doc, id, "tid"@) as u32,
        uid: int_or(doc, id, "uid"@) as u32,
        comm: text_or(doc, id, "comm"@),
        pkg: text_or(doc, id, "pkg"@),
        op: text_or(doc, id, "op"@),
        ret: int_or(doc, id, "ret"@),
        flags: int_or(doc, id, "flags"@) as u32,
        file: text_or(doc, id, "file"@),
        cmd: text_or(doc, id, "cmd"@),
        old_file: text_or(doc, id, "old_file"@),
        dev: int_or(doc, id, "dev"@) as u64,
        ino: int_or(doc, id, "ino"@) as u64,
        file_id: int_or(doc, id, "file_id"@) as u64,
        prev_hash: text_or(doc, id, "prev_hash"@),
        hash: text_or(doc, id, "hash"@),
    }
}

/// The events of a run of list elements, scalar elements skipped.
pub open spec fn records(doc: AutoCommit, elems: Seq<Option<ObjKey>>) -> Seq<EvView>
    decreases elems.len(),
{
    if elems.len() == 0 {
        seq![]
    } else {
        let r = records(doc, elems.drop_last());
        match elems.last() {
            Some(id) => r.push(record_of(doc, id)),
            None => r,
        }
    }
}

/// Hash of the newest object element describing the file `fid`, empty
/// when there is none.
pub open spec fn file_last_hash(doc: AutoCommit, elems: Seq<Option<ObjKey>>, fid: u64) -> Seq<
    char,
>
    decreases elems.len(),
{
    if elems.len() == 0 {
        seq![]
    } else {
        match elems.last() {
            Some(k) => if record_of(doc, k).file_id == fid {
                text_or(doc, k, "hash"@)
            } else {
                file_last_hash(doc, elems.drop_last(), fid)
            },
            None => file_last_hash(doc, elems.drop_last(), fid),
        }
    }
}

/// Some object element describes the file `fid`.
pub open spec fn file_seen(doc: AutoCommit, elems: Seq<Option<ObjKey>>, fid: u64) -> bool
    decreases elems.len(),
{
    if elems.len() == 0 {
        false
    } else {
        match elems.last() {
            Some(k) => record_of(doc, k).file_id == fid || file_seen(doc, elems.drop_last(), fid),
            None => file_seen(doc, elems.drop_last(), fid),
        }
    }
}

/// The events numbered above `after`.
pub open spec fn newer(recs: Seq<EvView>, after: u64) -> Seq<EvView> {
    recs.filter(|e: EvView| e.seq > after)
}

/// `ev` as the log stores it after `n` elements, the newest event about
/// its file having hash `prev`: numbered `n + 1`, its file identity
/// resolved, linked to `prev` and hashed.
pub open spec fn stored_view(ev: Ev, n: nat, prev: Seq<char>) -> EvView {
    EvView {
        seq: (n + 1) as u64,
        file_id: file_id_of(ev),
        prev_hash: prev,
        hash: blake3_hex(
            vstd::utf8::encode_utf8(chain_input(file_id_of(ev), ev.op@, ev.file@, ev.epoch_ms, prev)),
        ),
        ..ev@
    }
}

/// The list after appending `x`, its oldest element dropped when it would
/// hold more than `LOG_CAP`.
pub open spec fn capped_push<T>(s: Seq<T>, x: T) -> Seq<T> {
    if s.len() + 1 > LOG_CAP {
        s.push(x).drop_first()
    } else {
        s.push(x)
    }
}

/// The store's `events` object is the one under `events` of the root map.
pub open spec fn anchored(s: Store) -> bool {
    root_entry(s.doc, "events"@) == Some(obj_key(s.events))
}

impl Store {
    /// A new log in a new document.
    pub fn new() -> (r: Option<Store>)
        ensures
            r is Some,
            r matches Some(s) ==> listed(s) && anchored(s) && log_of(s).len() == 0 && chain_ok(
                s.doc,
                log_of(s),
            ),
    {
        let mut doc = am_new();
        match am_put_list(&mut doc, "events") {
            Some(events) => Some(Store { doc, events }),
            None => None,
        }
    }

    /// The log of a loaded document: the object under `events`, or a new
    /// list there when the document has none.
    pub fn from_doc(doc: AutoCommit) -> (r: Option<Store>)
        ensures
            root_entry(doc, "events"@) matches Some(k) ==> (r matches Some(s) && s.doc == doc
                && obj_key(s.events) == k && anchored(s)),
            root_entry(doc, "events"@) is None ==> (r matches Some(s) && listed(s) && anchored(s)
                && log_of(s).len() == 0),
    {
        let mut doc = doc;
        match am_root_object(&doc, "events") {
            Some(events) => Some(Store { doc, events }),
            None => match am_put_list(&mut doc, "events") {
                Some(events) => Some(Store { doc, events }),
                None => None,
            },
        }
    }
}

/// String fields an event is stored with.
pub open spec fn stored_texts(e: EvView) -> Map<Seq<char>, Seq<char>> {
    Map::empty().insert("hash"@, e.hash).insert("prev_hash"@, e.prev_hash).insert("ts"@, e.ts).insert(
        "comm"@,
        e.comm,
    ).insert("pkg"@, e.pkg).insert("op"@, e.op).insert("file"@, e.file).insert("cmd"@, e.cmd).insert(
        "old_file"@,
        e.old_file,
    )
}

/// Number fields an event is stored with (unsigned ones as `i64`).
pub open spec fn stored_ints(e: EvView) -> Map<Seq<char>, i64> {
    Map::empty().insert("epoch_ms"@, e.epoch_ms).insert("pid"@, e.pid as i64).insert(
        "tid"@,
        e.tid as i64,
    ).insert("uid"@, e.uid as i64).insert("ret"@, e.ret).insert("flags"@, e.flags as i64).insert(
        "dev"@,
        e.dev as i64,
    ).insert("ino"@, e.ino as i64).insert("file_id"@, e.file_id as i64).insert(
        "seq"@,
        e.seq as i64,
    )
}

/// The field names differ from one another.
proof fn lemma_field_names()
    ensures
        "hash"@.len() == 4 && "hash"@[0] == 'h',
        "prev_hash"@.len() == 9 && "prev_hash"@[0] == 'p',
        "ts"@.len() == 2 && "ts"@[0] == 't',
        "epoch_ms"@.len() == 8 && "epoch_ms"@[0] == 'e',
        "pid"@.len() == 3 && "pid"@[0] == 'p' && "pid"@[1] == 'i',
        "tid"@.len() == 3 && "tid"@[0] == 't',
        "uid"@.len() == 3 && "uid"@[0] == 'u',
        "comm"@.len() == 4 && "comm"@[0] == 'c',
        "pkg"@.len() == 3 && "pkg"@[0] == 'p' && "pkg"@[1] == 'k',
        "op"@.len() == 2 && "op"@[0] == 'o',
        "ret"@.len() == 3 && "ret"@[0] == 'r',
        "flags"@.len() == 5 && "flags"@[0] == 'f',
        "file"@.len() == 4 && "file"@[0] == 'f',
        "cmd"@.len() == 3 && "cmd"@[0] == 'c',
        "old_file"@.len() == 8 && "old_file"@[0] == 'o',
        "dev"@.len() == 3 && "dev"@[0] == 'd',
        "ino"@.len() == 3 && "ino"@[0] == 'i',
        "file_id"@.len() == 7 && "file_id"@[0] == 'f',
        "seq"@.len() == 3 && "seq"@[0] == 's',
{
    reveal_strlit("hash");
    reveal_strlit("prev_hash");
    reveal_strlit("ts");
    reveal_strlit("epoch_ms");
    reveal_strlit("pid");
    reveal_strlit("tid");
    reveal_strlit("uid");
    reveal_strlit("comm");
    reveal_strlit("pkg");
    reveal_strlit("op");
    reveal_strlit("ret");
    reveal_strlit("flags");
    reveal_strlit("file");
    reveal_strlit("cmd");
    reveal_strlit("old_file");
    reveal_strlit("dev");
    reveal_strlit("ino");
    reveal_strlit("file_id");
    reveal_strlit("seq");
}

/// Writes the fields of `e` into the empty map object `obj`.
fn write_event(doc: &mut AutoCommit, obj: &ObjId, e: &Ev)
    requires
        is_map(*old(doc), obj_key(*obj)),
        !is_root(obj_key(*obj)),
        map_texts(*old(doc), obj_key(*obj)).dom() == Set::<Seq<char>>::empty(),
        map_ints(*old(doc), obj_key(*obj)).dom() == Set::<Seq<char>>::empty(),
    ensures
        map_texts(*final(doc), obj_key(*obj)) == stored_texts(e@),
        map_ints(*final(doc), obj_key(*obj)) == stored_ints(e@),
        lists_kept(*old(doc), *final(doc), None),
        maps_kept(*old(doc), *final(doc), Some(obj_key(*obj))),
        kinds_kept(*old(doc), *final(doc)),
{
    proof {
        lemma_field_names();
    }
    let ghost mut tt: Map<Seq<char>, Seq<char>> = Map::empty();
    let ghost mut ti: Map<Seq<char>, i64> = Map::empty();
    assert(map_texts(*doc, obj_key(*obj)) =~= tt);
    assert(map_ints(*doc, obj_key(*obj)) =~= ti);
    am_put_text(doc, obj, "hash", e.hash.as_str());
    proof {
        tt = tt.insert("hash"@, e@.hash);
        assert(map_texts(*doc, obj_key(*obj)) =~= tt);
        assert(map_ints(*doc, obj_key(*obj)) =~= ti);
    }
    am_put_text(doc, obj, "prev_hash", e.prev_hash.as_str());
    proof {
        tt = tt.insert("prev_hash"@, e@.prev_hash);
        assert(map_texts(*doc, obj_key(*obj)) =~= tt);
        assert(map_ints(*doc, obj_key(*obj)) =~= ti);
    }
    am_put_text(doc, obj, "ts", e.ts.as_str());
    proof {
        tt = tt.insert("ts"@, e@.ts);
        assert(map_texts(*doc, obj_key(*obj)) =~= tt);
        assert(map_ints(*doc, obj_key(*obj)) =~= ti);
    }
    am_put_int(doc, obj, "epoch_ms", e.epoch_ms);
    proof {
        ti = ti.insert("epoch_ms"@, e@.epoch_ms);
        assert(map_texts(*doc, obj_key(*obj)) =~= tt);
        assert(map_ints(*doc, obj_key(*obj)) =~= ti);
    }
    am_put_int(doc, obj, "pid", e.pid as i64);
    proof {
        ti = ti.insert("pid"@, e@.pid as i64);
        assert(map_texts(*doc, obj_key(*obj)) =~= tt);
        assert(map_ints(*doc, obj_key(*obj)) =~= ti);
    }
    am_put_int(doc, obj, "tid", e.tid as i64);
    proof {
        ti = ti.insert("tid"@, e@.tid as i64);
        assert(map_texts(*doc, obj_key(*obj)) =~= tt);
        assert(map_ints(*doc, obj_key(*obj)) =~= ti);
    }
    am_put_int(doc, obj, "uid", e.uid as i64);
    proof {
        ti = ti.insert("uid"@, e@.uid as i64);
        assert(map_texts(*doc, obj_key(*obj)) =~= tt);
        assert(map_ints(*doc, obj_key(*obj)) =~= ti);
    }
    am_put_text(doc, obj, "comm", e.comm.as_str());
    proof {
        tt = tt.insert("comm"@, e@.comm);
        assert(map_texts(*doc, obj_key(*obj)) =~= tt);
        assert(map_ints(*doc, obj_key(*obj)) =~= ti);
    }
    am_put_text(doc, obj, "pkg", e.pkg.as_str());
    proof {
        tt = tt.insert("pkg"@, e@.pkg);
        assert(map_texts(*doc, obj_key(*obj)) =~= tt);
        assert(map_ints(*doc, obj_key(*obj)) =~= ti);
    }
    am_put_text(doc, obj, "op", e.op.as_str());
    proof {
        tt = tt.insert("op"@, e@.op);
        assert(map_texts(*doc, obj_key(*obj)) =~= tt);
        assert(map_ints(*doc, obj_key(*obj)) =~= ti);
    }
    am_put_int(doc, obj, "ret", e.ret);
    proof {
        ti = ti.insert("ret"@, e@.ret);
        assert(map_texts(*doc, obj_key(*obj)) =~= tt);
        assert(map_ints(*doc, obj_key(*obj)) =~= ti);
    }
    am_put_int(doc, obj, "flags", e.flags as i64);
    proof {
        ti = ti.insert("flags"@, e@.flags as i64);
        assert(map_texts(*doc, obj_key(*obj)) =~= tt);
        assert(map_ints(*doc, obj_key(*obj)) =~= ti);
    }
    am_put_text(doc, obj, "file", e.file.as_str());
    proof {
        tt = tt.insert("file"@, e@.file);
        assert(map_texts(*doc, obj_key(*obj)) =~= tt);
        assert(map_ints(*doc, obj_key(*obj)) =~= ti);
    }
    am_put_text(doc, obj, "cmd", e.cmd.as_str());
    proof {
        tt = tt.insert("cmd"@, e@.cmd);
        assert(map_texts(*doc, obj_key(*obj)) =~= tt);
        assert(map_ints(*doc, obj_key(*obj)) =~= ti);
    }
    am_put_text(doc, obj, "old_file", e.old_file.as_str());
    proof {
        tt = tt.insert("old_file"@, e@.old_file);
        assert(map_texts(*doc, obj_key(*obj)) =~= tt);
        assert(map_ints(*doc, obj_key(*obj)) =~= ti);
    }
    am_put_int(doc, obj, "dev", e.dev as i64);
    proof {
        ti = ti.insert("dev"@, e@.dev as i64);
        assert(map_texts(*doc, obj_key(*obj)) =~= tt);
        assert(map_ints(*doc, obj_key(*obj)) =~= ti);
    }
    am_put_int(doc, obj, "ino", e.ino as i64);
    proof {
        ti = ti.insert("ino"@, e@.ino as i64);
        assert(map_texts(*doc, obj_key(*obj)) =~= tt);
        assert(map_ints(*doc, obj_key(*obj)) =~= ti);
    }
    am_put_int(doc, obj, "file_id", e.file_id as i64);
    proof {
        ti = ti.insert("file_id"@, e@.file_id as i64);
        assert(map_texts(*doc, obj_key(*obj)) =~= tt);
        assert(map_ints(*doc, obj_key(*obj)) =~= ti);
    }
    am_put_int(doc, obj, "seq", e.seq as i64);
    proof {
        ti = ti.insert("seq"@, e@.seq as i64);
        assert(map_texts(*doc, obj_key(*obj)) =~= tt);
        assert(map_ints(*doc, obj_key(*obj)) =~= ti);
    }
    assert(tt =~= stored_texts(e@));
    assert(ti =~= stored_ints(e@));
}

/// `b` is `a` after pushing `ev` as the new element `r`: `r` is new to
/// the list and is appended (the oldest element dropped past the cap),
/// it describes `ev` as stored, linked to the newest event about the same
/// file, and every other element keeps its fields.
pub open spec fn pushed(a: Store, b: Store, ev: Ev, r: ObjKey) -> bool {
    &&& b.events == a.events
    &&& listed(b)
    &&& (anchored(a) ==> anchored(b))
    &&& !log_of(a).contains(Some(r))
    &&& log_of(b) == capped_push(log_of(a), Some(r))
    &&& record_of(b.doc, r) == stored_view(
        ev,
        log_of(a).len(),
        file_last_hash(a.doc, log_of(a), file_id_of(ev)),
    )
    &&& forall|id: ObjKey|
        #![trigger record_of(b.doc, id)]
        log_of(b).contains(Some(id)) && id != r ==> record_of(b.doc, id) == record_of(a.doc, id)
}

/// Appends an event: it is numbered after the elements already held, its
/// file identity is resolved and it is linked by hash to the newest event
/// about the same file; past `LOG_CAP` elements the oldest is dropped.
/// Nothing happens when the store's `events` object is not a list.
pub fn push(s: &mut Store, ev: Ev)
    requires
        log_of(*old(s)).len() < 0x7fff_ffff_ffff_ffff,
    ensures
        listed(*old(s)) ==> exists|r: ObjKey| pushed(*old(s), *final(s), ev, r),
        !listed(*old(s)) ==> *final(s) == *old(s),
{
    let ghost s0 = *s;
    if !am_is_list(&s.doc, &s.events) {
        return;
    }
    let n = am_len(&s.doc, &s.events);
    let fid = ev.file_id_computed();
    let ghost elems0 = log_of(s0);
    let mut prev = String::new();
    let mut found = false;
    let mut j = n;
    proof {
        assert(elems0.take(n as int) =~= elems0);
    }
    while j > 0 && !found
        invariant
            *s == s0,
            listed(s0),
            n == elems0.len(),
            elems0 == log_of(s0),
            j <= n,
            found ==> prev@ == file_last_hash(s0.doc, elems0, fid),
            !found ==> file_last_hash(s0.doc, elems0, fid) == file_last_hash(
                s0.doc,
                elems0.take(j as int),
                fid,
            ),
            !found ==> prev@ == Seq::<char>::empty(),
        decreases j,
    {
        let ghost pre = elems0.take(j as int);
        proof {
            assert(pre.drop_last() =~= elems0.take(j - 1));
            assert(pre.last() == elems0[j - 1]);
        }
        match am_elem(&s.doc, &s.events, j - 1) {
            Some(id) => {
                let f = am_int(&s.doc, &id, "file_id") as u64;
                if f == fid {
                    prev = am_text(&s.doc, &id, "hash");
                    found = true;
                }
            },
            None => {},
        }
        j -= 1;
    }
    proof {
        if !found {
            assert(elems0.take(0) =~= Seq::<Option<ObjKey>>::empty());
        }
    }
    assert(prev@ == file_last_hash(s0.doc, elems0, file_id_of(ev)));
    let text = chain_text(fid, ev.op.as_str(), ev.file.as_str(), ev.epoch_ms, prev.as_str());
    let hash = hash_of(text.as_str());
    let e = Ev { seq: (n as u64) + 1, file_id: fid, prev_hash: prev, hash, ..ev };
    let r = am_insert_map(&mut s.doc, &s.events, n);
    let ghost rk = obj_key(r);
    let ghost s1 = *s;
    write_event(&mut s.doc, &r, &e);
    let ghost s2 = *s;
    if n >= LOG_CAP {
        am_delete(&mut s.doc, &s.events, 0);
    }
    proof {
        assert(log_of(s1) =~= elems0.push(Some(rk)));
        assert(log_of(s2) == log_of(s1));
        if n + 1 > LOG_CAP {
            assert(log_of(s1).remove(0) =~= elems0.push(Some(rk)).drop_first());
        }
        assert(log_of(*s) == capped_push(elems0, Some(rk)));
        assert(log_of(*s).contains(Some(rk))) by {
            assert(log_of(*s)[log_of(*s).len() - 1] == Some(rk));
        }
        assert(map_texts(s.doc, rk) == stored_texts(e@));
        assert(map_ints(s.doc, rk) == stored_ints(e@));
        lemma_field_names();
        let dv = e.dev;
        let iv = e.ino;
        let fv = e.file_id;
        assert((dv as i64) as u64 == dv) by (bit_vector);
        assert((iv as i64) as u64 == iv) by (bit_vector);
        assert((fv as i64) as u64 == fv) by (bit_vector);
        let pv = e.pid;
        let tv = e.tid;
        let uv = e.uid;
        let gv = e.flags;
        let qv = e.seq;
        assert((pv as i64) as u32 == pv) by (bit_vector);
        assert((tv as i64) as u32 == tv) by (bit_vector);
        assert((uv as i64) as u32 == uv) by (bit_vector);
        assert((gv as i64) as u32 == gv) by (bit_vector);
        assert(qv < 0x8000_0000_0000_0000u64 ==> (qv as i64) as u64 == qv) by (bit_vector);
        assert(record_of(s.doc, rk) == stored_view(
            ev,
            elems0.len(),
            file_last_hash(s0.doc, elems0, file_id_of(ev)),
        ));
        assert forall|id: ObjKey|
            #![trigger record_of(s.doc, id)]
            log_of(*s).contains(Some(id)) && id != rk implies record_of(s.doc, id) == record_of(
                s0.doc,
                id,
            ) by {
            assert(map_texts(s2.doc, id) == map_texts(s1.doc, id));
            assert(map_ints(s2.doc, id) == map_ints(s1.doc, id));
            assert(map_texts(s1.doc, id) == map_texts(s0.doc, id));
            assert(map_ints(s1.doc, id) == map_ints(s0.doc, id));
        }
        assert(pushed(s0, *s, ev, rk));
    }
}

/// Reads the event an element's map object describes.
fn read_event(doc: &AutoCommit, id: &ObjId) -> (r: Ev)
    ensures
        r@ == record_of(*doc, obj_key(*id)),
{
    Ev {
        hash: am_text(doc, id, "hash"),
        prev_hash: am_text(doc, id, "prev_hash"),
        ts: am_text(doc, id, "ts"),
        epoch_ms: am_int(doc, id, "epoch_ms"),
        pid: am_int(doc, id, "pid") as u32,
        tid: am_int(doc, id, "tid") as u32,
        uid: am_int(doc, id, "uid") as u32,
        comm: am_text(doc, id, "comm"),
        pkg: am_text(doc, id, "pkg"),
        op: am_text(doc, id, "op"),
        ret: am_int(doc, id, "ret"),
        flags: am_int(doc, id, "flags") as u32,
        file: am_text(doc, id, "file"),
        cmd: am_text(doc, id, "cmd"),
        old_file: am_text(doc, id, "old_file"),
        dev: am_int(doc, id, "dev") as u64,
        ino: am_int(doc, id, "ino") as u64,
        file_id: am_int(doc, id, "file_id") as u64,
        seq: am_int(doc, id, "seq") as u64,
    }
}

/// One more element of the log adds its event to those numbered above
/// `after` exactly when its number is above `after`.
proof fn lemma_newer_step(doc: AutoCommit, elems: Seq<Option<ObjKey>>, i: int, after: u64)
    requires
        0 <= i < elems.len(),
    ensures
        newer(records(doc, elems.take(i + 1)), after) == match elems[i] {
            Some(k) => if record_of(doc, k).seq > after {
                newer(records(doc, elems.take(i)), after).push(record_of(doc, k))
            } else {
                newer(records(doc, elems.take(i)), after)
            },
            None => newer(records(doc, elems.take(i)), after),
        },
{
    let t = elems.take(i + 1);
    assert(t.drop_last() =~= elems.take(i));
    assert(t.last() == elems[i]);
    let r = records(doc, elems.take(i));
    match elems[i] {
        Some(k) => {
            let x = record_of(doc, k);
            assert(records(doc, t) == r.push(x));
            reveal(Seq::filter);
            assert(r.push(x).drop_last() =~= r);
        },
        None => {
            assert(records(doc, t) == r);
        },
    }
}

/// The events numbered above `after`, at most the newest `limit` of them,
/// oldest first. Nothing when the store's `events` object is not a list.
pub fn query(s: &Store, after: u64, limit: usize) -> (out: Vec<Ev>)
    ensures
        out@.map_values(|e: Ev| e@) == if listed(*s) {
            tail(newer(records(s.doc, log_of(*s)), after), limit as nat)
        } else {
            seq![]
        },
{
    let mut found: Vec<Ev> = Vec::new();
    if !am_is_list(&s.doc, &s.events) {
        assert(found@.map_values(|e: Ev| e@) =~= Seq::<EvView>::empty());
        return found;
    }
    let ghost elems = log_of(*s);
    let len = am_len(&s.doc, &s.events);
    let mut i: usize = 0;
    proof {
        assert(elems.take(0) =~= Seq::<Option<ObjKey>>::empty());
        assert(found@.map_values(|e: Ev| e@) =~= Seq::<EvView>::empty());
        reveal(Seq::filter);
    }
    while i < len
        invariant
            i <= len,
            len == elems.len(),
            elems == log_of(*s),
            listed(*s),
            found@.map_values(|e: Ev| e@) == newer(records(s.doc, elems.take(i as int)), after),
        decreases len - i,
    {
        let ghost before = found@.map_values(|e: Ev| e@);
        proof {
            lemma_newer_step(s.doc, elems, i as int, after);
        }
        match am_elem(&s.doc, &s.events, i) {
            Some(id) => {
                let e = read_event(&s.doc, &id);
                if e.seq > after {
                    found.push(e);
                    assert(found@.map_values(|e: Ev| e@) =~= before.push(
                        record_of(s.doc, obj_key(id)),
                    ));
                }
            },
            None => {},
        }
        i += 1;
    }
    proof {
        assert(elems.take(i as int) =~= elems);
    }
    let ghost fv = found@.map_values(|e: Ev| e@);
    let flen = found.len();
    let start = if flen > limit {
        flen - limit
    } else {
        0
    };
    let mut out: Vec<Ev> = Vec::new();
    let mut k = start;
    proof {
        assert(out@.map_values(|e: Ev| e@) =~= fv.subrange(start as int, k as int));
    }
    while k < flen
        invariant
            start <= k <= flen,
            flen == found@.len(),
            fv == found@.map_values(|e: Ev| e@),
            out@.map_values(|e: Ev| e@) == fv.subrange(start as int, k as int),
        decreases flen - k,
    {
        let ghost before = out@.map_values(|e: Ev| e@);
        let e = found[k].duplicate();
        assert(e@ == fv[k as int]);
        out.push(e);
        assert(out@.map_values(|e: Ev| e@) =~= before.push(fv[k as int]));
        k += 1;
        assert(out@.map_values(|e: Ev| e@) =~= fv.subrange(start as int, k as int));
    }
    proof {
        if flen > limit {
            assert(fv.subrange(start as int, flen as int) == tail(fv, limit as nat));
        } else {
            assert(fv.subrange(0, flen as int) =~= fv);
        }
    }
    out
}

/// Number of elements of the event list (0 when `events` is not a list).
pub fn len(s: &Store) -> (r: usize)
    ensures
        listed(*s) ==> r == log_of(*s).len(),
        !listed(*s) ==> r == 0,
{
    if am_is_list(&s.doc, &s.events) {
        am_len(&s.doc, &s.events)
    } else {
        0
    }
}

/// Number of the event the log holds last: 0 when the store's `events`
/// object is not a list, is empty, or ends with something other than an
/// event.
pub open spec fn newest_of(s: Store) -> u64 {
    if listed(s) && log_of(s).len() > 0 {
        match log_of(s).last() {
            Some(k) => record_of(s.doc, k).seq,
            None => 0,
        }
    } else {
        0
    }
}

/// Sequence number of the newest event, as the status reply reports it.
pub fn newest_seq(s: &Store) -> (r: u64)
    ensures
        r == newest_of(*s),
{
    if !am_is_list(&s.doc, &s.events) {
        return 0;
    }
    let n = am_len(&s.doc, &s.events);
    if n == 0 {
        return 0;
    }
    match am_elem(&s.doc, &s.events, n - 1) {
        Some(id) => {
            let e = read_event(&s.doc, &id);
            e.seq
        },
        None => 0,
    }
}

/// After a push the newest event is the pushed one, numbered one past the
/// length of the log before it.
pub proof fn lemma_push_newest(a: Store, b: Store, ev: Ev, r: ObjKey)
    requires
        pushed(a, b, ev, r),
        log_of(a).len() < 0x7fff_ffff_ffff_ffff,
    ensures
        newest_of(b) == log_of(a).len() + 1,
{
    let e1 = log_of(b);
    assert(e1.len() >= 1);
    assert(e1[e1.len() - 1] == Some(r));
}

/// Replaces the log with an empty one in a new document; always
/// succeeds.
pub fn clear(s: &mut Store) -> (r: bool)
    ensures
        r,
        listed(*final(s)),
        anchored(*final(s)),
        log_of(*final(s)).len() == 0,
        chain_ok(final(s).doc, log_of(*final(s))),
{
    match Store::new() {
        Some(n) => {
            *s = n;
            true
        },
        None => false,
    }
}

/// The document in its binary format: loading the bytes gives back a
/// document with the same contents and history. The log does not change.
pub fn save_bytes(s: &mut Store) -> (r: Vec<u8>)
    ensures
        loadable(r@),
        final(s).events == old(s).events,
        same_contents(old(s).doc, final(s).doc),
        same_contents(saved_doc(r@), final(s).doc),
        doc_changes(saved_doc(r@)) == doc_changes(final(s).doc),
{
    am_save(&mut s.doc)
}

/// What became of a document handed to the store.
#[derive(Clone, Copy, Debug, PartialEq, Eq, Structural)]
pub enum LoadOutcome {
    /// The bytes are not a document; the store is unchanged.
    NotADocument,
    /// The document's changes are now in the store's history.
    Merged,
    /// Automerge refused the document's changes.
    Refused,
}

/// Merges a document received from a client into the store's. Bytes that
/// are not a document leave the store unchanged. After a merge, every
/// change the bytes carry is in the store's history; a document whose
/// changes the store already has (such as its own snapshot) merges and
/// changes nothing.
pub fn load_bytes(s: &mut Store, bytes: &[u8]) -> (r: LoadOutcome)
    ensures
        (r == LoadOutcome::NotADocument) == !loadable(bytes@),
        final(s).events == old(s).events,
        r == LoadOutcome::NotADocument ==> *final(s) == *old(s),
        r == LoadOutcome::Merged ==> doc_changes(saved_doc(bytes@)).subset_of(
            doc_changes(final(s).doc),
        ),
        loadable(bytes@) && doc_changes(saved_doc(bytes@)).subset_of(doc_changes(old(s).doc))
            ==> r == LoadOutcome::Merged && same_contents(old(s).doc, final(s).doc),
{
    match am_load(bytes) {
        Some(mut other) => {
            if am_merge(&mut s.doc, &mut other) {
                LoadOutcome::Merged
            } else {
                LoadOutcome::Refused
            }
        },
        None => LoadOutcome::NotADocument,
    }
}

/// A snapshot carries no change the store lacks: what `save_bytes` gives
/// is a document that `load_bytes` merges into the same store without
/// changing its contents.
pub proof fn lemma_own_snapshot_adds_nothing(s: Store, bytes: Seq<u8>)
    requires
        doc_changes(saved_doc(bytes)) == doc_changes(s.doc),
    ensures
        doc_changes(saved_doc(bytes)).subset_of(doc_changes(s.doc)),
{
}

/// Each event that is not the first about its file in the list is linked
/// to the newest earlier event about that file: its `prev_hash` is that
/// event's `hash`.
pub open spec fn chain_ok(doc: AutoCommit, elems: Seq<Option<ObjKey>>) -> bool {
    forall|i: int|
        #![trigger elems[i]]
        0 <= i < elems.len() ==> match elems[i] {
            Some(y) => file_seen(doc, elems.take(i), record_of(doc, y).file_id) ==> record_of(
                doc,
                y,
            ).prev_hash == file_last_hash(doc, elems.take(i), record_of(doc, y).file_id),
            None => true,
        }
}

/// The per-file links of a run of elements depend only on the events
/// those elements describe.
proof fn lemma_file_frame(da: AutoCommit, db: AutoCommit, e: Seq<Option<ObjKey>>, f: u64)
    requires
        forall|k: ObjKey| e.contains(Some(k)) ==> #[trigger] record_of(db, k) == record_of(da, k),
    ensures
        file_last_hash(db, e, f) == file_last_hash(da, e, f),
        file_seen(db, e, f) == file_seen(da, e, f),
    decreases e.len(),
{
    if e.len() > 0 {
        let p = e.drop_last();
        assert forall|k: ObjKey| p.contains(Some(k)) implies #[trigger] record_of(db, k)
            == record_of(da, k) by {
            let w = choose|w: int| 0 <= w < p.len() && p[w] == Some(k);
            assert(e[w] == Some(k));
        }
        lemma_file_frame(da, db, p, f);
        if let Some(k) = e.last() {
            assert(e.contains(Some(k)));
            assert(e[e.len() - 1] == Some(k));
        }
    }
}

/// Dropping the oldest element keeps the newest earlier event about a
/// file, as long as one remains.
proof fn lemma_file_drop_first(d: AutoCommit, e: Seq<Option<ObjKey>>, f: u64)
    requires
        e.len() > 0,
        file_seen(d, e.drop_first(), f),
    ensures
        file_seen(d, e, f),
        file_last_hash(d, e.drop_first(), f) == file_last_hash(d, e, f),
    decreases e.len(),
{
    let u = e.drop_first();
    assert(u.len() > 0);
    assert(u.last() == e.last());
    let hit = match e.last() {
        Some(k) => record_of(d, k).file_id == f,
        None => false,
    };
    if !hit {
        assert(u.drop_last() =~= e.drop_last().drop_first());
        assert(file_seen(d, u.drop_last(), f));
        lemma_file_drop_first(d, e.drop_last(), f);
    }
}

/// A push keeps the hash chain of every file: the new event links to the
/// newest earlier event about its file, and the events already held keep
/// their links.
pub proof fn lemma_push_keeps_chain(a: Store, b: Store, ev: Ev, r: ObjKey)
    requires
        pushed(a, b, ev, r),
        chain_ok(a.doc, log_of(a)),
    ensures
        chain_ok(b.doc, log_of(b)),
{
    let e0 = log_of(a);
    let t = e0.push(Some(r));
    let e1 = log_of(b);
    let off: int = if e0.len() + 1 > LOG_CAP {
        1
    } else {
        0
    };
    assert forall|i: int| #![trigger e1[i]] 0 <= i < e1.len() implies match e1[i] {
        Some(y) => file_seen(b.doc, e1.take(i), record_of(b.doc, y).file_id) ==> record_of(
            b.doc,
            y,
        ).prev_hash == file_last_hash(b.doc, e1.take(i), record_of(b.doc, y).file_id),
        None => true,
    } by {
        let p = e1.take(i);
        assert(e1[i] == t[i + off]);
        assert(p =~= e0.subrange(off, i + off));
        assert forall|k: ObjKey| p.contains(Some(k)) implies #[trigger] record_of(b.doc, k)
            == record_of(a.doc, k) by {
            let w = choose|w: int| 0 <= w < p.len() && p[w] == Some(k);
            assert(p[w] == e0[w + off]);
            assert(e0.contains(Some(k)));
            assert(k != r);
            assert(e1[w] == Some(k));
            assert(e1.contains(Some(k)));
        }
        if let Some(y) = e1[i] {
            let f = record_of(b.doc, y).file_id;
            lemma_file_frame(a.doc, b.doc, p, f);
            if i + off == e0.len() {
                assert(y == r);
                if off == 1 {
                    assert(p =~= e0.drop_first());
                    if file_seen(a.doc, p, f) {
                        lemma_file_drop_first(a.doc, e0, f);
                    }
                } else {
                    assert(p =~= e0);
                }
            } else {
                assert(e0[i + off] == Some(y));
                assert(e0.contains(Some(y)));
                assert(y != r);
                assert(e1.contains(Some(y)));
                assert(record_of(b.doc, y) == record_of(a.doc, y));
                assert(e0[i + off] matches Some(_));
                if off == 1 {
                    let q = e0.take(i + 1);
                    assert(p =~= q.drop_first());
                    assert(q.drop_first() =~= e0.subrange(1, i + 1));
                    if file_seen(a.doc, p, f) {
                        lemma_file_drop_first(a.doc, q, f);
                    }
                } else {
                    assert(p =~= e0.take(i));
                }
            }
        }
    }
}

/// A push keeps the log within `LOG_CAP` elements.
pub proof fn lemma_push_within_cap(a: Store, b: Store, ev: Ev, r: ObjKey)
    requires
        pushed(a, b, ev, r),
        log_of(a).len() <= LOG_CAP,
    ensures
        log_of(b).len() <= LOG_CAP,
        log_of(b).len() == if log_of(a).len() == LOG_CAP {
            log_of(a).len()
        } else {
            log_of(a).len() + 1
        },
{
}

/// After a push, a query for one event newer than any number below the
/// pushed event's gives back the pushed event as it was stored.
pub proof fn lemma_read_back(a: Store, b: Store, ev: Ev, r: ObjKey, after: u64)
    requires
        pushed(a, b, ev, r),
        after < log_of(a).len() + 1,
        log_of(a).len() < 0x7fff_ffff_ffff_ffff,
    ensures
        tail(newer(records(b.doc, log_of(b)), after), 1) == seq![
            stored_view(ev, log_of(a).len(), file_last_hash(a.doc, log_of(a), file_id_of(ev))),
        ],
{
    let e1 = log_of(b);
    let x = record_of(b.doc, r);
    assert(e1.len() >= 1);
    assert(e1[e1.len() - 1] == Some(r));
    assert(e1.last() == Some(r));
    let rs = records(b.doc, e1.drop_last());
    assert(records(b.doc, e1) == rs.push(x));
    assert(x.seq > after);
    reveal_with_fuel(Seq::filter, 1);
    assert(rs.push(x).drop_last() =~= rs);
    assert(newer(rs.push(x), after) == newer(rs, after).push(x));
    let nn = newer(rs, after).push(x);
    if nn.len() > 1 {
        assert(nn.subrange(nn.len() - 1, nn.len() as int) =~= seq![x]);
    } else {
        assert(nn =~= seq![x]);
    }
}

/// Saving keeps the log's contents: a document loaded from the bytes
/// holds, under `events` of its root map, the same list with the same
/// events, so a store opened on it answers queries as this one does.
pub proof fn lemma_snapshot_restores(s: Store, bytes: Seq<u8>, d: AutoCommit)
    requires
        anchored(s),
        same_contents(saved_doc(bytes), s.doc),
        same_contents(d, saved_doc(bytes)),
    ensures
        root_entry(d, "events"@) == Some(obj_key(s.events)),
        list_elems(d, obj_key(s.events)) == log_of(s),
        is_list(d, obj_key(s.events)) == listed(s),
        forall|k: ObjKey| #[trigger] record_of(d, k) == record_of(s.doc, k),
{
    let m = saved_doc(bytes);
    assert(root_entry(m, "events"@) == root_entry(s.doc, "events"@));
    assert(list_elems(m, obj_key(s.events)) == list_elems(s.doc, obj_key(s.events)));
    assert(is_list(m, obj_key(s.events)) == is_list(s.doc, obj_key(s.events)));
    assert forall|k: ObjKey| #[trigger] record_of(d, k) == record_of(s.doc, k) by {
        assert(map_texts(d, k) == map_texts(m, k));
        assert(map_texts(m, k) == map_texts(s.doc, k));
        assert(map_ints(d, k) == map_ints(m, k));
        assert(map_ints(m, k) == map_ints(s.doc, k));
    }
}

} // verus!
