//! The content-addressed store: objects identified by the digest of their
//! bytes, shared by every item whose content is byte-for-byte the same.
use vstd::prelude::*;
use crate::item::bytes_eq;
use crate::record::{Item, FileData, same_record, same_but_file};

verus! {

/// The digest of `data`, as 64 lowercase hexadecimal digits.
pub uninterp spec fn content_digest(data: Seq<u8>) -> Seq<char>;

/// Relies on `blake3::hash` and `blake3::Hash::to_hex`: the digest is a
/// function of the bytes alone.
#[verifier::external_body]
fn blake3_hex(data: &Vec<u8>) -> (r: String)
    ensures
        r@ == content_digest(data@),
{
    blake3::hash(data.as_slice()).to_hex().to_string()
}

/// The digest under which `data` is stored.
pub fn compute_hash(data: &Vec<u8>) -> (r: String)
    ensures
        r@ == content_digest(data@),
{
    blake3_hex(data)
}

/// A stored object: its identifier and the digest it was stored under.
pub struct Object {
    pub id: u64,
    pub hash: String,
}

impl Object {
    pub fn id(&self) -> (r: u64)
        ensures
            r == self.id,
    {
        self.id
    }
}

/// One object of the store with its bytes; `None` where the stored copy has
/// gone missing.
pub struct StoredObject {
    pub object: Object,
    pub data: Option<Vec<u8>>,
}

pub ghost struct ObjView {
    pub id: u64,
    pub hash: Seq<char>,
    pub data: Option<Seq<u8>>,
}

impl View for StoredObject {
    type V = ObjView;

    open spec fn view(&self) -> ObjView {
        ObjView {
            id: self.object.id,
            hash: self.object.hash@,
            data: match self.data {
                Some(d) => Some(d@),
                None => None,
            },
        }
    }
}

/// The first object stored under `h` whose bytes are `d`.
pub open spec fn first_match(objs: Seq<ObjView>, h: Seq<char>, d: Seq<u8>) -> Option<int>
    decreases objs.len(),
{
    if objs.len() == 0 {
        None
    } else {
        match first_match(objs.drop_last(), h, d) {
            Some(i) => Some(i),
            None => if objs.last().hash == h && objs.last().data == Some(d) {
                Some(objs.len() - 1)
            } else {
                None
            },
        }
    }
}

/// The largest identifier an object can get: identifiers are also held as
/// signed 64-bit integers.
pub const MAX_OBJECT_ID: u64 = 0x7fff_ffff_ffff_ffff;

/// Storing `d` under `h`: the objects afterwards, the next free identifier,
/// and the identifier of the object that holds `d`; `None` where a new
/// object is needed and no identifier is left.
pub open spec fn spec_store(objs: Seq<ObjView>, next: u64, h: Seq<char>, d: Seq<u8>) -> (Seq<ObjView>, u64, Option<u64>) {
    match first_match(objs, h, d) {
        Some(i) => (objs, next, Some(objs[i].id)),
        None => if next < MAX_OBJECT_ID {
            (objs.push(ObjView { id: next, hash: h, data: Some(d) }), (next + 1) as u64, Some(next))
        } else {
            (objs, next, None)
        },
    }
}

/// Identifiers are distinct and below `next`, which is at most
/// [`MAX_OBJECT_ID`].
pub open spec fn store_wf(objs: Seq<ObjView>, next: u64) -> bool {
    &&& next <= MAX_OBJECT_ID
    &&& forall|i: int| 0 <= i < objs.len() ==> #[trigger] objs[i].id < next
    &&& forall|i: int, j: int| 0 <= i < objs.len() && 0 <= j < objs.len() && i != j ==> objs[i].id != objs[j].id
}

proof fn lemma_first_match(objs: Seq<ObjView>, h: Seq<char>, d: Seq<u8>)
    ensures
        first_match(objs, h, d) matches Some(i) ==> 0 <= i < objs.len() && objs[i].hash == h && objs[i].data == Some(d),
        first_match(objs, h, d) matches Some(i) ==> forall|k: int| 0 <= k < i ==> !(objs[k].hash == h && objs[k].data == Some(d)),
        first_match(objs, h, d) is None ==> forall|k: int| 0 <= k < objs.len() ==> !(objs[k].hash == h && objs[k].data == Some(d)),
    decreases objs.len(),
{
    if objs.len() > 0 {
        lemma_first_match(objs.drop_last(), h, d);
        assert forall|k: int| 0 <= k < objs.len() - 1 implies objs.drop_last()[k] == objs[k] by {}
        assert(objs.last() == objs[objs.len() - 1]);
    }
}

/// A store result: the object holding `d` is in `o`.
proof fn lemma_store_holds(objs: Seq<ObjView>, next: u64, h: Seq<char>, d: Seq<u8>)
    requires
        store_wf(objs, next),
    ensures
        ({
            let (o, n, r) = spec_store(objs, next, h, d);
            &&& store_wf(o, n)
            &&& r matches Some(id) ==> first_match(o, h, d) matches Some(i) && o[i].id == id
            &&& r is None ==> o == objs && n == next
            &&& forall|i: int| 0 <= i < objs.len() ==> #[trigger] o[i] == objs[i]
            &&& objs.len() <= o.len()
        }),
{
    let (o, n, r) = spec_store(objs, next, h, d);
    lemma_first_match(objs, h, d);
    if first_match(objs, h, d) is None && next < MAX_OBJECT_ID {
        let x = ObjView { id: next, hash: h, data: Some(d) };
        assert(o.drop_last() =~= objs);
        assert(o.last() == x);
        assert forall|i: int| 0 <= i < o.len() implies #[trigger] o[i].id < n by {
            if i < objs.len() {
                assert(o[i] == objs[i]);
            }
        }
        assert forall|i: int, j: int| 0 <= i < o.len() && 0 <= j < o.len() && i != j implies o[i].id != o[j].id by {
            if i < objs.len() {
                assert(o[i] == objs[i]);
            }
            if j < objs.len() {
                assert(o[j] == objs[j]);
            }
        }
    }
}

/// Storing the same bytes twice gives one object, shared by both: the
/// second store returns the first one's identifier and adds nothing, even
/// when no identifier is left. Storing two different byte strings under the
/// same digest (a collision) gives two distinct objects.
pub proof fn lemma_dedup(objs: Seq<ObjView>, next: u64, h: Seq<char>, d1: Seq<u8>, d2: Seq<u8>)
    requires
        store_wf(objs, next),
    ensures
        ({
            let (o1, n1, r1) = spec_store(objs, next, h, d1);
            let (o2, n2, r2) = spec_store(o1, n1, h, d2);
            &&& r1 is Some && d1 == d2 ==> r2 == r1 && o2 == o1 && n2 == n1
            &&& r1 is Some && r2 is Some && d1 != d2 ==> r1 != r2
            &&& r1 matches Some(id) ==> exists|i: int| 0 <= i < o2.len() && o2[i].id == id && o2[i].data == Some(d1)
            &&& r2 matches Some(id) ==> exists|i: int| 0 <= i < o2.len() && o2[i].id == id && o2[i].data == Some(d2)
        }),
{
    let (o1, n1, r1) = spec_store(objs, next, h, d1);
    lemma_store_holds(objs, next, h, d1);
    let (o2, n2, r2) = spec_store(o1, n1, h, d2);
    lemma_store_holds(o1, n1, h, d2);
    lemma_first_match(o1, h, d1);
    lemma_first_match(o1, h, d2);
    lemma_first_match(o2, h, d2);
    if r1 is Some {
        let i1 = first_match(o1, h, d1)->Some_0;
        assert(o2[i1] == o1[i1]);
    }
    if r1 is Some && r2 is Some && d1 != d2 {
        let i1 = first_match(o1, h, d1)->Some_0;
        let i2 = first_match(o2, h, d2)->Some_0;
        assert(o2[i1] == o1[i1]);
        assert(o2[i1].data != o2[i2].data);
        assert(i1 != i2);
    }
}

/// The store: its objects, and the identifier the next new one gets.
pub struct ContentStore {
    pub objects: Vec<StoredObject>,
    pub next_id: u64,
}

impl ContentStore {
    pub open spec fn view_objects(&self) -> Seq<ObjView> {
        self.objects@.map_values(|o: StoredObject| o@)
    }

    pub open spec fn wf(&self) -> bool {
        store_wf(self.view_objects(), self.next_id)
    }

    pub fn new() -> (r: ContentStore)
        ensures
            r.wf(),
            r.view_objects().len() == 0,
            r.next_id == 0,
    {
        ContentStore { objects: Vec::new(), next_id: 0 }
    }

    /// Indices of the objects stored under `hash`.
    pub fn find_candidates(&self, hash: &String) -> (r: Vec<usize>)
        ensures
            forall|k: int| 0 <= k < r@.len() ==> #[trigger] r@[k] < self.objects@.len()
                && self.view_objects()[r@[k] as int].hash == hash@,
            forall|i: int| 0 <= i < self.objects@.len() && self.view_objects()[i].hash == hash@ ==> r@.contains(i as usize),
            forall|a: int, b: int| 0 <= a < b < r@.len() ==> r@[a] < r@[b],
    {
        let mut r: Vec<usize> = Vec::new();
        let mut i: usize = 0;
        while i < self.objects.len()
            invariant
                i <= self.objects@.len(),
                forall|k: int| 0 <= k < r@.len() ==> #[trigger] r@[k] < i && self.view_objects()[r@[k] as int].hash == hash@,
                forall|j: int| 0 <= j < i && self.view_objects()[j].hash == hash@ ==> r@.contains(j as usize),
                forall|a: int, b: int| 0 <= a < b < r@.len() ==> r@[a] < r@[b],
            decreases self.objects@.len() - i,
        {
            let ghost before = r@;
            if self.objects[i].object.hash == *hash {
                r.push(i);
                assert(r@[r@.len() - 1] == i);
                assert forall|j: usize| before.contains(j) implies r@.contains(j) by {
                    let c = choose|c: int| 0 <= c < before.len() && before[c] == j;
                    assert(r@[c] == j);
                }
            }
            i = i + 1;
        }
        r
    }

    /// Whether object `i` holds exactly `data`; a missing stored copy holds
    /// nothing.
    pub fn bytes_equal(&self, i: usize, data: &Vec<u8>) -> (r: bool)
        requires
            i < self.objects@.len(),
        ensures
            r == (self.view_objects()[i as int].data == Some(data@)),
    {
        match &self.objects[i].data {
            Some(d) => bytes_eq(d, data),
            None => false,
        }
    }

    /// Stores `data` under `hash` and returns the identifier of the object
    /// that holds it: an existing one with the same digest and the same
    /// bytes, else a new one.
    pub fn store_with_hash(&mut self, hash: String, data: Vec<u8>) -> (id: Option<u64>)
        requires
            old(self).wf(),
        ensures
            final(self).wf(),
            (final(self).view_objects(), final(self).next_id, id) == spec_store(old(self).view_objects(), old(self).next_id, hash@, data@),
    {
        let ghost objs = self.view_objects();
        let candidates = self.find_candidates(&hash);
        let mut k: usize = 0;
        while k < candidates.len()
            invariant
                objs == self.view_objects(),
                objs == old(self).view_objects(),
                *self == *old(self),
                self.wf(),
                k <= candidates@.len(),
                forall|c: int| 0 <= c < candidates@.len() ==> #[trigger] candidates@[c] < self.objects@.len()
                    && objs[candidates@[c] as int].hash == hash@,
                forall|i: int| 0 <= i < self.objects@.len() && objs[i].hash == hash@ ==> candidates@.contains(i as usize),
                forall|a: int, b: int| 0 <= a < b < candidates@.len() ==> candidates@[a] < candidates@[b],
                forall|c: int| 0 <= c < k ==> objs[#[trigger] candidates@[c] as int].data != Some(data@),
            decreases candidates@.len() - k,
        {
            let i = candidates[k];
            if self.bytes_equal(i, &data) {
                proof {
                    lemma_first_match(objs, hash@, data@);
                    assert(objs[i as int].hash == hash@ && objs[i as int].data == Some(data@));
                    let f = first_match(objs, hash@, data@)->Some_0;
                    assert(candidates@.contains(f as usize));
                    let c = choose|c: int| 0 <= c < candidates@.len() && candidates@[c] == f as usize;
                    if c < k {
                        assert(objs[candidates@[c] as int].data != Some(data@));
                    } else if c > k {
                        assert(candidates@[k as int] < candidates@[c]);
                    }
                    assert(f == i);
                }
                return Some(self.objects[i].object.id);
            }
            k = k + 1;
        }
        let n_objects = self.objects.len();
        proof {
            lemma_first_match(objs, hash@, data@);
            if first_match(objs, hash@, data@) is Some {
                let f = first_match(objs, hash@, data@)->Some_0;
                assert(candidates@.contains(f as usize));
                let c = choose|c: int| 0 <= c < candidates@.len() && candidates@[c] == f as usize;
                assert(candidates@[c] as int == f);
                assert(objs[candidates@[c] as int].data != Some(data@));
            }
            assert(first_match(objs, hash@, data@) is None);
        }
        if self.next_id >= MAX_OBJECT_ID {
            return None;
        }
        let id = self.next_id;
        let ghost new_obj = ObjView { id, hash: hash@, data: Some(data@) };
        self.objects.push(StoredObject { object: Object { id, hash }, data: Some(data) });
        self.next_id = id + 1;
        proof {
            assert(self.view_objects() =~= objs.push(new_obj));
            assert forall|i: int| 0 <= i < self.view_objects().len() implies #[trigger] self.view_objects()[i].id < self.next_id by {
                if i < objs.len() {
                    assert(self.view_objects()[i] == objs[i]);
                }
            }
            assert forall|i: int, j: int| 0 <= i < self.view_objects().len() && 0 <= j < self.view_objects().len() && i != j implies self.view_objects()[i].id != self.view_objects()[j].id by {
                if i < objs.len() {
                    assert(self.view_objects()[i] == objs[i]);
                }
                if j < objs.len() {
                    assert(self.view_objects()[j] == objs[j]);
                }
            }
            assert(objs == old(self).view_objects());
            assert(self.next_id == (old(self).next_id + 1) as u64);
            assert(spec_store(objs, old(self).next_id, hash@, data@) == (objs.push(new_obj), self.next_id, Some(id)));
        }
        Some(id)
    }

    /// Drops object `id` once no item refers to it: `references` is the
    /// number of items that still use it. Returns whether it was removed.
    pub fn release(&mut self, id: u64, references: usize) -> (removed: bool)
        requires
            old(self).wf(),
        ensures
            final(self).wf(),
            final(self).next_id == old(self).next_id,
            removed <==> (references == 0 && exists|i: int| 0 <= i < old(self).view_objects().len() && old(self).view_objects()[i].id == id),
            !removed ==> final(self).view_objects() == old(self).view_objects(),
            removed ==> exists|i: int| 0 <= i < old(self).view_objects().len() && old(self).view_objects()[i].id == id
                && final(self).view_objects() == old(self).view_objects().remove(i),
    {
        if references != 0 {
            return false;
        }
        let ghost objs = self.view_objects();
        let mut i: usize = 0;
        while i < self.objects.len()
            invariant
                references == 0,
                *self == *old(self),
                self.wf(),
                objs == self.view_objects(),
                i <= self.objects@.len(),
                forall|k: int| 0 <= k < i ==> objs[k].id != id,
            decreases self.objects@.len() - i,
        {
            if self.objects[i].object.id == id {
                assert(store_wf(objs, self.next_id));
                assert(objs[i as int].id == id);
                self.objects.remove(i);
                proof {
                    assert(i < old(self).view_objects().len());
                    assert(old(self).view_objects()[i as int].id == id);
                    assert(self.view_objects() =~= objs.remove(i as int));
                    assert forall|k: int| 0 <= k < self.view_objects().len() implies #[trigger] self.view_objects()[k] == if k < i { objs[k] } else { objs[k + 1] } by {}
                    assert forall|a: int| 0 <= a < self.view_objects().len() implies #[trigger] self.view_objects()[a].id < self.next_id by {
                        assert(self.view_objects()[a] == if a < i { objs[a] } else { objs[a + 1] });
                    }
                    assert forall|a: int, b: int| 0 <= a < self.view_objects().len() && 0 <= b < self.view_objects().len() && a != b implies self.view_objects()[a].id != self.view_objects()[b].id by {
                        assert(self.view_objects()[a] == if a < i { objs[a] } else { objs[a + 1] });
                        assert(self.view_objects()[b] == if b < i { objs[b] } else { objs[b + 1] });
                    }
                }
                return true;
            }
            i = i + 1;
        }
        false
    }

    /// Stores `data` under its digest.
    pub fn store(&mut self, data: Vec<u8>) -> (id: Option<u64>)
        requires
            old(self).wf(),
        ensures
            final(self).wf(),
            (final(self).view_objects(), final(self).next_id, id) == spec_store(old(self).view_objects(), old(self).next_id, content_digest(data@), data@),
    {
        let hash = compute_hash(&data);
        self.store_with_hash(hash, data)
    }
}

/// Why an upload cannot be stored.
#[derive(Clone, Copy, Debug, PartialEq, Eq, Structural)]
pub enum UploadError {
    /// Fewer or more bytes arrived than announced.
    Incomplete,
    /// The store has no identifier left.
    StoreFull,
}

/// What a client learns of an upload in progress.
pub struct UploadState {
    pub id: String,
    pub finished: bool,
    /// The stored item, once all bytes arrived.
    pub item: Option<Item>,
}

/// A file being received: the item it becomes, its announced file data, and
/// the bytes so far.
pub struct Upload {
    pub id: String,
    pub item: Item,
    pub file: FileData,
    pub data: Vec<u8>,
}

impl Upload {
    /// An upload announced with the given name, size, timestamp and MIME
    /// type, into `repository` under `parent`, by `owner`.
    pub fn new(
        id: String,
        name: crate::enc_string::EncString,
        description: Option<crate::enc_string::EncString>,
        size: i64,
        timestamp: i64,
        mimetype: crate::enc_string::EncString,
        repository: i64,
        parent: Option<i64>,
        owner: i64,
    ) -> (r: Upload)
        ensures
            r.id@ == id@,
            r.item.name@ == name@,
            r.item.repository == repository,
            r.item.parent_item == parent,
            r.item.owner == owner,
            !r.item.in_trash,
            r.item.file is None,
            r.item.directory is None,
            r.file.size == size,
            r.file.timestamp == timestamp,
            r.file.mimetype@ == mimetype@,
            r.data@.len() == 0,
    {
        let item = Item {
            id: 0,
            repository,
            owner,
            name,
            description,
            parent_item: parent,
            absolute_path: crate::enc_string::EncString(String::new()),
            in_trash: false,
            directory: None,
            file: None,
        };
        Upload { id, item, file: FileData { size, mimetype, timestamp, object: 0 }, data: Vec::new() }
    }

    /// Appends a chunk of received bytes.
    pub fn push_data(&mut self, chunk: &Vec<u8>)
        requires
            old(self).data@.len() + chunk@.len() <= usize::MAX,
        ensures
            final(self).data@ == old(self).data@ + chunk@,
            final(self).id == old(self).id,
            final(self).item == old(self).item,
            final(self).file == old(self).file,
    {
        let mut i: usize = 0;
        while i < chunk.len()
            invariant
                i <= chunk@.len(),
                self.data@ == old(self).data@ + chunk@.subrange(0, i as int),
                self.id == old(self).id,
                self.item == old(self).item,
                self.file == old(self).file,
            decreases chunk@.len() - i,
        {
            self.data.push(chunk[i]);
            assert(self.data@ =~= old(self).data@ + chunk@.subrange(0, i + 1));
            i = i + 1;
        }
        assert(chunk@.subrange(0, chunk@.len() as int) =~= chunk@);
    }

    /// Finished once as many bytes arrived as were announced.
    pub fn get_state(&self) -> (r: UploadState)
        ensures
            r.id@ == self.id@,
            r.finished == (self.data@.len() == self.file.size),
            r.item is Some <==> r.finished,
            r.item matches Some(i) ==> same_record(i, self.item),
    {
        let finished = self.file.size >= 0 && self.data.len() as u64 == self.file.size as u64;
        UploadState { id: self.id.clone(), finished, item: if finished { Some(self.item.clone()) } else { None } }
    }

    /// Stores the received bytes, sharing an existing object with the same
    /// content, and returns the item that now refers to it.
    pub fn store(&mut self, store: &mut ContentStore) -> (r: Result<Item, UploadError>)
        requires
            old(store).wf(),
        ensures
            final(store).wf(),
            ({
                let (objs, next, id) = spec_store(old(store).view_objects(), old(store).next_id, content_digest(old(self).data@), old(self).data@);
                &&& old(self).data@.len() != old(self).file.size ==> r == Err::<Item, UploadError>(UploadError::Incomplete)
                    && *final(store) == *old(store)
                &&& old(self).data@.len() == old(self).file.size ==> final(store).view_objects() == objs
                    && final(store).next_id == next
                &&& old(self).data@.len() == old(self).file.size && id is None ==> r == Err::<Item, UploadError>(UploadError::StoreFull)
                &&& old(self).data@.len() == old(self).file.size && id is Some ==> r is Ok
                &&& r is Ok ==> {
                    &&& id is Some
                    &&& r->Ok_0.file matches Some(f) && f.object == id->Some_0 as i64 && f.size == old(self).file.size
                        && f.timestamp == old(self).file.timestamp && f.mimetype@ == old(self).file.mimetype@
                    &&& same_but_file(r->Ok_0, old(self).item)
                }
            }),
    {
        if !(self.file.size >= 0 && self.data.len() as u64 == self.file.size as u64) {
            return Err(UploadError::Incomplete);
        }
        let data = self.data.clone();
        match store.store(data) {
            None => Err(UploadError::StoreFull),
            Some(id) => {
                proof {
                    let (o, n, rr) = spec_store(old(store).view_objects(), old(store).next_id, content_digest(old(self).data@), old(self).data@);
                    lemma_store_holds(old(store).view_objects(), old(store).next_id, content_digest(old(self).data@), old(self).data@);
                    lemma_first_match(o, content_digest(old(self).data@), old(self).data@);
                    let i = first_match(o, content_digest(old(self).data@), old(self).data@)->Some_0;
                    assert(o[i].id < n);
                }
                self.file.object = id as i64;
                self.item.file = Some(self.file.clone());
                Ok(self.item.clone())
            },
        }
    }
}

} // verus!
