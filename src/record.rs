//! The server's record of an item, as the remote API lists it.
use vstd::prelude::*;
use crate::enc_string::{EncString, url_decoded_bytes};
use crate::item::{LocalItem, RemoteItem, RemoteTree, MetaView, lookup, has_id};

verus! {

/// Identifiers are valid once the database has assigned them: not 0.
pub trait DatabaseIdTrait {
    spec fn spec_is_valid(&self) -> bool;

    fn is_valid(&self) -> (r: bool)
        ensures
            r == self.spec_is_valid(),
    ;
}

impl DatabaseIdTrait for i64 {
    open spec fn spec_is_valid(&self) -> bool {
        *self != 0
    }

    fn is_valid(&self) -> (r: bool) {
        *self != 0
    }
}

/// Which items a listing takes, by their place in the trash.
#[derive(Clone, Copy, Debug, PartialEq, Eq, Structural)]
pub enum Trash {
    Yes,
    No,
    Both,
}

impl Trash {
    /// Whether an item with the given trash flag is listed.
    pub fn admits(&self, in_trash: bool) -> (r: bool)
        ensures
            r == match *self {
                Trash::Yes => in_trash,
                Trash::No => !in_trash,
                Trash::Both => true,
            },
    {
        match self {
            Trash::Yes => in_trash,
            Trash::No => !in_trash,
            Trash::Both => true,
        }
    }
}

pub struct FileData {
    pub size: i64,
    pub mimetype: EncString,
    pub timestamp: i64,
    pub object: i64,
}

pub struct DirectoryData {
    pub open_upload: bool,
    pub num_items: i64,
    pub content_size: i64,
}

/// An item as the server stores it. `absolute_path` is percent-encoded and
/// starts with `/`.
pub struct Item {
    pub id: i64,
    pub repository: i64,
    pub owner: i64,
    pub name: EncString,
    pub description: Option<EncString>,
    pub parent_item: Option<i64>,
    pub absolute_path: EncString,
    pub in_trash: bool,
    pub directory: Option<DirectoryData>,
    pub file: Option<FileData>,
}

/// `b` without its leading `/`.
pub open spec fn strip_root(b: Seq<u8>) -> Seq<u8> {
    if b.len() > 0 && b[0] == 47u8 {
        b.subrange(1, b.len() as int)
    } else {
        b
    }
}

pub open spec fn non_negative(v: i64) -> u64 {
    if v >= 0 {
        v as u64
    } else {
        0
    }
}

/// The tree node of a server item: path from the repository root, kind,
/// and for files size, timestamp and MIME type; directories carry zeros.
pub open spec fn node_of(item: Item) -> MetaView {
    MetaView {
        path: strip_root(url_decoded_bytes(item.absolute_path@)),
        is_file: item.file is Some,
        size: match item.file {
            Some(f) => non_negative(f.size),
            None => 0,
        },
        timestamp: match item.file {
            Some(f) => non_negative(f.timestamp),
            None => 0,
        },
        mime: match item.file {
            Some(f) => url_decoded_bytes(f.mimetype@),
            None => Seq::empty(),
        },
    }
}

impl Item {
    pub fn id(&self) -> (r: i64)
        ensures
            r == self.id,
    {
        self.id
    }

    /// The node of the remote tree that stands for this item.
    pub fn to_remote(&self) -> (r: RemoteItem)
        ensures
            r.id == self.id,
            r.parent_item == self.parent_item,
            r.node@ == node_of(*self),
    {
        let decoded = self.absolute_path.plain_bytes();
        let n = decoded.len();
        let path = if n > 0 && decoded[0] == 47u8 {
            crate::item::copy_range(&decoded, 1, n)
        } else {
            decoded
        };
        let node = match &self.file {
            Some(f) => LocalItem {
                path,
                is_regular_file: true,
                size: if f.size >= 0 { f.size as u64 } else { 0 },
                timestamp: if f.timestamp >= 0 { f.timestamp as u64 } else { 0 },
                mime_type: f.mimetype.plain_bytes(),
            },
            None => LocalItem { path, is_regular_file: false, size: 0, timestamp: 0, mime_type: Vec::new() },
        };
        RemoteItem { id: self.id, parent_item: self.parent_item, node }
    }
}

impl Clone for FileData {
    fn clone(&self) -> (r: Self)
        ensures
            r.size == self.size && r.mimetype@ == self.mimetype@ && r.timestamp == self.timestamp && r.object
                == self.object,
    {
        FileData { size: self.size, mimetype: self.mimetype.clone(), timestamp: self.timestamp, object: self.object }
    }
}

impl Clone for DirectoryData {
    fn clone(&self) -> (r: Self)
        ensures
            r.open_upload == self.open_upload && r.num_items == self.num_items && r.content_size
                == self.content_size,
    {
        DirectoryData { open_upload: self.open_upload, num_items: self.num_items, content_size: self.content_size }
    }
}

/// Field-wise equality of two records but for their file data.
pub open spec fn same_but_file(a: Item, b: Item) -> bool {
    &&& a.id == b.id && a.repository == b.repository && a.owner == b.owner && a.name@ == b.name@
    &&& a.parent_item == b.parent_item && a.absolute_path@ == b.absolute_path@ && a.in_trash == b.in_trash
    &&& (a.description is Some <==> b.description is Some)
    &&& (a.description matches Some(d) ==> d@ == b.description->Some_0@)
    &&& (a.directory is Some <==> b.directory is Some)
    &&& (a.directory matches Some(d) ==> d == b.directory->Some_0)
}

/// Field-wise equality of two records, text compared by its encoded form.
pub open spec fn same_record(a: Item, b: Item) -> bool {
    &&& a.id == b.id && a.repository == b.repository && a.owner == b.owner && a.name@ == b.name@
    &&& a.parent_item == b.parent_item && a.absolute_path@ == b.absolute_path@ && a.in_trash == b.in_trash
    &&& (a.description is Some <==> b.description is Some)
    &&& (a.description matches Some(d) ==> d@ == b.description->Some_0@)
    &&& (a.directory is Some <==> b.directory is Some)
    &&& (a.directory matches Some(d) ==> d == b.directory->Some_0)
    &&& (a.file is Some <==> b.file is Some)
    &&& (a.file matches Some(f) ==> {
        let g = b.file->Some_0;
        f.size == g.size && f.mimetype@ == g.mimetype@ && f.timestamp == g.timestamp && f.object == g.object
    })
}

impl Clone for Item {
    fn clone(&self) -> (r: Self)
        ensures
            same_record(r, *self),
    {
        Item {
            id: self.id,
            repository: self.repository,
            owner: self.owner,
            name: self.name.clone(),
            description: match &self.description {
                Some(d) => Some(d.clone()),
                None => None,
            },
            parent_item: self.parent_item,
            absolute_path: self.absolute_path.clone(),
            in_trash: self.in_trash,
            directory: match &self.directory {
                Some(d) => Some(d.clone()),
                None => None,
            },
            file: match &self.file {
                Some(f) => Some(f.clone()),
                None => None,
            },
        }
    }
}

pub open spec fn nodes_of(items: Seq<Item>) -> Seq<MetaView> {
    items.map_values(|i: Item| node_of(i))
}

/// The identifier of the last record of `items` whose path is `q`.
pub open spec fn last_id(items: Seq<Item>, q: Seq<u8>) -> Option<i64>
    decreases items.len(),
{
    if items.len() == 0 {
        None
    } else if node_of(items.last()).path == q {
        Some(items.last().id)
    } else {
        last_id(items.drop_last(), q)
    }
}

/// The remote tree of a repository listing. Where two records share a path,
/// the later one stands.
pub fn remote_tree_of(items: &Vec<Item>) -> (r: RemoteTree)
    ensures
        r.wf(),
        forall|q: Seq<u8>| #[trigger] lookup(r.tree@, q) == lookup(nodes_of(items@), q),
        forall|q: Seq<u8>| #[trigger] last_id(items@, q) matches Some(id) ==> has_id(r, q, id),
{
    let mut tree = RemoteTree::new();
    let mut i: usize = 0;
    while i < items.len()
        invariant
            i <= items@.len(),
            tree.wf(),
            forall|q: Seq<u8>| #[trigger] lookup(tree.tree@, q) == lookup(nodes_of(items@.subrange(0, i as int)), q),
            forall|q: Seq<u8>| #[trigger] last_id(items@.subrange(0, i as int), q) matches Some(id) ==> has_id(tree, q, id),
        decreases items@.len() - i,
    {
        let node = items[i].to_remote();
        let ghost before = tree;
        tree.add_item(node);
        proof {
            let sub = items@.subrange(0, i as int + 1);
            assert(sub.drop_last() =~= items@.subrange(0, i as int));
            assert(sub.last() == items@[i as int]);
            assert forall|q: Seq<u8>| #[trigger] last_id(sub, q) is Some implies has_id(tree, q, last_id(sub, q)->Some_0) by {
                if node_of(items@[i as int]).path != q {
                    let id = last_id(sub, q)->Some_0;
                    assert(last_id(sub, q) == last_id(items@.subrange(0, i as int), q));
                    assert(has_id(before, q, id));
                }
            }
            let pre = nodes_of(items@.subrange(0, i as int));
            let now = nodes_of(items@.subrange(0, i as int + 1));
            assert(now.drop_last() =~= pre);
            assert(now.last() == node_of(items@[i as int]));
        }
        i = i + 1;
    }
    assert(items@.subrange(0, items@.len() as int) =~= items@);
    tree
}

} // verus!
