//! Sizing of the uncompressed archive in which a set of items is streamed
//! for a bulk download.
use vstd::prelude::*;
use crate::record::{Item, node_of, non_negative};

verus! {

pub const LOCAL_HEADER_SIZE: u64 = 30;

pub const CENTRAL_DIRECTORY_SIZE: u64 = 46;

pub const END_OF_CENTRAL_DIRECTORY_SIZE: u64 = 22;

#[derive(Clone, Copy, Debug, PartialEq, Eq, Structural)]
pub enum ZipError {
    /// The archive would not fit in 64 bits.
    TooLarge,
}

/// The name of an item inside the archive: its path from the repository
/// root, with a trailing `/` for a directory.
pub open spec fn entry_name(item: Item) -> Seq<u8> {
    if item.file is Some {
        node_of(item).path
    } else {
        node_of(item).path.push(47u8)
    }
}

/// The bytes the item's content takes: its size for a file, none for a
/// directory.
pub open spec fn content_size(item: Item) -> nat {
    match item.file {
        Some(f) => non_negative(f.size) as nat,
        None => 0,
    }
}

/// One local header and one central record, each with the name, and the
/// content.
pub open spec fn entry_size(item: Item) -> nat {
    (LOCAL_HEADER_SIZE + CENTRAL_DIRECTORY_SIZE) as nat + 2 * entry_name(item).len() + content_size(item)
}

pub open spec fn archive_size(items: Seq<Item>) -> nat
    decreases items.len(),
{
    if items.len() == 0 {
        END_OF_CENTRAL_DIRECTORY_SIZE as nat
    } else {
        archive_size(items.drop_last()) + entry_size(items.last())
    }
}

/// The items of an archive, one per identifier.
pub struct AsyncDirectoryZip {
    pub items: Vec<Item>,
}

impl AsyncDirectoryZip {
    pub open spec fn wf(&self) -> bool {
        forall|i: int, j: int| 0 <= i < self.items@.len() && 0 <= j < self.items@.len() && i != j ==> self.items@[i].id != self.items@[j].id
    }

    pub fn new() -> (r: AsyncDirectoryZip)
        ensures
            r.wf(),
            r.items@.len() == 0,
    {
        AsyncDirectoryZip { items: Vec::new() }
    }

    /// Adds `item`, replacing the one with the same identifier.
    pub fn insert(&mut self, item: Item)
        requires
            old(self).wf(),
        ensures
            final(self).wf(),
            exists|i: int| 0 <= i < final(self).items@.len() && final(self).items@[i] == item,
            forall|i: int| 0 <= i < old(self).items@.len() && old(self).items@[i].id != item.id ==> final(self).items@.contains(
                old(self).items@[i],
            ),
            forall|i: int| 0 <= i < final(self).items@.len() ==> #[trigger] final(self).items@[i] == item || old(self).items@.contains(
                final(self).items@[i],
            ),
    {
        let mut i: usize = 0;
        while i < self.items.len()
            invariant
                *self == *old(self),
                self.wf(),
                i <= self.items@.len(),
                forall|k: int| 0 <= k < i ==> self.items@[k].id != item.id,
            decreases self.items@.len() - i,
        {
            if self.items[i].id == item.id {
                let ghost before = self.items@;
                self.items.set(i, item);
                proof {
                    assert(self.items@[i as int] == item);
                    assert forall|a: int, b: int| 0 <= a < self.items@.len() && 0 <= b < self.items@.len() && a != b implies self.items@[a].id != self.items@[b].id by {
                        if a != i {
                            assert(self.items@[a] == before[a]);
                        }
                        if b != i {
                            assert(self.items@[b] == before[b]);
                        }
                    }
                    assert forall|k: int| 0 <= k < before.len() && before[k].id != item.id implies self.items@.contains(before[k]) by {
                        assert(self.items@[k] == before[k]);
                    }
                    assert forall|k: int| 0 <= k < self.items@.len() implies #[trigger] self.items@[k] == item || before.contains(self.items@[k]) by {
                        if k != i {
                            assert(self.items@[k] == before[k]);
                        }
                    }
                }
                return;
            }
            i = i + 1;
        }
        let ghost before = self.items@;
        self.items.push(item);
        proof {
            assert(self.items@[before.len() as int] == item);
            assert forall|a: int, b: int| 0 <= a < self.items@.len() && 0 <= b < self.items@.len() && a != b implies self.items@[a].id != self.items@[b].id by {
                if a < before.len() {
                    assert(self.items@[a] == before[a]);
                }
                if b < before.len() {
                    assert(self.items@[b] == before[b]);
                }
            }
            assert forall|k: int| 0 <= k < before.len() && before[k].id != item.id implies self.items@.contains(before[k]) by {
                assert(self.items@[k] == before[k]);
            }
            assert forall|k: int| 0 <= k < self.items@.len() implies #[trigger] self.items@[k] == item || before.contains(self.items@[k]) by {
                if k < before.len() {
                    assert(self.items@[k] == before[k]);
                }
            }
        }
    }

    pub fn item_size(item: &Item) -> (r: u64)
        ensures
            r == content_size(*item),
    {
        match &item.file {
            Some(f) => if f.size >= 0 {
                f.size as u64
            } else {
                0
            },
            None => 0,
        }
    }

    pub fn format_item_name(item: &Item) -> (r: Vec<u8>)
        ensures
            r@ == entry_name(*item),
    {
        let node = item.to_remote().node;
        let mut name = node.path;
        if item.file.is_none() {
            name.push(47u8);
        }
        name
    }

    /// The size in bytes of the archive of all items.
    pub fn size(&self) -> (r: Result<u64, ZipError>)
        ensures
            r matches Ok(n) ==> n == archive_size(self.items@),
            r is Err ==> archive_size(self.items@) > u64::MAX,
    {
        let mut total: u64 = END_OF_CENTRAL_DIRECTORY_SIZE;
        let mut i: usize = 0;
        while i < self.items.len()
            invariant
                i <= self.items@.len(),
                total == archive_size(self.items@.subrange(0, i as int)),
            decreases self.items@.len() - i,
        {
            let item = &self.items[i];
            let name_len = Self::format_item_name(item).len() as u64;
            let content = Self::item_size(item);
            proof {
                let sub = self.items@.subrange(0, i as int + 1);
                assert(sub.drop_last() =~= self.items@.subrange(0, i as int));
                assert(sub.last() == self.items@[i as int]);
                lemma_archive_prefix(self.items@, i as int + 1);
            }
            if name_len > (u64::MAX - LOCAL_HEADER_SIZE - CENTRAL_DIRECTORY_SIZE) / 2 {
                return Err(ZipError::TooLarge);
            }
            let entry = LOCAL_HEADER_SIZE + CENTRAL_DIRECTORY_SIZE + 2 * name_len;
            if content > u64::MAX - entry || total > u64::MAX - entry - content {
                return Err(ZipError::TooLarge);
            }
            total = total + entry + content;
            i = i + 1;
        }
        assert(self.items@.subrange(0, self.items@.len() as int) =~= self.items@);
        Ok(total)
    }
}

/// The archive of a prefix is no larger than the archive of all items.
proof fn lemma_archive_prefix(items: Seq<Item>, k: int)
    requires
        0 <= k <= items.len(),
    ensures
        archive_size(items.subrange(0, k)) <= archive_size(items),
    decreases items.len() - k,
{
    if k < items.len() {
        lemma_archive_prefix(items, k + 1);
        let sub = items.subrange(0, k + 1);
        assert(sub.drop_last() =~= items.subrange(0, k));
    } else {
        assert(items.subrange(0, k) =~= items);
    }
}

/// `n` in `w` bytes, least significant first.
pub open spec fn le(n: nat, w: nat) -> Seq<u8>
    decreases w,
{
    if w == 0 {
        Seq::empty()
    } else {
        seq![(n % 256) as u8] + le(n / 256, (w - 1) as nat)
    }
}

fn push_le(out: &mut Vec<u8>, n: u64, w: usize)
    ensures
        final(out)@ == old(out)@ + le(n as nat, w as nat),
    decreases w,
{
    if w > 0 {
        out.push((n % 256) as u8);
        push_le(out, n / 256, w - 1);
        assert(final(out)@ =~= old(out)@ + le(n as nat, w as nat));
    } else {
        assert(final(out)@ =~= old(out)@ + le(n as nat, w as nat));
    }
}

/// The local header of an entry: signature, version needed, no flags, no
/// compression, no date, the checksum, the sizes, the name length, no extra
/// field, and the name.
pub open spec fn local_header_bytes(item: Item, crc32: u32) -> Seq<u8> {
    let name = entry_name(item);
    let size = content_size(item);
    le(0x04034b50, 4) + le(if item.file is Some { 0x0A } else { 0x14 }, 2) + le(0, 8) + le(crc32 as nat, 4) + le(size, 4) + le(
        size,
        4,
    ) + le(name.len(), 2) + le(0, 2) + name
}

/// The central directory record of an entry whose local header starts at
/// `start`.
pub open spec fn central_record_bytes(item: Item, start: nat, crc32: u32) -> Seq<u8> {
    let name = entry_name(item);
    let size = content_size(item);
    le(0x02014b50, 4) + le(0x3F, 2) + le(0x0A, 2) + le(0, 8) + le(crc32 as nat, 4) + le(size, 4) + le(size, 4) + le(
        name.len(),
        2,
    ) + le(0, 12) + le(start, 4) + name
}

/// The end of central directory record.
pub open spec fn end_record_bytes(count: nat, start: nat, end: nat) -> Seq<u8> {
    le(0x06054b50, 4) + le(0, 4) + le(count, 2) + le(count, 2) + le((end - start) as nat, 4) + le(start, 4) + le(0, 2)
}

impl AsyncDirectoryZip {
    /// The local header of `item`; sizes must fit in 32 bits and the name
    /// in 16.
    pub fn local_header(item: &Item, crc32: u32) -> (r: Result<Vec<u8>, ZipError>)
        ensures
            r is Err <==> content_size(*item) >= u32::MAX || entry_name(*item).len() > u16::MAX,
            r matches Ok(v) ==> v@ == local_header_bytes(*item, crc32),
    {
        let name = Self::format_item_name(item);
        let size = Self::item_size(item);
        if size >= u32::MAX as u64 || name.len() > u16::MAX as usize {
            return Err(ZipError::TooLarge);
        }
        let mut out: Vec<u8> = Vec::new();
        push_le(&mut out, 0x04034b50, 4);
        push_le(&mut out, if item.file.is_some() { 0x0A } else { 0x14 }, 2);
        push_le(&mut out, 0, 8);
        push_le(&mut out, crc32 as u64, 4);
        push_le(&mut out, size, 4);
        push_le(&mut out, size, 4);
        push_le(&mut out, name.len() as u64, 2);
        push_le(&mut out, 0, 2);
        let ghost before = out@;
        let mut i: usize = 0;
        while i < name.len()
            invariant
                i <= name@.len(),
                out@ == before + name@.subrange(0, i as int),
            decreases name@.len() - i,
        {
            out.push(name[i]);
            assert(out@ =~= before + name@.subrange(0, i + 1));
            i = i + 1;
        }
        assert(name@.subrange(0, name@.len() as int) =~= name@);
        assert(out@ =~= local_header_bytes(*item, crc32));
        Ok(out)
    }

    /// The central directory record of `item`, whose local header starts at
    /// `start`.
    pub fn make_central_directory(item: &Item, start: u64, crc32: u32) -> (r: Result<Vec<u8>, ZipError>)
        ensures
            r is Err <==> content_size(*item) >= u32::MAX || entry_name(*item).len() > u16::MAX || start >= u32::MAX,
            r matches Ok(v) ==> v@ == central_record_bytes(*item, start as nat, crc32),
    {
        let name = Self::format_item_name(item);
        let size = Self::item_size(item);
        if size >= u32::MAX as u64 || name.len() > u16::MAX as usize || start >= u32::MAX as u64 {
            return Err(ZipError::TooLarge);
        }
        let mut out: Vec<u8> = Vec::new();
        push_le(&mut out, 0x02014b50, 4);
        push_le(&mut out, 0x3F, 2);
        push_le(&mut out, 0x0A, 2);
        push_le(&mut out, 0, 8);
        push_le(&mut out, crc32 as u64, 4);
        push_le(&mut out, size, 4);
        push_le(&mut out, size, 4);
        push_le(&mut out, name.len() as u64, 2);
        push_le(&mut out, 0, 12);
        push_le(&mut out, start, 4);
        let ghost before = out@;
        let mut i: usize = 0;
        while i < name.len()
            invariant
                i <= name@.len(),
                out@ == before + name@.subrange(0, i as int),
            decreases name@.len() - i,
        {
            out.push(name[i]);
            assert(out@ =~= before + name@.subrange(0, i + 1));
            i = i + 1;
        }
        assert(name@.subrange(0, name@.len() as int) =~= name@);
        assert(out@ =~= central_record_bytes(*item, start as nat, crc32));
        Ok(out)
    }

    /// The end record for a central directory from `start` to `end`.
    pub fn end_of_directory(&self, start: u64, end: u64) -> (r: Result<Vec<u8>, ZipError>)
        ensures
            r is Err <==> self.items@.len() >= u16::MAX || end >= u32::MAX || start > end,
            r matches Ok(v) ==> v@ == end_record_bytes(self.items@.len(), start as nat, end as nat),
    {
        let count = self.items.len();
        if count >= u16::MAX as usize || end >= u32::MAX as u64 || start > end {
            return Err(ZipError::TooLarge);
        }
        let mut out: Vec<u8> = Vec::new();
        push_le(&mut out, 0x06054b50, 4);
        push_le(&mut out, 0, 4);
        push_le(&mut out, count as u64, 2);
        push_le(&mut out, count as u64, 2);
        push_le(&mut out, end - start, 4);
        push_le(&mut out, start, 4);
        push_le(&mut out, 0, 2);
        assert(out@ =~= end_record_bytes(self.items@.len(), start as nat, end as nat));
        Ok(out)
    }
}

} // verus!
