//! Item trees: the nodes shared by the baseline, scanned and remote trees.
use vstd::prelude::*;

verus! {

/// Metadata of one node, as the reconciliation engine sees it.
pub struct LocalItem {
    /// Path from the repository root, `/`-separated, without a leading `./`.
    pub path: Vec<u8>,
    pub is_regular_file: bool,
    pub size: u64,
    /// Modification time in milliseconds since the epoch.
    pub timestamp: u64,
    pub mime_type: Vec<u8>,
}

/// Mathematical view of [`LocalItem`].
pub ghost struct MetaView {
    pub path: Seq<u8>,
    pub is_file: bool,
    pub size: u64,
    pub timestamp: u64,
    pub mime: Seq<u8>,
}

impl View for LocalItem {
    type V = MetaView;

    open spec fn view(&self) -> MetaView {
        MetaView {
            path: self.path@,
            is_file: self.is_regular_file,
            size: self.size,
            timestamp: self.timestamp,
            mime: self.mime_type@,
        }
    }
}

impl Clone for LocalItem {
    fn clone(&self) -> (r: Self)
        ensures
            r@ == self@,
    {
        LocalItem {
            path: self.path.clone(),
            is_regular_file: self.is_regular_file,
            size: self.size,
            timestamp: self.timestamp,
            mime_type: self.mime_type.clone(),
        }
    }
}

/// The node of `s` whose path is `p`, searching from the end.
pub open spec fn lookup(s: Seq<MetaView>, p: Seq<u8>) -> Option<MetaView>
    decreases s.len(),
{
    if s.len() == 0 {
        None
    } else if s.last().path == p {
        Some(s.last())
    } else {
        lookup(s.drop_last(), p)
    }
}

/// No two nodes share a path.
pub open spec fn paths_distinct(s: Seq<MetaView>) -> bool {
    forall|i: int, j: int| 0 <= i < s.len() && 0 <= j < s.len() && i != j ==> s[i].path != s[j].path
}

/// `lookup` finds a path exactly when some node holds it.
pub proof fn lemma_lookup(s: Seq<MetaView>, p: Seq<u8>)
    ensures
        lookup(s, p) is None <==> (forall|i: int| 0 <= i < s.len() ==> s[i].path != p),
        lookup(s, p) matches Some(m) ==> m.path == p && s.contains(m),
    decreases s.len(),
{
    if s.len() > 0 {
        lemma_lookup(s.drop_last(), p);
        if s.last().path != p {
            assert forall|i: int| 0 <= i < s.len() - 1 implies s[i] == s.drop_last()[i] by {}
            if lookup(s, p) is Some {
                let m = lookup(s, p)->Some_0;
                let k = choose|k: int| 0 <= k < s.len() - 1 && s.drop_last()[k] == m;
                assert(s[k] == m);
            }
        } else {
            assert(s[s.len() - 1] == s.last());
        }
    }
}

/// In a tree with distinct paths, the node at `i` is the one found by its path.
pub proof fn lemma_lookup_index(s: Seq<MetaView>, i: int)
    requires
        paths_distinct(s),
        0 <= i < s.len(),
    ensures
        lookup(s, s[i].path) == Some(s[i]),
    decreases s.len(),
{
    if i < s.len() - 1 {
        assert(s.last() == s[s.len() - 1]);
        assert(s.drop_last()[i] == s[i]);
        assert(paths_distinct(s.drop_last())) by {
            assert forall|a: int, b: int|
                0 <= a < s.len() - 1 && 0 <= b < s.len() - 1 && a != b implies s.drop_last()[a].path
                != s.drop_last()[b].path by {
                assert(s.drop_last()[a] == s[a]);
                assert(s.drop_last()[b] == s[b]);
            }
        }
        lemma_lookup_index(s.drop_last(), i);
    }
}

/// The MIME type guessed from the extension of `path`, if one is known.
pub uninterp spec fn guessed_mime(path: Seq<char>) -> Option<Seq<u8>>;

/// Relies on `mime_guess::from_path` and `MimeGuess::first`: the first MIME
/// type registered for the path's extension, as its essence string; the
/// guess depends on the path alone.
#[verifier::external_body]
fn guess_mime(path: &str) -> (r: Option<Vec<u8>>)
    ensures
        match r {
            Some(v) => guessed_mime(path@) == Some(v@),
            None => guessed_mime(path@) is None,
        },
{
    match mime_guess::from_path(path).first() {
        Some(m) => Some(m.essence_str().as_bytes().to_vec()),
        None => None,
    }
}

/// The path `path` written relative to `base`, as bytes; `None` where there
/// is none.
pub uninterp spec fn relative_path_of(path: Seq<char>, base: Seq<char>) -> Option<Seq<u8>>;

/// Relies on `pathdiff::diff_paths`: a lexical comparison of the two paths'
/// components, `None` for a relative `path` against an absolute `base` or a
/// `..` it cannot resolve; the result depends on the two paths alone.
#[verifier::external_body]
fn diff_paths(path: &str, base: &str) -> (r: Option<Vec<u8>>)
    ensures
        match r {
            Some(v) => relative_path_of(path@, base@) == Some(v@),
            None => relative_path_of(path@, base@) is None,
        },
{
    match pathdiff::diff_paths(path, base) {
        Some(p) => Some(p.to_string_lossy().into_owned().into_bytes()),
        None => None,
    }
}

impl LocalItem {
    /// The node of the filesystem entry at `path` under the repository root
    /// `root`, from what its metadata says: kind, size and modification
    /// time. A file's MIME type is guessed from its path. Directories have
    /// no MIME type, no size and timestamp 0, as the server records them: a
    /// directory's own modification time changes with every entry added to
    /// it, so only 0 compares across the two sides. `None` where `path` has
    /// no path relative to `root`.
    pub fn from_filesystem(root: &str, path: &str, is_file: bool, size: u64, timestamp: u64) -> (r: Option<LocalItem>)
        ensures
            r is None <==> relative_path_of(path@, root@) is None,
            r matches Some(n) ==> {
                &&& relative_path_of(path@, root@) == Some(n.path@)
                &&& n.is_regular_file == is_file
                &&& n.timestamp == if is_file { timestamp } else { 0 }
                &&& n.size == if is_file { size } else { 0 }
                &&& n.mime_type@ == if is_file {
                    match guessed_mime(path@) {
                        Some(m) => m,
                        None => Seq::empty(),
                    }
                } else {
                    Seq::empty()
                }
            },
    {
        let relative = match diff_paths(path, root) {
            Some(v) => v,
            None => {
                return None;
            },
        };
        let mime_type = if is_file {
            match guess_mime(path) {
                Some(m) => m,
                None => Vec::new(),
            }
        } else {
            Vec::new()
        };
        Some(
            LocalItem {
                path: relative,
                is_regular_file: is_file,
                size: if is_file { size } else { 0 },
                timestamp: if is_file { timestamp } else { 0 },
                mime_type,
            },
        )
    }
}

/// A flat tree of nodes, the arena of one of the three replicas.
pub struct ItemTree {
    pub items: Vec<LocalItem>,
}

impl View for ItemTree {
    type V = Seq<MetaView>;

    open spec fn view(&self) -> Seq<MetaView> {
        self.items@.map_values(|m: LocalItem| m@)
    }
}

impl ItemTree {
    /// Well-formed: paths are unique within the tree.
    pub open spec fn wf(&self) -> bool {
        paths_distinct(self@)
    }

    pub fn new() -> (r: ItemTree)
        ensures
            r@ == Seq::<MetaView>::empty(),
            r.wf(),
    {
        ItemTree { items: Vec::new() }
    }

    pub fn len(&self) -> (r: usize)
        ensures
            r == self@.len(),
    {
        self.items.len()
    }

    /// Index of the node whose path is `path`.
    pub fn find_from_path(&self, path: &Vec<u8>) -> (r: Option<usize>)
        requires
            self.wf(),
        ensures
            r is None ==> lookup(self@, path@) is None,
            r matches Some(i) ==> i < self@.len() && self@[i as int].path == path@ && lookup(
                self@,
                path@,
            ) == Some(self@[i as int]),
    {
        let mut i: usize = 0;
        while i < self.items.len()
            invariant
                self.wf(),
                i <= self.items@.len(),
                forall|k: int| 0 <= k < i ==> self@[k].path != path@,
            decreases self.items@.len() - i,
        {
            if bytes_eq(&self.items[i].path, path) {
                proof {
                    lemma_lookup_index(self@, i as int);
                }
                return Some(i);
            }
            i = i + 1;
        }
        proof {
            lemma_lookup(self@, path@);
        }
        None
    }
}

/// Byte-wise equality of two byte strings.
pub fn bytes_eq(a: &Vec<u8>, b: &Vec<u8>) -> (r: bool)
    ensures
        r == (a@ == b@),
{
    if a.len() != b.len() {
        return false;
    }
    let mut i: usize = 0;
    while i < a.len()
        invariant
            a@.len() == b@.len(),
            i <= a@.len(),
            forall|k: int| 0 <= k < i ==> a@[k] == b@[k],
        decreases a@.len() - i,
    {
        if a[i] != b[i] {
            return false;
        }
        i = i + 1;
    }
    assert(a@ =~= b@);
    true
}

/// In a tree with distinct paths, a path is found exactly at the node that holds it.
pub proof fn lemma_lookup_distinct(s: Seq<MetaView>, p: Seq<u8>)
    requires
        paths_distinct(s),
    ensures
        lookup(s, p) is None <==> (forall|i: int| 0 <= i < s.len() ==> s[i].path != p),
        forall|i: int| 0 <= i < s.len() && s[i].path == p ==> lookup(s, p) == Some(s[i]),
{
    lemma_lookup(s, p);
    assert forall|i: int| 0 <= i < s.len() && s[i].path == p implies lookup(s, p) == Some(s[i]) by {
        lemma_lookup_index(s, i);
    }
}

impl ItemTree {
    /// Stores `item` at its path: replaces the node that holds the path, or
    /// appends it. Returns the index where it now stands.
    pub fn upsert(&mut self, item: LocalItem) -> (idx: usize)
        requires
            old(self).wf(),
        ensures
            final(self).wf(),
            idx < final(self)@.len(),
            final(self)@[idx as int] == item@,
            lookup(final(self)@, item@.path) == Some(item@),
            forall|q: Seq<u8>| q != item@.path ==> lookup(#[trigger] final(self)@, q) == lookup(old(self)@, q),
            lookup(old(self)@, item@.path) is Some ==> final(self)@.len() == old(self)@.len() && final(self)@
                == old(self)@.update(idx as int, item@) && old(self)@[idx as int].path == item@.path,
            lookup(old(self)@, item@.path) is None ==> idx == old(self)@.len() && final(self)@ == old(
                self,
            )@.push(item@),
    {
        let ghost p = item@.path;
        let ghost before = self@;
        match self.find_from_path(&item.path) {
            Some(i) => {
                self.items.set(i, item);
                proof {
                    assert(self@ =~= before.update(i as int, item@));
                    assert forall|a: int, c: int| 0 <= a < self@.len() && 0 <= c < self@.len() && a != c implies self@[a].path != self@[c].path by {}
                    assert forall|q: Seq<u8>| q != p implies lookup(#[trigger] self@, q) == lookup(before, q) by {
                        lemma_lookup_distinct(self@, q);
                        lemma_lookup_distinct(before, q);
                        if lookup(before, q) is Some {
                            let k = choose|k: int| 0 <= k < before.len() && before[k].path == q;
                            assert(self@[k] == before[k]);
                        }
                    }
                    lemma_lookup_index(self@, i as int);
                }
                i
            },
            None => {
                let n = self.items.len();
                self.items.push(item);
                proof {
                    assert(self@ =~= before.push(item@));
                    lemma_lookup(before, p);
                    assert forall|a: int, c: int| 0 <= a < self@.len() && 0 <= c < self@.len() && a != c implies self@[a].path != self@[c].path by {
                        if a < before.len() {
                            assert(self@[a] == before[a]);
                        }
                        if c < before.len() {
                            assert(self@[c] == before[c]);
                        }
                    }
                    assert forall|q: Seq<u8>| q != p implies lookup(#[trigger] self@, q) == lookup(before, q) by {
                        assert(self@.drop_last() =~= before);
                    }
                    assert(self@.last() == item@);
                }
                n
            },
        }
    }

    /// Takes out the node at `path`, if any, keeping the order of the others.
    /// Returns the index it stood at.
    pub fn remove_path(&mut self, path: &Vec<u8>) -> (idx: Option<usize>)
        requires
            old(self).wf(),
        ensures
            final(self).wf(),
            lookup(final(self)@, path@) is None,
            forall|q: Seq<u8>| q != path@ ==> lookup(#[trigger] final(self)@, q) == lookup(old(self)@, q),
            idx is None <==> lookup(old(self)@, path@) is None,
            idx is None ==> final(self)@ == old(self)@,
            idx matches Some(i) ==> i < old(self)@.len() && final(self)@ == old(self)@.remove(i as int),
    {
        let ghost before = self@;
        match self.find_from_path(path) {
            Some(i) => {
                self.items.remove(i);
                proof {
                    assert(self@ =~= before.remove(i as int));
                    assert forall|a: int| 0 <= a < self@.len() implies #[trigger] self@[a] == if a < i { before[a] } else { before[a + 1] } by {}
                    assert forall|a: int, c: int| 0 <= a < self@.len() && 0 <= c < self@.len() && a != c implies self@[a].path != self@[c].path by {
                        assert(self@[a] == if a < i { before[a] } else { before[a + 1] });
                        assert(self@[c] == if c < i { before[c] } else { before[c + 1] });
                    }
                    lemma_lookup_distinct(self@, path@);
                    assert forall|k: int| 0 <= k < self@.len() implies self@[k].path != path@ by {
                        assert(self@[k] == if k < i { before[k] } else { before[k + 1] });
                    }
                    assert forall|q: Seq<u8>| q != path@ implies lookup(#[trigger] self@, q) == lookup(before, q) by {
                        lemma_lookup_distinct(self@, q);
                        lemma_lookup_distinct(before, q);
                        if lookup(before, q) is Some {
                            let k = choose|k: int| 0 <= k < before.len() && before[k].path == q;
                            if k < i {
                                assert(self@[k] == before[k]);
                            } else {
                                assert(k != i);
                                assert(self@[k - 1] == before[k]);
                            }
                        } else {
                            assert forall|k: int| 0 <= k < self@.len() implies self@[k].path != q by {
                                assert(self@[k] == if k < i { before[k] } else { before[k + 1] });
                            }
                        }
                    }
                }
                Some(i)
            },
            None => None,
        }
    }
}

/// Index of the last `/` in `p`, or -1.
pub open spec fn last_slash(p: Seq<u8>) -> int
    decreases p.len(),
{
    if p.len() == 0 {
        -1
    } else if p.last() == 47u8 {
        p.len() - 1
    } else {
        last_slash(p.drop_last())
    }
}

/// The path of the directory holding `p`; `None` for a node at the root.
pub open spec fn spec_parent_path(p: Seq<u8>) -> Option<Seq<u8>> {
    if last_slash(p) < 0 {
        None
    } else {
        Some(p.subrange(0, last_slash(p)))
    }
}

/// The last component of `p`.
pub open spec fn spec_name(p: Seq<u8>) -> Seq<u8> {
    p.subrange(last_slash(p) + 1, p.len() as int)
}

proof fn lemma_last_slash(p: Seq<u8>)
    ensures
        -1 <= last_slash(p) < p.len(),
        last_slash(p) >= 0 ==> p[last_slash(p)] == 47u8,
        forall|k: int| last_slash(p) < k < p.len() ==> p[k] != 47u8,
    decreases p.len(),
{
    if p.len() > 0 {
        lemma_last_slash(p.drop_last());
        if p.last() != 47u8 {
            assert forall|k: int| last_slash(p) < k < p.len() implies p[k] != 47u8 by {
                if k < p.len() - 1 {
                    assert(p.drop_last()[k] == p[k]);
                }
            }
            if last_slash(p) >= 0 {
                assert(p.drop_last()[last_slash(p)] == p[last_slash(p)]);
            }
        }
    }
}

/// A parent's path is shorter than its child's.
pub proof fn lemma_parent_shorter(p: Seq<u8>)
    ensures
        spec_parent_path(p) matches Some(q) ==> q.len() < p.len(),
{
    lemma_last_slash(p);
}

fn find_last_slash(p: &Vec<u8>) -> (r: Option<usize>)
    ensures
        r is None <==> last_slash(p@) < 0,
        r matches Some(i) ==> i == last_slash(p@) && i < p@.len(),
{
    proof {
        lemma_last_slash(p@);
    }
    let mut n: usize = p.len();
    assert(p@.subrange(0, n as int) =~= p@);
    while n > 0
        invariant
            n <= p@.len(),
            last_slash(p@) == last_slash(p@.subrange(0, n as int)),
        decreases n,
    {
        let ghost q = p@.subrange(0, n as int);
        assert(q.drop_last() =~= p@.subrange(0, n - 1));
        if p[n - 1] == 47u8 {
            return Some(n - 1);
        }
        n = n - 1;
    }
    None
}

/// Copy of `p[from..to]`.
pub fn copy_range(p: &Vec<u8>, from: usize, to: usize) -> (r: Vec<u8>)
    requires
        from <= to <= p@.len(),
    ensures
        r@ == p@.subrange(from as int, to as int),
{
    let mut r: Vec<u8> = Vec::new();
    let mut i: usize = from;
    while i < to
        invariant
            from <= i <= to <= p@.len(),
            r@ == p@.subrange(from as int, i as int),
        decreases to - i,
    {
        r.push(p[i]);
        assert(r@ =~= p@.subrange(from as int, i + 1));
        i = i + 1;
    }
    r
}

/// The path of the directory that holds `path`.
pub fn parent_path(path: &Vec<u8>) -> (r: Option<Vec<u8>>)
    ensures
        r matches Some(v) ==> spec_parent_path(path@) == Some(v@),
        r is None ==> spec_parent_path(path@) is None,
{
    proof {
        lemma_last_slash(path@);
    }
    match find_last_slash(path) {
        Some(i) => Some(copy_range(path, 0, i)),
        None => None,
    }
}

/// The last component of `path`.
pub fn name_of(path: &Vec<u8>) -> (r: Vec<u8>)
    ensures
        r@ == spec_name(path@),
{
    proof {
        lemma_last_slash(path@);
    }
    match find_last_slash(path) {
        Some(i) => {
            let n = path.len();
            copy_range(path, i + 1, n)
        },
        None => copy_range(path, 0, path.len()),
    }
}

/// What the engine reads of a node, whichever tree it comes from.
pub trait Item {
    spec fn spec_node(&self) -> MetaView;

    fn is_regular_file(&self) -> (r: bool)
        ensures
            r == self.spec_node().is_file,
    ;

    fn size(&self) -> (r: u64)
        ensures
            r == self.spec_node().size,
    ;

    fn timestamp(&self) -> (r: u64)
        ensures
            r == self.spec_node().timestamp,
    ;

    fn path_from_root(&self) -> (r: &Vec<u8>)
        ensures
            r@ == self.spec_node().path,
    ;

    fn name(&self) -> (r: Vec<u8>)
        ensures
            r@ == spec_name(self.spec_node().path),
    ;
}

impl Item for LocalItem {
    open spec fn spec_node(&self) -> MetaView {
        self@
    }

    fn is_regular_file(&self) -> (r: bool) {
        self.is_regular_file
    }

    fn size(&self) -> (r: u64) {
        self.size
    }

    fn timestamp(&self) -> (r: u64) {
        self.timestamp
    }

    fn path_from_root(&self) -> (r: &Vec<u8>) {
        &self.path
    }

    fn name(&self) -> (r: Vec<u8>) {
        name_of(&self.path)
    }
}

/// A node of the server's tree: the node itself, its identifier and the
/// identifier of the directory holding it.
pub struct RemoteItem {
    pub id: i64,
    pub parent_item: Option<i64>,
    pub node: LocalItem,
}

impl Item for RemoteItem {
    open spec fn spec_node(&self) -> MetaView {
        self.node@
    }

    fn is_regular_file(&self) -> (r: bool) {
        self.node.is_regular_file
    }

    fn size(&self) -> (r: u64) {
        self.node.size
    }

    fn timestamp(&self) -> (r: u64) {
        self.node.timestamp
    }

    fn path_from_root(&self) -> (r: &Vec<u8>) {
        &self.node.path
    }

    fn name(&self) -> (r: Vec<u8>) {
        name_of(&self.node.path)
    }
}

/// `id` is the identifier recorded beside the node at `p`.
pub open spec fn has_id(r: RemoteTree, p: Seq<u8>, id: i64) -> bool {
    exists|i: int| 0 <= i < r.ids@.len() && r.ids@[i] == id && r.tree@[i].path == p
}

/// The session's copy of the server's tree: the nodes, and beside each the
/// identifier the server gave it.
pub struct RemoteTree {
    pub tree: ItemTree,
    pub ids: Vec<i64>,
}

impl RemoteTree {
    pub open spec fn wf(&self) -> bool {
        self.tree.wf() && self.ids@.len() == self.tree@.len()
    }

    pub fn new() -> (r: RemoteTree)
        ensures
            r.wf(),
            r.tree@.len() == 0,
    {
        RemoteTree { tree: ItemTree::new(), ids: Vec::new() }
    }

    /// Records a node that the server reported, replacing the one at its path.
    pub fn add_item(&mut self, item: RemoteItem)
        requires
            old(self).wf(),
        ensures
            final(self).wf(),
            lookup(final(self).tree@, item.node@.path) == Some(item.node@),
            forall|q: Seq<u8>| q != item.node@.path ==> lookup(#[trigger] final(self).tree@, q) == lookup(old(self).tree@, q),
            exists|i: int| 0 <= i < final(self).ids@.len() && final(self).ids@[i] == item.id && final(self).tree@[i] == item.node@,
            has_id(*final(self), item.node@.path, item.id),
            forall|q: Seq<u8>, id: i64| q != item.node@.path && has_id(*old(self), q, id) ==> #[trigger] has_id(*final(self), q, id),
    {
        let id = item.id;
        let ghost p = item.node@.path;
        let ghost old_tree = self.tree@;
        let ghost old_ids = self.ids@;
        let idx = self.tree.upsert(item.node);
        if idx < self.ids.len() {
            self.ids.set(idx, id);
        } else {
            self.ids.push(id);
        }
        assert(self.ids@[idx as int] == id);
        assert forall|q: Seq<u8>, id2: i64| q != p && has_id(*old(self), q, id2) implies #[trigger] has_id(*self, q, id2) by {
            let k = choose|k: int| 0 <= k < old_ids.len() && old_ids[k] == id2 && old_tree[k].path == q;
            assert(k != idx);
            assert(self.ids@[k] == old_ids[k]);
            assert(self.tree@[k] == old_tree[k]);
        }
    }

    /// Forgets the node at `path`.
    pub fn remove_path(&mut self, path: &Vec<u8>)
        requires
            old(self).wf(),
        ensures
            final(self).wf(),
            lookup(final(self).tree@, path@) is None,
            forall|q: Seq<u8>| q != path@ ==> lookup(#[trigger] final(self).tree@, q) == lookup(old(self).tree@, q),
    {
        match self.tree.remove_path(path) {
            Some(i) => {
                self.ids.remove(i);
            },
            None => {},
        }
    }

    /// The identifier of the node at `path`.
    pub fn id_of(&self, path: &Vec<u8>) -> (r: Option<i64>)
        requires
            self.wf(),
        ensures
            r is None <==> lookup(self.tree@, path@) is None,
            r matches Some(id) ==> exists|i: int| 0 <= i < self.ids@.len() && self.ids@[i] == id && self.tree@[i].path == path@,
    {
        match self.tree.find_from_path(path) {
            Some(i) => Some(self.ids[i]),
            None => None,
        }
    }
}

} // verus!
