//! A file system held in memory, proved to behave as the model says.
use vstd::prelude::*;
use vstd::utf8::{decode_utf8, valid_utf8};

use vstd::slice::slice_to_vec;

use crate::file_system::{FileSystem, FsError};
use crate::path::{owned_view, path_of, split_path, PathView};
use crate::tree::{
    along, create_dir_model, create_file_model, delete_dir_model, delete_file_model,
    file_on_route, find_file, is_dir, is_file, lemma_operations_keep_wf, lemma_take_take,
    read_file_model, route_error, tree_wf, within, write_file_model, NodeView, TreeView,
};

verus! {

/// A stored node: a directory, or a file with its bytes.
enum MemNode {
    Dir,
    File(Vec<u8>),
}

impl MemNode {
    spec fn view(&self) -> NodeView {
        match self {
            MemNode::Dir => NodeView::Dir,
            MemNode::File(b) => NodeView::File(b@),
        }
    }
}

/// A stored path, as its segments, with its node.
struct MemEntry {
    path: Vec<Vec<u8>>,
    node: MemNode,
}

impl MemEntry {
    spec fn key(&self) -> PathView {
        owned_view(self.path@)
    }
}

/// `entries` holds each path of `t` exactly once, with its node.
spec fn stores(entries: Seq<MemEntry>, t: TreeView) -> bool {
    &&& forall|i: int|
        0 <= i < entries.len() ==> t.contains_key(#[trigger] entries[i].key()) && t[entries[i].key()]
            == entries[i].node.view()
    &&& forall|k: PathView| #[trigger]
        t.contains_key(k) ==> exists|i: int| 0 <= i < entries.len() && entries[i].key() == k
    &&& forall|i: int, j: int|
        0 <= i < j < entries.len() ==> #[trigger] entries[i].key() != #[trigger] entries[j].key()
}

/// A file system that lives in memory, for tests and for callers that need
/// no disk.
pub struct MemFileSystem {
    entries: Vec<MemEntry>,
    tree: Ghost<TreeView>,
}

/// The outcome of reading a file whose model outcome is `m`: the decoded text
/// of its bytes, `InvalidData` when they are not UTF-8, or the model's error.
pub open spec fn read_outcome(m: Result<Seq<u8>, FsError>, r: Result<String, FsError>) -> bool {
    match m {
        Ok(b) => if valid_utf8(b) {
            r is Ok && r->Ok_0@ == decode_utf8(b)
        } else {
            r == Err::<String, FsError>(FsError::InvalidData)
        },
        Err(e) => r == Err::<String, FsError>(e),
    }
}

/// Relies on `String::from_utf8`: it succeeds exactly on valid UTF-8, and the
/// string then holds the characters that the bytes encode.
#[verifier::external_body]
fn decode_text(bytes: &[u8]) -> (r: Option<String>)
    ensures
        r is Some <==> valid_utf8(bytes@),
        r matches Some(s) ==> s@ == decode_utf8(bytes@),
{
    String::from_utf8(bytes.to_vec()).ok()
}

/// Whether two byte strings are equal.
fn same_bytes(a: &Vec<u8>, b: &Vec<u8>) -> (r: bool)
    ensures
        r == (a@ == b@),
{
    if a.len() != b.len() {
        return false;
    }
    let mut i: usize = 0;
    while i < a.len()
        invariant
            i <= a@.len() == b@.len(),
            a@.take(i as int) == b@.take(i as int),
        decreases a@.len() - i,
    {
        if a[i] != b[i] {
            return false;
        }
        proof {
            assert(a@.take(i + 1) =~= a@.take(i as int).push(a@[i as int]));
            assert(b@.take(i + 1) =~= b@.take(i as int).push(b@[i as int]));
        }
        i = i + 1;
    }
    proof {
        assert(a@.take(i as int) =~= a@);
        assert(b@.take(i as int) =~= b@);
    }
    true
}

/// Whether `q` is the first `n` segments of `p`.
fn is_first_segments(q: &Vec<Vec<u8>>, p: &Vec<Vec<u8>>, n: usize) -> (r: bool)
    requires
        n <= p@.len(),
    ensures
        r == (owned_view(q@) == owned_view(p@).take(n as int)),
{
    if q.len() != n {
        return false;
    }
    let mut i: usize = 0;
    while i < n
        invariant
            i <= n == q@.len() <= p@.len(),
            owned_view(q@).take(i as int) == owned_view(p@).take(i as int),
        decreases n - i,
    {
        if !same_bytes(&q[i], &p[i]) {
            assert(owned_view(q@)[i as int] != owned_view(p@).take(n as int)[i as int]);
            return false;
        }
        proof {
            assert(owned_view(q@).take(i + 1) =~= owned_view(q@).take(i as int).push(q@[i as int]@));
            assert(owned_view(p@).take(i + 1) =~= owned_view(p@).take(i as int).push(p@[i as int]@));
        }
        i = i + 1;
    }
    proof {
        assert(owned_view(q@).take(n as int) =~= owned_view(q@));
    }
    true
}

/// The index of the entry stored for the first `n` segments of `p`.
fn find(entries: &Vec<MemEntry>, p: &Vec<Vec<u8>>, n: usize) -> (r: Option<usize>)
    requires
        n <= p@.len(),
    ensures
        r matches Some(i) ==> i < entries@.len() && entries@[i as int].key() == owned_view(p@).take(n as int),
        r is None ==> forall|i: int|
            0 <= i < entries@.len() ==> #[trigger] entries@[i].key() != owned_view(p@).take(n as int),
{
    let mut i: usize = 0;
    while i < entries.len()
        invariant
            i <= entries@.len(),
            n <= p@.len(),
            forall|j: int| 0 <= j < i ==> #[trigger] entries@[j].key() != owned_view(p@).take(n as int),
        decreases entries@.len() - i,
    {
        if is_first_segments(&entries[i].path, p, n) {
            return Some(i);
        }
        i = i + 1;
    }
    None
}

proof fn lemma_stores_push(entries: Seq<MemEntry>, t: TreeView, x: MemEntry)
    requires
        stores(entries, t),
        !t.contains_key(x.key()),
    ensures
        stores(entries.push(x), t.insert(x.key(), x.node.view())),
{
    let e2 = entries.push(x);
    let t2 = t.insert(x.key(), x.node.view());
    assert forall|k: PathView| #[trigger] t2.contains_key(k) implies exists|i: int|
        0 <= i < e2.len() && e2[i].key() == k by {
        if k == x.key() {
            assert(e2[entries.len() as int].key() == k);
        } else {
            let i = choose|i: int| 0 <= i < entries.len() && entries[i].key() == k;
            assert(e2[i].key() == k);
        }
    }
    assert forall|i: int, j: int| 0 <= i < j < e2.len() implies #[trigger] e2[i].key()
        != #[trigger] e2[j].key() by {
        if j == entries.len() {
            assert(t.contains_key(entries[i].key()));
        } else {
            assert(entries[i].key() != entries[j].key());
        }
    }
}

proof fn lemma_stores_update(entries: Seq<MemEntry>, t: TreeView, i: int, x: MemEntry)
    requires
        stores(entries, t),
        0 <= i < entries.len(),
        x.key() == entries[i].key(),
    ensures
        stores(entries.update(i, x), t.insert(x.key(), x.node.view())),
{
    let e2 = entries.update(i, x);
    let t2 = t.insert(x.key(), x.node.view());
    assert forall|j: int| 0 <= j < e2.len() implies t2.contains_key(#[trigger] e2[j].key())
        && t2[e2[j].key()] == e2[j].node.view() by {
        if j != i {
            assert(entries[j].key() != entries[i].key()) by {
                if j < i {
                    assert(entries[j].key() != entries[i].key());
                } else {
                    assert(entries[i].key() != entries[j].key());
                }
            }
        }
    }
    assert forall|k: PathView| #[trigger] t2.contains_key(k) implies exists|j: int|
        0 <= j < e2.len() && e2[j].key() == k by {
        if k == x.key() {
            assert(e2[i].key() == k);
        } else {
            let j = choose|j: int| 0 <= j < entries.len() && entries[j].key() == k;
            assert(e2[j].key() == k);
        }
    }
    assert forall|a: int, b: int| 0 <= a < b < e2.len() implies #[trigger] e2[a].key()
        != #[trigger] e2[b].key() by {
        assert(entries[a].key() != entries[b].key());
    }
}

proof fn lemma_stores_remove(entries: Seq<MemEntry>, t: TreeView, i: int)
    requires
        stores(entries, t),
        0 <= i < entries.len(),
    ensures
        stores(entries.remove(i), t.remove(entries[i].key())),
{
    let e2 = entries.remove(i);
    let gone = entries[i].key();
    let t2 = t.remove(gone);
    assert forall|j: int| 0 <= j < e2.len() implies t2.contains_key(#[trigger] e2[j].key())
        && t2[e2[j].key()] == e2[j].node.view() by {
        if j < i {
            assert(e2[j] == entries[j]);
            assert(entries[j].key() != entries[i].key());
        } else {
            assert(e2[j] == entries[j + 1]);
            assert(entries[i].key() != entries[j + 1].key());
        }
    }
    assert forall|k: PathView| #[trigger] t2.contains_key(k) implies exists|j: int|
        0 <= j < e2.len() && e2[j].key() == k by {
        let j = choose|j: int| 0 <= j < entries.len() && entries[j].key() == k;
        if j < i {
            assert(e2[j].key() == k);
        } else {
            assert(j != i);
            assert(e2[j - 1].key() == k);
        }
    }
    assert forall|a: int, b: int| 0 <= a < b < e2.len() implies #[trigger] e2[a].key()
        != #[trigger] e2[b].key() by {
        let a0 = if a < i { a } else { a + 1 };
        let b0 = if b < i { b } else { b + 1 };
        assert(e2[a] == entries[a0]);
        assert(e2[b] == entries[b0]);
        assert(entries[a0].key() != entries[b0].key());
    }
}

/// A copy of the first `n` segments of `p`.
fn copy_prefix(p: &Vec<Vec<u8>>, n: usize) -> (r: Vec<Vec<u8>>)
    requires
        n <= p@.len(),
    ensures
        owned_view(r@) == owned_view(p@).take(n as int),
{
    let mut r: Vec<Vec<u8>> = Vec::new();
    let mut i: usize = 0;
    while i < n
        invariant
            i <= n <= p@.len(),
            r@.len() == i,
            owned_view(r@) == owned_view(p@).take(i as int),
        decreases n - i,
    {
        let seg = slice_to_vec(p[i].as_slice());
        proof {
            assert(seg@ == p@[i as int]@);
            assert forall|j: int| 0 <= j < i implies #[trigger] r@[j]@ == p@[j]@ by {
                assert(owned_view(r@)[j] == owned_view(p@).take(i as int)[j]);
            }
            assert(owned_view(r@.push(seg)) =~= owned_view(p@).take(i + 1));
        }
        r.push(seg);
        i = i + 1;
    }
    r
}

/// Whether `q` is `p` or lies inside it.
fn is_within(q: &Vec<Vec<u8>>, p: &Vec<Vec<u8>>) -> (r: bool)
    ensures
        r == within(owned_view(q@), owned_view(p@)),
{
    if q.len() < p.len() {
        return false;
    }
    is_first_segments(p, q, p.len())
}

impl View for MemFileSystem {
    type V = TreeView;

    closed spec fn view(&self) -> TreeView {
        self.tree@
    }
}

impl MemFileSystem {
    #[verifier::type_invariant]
    spec fn inv(&self) -> bool {
        tree_wf(self.tree@) && stores(self.entries@, self.tree@)
    }

    /// An empty file system: nothing but the root directory.
    pub fn new() -> (r: Self)
        ensures
            r@ == TreeView::empty(),
    {
        MemFileSystem { entries: Vec::new(), tree: Ghost(TreeView::empty()) }
    }

    /// Walks the proper ancestors of `p`, and reports the first that is not a
    /// directory.
    fn check_route(&self, p: &Vec<Vec<u8>>) -> (r: Result<(), FsError>)
        ensures
            r is Ok <==> route_error(self@, owned_view(p@)) is None,
            r matches Err(e) ==> route_error(self@, owned_view(p@)) == Some(e),
    {
        proof {
            use_type_invariant(self);
        }
        let ghost t = self@;
        let ghost pv = owned_view(p@);
        let mut k: usize = 1;
        while k < p.len()
            invariant
                1 <= k,
                t == self@,
                pv == owned_view(p@),
                tree_wf(t),
                stores(self.entries@, t),
                forall|j: int| 1 <= j < k && j < pv.len() ==> is_dir(t, #[trigger] pv.take(j)),
            decreases p@.len() - k,
        {
            match find(&self.entries, p, k) {
                None => {
                    proof {
                        assert(!t.contains_key(pv.take(k as int)));
                        assert forall|j: int| 1 <= j < pv.len() implies !is_file(t, #[trigger] pv.take(j)) by {
                            if j > k && is_file(t, pv.take(j)) {
                                lemma_take_take(pv, j, k as int);
                                assert(pv.take(j).take(k as int) == pv.take(k as int));
                            }
                        }
                    }
                    return Err(FsError::NotFound);
                },
                Some(i) => {
                    match &self.entries[i].node {
                        MemNode::File(_) => {
                            assert(is_file(t, pv.take(k as int)));
                            return Err(FsError::NotADirectory);
                        },
                        MemNode::Dir => {},
                    }
                },
            }
            k = k + 1;
        }
        Ok(())
    }

    /// The index of the file that `p` names, or why there is none.
    fn find_file_index(&self, p: &Vec<Vec<u8>>) -> (r: Result<usize, FsError>)
        ensures
            r matches Ok(i) ==> i < self.entries@.len() && self.entries@[i as int].key() == owned_view(p@)
                && self.entries@[i as int].node is File
                && find_file(self@, owned_view(p@)) == Ok::<Seq<u8>, FsError>(self.entries@[i as int].node->File_0@),
            r matches Err(e) ==> find_file(self@, owned_view(p@)) == Err::<Seq<u8>, FsError>(e),
    {
        proof {
            use_type_invariant(self);
        }
        if p.len() == 0 {
            return Err(FsError::IsADirectory);
        }
        if let Err(e) = self.check_route(p) {
            return Err(e);
        }
        assert(owned_view(p@).take(p@.len() as int) =~= owned_view(p@));
        match find(&self.entries, p, p.len()) {
            None => Err(FsError::NotFound),
            Some(i) => match &self.entries[i].node {
                MemNode::Dir => Err(FsError::IsADirectory),
                MemNode::File(_) => Ok(i),
            },
        }
    }
    /// Hands out the stored entries and leaves an empty file system behind.
    fn take_entries(&mut self) -> (r: Vec<MemEntry>)
        ensures
            stores(r@, old(self)@),
            tree_wf(old(self)@),
            r@ == old(self).entries@,
    {
        proof {
            use_type_invariant(&*self);
        }
        let mut other = MemFileSystem::new();
        std::mem::swap(self, &mut other);
        proof {
            use_type_invariant(&other);
        }
        other.entries
    }
}

impl FileSystem for MemFileSystem {
    fn create_file(&mut self, file: &str, content: &[u8]) -> (r: Result<(), FsError>)
        ensures
            (final(self)@, r) == create_file_model(old(self)@, path_of(file), content@),
            tree_wf(final(self)@),
    {
        let ghost t = self@;
        let ghost pv = path_of(file);
        proof {
            use_type_invariant(&*self);
            lemma_operations_keep_wf(t, pv, content@);
        }
        let p = split_path(file);
        if p.len() == 0 {
            return Err(FsError::IsADirectory);
        }
        if let Err(e) = self.check_route(&p) {
            return Err(e);
        }
        assert(pv.take(pv.len() as int) =~= pv);
        let found = find(&self.entries, &p, p.len());
        if let Some(i) = found {
            if let MemNode::Dir = &self.entries[i].node {
                return Err(FsError::IsADirectory);
            }
        }
        let e = MemEntry { path: p, node: MemNode::File(slice_to_vec(content)) };
        let mut entries = self.take_entries();
        match found {
            Some(i) => {
                proof {
                    lemma_stores_update(entries@, t, i as int, e);
                }
                entries.set(i, e);
            },
            None => {
                proof {
                    lemma_stores_push(entries@, t, e);
                }
                entries.push(e);
            },
        }
        *self = MemFileSystem { entries, tree: Ghost(t.insert(pv, NodeView::File(content@))) };
        Ok(())
    }

    fn create_dir(&mut self, path: &str) -> (r: Result<(), FsError>)
        ensures
            (final(self)@, r) == create_dir_model(old(self)@, path_of(path)),
            tree_wf(final(self)@),
    {
        let ghost t = self@;
        let ghost pv = path_of(path);
        proof {
            use_type_invariant(&*self);
            lemma_operations_keep_wf(t, pv, Seq::empty());
        }
        let p = split_path(path);
        let mut i: usize = 0;
        while i < p.len()
            invariant
                i <= p@.len(),
                t == self@,
                pv == owned_view(p@),
                pv == path_of(path),
                tree_wf(t),
                tree_wf(create_dir_model(t, pv).0),
                stores(self.entries@, t),
                forall|j: int| 1 <= j <= i ==> !is_file(t, #[trigger] pv.take(j)),
            decreases p@.len() - i,
        {
            if let Some(k) = find(&self.entries, &p, i + 1) {
                if let MemNode::File(_) = &self.entries[k].node {
                    if i + 1 < p.len() {
                        assert(is_file(t, pv.take(i + 1)));
                        return Err(FsError::NotADirectory);
                    } else {
                        assert(pv.take(i + 1) =~= pv);
                        return Err(FsError::AlreadyExists);
                    }
                }
            }
            i = i + 1;
        }
        assert(pv.len() > 0 ==> pv.take(pv.len() as int) =~= pv);
        assert(!is_file(t, pv));
        assert(!file_on_route(t, pv));
        let mut entries = self.take_entries();
        let ghost mut ct = t;
        let mut i: usize = 0;
        while i < p.len()
            invariant
                i <= p@.len(),
                pv == owned_view(p@),
                tree_wf(t),
                !file_on_route(t, pv),
                !is_file(t, pv),
                stores(entries@, ct),
                forall|q: PathView| #[trigger]
                    ct.contains_key(q) <==> (t.contains_key(q) || (along(q, pv) && q.len() <= i)),
                forall|q: PathView| #[trigger]
                    ct.contains_key(q) ==> ct[q] == (if along(q, pv) && q.len() <= i {
                        NodeView::Dir
                    } else {
                        t[q]
                    }),
            decreases p@.len() - i,
        {
            let ghost q = pv.take(i + 1);
            assert(along(q, pv)) by {
                lemma_take_take(pv, pv.len() as int, i + 1);
                assert(pv.take(pv.len() as int) =~= pv);
            }
            match find(&entries, &p, i + 1) {
                Some(k) => {
                    proof {
                        assert(ct.contains_key(q));
                        if i + 1 < pv.len() {
                            assert(!is_file(t, q));
                        } else {
                            assert(q =~= pv);
                        }
                    }
                },
                None => {
                    let e = MemEntry { path: copy_prefix(&p, i + 1), node: MemNode::Dir };
                    proof {
                        lemma_stores_push(entries@, ct, e);
                        ct = ct.insert(q, NodeView::Dir);
                    }
                    entries.push(e);
                },
            }
            i = i + 1;
        }
        proof {
            assert(ct =~= create_dir_model(t, pv).0);
        }
        *self = MemFileSystem { entries, tree: Ghost(ct) };
        Ok(())
    }

    fn write_file(&mut self, file: &str, content: &[u8]) -> (r: Result<(), FsError>)
        ensures
            (final(self)@, r) == write_file_model(old(self)@, path_of(file), content@),
            tree_wf(final(self)@),
    {
        let ghost t = self@;
        let ghost pv = path_of(file);
        proof {
            use_type_invariant(&*self);
            lemma_operations_keep_wf(t, pv, content@);
        }
        let p = split_path(file);
        let i = match self.find_file_index(&p) {
            Err(e) => return Err(e),
            Ok(i) => i,
        };
        let mut data = match &self.entries[i].node {
            MemNode::File(b) => slice_to_vec(b.as_slice()),
            MemNode::Dir => Vec::new(),
        };
        let ghost before = data@;
        let mut k: usize = 0;
        while k < content.len()
            invariant
                k <= content@.len(),
                data@ == before + content@.take(k as int),
            decreases content@.len() - k,
        {
            data.push(content[k]);
            proof {
                assert(before + content@.take(k + 1) =~= (before + content@.take(k as int)).push(content@[k as int]));
            }
            k = k + 1;
        }
        assert(content@.take(content@.len() as int) =~= content@);
        let e = MemEntry { path: p, node: MemNode::File(data) };
        let mut entries = self.take_entries();
        proof {
            lemma_stores_update(entries@, t, i as int, e);
        }
        entries.set(i, e);
        *self = MemFileSystem { entries, tree: Ghost(t.insert(pv, e.node.view())) };
        Ok(())
    }

    fn read_file(&self, file: &str) -> (r: Result<String, FsError>)
        ensures
            read_outcome(read_file_model(self@, path_of(file)), r),
    {
        let p = split_path(file);
        let i = match self.find_file_index(&p) {
            Err(e) => return Err(e),
            Ok(i) => i,
        };
        match &self.entries[i].node {
            MemNode::File(b) => match decode_text(b.as_slice()) {
                Some(s) => Ok(s),
                None => Err(FsError::InvalidData),
            },
            MemNode::Dir => Err(FsError::IsADirectory),
        }
    }

    fn delete_file(&mut self, file: &str) -> (r: Result<(), FsError>)
        ensures
            (final(self)@, r) == delete_file_model(old(self)@, path_of(file)),
            tree_wf(final(self)@),
    {
        let ghost t = self@;
        let ghost pv = path_of(file);
        proof {
            use_type_invariant(&*self);
            lemma_operations_keep_wf(t, pv, Seq::empty());
        }
        let p = split_path(file);
        let i = match self.find_file_index(&p) {
            Err(e) => return Err(e),
            Ok(i) => i,
        };
        let mut entries = self.take_entries();
        proof {
            lemma_stores_remove(entries@, t, i as int);
        }
        entries.remove(i);
        *self = MemFileSystem { entries, tree: Ghost(t.remove(pv)) };
        Ok(())
    }

    fn delete_dir(&mut self, path: &str) -> (r: Result<(), FsError>)
        ensures
            (final(self)@, r) == delete_dir_model(old(self)@, path_of(path)),
            tree_wf(final(self)@),
    {
        let ghost t = self@;
        let ghost pv = path_of(path);
        proof {
            use_type_invariant(&*self);
            lemma_operations_keep_wf(t, pv, Seq::empty());
        }
        let p = split_path(path);
        if p.len() == 0 {
            return Err(FsError::PermissionDenied);
        }
        if let Err(e) = self.check_route(&p) {
            return Err(e);
        }
        assert(pv.take(pv.len() as int) =~= pv);
        match find(&self.entries, &p, p.len()) {
            None => {
                return Err(FsError::NotFound);
            },
            Some(i) => {
                if let MemNode::File(_) = &self.entries[i].node {
                    return Err(FsError::NotADirectory);
                }
            },
        }
        let mut entries = self.take_entries();
        let ghost w = Set::new(|q: PathView| within(q, pv));
        let ghost mut ct = t;
        let mut j: usize = 0;
        while j < entries.len()
            invariant
                j <= entries@.len(),
                pv == owned_view(p@),
                w == Set::new(|q: PathView| within(q, pv)),
                stores(entries@, ct),
                ct.remove_keys(w) == t.remove_keys(w),
                forall|i: int| 0 <= i < j ==> !within(#[trigger] entries@[i].key(), pv),
            decreases entries@.len() - j,
        {
            if is_within(&entries[j].path, &p) {
                proof {
                    let prev = ct;
                    lemma_stores_remove(entries@, ct, j as int);
                    ct = ct.remove(entries@[j as int].key());
                    assert(ct.remove_keys(w) =~= prev.remove_keys(w));
                }
                entries.remove(j);
            } else {
                j = j + 1;
            }
        }
        proof {
            assert forall|q: PathView| #[trigger] ct.contains_key(q) implies !w.contains(q) by {
                let i = choose|i: int| 0 <= i < entries@.len() && entries@[i].key() == q;
                assert(!within(entries@[i].key(), pv));
            }
            assert(ct =~= ct.remove_keys(w));
            assert(ct =~= delete_dir_model(t, pv).0);
        }
        *self = MemFileSystem { entries, tree: Ghost(ct) };
        Ok(())
    }
}

} // verus!
