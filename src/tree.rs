//! The meaning of the file system operations, stated over a map from paths
//! to nodes, and the laws that follow from it.
use vstd::prelude::*;

use crate::file_system::FsError;
use crate::path::PathView;

verus! {

/// What a path names: a directory, or a file with its bytes.
pub enum NodeView {
    Dir,
    File(Seq<u8>),
}

/// A file system: each existing path (other than the root) and its node.
pub type TreeView = Map<PathView, NodeView>;

/// `q` is `p` itself or lies somewhere inside it.
pub open spec fn within(q: PathView, p: PathView) -> bool {
    p.len() <= q.len() && q.take(p.len() as int) == p
}

/// `q` is one of the non-root paths on the way to `p`, `p` included.
pub open spec fn along(q: PathView, p: PathView) -> bool {
    1 <= q.len() <= p.len() && p.take(q.len() as int) == q
}

pub open spec fn is_dir(t: TreeView, p: PathView) -> bool {
    t.contains_key(p) && t[p] is Dir
}

pub open spec fn is_file(t: TreeView, p: PathView) -> bool {
    t.contains_key(p) && t[p] is File
}

/// The root is not stored, and every ancestor of a stored path is a stored
/// directory.
pub open spec fn tree_wf(t: TreeView) -> bool {
    forall|q: PathView| #[trigger]
        t.contains_key(q) ==> q.len() > 0 && forall|k: int|
            1 <= k < q.len() ==> is_dir(t, #[trigger] q.take(k))
}

/// Some proper ancestor of `p` is a file.
pub open spec fn file_on_route(t: TreeView, p: PathView) -> bool {
    exists|k: int| 1 <= k < p.len() && is_file(t, #[trigger] p.take(k))
}

/// Some proper ancestor of `p` does not exist.
pub open spec fn gap_on_route(t: TreeView, p: PathView) -> bool {
    exists|k: int| 1 <= k < p.len() && !t.contains_key(#[trigger] p.take(k))
}

/// The error met on the way to `p`, if any.
pub open spec fn route_error(t: TreeView, p: PathView) -> Option<FsError> {
    if file_on_route(t, p) {
        Some(FsError::NotADirectory)
    } else if gap_on_route(t, p) {
        Some(FsError::NotFound)
    } else {
        None
    }
}

/// What an operation on an existing file finds at `p`: its bytes, or the
/// reason why there is no file there.
pub open spec fn find_file(t: TreeView, p: PathView) -> Result<Seq<u8>, FsError> {
    if p.len() == 0 {
        Err(FsError::IsADirectory)
    } else if route_error(t, p) is Some {
        Err(route_error(t, p)->Some_0)
    } else if !t.contains_key(p) {
        Err(FsError::NotFound)
    } else {
        match t[p] {
            NodeView::Dir => Err(FsError::IsADirectory),
            NodeView::File(b) => Ok(b),
        }
    }
}

/// Creating a file: it then holds exactly `c`, replacing an earlier file.
pub open spec fn create_file_model(t: TreeView, p: PathView, c: Seq<u8>) -> (
    TreeView,
    Result<(), FsError>,
) {
    if p.len() == 0 {
        (t, Err(FsError::IsADirectory))
    } else if route_error(t, p) is Some {
        (t, Err(route_error(t, p)->Some_0))
    } else if is_dir(t, p) {
        (t, Err(FsError::IsADirectory))
    } else {
        (t.insert(p, NodeView::File(c)), Ok(()))
    }
}

/// Creating a directory: every path along the way becomes a directory.
pub open spec fn create_dir_model(t: TreeView, p: PathView) -> (TreeView, Result<(), FsError>) {
    if file_on_route(t, p) {
        (t, Err(FsError::NotADirectory))
    } else if is_file(t, p) {
        (t, Err(FsError::AlreadyExists))
    } else {
        (t.union_prefer_right(Map::new(|q: PathView| along(q, p), |q: PathView| NodeView::Dir)), Ok(()))
    }
}

/// Appending to a file: its bytes become the old ones followed by `c`.
pub open spec fn write_file_model(t: TreeView, p: PathView, c: Seq<u8>) -> (
    TreeView,
    Result<(), FsError>,
) {
    match find_file(t, p) {
        Ok(b) => (t.insert(p, NodeView::File(b + c)), Ok(())),
        Err(e) => (t, Err(e)),
    }
}

/// Reading a file: its bytes.
pub open spec fn read_file_model(t: TreeView, p: PathView) -> Result<Seq<u8>, FsError> {
    find_file(t, p)
}

/// Deleting a file.
pub open spec fn delete_file_model(t: TreeView, p: PathView) -> (TreeView, Result<(), FsError>) {
    match find_file(t, p) {
        Ok(_) => (t.remove(p), Ok(())),
        Err(e) => (t, Err(e)),
    }
}

/// Deleting a directory: it goes, with everything inside it. The root stays.
pub open spec fn delete_dir_model(t: TreeView, p: PathView) -> (TreeView, Result<(), FsError>) {
    if p.len() == 0 {
        (t, Err(FsError::PermissionDenied))
    } else if route_error(t, p) is Some {
        (t, Err(route_error(t, p)->Some_0))
    } else if !t.contains_key(p) {
        (t, Err(FsError::NotFound))
    } else if is_file(t, p) {
        (t, Err(FsError::NotADirectory))
    } else {
        (t.remove_keys(Set::new(|q: PathView| within(q, p))), Ok(()))
    }
}

/// Taking `k` segments of the first `j` segments is taking `k` segments.
pub proof fn lemma_take_take(p: PathView, j: int, k: int)
    requires
        0 <= k <= j <= p.len(),
    ensures
        p.take(j).take(k) == p.take(k),
{
    assert(p.take(j).take(k) =~= p.take(k));
}

/// A path inside a path inside `p` is inside `p`.
pub proof fn lemma_within_ancestor(q: PathView, k: int, p: PathView)
    requires
        0 <= k <= q.len(),
        within(q.take(k), p),
    ensures
        within(q, p),
{
    lemma_take_take(q, k, p.len() as int);
}

/// Every operation keeps a well-formed tree well formed.
pub proof fn lemma_operations_keep_wf(t: TreeView, p: PathView, c: Seq<u8>)
    requires
        tree_wf(t),
    ensures
        tree_wf(create_file_model(t, p, c).0),
        tree_wf(create_dir_model(t, p).0),
        tree_wf(write_file_model(t, p, c).0),
        tree_wf(delete_file_model(t, p).0),
        tree_wf(delete_dir_model(t, p).0),
{
    let t1 = create_file_model(t, p, c).0;
    if create_file_model(t, p, c).1 is Ok {
        assert forall|q: PathView| #[trigger] t1.contains_key(q) implies q.len() > 0 && forall|k: int|
            1 <= k < q.len() ==> is_dir(t1, #[trigger] q.take(k)) by {
            assert forall|k: int| 1 <= k < q.len() implies is_dir(t1, #[trigger] q.take(k)) by {
                assert(q.take(k).len() == k);
                if q == p {
                    assert(t.contains_key(p.take(k)));
                    assert(!is_file(t, p.take(k)));
                }
            }
        }
    }
    let t2 = create_dir_model(t, p).0;
    if create_dir_model(t, p).1 is Ok {
        assert forall|q: PathView| #[trigger] t2.contains_key(q) implies q.len() > 0 && forall|k: int|
            1 <= k < q.len() ==> is_dir(t2, #[trigger] q.take(k)) by {
            assert forall|k: int| 1 <= k < q.len() implies is_dir(t2, #[trigger] q.take(k)) by {
                if along(q, p) {
                    lemma_take_take(p, q.len() as int, k);
                    assert(along(q.take(k), p));
                }
            }
        }
    }
    let t3 = write_file_model(t, p, c).0;
    if write_file_model(t, p, c).1 is Ok {
        assert forall|q: PathView| #[trigger] t3.contains_key(q) implies q.len() > 0 && forall|k: int|
            1 <= k < q.len() ==> is_dir(t3, #[trigger] q.take(k)) by {
            assert forall|k: int| 1 <= k < q.len() implies is_dir(t3, #[trigger] q.take(k)) by {
                assert(t.contains_key(q));
                assert(is_dir(t, q.take(k)));
            }
        }
    }
    let t4 = delete_file_model(t, p).0;
    if delete_file_model(t, p).1 is Ok {
        assert forall|q: PathView| #[trigger] t4.contains_key(q) implies q.len() > 0 && forall|k: int|
            1 <= k < q.len() ==> is_dir(t4, #[trigger] q.take(k)) by {
            assert forall|k: int| 1 <= k < q.len() implies is_dir(t4, #[trigger] q.take(k)) by {
                assert(t.contains_key(q));
                assert(is_dir(t, q.take(k)));
            }
        }
    }
    let t5 = delete_dir_model(t, p).0;
    if delete_dir_model(t, p).1 is Ok {
        assert forall|q: PathView| #[trigger] t5.contains_key(q) implies q.len() > 0 && forall|k: int|
            1 <= k < q.len() ==> is_dir(t5, #[trigger] q.take(k)) by {
            assert forall|k: int| 1 <= k < q.len() implies is_dir(t5, #[trigger] q.take(k)) by {
                assert(t.contains_key(q));
                assert(!within(q, p));
                assert(is_dir(t, q.take(k)));
                if within(q.take(k), p) {
                    lemma_within_ancestor(q, k, p);
                }
            }
        }
    }
}

/// Creating a file with `a`, then appending `b` to it, then reading it gives
/// `a` followed by `b`.
pub proof fn lemma_create_append_read(t: TreeView, p: PathView, a: Seq<u8>, b: Seq<u8>)
    requires
        create_file_model(t, p, a).1 is Ok,
    ensures
        write_file_model(create_file_model(t, p, a).0, p, b).1 is Ok,
        read_file_model(write_file_model(create_file_model(t, p, a).0, p, b).0, p) == Ok::<
            Seq<u8>,
            FsError,
        >(a + b),
{
    let t1 = create_file_model(t, p, a).0;
    assert(route_error(t1, p) == route_error(t, p)) by {
        assert forall|k: int| 1 <= k < p.len() implies (t1.contains_key(#[trigger] p.take(k))
            == t.contains_key(p.take(k)) && (t.contains_key(p.take(k)) ==> t1[p.take(k)] == t[p.take(k)])) by {
            assert(p.take(k).len() != p.len());
        }
    }
    let t2 = write_file_model(t1, p, b).0;
    assert(route_error(t2, p) == route_error(t1, p)) by {
        assert forall|k: int| 1 <= k < p.len() implies (t2.contains_key(#[trigger] p.take(k))
            == t1.contains_key(p.take(k)) && (t1.contains_key(p.take(k)) ==> t2[p.take(k)] == t1[p.take(k)])) by {
            assert(p.take(k).len() != p.len());
        }
    }
}

/// Reading a file that does not exist fails with `NotFound`, unless the way
/// to it runs through a file.
pub proof fn lemma_read_missing(t: TreeView, p: PathView)
    requires
        p.len() > 0,
        !t.contains_key(p),
        !file_on_route(t, p),
    ensures
        read_file_model(t, p) == Err::<Seq<u8>, FsError>(FsError::NotFound),
{
}

/// Creating a directory succeeds when no file stands on the way, and then
/// every path along the way is a directory.
pub proof fn lemma_create_dir_makes_ancestors(t: TreeView, p: PathView)
    requires
        !file_on_route(t, p),
        !is_file(t, p),
    ensures
        create_dir_model(t, p).1 is Ok,
        forall|k: int| 1 <= k <= p.len() ==> is_dir(create_dir_model(t, p).0, #[trigger] p.take(k)),
{
    assert forall|k: int| 1 <= k <= p.len() implies is_dir(create_dir_model(t, p).0, #[trigger] p.take(k)) by {
        assert(along(p.take(k), p));
    }
}

/// Deleting a directory removes it and everything inside it: reading any
/// path inside it afterwards fails with `NotFound`.
pub proof fn lemma_delete_dir_removes_contents(t: TreeView, p: PathView, q: PathView)
    requires
        tree_wf(t),
        p.len() > 0,
        is_dir(t, p),
        within(q, p),
    ensures
        delete_dir_model(t, p).1 is Ok,
        !delete_dir_model(t, p).0.contains_key(q),
        read_file_model(delete_dir_model(t, p).0, q) == Err::<Seq<u8>, FsError>(FsError::NotFound),
{
    let t1 = delete_dir_model(t, p).0;
    assert forall|k: int| 1 <= k < p.len() implies is_dir(t, #[trigger] p.take(k)) by {
        assert(t.contains_key(p));
    }
    assert(!file_on_route(t, p));
    assert(!gap_on_route(t, p));
    assert forall|k: int| 1 <= k < q.len() implies !is_file(t1, #[trigger] q.take(k)) by {
        if k < p.len() {
            lemma_take_take(q, p.len() as int, k);
            assert(is_dir(t, p.take(k)));
            assert(!within(p.take(k), p));
        } else {
            lemma_take_take(q, k, p.len() as int);
            assert(within(q.take(k), p));
        }
    }
    if q.len() > p.len() {
        let k = p.len() as int;
        assert(q.take(k) == p);
        assert(p.take(k) =~= p);
        assert(!t1.contains_key(q.take(k)));
        assert(gap_on_route(t1, q));
    } else {
        assert(q =~= p);
    }
}

/// Deleting a file that does not exist fails and changes nothing.
pub proof fn lemma_delete_missing_file(t: TreeView, p: PathView)
    requires
        !t.contains_key(p),
    ensures
        delete_file_model(t, p).1 is Err,
        delete_file_model(t, p).0 == t,
{
}

/// Appending to a file that does not exist fails with `NotFound` (unless the
/// way to it runs through a file) and changes nothing.
pub proof fn lemma_append_missing(t: TreeView, p: PathView, c: Seq<u8>)
    requires
        p.len() > 0,
        !t.contains_key(p),
        !file_on_route(t, p),
    ensures
        write_file_model(t, p, c) == (t, Err::<(), FsError>(FsError::NotFound)),
{
}

} // verus!
