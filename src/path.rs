//! Splitting a textual path into its segments.
use vstd::prelude::*;
use vstd::string::StringSliceAdditionalSpecFns;

verus! {

/// The byte that separates the segments of a path.
pub const SEPARATOR: u8 = 0x2f;

/// A path seen as the sequence of its segments, each a sequence of bytes.
pub type PathView = Seq<Seq<u8>>;

/// Scans `b` from the left: the segments completed so far, and the bytes of
/// the segment still open at the end.
pub open spec fn scan(b: Seq<u8>) -> (PathView, Seq<u8>)
    decreases b.len(),
{
    if b.len() == 0 {
        (Seq::empty(), Seq::empty())
    } else {
        let (done, open) = scan(b.drop_last());
        if b.last() == SEPARATOR {
            (if open.len() > 0 { done.push(open) } else { done }, Seq::empty())
        } else {
            (done, open.push(b.last()))
        }
    }
}

/// The segments of a path: the non-empty runs of bytes between separators.
/// Repeated, leading and trailing separators add no segment.
pub open spec fn segments(b: Seq<u8>) -> PathView {
    let (done, open) = scan(b);
    if open.len() > 0 {
        done.push(open)
    } else {
        done
    }
}

/// The segments of a textual path, taken over its UTF-8 bytes.
pub open spec fn path_of(path: &str) -> PathView {
    segments(path.spec_bytes())
}

/// The view of an owned path: each segment's bytes.
pub open spec fn owned_view(p: Seq<Vec<u8>>) -> PathView {
    p.map_values(|s: Vec<u8>| s@)
}

/// Splits `path` into its segments.
pub fn split_path(path: &str) -> (r: Vec<Vec<u8>>)
    ensures
        owned_view(r@) == path_of(path),
{
    let b = path.as_bytes();
    let mut done: Vec<Vec<u8>> = Vec::new();
    let mut open: Vec<u8> = Vec::new();
    let mut i: usize = 0;
    while i < b.len()
        invariant
            i <= b@.len(),
            b@ == path.spec_bytes(),
            (owned_view(done@), open@) == scan(b@.take(i as int)),
        decreases b@.len() - i,
    {
        let c = b[i];
        proof {
            assert(b@.take(i + 1).drop_last() =~= b@.take(i as int));
        }
        if c == SEPARATOR {
            if open.len() > 0 {
                let mut seg: Vec<u8> = Vec::new();
                std::mem::swap(&mut seg, &mut open);
                proof {
                    assert(owned_view(done@).push(seg@) =~= owned_view(done@.push(seg)));
                }
                done.push(seg);
            }
        } else {
            open.push(c);
        }
        i = i + 1;
    }
    assert(b@.take(b@.len() as int) =~= b@);
    if open.len() > 0 {
        proof {
            assert(owned_view(done@).push(open@) =~= owned_view(done@.push(open)));
        }
        done.push(open);
    }
    done
}

} // verus!
