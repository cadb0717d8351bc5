//! A sparse cellular automaton on the unbounded integer lattice in three and
//! four dimensions, with the Moore neighbourhood and the rule "an active cell
//! stays active with two or three active neighbours; any cell with exactly
//! three active neighbours becomes active".
use vstd::prelude::*;

pub mod space3;
pub mod space4;

pub use space3::{get_3d_neigbour_coords, Coord3, ThreeSpace};
pub use space4::{get_4d_neigbour_coords, Coord4, FourSpace};

verus! {

/// Whether `active` stays or becomes active given its number of active
/// neighbours.
pub open spec fn survives(active: bool, count: nat) -> bool {
    (active && count == 2) || count == 3
}

/// The characters of each row.
pub open spec fn text_rows(rows: Seq<&str>) -> Seq<Seq<char>> {
    rows.map_values(|r: &str| r@)
}

/// Every row, and the number of rows, can be indexed by an `i64`.
pub open spec fn rows_fit(rows: Seq<&str>) -> bool {
    &&& rows.len() <= i64::MAX
    &&& forall|i: int| 0 <= i < rows.len() ==> (#[trigger] rows[i])@.len() <= i64::MAX
}

/// The first `j + 1` items of `s` hold what the first `j` hold, and `s[j]`.
pub(crate) proof fn lemma_prefix_push<A>(s: Seq<A>, j: int)
    requires
        0 <= j < s.len(),
    ensures
        forall|m: A| #[trigger] s.subrange(0, j + 1).contains(m) <==> (s.subrange(0, j).contains(m)
            || m == s[j]),
{
    let pre = s.subrange(0, j);
    let post = s.subrange(0, j + 1);
    assert forall|m: A| post.contains(m) <==> (pre.contains(m) || m == s[j]) by {
        if post.contains(m) && m != s[j] {
            let k = choose|k: int| 0 <= k < post.len() && post[k] == m;
            assert(pre[k] == m);
        }
        if pre.contains(m) {
            let k = choose|k: int| 0 <= k < pre.len() && pre[k] == m;
            assert(post[k] == m);
        }
        if m == s[j] {
            assert(post[j] == m);
        }
    }
}

} // verus!
