use vstd::prelude::*;
use crate::error::ShapeError;

verus! {

/// The indices of `s` rise strictly from left to right.
pub open spec fn ascending(s: Seq<usize>) -> bool {
    forall|a: int, b: int| 0 <= a < b < s.len() ==> s[a] < s[b]
}

/// `left` and `right` split the rows `0 .. n` between them: each side is in
/// ascending order, and every row lies on exactly one side.
pub open spec fn is_partition(left: Seq<usize>, right: Seq<usize>, n: nat) -> bool {
    &&& ascending(left)
    &&& ascending(right)
    &&& left.len() + right.len() == n
    &&& forall|k: int| 0 <= k < left.len() ==> (#[trigger] left[k] as nat) < n
    &&& forall|k: int| 0 <= k < right.len() ==> (#[trigger] right[k] as nat) < n
    &&& forall|i: usize| (i as nat) < n ==> (#[trigger] left.contains(i) <==> !right.contains(i))
}

/// All rows on the left and none on the right is a partition.
pub proof fn lemma_all_left_partition(n: nat)
    requires
        n <= usize::MAX,
    ensures
        is_partition(crate::matrix::index_seq(n), Seq::<usize>::empty(), n),
{
    let l = crate::matrix::index_seq(n);
    assert forall|i: usize| (i as nat) < n implies (#[trigger] l.contains(i) <==> !Seq::<usize>::empty().contains(i)) by {
        assert(l[i as int] == i);
    }
}

/// Splits the rows of a feature column at a threshold.
///
/// Row `i` goes left when `less(feat[i], val)` answers `true`, right
/// otherwise. Both sides keep ascending row order, and every row lands on
/// exactly one side.
pub fn make_split<T: Copy, F: Fn(T, T) -> bool>(feat: &Vec<T>, val: T, less: F) -> (r: (
    Vec<usize>,
    Vec<usize>,
))
    requires
        forall|a: T, b: T| less.requires((a, b)),
    ensures
        is_partition(r.0@, r.1@, feat.len() as nat),
        forall|k: int| 0 <= k < r.0.len() ==> less.ensures((feat[#[trigger] r.0[k] as int], val), true),
        forall|k: int| 0 <= k < r.1.len() ==> less.ensures((feat[#[trigger] r.1[k] as int], val), false),
{
    let mut left: Vec<usize> = Vec::new();
    let mut right: Vec<usize> = Vec::new();
    let n = feat.len();
    let mut i: usize = 0;
    while i < n
        invariant
            n == feat.len(),
            i <= n,
            forall|a: T, b: T| less.requires((a, b)),
            ascending(left@),
            ascending(right@),
            left.len() + right.len() == i,
            forall|k: int| 0 <= k < left.len() ==> (#[trigger] left[k] as nat) < i,
            forall|k: int| 0 <= k < right.len() ==> (#[trigger] right[k] as nat) < i,
            forall|x: usize| (x as nat) < i ==> (#[trigger] left@.contains(x) <==> !right@.contains(x)),
            forall|k: int| 0 <= k < left.len() ==> less.ensures((feat[#[trigger] left[k] as int], val), true),
            forall|k: int| 0 <= k < right.len() ==> less.ensures((feat[#[trigger] right[k] as int], val), false),
        decreases n - i,
    {
        let goes_left = less(feat[i], val);
        let ghost old_left = left@;
        let ghost old_right = right@;
        if goes_left {
            left.push(i);
            assert(left@ == old_left.push(i));
            assert forall|x: usize| (x as nat) < i + 1 implies (#[trigger] left@.contains(x) <==> !right@.contains(x)) by {
                if x == i {
                    assert(left@[left.len() - 1] == i);
                    if right@.contains(x) {
                        let k = choose|k: int| 0 <= k < right.len() && right@[k] == x;
                        assert((right[k] as nat) < i);
                    }
                } else {
                    if left@.contains(x) {
                        let k = choose|k: int| 0 <= k < left.len() && left@[k] == x;
                        assert(old_left[k] == x);
                    }
                    if old_left.contains(x) {
                        let k = choose|k: int| 0 <= k < old_left.len() && old_left[k] == x;
                        assert(left@[k] == x);
                    }
                }
            }
        } else {
            right.push(i);
            assert(right@ == old_right.push(i));
            assert forall|x: usize| (x as nat) < i + 1 implies (#[trigger] left@.contains(x) <==> !right@.contains(x)) by {
                if x == i {
                    assert(right@[right.len() - 1] == i);
                    if left@.contains(x) {
                        let k = choose|k: int| 0 <= k < left.len() && left@[k] == x;
                        assert((left[k] as nat) < i);
                    }
                } else {
                    if right@.contains(x) {
                        let k = choose|k: int| 0 <= k < right.len() && right@[k] == x;
                        assert(old_right[k] == x);
                    }
                    if old_right.contains(x) {
                        let k = choose|k: int| 0 <= k < old_right.len() && old_right[k] == x;
                        assert(right@[k] == x);
                    }
                }
            }
        }
        i += 1;
    }
    (left, right)
}

/// Writes the predictions of the two sides of a split back at the rows they
/// came from, giving one value per row in row order.
///
/// `zl[k]` is the prediction for row `left[k]`, `zr[k]` the one for row
/// `right[k]`. `fill` only seeds the buffer: every row is overwritten, since
/// the two sides cover all rows. Prediction lists whose lengths differ from
/// their index lists are an error.
pub fn reassemble<T: Copy>(
    n: usize,
    fill: T,
    left: &Vec<usize>,
    zl: &Vec<T>,
    right: &Vec<usize>,
    zr: &Vec<T>,
) -> (r: Result<Vec<T>, ShapeError>)
    requires
        is_partition(left@, right@, n as nat),
    ensures
        r is Ok <==> (zl.len() == left.len() && zr.len() == right.len()),
        r matches Ok(z) ==> {
            &&& z.len() == n
            &&& forall|k: int| 0 <= k < left.len() ==> z[#[trigger] left[k] as int] == zl[k]
            &&& forall|k: int| 0 <= k < right.len() ==> z[#[trigger] right[k] as int] == zr[k]
        },
        r matches Err(e) ==> e == ShapeError::LengthMismatch,
{
    if zl.len() != left.len() || zr.len() != right.len() {
        return Err(ShapeError::LengthMismatch);
    }
    let mut z: Vec<T> = Vec::new();
    let mut i: usize = 0;
    while i < n
        invariant
            i <= n,
            z.len() == i,
        decreases n - i,
    {
        z.push(fill);
        i += 1;
    }
    let mut a: usize = 0;
    while a < left.len()
        invariant
            is_partition(left@, right@, n as nat),
            zl.len() == left.len(),
            z.len() == n,
            a <= left.len(),
            forall|k: int| 0 <= k < a ==> z[#[trigger] left[k] as int] == zl[k],
        decreases left.len() - a,
    {
        let ghost before = z@;
        z.set(left[a], zl[a]);
        assert forall|k: int| 0 <= k < a + 1 implies z[#[trigger] left[k] as int] == zl[k] by {
            if k < a {
                assert(left[k] < left[a as int]);
                assert(z@[left[k] as int] == before[left[k] as int]);
            }
        }
        a += 1;
    }
    let mut b: usize = 0;
    while b < right.len()
        invariant
            is_partition(left@, right@, n as nat),
            zl.len() == left.len(),
            zr.len() == right.len(),
            z.len() == n,
            b <= right.len(),
            forall|k: int| 0 <= k < left.len() ==> z[#[trigger] left[k] as int] == zl[k],
            forall|k: int| 0 <= k < b ==> z[#[trigger] right[k] as int] == zr[k],
        decreases right.len() - b,
    {
        let ghost before = z@;
        let pos = right[b];
        z.set(pos, zr[b]);
        assert(right@.contains(pos));
        assert forall|k: int| 0 <= k < left.len() implies z[#[trigger] left[k] as int] == zl[k] by {
            assert(left@.contains(left[k]));
            assert(left[k] != pos);
            assert(z@[left[k] as int] == before[left[k] as int]);
        }
        assert forall|k: int| 0 <= k < b + 1 implies z[#[trigger] right[k] as int] == zr[k] by {
            if k < b {
                assert(right[k] < right[b as int]);
                assert(z@[right[k] as int] == before[right[k] as int]);
            }
        }
        b += 1;
    }
    Ok(z)
}

} // verus!
