//! Byte-buffer primitives: fill, copy and compare.
use vstd::prelude::*;

verus! {

/// The result of comparing `a` and `b` byte by byte from index `i` up to `n`:
/// the difference of the first pair of bytes that differ, or zero.
pub open spec fn compare_from(a: Seq<u8>, b: Seq<u8>, i: int, n: int) -> int
    decreases n - i,
{
    if i >= n {
        0
    } else if a[i] != b[i] {
        a[i] - b[i]
    } else {
        compare_from(a, b, i + 1, n)
    }
}

/// Sets the first `count` bytes of `dest` to `value` truncated to a byte.
pub fn memset(dest: &mut [u8], value: i32, count: usize)
    requires
        count <= old(dest)@.len(),
    ensures
        final(dest)@.len() == old(dest)@.len(),
        forall|i: int| 0 <= i < count ==> final(dest)@[i] == value as u8,
        forall|i: int| count <= i < old(dest)@.len() ==> final(dest)@[i] == old(dest)@[i],
{
    let byte = value as u8;
    let mut i: usize = 0;
    while i < count
        invariant
            i <= count,
            count <= old(dest)@.len(),
            dest@.len() == old(dest)@.len(),
            byte == value as u8,
            forall|j: int| 0 <= j < i ==> dest@[j] == byte,
            forall|j: int| i <= j < old(dest)@.len() ==> dest@[j] == old(dest)@[j],
        decreases count - i,
    {
        dest[i] = byte;
        i += 1;
    }
}

/// Copies the first `count` bytes of `src` into `dest`.
pub fn memcpy(dest: &mut [u8], src: &[u8], count: usize)
    requires
        count <= old(dest)@.len(),
        count <= src@.len(),
    ensures
        final(dest)@.len() == old(dest)@.len(),
        forall|i: int| 0 <= i < count ==> final(dest)@[i] == src@[i],
        forall|i: int| count <= i < old(dest)@.len() ==> final(dest)@[i] == old(dest)@[i],
{
    let mut i: usize = 0;
    while i < count
        invariant
            i <= count,
            count <= old(dest)@.len(),
            count <= src@.len(),
            dest@.len() == old(dest)@.len(),
            forall|j: int| 0 <= j < i ==> dest@[j] == src@[j],
            forall|j: int| i <= j < old(dest)@.len() ==> dest@[j] == old(dest)@[j],
        decreases count - i,
    {
        dest[i] = src[i];
        i += 1;
    }
}

/// `compare_from` over the window `[start, count)`, with machine-sized bounds.
pub open spec fn compare_window(a: Seq<u8>, b: Seq<u8>, start: usize, count: usize) -> int {
    compare_from(a, b, start as int, count as int)
}

/// The signed difference of two bytes.
fn byte_difference(x: u8, y: u8) -> (d: i32)
    ensures
        d == x - y,
{
    x as i32 - y as i32
}

/// Compares the first `count` bytes of `a` and `b`: the difference
/// `a[k] - b[k]` at the first index `k` where they differ, or zero.
pub fn memcmp(a: &[u8], b: &[u8], count: usize) -> (result: i32)
    requires
        count <= a@.len(),
        count <= b@.len(),
    ensures
        result == compare_window(a@, b@, 0, count),
{
    let mut i: usize = 0;
    while i < count
        invariant
            i <= count,
            count <= a@.len(),
            count <= b@.len(),
            compare_window(a@, b@, 0, count) == compare_window(a@, b@, i, count),
        decreases count - i,
    {
        let x = a[i];
        let y = b[i];
        if x != y {
            return byte_difference(x, y);
        }
        i += 1;
    }
    0
}

/// A buffer always compares equal to itself.
pub proof fn lemma_compare_reflexive(a: Seq<u8>, i: int, n: int)
    ensures
        compare_from(a, a, i, n) == 0,
    decreases n - i,
{
    if i < n {
        lemma_compare_reflexive(a, i + 1, n);
    }
}

/// Swapping the two buffers negates the comparison.
pub proof fn lemma_compare_antisymmetric(a: Seq<u8>, b: Seq<u8>, i: int, n: int)
    ensures
        compare_from(a, b, i, n) == -compare_from(b, a, i, n),
    decreases n - i,
{
    if i < n && a[i] == b[i] {
        lemma_compare_antisymmetric(a, b, i + 1, n);
    }
}

/// Two buffers compare as zero over a window exactly when they agree on
/// every byte of it; in particular `memcmp` of what `memcpy` just copied is
/// zero.
pub proof fn lemma_compare_zero_iff_equal(a: Seq<u8>, b: Seq<u8>, i: int, n: int)
    ensures
        compare_from(a, b, i, n) == 0 <==> forall|j: int| i <= j < n ==> a[j] == b[j],
    decreases n - i,
{
    if i < n {
        lemma_compare_zero_iff_equal(a, b, i + 1, n);
        if a[i] == b[i] {
            assert forall|j: int| i <= j < n && (forall|k: int| i + 1 <= k < n ==> a[k] == b[k])
                implies a[j] == b[j] by {
                if j > i {
                    assert(i + 1 <= j < n);
                }
            }
        }
    }
}

/// Whether two byte strings are the same.
pub(crate) fn bytes_equal(a: &[u8], b: &[u8]) -> (same: bool)
    ensures
        same == (a@ == b@),
{
    if a.len() != b.len() {
        return false;
    }
    let mut i: usize = 0;
    while i < a.len()
        invariant
            a@.len() == b@.len(),
            i <= a@.len(),
            forall|j: int| 0 <= j < i ==> a@[j] == b@[j],
        decreases a@.len() - i,
    {
        if a[i] != b[i] {
            return false;
        }
        i += 1;
    }
    assert(a@ =~= b@);
    true
}

/// Comparing from `i` reaches the first index `k` where the buffers differ
/// and answers the difference there.
pub proof fn lemma_compare_first_difference(a: Seq<u8>, b: Seq<u8>, i: int, n: int, k: int)
    requires
        i <= k < n,
        a[k] != b[k],
        forall|j: int| i <= j < k ==> a[j] == b[j],
    ensures
        compare_from(a, b, i, n) == a[k] - b[k],
    decreases k - i,
{
    if i < k {
        assert(a[i] == b[i]);
        lemma_compare_first_difference(a, b, i + 1, n, k);
    }
}

/// What `memcmp` over `count` bytes answers: zero exactly when the two
/// buffers agree on every byte below `count`; otherwise `a[k] - b[k]` at the
/// first index `k` below `count` where they differ.
pub proof fn lemma_compare_window_meaning(a: Seq<u8>, b: Seq<u8>, count: usize)
    ensures
        compare_window(a, b, 0, count) == 0 <==> forall|j: int| 0 <= j < count ==> a[j] == b[j],
        forall|k: int|
            #![trigger a[k], b[k]]
            0 <= k < count && a[k] != b[k] && (forall|j: int| 0 <= j < k ==> a[j] == b[j])
                ==> compare_window(a, b, 0, count) == a[k] - b[k],
{
    lemma_compare_zero_iff_equal(a, b, 0, count as int);
    assert forall|k: int|
        #![trigger a[k], b[k]]
        0 <= k < count && a[k] != b[k] && (forall|j: int| 0 <= j < k ==> a[j] == b[j])
            implies compare_window(a, b, 0, count) == a[k] - b[k] by {
        lemma_compare_first_difference(a, b, 0, count as int, k);
    }
}

} // verus!
