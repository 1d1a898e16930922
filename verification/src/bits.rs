//! Fixed-length bitmaps backed by `bitvec`, and the counting functions that
//! the contracts of the crate are stated with.

use bitvec::order::Lsb0;
use bitvec::vec::BitVec;
use vstd::prelude::*;

verus! {

/// A sequence of bits of fixed length. Verus does not look inside: what a
/// bitmap holds is `bits_of`, and the functions below say how each operation
/// of `bitvec` acts on it.
#[verifier::external_body]
#[derive(Debug)]
pub struct Bitmap {
    bits: BitVec<usize, Lsb0>,
}

/// The bits a bitmap holds, in index order.
pub uninterp spec fn bits_of(b: Bitmap) -> Seq<bool>;

/// The largest length `bitvec` can address: `usize::MAX` without its top three bits.
pub open spec fn max_bits() -> int {
    (usize::MAX as int) / 8
}

/// Number of set bits among the first `k` positions of `s`.
pub open spec fn count_true(s: Seq<bool>, k: int) -> nat
    decreases k,
{
    if k <= 0 {
        0
    } else {
        count_true(s, k - 1) + if s[k - 1] { 1nat } else { 0nat }
    }
}

/// Number of positions below `k` at which both `a` and `b` are set.
pub open spec fn count_both(a: Seq<bool>, b: Seq<bool>, k: int) -> nat
    decreases k,
{
    if k <= 0 {
        0
    } else {
        count_both(a, b, k - 1) + if a[k - 1] && b[k - 1] { 1nat } else { 0nat }
    }
}

/// Number of set bits of `s`.
pub open spec fn popcount(s: Seq<bool>) -> nat {
    count_true(s, s.len() as int)
}

/// No more than `k` positions below `k` are set.
pub proof fn lemma_count_true_bound(s: Seq<bool>, k: int)
    requires
        0 <= k,
    ensures
        count_true(s, k) <= k,
    decreases k,
{
    if k > 0 {
        lemma_count_true_bound(s, k - 1);
    }
}

/// What two sequences have in common, each of them has.
pub proof fn lemma_count_both_bound(a: Seq<bool>, b: Seq<bool>, k: int)
    requires
        0 <= k,
    ensures
        count_both(a, b, k) <= count_true(b, k),
        count_both(a, b, k) <= count_true(a, k),
        count_both(a, b, k) <= k,
    decreases k,
{
    if k > 0 {
        lemma_count_both_bound(a, b, k - 1);
    }
}

/// Two sequences that agree below `k` have the same count below `k`.
pub proof fn lemma_count_true_agree(s: Seq<bool>, t: Seq<bool>, k: int)
    requires
        forall|i: int| 0 <= i < k ==> s[i] == t[i],
    ensures
        count_true(s, k) == count_true(t, k),
    decreases k,
{
    if k > 0 {
        lemma_count_true_agree(s, t, k - 1);
    }
}

/// The common count below `k` depends on the positions below `k` only.
pub proof fn lemma_count_both_agree(a: Seq<bool>, b: Seq<bool>, c: Seq<bool>, k: int)
    requires
        forall|i: int| 0 <= i < k ==> b[i] == c[i],
    ensures
        count_both(a, b, k) == count_both(a, c, k),
    decreases k,
{
    if k > 0 {
        lemma_count_both_agree(a, b, c, k - 1);
    }
}

/// Writing one bit changes the count by what that bit contributes.
pub proof fn lemma_count_true_update(s: Seq<bool>, v: int, x: bool, k: int)
    requires
        0 <= v < s.len(),
        0 <= k <= s.len(),
    ensures
        count_true(s.update(v, x), k) + (if v < k && s[v] { 1int } else { 0int })
            == count_true(s, k) + (if v < k && x { 1int } else { 0int }),
    decreases k,
{
    if k > 0 {
        lemma_count_true_update(s, v, x, k - 1);
    }
}

/// Writing one bit of `b` changes the common count by what that bit contributes.
pub proof fn lemma_count_both_update(a: Seq<bool>, b: Seq<bool>, v: int, x: bool, k: int)
    requires
        0 <= v < b.len(),
        0 <= k <= b.len(),
    ensures
        count_both(a, b.update(v, x), k) + (if v < k && a[v] && b[v] { 1int } else { 0int })
            == count_both(a, b, k) + (if v < k && a[v] && x { 1int } else { 0int }),
    decreases k,
{
    if k > 0 {
        lemma_count_both_update(a, b, v, x, k - 1);
    }
}

/// A count is positive exactly when some position below `k` is set.
pub proof fn lemma_count_true_positive(s: Seq<bool>, k: int)
    ensures
        count_true(s, k) > 0 <==> exists|i: int| 0 <= i < k && s[i],
    decreases k,
{
    if k > 0 {
        lemma_count_true_positive(s, k - 1);
        if count_true(s, k) > 0 {
            if s[k - 1] {
                assert(0 <= k - 1 < k && s[k - 1]);
            } else {
                let i = choose|i: int| 0 <= i < k - 1 && s[i];
                assert(0 <= i < k && s[i]);
            }
        }
    }
}

/// Where every position below `k` is set, the count below `k` is `k`.
pub proof fn lemma_all_counted(s: Seq<bool>, k: int)
    requires
        0 <= k <= s.len(),
        forall|v: int| 0 <= v < k ==> s[v],
    ensures
        count_true(s, k) == k,
    decreases k,
{
    if k > 0 {
        lemma_all_counted(s, k - 1);
    }
}

/// A set of fewer members than positions leaves some position clear.
pub proof fn lemma_outsider_exists(s: Seq<bool>)
    requires
        popcount(s) < s.len(),
    ensures
        exists|v: int| 0 <= v < s.len() && !s[v],
{
    if forall|v: int| 0 <= v < s.len() ==> s[v] {
        lemma_all_counted(s, s.len() as int);
    }
}

/// `BitVec::repeat`: a bitmap of `len` copies of `bit`.
#[verifier::external_body]
pub(crate) fn bits_repeat(bit: bool, len: usize) -> (r: Bitmap)
    requires
        len <= max_bits(),
    ensures
        bits_of(r) == Seq::new(len as nat, |i: int| bit),
{
    Bitmap { bits: BitVec::repeat(bit, len) }
}

/// `BitVec::len`: the number of bits held.
#[verifier::external_body]
pub(crate) fn bits_len(b: &Bitmap) -> (r: usize)
    ensures
        r == bits_of(*b).len(),
{
    b.bits.len()
}

/// Indexing a `BitVec`: the bit at position `i`.
#[verifier::external_body]
pub(crate) fn bit_at(b: &Bitmap, i: usize) -> (r: bool)
    requires
        i < bits_of(*b).len(),
    ensures
        r == bits_of(*b)[i as int],
{
    b.bits[i]
}

/// `BitSlice::set`: writes one bit and leaves the others alone.
#[verifier::external_body]
pub(crate) fn set_bit(b: &mut Bitmap, i: usize, value: bool)
    requires
        i < bits_of(*old(b)).len(),
    ensures
        bits_of(*final(b)) == bits_of(*old(b)).update(i as int, value),
{
    b.bits.set(i, value);
}

/// `BitSlice::count_ones`: how many bits are set.
#[verifier::external_body]
pub(crate) fn bits_count_ones(b: &Bitmap) -> (r: usize)
    ensures
        r == popcount(bits_of(*b)),
{
    b.bits.count_ones()
}

/// `BitSlice::fill`: every bit becomes `value`; the length stays.
#[verifier::external_body]
pub(crate) fn bits_fill(b: &mut Bitmap, value: bool)
    ensures
        bits_of(*final(b)) == Seq::new(bits_of(*old(b)).len(), |i: int| value),
{
    b.bits.fill(value);
}

/// `BitSlice::iter_ones`, collected: the indices of the set bits, ascending.
#[verifier::external_body]
pub(crate) fn bits_ones(b: &Bitmap) -> (r: Vec<usize>)
    ensures
        forall|k: int| 0 <= k < r@.len() ==> r@[k] < bits_of(*b).len() && bits_of(*b)[r@[k] as int],
        forall|k: int, l: int| 0 <= k < l < r@.len() ==> r@[k] < r@[l],
        forall|i: int| 0 <= i < bits_of(*b).len() && bits_of(*b)[i] ==> r@.contains(i as usize),
{
    b.bits.iter_ones().collect()
}

/// `Clone` for `BitVec`: a bitmap holding the same bits.
#[verifier::external_body]
pub(crate) fn bits_clone(b: &Bitmap) -> (r: Bitmap)
    ensures
        bits_of(r) == bits_of(*b),
{
    Bitmap { bits: b.bits.clone() }
}

impl View for Bitmap {
    type V = Seq<bool>;

    open spec fn view(&self) -> Seq<bool> {
        bits_of(*self)
    }
}

impl Clone for Bitmap {
    fn clone(&self) -> (r: Self)
        ensures
            r@ == self@,
    {
        bits_clone(self)
    }
}

impl Bitmap {
    /// A bitmap of `len` cleared bits.
    pub fn zeros(len: usize) -> (r: Bitmap)
        requires
            len <= max_bits(),
        ensures
            r@.len() == len,
            forall|i: int| 0 <= i < len ==> !r@[i],
    {
        bits_repeat(false, len)
    }

    /// Number of bits held.
    pub fn len(&self) -> (r: usize)
        ensures
            r == self@.len(),
    {
        bits_len(self)
    }

    /// The bit at position `i`.
    pub fn get(&self, i: usize) -> (r: bool)
        requires
            i < self@.len(),
        ensures
            r == self@[i as int],
    {
        bit_at(self, i)
    }

    /// Writes the bit at position `i`.
    pub fn set(&mut self, i: usize, value: bool)
        requires
            i < old(self)@.len(),
        ensures
            final(self)@ == old(self)@.update(i as int, value),
    {
        set_bit(self, i, value)
    }

    /// Number of set bits.
    pub fn count_ones(&self) -> (r: usize)
        ensures
            r == popcount(self@),
    {
        bits_count_ones(self)
    }

    /// The positions of the set bits, ascending.
    pub fn ones(&self) -> (r: Vec<usize>)
        ensures
            forall|k: int| 0 <= k < r@.len() ==> r@[k] < self@.len() && self@[r@[k] as int],
            forall|k: int, l: int| 0 <= k < l < r@.len() ==> r@[k] < r@[l],
            forall|i: int| 0 <= i < self@.len() && self@[i] ==> r@.contains(i as usize),
    {
        bits_ones(self)
    }
}

} // verus!
