//! Allocation bitmaps: one bit per allocatable unit, set while the unit is in use.
use vstd::prelude::*;
use vstd::arithmetic::div_mod::lemma_fundamental_div_mod_converse;

verus! {

/// Bits that one bitmap block holds.
pub const BLOCK_BITS: usize = 4096;

/// 64-bit words that one bitmap block holds.
pub const WORDS_PER_BLOCK: usize = 64;

/// Whether bit `b` of word `w` is set.
pub open spec fn word_bit(w: u64, b: int) -> bool {
    (w >> (b as u64)) & 1u64 == 1u64
}

/// What `alloc_bit` does to bits `b0`, giving `r` and bits `b1`: it hands
/// out the lowest clear bit and sets it, or reports that none is clear.
pub open spec fn alloc_result(b0: Seq<bool>, r: Option<usize>, b1: Seq<bool>) -> bool {
    match r {
        Some(i) => {
            &&& i < b0.len()
            &&& !b0[i as int]
            &&& forall|j: int| 0 <= j < i ==> b0[j]
            &&& b1 == b0.update(i as int, true)
        },
        None => {
            &&& forall|j: int| 0 <= j < b0.len() ==> b0[j]
            &&& b1 == b0
        },
    }
}

/// An allocated index is never handed out again while it stays allocated:
/// `alloc_bit` never returns a set bit, and every set bit is still set after it.
pub proof fn law_alloc_exclusive(b0: Seq<bool>, r: Option<usize>, b1: Seq<bool>, i: int)
    requires
        alloc_result(b0, r, b1),
        0 <= i < b0.len(),
        b0[i],
    ensures
        r.is_some() ==> r.unwrap() as int != i,
        b1[i],
{
}

/// Freeing index `x` clears it and leaves every other bit as it was, so an
/// allocated index stays allocated until it is itself freed.
pub proof fn law_dealloc_keeps_others(b0: Seq<bool>, x: int, i: int)
    requires
        0 <= x < b0.len(),
        0 <= i < b0.len(),
        i != x,
    ensures
        b0.update(x, false)[i] == b0[i],
        !b0.update(x, false)[x],
{
}

/// Number of clear bits in `b`.
pub open spec fn free_count(b: Seq<bool>) -> nat
    decreases b.len(),
{
    if b.len() == 0 {
        0
    } else {
        free_count(b.drop_last()) + (if b.last() { 0nat } else { 1nat })
    }
}

/// With every bit set, none is free.
pub proof fn lemma_free_count_full(b: Seq<bool>)
    requires
        forall|j: int| 0 <= j < b.len() ==> b[j],
    ensures
        free_count(b) == 0,
    decreases b.len(),
{
    if b.len() > 0 {
        lemma_free_count_full(b.drop_last());
    }
}

/// With every bit clear, all are free.
pub proof fn lemma_free_count_empty(b: Seq<bool>)
    requires
        forall|j: int| 0 <= j < b.len() ==> !b[j],
    ensures
        free_count(b) == b.len(),
    decreases b.len(),
{
    if b.len() > 0 {
        lemma_free_count_empty(b.drop_last());
    }
}

/// Setting a clear bit takes one from the free count.
pub proof fn lemma_free_count_set(b: Seq<bool>, i: int)
    requires
        0 <= i < b.len(),
        !b[i],
    ensures
        free_count(b.update(i, true)) + 1 == free_count(b),
    decreases b.len(),
{
    let u = b.update(i, true);
    if i == b.len() - 1 {
        assert(u.drop_last() =~= b.drop_last());
    } else {
        assert(u.drop_last() =~= b.drop_last().update(i, true));
        lemma_free_count_set(b.drop_last(), i);
    }
}

/// One call on a bitmap: `alloc_bit` with what it returned, or `dealloc_bit` of an index.
pub enum BitOp {
    Alloc(Option<usize>),
    Dealloc(usize),
}

/// Call `op` took bits `b0` to bits `b1`, as the calls' contracts say.
pub open spec fn bit_step(b0: Seq<bool>, op: BitOp, b1: Seq<bool>) -> bool {
    match op {
        BitOp::Alloc(r) => alloc_result(b0, r, b1),
        BitOp::Dealloc(x) => x < b0.len() && b0[x as int] && b1 == b0.update(x as int, false),
    }
}

/// `states[k + 1]` follows from `states[k]` by call `ops[k]`, for every `k`.
pub open spec fn bit_run(states: Seq<Seq<bool>>, ops: Seq<BitOp>) -> bool {
    &&& states.len() == ops.len() + 1
    &&& forall|k: int| 0 <= k < ops.len() ==> bit_step(states[k], #[trigger] ops[k], states[k + 1])
}

proof fn lemma_stays_allocated(states: Seq<Seq<bool>>, ops: Seq<BitOp>, i: int, k: int, x: usize)
    requires
        bit_run(states, ops),
        0 <= i < k <= ops.len(),
        ops[i] == BitOp::Alloc(Some(x)),
        forall|m: int| i < m < k ==> #[trigger] ops[m] != BitOp::Dealloc(x),
    ensures
        x < states[k].len(),
        states[k][x as int],
    decreases k - i,
{
    assert(bit_step(states[k - 1], ops[k - 1], states[k]));
    if k - 1 > i {
        lemma_stays_allocated(states, ops, i, k - 1, x);
        match ops[k - 1] {
            BitOp::Alloc(r) => {
                if r.is_some() {
                    assert(r.unwrap() != x);
                }
            },
            BitOp::Dealloc(y) => {
                assert(y != x);
            },
        }
    }
}

/// Along any run of calls, an index that `alloc_bit` handed out is not handed
/// out again until a `dealloc_bit` of that index comes between.
pub proof fn law_alloc_exclusive_run(states: Seq<Seq<bool>>, ops: Seq<BitOp>, i: int, j: int, x: usize)
    requires
        bit_run(states, ops),
        0 <= i < j < ops.len(),
        ops[i] == BitOp::Alloc(Some(x)),
        ops[j] == BitOp::Alloc(Some(x)),
    ensures
        exists|m: int| i < m < j && #[trigger] ops[m] == BitOp::Dealloc(x),
{
    if !(exists|m: int| i < m < j && #[trigger] ops[m] == BitOp::Dealloc(x)) {
        lemma_stays_allocated(states, ops, i, j, x);
        assert(bit_step(states[j], ops[j], states[j + 1]));
    }
}

/// A bitmap of `blocks * BLOCK_BITS` bits. Bit `i` lives in word `i / 64`, at
/// position `i % 64`; word `k` belongs to bitmap block `k / 64`.
pub struct Bitmap {
    words: Vec<u64>,
}

impl View for Bitmap {
    type V = Seq<bool>;

    closed spec fn view(&self) -> Seq<bool> {
        Seq::new((self.words@.len() * 64) as nat, |i: int| word_bit(self.words@[i / 64], i % 64))
    }
}

proof fn lemma_set_bit(w: u64, b: u64, j: u64)
    requires
        b < 64,
        j < 64,
    ensures
        ((w | (1u64 << b)) >> j) & 1u64 == (if j == b { 1u64 } else { (w >> j) & 1u64 }),
{
    assert(((w | (1u64 << b)) >> j) & 1u64 == (if j == b { 1u64 } else { (w >> j) & 1u64 }))
        by (bit_vector)
        requires
            b < 64,
            j < 64,
    ;
}

proof fn lemma_clear_bit(w: u64, b: u64, j: u64)
    requires
        b < 64,
        j < 64,
    ensures
        ((w & !(1u64 << b)) >> j) & 1u64 == (if j == b { 0u64 } else { (w >> j) & 1u64 }),
{
    assert(((w & !(1u64 << b)) >> j) & 1u64 == (if j == b { 0u64 } else { (w >> j) & 1u64 }))
        by (bit_vector)
        requires
            b < 64,
            j < 64,
    ;
}

proof fn lemma_zero_word(j: u64)
    requires
        j < 64,
    ensures
        (0u64 >> j) & 1u64 == 0u64,
{
    assert((0u64 >> j) & 1u64 == 0u64) by (bit_vector);
}

proof fn lemma_bit_position(k: int, b: int)
    requires
        0 <= b < 64,
    ensures
        (k * 64 + b) / 64 == k,
        (k * 64 + b) % 64 == b,
{
    lemma_fundamental_div_mod_converse(k * 64 + b, 64, k, b);
}

impl Bitmap {
    /// A bitmap of `blocks` bitmap blocks, every bit clear.
    pub fn new(blocks: usize) -> (r: Bitmap)
        requires
            blocks * BLOCK_BITS <= usize::MAX,
        ensures
            r@.len() == blocks * BLOCK_BITS,
            forall|i: int| 0 <= i < r@.len() ==> !r@[i],
    {
        let n = blocks * WORDS_PER_BLOCK;
        let mut words: Vec<u64> = Vec::new();
        while words.len() < n
            invariant
                words@.len() <= n,
                n == blocks * 64,
                forall|k: int| 0 <= k < words@.len() ==> words@[k] == 0u64,
            decreases n - words@.len(),
        {
            words.push(0u64);
        }
        let r = Bitmap { words };
        assert forall|i: int| 0 <= i < r@.len() implies !r@[i] by {
            assert(0 <= i / 64 < words@.len());
            lemma_zero_word((i % 64) as u64);
        }
        r
    }

    /// Number of bits, the largest index plus one.
    pub fn maximum(&self) -> (r: usize)
        requires
            self@.len() <= usize::MAX,
        ensures
            r == self@.len(),
    {
        self.words.len() * 64
    }

    /// Whether bit `index` is set.
    pub fn is_allocated(&self, index: usize) -> (r: bool)
        requires
            index < self@.len(),
        ensures
            r == self@[index as int],
    {
        let w = self.words[index / 64];
        (w >> ((index % 64) as u64)) & 1u64 == 1u64
    }

    /// Allocates the lowest clear bit: sets it and returns its index, or `None`
    /// when every bit is set.
    pub fn alloc_bit(&mut self) -> (r: Option<usize>)
        requires
            old(self)@.len() <= usize::MAX,
        ensures
            final(self)@.len() == old(self)@.len(),
            alloc_result(old(self)@, r, final(self)@),
    {
        let ghost bits = self@;
        let mut k: usize = 0;
        while k < self.words.len()
            invariant
                self@ == bits,
                bits == old(self)@,
                bits.len() <= usize::MAX,
                k <= self.words@.len(),
                forall|j: int| 0 <= j < k * 64 ==> bits[j],
            decreases self.words@.len() - k,
        {
            let w = self.words[k];
            let mut b: u64 = 0;
            while b < 64
                invariant
                    self@ == bits,
                    bits == old(self)@,
                    bits.len() <= usize::MAX,
                    k < self.words@.len(),
                    w == self.words@[k as int],
                    b <= 64,
                    forall|j: int| 0 <= j < k * 64 + b ==> bits[j],
                decreases 64 - b,
            {
                proof {
                    lemma_bit_position(k as int, b as int);
                }
                if (w >> b) & 1u64 == 0u64 {
                    self.words.set(k, w | (1u64 << b));
                    let i = k * 64 + b as usize;
                    assert(self@ =~= bits.update(i as int, true)) by {
                        assert forall|j: int| 0 <= j < bits.len() implies self@[j] == bits.update(
                            i as int,
                            true,
                        )[j] by {
                            if j / 64 == k as int {
                                lemma_set_bit(w, b, (j % 64) as u64);
                                if j != i as int {
                                    lemma_bit_position(k as int, j % 64);
                                }
                            }
                        }
                    }
                    return Some(i);
                }
                assert((w >> b) & 1u64 == 1u64) by (bit_vector)
                    requires
                        (w >> b) & 1u64 != 0u64,
                ;
                assert(bits[k * 64 + b]);
                b = b + 1;
            }
            k = k + 1;
        }
        None
    }

    /// Clears bit `index`, which must be set: freeing a free unit is a fault.
    pub fn dealloc_bit(&mut self, index: usize)
        requires
            index < old(self)@.len(),
            old(self)@[index as int],
        ensures
            final(self)@ == old(self)@.update(index as int, false),
    {
        let ghost bits = self@;
        let k = index / 64;
        let b = (index % 64) as u64;
        let w = self.words[k];
        self.words.set(k, w & !(1u64 << b));
        assert(self@ =~= bits.update(index as int, false)) by {
            assert forall|j: int| 0 <= j < bits.len() implies self@[j] == bits.update(
                index as int,
                false,
            )[j] by {
                if j / 64 == k as int {
                    lemma_clear_bit(w, b, (j % 64) as u64);
                    if j != index as int {
                        lemma_bit_position(k as int, j % 64);
                        lemma_bit_position(k as int, b as int);
                    }
                }
            }
        }
    }
}

} // verus!
