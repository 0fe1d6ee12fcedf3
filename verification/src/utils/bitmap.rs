//! A bitmap and its allocation operations.

use vstd::prelude::*;
use crate::utils::array_based_list::lemma_usize_range_len;

verus! {

/// Whether bit `k` (counted from the least significant bit) of byte `b` is
/// set.
pub open spec fn bit_of(b: u8, k: u8) -> bool {
    (b >> k) & 1u8 == 1u8
}

/// Setting bit `k` of a byte sets that bit and keeps the others.
proof fn lemma_bit_set(b: u8, k: u8)
    requires
        k < 8,
    ensures
        forall|j: u8|
            j < 8 ==> #[trigger] bit_of(b | (1u8 << k), j) == (j == k || bit_of(b, j)),
{
    assert forall|j: u8| j < 8 implies #[trigger] bit_of(b | (1u8 << k), j) == (j == k || bit_of(
        b,
        j,
    )) by {
        assert((((b | (1u8 << k)) >> j) & 1u8 == 1u8) == (j == k || (b >> j) & 1u8 == 1u8))
            by (bit_vector)
            requires
                k < 8,
                j < 8,
        ;
    }
}

/// Clearing bit `k` of a byte clears that bit and keeps the others.
proof fn lemma_bit_clear(b: u8, k: u8)
    requires
        k < 8,
    ensures
        forall|j: u8|
            j < 8 ==> #[trigger] bit_of(b & !(1u8 << k), j) == (j != k && bit_of(b, j)),
{
    assert forall|j: u8| j < 8 implies #[trigger] bit_of(b & !(1u8 << k), j) == (j != k && bit_of(
        b,
        j,
    )) by {
        assert((((b & !(1u8 << k)) >> j) & 1u8 == 1u8) == (j != k && (b >> j) & 1u8 == 1u8))
            by (bit_vector)
            requires
                k < 8,
                j < 8,
        ;
    }
}

/// Splitting a bit index into a byte index and a bit position.
proof fn lemma_index_split(i: usize)
    ensures
        i >> 3 == i / 8,
        i & 7 == i % 8,
{
    crate::utils::bits::lemma_usize_bits(i);
}

/// Shifting left by three multiplies by eight when nothing overflows.
proof fn lemma_shl3(c: usize)
    requires
        c * 8 <= usize::MAX,
    ensures
        c << 3usize == c * 8,
{
    vstd::arithmetic::power2::lemma2_to64();
    vstd::bits::lemma_usize_shl_is_mul(c, 3);
}

/// The index met after `m` steps of a cyclic walk over `0..cap` that starts
/// at `start`.
pub open spec fn cyclic_step(start: int, m: int, cap: int) -> int {
    if m < cap - start {
        start + m
    } else {
        m - (cap - start)
    }
}

/// Whether `k` lies strictly before `i` on the cyclic walk over `0..cap` that
/// starts at `start`.
pub open spec fn cyclic_before(start: int, i: int, k: int, cap: int) -> bool {
    0 <= k < cap && if start <= i {
        start <= k < i
    } else {
        k >= start || k < i
    }
}

/// The bitmap itself. Contains the map and assistant fields.
///
/// The `used` field maintains the count of bits used to speed up the `empty`
/// (no bit left) judgement.
///
/// The next free bit is searched for one by one from the search `pointer`,
/// wrapping around at the end.
///
/// The const `COUNT` is the count of bytes; the bitmap holds `COUNT * 8` bits.
/// The view of the bitmap is the set of bits in use.
pub struct Bitmap<const COUNT: usize> {
    /// The bitmap itself.
    bitmap: Vec<u8>,
    /// Used bits count.
    used: usize,
    /// Search pointer.
    pointer: usize,
    /// The bits in use.
    used_set: Ghost<Set<usize>>,
}

impl<const COUNT: usize> View for Bitmap<COUNT> {
    type V = Set<usize>;

    closed spec fn view(&self) -> Set<usize> {
        self.used_set@
    }
}

/// The number of bits a bitmap of `count` bytes holds.
pub open spec fn bitmap_capacity(count: usize) -> int {
    count * 8
}

impl<const COUNT: usize> Bitmap<COUNT> {
    /// Whether bit `i` is set in the stored bytes.
    spec fn stored_bit(&self, i: int) -> bool {
        bit_of(self.bitmap@[i / 8], (i % 8) as u8)
    }

    /// Well-formedness: the stored bits are exactly the view, `used` counts
    /// them and the search pointer stays inside the bitmap.
    pub closed spec fn wf(&self) -> bool {
        &&& bitmap_capacity(COUNT) <= usize::MAX
        &&& self.bitmap@.len() == COUNT
        &&& self.used_set@.finite()
        &&& forall|i: usize|
            #[trigger] self.used_set@.contains(i) <==> (i < bitmap_capacity(COUNT)
                && self.stored_bit(i as int))
        &&& self.used == self.used_set@.len()
        &&& (self.pointer == 0 || self.pointer < bitmap_capacity(COUNT))
    }

    /// Where the next search starts.
    pub closed spec fn cursor(&self) -> int {
        self.pointer as int
    }

    /// The bits in use lie inside the bitmap, and there are at most as many
    /// of them as the bitmap holds.
    proof fn lemma_used_bounded(&self)
        requires
            self.wf(),
        ensures
            self.used_set@.len() <= bitmap_capacity(COUNT),
            self.used_set@.len() == bitmap_capacity(COUNT) <==> forall|i: usize|
                i < bitmap_capacity(COUNT) ==> #[trigger] self.used_set@.contains(i),
    {
        let cap = bitmap_capacity(COUNT);
        let dom = Set::new(|k: usize| k < cap);
        lemma_usize_range_len(cap as nat);
        assert(self.used_set@.subset_of(dom));
        vstd::set_lib::lemma_len_subset(self.used_set@, dom);
        if self.used_set@.len() == cap {
            vstd::set_lib::lemma_subset_equality(self.used_set@, dom);
        }
        if forall|i: usize| i < cap ==> #[trigger] self.used_set@.contains(i) {
            assert(self.used_set@ =~= dom);
        }
    }

    /// Create a new bitmap with every bit free.
    pub fn new() -> (r: Self)
        requires
            bitmap_capacity(COUNT) <= usize::MAX,
        ensures
            r.wf(),
            r@ == Set::<usize>::empty(),
            r.cursor() == 0,
    {
        let mut bitmap: Vec<u8> = Vec::new();
        let mut i: usize = 0;
        while i < COUNT
            invariant
                i <= COUNT,
                bitmap@.len() == i,
                forall|k: int| 0 <= k < i ==> #[trigger] bitmap@[k] == 0u8,
            decreases COUNT - i,
        {
            bitmap.push(0u8);
            i = i + 1;
        }
        let r = Bitmap { bitmap, used: 0, pointer: 0, used_set: Ghost(Set::empty()) };
        proof {
            assert forall|i: usize| i < bitmap_capacity(COUNT) implies !r.stored_bit(i as int) by {
                let b = r.bitmap@[i as int / 8];
                assert(b == 0u8);
                let k = (i as int % 8) as u8;
                crate::utils::bits::lemma_const_bits();
                assert((0u8 >> k) & 1u8 == 0u8);
            }
        }
        r
    }

    /// Judge whether every bit of the bitmap is in use, so that nothing is
    /// left to allocate.
    pub fn empty(&self) -> (r: bool)
        requires
            self.wf(),
        ensures
            r == (self@.len() == bitmap_capacity(COUNT)),
            r <==> forall|i: usize| i < bitmap_capacity(COUNT) ==> #[trigger] self@.contains(i),
    {
        proof {
            self.lemma_used_bounded();
            lemma_shl3(COUNT);
        }
        self.used == COUNT << 3
    }

    /// Whether bit `index` is *not* in use.
    pub fn peek(&self, index: usize) -> (r: bool)
        requires
            self.wf(),
            index < bitmap_capacity(COUNT),
        ensures
            r == !self@.contains(index),
    {
        proof {
            lemma_index_split(index);
            assert(self@.contains(index) == self.stored_bit(index as int));
        }
        let byte = self.bitmap[index >> 3];
        let k = (index & 7) as u8;
        proof {
            assert(((byte >> k) & 1u8 == 0u8) == !((byte >> k) & 1u8 == 1u8)) by (bit_vector);
        }
        (byte >> k) & 1u8 == 0u8
    }

    /// Allocate a free bit, searching from the search pointer and wrapping
    /// around. `None` is returned if no bit is left.
    ///
    /// The bit returned is the first free one met from the search pointer on;
    /// the search pointer moves onto it.
    pub fn allocate(&mut self) -> (r: Option<usize>)
        requires
            old(self).wf(),
        ensures
            final(self).wf(),
            match r {
                None => {
                    &&& forall|i: usize|
                        i < bitmap_capacity(COUNT) ==> #[trigger] old(self)@.contains(i)
                    &&& final(self)@ == old(self)@
                    &&& final(self).cursor() == old(self).cursor()
                },
                Some(i) => {
                    &&& i < bitmap_capacity(COUNT)
                    &&& !old(self)@.contains(i)
                    &&& final(self)@ == old(self)@.insert(i)
                    &&& final(self).cursor() == i
                    &&& forall|k: usize|
                        cyclic_before(old(self).cursor(), i as int, k as int, bitmap_capacity(COUNT))
                            ==> #[trigger] old(self)@.contains(k)
                },
            },
    {
        if self.empty() {
            return None;
        }
        proof {
            self.lemma_used_bounded();
            lemma_shl3(COUNT);
        }
        let cap = COUNT << 3;
        let start = self.pointer;
        let mut m: usize = 0;
        while m < cap
            invariant
                self.wf(),
                self@ == old(self)@,
                self.pointer == old(self).pointer,
                cap == bitmap_capacity(COUNT),
                start == self.pointer,
                start < cap,
                m <= cap,
                forall|j: int|
                    0 <= j < m ==> #[trigger] self@.contains(cyclic_step(start as int, j, cap as int) as usize),
            decreases cap - m,
        {
            let i = if m < cap - start {
                start + m
            } else {
                m - (cap - start)
            };
            if self.peek(i) {
                proof {
                    lemma_index_split(i);
                    self.lemma_used_bounded();
                }
                let ghost pre_bitmap = self.bitmap@;
                let ghost old_byte = self.bitmap@[i as int / 8];
                let byte = self.bitmap[i >> 3];
                let k = (i & 7) as u8;
                let nb = byte | (1u8 << k);
                self.bitmap.set(i >> 3, nb);
                self.pointer = i;
                proof {
                    lemma_bit_set(old_byte, k);
                    let s = self.used_set@;
                    let s2 = s.insert(i);
                    self.used_set@ = s2;
                    assert forall|x: usize| #[trigger] s2.contains(x) <==> (x < bitmap_capacity(
                        COUNT,
                    ) && self.stored_bit(x as int)) by {
                        if x < bitmap_capacity(COUNT) {
                            if x as int / 8 == i as int / 8 {
                                assert(bit_of(nb, (x as int % 8) as u8) == ((x as int % 8) as u8
                                    == k || bit_of(old_byte, (x as int % 8) as u8)));
                                if (x as int % 8) as u8 == k {
                                    assert(x == i);
                                }
                            } else {
                                assert(self.bitmap@[x as int / 8] == pre_bitmap[x as int / 8]);
                            }
                        }
                    }
                }
                self.used = self.used + 1;
                proof {
                    assert forall|kk: usize|
                        cyclic_before(
                            old(self).cursor(),
                            i as int,
                            kk as int,
                            bitmap_capacity(COUNT),
                        ) implies #[trigger] old(self)@.contains(kk) by {
                        let j = if kk >= start {
                            kk - start
                        } else {
                            kk + cap - start
                        };
                        assert(cyclic_step(start as int, j, cap as int) == kk);
                        assert(self@.contains(cyclic_step(start as int, j, cap as int) as usize));
                    }
                }
                return Some(i);
            }
            m = m + 1;
        }
        proof {
            assert forall|x: usize| x < bitmap_capacity(COUNT) implies #[trigger] self@.contains(
                x,
            ) by {
                let j = if x >= start {
                    x - start
                } else {
                    x + cap - start
                };
                assert(cyclic_step(start as int, j, cap as int) == x);
                assert(self@.contains(cyclic_step(start as int, j, cap as int) as usize));
            }
            assert(false);
        }
        None
    }

    /// Free the specified bit. The bit must be in use: a double free is not
    /// allowed.
    pub fn free(&mut self, index: usize)
        requires
            old(self).wf(),
            index < bitmap_capacity(COUNT),
            old(self)@.contains(index),
        ensures
            final(self).wf(),
            final(self)@ == old(self)@.remove(index),
            final(self).cursor() == old(self).cursor(),
    {
        proof {
            lemma_index_split(index);
        }
        let ghost old_byte = self.bitmap@[index as int / 8];
        let byte = self.bitmap[index >> 3];
        let k = (index & 7) as u8;
        let nb = byte & !(1u8 << k);
        self.bitmap.set(index >> 3, nb);
        proof {
            lemma_bit_clear(old_byte, k);
            let s = self.used_set@;
            let s2 = s.remove(index);
            self.used_set@ = s2;
            assert forall|x: usize| #[trigger] s2.contains(x) <==> (x < bitmap_capacity(COUNT)
                && self.stored_bit(x as int)) by {
                if x < bitmap_capacity(COUNT) {
                    if x as int / 8 == index as int / 8 {
                        if (x as int % 8) as u8 == k {
                            assert(x == index);
                        }
                    } else {
                        assert(self.bitmap@[x as int / 8] == old(self).bitmap@[x as int / 8]);
                    }
                }
            }
        }
        self.used = self.used - 1;
    }
}

/// Law: freeing the bit just allocated gives back the bitmap's set of used
/// bits as it was.
pub proof fn law_allocate_then_free<const COUNT: usize>(before: Bitmap<COUNT>, allocated: Bitmap<COUNT>, freed: Bitmap<COUNT>, i: usize)
    requires
        !before@.contains(i),
        allocated@ == before@.insert(i),
        freed@ == allocated@.remove(i),
    ensures
        freed@ == before@,
{
    assert(freed@ =~= before@);
}

} // verus!
