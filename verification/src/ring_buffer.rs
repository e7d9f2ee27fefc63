//! A fixed-capacity circular buffer that is always full.
//!
//! The buffer owns exactly `N` slots, each of which always holds a value.
//! Logical position 0 can be rotated to point at any physical slot, and
//! indices of any sign (or magnitude) wrap modulo the capacity using the
//! Euclidean remainder, so `-1` names the last logical element.

use vstd::arithmetic::div_mod::{
    lemma_add_mod_noop, lemma_add_mod_noop_right, lemma_fundamental_div_mod,
    lemma_mod_add_multiples_vanish, lemma_mod_bound, lemma_mod_equivalence,
    lemma_mod_multiples_vanish, lemma_mod_sub_multiples_vanish, lemma_small_mod,
};
use vstd::prelude::*;

verus! {

/// The sequence `s` reinterpreted so that logical position 0 sits at physical
/// position `offset`: element `k` of the result is `s[(offset + k) mod s.len()]`.
pub open spec fn rotated<T>(s: Seq<T>, offset: int) -> Seq<T> {
    Seq::new(s.len(), |k: int| s[(offset + k) % (s.len() as int)])
}

/// Euclidean remainder of `index` modulo a positive capacity `n`: the result
/// always lies in `[0, n)`, for negative indices as well.
fn euclid_rem(index: isize, n: usize) -> (r: usize)
    requires
        n > 0,
    ensures
        r < n,
        r as int == (index as int) % (n as int),
{
    if index >= 0 {
        (index as usize) % n
    } else {
        // `index` is at least `isize::MIN`, so `-(index + 1)` fits in `isize`.
        let a: usize = (-(index + 1)) as usize;
        let rem: usize = a % n;
        proof {
            let m = n as int;
            let x = index as int;
            let ai = a as int;
            let r0 = rem as int;
            lemma_fundamental_div_mod(ai, m);
            lemma_mod_bound(ai, m);
            let q = ai / m;
            assert(m * (-q - 1) == -(m * q) - m) by (nonlinear_arith);
            // `x` differs from `m - r0 - 1` by a multiple of `m`.
            assert(x == m * (-q - 1) + (m - r0 - 1));
            lemma_mod_multiples_vanish(-q - 1, m - r0 - 1, m);
            lemma_small_mod((m - r0 - 1) as nat, m as nat);
        }
        n - 1 - rem
    }
}

/// A fixed-capacity circular buffer.
///
/// The buffer is always full: every slot holds a value, and "empty" only
/// means a capacity of zero. Reads and writes take a logical index, which
/// may be negative or exceed the capacity; it is wrapped with the Euclidean
/// remainder. `rotate` moves logical position 0 without touching storage,
/// and `resize` re-linearizes the contents into logical order.
pub struct RingBuffer<T> {
    elements: Vec<T>,
    /// Rotation offset: the physical slot that logical position 0 occupies.
    /// It is reduced eagerly on every `rotate`, so it stays below the
    /// capacity and cannot overflow no matter how many rotations accumulate.
    current_index: usize,
}

impl<T> View for RingBuffer<T> {
    type V = Seq<T>;

    /// The contents in logical order, logical position 0 first.
    closed spec fn view(&self) -> Seq<T> {
        rotated(self.elements@, self.current_index as int)
    }
}

impl<T> RingBuffer<T> {
    /// The rotation offset is kept reduced: below the capacity, and 0 for a
    /// buffer of capacity 0.
    pub closed spec fn wf(&self) -> bool {
        if self.elements@.len() == 0 {
            self.current_index == 0
        } else {
            (self.current_index as int) < self.elements@.len()
        }
    }

    /// The physical slot that logical position 0 currently occupies.
    pub closed spec fn offset(&self) -> int {
        self.current_index as int
    }

    /// The element at an arbitrary integer logical index: any index, of any
    /// sign, wraps modulo the capacity (Euclidean remainder, so negative
    /// indices count back from the end).
    pub open spec fn elem_at(&self, i: int) -> T
        recommends
            self@.len() > 0,
    {
        self@[i % (self@.len() as int)]
    }

    /// The number of slots, all of which hold a value.
    pub fn len(&self) -> (n: usize)
        ensures
            n == self@.len(),
    {
        self.elements.len()
    }

    /// Whether the buffer has capacity 0; a buffer of any other capacity is
    /// always full.
    pub fn is_empty(&self) -> (empty: bool)
        ensures
            empty == (self@.len() == 0),
    {
        self.elements.is_empty()
    }

    /// The physical slot that logical position `k` occupies: the offset plus
    /// `k`, wrapped once around the capacity.
    fn get_array_index(&self, k: usize) -> (slot: usize)
        requires
            self.wf(),
            k < self@.len(),
        ensures
            slot < self@.len(),
            slot as int == (self.offset() + k) % (self@.len() as int),
    {
        let n = self.elements.len();
        let off = self.current_index;
        let slot = if k < n - off {
            off + k
        } else {
            k - (n - off)
        };
        proof {
            let m = n as int;
            if off + k < n {
                lemma_small_mod((off + k) as nat, n as nat);
            } else {
                lemma_mod_sub_multiples_vanish((off + k) as int, m);
                lemma_small_mod((off + k - n) as nat, n as nat);
            }
        }
        slot
    }

    /// A reference to the element at logical index `index`. Any integer
    /// addresses some slot: the index wraps modulo the capacity, so callers
    /// must first rule out a capacity of 0.
    pub fn index(&self, index: isize) -> (element: &T)
        requires
            self.wf(),
            self@.len() > 0,
        ensures
            *element == self.elem_at(index as int),
    {
        let n = self.elements.len();
        let k = euclid_rem(index, n);
        let slot = self.get_array_index(k);
        proof {
            lemma_add_mod_noop_right(self.offset(), index as int, n as int);
            assert(self@[k as int] == self.elements@[slot as int]);
        }
        &self.elements[slot]
    }

    /// A mutable reference to the element at logical position `k`; the view
    /// afterwards is the old view with position `k` replaced by whatever the
    /// caller leaves behind the reference.
    fn nth_mut(&mut self, k: usize) -> (element: &mut T)
        requires
            old(self).wf(),
            k < old(self)@.len(),
        ensures
            final(self).wf(),
            final(self).offset() == old(self).offset(),
            *element == old(self)@[k as int],
            final(self)@ == old(self)@.update(k as int, *final(element)),
    {
        let slot = self.get_array_index(k);
        let element = &mut self.elements[slot];
        proof {
            lemma_rotated_update(old(self).elements@, old(self).offset(), k as int, *final(element));
        }
        element
    }

    /// A mutable reference to the element at logical index `index`; the
    /// index wraps modulo the capacity exactly as for reads, so a write
    /// through it lands on the slot that reading `index` would return.
    pub fn index_mut(&mut self, index: isize) -> (element: &mut T)
        requires
            old(self).wf(),
            old(self)@.len() > 0,
        ensures
            final(self).wf(),
            final(self)@.len() == old(self)@.len(),
            final(self).offset() == old(self).offset(),
            *element == old(self).elem_at(index as int),
            final(self)@ == old(self)@.update(
                (index as int) % (old(self)@.len() as int),
                *final(element),
            ),
    {
        let n = self.elements.len();
        let k = euclid_rem(index, n);
        self.nth_mut(k)
    }

    /// Starts a fresh traversal of the elements in logical order.
    pub fn iter(&self) -> (it: RingBufferIter<'_, T>)
        ensures
            it.buffer() == *self,
            it.pos() == 0,
    {
        RingBufferIter { ring_buffer: self, index: 0 }
    }

    /// Starts a fresh mutable traversal over the logical positions. The
    /// cursor yields each of the `len()` positions exactly once, in
    /// increasing logical order, by borrowing the buffer mutably for each
    /// step, so no two yielded references can alias.
    pub fn iter_mut(&mut self) -> (it: RingBufferIterMut)
        ensures
            *final(self) == *old(self),
            it.pos() == 0,
    {
        RingBufferIterMut { index: 0 }
    }

    /// Overwrites the elements in logical order with `values`, consuming
    /// them: the mutable traversal yields each of the `len()` logical
    /// positions exactly once, in increasing order, so afterwards the
    /// contents equal `values` exactly.
    pub fn assign(&mut self, values: Vec<T>)
        requires
            old(self).wf(),
            values@.len() == old(self)@.len(),
        ensures
            final(self).wf(),
            final(self).offset() == old(self).offset(),
            final(self)@ == values@,
    {
        let ghost all_values = values@;
        let ghost n = all_values.len() as int;
        let mut remaining = values;
        let mut it = self.iter_mut();
        proof {
            assert(all_values.subrange(0, n) =~= all_values);
            assert(all_values.subrange(0, 0) + old(self)@.subrange(0, n) =~= self@);
        }
        while !remaining.is_empty()
            invariant
                self.wf(),
                self.offset() == old(self).offset(),
                self@.len() == n,
                old(self)@.len() == n,
                all_values.len() == n,
                remaining@.len() <= n,
                it.pos() == n - remaining@.len(),
                remaining@ == all_values.subrange(it.pos(), n),
                self@ == all_values.subrange(0, it.pos()) + old(self)@.subrange(it.pos(), n),
            decreases remaining@.len(),
        {
            let ghost k = it.pos();
            let value = remaining.remove(0);
            proof {
                assert(value == all_values[k]);
                assert(remaining@ =~= all_values.subrange(k + 1, n));
            }
            let element = it.next(self);
            *element = value;
            proof {
                let advanced = all_values.subrange(0, k + 1) + old(self)@.subrange(k + 1, n);
                let updated = (all_values.subrange(0, k) + old(self)@.subrange(k, n)).update(
                    k,
                    value,
                );
                assert forall|j: int| 0 <= j < n implies advanced[j] == updated[j] by {
                    if j < k {
                        assert(advanced[j] == all_values[j]);
                        assert(updated[j] == all_values[j]);
                    } else if j == k {
                        assert(advanced[j] == all_values[k]);
                        assert(updated[j] == value);
                    } else {
                        assert(advanced[j] == old(self)@[j]);
                        assert(updated[j] == old(self)@[j]);
                    }
                }
                assert(advanced =~= updated);
            }
        }
        proof {
            assert(self@ =~= all_values);
        }
    }

    /// Adds `delta` to the rotation offset: what was at logical index `delta`
    /// becomes the new logical position 0. No element moves. The offset is
    /// reduced modulo the capacity at once, so rotations of any magnitude can
    /// accumulate without ever overflowing it.
    pub fn rotate(&mut self, delta: isize)
        requires
            old(self).wf(),
        ensures
            final(self).wf(),
            final(self)@.len() == old(self)@.len(),
            old(self)@.len() == 0 ==> *final(self) == *old(self),
            old(self)@.len() > 0 ==> final(self).offset() == (old(self).offset() + delta) % (
            old(self)@.len() as int),
            forall|k: int|
                0 <= k < old(self)@.len() ==> #[trigger] final(self)@[k] == old(self).elem_at(
                    delta + k,
                ),
    {
        let n = self.elements.len();
        if n > 0 {
            let d = euclid_rem(delta, n);
            let new_off = self.get_array_index(d);
            self.current_index = new_off;
            proof {
                let m = n as int;
                let off = old(self).offset();
                lemma_add_mod_noop_right(off, delta as int, m);
                assert forall|k: int| 0 <= k < m implies self@[k] == old(self).elem_at(
                    delta + k,
                ) by {
                    lemma_small_mod(k as nat, n as nat);
                    lemma_add_mod_noop(off + delta as int, k, m);
                    lemma_add_mod_noop_right(off, delta as int + k, m);
                    lemma_mod_bound(delta as int + k, m);
                }
            }
        }
    }
}

impl<T: Clone> RingBuffer<T> {
    /// Creates a buffer of `size` slots, each filled with a clone of
    /// `default_value`; logical and physical order coincide at first.
    pub fn new(size: usize, default_value: T) -> (buffer: Self)
        ensures
            buffer.wf(),
            buffer@.len() == size,
            buffer.offset() == 0,
            forall|i: int| 0 <= i < size ==> cloned(default_value, #[trigger] buffer@[i]),
    {
        let mut elements: Vec<T> = Vec::new();
        elements.resize(size, default_value);
        let buffer = RingBuffer { current_index: 0, elements };
        proof {
            lemma_rotated_zero(buffer.elements@);
        }
        buffer
    }

    /// Changes the capacity to `new_size`. The contents are first
    /// linearized into logical order, which materializes any accumulated
    /// rotation and resets the offset to 0; growth then appends clones of
    /// `default_value`, and shrinking keeps only the first `new_size`
    /// elements of the logical order.
    pub fn resize(&mut self, new_size: usize, default_value: T)
        requires
            old(self).wf(),
        ensures
            final(self).wf(),
            final(self).offset() == 0,
            final(self)@.len() == new_size,
            forall|i: int|
                0 <= i < new_size && i < old(self)@.len() ==> #[trigger] final(self)@[i] == old(
                    self,
                )@[i],
            forall|i: int|
                old(self)@.len() <= i < new_size ==> cloned(
                    default_value,
                    #[trigger] final(self)@[i],
                ),
            new_size > 0 && old(self)@.len() > 0 ==> final(self).elem_at(0) == old(self).elem_at(0),
    {
        let off = self.current_index;
        let mut tail = self.elements.split_off(off);
        tail.append(&mut self.elements);
        self.elements = tail;
        self.current_index = 0;
        proof {
            if old(self)@.len() > 0 {
                lemma_rotated_split(old(self).elements@, old(self).offset());
            }
            assert(self.elements@ =~= old(self)@);
        }
        self.elements.resize(new_size, default_value);
        proof {
            lemma_rotated_zero(self.elements@);
            if new_size > 0 && old(self)@.len() > 0 {
                lemma_small_mod(0, new_size as nat);
                lemma_small_mod(0, old(self)@.len() as nat);
            }
        }
    }
}

/// A forward traversal of a buffer in logical order. It borrows the buffer
/// immutably, so several may run at once.
pub struct RingBufferIter<'a, T> {
    ring_buffer: &'a RingBuffer<T>,
    index: usize,
}

impl<'a, T> RingBufferIter<'a, T> {
    /// The buffer being traversed.
    pub closed spec fn buffer(&self) -> RingBuffer<T> {
        *self.ring_buffer
    }

    /// How many elements were already yielded.
    pub closed spec fn pos(&self) -> int {
        self.index as int
    }

    /// The next element in logical order, or `None` once every logical
    /// position was yielded.
    pub fn next(&mut self) -> (element: Option<&'a T>)
        requires
            old(self).buffer().wf(),
        ensures
            final(self).buffer() == old(self).buffer(),
            old(self).pos() < old(self).buffer()@.len() ==> {
                &&& final(self).pos() == old(self).pos() + 1
                &&& element matches Some(e) && *e == old(self).buffer()@[old(self).pos()]
            },
            old(self).pos() >= old(self).buffer()@.len() ==> {
                &&& final(self).pos() == old(self).pos()
                &&& element is None
            },
    {
        let ring_buffer = self.ring_buffer;
        if self.index >= ring_buffer.elements.len() {
            return None;
        }
        let k = self.index;
        let slot = ring_buffer.get_array_index(k);
        self.index = k + 1;
        Some(&ring_buffer.elements[slot])
    }
}

/// A forward traversal that yields each logical position of a buffer exactly
/// once for writing. It is a cursor: each step borrows the buffer mutably
/// for the lifetime of the reference it returns, so the traversal cannot
/// interleave with any other access to the buffer.
pub struct RingBufferIterMut {
    index: usize,
}

impl RingBufferIterMut {
    /// How many positions were already yielded.
    pub closed spec fn pos(&self) -> int {
        self.index as int
    }

    /// Whether the traversal of `buffer` still has positions left.
    pub fn has_next<T>(&self, buffer: &RingBuffer<T>) -> (more: bool)
        ensures
            more == (self.pos() < buffer@.len()),
    {
        self.index < buffer.len()
    }

    /// A mutable reference to the next logical position of `buffer`. The
    /// view afterwards is the old view with that position replaced by
    /// whatever the caller leaves behind the reference.
    pub fn next<'a, T>(&mut self, buffer: &'a mut RingBuffer<T>) -> (element: &'a mut T)
        requires
            old(buffer).wf(),
            old(self).pos() < old(buffer)@.len(),
        ensures
            final(self).pos() == old(self).pos() + 1,
            final(buffer).wf(),
            final(buffer).offset() == old(buffer).offset(),
            *element == old(buffer)@[old(self).pos()],
            final(buffer)@ == old(buffer)@.update(old(self).pos(), *final(element)),
    {
        let k = self.index;
        proof {
            // `k` sits strictly below the capacity, a `usize`, so it can grow.
            vstd::std_specs::vec::axiom_spec_len(&old(buffer).elements);
        }
        self.index = k + 1;
        buffer.nth_mut(k)
    }
}

/// A rotated view is the storage from the offset to the end, followed by the
/// storage before the offset.
proof fn lemma_rotated_split<T>(s: Seq<T>, offset: int)
    requires
        0 <= offset < s.len(),
    ensures
        rotated(s, offset) == s.subrange(offset, s.len() as int) + s.subrange(0, offset),
{
    let n = s.len() as int;
    let parts = s.subrange(offset, n) + s.subrange(0, offset);
    assert forall|k: int| 0 <= k < n implies rotated(s, offset)[k] == parts[k] by {
        if offset + k < n {
            lemma_small_mod((offset + k) as nat, n as nat);
        } else {
            lemma_mod_sub_multiples_vanish(offset + k, n);
            lemma_small_mod((offset + k - n) as nat, n as nat);
        }
    }
    assert(rotated(s, offset) =~= parts);
}

/// Updating the physical slot of logical position `k` updates the rotated
/// view at `k` and leaves every other position unchanged.
proof fn lemma_rotated_update<T>(s: Seq<T>, offset: int, k: int, v: T)
    requires
        0 <= offset < s.len(),
        0 <= k < s.len(),
    ensures
        rotated(s.update((offset + k) % (s.len() as int), v), offset) == rotated(s, offset).update(
            k,
            v,
        ),
{
    let n = s.len() as int;
    let slot = (offset + k) % n;
    lemma_mod_bound(offset + k, n);
    let updated = rotated(s.update(slot, v), offset);
    let expected = rotated(s, offset).update(k, v);
    assert forall|j: int| 0 <= j < n implies updated[j] == expected[j] by {
        lemma_mod_bound(offset + j, n);
        if j != k && (offset + j) % n == slot {
            // Two distinct logical positions cannot share a physical slot:
            // their difference would be a nonzero multiple of the capacity.
            lemma_mod_equivalence(offset + j, offset + k, n);
            if j > k {
                lemma_small_mod((j - k) as nat, n as nat);
            } else {
                lemma_mod_add_multiples_vanish(j - k, n);
                lemma_small_mod((n + j - k) as nat, n as nat);
            }
            assert(false);
        }
    }
    assert(updated =~= expected);
}

/// Periodicity: indexing wraps modulo the capacity, so an index and that
/// index shifted by the capacity (in either direction) name the same
/// element.
pub proof fn lemma_index_periodic<T>(buffer: &RingBuffer<T>, i: int)
    requires
        buffer@.len() > 0,
    ensures
        buffer.elem_at(i + buffer@.len()) == buffer.elem_at(i),
        buffer.elem_at(i - buffer@.len()) == buffer.elem_at(i),
{
    let n = buffer@.len() as int;
    lemma_mod_add_multiples_vanish(i, n);
    lemma_mod_sub_multiples_vanish(i, n);
}

/// Negative indexing: index -1 names the last logical element.
pub proof fn lemma_index_backwards<T>(buffer: &RingBuffer<T>)
    requires
        buffer@.len() > 0,
    ensures
        buffer.elem_at(-1) == buffer@[buffer@.len() - 1],
{
    let n = buffer@.len() as int;
    lemma_mod_add_multiples_vanish(-1, n);
    lemma_small_mod((n - 1) as nat, n as nat);
}

/// Write-through: after a write to logical index `i` (which lands on the
/// slot `i` wraps to, as `index_mut` ensures), reading any index that wraps
/// to the same slot yields the written value, and every other logical
/// position is unchanged.
pub proof fn lemma_write_then_read<T>(
    before: &RingBuffer<T>,
    after: &RingBuffer<T>,
    i: int,
    value: T,
)
    requires
        before@.len() > 0,
        after@ == before@.update(i % (before@.len() as int), value),
    ensures
        after.elem_at(i) == value,
        forall|j: int|
            j % (before@.len() as int) != i % (before@.len() as int)
                ==> #[trigger] after.elem_at(j) == before.elem_at(j),
{
    let n = before@.len() as int;
    lemma_mod_bound(i, n);
    assert forall|j: int| j % n != i % n implies #[trigger] after.elem_at(j) == before.elem_at(
        j,
    ) by {
        lemma_mod_bound(j, n);
    }
}

/// With a rotation offset of 0, logical and physical order coincide.
proof fn lemma_rotated_zero<T>(s: Seq<T>)
    ensures
        rotated(s, 0) == s,
{
    assert forall|k: int| 0 <= k < s.len() implies rotated(s, 0)[k] == s[k] by {
        lemma_small_mod(k as nat, s.len() as nat);
    }
    assert(rotated(s, 0) =~= s);
}

} // verus!
