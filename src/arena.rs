//! A slot pool that recycles released slots through a free list.
//!
//! Slots are addressed by their index, which stays the same for the whole
//! life of the pool. A slot is either live (it holds a value handed out to a
//! user) or free (it is threaded onto the free list and will be handed out
//! again by the next allocation).
use vstd::prelude::*;

verus! {

/// The state of one slot: live, or free with the index of the next free slot.
#[derive(Clone, Copy)]
enum Link {
    Live,
    Free(Option<usize>),
}

/// Number of live entries in a slot model.
pub open spec fn count_live<T>(s: Seq<Option<T>>) -> nat
    decreases s.len(),
{
    if s.len() == 0 {
        0
    } else {
        count_live(s.drop_last()) + if s.last() is Some {
            1nat
        } else {
            0nat
        }
    }
}

/// The ascending indices of the live entries of a slot model.
pub open spec fn live_indices_of<T>(s: Seq<Option<T>>) -> Seq<usize>
    decreases s.len(),
{
    if s.len() == 0 {
        Seq::empty()
    } else if s.last() is Some {
        live_indices_of(s.drop_last()).push((s.len() - 1) as usize)
    } else {
        live_indices_of(s.drop_last())
    }
}

pub proof fn lemma_count_live_bounded<T>(s: Seq<Option<T>>)
    ensures
        count_live(s) <= s.len(),
    decreases s.len(),
{
    if s.len() > 0 {
        lemma_count_live_bounded(s.drop_last());
    }
}

proof fn lemma_count_live_update<T>(s: Seq<Option<T>>, i: int, x: Option<T>)
    requires
        0 <= i < s.len(),
    ensures
        count_live(s.update(i, x)) + (if s[i] is Some {
            1int
        } else {
            0int
        }) == count_live(s) + (if x is Some {
            1int
        } else {
            0int
        }),
    decreases s.len(),
{
    let t = s.update(i, x);
    if i == s.len() - 1 {
        assert(t.drop_last() =~= s.drop_last());
    } else {
        assert(t.drop_last() =~= s.drop_last().update(i, x));
        lemma_count_live_update(s.drop_last(), i, x);
    }
}

proof fn lemma_count_live_push<T>(s: Seq<Option<T>>, x: Option<T>)
    ensures
        count_live(s.push(x)) == count_live(s) + if x is Some {
            1nat
        } else {
            0nat
        },
{
    assert(s.push(x).drop_last() =~= s);
}

proof fn lemma_count_live_none<T>(s: Seq<Option<T>>)
    requires
        forall|i: int| 0 <= i < s.len() ==> s[i] is None,
    ensures
        count_live(s) == 0,
    decreases s.len(),
{
    if s.len() > 0 {
        lemma_count_live_none(s.drop_last());
    }
}

proof fn lemma_live_indices_of<T>(s: Seq<Option<T>>)
    requires
        s.len() <= usize::MAX,
    ensures
        forall|k: int| 0 <= k < live_indices_of(s).len() ==> live_indices_of(s)[k] < s.len(),
        forall|k: int|
            0 <= k < live_indices_of(s).len() ==> #[trigger] s[live_indices_of(s)[k] as int] is Some,
        forall|k: int, l: int|
            0 <= k < l < live_indices_of(s).len() ==> live_indices_of(s)[k] < live_indices_of(s)[l],
        forall|i: int| 0 <= i < s.len() && #[trigger] s[i] is Some ==> live_indices_of(s).contains(i as usize),
    decreases s.len(),
{
    if s.len() > 0 {
        let p = s.drop_last();
        let q = live_indices_of(p);
        lemma_live_indices_of(p);
        assert forall|k: int| 0 <= k < live_indices_of(s).len() implies #[trigger] s[live_indices_of(s)[k] as int] is Some by {
            if k < q.len() {
                assert(s[q[k] as int] == p[q[k] as int]);
            }
        }
        assert forall|i: int| 0 <= i < s.len() && #[trigger] s[i] is Some implies live_indices_of(s).contains(i as usize) by {
            if i < s.len() - 1 {
                assert(p[i] == s[i]);
                let k = choose|k: int| 0 <= k < q.len() && q[k] == i as usize;
                assert(live_indices_of(s)[k] == i as usize);
            } else {
                assert(live_indices_of(s)[live_indices_of(s).len() - 1] == i as usize);
            }
        }
    }
}

/// `post` is `pre` with one slot, `h`, turned live and holding `value`: a
/// free slot if `pre` has one, else a new slot at the end.
pub open spec fn allocated<T>(pre: Seq<Option<T>>, post: Seq<Option<T>>, value: T, h: usize) -> bool {
    &&& h <= pre.len()
    &&& (h < pre.len() <==> exists|i: int| 0 <= i < pre.len() && pre[i] is None)
    &&& h < pre.len() ==> pre[h as int] is None && post == pre.update(h as int, Some(value))
    &&& h == pre.len() ==> post == pre.push(Some(value))
}

/// `post` is `pre` with slot `h` freed if it was live, and `pre` itself otherwise.
pub open spec fn released<T>(pre: Seq<Option<T>>, post: Seq<Option<T>>, h: usize) -> bool {
    if 0 <= h < pre.len() && pre[h as int] is Some {
        post == pre.update(h as int, None)
    } else {
        post == pre
    }
}

/// A slot handed out by an allocation is live; once released it is not
/// live; a later allocation makes it live again exactly when that allocation
/// hands out the same slot, and releasing another slot leaves it free.
pub proof fn lemma_arena_liveness<T>(
    s0: Seq<Option<T>>,
    s1: Seq<Option<T>>,
    s2: Seq<Option<T>>,
    s3: Seq<Option<T>>,
    s4: Seq<Option<T>>,
    v: T,
    w: T,
    h: usize,
    other: usize,
    h2: usize,
)
    requires
        allocated(s0, s1, v, h),
        released(s1, s2, h),
        released(s2, s3, other),
        other != h,
        allocated(s3, s4, w, h2),
    ensures
        h < s1.len() && s1[h as int] is Some,
        h < s2.len() && s2[h as int] is None,
        h < s3.len() && s3[h as int] is None,
        (h < s4.len() && s4[h as int] is Some) <==> h2 == h,
{
}

/// A pool of slots, each holding a value, with a free list of released slots.
pub struct Arena<T> {
    links: Vec<Link>,
    values: Vec<T>,
    first_free_idx: Option<usize>,
    len: usize,
    free_list: Ghost<Seq<usize>>,
}

impl<T> View for Arena<T> {
    /// Slot `i` is `Some(v)` when it is live and holds `v`, `None` when it is free.
    type V = Seq<Option<T>>;

    closed spec fn view(&self) -> Seq<Option<T>> {
        Seq::new(
            self.links@.len(),
            |i: int|
                match self.links@[i] {
                    Link::Live => Some(self.values@[i]),
                    Link::Free(_) => None,
                },
        )
    }
}

impl<T> Arena<T> {
    /// The free list threads exactly the free slots, without repetition, and
    /// the live counter agrees with the slots.
    pub closed spec fn wf(&self) -> bool {
        let fl = self.free_list@;
        &&& self.links@.len() == self.values@.len()
        &&& fl.no_duplicates()
        &&& forall|k: int| 0 <= k < fl.len() ==> fl[k] < self.links@.len()
        &&& forall|k: int|
            0 <= k < fl.len() ==> #[trigger] self.links@[fl[k] as int] == Link::Free(
                if k + 1 < fl.len() {
                    Some(fl[k + 1])
                } else {
                    None
                },
            )
        &&& forall|i: int|
            0 <= i < self.links@.len() ==> (#[trigger] self.links@[i] is Free <==> fl.contains(
                i as usize,
            ))
        &&& self.first_free_idx == if fl.len() == 0 {
            None
        } else {
            Some(fl[0])
        }
        &&& self.len == count_live(self@)
    }

    /// Whether slot `i` holds a live value.
    pub open spec fn is_live(&self, i: int) -> bool {
        0 <= i < self@.len() && self@[i] is Some
    }

    /// Whether the free list is empty.
    pub closed spec fn has_free(&self) -> bool {
        self.free_list@.len() > 0
    }

    /// The free slots, in the order in which the coming allocations hand
    /// them out.
    pub closed spec fn free_order(&self) -> Seq<usize> {
        self.free_list@
    }

    /// The slot that the next recycling allocation hands out.
    pub closed spec fn next_free(&self) -> int {
        self.free_list@[0] as int
    }

    pub proof fn lemma_next_free(&self)
        requires
            self.wf(),
        ensures
            self.has_free() ==> 0 <= self.next_free() < self@.len() && !self.is_live(
                self.next_free(),
            ),
            !self.has_free() ==> forall|i: int| 0 <= i < self@.len() ==> self.is_live(i),
            self.has_free() <==> self.free_order().len() > 0,
            self.has_free() ==> self.next_free() == self.free_order()[0],
            self.free_order().no_duplicates(),
            forall|i: int|
                0 <= i < self@.len() ==> (!self.is_live(i) <==> self.free_order().contains(
                    i as usize,
                )),
            forall|k: int| 0 <= k < self.free_order().len() ==> self.free_order()[k] < self@.len(),
    {
        assert forall|i: int| 0 <= i < self@.len() implies (!self.is_live(i) <==> self.free_order().contains(i as usize)) by {
            assert(self.links@[i] is Free <==> self.free_list@.contains(i as usize));
        }
        if self.has_free() {
            assert(self.free_list@.contains(self.free_list@[0]));
        } else {
            assert forall|i: int| 0 <= i < self@.len() implies self.is_live(i) by {
                if self.links@[i] is Free {
                    assert(self.free_list@.contains(i as usize));
                }
            }
        }
    }

    /// An empty pool.
    pub fn new() -> (r: Self)
        ensures
            r.wf(),
            r@ == Seq::<Option<T>>::empty(),
    {
        let r = Arena {
            links: Vec::new(),
            values: Vec::new(),
            first_free_idx: None,
            len: 0,
            free_list: Ghost(Seq::empty()),
        };
        assert(r@ =~= Seq::<Option<T>>::empty());
        r
    }

    /// An empty pool with room reserved for `cap` slots.
    pub fn with_capacity(cap: usize) -> (r: Self)
        ensures
            r.wf(),
            r@ == Seq::<Option<T>>::empty(),
    {
        let r = Arena {
            links: Vec::with_capacity(cap),
            values: Vec::with_capacity(cap),
            first_free_idx: None,
            len: 0,
            free_list: Ghost(Seq::empty()),
        };
        assert(r@ =~= Seq::<Option<T>>::empty());
        r
    }

    /// The value of slot `idx` if that slot is live.
    pub fn get(&self, idx: usize) -> (r: Option<&T>)
        requires
            self.wf(),
        ensures
            r is Some <==> self.is_live(idx as int),
            r is Some ==> Some(*r.unwrap()) == self@[idx as int],
    {
        if idx < self.links.len() {
            match self.links[idx] {
                Link::Live => Some(&self.values[idx]),
                Link::Free(_) => None,
            }
        } else {
            None
        }
    }

    /// Whether slot `idx` is live.
    pub fn contains(&self, idx: usize) -> (r: bool)
        requires
            self.wf(),
        ensures
            r == self.is_live(idx as int),
    {
        idx < self.links.len() && match self.links[idx] {
            Link::Live => true,
            Link::Free(_) => false,
        }
    }

    /// The number of live slots.
    pub fn len(&self) -> (r: usize)
        requires
            self.wf(),
        ensures
            r == count_live(self@),
    {
        self.len
    }

    /// The number of slots, live or free.
    pub fn internal_len(&self) -> (r: usize)
        requires
            self.wf(),
        ensures
            r == self@.len(),
    {
        self.links.len()
    }

    /// Hands out the most recently released slot, if there is one, with
    /// `value` in it; otherwise hands `value` back and changes nothing.
    pub fn try_push(&mut self, value: T) -> (r: Result<usize, T>)
        requires
            old(self).wf(),
        ensures
            final(self).wf(),
            old(self).has_free() ==> r is Ok,
            !old(self).has_free() ==> r == Err::<usize, T>(value) && *final(self) == *old(self),
            r matches Ok(h) ==> {
                &&& h == old(self).next_free()
                &&& final(self).free_order() == old(self).free_order().drop_first()
                &&& final(self)@ == old(self)@.update(h as int, Some(value))
            },
    {
        match self.first_free_idx {
            None => Err(value),
            Some(idx) => {
                let n = self.links.len();
                let ghost fl = self.free_list@;
                let ghost pre = self@;
                let ghost pre_links = self.links@;
                proof {
                    assert(fl.contains(fl[0]));
                    assert(pre_links[idx as int] is Free);
                    lemma_count_live_update(pre, idx as int, Some(value));
                    lemma_count_live_bounded(pre.update(idx as int, Some(value)));
                    assert(pre.len() == n);
                }
                let next = match self.links[idx] {
                    Link::Free(n) => n,
                    Link::Live => None,
                };
                self.links.set(idx, Link::Live);
                self.values.set(idx, value);
                self.first_free_idx = next;
                self.len = self.len + 1;
                self.free_list = Ghost(fl.drop_first());
                proof {
                    assert(self@ =~= pre.update(idx as int, Some(value)));
                    let nfl = self.free_list@;
                    assert forall|k: int| 0 <= k < nfl.len() implies #[trigger] self.links@[nfl[k] as int] == Link::Free(
                        if k + 1 < nfl.len() { Some(nfl[k + 1]) } else { None },
                    ) by {
                        assert(nfl[k] == fl[k + 1]);
                        assert(fl[k + 1] != fl[0]);
                    }
                    assert forall|i: int| 0 <= i < self.links@.len() implies (#[trigger] self.links@[i] is Free <==> nfl.contains(i as usize)) by {
                        if i != idx as int {
                            assert(self.links@[i] == pre_links[i]);
                            assert(pre_links[i] is Free <==> fl.contains(i as usize));
                            if fl.contains(i as usize) {
                                let k = choose|k: int| 0 <= k < fl.len() && fl[k] == i as usize;
                                assert(fl[0] == idx);
                                assert(k != 0);
                                assert(nfl[k - 1] == i as usize);
                            }
                            if nfl.contains(i as usize) {
                                let k = choose|k: int| 0 <= k < nfl.len() && nfl[k] == i as usize;
                                assert(fl[k + 1] == i as usize);
                            }
                        } else {
                            if nfl.contains(i as usize) {
                                let k = choose|k: int| 0 <= k < nfl.len() && nfl[k] == i as usize;
                                assert(fl[k + 1] == fl[0]);
                            }
                        }
                    }
                }
                Ok(idx)
            },
        }
    }

    /// Appends a new live slot holding `value`.
    pub fn proper_push(&mut self, value: T) -> (r: usize)
        requires
            old(self).wf(),
        ensures
            final(self).wf(),
            r == old(self)@.len(),
            final(self)@ == old(self)@.push(Some(value)),
            final(self).has_free() == old(self).has_free(),
            old(self).has_free() ==> final(self).next_free() == old(self).next_free(),
            final(self).free_order() == old(self).free_order(),
    {
        let ghost pre = self@;
        let ghost pre_links = self.links@;
        proof {
            lemma_count_live_bounded(pre);
            lemma_count_live_push(pre, Some(value));
        }
        self.links.push(Link::Live);
        self.values.push(value);
        let n = self.links.len();
        assert(n == pre.len() + 1);
        self.len = self.len + 1;
        proof {
            assert(self@ =~= pre.push(Some(value)));
            let fl = self.free_list@;
            assert forall|i: int| 0 <= i < self.links@.len() implies (#[trigger] self.links@[i] is Free <==> fl.contains(i as usize)) by {
                if i == self.links@.len() - 1 {
                    if fl.contains(i as usize) {
                        let k = choose|k: int| 0 <= k < fl.len() && fl[k] == i as usize;
                        assert(fl[k] < pre_links.len());
                    }
                } else {
                    assert(self.links@[i] == pre_links[i]);
                    assert(pre_links[i] is Free <==> fl.contains(i as usize));
                }
            }
        }
        n - 1
    }

    /// Hands out a slot holding `value`: the most recently released one if
    /// any slot is free, else a new one at the end.
    pub fn push_with(&mut self, value: T) -> (r: usize)
        requires
            old(self).wf(),
        ensures
            final(self).wf(),
            allocated(old(self)@, final(self)@, value, r),
            old(self).has_free() ==> r == old(self).next_free() && final(self).free_order()
                == old(self).free_order().drop_first(),
            !old(self).has_free() ==> final(self).free_order() == old(self).free_order(),
    {
        proof {
            self.lemma_next_free();
        }
        match self.try_push(value) {
            Ok(idx) => idx,
            Err(value) => self.proper_push(value),
        }
    }

    /// Releases slot `idx` onto the free list, to be handed out by the next
    /// allocation. A slot that is not live is left alone, and `false` comes
    /// back.
    pub fn remove(&mut self, idx: usize) -> (r: bool)
        requires
            old(self).wf(),
        ensures
            final(self).wf(),
            r == old(self).is_live(idx as int),
            released(old(self)@, final(self)@, idx),
            r ==> final(self).has_free() && final(self).next_free() == idx,
            r ==> final(self).free_order() == seq![idx].add(old(self).free_order()),
            !r ==> *final(self) == *old(self),
    {
        if idx >= self.links.len() {
            return false;
        }
        match self.links[idx] {
            Link::Free(_) => false,
            Link::Live => {
                let ghost fl = self.free_list@;
                let ghost pre = self@;
                proof {
                    lemma_count_live_update(pre, idx as int, None);
                    if fl.contains(idx) {
                        let k = choose|k: int| 0 <= k < fl.len() && fl[k] == idx;
                        assert(self.links@[fl[k] as int] is Free);
                    }
                }
                self.links.set(idx, Link::Free(self.first_free_idx));
                self.first_free_idx = Some(idx);
                self.len = self.len - 1;
                self.free_list = Ghost(seq![idx].add(fl));
                proof {
                    assert(self@ =~= pre.update(idx as int, None));
                    let nfl = self.free_list@;
                    assert forall|a: int, b: int| 0 <= a < nfl.len() && 0 <= b < nfl.len() && a != b implies nfl[a] != nfl[b] by {
                        if a > 0 && b > 0 {
                            assert(nfl[a] == fl[a - 1] && nfl[b] == fl[b - 1]);
                        } else if a == 0 {
                            assert(nfl[b] == fl[b - 1]);
                            assert(fl.contains(nfl[b]));
                        } else {
                            assert(nfl[a] == fl[a - 1]);
                            assert(fl.contains(nfl[a]));
                        }
                    }
                    assert forall|k: int| 0 <= k < nfl.len() implies #[trigger] self.links@[nfl[k] as int] == Link::Free(
                        if k + 1 < nfl.len() { Some(nfl[k + 1]) } else { None },
                    ) by {
                        if k > 0 {
                            assert(nfl[k] == fl[k - 1]);
                            assert(fl.contains(fl[k - 1]));
                        }
                    }
                    assert forall|i: int| 0 <= i < self.links@.len() implies (#[trigger] self.links@[i] is Free <==> nfl.contains(i as usize)) by {
                        if i != idx as int {
                            if fl.contains(i as usize) {
                                let k = choose|k: int| 0 <= k < fl.len() && fl[k] == i as usize;
                                assert(nfl[k + 1] == i as usize);
                            }
                            if nfl.contains(i as usize) {
                                let k = choose|k: int| 0 <= k < nfl.len() && nfl[k] == i as usize;
                                assert(k != 0);
                                assert(fl[k - 1] == i as usize);
                            }
                        } else {
                            assert(nfl[0] == idx);
                        }
                    }
                }
                true
            },
        }
    }

    /// Frees every slot. The free list then hands the slots out again in
    /// ascending order.
    pub fn clear(&mut self)
        requires
            old(self).wf(),
        ensures
            final(self).wf(),
            final(self)@ == Seq::new(old(self)@.len(), |i: int| None::<T>),
            old(self)@.len() > 0 ==> final(self).has_free() && final(self).next_free() == 0,
            final(self).free_order() == Seq::new(old(self)@.len(), |i: int| i as usize),
    {
        let n = self.links.len();
        let ghost pre_values = self.values@;
        let mut i: usize = 0;
        while i < n
            invariant
                n == self.links@.len(),
                self.values@ == pre_values,
                pre_values.len() == n,
                0 <= i <= n,
                forall|j: int|
                    0 <= j < i ==> #[trigger] self.links@[j] == Link::Free(
                        if j + 1 < n {
                            Some((j + 1) as usize)
                        } else {
                            None
                        },
                    ),
            decreases n - i,
        {
            let next = if i + 1 < n {
                Some(i + 1)
            } else {
                None
            };
            self.links.set(i, Link::Free(next));
            i = i + 1;
        }
        self.first_free_idx = if n > 0 {
            Some(0)
        } else {
            None
        };
        self.len = 0;
        self.free_list = Ghost(Seq::new(n as nat, |j: int| j as usize));
        proof {
            assert(self@ =~= Seq::new(n as nat, |j: int| None::<T>));
            lemma_count_live_none(self@);
            let fl = self.free_list@;
            assert forall|j: int| 0 <= j < self.links@.len() implies (#[trigger] self.links@[j] is Free <==> fl.contains(j as usize)) by {
                assert(fl[j] == j as usize);
            }
        }
    }

    /// The indices of the live slots, in ascending order.
    pub fn live_indices(&self) -> (r: Vec<usize>)
        requires
            self.wf(),
        ensures
            r@ == live_indices_of(self@),
            forall|k: int| 0 <= k < r@.len() ==> self.is_live(#[trigger] r@[k] as int),
            forall|k: int, l: int| 0 <= k < l < r@.len() ==> r@[k] < r@[l],
            forall|i: int| #[trigger] self.is_live(i) ==> r@.contains(i as usize),
    {
        let mut r: Vec<usize> = Vec::new();
        let mut i: usize = 0;
        let ghost s = self@;
        while i < self.links.len()
            invariant
                0 <= i <= self.links@.len(),
                s == self@,
                s.len() == self.links@.len(),
                r@ == live_indices_of(s.subrange(0, i as int)),
            decreases self.links@.len() - i,
        {
            proof {
                let t = s.subrange(0, i as int + 1);
                assert(t.drop_last() =~= s.subrange(0, i as int));
            }
            match self.links[i] {
                Link::Live => r.push(i),
                Link::Free(_) => {},
            }
            i = i + 1;
        }
        proof {
            assert(s.subrange(0, i as int) =~= s);
            lemma_live_indices_of(s);
        }
        r
    }
}

} // verus!
