//! A relocatable binary heap that reports every element move.
//!
//! `IndexedHeap` stores its elements in array form under the binary-heap
//! ordering of a [`Comparator`]. A position is designated by an opaque
//! [`Index`], so outside code (the hashed heap's lookup table) can hold on
//! to positions; every mutation returns the list of positions whose
//! occupant changed, so such holders can be repointed.

use vstd::prelude::*;

use super::comparator::{lemma_not_favors_transitive, Comparator};
use crate::key::Key;

verus! {

/// A position in an [`IndexedHeap`], opaque to outside code.
#[derive(Clone, Copy, PartialEq, Eq, Structural)]
pub struct Index(usize);

impl Index {
    /// The heap position this handle designates.
    pub closed spec fn pos(&self) -> int {
        self.0 as int
    }

    pub(crate) fn new_at(i: usize) -> (r: Index)
        ensures
            r.pos() == i,
    {
        Index(i)
    }

    pub(crate) fn value(&self) -> (r: usize)
        ensures
            r == self.pos(),
    {
        self.0
    }
}

/// The binary-heap ordering under `C`: no element is favored over its
/// parent.
pub open spec fn heap_ordered<T, C: Comparator<T>>(s: Seq<T>) -> bool {
    forall|j: int| 1 <= j < s.len() ==> !C::favors_spec(#[trigger] s[j], s[(j - 1) / 2])
}

/// Every edge not touching position `i` holds.
pub open spec fn heap_ordered_except<T, C: Comparator<T>>(s: Seq<T>, i: int) -> bool {
    forall|j: int|
        1 <= j < s.len() && j != i && (j - 1) / 2 != i ==> !C::favors_spec(
            #[trigger] s[j],
            s[(j - 1) / 2],
        )
}

/// Every edge holds except possibly those from the children of `i`.
pub open spec fn heap_ordered_except_below<T, C: Comparator<T>>(s: Seq<T>, i: int) -> bool {
    forall|j: int|
        1 <= j < s.len() && (j - 1) / 2 != i ==> !C::favors_spec(#[trigger] s[j], s[(j - 1) / 2])
}

/// The children of `i` are not favored over the parent of `i`.
pub open spec fn children_below_grandparent<T, C: Comparator<T>>(s: Seq<T>, i: int) -> bool {
    i >= 1 ==> forall|j: int|
        1 <= j < s.len() && (j - 1) / 2 == i ==> !C::favors_spec(#[trigger] s[j], s[(i - 1) / 2])
}

/// The edges from the children of `i` hold.
pub open spec fn children_edges_hold<T, C: Comparator<T>>(s: Seq<T>, i: int) -> bool {
    forall|j: int|
        1 <= j < s.len() && (j - 1) / 2 == i ==> !C::favors_spec(#[trigger] s[j], s[i])
}

/// The edge from `i` to its parent holds (trivially at the root).
pub open spec fn parent_edge_holds<T, C: Comparator<T>>(s: Seq<T>, i: int) -> bool {
    i >= 1 ==> !C::favors_spec(s[i], s[(i - 1) / 2])
}

/// Some entry of `changes` designates position `j`.
pub open spec fn covers(changes: Seq<Index>, j: int) -> bool {
    exists|t: int| 0 <= t < changes.len() && #[trigger] changes[t].pos() == j
}

/// Some entry of `changes` at position `from` or later designates `j`.
pub open spec fn covers_from(changes: Seq<Index>, from: int, j: int) -> bool {
    exists|t: int| from <= t < changes.len() && #[trigger] changes[t].pos() == j
}

/// A covering entry survives extension of the change list.
proof fn lemma_covers_extend(ch1: Seq<Index>, ch2: Seq<Index>, from: int, j: int)
    requires
        0 <= from,
        ch1.is_prefix_of(ch2),
        covers_from(ch1, from, j),
    ensures
        covers_from(ch2, from, j),
{
    let t = choose|t: int| from <= t < ch1.len() && #[trigger] ch1[t].pos() == j;
    assert(from <= t < ch1.len());
    assert(ch1[t] == ch2.subrange(0, ch1.len() as int)[t]);
    assert(ch2.subrange(0, ch1.len() as int)[t] == ch2[t + 0]);
    assert(ch2[t].pos() == j);
}

/// Covering from the start of the list is plain covering.
proof fn lemma_covers_from_zero(ch: Seq<Index>, j: int)
    requires
        covers_from(ch, 0, j),
    ensures
        covers(ch, j),
{
    let t = choose|t: int| 0 <= t < ch.len() && #[trigger] ch[t].pos() == j;
    assert(ch[t].pos() == j);
}

/// A relocatable binary heap over `T`, ordered by the comparator `C`.
pub struct IndexedHeap<T, C> {
    data: Vec<T>,
    compare: C,
}

impl<T: Key, C: Comparator<T>> IndexedHeap<T, C> {
    /// The elements, in array order.
    pub closed spec fn elems(&self) -> Seq<T> {
        self.data@
    }

    /// Well-formedness: the array satisfies the heap ordering.
    pub open spec fn wf(&self) -> bool {
        heap_ordered::<T, C>(self.elems())
    }

    /// A new, empty heap.
    pub fn new() -> (r: Self) where C: Default
        ensures
            r.wf(),
            r.elems() == Seq::<T>::empty(),
    {
        IndexedHeap { data: Vec::new(), compare: C::default() }
    }

    /// Drops all elements.
    pub fn clear(&mut self)
        ensures
            final (self).wf(),
            final (self).elems() == Seq::<T>::empty(),
    {
        self.data.clear();
    }

    /// The element at a position.
    pub fn at(&self, index: Index) -> (r: &T)
        requires
            0 <= index.pos() < self.elems().len(),
        ensures
            *r == self.elems()[index.pos()],
    {
        &self.data[index.value()]
    }

    /// The number of elements.
    pub fn size(&self) -> (r: usize)
        ensures
            r == self.elems().len(),
    {
        self.data.len()
    }

    /// The root: the element favored over every other element, or `None`
    /// if the heap is empty.
    pub fn peek(&self) -> (r: Option<&T>)
        requires
            self.wf(),
        ensures
            match r {
                Some(v) => self.elems().len() > 0 && *v == self.elems()[0] && forall|j: int|
                    0 <= j < self.elems().len() ==> !C::favors_spec(self.elems()[j], *v),
                None => self.elems().len() == 0,
            },
    {
        if self.data.len() > 0 {
            proof {
                assert forall|j: int| 0 <= j < self.elems().len() implies !C::favors_spec(
                    self.elems()[j],
                    self.elems()[0],
                ) by {
                    lemma_root_favored::<T, C>(self.elems(), j);
                }
            }
            Some(&self.data[0])
        } else {
            None
        }
    }

    /// Executable comparison of the elements at two positions.
    fn favors_at(&self, a: usize, b: usize) -> (r: bool)
        requires
            a < self.elems().len(),
            b < self.elems().len(),
        ensures
            r == C::favors_spec(self.elems()[a as int], self.elems()[b as int]),
    {
        self.compare.favors(&self.data[a], &self.data[b])
    }

    /// Swaps the elements at two distinct positions.
    fn swap_at(&mut self, a: usize, b: usize)
        requires
            a < old(self).elems().len(),
            b < old(self).elems().len(),
            a != b,
        ensures
            final (self).elems() == old(self).elems().update(a as int, old(self).elems()[b as int])
                .update(b as int, old(self).elems()[a as int]),
            final (self).elems().to_multiset() == old(self).elems().to_multiset(),
    {
        proof {
            lemma_swap_multiset(self.elems(), a as int, b as int);
        }
        let x = self.data[a].key_clone();
        let y = self.data[b].key_clone();
        self.data[a] = y;
        self.data[b] = x;
    }
    /// Moves the element at `start` toward the root while the comparator
    /// favors it over its parent. Every position whose occupant changed is
    /// recorded in `changed`, except the element's own final position,
    /// which is returned.
    fn sift_up(&mut self, start: usize, changed: &mut Vec<Index>) -> (r: usize)
        requires
            start < old(self).elems().len(),
            heap_ordered_except::<T, C>(old(self).elems(), start as int),
            children_below_grandparent::<T, C>(old(self).elems(), start as int),
        ensures
            final (self).elems().len() == old(self).elems().len(),
            final (self).elems().to_multiset() == old(self).elems().to_multiset(),
            r <= start,
            final (self).elems()[r as int] == old(self).elems()[start as int],
            heap_ordered_except_below::<T, C>(final (self).elems(), r as int),
            parent_edge_holds::<T, C>(final (self).elems(), r as int),
            children_below_grandparent::<T, C>(final (self).elems(), r as int),
            r != start ==> children_edges_hold::<T, C>(final (self).elems(), r as int),
            r != start ==> covers_from(final (changed)@, old(changed)@.len() as int, start as int),
            r != start ==> final (self).elems()[start as int] != old(self).elems()[start as int],
            old(changed)@.is_prefix_of(final (changed)@),
            forall|t: int|
                old(changed)@.len() <= t < final (changed)@.len() ==> 0 <= (
                #[trigger] final (changed)@[t]).pos() < final (self).elems().len(),
            forall|j: int|
                0 <= j < final (self).elems().len() && final (self).elems()[j] != old(
                    self,
                ).elems()[j] && j != r ==> covers_from(
                    final (changed)@,
                    old(changed)@.len() as int,
                    j,
                ),
    {
        let ghost s0 = old(self).elems();
        let ghost c0 = old(changed)@;
        let mut i = start;
        loop
            invariant
                i <= start < self.elems().len(),
                self.elems().len() == s0.len(),
                self.elems().to_multiset() == s0.to_multiset(),
                self.elems()[i as int] == s0[start as int],
                heap_ordered_except::<T, C>(self.elems(), i as int),
                children_below_grandparent::<T, C>(self.elems(), i as int),
                i != start ==> children_edges_hold::<T, C>(self.elems(), i as int),
                i != start ==> covers_from(changed@, c0.len() as int, start as int),
                i != start ==> self.elems()[start as int] != s0[start as int],
                c0.is_prefix_of(changed@),
                forall|t: int|
                    c0.len() <= t < changed@.len() ==> 0 <= #[trigger] changed@[t].pos()
                        < self.elems().len(),
                forall|j: int|
                    0 <= j < self.elems().len() && self.elems()[j] != s0[j] && j != i
                        ==> covers_from(changed@, c0.len() as int, j),
            ensures
                i <= start,
                self.elems().len() == s0.len(),
                self.elems().to_multiset() == s0.to_multiset(),
                self.elems()[i as int] == s0[start as int],
                heap_ordered_except::<T, C>(self.elems(), i as int),
                parent_edge_holds::<T, C>(self.elems(), i as int),
                children_below_grandparent::<T, C>(self.elems(), i as int),
                i != start ==> children_edges_hold::<T, C>(self.elems(), i as int),
                i != start ==> covers_from(changed@, c0.len() as int, start as int),
                i != start ==> self.elems()[start as int] != s0[start as int],
                c0.is_prefix_of(changed@),
                forall|t: int|
                    c0.len() <= t < changed@.len() ==> 0 <= #[trigger] changed@[t].pos()
                        < self.elems().len(),
                forall|j: int|
                    0 <= j < self.elems().len() && self.elems()[j] != s0[j] && j != i
                        ==> covers_from(changed@, c0.len() as int, j),
            decreases i,
        {
            if i == 0 {
                break ;
            }
            let p = (i - 1) / 2;
            proof {
                assert(p < i);
            }
            if self.favors_at(i, p) {
                let ghost pre = self.elems();
                proof {
                    lemma_sift_up_swap::<T, C>(pre, i as int, p as int);
                }
                self.swap_at(p, i);
                let ghost ch0 = changed@;
                changed.push(Index(i));
                proof {
                    assert forall|j: int|
                        0 <= j < self.elems().len() && self.elems()[j] != s0[j] && j != p
                            implies covers_from(changed@, c0.len() as int, j) by {
                        if j == i {
                            assert(changed@[changed@.len() - 1].pos() == i);
                        } else {
                            assert(self.elems()[j] == pre[j]);
                            assert(covers_from(ch0, c0.len() as int, j));
                            let t = choose|t: int|
                                c0.len() <= t < ch0.len() && #[trigger] ch0[t].pos() == j;
                            assert(changed@[t].pos() == j);
                        }
                    }
                    assert(ch0.is_prefix_of(changed@)) by {
                        assert(ch0 =~= changed@.subrange(0, ch0.len() as int));
                    }
                    if i == start {
                        assert(changed@[changed@.len() - 1].pos() == start as int);
                        C::favors_asymmetric(pre[i as int], pre[p as int]);
                        assert(self.elems()[start as int] != s0[start as int]);
                    } else {
                        lemma_covers_extend(ch0, changed@, c0.len() as int, start as int);
                        assert(self.elems()[start as int] == pre[start as int]);
                    }
                }
                i = p;
            } else {
                break ;
            }
        }
        proof {
            assert(heap_ordered_except_below::<T, C>(self.elems(), i as int));
        }
        i
    }

    /// Moves the element at `start` away from the root while the
    /// comparator favors one of its children over it, recording every
    /// position whose occupant changed except the element's own final
    /// position, which is returned. Restores the heap ordering in full.
    fn sift_down(&mut self, start: usize, changed: &mut Vec<Index>) -> (r: usize)
        requires
            start < old(self).elems().len(),
            heap_ordered_except_below::<T, C>(old(self).elems(), start as int),
            parent_edge_holds::<T, C>(old(self).elems(), start as int),
            children_below_grandparent::<T, C>(old(self).elems(), start as int),
        ensures
            final (self).elems().len() == old(self).elems().len(),
            final (self).elems().to_multiset() == old(self).elems().to_multiset(),
            r >= start,
            r < final (self).elems().len(),
            final (self).elems()[r as int] == old(self).elems()[start as int],
            heap_ordered::<T, C>(final (self).elems()),
            r != start ==> covers_from(final (changed)@, old(changed)@.len() as int, start as int),
            r != start ==> final (self).elems()[start as int] != old(self).elems()[start as int],
            old(changed)@.is_prefix_of(final (changed)@),
            forall|t: int|
                old(changed)@.len() <= t < final (changed)@.len() ==> 0 <= (
                #[trigger] final (changed)@[t]).pos() < final (self).elems().len(),
            forall|j: int|
                0 <= j < final (self).elems().len() && final (self).elems()[j] != old(
                    self,
                ).elems()[j] && j != r ==> covers_from(
                    final (changed)@,
                    old(changed)@.len() as int,
                    j,
                ),
    {
        let ghost s0 = old(self).elems();
        let ghost c0 = old(changed)@;
        let n = self.data.len();
        let mut i = start;
        loop
            invariant
                start <= i < n,
                n == self.elems().len() == s0.len(),
                self.elems().to_multiset() == s0.to_multiset(),
                self.elems()[i as int] == s0[start as int],
                heap_ordered_except_below::<T, C>(self.elems(), i as int),
                parent_edge_holds::<T, C>(self.elems(), i as int),
                children_below_grandparent::<T, C>(self.elems(), i as int),
                i != start ==> covers_from(changed@, c0.len() as int, start as int),
                i != start ==> self.elems()[start as int] != s0[start as int],
                c0.is_prefix_of(changed@),
                forall|t: int|
                    c0.len() <= t < changed@.len() ==> 0 <= #[trigger] changed@[t].pos()
                        < self.elems().len(),
                forall|j: int|
                    0 <= j < self.elems().len() && self.elems()[j] != s0[j] && j != i
                        ==> covers_from(changed@, c0.len() as int, j),
            ensures
                start <= i < n,
                self.elems().len() == s0.len(),
                self.elems().to_multiset() == s0.to_multiset(),
                self.elems()[i as int] == s0[start as int],
                heap_ordered::<T, C>(self.elems()),
                i != start ==> covers_from(changed@, c0.len() as int, start as int),
                i != start ==> self.elems()[start as int] != s0[start as int],
                c0.is_prefix_of(changed@),
                forall|t: int|
                    c0.len() <= t < changed@.len() ==> 0 <= #[trigger] changed@[t].pos()
                        < self.elems().len(),
                forall|j: int|
                    0 <= j < self.elems().len() && self.elems()[j] != s0[j] && j != i
                        ==> covers_from(changed@, c0.len() as int, j),
            decreases n - i,
        {
            if i >= n / 2 {
                proof {
                    assert(2 * i + 1 >= n);
                    assert(heap_ordered::<T, C>(self.elems()));
                }
                break ;
            }
            let left = 2 * i + 1;
            let right = 2 * i + 2;
            let mut fav = left;
            if right < n && self.favors_at(right, left) {
                fav = right;
            }
            proof {
                assert((fav - 1) / 2 == i as int);
                assert forall|o: int|
                    1 <= o < n && (o - 1) / 2 == i as int && o != fav implies !C::favors_spec(
                    #[trigger] self.elems()[o],
                    self.elems()[fav as int],
                ) by {
                    if fav == right {
                        assert(o == left);
                        C::favors_asymmetric(
                            self.elems()[right as int],
                            self.elems()[left as int],
                        );
                    } else {
                        assert(o == right);
                    }
                }
            }
            if self.favors_at(fav, i) {
                let ghost pre = self.elems();
                proof {
                    lemma_sift_down_swap::<T, C>(pre, i as int, fav as int);
                }
                self.swap_at(i, fav);
                let ghost ch0 = changed@;
                changed.push(Index(i));
                proof {
                    assert forall|j: int|
                        0 <= j < self.elems().len() && self.elems()[j] != s0[j] && j != fav
                            implies covers_from(changed@, c0.len() as int, j) by {
                        if j == i {
                            assert(changed@[changed@.len() - 1].pos() == i);
                        } else {
                            assert(self.elems()[j] == pre[j]);
                            assert(covers_from(ch0, c0.len() as int, j));
                            let t = choose|t: int|
                                c0.len() <= t < ch0.len() && #[trigger] ch0[t].pos() == j;
                            assert(changed@[t].pos() == j);
                        }
                    }
                    assert(ch0.is_prefix_of(changed@)) by {
                        assert(ch0 =~= changed@.subrange(0, ch0.len() as int));
                    }
                    if i == start {
                        assert(changed@[changed@.len() - 1].pos() == start as int);
                        C::favors_asymmetric(pre[fav as int], pre[i as int]);
                        assert(self.elems()[start as int] != s0[start as int]);
                    } else {
                        lemma_covers_extend(ch0, changed@, c0.len() as int, start as int);
                        assert(self.elems()[start as int] == pre[start as int]);
                    }
                }
                i = fav;
            } else {
                proof {
                    assert forall|j: int| 1 <= j < n && (j - 1) / 2 == i as int
                        implies !C::favors_spec(#[trigger] self.elems()[j], self.elems()[i as int])
                    by {
                        let s = self.elems();
                        if j != fav {
                            if fav == right {
                                assert(j == left);
                                if C::favors_spec(s[left as int], s[i as int]) {
                                    C::favors_transitive(
                                        s[right as int],
                                        s[left as int],
                                        s[i as int],
                                    );
                                    assert(false);
                                }
                            } else {
                                assert(j == right as int);
                                lemma_not_favors_transitive::<T, C>(
                                    s[i as int],
                                    s[left as int],
                                    s[right as int],
                                );
                            }
                        }
                    }
                    assert(heap_ordered::<T, C>(self.elems()));
                }
                break ;
            }
        }
        i
    }
    /// Appends `value` and sifts it toward the root. Returns the final
    /// position of the inserted value, and every other position whose
    /// occupant changed (relative to the array with `value` appended).
    #[verifier::rlimit(100)]
    #[verifier::spinoff_prover]
    pub fn insert(&mut self, value: T) -> (r: (Index, Vec<Index>))
        requires
            old(self).wf(),
        ensures
            final (self).wf(),
            final (self).elems().len() == old(self).elems().len() + 1,
            final (self).elems().to_multiset() == old(self).elems().to_multiset().insert(value),
            0 <= r.0.pos() < final (self).elems().len(),
            final (self).elems()[r.0.pos()] == value,
            forall|t: int|
                0 <= t < r.1@.len() ==> 0 <= (#[trigger] r.1@[t]).pos()
                    < final (self).elems().len(),
            forall|j: int|
                0 <= j < final (self).elems().len() && final (self).elems()[j] != old(
                    self,
                ).elems().push(value)[j] && j != r.0.pos() ==> covers(r.1@, j),
    {
        let ghost s0 = old(self).elems();
        let i = self.data.len();
        self.data.push(value);
        proof {
            broadcast use vstd::seq_lib::group_to_multiset_ensures;

            let s = self.elems();
            assert(s.to_multiset() =~= s0.to_multiset().insert(value));
            assert(heap_ordered_except::<T, C>(s, i as int)) by {
                assert forall|j: int|
                    1 <= j < s.len() && j != i as int && (j - 1) / 2 != i as int
                        implies !C::favors_spec(#[trigger] s[j], s[(j - 1) / 2]) by {
                    assert(j < i as int);
                    assert(s[j] == s0[j]);
                    assert(s[(j - 1) / 2] == s0[(j - 1) / 2]);
                }
            }
            assert(children_below_grandparent::<T, C>(s, i as int)) by {
                if i >= 1 {
                    assert forall|j: int|
                        1 <= j < s.len() && (j - 1) / 2 == i as int implies !C::favors_spec(
                        #[trigger] s[j],
                        s[(i as int - 1) / 2],
                    ) by {
                        assert(j >= 2 * (i as int) + 1);
                        assert(false);
                    }
                }
            }
        }
        let mut changed: Vec<Index> = Vec::new();
        let r = self.sift_up(i, &mut changed);
        proof {
            let s = self.elems();
            assert(heap_ordered::<T, C>(s)) by {
                if r == i {
                    assert forall|j: int|
                        1 <= j < s.len() && (j - 1) / 2 == i as int implies !C::favors_spec(
                        #[trigger] s[j],
                        s[i as int],
                    ) by {
                        assert(j >= 2 * (i as int) + 1);
                        assert(false);
                    }
                    assert(children_edges_hold::<T, C>(s, r as int));
                }
                assert forall|j: int| 1 <= j < s.len() implies !C::favors_spec(
                    #[trigger] s[j],
                    s[(j - 1) / 2],
                ) by {
                    if (j - 1) / 2 == r as int {
                        assert(!C::favors_spec(s[j], s[r as int]));
                    }
                }
            }
            assert forall|j: int|
                0 <= j < s.len() && s[j] != s0.push(value)[j] && j != r as int implies covers(
                changed@,
                j,
            ) by {
                lemma_covers_from_zero(changed@, j);
            }
        }
        (Index(r), changed)
    }

    /// Removes and returns the element at `index`, repairing the heap
    /// ordering. Every position whose occupant changed (the vacated
    /// position included, if still in range) is reported.
    #[verifier::rlimit(100)]
    #[verifier::spinoff_prover]
    pub fn remove(&mut self, index: Index) -> (r: (T, Vec<Index>))
        requires
            old(self).wf(),
            0 <= index.pos() < old(self).elems().len(),
        ensures
            final (self).wf(),
            r.0 == old(self).elems()[index.pos()],
            final (self).elems().len() == old(self).elems().len() - 1,
            final (self).elems().to_multiset() == old(self).elems().to_multiset().remove(r.0),
            forall|t: int|
                0 <= t < r.1@.len() ==> 0 <= (#[trigger] r.1@[t]).pos()
                    < final (self).elems().len(),
            forall|j: int|
                0 <= j < final (self).elems().len() && final (self).elems()[j] != old(
                    self,
                ).elems()[j] ==> covers(r.1@, j),
    {
        broadcast use vstd::seq_lib::group_to_multiset_ensures;

        let ghost s0 = old(self).elems();
        let i = index.value();
        let last = self.data.len() - 1;
        let mut changed: Vec<Index> = Vec::new();
        if i == last {
            let v = self.data.pop().unwrap();
            proof {
                let s = self.elems();
                assert(s =~= s0.drop_last());
                assert(s =~= s0.remove(last as int));
                assert(s.to_multiset() =~= s0.to_multiset().remove(v));
            }
            (v, changed)
        } else {
            self.swap_at(i, last);
            let v = self.data.pop().unwrap();
            proof {
                let s = self.elems();
                let s1 = s0.update(i as int, s0[last as int]).update(last as int, s0[i as int]);
                assert(s =~= s1.drop_last());
                assert(s =~= s1.remove(last as int));
                assert(s.to_multiset() =~= s0.to_multiset().remove(v));
                assert(heap_ordered_except::<T, C>(s, i as int)) by {
                    assert forall|j: int|
                        1 <= j < s.len() && j != i as int && (j - 1) / 2 != i as int
                            implies !C::favors_spec(#[trigger] s[j], s[(j - 1) / 2]) by {
                        assert(s[j] == s0[j]);
                        assert(s[(j - 1) / 2] == s0[(j - 1) / 2]);
                    }
                }
                assert(children_below_grandparent::<T, C>(s, i as int)) by {
                    if i >= 1 {
                        let p = (i - 1) as int / 2;
                        assert forall|j: int|
                            1 <= j < s.len() && (j - 1) / 2 == i as int implies !C::favors_spec(
                            #[trigger] s[j],
                            s[p],
                        ) by {
                            assert(s[j] == s0[j]);
                            assert(s[p] == s0[p]);
                            assert(!C::favors_spec(s0[j], s0[i as int]));
                            assert(!C::favors_spec(s0[i as int], s0[p]));
                            lemma_not_favors_transitive::<T, C>(s0[p], s0[i as int], s0[j]);
                        }
                    }
                }
            }
            let r1 = self.sift_up(i, &mut changed);
            let ghost s_up = self.elems();
            let ghost ch_up = changed@;
            proof {
                if r1 != i {
                    assert(heap_ordered::<T, C>(s_up)) by {
                        assert forall|j: int| 1 <= j < s_up.len() implies !C::favors_spec(
                            #[trigger] s_up[j],
                            s_up[(j - 1) / 2],
                        ) by {
                            if (j - 1) / 2 == r1 as int {
                                assert(!C::favors_spec(s_up[j], s_up[r1 as int]));
                            }
                        }
                    }
                }
            }
            let r2 = self.sift_down(r1, &mut changed);
            let ghost s_dn = self.elems();
            let ghost ch_dn = changed@;
            changed.push(Index(r2));
            proof {
                assert(ch_dn.is_prefix_of(changed@)) by {
                    assert(ch_dn =~= changed@.subrange(0, ch_dn.len() as int));
                }
                assert(ch_up.is_prefix_of(changed@)) by {
                    assert(ch_up =~= changed@.subrange(0, ch_up.len() as int));
                }
                assert(changed@[changed@.len() - 1].pos() == r2 as int);
                let ghost s_pre = old(self).elems().update(
                    i as int,
                    old(self).elems()[last as int],
                ).drop_last();
                assert(s_dn =~= self.elems());
                assert forall|j: int|
                    0 <= j < s_dn.len() && s_dn[j] != s0[j] implies covers(changed@, j) by {
                    if j == r2 as int {
                        assert(changed@[changed@.len() - 1].pos() == j);
                    } else if s_dn[j] != s_up[j] {
                        // changed during the downward sift
                        if j == r1 as int {
                            // the sift-down start moved away
                            assert(r2 != r1);
                            lemma_covers_extend(ch_dn, changed@, ch_up.len() as int, j);
                            lemma_covers_from_zero(changed@, j);
                        } else {
                            lemma_covers_extend(ch_dn, changed@, ch_up.len() as int, j);
                            lemma_covers_from_zero(changed@, j);
                        }
                    } else if s_up[j] != s_pre[j] {
                        // changed during the upward sift
                        if j == r1 as int {
                            // still holding the moved element afterward, so the
                            // downward sift did not move it: r2 == r1, handled above
                            assert(s_dn[r1 as int] == s_up[r1 as int]);
                            assert(s_dn[r2 as int] == s_up[r1 as int]);
                            assert(r2 == r1);
                        } else {
                            lemma_covers_extend(ch_up, changed@, 0, j);
                            lemma_covers_from_zero(changed@, j);
                        }
                    } else {
                        // unchanged by both sifts, so it changed in the swap: j == i
                        assert(j == i as int);
                        // the moved element still sits where the swap put it
                        assert(s_dn[j] == s_pre[i as int]);
                        assert(s_up[r1 as int] == s_pre[i as int]);
                        assert(s_dn[r2 as int] == s_up[r1 as int]);
                        assert(r2 == i);
                    }
                }
            }
            (v, changed)
        }
    }
}

/// In a heap-ordered array, no element is favored over the root.
pub proof fn lemma_root_favored<T, C: Comparator<T>>(s: Seq<T>, j: int)
    requires
        heap_ordered::<T, C>(s),
        0 <= j < s.len(),
    ensures
        !C::favors_spec(s[j], s[0]),
    decreases j,
{
    if j == 0 {
        C::favors_asymmetric(s[0], s[0]);
    } else {
        let p = (j - 1) / 2;
        lemma_root_favored::<T, C>(s, p);
        lemma_not_favors_transitive::<T, C>(s[0], s[p], s[j]);
    }
}

/// One sift-up step: swapping a favored element with its parent restores
/// every edge not touching the parent position, and the conditions needed
/// to continue sifting from there.
proof fn lemma_sift_up_swap<T, C: Comparator<T>>(pre: Seq<T>, i: int, p: int)
    requires
        1 <= i < pre.len(),
        p == (i - 1) / 2,
        heap_ordered_except::<T, C>(pre, i),
        children_below_grandparent::<T, C>(pre, i),
        C::favors_spec(pre[i], pre[p]),
    ensures
        heap_ordered_except::<T, C>(pre.update(p, pre[i]).update(i, pre[p]), p),
        children_below_grandparent::<T, C>(pre.update(p, pre[i]).update(i, pre[p]), p),
        children_edges_hold::<T, C>(pre.update(p, pre[i]).update(i, pre[p]), p),
{
    let post = pre.update(p, pre[i]).update(i, pre[p]);
    let n = pre.len();
    assert(0 <= p < i);
    assert forall|j: int|
        1 <= j < n && j != p && (j - 1) / 2 != p implies !C::favors_spec(
        #[trigger] post[j],
        post[(j - 1) / 2],
    ) by {
        let pj = (j - 1) / 2;
        assert(j != i);  // parent of i is p, excluded by the hypothesis
        if pj == i {
            assert(post[j] == pre[j]);
            assert(post[i] == pre[p]);
            assert(!C::favors_spec(pre[j], pre[p]));  // children of i below grandparent
        } else {
            assert(post[j] == pre[j]);
            assert(post[pj] == pre[pj]);
            assert(!C::favors_spec(pre[j], pre[pj]));  // edge untouched
        }
    }
    if p >= 1 {
        let pp = (p - 1) / 2;
        assert(0 <= pp < p);
        assert forall|j: int| 1 <= j < n && (j - 1) / 2 == p implies !C::favors_spec(
            #[trigger] post[j],
            post[pp],
        ) by {
            assert(post[pp] == pre[pp]);
            if j == i {
                assert(post[i] == pre[p]);
                assert(!C::favors_spec(pre[p], pre[pp]));  // old edge p -> pp
            } else {
                assert(post[j] == pre[j]);
                assert(!C::favors_spec(pre[j], pre[p]));  // old edge j -> p
                assert(!C::favors_spec(pre[p], pre[pp]));  // old edge p -> pp
                lemma_not_favors_transitive::<T, C>(pre[pp], pre[p], pre[j]);
            }
        }
    }
    assert forall|j: int| 1 <= j < n && (j - 1) / 2 == p implies !C::favors_spec(
        #[trigger] post[j],
        post[p],
    ) by {
        assert(post[p] == pre[i]);
        if j == i {
            assert(post[i] == pre[p]);
            C::favors_asymmetric(pre[i], pre[p]);
        } else {
            assert(post[j] == pre[j]);
            assert(!C::favors_spec(pre[j], pre[p]));  // old edge j -> p
            if C::favors_spec(pre[j], pre[i]) {
                C::favors_transitive(pre[j], pre[i], pre[p]);
            }
        }
    }
}

/// One sift-down step: swapping an element with its favored child, when
/// the child is favored over it, restores every edge not below the child
/// position, and the conditions needed to continue sifting from there.
proof fn lemma_sift_down_swap<T, C: Comparator<T>>(pre: Seq<T>, i: int, c: int)
    requires
        0 <= i < c < pre.len(),
        (c - 1) / 2 == i,
        heap_ordered_except_below::<T, C>(pre, i),
        parent_edge_holds::<T, C>(pre, i),
        children_below_grandparent::<T, C>(pre, i),
        C::favors_spec(pre[c], pre[i]),
        forall|o: int|
            1 <= o < pre.len() && (o - 1) / 2 == i && o != c ==> !C::favors_spec(
                #[trigger] pre[o],
                pre[c],
            ),
    ensures
        heap_ordered_except_below::<T, C>(pre.update(i, pre[c]).update(c, pre[i]), c),
        parent_edge_holds::<T, C>(pre.update(i, pre[c]).update(c, pre[i]), c),
        children_below_grandparent::<T, C>(pre.update(i, pre[c]).update(c, pre[i]), c),
        pre.update(i, pre[c]).update(c, pre[i])[c] == pre[i],
{
    let post = pre.update(i, pre[c]).update(c, pre[i]);
    let n = pre.len();
    C::favors_asymmetric(pre[c], pre[i]);
    assert forall|j: int| 1 <= j < n && (j - 1) / 2 != c implies !C::favors_spec(
        #[trigger] post[j],
        post[(j - 1) / 2],
    ) by {
        let pj = (j - 1) / 2;
        if j == c {
            assert(post[c] == pre[i]);
            assert(post[i] == pre[c]);
        } else if j == i {
            assert(post[i] == pre[c]);
            assert(post[pj] == pre[pj]);
            assert(!C::favors_spec(pre[c], pre[pj]));  // child of i below grandparent
        } else if pj == i {
            assert(post[j] == pre[j]);
            assert(post[i] == pre[c]);
            assert(!C::favors_spec(pre[j], pre[c]));  // c is the favored child
        } else {
            assert(post[j] == pre[j]);
            assert(post[pj] == pre[pj]);
            assert(!C::favors_spec(pre[j], pre[pj]));  // edge untouched
        }
    }
    assert forall|j: int| 1 <= j < n && (j - 1) / 2 == c implies !C::favors_spec(
        #[trigger] post[j],
        post[i],
    ) by {
        assert(post[j] == pre[j]);
        assert(!C::favors_spec(pre[j], pre[c]));  // old edge j -> c
    }
}

/// Swapping two positions leaves the multiset of elements unchanged.
proof fn lemma_swap_multiset<T>(s: Seq<T>, a: int, b: int)
    requires
        0 <= a < s.len(),
        0 <= b < s.len(),
        a != b,
    ensures
        s.update(a, s[b]).update(b, s[a]).to_multiset() == s.to_multiset(),
{
    broadcast use vstd::seq_lib::group_to_multiset_ensures;
    broadcast use vstd::seq_lib::to_multiset_update;

    let s1 = s.update(a, s[b]);
    let s2 = s1.update(b, s[a]);
    assert(s.contains(s[a]));
    assert(s1.contains(s1[b]));
    assert(s1[b] == s[b]);
    assert(s1.to_multiset() =~= s.to_multiset().insert(s[b]).remove(s[a]));
    assert(s2.to_multiset() =~= s1.to_multiset().insert(s[a]).remove(s[b]));
    assert(s.to_multiset().count(s[a]) > 0);
    assert(s.to_multiset().insert(s[b]).count(s[b]) > 0);
    assert(s2.to_multiset() =~= s.to_multiset());
}

} // verus!
