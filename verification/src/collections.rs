//! Walking several sequences at once, taking at each step an item from the
//! first sequence whose head is chosen.
use vstd::prelude::*;

verus! {

/// The items of `v` in the reverse order.
fn reversed<U>(v: Vec<U>) -> (r: Vec<U>)
    ensures
        r@ == v@.reverse(),
{
    let mut v = v;
    let ghost all = v@;
    let mut r: Vec<U> = Vec::new();
    while v.len() > 0
        invariant
            v@.len() <= all.len(),
            v@ == all.take(v@.len() as int),
            r@.len() == all.len() - v@.len(),
            forall|j: int| 0 <= j < r@.len() ==> r@[j] == all[all.len() - 1 - j],
        decreases v.len(),
    {
        let x = v.pop().unwrap();
        r.push(x);
    }
    assert(r@ =~= all.reverse());
    r
}

/// The head of a sequence, if it has one.
pub open spec fn head_of<'a, T>(s: Seq<T>) -> Option<&'a T> {
    if s.len() > 0 {
        Some(&s[0])
    } else {
        None
    }
}

/// The heads of several sequences.
pub open spec fn heads_of<'a, T>(sources: Seq<Seq<T>>) -> Seq<Option<&'a T>> {
    Seq::new(sources.len(), |i: int| head_of(sources[i]))
}

/// `sources` after the sequence `k` lost its head, if it had one.
pub open spec fn advanced<T>(sources: Seq<Seq<T>>, k: int) -> Seq<Seq<T>> {
    if sources[k].len() > 0 {
        sources.update(k, sources[k].drop_first())
    } else {
        sources
    }
}

/// Several sequences that are walked together. At each step `aggregate`
/// sees the heads of all of them, and the first sequence whose head
/// `predicate` accepts, given what `aggregate` made of the heads, yields its
/// head.
#[verifier::reject_recursive_types(T)]
#[verifier::reject_recursive_types(I)]
pub struct ConditionalMultiIterator<T, A, I, P> where
    A: Fn(&[Option<&T>]) -> I,
    P: Fn(&Option<&T>, &I) -> bool,
 {
    // each source holds its items in the reverse order: the head is the last
    sources: Vec<Vec<T>>,
    aggregate: A,
    predicate: P,
}

/// Whether the two functions can be called on every argument.
pub open spec fn are_total<T, A, I, P>(aggregate: A, predicate: P) -> bool where
    A: Fn(&[Option<&T>]) -> I,
    P: Fn(&Option<&T>, &I) -> bool,
 {
    &&& forall|heads: &[Option<&T>]| call_requires(aggregate, (heads,))
    &&& forall|head: &Option<&T>, aggregated: &I| call_requires(predicate, (head, aggregated))
}

/// Walks `sources` together, under `aggregate` and `predicate`.
pub fn conditional_multi_iter<T, I, A, P>(sources: Vec<Vec<T>>, aggregate: A, predicate: P) -> (iter:
    ConditionalMultiIterator<T, A, I, P>) where
    A: Fn(&[Option<&T>]) -> I,
    P: Fn(&Option<&T>, &I) -> bool,

    requires
        are_total::<T, A, I, P>(aggregate, predicate),
    ensures
        iter.remaining() == Seq::new(sources@.len(), |i: int| sources@[i]@),
        iter.aggregate() == aggregate,
        iter.predicate() == predicate,
{
    let ghost given = Seq::new(sources@.len(), |i: int| sources@[i]@);
    let mut backwards = reversed(sources);
    let mut stored: Vec<Vec<T>> = Vec::new();
    while backwards.len() > 0
        invariant
            backwards@.len() + stored@.len() == given.len(),
            forall|i: int|
                0 <= i < backwards@.len() ==> (#[trigger] backwards@[i])@ == given[given.len() - 1
                    - i],
            forall|i: int| 0 <= i < stored@.len() ==> (#[trigger] stored@[i])@ == given[i].reverse(),
        decreases backwards.len(),
    {
        let source = backwards.pop().unwrap();
        stored.push(reversed(source));
    }
    let iter = ConditionalMultiIterator { sources: stored, aggregate, predicate };
    assert(iter.remaining() =~= given) by {
        assert forall|i: int| 0 <= i < given.len() implies iter.remaining()[i] == given[i] by {
            assert(given[i].reverse().reverse() =~= given[i]);
        }
    }
    iter
}

impl<T, A, I, P> ConditionalMultiIterator<T, A, I, P> where
    A: Fn(&[Option<&T>]) -> I,
    P: Fn(&Option<&T>, &I) -> bool,
 {
    #[verifier::type_invariant]
    spec fn is_callable(&self) -> bool {
        are_total::<T, A, I, P>(self.aggregate, self.predicate)
    }

    /// What is left of each source, the head first.
    pub closed spec fn remaining(&self) -> Seq<Seq<T>> {
        Seq::new(self.sources@.len(), |i: int| self.sources@[i]@.reverse())
    }

    /// The function that sees all heads.
    pub closed spec fn aggregate(&self) -> A {
        self.aggregate
    }

    /// The function that accepts or refuses a head.
    pub closed spec fn predicate(&self) -> P {
        self.predicate
    }

    /// Whether one step from `before` may end in `after` and yield `item`:
    /// `aggregate` made `aggregated` of the heads, `predicate` refused the
    /// heads of the sources before `chosen` and accepted that of `chosen`,
    /// which then lost its head, if it had one; or `predicate` refused every
    /// head, and nothing was yielded.
    pub open spec fn is_step(
        self,
        before: Seq<Seq<T>>,
        after: Seq<Seq<T>>,
        item: Option<T>,
        heads: &[Option<&T>],
        aggregated: I,
        chosen: int,
    ) -> bool {
        &&& heads@ == heads_of(before)
        &&& call_ensures(self.aggregate(), (heads,), aggregated)
        &&& 0 <= chosen <= before.len()
        &&& forall|k: int|
            0 <= k < chosen ==> call_ensures(
                self.predicate(),
                (&#[trigger] heads_of(before)[k], &aggregated),
                false,
            )
        &&& if chosen < before.len() {
            &&& call_ensures(self.predicate(), (&heads_of(before)[chosen], &aggregated), true)
            &&& item == match head_of(before[chosen]) {
                Some(x) => Some(*x),
                None => None,
            }
            &&& after == advanced(before, chosen)
        } else {
            item is None && after == before
        }
    }

    /// The heads of the sources.
    fn peek_all(&self) -> (heads: Vec<Option<&T>>)
        ensures
            heads@ == heads_of(self.remaining()),
    {
        let mut heads: Vec<Option<&T>> = Vec::new();
        let mut i: usize = 0;
        while i < self.sources.len()
            invariant
                i <= self.sources.len(),
                heads@ == heads_of(self.remaining()).take(i as int),
            decreases self.sources.len() - i,
        {
            let head = self.peek(i);
            heads.push(head);
            assert(heads@ =~= heads_of(self.remaining()).take(i as int + 1));
            i += 1;
        }
        assert(heads@ =~= heads_of(self.remaining()));
        heads
    }

    /// The head of one source.
    fn peek(&self, i: usize) -> (head: Option<&T>)
        requires
            i < self.remaining().len(),
        ensures
            head == heads_of(self.remaining())[i as int],
    {
        let source = &self.sources[i];
        if source.len() > 0 {
            Some(&source[source.len() - 1])
        } else {
            None
        }
    }

    /// Takes the next item: the head of the first source whose head the
    /// predicate accepts. Nothing is taken where it accepts none, or accepts
    /// the absent head of a source that is used up.
    pub fn next(&mut self) -> (item: Option<T>)
        ensures
            final(self).aggregate() == old(self).aggregate(),
            final(self).predicate() == old(self).predicate(),
            exists|heads: &[Option<&T>], aggregated: I, chosen: int|
                old(self).is_step(
                    old(self).remaining(),
                    final(self).remaining(),
                    item,
                    heads,
                    aggregated,
                    chosen,
                ),
    {
        proof {
            use_type_invariant(&*self);
        }
        let ghost before = self.remaining();
        let input = self.peek_all();
        let heads = input.as_slice();
        let aggregated = (self.aggregate)(heads);
        let mut i: usize = 0;
        let mut found: Option<usize> = None;
        while i < self.sources.len() && found.is_none()
            invariant
                i <= self.sources.len(),
                self.remaining() == before,
                are_total::<T, A, I, P>(self.aggregate, self.predicate),
                match found {
                    Some(k) => k < before.len() && call_ensures(
                        self.predicate,
                        (&heads_of(before)[k as int], &aggregated),
                        true,
                    ) && forall|j: int|
                        0 <= j < k ==> call_ensures(
                            self.predicate,
                            (&#[trigger] heads_of(before)[j], &aggregated),
                            false,
                        ),
                    None => forall|j: int|
                        0 <= j < i ==> call_ensures(
                            self.predicate,
                            (&#[trigger] heads_of(before)[j], &aggregated),
                            false,
                        ),
                },
            decreases self.sources.len() - i + (if found is None { 1int } else { 0int }),
        {
            let head = self.peek(i);
            if (self.predicate)(&head, &aggregated) {
                found = Some(i);
            } else {
                i += 1;
            }
        }
        match found {
            Some(k) => {
                let item = self.sources[k].pop();
                proof {
                    let source = before[k as int];
                    if source.len() > 0 {
                        assert(self.remaining() =~= before.update(k as int, source.drop_first()))
                            by {
                            assert(old(self).sources@[k as int]@.reverse() == source);
                            assert(self.sources@[k as int]@.reverse() =~= source.drop_first());
                        }
                    } else {
                        assert(self.remaining() =~= before);
                    }
                    assert(old(self).is_step(
                        before,
                        self.remaining(),
                        item,
                        heads,
                        aggregated,
                        k as int,
                    ));
                }
                item
            },
            None => {
                proof {
                    assert(old(self).is_step(
                        before,
                        self.remaining(),
                        None,
                        heads,
                        aggregated,
                        before.len() as int,
                    ));
                }
                None
            },
        }
    }
}

} // verus!
