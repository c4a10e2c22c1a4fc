//! The marks of a target and the commits they are bound to, kept in the
//! order of the marks.
use std::collections::BTreeMap;
use vstd::prelude::*;
use vstd::std_specs::btree::increasing_seq;
use vstd::std_specs::cmp::OrdSpec;
use vstd::std_specs::iter::IteratorSpec;
use crate::tools::{
    are_rising,
    bound_to,
    lemma_bound_at_rank,
    lemma_rank,
    marks_view,
    rank_of,
    with_mark,
    Mark,
    MarkView,
};

verus! {

broadcast use {vstd::std_specs::btree::group_btree_axioms, vstd::laws_cmp::group_laws_cmp};

/// Whether `marks` lists what `map` holds: every key once, in rising
/// order, each with the commit it is bound to.
pub open spec fn is_listing(marks: Seq<MarkView>, map: Map<usize, String>) -> bool {
    &&& are_rising(marks)
    &&& forall|i: int|
        0 <= i < marks.len() ==> (#[trigger] marks[i]).mark <= usize::MAX && map.contains_key(
            marks[i].mark as usize,
        ) && map[marks[i].mark as usize]@ == marks[i].sha1
    &&& forall|k: usize| #[trigger]
        map.contains_key(k) ==> exists|i: int| 0 <= i < marks.len() && (#[trigger] marks[i]).mark == k
}

/// In a listing a mark is bound to what the map holds for it.
proof fn lemma_listing_binds(marks: Seq<MarkView>, map: Map<usize, String>, mark: usize)
    requires
        is_listing(marks, map),
    ensures
        bound_to(marks, mark as nat) == if map.contains_key(mark) {
            Some(map[mark]@)
        } else {
            None
        },
{
    lemma_rank(marks, mark as nat);
    lemma_bound_at_rank(marks, mark as nat);
    let r = rank_of(marks, mark as nat);
    if map.contains_key(mark) {
        let i = choose|i: int| 0 <= i < marks.len() && (#[trigger] marks[i]).mark == mark;
        if i < r {
            assert(marks[i].mark < mark);
        }
        if i > r {
            assert(marks[r].mark < marks[i].mark);
            assert(marks[r].mark >= mark);
        }
        assert(i == r);
    } else if r < marks.len() && marks[r].mark == mark {
        assert(map.contains_key(marks[r].mark as usize));
    }
}

/// A listing with one mark bound anew lists the map with that mark bound
/// anew.
proof fn lemma_listing_with(
    marks: Seq<MarkView>,
    map: Map<usize, String>,
    mark: usize,
    sha1: String,
)
    requires
        is_listing(marks, map),
    ensures
        is_listing(with_mark(marks, mark as nat, sha1@), map.insert(mark, sha1)),
{
    lemma_rank(marks, mark as nat);
    let at = rank_of(marks, mark as nat);
    let after = with_mark(marks, mark as nat, sha1@);
    let fresh = map.insert(mark, sha1);
    let replaced = at < marks.len() && marks[at].mark == mark;
    assert forall|i: int, j: int| 0 <= i < j < after.len() implies after[i].mark
        < after[j].mark by {
        if replaced {
            assert(after[i].mark == marks[i].mark);
            assert(after[j].mark == marks[j].mark);
        } else {
            if i < at && j > at {
                assert(after[i] == marks[i] && after[j] == marks[j - 1]);
            } else if i < at && j < at {
                assert(after[i] == marks[i] && after[j] == marks[j]);
            } else if i > at {
                assert(after[i] == marks[i - 1] && after[j] == marks[j - 1]);
            } else if i == at {
                assert(after[j] == marks[j - 1]);
            } else {
                assert(after[i] == marks[i]);
            }
        }
    }
    assert forall|i: int| 0 <= i < after.len() implies (#[trigger] after[i]).mark <= usize::MAX
        && fresh.contains_key(after[i].mark as usize) && fresh[after[i].mark as usize]@
        == after[i].sha1 by {
        if i != at {
            let j = if replaced || i < at {
                i
            } else {
                i - 1
            };
            assert(after[i] == marks[j]);
            assert(marks[j].mark != mark) by {
                if j < at {
                    assert(marks[j].mark < mark);
                } else if replaced {
                    assert(marks[at].mark < marks[j].mark);
                } else {
                    assert(marks[j].mark >= mark);
                    if at < marks.len() && j > at {
                        assert(marks[at].mark < marks[j].mark);
                    }
                }
            }
        }
    }
    assert forall|k: usize| #[trigger] fresh.contains_key(k) implies exists|i: int|
        0 <= i < after.len() && (#[trigger] after[i]).mark == k by {
        if k == mark {
            assert(after[at].mark == k);
        } else {
            assert(map.contains_key(k));
            let j = choose|j: int| 0 <= j < marks.len() && (#[trigger] marks[j]).mark == k;
            let i = if replaced || j < at {
                j
            } else {
                j + 1
            };
            assert(after[i] == marks[j]);
        }
    }
}

/// Two listings of one map agree on their first `n` marks.
proof fn lemma_listings_agree(
    one: Seq<MarkView>,
    other: Seq<MarkView>,
    map: Map<usize, String>,
    n: int,
)
    requires
        is_listing(one, map),
        is_listing(other, map),
        0 <= n <= one.len(),
    ensures
        n <= other.len(),
        forall|i: int| 0 <= i < n ==> one[i] == other[i],
    decreases n,
{
    if n > 0 {
        lemma_listings_agree(one, other, map, n - 1);
        let k = one[n - 1].mark as usize;
        assert(map.contains_key(k));
        // the mark stands in the other listing, and at no other place
        let j = choose|j: int| 0 <= j < other.len() && (#[trigger] other[j]).mark == k;
        if j < n - 1 {
            assert(one[j] == other[j]);
            assert(one[j].mark < one[n - 1].mark);
        }
        if j > n - 1 {
            let back = other[n - 1].mark as usize;
            assert(map.contains_key(back));
            let i = choose|i: int| 0 <= i < one.len() && (#[trigger] one[i]).mark == back;
            assert(other[n - 1].mark < other[j].mark);
            if i < n - 1 {
                assert(one[i] == other[i]);
                assert(other[i].mark < other[n - 1].mark);
            }
            if i > n - 1 {
                assert(one[n - 1].mark < one[i].mark);
            }
        }
        assert(j == n - 1);
    }
}

/// A map has one listing.
pub proof fn lemma_listing_unique(one: Seq<MarkView>, other: Seq<MarkView>, map: Map<usize, String>)
    requires
        is_listing(one, map),
        is_listing(other, map),
    ensures
        one == other,
{
    lemma_listings_agree(one, other, map, one.len() as int);
    lemma_listings_agree(other, one, map, other.len() as int);
    assert(one =~= other);
}

/// Keys that the map yields in increasing order rise.
proof fn lemma_increasing(keys: Seq<usize>)
    requires
        increasing_seq(keys),
    ensures
        forall|i: int, j: int| 0 <= i < j < keys.len() ==> keys[i] < keys[j],
{
    assert forall|i: int, j: int| 0 <= i < j < keys.len() implies keys[i] < keys[j] by {
        assert(keys[i].cmp_spec(&keys[j]) is Less);
    }
}

/// The marks of a target, in rising order.
pub struct MarkTable {
    marks: BTreeMap<usize, String>,
    listing: Ghost<Seq<MarkView>>,
}

impl View for MarkTable {
    type V = Seq<MarkView>;

    closed spec fn view(&self) -> Seq<MarkView> {
        self.listing@
    }
}

impl MarkTable {
    #[verifier::type_invariant]
    spec fn is_listed(&self) -> bool {
        is_listing(self.listing@, self.marks@)
    }

    /// The table without marks.
    pub fn new() -> (table: MarkTable)
        ensures
            table@ == Seq::<MarkView>::empty(),
    {
        MarkTable { marks: BTreeMap::new(), listing: Ghost(Seq::empty()) }
    }

    /// The commit that a mark is bound to.
    pub fn get(&self, mark: usize) -> (sha1: Option<&String>)
        ensures
            match bound_to(self@, mark as nat) {
                Some(bound) => sha1 matches Some(s) && s@ == bound,
                None => sha1 is None,
            },
            are_rising(self@),
    {
        proof {
            use_type_invariant(self);
            lemma_listing_binds(self.listing@, self.marks@, mark);
        }
        self.marks.get(&mark)
    }

    /// Binds a mark to a commit, in place of what it was bound to.
    pub fn insert(&mut self, mark: usize, sha1: String)
        ensures
            final(self)@ == with_mark(old(self)@, mark as nat, sha1@),
            are_rising(final(self)@),
    {
        proof {
            use_type_invariant(&*self);
        }
        let mut taken = MarkTable::new();
        core::mem::swap(self, &mut taken);
        let MarkTable { marks, listing } = taken;
        let mut marks = marks;
        proof {
            lemma_listing_with(listing@, marks@, mark, sha1);
        }
        let ghost bound = with_mark(listing@, mark as nat, sha1@);
        marks.insert(mark, sha1);
        *self = MarkTable { marks, listing: Ghost(bound) };
    }

    /// The marks, in rising order.
    pub fn marks(&self) -> (marks: Vec<Mark>)
        ensures
            marks_view(marks@) == self@,
            are_rising(self@),
    {
        proof {
            use_type_invariant(self);
        }
        let mut marks: Vec<Mark> = Vec::new();
        let iter = self.marks.iter();
        let ghost all = iter.remaining();
        for entry in it: iter
            invariant
                marks@.len() == it.index(),
                it.seq() == all,
                forall|i: int|
                    0 <= i < marks@.len() ==> (#[trigger] marks@[i])@ == (MarkView {
                        mark: *all[i].0 as nat,
                        sha1: (*all[i].1)@,
                    }),
        {
            marks.push(Mark { mark: *entry.0, sha1: entry.1.clone() });
        }
        proof {
            let listed = marks_view(marks@);
            let keys = all.map_values(|kv: (&usize, &String)| *kv.0);
            lemma_increasing(keys);
            assert forall|i: int, j: int| 0 <= i < j < listed.len() implies listed[i].mark
                < listed[j].mark by {
                assert(listed[i].mark == keys[i] && listed[j].mark == keys[j]);
            }
            assert forall|k: usize| #[trigger] self.marks@.contains_key(k) implies exists|i: int|
                0 <= i < listed.len() && (#[trigger] listed[i]).mark == k by {
                let held = &self.marks@[k];
                assert(all.contains((&k, held)));
                let i = choose|i: int| 0 <= i < all.len() && all[i] == (&k, held);
                assert(listed[i].mark == k);
            }
            assert(is_listing(listed, self.marks@));
            lemma_listing_unique(listed, self.listing@, self.marks@);
        }
        marks
    }
}

} // verus!
