//! A binary tree shaped as a sum type: every value lives in a leaf, and a
//! branch owns exactly two subtrees and holds no value of its own.

use crate::tree::callable_on;
use crate::tree::lemma_callable_slice;
use crate::tree::first_match;
use crate::tree::none_matches;
use crate::tree::visited_all;
use vstd::prelude::*;

verus! {

/// The failure signal of [`SumTree::to_branch_with`]: the node it was
/// asked to split was not a leaf.
#[derive(Clone, Copy, Debug, PartialEq, Eq, Structural)]
pub struct NotALeaf;

/// A sum-type tree: a terminal leaf holding one value, or a branch of
/// exactly two owned subtrees.
pub enum SumTree {
    Leaf(u64),
    Branch(Box<SumTree>, Box<SumTree>),
}

impl SumTree {
    /// The in-order sequence of leaf values: all of the left subtree,
    /// then all of the right.
    pub open spec fn in_order(self) -> Seq<u64>
        decreases self,
    {
        match self {
            SumTree::Leaf(v) => seq![v],
            SumTree::Branch(l, r) => (*l).in_order() + (*r).in_order(),
        }
    }
}

impl View for SumTree {
    type V = Seq<u64>;

    open spec fn view(&self) -> Seq<u64> {
        self.in_order()
    }
}

impl SumTree {
    /// A single leaf holding `val`.
    pub fn leaf(val: u64) -> (t: SumTree)
        ensures
            t == SumTree::Leaf(val),
            t@ == seq![val],
    {
        let t = SumTree::Leaf(val);
        proof {
            assert(t@ =~= seq![val]);
        }
        t
    }

    /// A branch of two leaves holding `left_value` and `right_value`, in
    /// exactly the positions given: this constructor enforces no ordering.
    pub fn branch(left_value: u64, right_value: u64) -> (t: SumTree)
        ensures
            t == SumTree::Branch(
                Box::new(SumTree::Leaf(left_value)),
                Box::new(SumTree::Leaf(right_value)),
            ),
            t@ == seq![left_value, right_value],
    {
        let t = SumTree::Branch(
            Box::new(SumTree::Leaf(left_value)),
            Box::new(SumTree::Leaf(right_value)),
        );
        proof {
            assert(SumTree::Leaf(left_value).in_order() =~= seq![left_value]);
            assert(SumTree::Leaf(right_value).in_order() =~= seq![right_value]);
            assert(t@ =~= seq![left_value, right_value]);
        }
        t
    }
}

impl SumTree {
    /// Convert a leaf in place into a branch of two leaves holding the
    /// leaf's former value and `other`, ordered by comparison: the value
    /// that compares at-or-below the other goes left.  On a node that is
    /// already a branch the call fails and the tree is left unchanged.
    pub fn to_branch_with(&mut self, other: u64) -> (r: Result<(), NotALeaf>)
        ensures
            match *old(self) {
                SumTree::Leaf(v) => r is Ok && *final(self) == (if other <= v {
                    SumTree::Branch(Box::new(SumTree::Leaf(other)), Box::new(SumTree::Leaf(v)))
                } else {
                    SumTree::Branch(Box::new(SumTree::Leaf(v)), Box::new(SumTree::Leaf(other)))
                }) && final(self)@ =~= (if other <= v {
                    seq![other, v]
                } else {
                    seq![v, other]
                }),
                SumTree::Branch(..) => r is Err && *final(self) == *old(self),
            },
    {
        let v: u64;
        match &*self {
            SumTree::Leaf(x) => {
                v = *x;
            },
            SumTree::Branch(..) => {
                return Err(NotALeaf);
            },
        }
        if other <= v {
            *self = SumTree::Branch(Box::new(SumTree::Leaf(other)), Box::new(SumTree::Leaf(v)));
            proof {
                assert(SumTree::Leaf(other).in_order() =~= seq![other]);
                assert(SumTree::Leaf(v).in_order() =~= seq![v]);
                assert((*self)@ =~= seq![other, v]);
            }
        } else {
            *self = SumTree::Branch(Box::new(SumTree::Leaf(v)), Box::new(SumTree::Leaf(other)));
            proof {
                assert(SumTree::Leaf(other).in_order() =~= seq![other]);
                assert(SumTree::Leaf(v).in_order() =~= seq![v]);
                assert((*self)@ =~= seq![v, other]);
            }
        }
        Ok(())
    }
}

fn find_in<'a, F: FnMut(&u64) -> bool>(t: &'a SumTree, f: &mut F) -> (r: Option<&'a SumTree>)
    requires
        callable_on(*old(f), t@),
    ensures
        *final(f) == *old(f),
        match r {
            Some(n) => exists|v: u64|
                #![auto]
                *n == SumTree::Leaf(v) && first_match(*old(f), t@, v),
            None => none_matches(*old(f), t@, t@.len() as int),
        },
    decreases *t,
{
    match t {
        SumTree::Leaf(x) => {
            proof {
                assert(t@ =~= seq![*x]);
                assert(call_requires(*old(f), (&t@[0],)));
            }
            if f(x) {
                proof {
                    assert(t@ =~= seq![*x]);
                    assert(t@[0] == *x);
                    assert(call_ensures(*old(f), (&t@[0],), true));
                    assert(none_matches(*old(f), t@, 0));
                    assert(first_match(*old(f), t@, *x));
                }
                Some(t)
            } else {
                proof {
                    assert(t@ =~= seq![*x]);
                    assert(t@[0] == *x);
                    assert(call_ensures(*old(f), (&t@[0],), false));
                }
                None
            }
        },
        SumTree::Branch(l, r) => {
            let ghost lseq = (**l)@;
            let ghost rseq = (**r)@;
            let ghost n = lseq.len() as int;
            proof {
                assert(t@ =~= lseq + rseq);
                lemma_callable_slice(*old(f), t@, lseq, 0);
                lemma_callable_slice(*old(f), t@, rseq, n);
            }
            if let Some(m) = find_in(&**l, f) {
                proof {
                    let v = choose|v: u64|
                        #![auto]
                        *m == SumTree::Leaf(v) && first_match(*old(f), lseq, v);
                    let i = choose|i: int|
                        #![auto]
                        0 <= i < lseq.len() && v == lseq[i] && call_ensures(
                            *old(f),
                            (&lseq[i],),
                            true,
                        ) && none_matches(*old(f), lseq, i);
                    assert(t@[i] == lseq[i]);
                    assert(call_ensures(*old(f), (&t@[i],), true));
                    assert forall|j: int| 0 <= j < i implies call_ensures(
                        *old(f),
                        (&t@[j],),
                        false,
                    ) by {
                        assert(t@[j] == lseq[j]);
                        assert(call_ensures(*old(f), (&lseq[j],), false));
                    }
                    assert(none_matches(*old(f), t@, i));
                    assert(first_match(*old(f), t@, v));
                }
                return Some(m);
            }
            let rr = find_in(&**r, f);
            proof {
                if rr is Some {
                    let m = rr.unwrap();
                    let v = choose|v: u64|
                        #![auto]
                        *m == SumTree::Leaf(v) && first_match(*old(f), rseq, v);
                    let i = choose|i: int|
                        #![auto]
                        0 <= i < rseq.len() && v == rseq[i] && call_ensures(
                            *old(f),
                            (&rseq[i],),
                            true,
                        ) && none_matches(*old(f), rseq, i);
                    let gi = n + i;
                    assert(t@[gi] == rseq[i]);
                    assert(call_ensures(*old(f), (&t@[gi],), true));
                    assert forall|j: int| 0 <= j < gi implies call_ensures(
                        *old(f),
                        (&t@[j],),
                        false,
                    ) by {
                        if j < n {
                            assert(t@[j] == lseq[j]);
                            assert(call_ensures(*old(f), (&lseq[j],), false));
                        } else {
                            assert(t@[j] == rseq[j - n]);
                            assert(call_ensures(*old(f), (&rseq[j - n],), false));
                        }
                    }
                    assert(none_matches(*old(f), t@, gi));
                    assert(first_match(*old(f), t@, v));
                } else {
                    assert forall|j: int| 0 <= j < t@.len() implies call_ensures(
                        *old(f),
                        (&t@[j],),
                        false,
                    ) by {
                        if j < n {
                            assert(t@[j] == lseq[j]);
                        } else {
                            assert(t@[j] == rseq[j - n]);
                        }
                    }
                }
            }
            rr
        },
    }
}

/// Search the leaves in-order — all of the left subtree, then all of the
/// right — and return the first leaf whose value satisfies the
/// predicate, or `None` when no leaf does.  Branches hold no value of
/// their own, so the predicate fires only at leaves.
pub fn find<'a, F: FnMut(&u64) -> bool>(start: &'a SumTree, f: F) -> (r: Option<&'a SumTree>)
    requires
        callable_on(f, start@),
    ensures
        match r {
            Some(n) => exists|v: u64|
                #![auto]
                *n == SumTree::Leaf(v) && first_match(f, start@, v),
            None => none_matches(f, start@, start@.len() as int),
        },
{
    let mut f = f;
    find_in(start, &mut f)
}

fn descend_in<F: FnMut(&u64)>(t: &SumTree, f: &mut F)
    requires
        callable_on(*old(f), t@),
    ensures
        *final(f) == *old(f),
        visited_all(*old(f), t@),
    decreases *t,
{
    match t {
        SumTree::Leaf(x) => {
            proof {
                assert(t@ =~= seq![*x]);
                assert(call_requires(*old(f), (&t@[0],)));
            }
            f(x);
        },
        SumTree::Branch(l, r) => {
            let ghost lseq = (**l)@;
            let ghost rseq = (**r)@;
            let ghost n = lseq.len() as int;
            proof {
                assert(t@ =~= lseq + rseq);
                lemma_callable_slice(*old(f), t@, lseq, 0);
                lemma_callable_slice(*old(f), t@, rseq, n);
            }
            descend_in(&**l, f);
            descend_in(&**r, f);
            proof {
                assert forall|j: int| 0 <= j < t@.len() implies call_ensures(
                    *old(f),
                    (&t@[j],),
                    (),
                ) by {
                    if j < n {
                        assert(t@[j] == lseq[j]);
                    } else {
                        assert(t@[j] == rseq[j - n]);
                    }
                }
            }
        },
    }
}

/// Visit every leaf value in-order — all of the left subtree, then all
/// of the right — calling `f` once per value, with no early exit.
pub fn descend<F: FnMut(&u64)>(start: &SumTree, f: F)
    requires
        callable_on(f, start@),
    ensures
        visited_all(f, start@),
{
    let mut f = f;
    descend_in(start, &mut f);
}

/// A successful mutable search, described end to end: position `i` of
/// the old in-order sequence `s_old` held the first value to satisfy
/// `f`; the node handed back was exactly the leaf holding that value
/// (`n_old`); and the tree's final sequence `s_new` is the old one with
/// position `i` replaced by whatever sequence `n_new` the caller leaves
/// behind through the returned reference.
pub open spec fn found_leaf<F: FnMut(&u64) -> bool>(
    f: F,
    s_old: Seq<u64>,
    n_old: SumTree,
    s_new: Seq<u64>,
    n_new: Seq<u64>,
) -> bool {
    exists|i: int|
        #![auto]
        0 <= i < s_old.len() && n_old == SumTree::Leaf(s_old[i]) && call_ensures(
            f,
            (&s_old[i],),
            true,
        ) && none_matches(f, s_old, i) && s_new =~= s_old.take(i) + n_new + s_old.skip(i + 1)
}

fn find_mut_in<'a, F: FnMut(&u64) -> bool>(t: &'a mut SumTree, f: &mut F) -> (res: (
    Option<&'a mut SumTree>,
    Ghost<int>,
))
    requires
        callable_on(*old(f), old(t)@),
    ensures
        *final(f) == *old(f),
        match res.0 {
            Some(n) => {
                let i = res.1@;
                &&& 0 <= i < old(t)@.len()
                &&& *n == SumTree::Leaf(old(t)@[i])
                &&& call_ensures(*old(f), (&old(t)@[i],), true)
                &&& none_matches(*old(f), old(t)@, i)
                &&& final(t)@ =~= old(t)@.take(i) + final(n)@ + old(t)@.skip(i + 1)
            },
            None => *final(t) == *old(t) && none_matches(*old(f), old(t)@, old(t)@.len() as int),
        },
    decreases *old(t),
{
    proof {
        if *t is Leaf {
            let v = choose|v: u64| *t == SumTree::Leaf(v);
            assert((*t)@ =~= seq![v]);
            assert(call_requires(*old(f), (&(*t)@[0],)));
        }
    }
    let hit = match &*t {
        SumTree::Leaf(x) => f(x),
        SumTree::Branch(..) => false,
    };
    if hit {
        proof {
            let v = choose|v: u64| *t == SumTree::Leaf(v);
            assert((*t)@ =~= seq![v]);
            assert(call_ensures(*old(f), (&(*t)@[0],), true));
        }
        return (Some(t), Ghost(0));
    }
    match t {
        SumTree::Leaf(x) => {
            proof {
                assert((*old(t))@ =~= seq![*x]);
                assert(call_ensures(*old(f), (&(*old(t))@[0],), false));
            }
            (None, Ghost(0))
        },
        SumTree::Branch(l, rc) => {
            let ghost lseq = (**l)@;
            let ghost rseq = (**rc)@;
            proof {
                assert((*old(t))@ =~= lseq + rseq);
                lemma_callable_slice(*old(f), (*old(t))@, lseq, 0);
                lemma_callable_slice(*old(f), (*old(t))@, rseq, lseq.len() as int);
            }
            let (rl, gl) = find_mut_in(&mut **l, f);
            if let Some(n) = rl {
                proof {
                    assert((*old(t))@ =~= lseq + rseq);
                    assert((*old(t))@[gl@] == lseq[gl@]);
                    assert forall|j: int| 0 <= j < gl@ implies call_ensures(
                        *old(f),
                        (&(*old(t))@[j],),
                        false,
                    ) by {
                        assert((*old(t))@[j] == lseq[j]);
                        assert(call_ensures(*old(f), (&lseq[j],), false));
                    }
                }
                return (Some(n), Ghost(gl@));
            }
            let (rr, gr) = find_mut_in(&mut **rc, f);
            let ghost gi = lseq.len() as int + gr@;
            proof {
                assert((*old(t))@ =~= lseq + rseq);
                if rr is Some {
                    assert((*old(t))@[gi] == rseq[gr@]);
                    assert forall|j: int| 0 <= j < gi implies call_ensures(
                        *old(f),
                        (&(*old(t))@[j],),
                        false,
                    ) by {
                        if j < lseq.len() {
                            assert((*old(t))@[j] == lseq[j]);
                            assert(call_ensures(*old(f), (&lseq[j],), false));
                        } else {
                            assert((*old(t))@[j] == rseq[j - lseq.len()]);
                            assert(call_ensures(*old(f), (&rseq[j - lseq.len()],), false));
                        }
                    }
                } else {
                    assert forall|j: int| 0 <= j < (*old(t))@.len() implies call_ensures(
                        *old(f),
                        (&(*old(t))@[j],),
                        false,
                    ) by {
                        if j < lseq.len() {
                            assert((*old(t))@[j] == lseq[j]);
                            assert(call_ensures(*old(f), (&lseq[j],), false));
                        } else {
                            assert((*old(t))@[j] == rseq[j - lseq.len()]);
                            assert(call_ensures(*old(f), (&rseq[j - lseq.len()],), false));
                        }
                    }
                }
            }
            (rr, Ghost(gi))
        },
    }
}

/// Search the leaves in-order and hand back an exclusive reference to
/// the first leaf whose value satisfies the predicate, or `None` when no
/// leaf does.  Exactly one path from the root to the match stays
/// mutably borrowed; the rest of the tree is untouched, and the final
/// tree is the old one with the matched leaf replaced by whatever the
/// caller turns it into.
pub fn find_mut<'a, F: FnMut(&u64) -> bool>(start: &'a mut SumTree, f: F) -> (r: Option<
    &'a mut SumTree,
>)
    requires
        callable_on(f, old(start)@),
    ensures
        match r {
            Some(n) => found_leaf(f, old(start)@, *n, final(start)@, final(n)@),
            None => *final(start) == *old(start) && none_matches(
                f,
                old(start)@,
                old(start)@.len() as int,
            ),
        },
{
    let mut f = f;
    let (r, gi) = find_mut_in(start, &mut f);
    proof {
        if r is Some {
            assert(0 <= gi@ < old(start)@.len());
        }
    }
    r
}

} // verus!
