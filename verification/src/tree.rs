//! A binary search tree shaped as a node with two optional, exclusively
//! owned children.  Values of type `u64` keep the element type totally
//! ordered, so every comparison made during insertion is decided.

use vstd::prelude::*;

verus! {

/// A tree node holding one value and up to two owned subtrees.
///
/// The intended invariant, [`Tree::is_bst`], puts every value of the left
/// subtree at or below the node's value and every value of the right
/// subtree strictly above it; ties go left.
pub struct Tree {
    pub value: u64,
    pub left: Option<Box<Tree>>,
    pub right: Option<Box<Tree>>,
}

/// The in-order sequence of an optional subtree: empty when absent.
pub open spec fn opt_in_order(o: Option<Box<Tree>>) -> Seq<u64>
    decreases o,
{
    match o {
        Option::Some(b) => (*b).in_order(),
        Option::None => Seq::empty(),
    }
}

/// Every element of `s` is at most `b`.
pub open spec fn all_le(s: Seq<u64>, b: u64) -> bool {
    forall|i: int| 0 <= i < s.len() ==> s[i] <= b
}

/// Every element of `s` is strictly above `b`.
pub open spec fn all_gt(s: Seq<u64>, b: u64) -> bool {
    forall|i: int| 0 <= i < s.len() ==> s[i] > b
}

/// `s` is in non-decreasing order.
pub open spec fn sorted(s: Seq<u64>) -> bool {
    forall|i: int, j: int| 0 <= i <= j < s.len() ==> s[i] <= s[j]
}

/// `s` with `v` placed before the first element that is at or above `v`,
/// or at the end if there is none.  This is where ordered insertion puts
/// a new value in the in-order sequence: a duplicate lands in front of
/// the equal elements already present, because ties descend left.
pub open spec fn sorted_insert(s: Seq<u64>, v: u64) -> Seq<u64>
    decreases s.len(),
{
    if s.len() == 0 {
        seq![v]
    } else if v <= s[0] {
        seq![v] + s
    } else {
        seq![s[0]] + sorted_insert(s.drop_first(), v)
    }
}

impl Tree {
    /// The in-order sequence of values: left subtree, this value, right
    /// subtree.
    pub open spec fn in_order(self) -> Seq<u64>
        decreases self,
    {
        opt_in_order(self.left) + seq![self.value] + opt_in_order(self.right)
    }

    /// The binary-search-tree ordering invariant: values at or below the
    /// node's value to the left, values above it to the right, at every
    /// node.
    pub open spec fn is_bst(self) -> bool
        decreases self,
    {
        &&& all_le(opt_in_order(self.left), self.value)
        &&& all_gt(opt_in_order(self.right), self.value)
        &&& (match self.left {
            Option::Some(l) => (*l).is_bst(),
            Option::None => true,
        })
        &&& (match self.right {
            Option::Some(r) => (*r).is_bst(),
            Option::None => true,
        })
    }
}

impl View for Tree {
    type V = Seq<u64>;

    open spec fn view(&self) -> Seq<u64> {
        self.in_order()
    }
}

impl Tree {
    /// A single node with no children.
    pub fn leaf(val: u64) -> (t: Tree)
        ensures
            t@ == seq![val],
            t.is_bst(),
            t == (Tree { value: val, left: None, right: None }),
    {
        let t = Tree { value: val, left: None, right: None };
        proof {
            assert(t@ =~= seq![val]);
        }
        t
    }

    /// A node holding `val` with two leaf children holding `left` and
    /// `right`, kept exactly in the positions given: the constructor
    /// enforces no ordering, so the result satisfies the search-tree
    /// invariant exactly when `left <= val < right`.
    pub fn branch(val: u64, left: u64, right: u64) -> (t: Tree)
        ensures
            t == (Tree {
                value: val,
                left: Some(Box::new(Tree { value: left, left: None, right: None })),
                right: Some(Box::new(Tree { value: right, left: None, right: None })),
            }),
            t@ == seq![left, val, right],
            t.is_bst() <==> (left <= val && val < right),
    {
        let t = Tree {
            value: val,
            left: Some(Box::new(Tree::leaf(left))),
            right: Some(Box::new(Tree::leaf(right))),
        };
        proof {
            assert(t@ =~= seq![left, val, right]);
            assert(opt_in_order(t.left) =~= seq![left]);
            assert(opt_in_order(t.right) =~= seq![right]);
            if left <= val && val < right {
                assert(t.is_bst());
            }
        }
        t
    }

    /// A read-only view of the left child, if any.
    pub fn left(&self) -> (r: Option<&Tree>)
        ensures
            match r {
                Some(t) => self.left is Some && *t == *self.left.unwrap(),
                None => self.left is None,
            },
    {
        match self.left.as_ref() {
            Some(n) => Some(&*n),
            _ => None,
        }
    }

    /// A read-only view of the right child, if any.
    pub fn right(&self) -> (r: Option<&Tree>)
        ensures
            match r {
                Some(t) => self.right is Some && *t == *self.right.unwrap(),
                None => self.right is None,
            },
    {
        match self.right.as_ref() {
            Some(n) => Some(&*n),
            _ => None,
        }
    }
}

proof fn lemma_sorted_insert_le(s: Seq<u64>, v: u64, b: u64)
    requires
        all_le(s, b),
        v <= b,
    ensures
        all_le(sorted_insert(s, v), b),
    decreases s.len(),
{
    if s.len() == 0 {
    } else if v <= s[0] {
    } else {
        assert(all_le(s.drop_first(), b));
        lemma_sorted_insert_le(s.drop_first(), v, b);
    }
}

proof fn lemma_sorted_insert_gt(s: Seq<u64>, v: u64, b: u64)
    requires
        all_gt(s, b),
        v > b,
    ensures
        all_gt(sorted_insert(s, v), b),
    decreases s.len(),
{
    if s.len() == 0 {
    } else if v <= s[0] {
    } else {
        assert(all_gt(s.drop_first(), b));
        lemma_sorted_insert_gt(s.drop_first(), v, b);
    }
}

proof fn lemma_sorted_insert_mid_left(l: Seq<u64>, val: u64, r: Seq<u64>, v: u64)
    requires
        v <= val,
    ensures
        sorted_insert(l + seq![val] + r, v) == sorted_insert(l, v) + seq![val] + r,
    decreases l.len(),
{
    let s = l + seq![val] + r;
    if l.len() == 0 {
        assert(s[0] == val);
        assert(sorted_insert(s, v) == seq![v] + s);
        assert(seq![v] + s =~= sorted_insert(l, v) + seq![val] + r);
    } else {
        assert(s[0] == l[0]);
        if v <= l[0] {
            assert(sorted_insert(s, v) == seq![v] + s);
            assert(seq![v] + s =~= (seq![v] + l) + seq![val] + r);
        } else {
            assert(s.drop_first() =~= l.drop_first() + seq![val] + r);
            lemma_sorted_insert_mid_left(l.drop_first(), val, r, v);
            assert(seq![l[0]] + (sorted_insert(l.drop_first(), v) + seq![val] + r) =~= (seq![
                l[0],
            ] + sorted_insert(l.drop_first(), v)) + seq![val] + r);
            assert(seq![l[0]] + sorted_insert(l.drop_first(), v) == sorted_insert(l, v));
        }
    }
}

proof fn lemma_sorted_insert_mid_right(l: Seq<u64>, val: u64, r: Seq<u64>, v: u64)
    requires
        v > val,
        all_le(l, val),
    ensures
        sorted_insert(l + seq![val] + r, v) == l + seq![val] + sorted_insert(r, v),
    decreases l.len(),
{
    let s = l + seq![val] + r;
    if l.len() == 0 {
        assert(s[0] == val);
        assert(s.drop_first() =~= r);
        assert(sorted_insert(s, v) == seq![val] + sorted_insert(r, v));
        assert(seq![val] + sorted_insert(r, v) =~= l + seq![val] + sorted_insert(r, v));
    } else {
        assert(s[0] == l[0]);
        assert(l[0] <= val);
        assert(s.drop_first() =~= l.drop_first() + seq![val] + r);
        assert(all_le(l.drop_first(), val));
        lemma_sorted_insert_mid_right(l.drop_first(), val, r, v);
        assert(sorted_insert(s, v) == seq![l[0]] + (l.drop_first() + seq![val] + sorted_insert(
            r,
            v,
        )));
        assert(seq![l[0]] + (l.drop_first() + seq![val] + sorted_insert(r, v)) =~= l + seq![val]
            + sorted_insert(r, v));
    }
}

/// Inserting a value into a sequence at its ordered position grows the
/// length by one and adds exactly that value to the sequence's contents:
/// insertion never loses or alters what was already there.
pub proof fn lemma_sorted_insert_multiset(s: Seq<u64>, v: u64)
    ensures
        sorted_insert(s, v).len() == s.len() + 1,
        sorted_insert(s, v).to_multiset() == s.to_multiset().insert(v),
    decreases s.len(),
{
    broadcast use vstd::seq_lib::group_to_multiset_ensures;

    if s.len() == 0 {
        assert(seq![v] =~= Seq::empty().push(v));
        assert(Seq::<u64>::empty().push(v).to_multiset() == Seq::<u64>::empty().to_multiset()
            .insert(v));
    } else if v <= s[0] {
        vstd::seq_lib::lemma_multiset_commutative(seq![v], s);
        assert(seq![v] =~= Seq::empty().push(v));
        assert((seq![v] + s).to_multiset() =~= s.to_multiset().insert(v));
    } else {
        lemma_sorted_insert_multiset(s.drop_first(), v);
        vstd::seq_lib::lemma_multiset_commutative(seq![s[0]], sorted_insert(s.drop_first(), v));
        vstd::seq_lib::lemma_multiset_commutative(seq![s[0]], s.drop_first());
        assert(s =~= seq![s[0]] + s.drop_first());
        assert((seq![s[0]] + sorted_insert(s.drop_first(), v)).to_multiset() =~= s.to_multiset()
            .insert(v));
    }
}

/// In-order traversal of a binary search tree yields its values in
/// non-decreasing order, whatever order they were inserted in.
pub proof fn lemma_bst_in_order_sorted(t: Tree)
    requires
        t.is_bst(),
    ensures
        sorted(t@),
    decreases t,
{
    match t.left {
        Option::Some(l) => lemma_bst_in_order_sorted(*l),
        Option::None => (),
    }
    match t.right {
        Option::Some(r) => lemma_bst_in_order_sorted(*r),
        Option::None => (),
    }
    let lseq = opt_in_order(t.left);
    let rseq = opt_in_order(t.right);
    let n = lseq.len() as int;
    assert forall|i: int, j: int| 0 <= i <= j < t@.len() implies t@[i] <= t@[j] by {
        if i < n {
            assert(t@[i] == lseq[i]);
        }
        if j < n {
            assert(t@[j] == lseq[j]);
        }
        if i > n {
            assert(t@[i] == rseq[i - n - 1]);
        }
        if j > n {
            assert(t@[j] == rseq[j - n - 1]);
        }
    }
}

/// The tree that ordered insertion of `v` into `t` produces: descend by
/// comparison — at or below the node's value to the left, above it to
/// the right — and hang `v` as a fresh leaf in the first empty slot on
/// that path.  Every node off the path, and every node on it but for the
/// one child slot filled, is kept exactly as it was: no rebalancing, no
/// rotation.
pub open spec fn pushed(t: Tree, v: u64) -> Tree
    decreases t,
{
    if v <= t.value {
        Tree { value: t.value, left: pushed_opt(t.left, v), right: t.right }
    } else {
        Tree { value: t.value, left: t.left, right: pushed_opt(t.right, v) }
    }
}

/// Ordered insertion into an optional subtree: an empty slot is filled
/// with a fresh leaf holding `v`; a present subtree is descended into.
pub open spec fn pushed_opt(o: Option<Box<Tree>>, v: u64) -> Option<Box<Tree>>
    decreases o,
{
    match o {
        Option::Some(b) => Some(Box::new(pushed(*b, v))),
        Option::None => Some(Box::new(Tree { value: v, left: None, right: None })),
    }
}

impl Tree {
    fn push_into(node: &mut Option<Box<Tree>>, value: u64)
        requires
            match *old(node) {
                Option::Some(t) => (*t).is_bst(),
                Option::None => true,
            },
        ensures
            *final(node) == pushed_opt(*old(node), value),
            match *final(node) {
                Option::Some(t) => (*t).is_bst(),
                Option::None => false,
            },
            opt_in_order(*final(node)) == sorted_insert(opt_in_order(*old(node)), value),
        decreases *old(node),
    {
        match node.take() {
            None => {
                *node = Some(Box::new(Tree::leaf(value)));
            },
            Some(mut boxed) => {
                (&mut *boxed).push(value);
                *node = Some(boxed);
            },
        }
    }

    /// Ordered insertion: descend by comparison — at or below this node's
    /// value to the left, above it to the right — and place `value` as a
    /// new leaf in the first empty slot reached, leaving every other node
    /// exactly where it was (the [`pushed`] clause).  Exactly one node is
    /// added; everything already in the tree stays where the order put it.
    pub fn push(&mut self, value: u64)
        requires
            old(self).is_bst(),
        ensures
            *final(self) == pushed(*old(self), value),
            final(self).is_bst(),
            final(self)@ == sorted_insert(old(self)@, value),
            final(self)@.len() == old(self)@.len() + 1,
            final(self)@.to_multiset() == old(self)@.to_multiset().insert(value),
            sorted(final(self)@),
        decreases *old(self),
    {
        let ghost t0 = *self;
        if value <= self.value {
            Tree::push_into(&mut self.left, value);
            proof {
                lemma_sorted_insert_mid_left(
                    opt_in_order(t0.left),
                    t0.value,
                    opt_in_order(t0.right),
                    value,
                );
                lemma_sorted_insert_le(opt_in_order(t0.left), value, t0.value);
                lemma_sorted_insert_multiset(t0@, value);
            }
        } else {
            Tree::push_into(&mut self.right, value);
            proof {
                lemma_sorted_insert_mid_right(
                    opt_in_order(t0.left),
                    t0.value,
                    opt_in_order(t0.right),
                    value,
                );
                lemma_sorted_insert_gt(opt_in_order(t0.right), value, t0.value);
                lemma_sorted_insert_multiset(t0@, value);
            }
        }
        proof {
            lemma_bst_in_order_sorted(*self);
        }
    }
}

/// The callback `f` may be called on every element of `s`: its own
/// precondition admits each of them.  Callers owe no more than this —
/// a predicate partial outside the tree's values is fine.
pub open spec fn callable_on<R, F: FnMut(&u64) -> R>(f: F, s: Seq<u64>) -> bool {
    forall|j: int| 0 <= j < s.len() ==> call_requires(f, (&s[j],))
}

/// A callback that may be called on every element of `s` may be called
/// on every element of any contiguous slice of `s`.
pub(crate) proof fn lemma_callable_slice<R, F: FnMut(&u64) -> R>(
    f: F,
    s: Seq<u64>,
    sub: Seq<u64>,
    off: int,
)
    requires
        callable_on(f, s),
        0 <= off,
        off + sub.len() <= s.len(),
        forall|j: int| 0 <= j < sub.len() ==> sub[j] == s[off + j],
    ensures
        callable_on(f, sub),
{
    assert forall|j: int| 0 <= j < sub.len() implies call_requires(f, (&sub[j],)) by {
        assert(sub[j] == s[off + j]);
        assert(call_requires(f, (&s[off + j],)));
    }
}

/// No element of `s` before position `upto` can satisfy the predicate
/// `f`: every call of `f` on such an element returns `false`.
pub open spec fn none_matches<F: FnMut(&u64) -> bool>(f: F, s: Seq<u64>, upto: int) -> bool {
    forall|j: int| 0 <= j < upto ==> call_ensures(f, (&s[j],), false)
}

/// The contract of a successful search: some position `i` of `s` holds
/// the returned value `found`, the predicate `f` returned `true` there,
/// and it returned `false` on every position before `i` — the first
/// in-order match.
pub open spec fn first_match<F: FnMut(&u64) -> bool>(f: F, s: Seq<u64>, found: u64) -> bool {
    exists|i: int|
        #![auto]
        0 <= i < s.len() && found == s[i] && call_ensures(f, (&s[i],), true) && none_matches(
            f,
            s,
            i,
        )
}

fn find_in<'a, F: FnMut(&u64) -> bool>(node: &'a Tree, f: &mut F) -> (res: (
    Option<&'a Tree>,
    Ghost<(int, int)>,
))
    requires
        callable_on(*old(f), node@),
    ensures
        *final(f) == *old(f),
        match res.0 {
            Some(m) => {
                let (a, b) = res.1@;
                let i = a + opt_in_order(m.left).len();
                &&& 0 <= a <= b <= node@.len()
                &&& (*m).in_order() == node@.subrange(a, b)
                &&& a <= i < b
                &&& m.value == node@[i]
                &&& call_ensures(*old(f), (&node@[i],), true)
                &&& none_matches(*old(f), node@, i)
            },
            None => none_matches(*old(f), node@, node@.len() as int),
        },
    decreases *node,
{
    let ghost s = node@;
    let ghost lseq = opt_in_order(node.left);
    let ghost rseq = opt_in_order(node.right);
    let ghost n = lseq.len() as int;
    proof {
        lemma_callable_slice(*old(f), s, lseq, 0);
        lemma_callable_slice(*old(f), s, rseq, n + 1);
        assert(s[n] == node.value);
        assert(call_requires(*old(f), (&s[n],)));
    }
    if let Some(l) = node.left.as_ref() {
        let (rl, gl) = find_in(&*l, f);
        if let Some(m) = rl {
            proof {
                let (a, b) = gl@;
                let i = a + opt_in_order(m.left).len();
                assert(s.subrange(a, b) =~= lseq.subrange(a, b));
                assert(s[i] == lseq[i]);
                assert forall|j: int| 0 <= j < i implies call_ensures(
                    *old(f),
                    (&s[j],),
                    false,
                ) by {
                    assert(s[j] == lseq[j]);
                    assert(call_ensures(*old(f), (&lseq[j],), false));
                }
            }
            return (Some(m), gl);
        }
    }
    if f(&node.value) {
        proof {
            assert(s.subrange(0, s.len() as int) =~= s);
            assert(s[n] == node.value);
            assert forall|j: int| 0 <= j < n implies call_ensures(*old(f), (&s[j],), false) by {
                assert(s[j] == lseq[j]);
                assert(call_ensures(*old(f), (&lseq[j],), false));
            }
        }
        let ghost bounds = (0int, s.len() as int);
        return (Some(node), Ghost(bounds));
    }
    if let Some(rt) = node.right.as_ref() {
        let (rr, gr) = find_in(&*rt, f);
        if let Some(m) = rr {
            proof {
                let (a, b) = gr@;
                let i = a + opt_in_order(m.left).len();
                assert(s.subrange(n + 1 + a, n + 1 + b) =~= rseq.subrange(a, b));
                assert(s[n + 1 + i] == rseq[i]);
                assert forall|j: int| 0 <= j < n + 1 + i implies call_ensures(
                    *old(f),
                    (&s[j],),
                    false,
                ) by {
                    if j < n {
                        assert(s[j] == lseq[j]);
                        assert(call_ensures(*old(f), (&lseq[j],), false));
                    } else if j == n {
                        assert(s[j] == node.value);
                    } else {
                        assert(s[j] == rseq[j - n - 1]);
                        assert(call_ensures(*old(f), (&rseq[j - n - 1],), false));
                    }
                }
            }
            let ghost bounds = (n + 1 + gr@.0, n + 1 + gr@.1);
            return (Some(m), Ghost(bounds));
        }
    }
    proof {
        assert forall|j: int| 0 <= j < s.len() implies call_ensures(*old(f), (&s[j],), false) by {
            if j < n {
                assert(s[j] == lseq[j]);
                assert(call_ensures(*old(f), (&lseq[j],), false));
            } else if j == n {
                assert(s[j] == node.value);
            } else {
                assert(s[j] == rseq[j - n - 1]);
                assert(call_ensures(*old(f), (&rseq[j - n - 1],), false));
            }
        }
    }
    (None, Ghost((0int, 0int)))
}

/// A successful search, described end to end: the node returned is the
/// subtree spanning positions `a..b` of the in-order sequence `s`, and
/// its own value, at position `i` within `s`, is the first value the
/// predicate `f` accepted.
pub open spec fn matched_node<F: FnMut(&u64) -> bool>(f: F, s: Seq<u64>, n: Tree) -> bool {
    exists|a: int, b: int|
        #![trigger s.subrange(a, b)]
        {
            let i = a + opt_in_order(n.left).len();
            &&& 0 <= a <= b <= s.len()
            &&& n.in_order() == s.subrange(a, b)
            &&& a <= i < b
            &&& n.value == s[i]
            &&& call_ensures(f, (&s[i],), true)
            &&& none_matches(f, s, i)
        }
}

/// Search the tree in-order — left subtree, node value, right subtree —
/// and return the first node whose value satisfies the predicate, or
/// `None` when no value does.  The predicate is not assumed to respect
/// the tree's order, so every value before the match is tried.
pub fn find<'a, F: FnMut(&u64) -> bool>(start: &'a Tree, f: F) -> (r: Option<&'a Tree>)
    requires
        callable_on(f, start@),
    ensures
        match r {
            Some(n) => matched_node(f, start@, *n) && first_match(f, start@, n.value),
            None => none_matches(f, start@, start@.len() as int),
        },
{
    let mut f = f;
    let (r, g) = find_in(start, &mut f);
    proof {
        if r is Some {
            let m = r.unwrap();
            let i = g@.0 + opt_in_order(m.left).len();
            assert(call_ensures(f, (&start@[i],), true));
            assert(start@.subrange(g@.0, g@.1) == (*m).in_order());
        }
    }
    r
}

/// The callback `f` has been applied to every element of `s`: each such
/// call returned, with `s[j]` among its accepted inputs.
pub open spec fn visited_all<F: FnMut(&u64)>(f: F, s: Seq<u64>) -> bool {
    forall|j: int| 0 <= j < s.len() ==> call_ensures(f, (&s[j],), ())
}

/// A successful mutable search, described end to end: position `i` of
/// the old in-order sequence `s_old` held the first value to satisfy
/// `f`; the reference handed back pointed at exactly that value
/// (`v_old`); and the tree's final sequence `s_new` is the old one with
/// position `i` replaced by whatever value `v_new` the caller leaves
/// behind through the returned reference.
pub open spec fn found_value<F: FnMut(&u64) -> bool>(
    f: F,
    s_old: Seq<u64>,
    v_old: u64,
    s_new: Seq<u64>,
    v_new: u64,
) -> bool {
    exists|i: int|
        #![auto]
        0 <= i < s_old.len() && v_old == s_old[i] && call_ensures(f, (&s_old[i],), true)
            && none_matches(f, s_old, i) && s_new =~= s_old.update(i, v_new)
}

fn find_mut_in<'a, F: FnMut(&u64) -> bool>(t: &'a mut Tree, f: &mut F) -> (res: (
    Option<&'a mut u64>,
    Ghost<int>,
))
    requires
        callable_on(*old(f), old(t)@),
    ensures
        *final(f) == *old(f),
        match res.0 {
            Some(m) => {
                let i = res.1@;
                &&& 0 <= i < old(t)@.len()
                &&& *m == old(t)@[i]
                &&& call_ensures(*old(f), (&old(t)@[i],), true)
                &&& none_matches(*old(f), old(t)@, i)
                &&& final(t)@ =~= old(t)@.update(i, *final(m))
            },
            None => *final(t) == *old(t) && none_matches(*old(f), old(t)@, old(t)@.len() as int),
        },
    decreases *old(t),
{
    let ghost s = (*t)@;
    let ghost lseq = opt_in_order(t.left);
    let ghost rseq = opt_in_order(t.right);
    let ghost n = lseq.len() as int;
    proof {
        lemma_callable_slice(*old(f), s, lseq, 0);
        lemma_callable_slice(*old(f), s, rseq, n + 1);
        assert(s[n] == t.value);
        assert(call_requires(*old(f), (&s[n],)));
    }
    if let Some(lb) = &mut t.left {
        let (rl, gl) = find_mut_in(&mut **lb, f);
        if let Some(m) = rl {
            proof {
                assert(s[gl@] == lseq[gl@]);
                assert forall|j: int| 0 <= j < gl@ implies call_ensures(
                    *old(f),
                    (&s[j],),
                    false,
                ) by {
                    assert(s[j] == lseq[j]);
                    assert(call_ensures(*old(f), (&lseq[j],), false));
                }
            }
            return (Some(m), gl);
        }
    }
    if f(&t.value) {
        proof {
            assert(s[n] == t.value);
            assert forall|j: int| 0 <= j < n implies call_ensures(*old(f), (&s[j],), false) by {
                assert(s[j] == lseq[j]);
                assert(call_ensures(*old(f), (&lseq[j],), false));
            }
        }
        return (Some(&mut t.value), Ghost(n));
    }
    if let Some(rb) = &mut t.right {
        let (rr, gr) = find_mut_in(&mut **rb, f);
        if let Some(m) = rr {
            proof {
                assert(s[n + 1 + gr@] == rseq[gr@]);
                assert forall|j: int| 0 <= j < n + 1 + gr@ implies call_ensures(
                    *old(f),
                    (&s[j],),
                    false,
                ) by {
                    if j < n {
                        assert(s[j] == lseq[j]);
                        assert(call_ensures(*old(f), (&lseq[j],), false));
                    } else if j == n {
                        assert(s[j] == t.value);
                    } else {
                        assert(s[j] == rseq[j - n - 1]);
                        assert(call_ensures(*old(f), (&rseq[j - n - 1],), false));
                    }
                }
            }
            let ghost gi = n + 1 + gr@;
            return (Some(m), Ghost(gi));
        }
    }
    proof {
        assert forall|j: int| 0 <= j < s.len() implies call_ensures(*old(f), (&s[j],), false) by {
            if j < n {
                assert(s[j] == lseq[j]);
                assert(call_ensures(*old(f), (&lseq[j],), false));
            } else if j == n {
                assert(s[j] == t.value);
            } else {
                assert(s[j] == rseq[j - n - 1]);
                assert(call_ensures(*old(f), (&rseq[j - n - 1],), false));
            }
        }
    }
    (None, Ghost(0int))
}

/// Search the tree in-order and hand back an exclusive reference to the
/// value of the first node that satisfies the predicate, or `None` when
/// no value does.  Exactly one path from the root to the match stays
/// mutably borrowed; the rest of the tree is untouched, and the final
/// in-order sequence is the old one with the matched position replaced
/// by whatever the caller writes through the returned reference.
pub fn find_mut<'a, F: FnMut(&u64) -> bool>(start: &'a mut Tree, f: F) -> (r: Option<
    &'a mut u64,
>)
    requires
        callable_on(f, old(start)@),
    ensures
        match r {
            Some(m) => found_value(f, old(start)@, *m, final(start)@, *final(m)),
            None => *final(start) == *old(start) && none_matches(
                f,
                old(start)@,
                old(start)@.len() as int,
            ),
        },
{
    let mut f = f;
    let (r, g) = find_mut_in(start, &mut f);
    proof {
        if r is Some {
            assert(0 <= g@ < old(start)@.len());
        }
    }
    r
}

fn descend_in<F: FnMut(&u64)>(node: &Tree, f: &mut F)
    requires
        callable_on(*old(f), node@),
    ensures
        *final(f) == *old(f),
        visited_all(*old(f), node@),
    decreases *node,
{
    let ghost s = node@;
    let ghost lseq = opt_in_order(node.left);
    let ghost rseq = opt_in_order(node.right);
    let ghost n = lseq.len() as int;
    proof {
        lemma_callable_slice(*old(f), s, lseq, 0);
        lemma_callable_slice(*old(f), s, rseq, n + 1);
        assert(s[n] == node.value);
        assert(call_requires(*old(f), (&s[n],)));
    }
    if let Some(l) = node.left.as_ref() {
        descend_in(&*l, f);
    }
    f(&node.value);
    if node.right.is_some() {
        descend_in(node.right.as_ref().unwrap(), f);
    }
    proof {
        assert forall|j: int| 0 <= j < s.len() implies call_ensures(*old(f), (&s[j],), ()) by {
            if j < n {
                assert(s[j] == lseq[j]);
            } else if j == n {
                assert(s[j] == node.value);
            } else {
                assert(s[j] == rseq[j - n - 1]);
            }
        }
    }
}

/// Visit every value of the tree in-order — left subtree, node value,
/// right subtree — calling `f` once per value, with no early exit.
pub fn descend<F: FnMut(&u64)>(start: &Tree, f: F)
    requires
        callable_on(f, start@),
    ensures
        visited_all(f, start@),
{
    let mut f = f;
    descend_in(start, &mut f);
}

/// What one stack entry of the iterator still owes: the node's own value,
/// then its whole right subtree.  An empty entry owes nothing.
pub open spec fn entry_seq(e: Option<&Tree>) -> Seq<u64> {
    match e {
        Option::Some(t) => seq![t.value] + opt_in_order(t.right),
        Option::None => Seq::empty(),
    }
}

/// What a whole iterator stack still owes, top entry first.
pub open spec fn spine_seq(b: Seq<Option<&Tree>>) -> Seq<u64>
    decreases b.len(),
{
    if b.len() == 0 {
        Seq::empty()
    } else {
        entry_seq(b.last()) + spine_seq(b.drop_last())
    }
}

/// The whole in-order sequence of an optional node, both subtrees
/// included; used for a freshly pushed entry whose left spine is not yet
/// unfolded onto the stack.
pub open spec fn full_seq(e: Option<&Tree>) -> Seq<u64> {
    match e {
        Option::Some(t) => (*t).in_order(),
        Option::None => Seq::empty(),
    }
}

/// A lazy in-order iterator over a [`Tree`].  An explicit stack holds the
/// path of nodes whose value is still owed; visiting a node's right
/// subtree is deferred until the node itself has been yielded.  The
/// iterator is forward-only and finite: it yields exactly the tree's
/// in-order sequence, then `None` forever.
pub struct TreeIter<'a> {
    buffer: Vec<Option<&'a Tree>>,
}

/// Unfold the left spine of the freshly pushed top entry onto the stack,
/// so that every entry owes exactly its own value and its right subtree.
fn settle<'a>(v: &mut Vec<Option<&'a Tree>>)
    requires
        old(v)@.len() >= 1,
        forall|k: int| 0 <= k < old(v)@.len() - 1 ==> old(v)@[k] is Some,
    ensures
        forall|k: int| 0 <= k < final(v)@.len() ==> final(v)@[k] is Some,
        spine_seq(final(v)@) == full_seq(old(v)@.last()) + spine_seq(old(v)@.drop_last()),
{
    let ghost target = full_seq(old(v)@.last()) + spine_seq(old(v)@.drop_last());
    loop
        invariant_except_break
            v@.len() >= 1,
            full_seq(v@.last()) + spine_seq(v@.drop_last()) == target,
        invariant
            forall|k: int| 0 <= k < v@.len() - 1 ==> v@[k] is Some,
        ensures
            forall|k: int| 0 <= k < v@.len() ==> v@[k] is Some,
            spine_seq(v@) == target,
        decreases full_seq(v@.last()).len(),
    {
        let ghost bh = v@;
        match v.pop() {
            Some(Some(val)) => {
                let left_child: Option<&Tree> = match val.left.as_ref() {
                    Some(b) => Some(&**b),
                    None => None,
                };
                v.push(Some(val));
                v.push(left_child);
                proof {
                    let mid = bh.drop_last().push(Some(val));
                    assert(v@ == mid.push(left_child));
                    assert(v@.drop_last() =~= mid);
                    assert(mid.drop_last() =~= bh.drop_last());
                    assert(full_seq(left_child) == opt_in_order(val.left));
                    assert(full_seq(v@.last()) + spine_seq(v@.drop_last()) =~= full_seq(
                        Some(val),
                    ) + spine_seq(bh.drop_last()));
                }
            },
            _ => {
                proof {
                    assert(bh.last() is None);
                    assert(v@ =~= bh.drop_last());
                }
                break ;
            },
        }
    }
}

impl<'a> TreeIter<'a> {
    /// The values the iterator has not yielded yet, in the order it will
    /// yield them.
    pub closed spec fn remaining(self) -> Seq<u64> {
        spine_seq(self.buffer@)
    }

    /// The iterator's stack invariant: every entry still owes its value.
    pub closed spec fn wf(self) -> bool {
        forall|k: int| 0 <= k < self.buffer@.len() ==> self.buffer@[k] is Some
    }

    /// An iterator positioned at the first in-order value of `start`.
    pub fn new(start: &'a Tree) -> (it: TreeIter<'a>)
        ensures
            it.wf(),
            it.remaining() == start@,
    {
        let mut v: Vec<Option<&'a Tree>> = vec![Some(start)];
        proof {
            assert(v@.last() == Some(start));
            assert(v@.drop_last() =~= Seq::<Option<&'a Tree>>::empty());
        }
        settle(&mut v);
        proof {
            assert(spine_seq(Seq::<Option<&'a Tree>>::empty()) == Seq::<u64>::empty());
            assert(spine_seq(v@) =~= start@);
        }
        TreeIter { buffer: v }
    }

    /// Yield the next in-order value, or `None` once the tree is
    /// exhausted.
    pub fn next(&mut self) -> (r: Option<&'a u64>)
        requires
            old(self).wf(),
        ensures
            final(self).wf(),
            match r {
                Some(v) => old(self).remaining().len() > 0 && *v == old(self).remaining()[0]
                    && final(self).remaining() == old(self).remaining().drop_first(),
                None => old(self).remaining().len() == 0 && final(self).remaining()
                    == Seq::<u64>::empty(),
            },
    {
        let ghost bh = self.buffer@;
        match self.buffer.pop() {
            Some(Some(val)) => {
                proof {
                    assert(entry_seq(bh.last()) == seq![val.value] + opt_in_order(val.right));
                }
                if let Some(rb) = val.right.as_ref() {
                    self.buffer.push(Some(&**rb));
                    proof {
                        assert(self.buffer@.drop_last() =~= bh.drop_last());
                        assert(full_seq(Some(&**rb)) == opt_in_order(val.right));
                    }
                    settle(&mut self.buffer);
                    proof {
                        assert(spine_seq(self.buffer@) =~= (seq![val.value] + opt_in_order(
                            val.right,
                        ) + spine_seq(bh.drop_last())).drop_first());
                    }
                } else {
                    proof {
                        assert(opt_in_order(val.right) =~= Seq::<u64>::empty());
                        assert(spine_seq(self.buffer@) =~= (entry_seq(bh.last()) + spine_seq(
                            bh.drop_last(),
                        )).drop_first());
                    }
                }
                Some(&val.value)
            },
            Some(None) => {
                proof {
                    assert(bh[bh.len() - 1] is Some);
                    assert(false);
                }
                None
            },
            None => {
                None
            },
        }
    }
}

impl Tree {
    /// A lazy in-order iterator borrowing this tree: it yields exactly
    /// the sequence that [`descend`] visits.
    pub fn iter<'a>(&'a self) -> (it: TreeIter<'a>)
        ensures
            it.wf(),
            it.remaining() == self@,
    {
        TreeIter::new(self)
    }
}

} // verus!
