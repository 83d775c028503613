use vstd::prelude::*;
use crate::ledger::{
    Account, Cents, Mutation, Transaction, TransactionModel, is_node, lemma_nodes_of,
    mutation_views, nodes_of, sum_amounts,
};
use crate::parse::models_of;
use crate::text::{chars_of, push_char, split_last};

verus! {

/// One node of an aggregation tree: an account path, the amount booked on exactly that
/// account, the amount booked on it and everything below it, and the positions of its children
/// in the tree.
pub struct Node {
    pub account: Account,
    pub own: Cents,
    pub total: Cents,
    pub children: Vec<usize>,
}

/// The accounts of a ledger as a tree: `nodes[0]` is the root, and the children of a node are
/// the nodes one level below it.
pub struct Tree {
    pub nodes: Vec<Node>,
}

/// `v` fits in an `i32`.
pub open spec fn fits(v: int) -> bool {
    i32::MIN <= v <= i32::MAX
}

/// The sum of the amounts of `ms` booked on exactly `p`.
pub open spec fn own_sum(ms: Seq<(int, Seq<char>)>, p: Seq<char>) -> int
    decreases ms.len(),
{
    if ms.len() == 0 {
        0
    } else {
        own_sum(ms.drop_last(), p) + if ms.last().1 == p {
            ms.last().0
        } else {
            0
        }
    }
}

/// The sum of the amounts of `ms` booked on `p` or below it.
pub open spec fn total_sum(ms: Seq<(int, Seq<char>)>, p: Seq<char>) -> int
    decreases ms.len(),
{
    if ms.len() == 0 {
        0
    } else {
        total_sum(ms.drop_last(), p) + if is_node(p, ms.last().1) {
            ms.last().0
        } else {
            0
        }
    }
}

/// The mutations of all of `txs`, in order.
pub open spec fn all_mutations(txs: Seq<TransactionModel>) -> Seq<(int, Seq<char>)>
    decreases txs.len(),
{
    if txs.len() == 0 {
        Seq::empty()
    } else {
        all_mutations(txs.drop_last()) + txs.last().mutations
    }
}

/// `p` is one of the first `k` entries of `w`.
pub open spec fn among(w: Seq<Seq<char>>, k: int, p: Seq<char>) -> bool {
    exists|t: int| 0 <= t < k && w[t] == p
}

impl Node {
    pub fn new(account: Account) -> (r: Node)
        ensures
            r.account == account,
            r.own.0 == 0,
            r.total.0 == 0,
            r.children@.len() == 0,
    {
        Node { account, own: Cents(0), total: Cents(0), children: Vec::new() }
    }
}

impl Tree {
    /// The account path of node `i`.
    pub open spec fn path(self, i: int) -> Seq<char> {
        self.nodes@[i].account@
    }

    /// Some node below the root has path `p`.
    pub open spec fn present(self, p: Seq<char>) -> bool {
        exists|j: int| 1 <= j < self.nodes@.len() && #[trigger] self.path(j) == p
    }

    /// `c` may be a child of node `i`: a node below the root, made after `i`, whose path
    /// continues the path of `i` by one segment (for the root: whose path has no `/`).
    pub open spec fn child_ok(self, i: int, c: int) -> bool {
        1 <= c < self.nodes@.len() && i < c && match split_last(self.path(c), '/') {
            Some((p, _)) => i >= 1 && self.path(i) == p,
            None => i == 0,
        }
    }

    /// The shape of a tree: a root, distinct paths below it, children that hang one level below
    /// their node.
    pub open spec fn wf(self) -> bool {
        &&& self.nodes@.len() >= 1
        &&& forall|i: int, j: int|
            1 <= i < self.nodes@.len() && 1 <= j < self.nodes@.len() && i != j ==> #[trigger] self.path(
                i,
            ) != #[trigger] self.path(j)
        &&& forall|i: int, k: int|
            0 <= i < self.nodes@.len() && 0 <= k < self.nodes@[i].children@.len() ==> self.child_ok(
                i,
                #[trigger] self.nodes@[i].children@[k] as int,
            )

        &&& forall|j: int| 1 <= j < self.nodes@.len() ==> #[trigger] self.listed(j)
        &&& forall|i: int, k1: int, k2: int|
            0 <= i < self.nodes@.len() && 0 <= k1 < k2 < self.nodes@[i].children@.len()
                ==> #[trigger] self.nodes@[i].children@[k1] != #[trigger] self.nodes@[i].children@[k2]
    }

    /// Node `j` is in the children list of some node.
    pub open spec fn listed(self, j: int) -> bool {
        exists|i: int, k: int|
            0 <= i < self.nodes@.len() && 0 <= k < self.nodes@[i].children@.len()
                && #[trigger] self.nodes@[i].children@[k] == j
    }

    /// Every node below the root is in the children list of its parent (the node whose path
    /// its own continues by one segment, or the root), and there exactly once: this follows
    /// from `wf`.
    pub proof fn lemma_listed_once(self, j: int)
        requires
            self.wf(),
            1 <= j < self.nodes@.len(),
        ensures
            exists|i: int, k: int|
                0 <= i < self.nodes@.len() && 0 <= k < self.nodes@[i].children@.len()
                    && #[trigger] self.nodes@[i].children@[k] == j && self.child_ok(i, j),
            forall|i1: int, k1: int, i2: int, k2: int|
                0 <= i1 < self.nodes@.len() && 0 <= k1 < self.nodes@[i1].children@.len() && 0
                    <= i2 < self.nodes@.len() && 0 <= k2 < self.nodes@[i2].children@.len()
                    && #[trigger] self.nodes@[i1].children@[k1] == j
                    && #[trigger] self.nodes@[i2].children@[k2] == j ==> i1 == i2 && k1 == k2,
    {
        assert(self.listed(j));
        let (i, k) = choose|i: int, k: int|
            0 <= i < self.nodes@.len() && 0 <= k < self.nodes@[i].children@.len()
                && #[trigger] self.nodes@[i].children@[k] == j;
        assert(self.child_ok(i, self.nodes@[i].children@[k] as int));
        assert forall|i1: int, k1: int, i2: int, k2: int|
            0 <= i1 < self.nodes@.len() && 0 <= k1 < self.nodes@[i1].children@.len() && 0 <= i2
                < self.nodes@.len() && 0 <= k2 < self.nodes@[i2].children@.len()
                && #[trigger] self.nodes@[i1].children@[k1] == j
                && #[trigger] self.nodes@[i2].children@[k2] == j implies i1 == i2 && k1 == k2 by {
            assert(self.child_ok(i1, self.nodes@[i1].children@[k1] as int));
            assert(self.child_ok(i2, self.nodes@[i2].children@[k2] as int));
            if i1 >= 1 && i2 >= 1 && i1 != i2 {
                assert(self.path(i1) != self.path(i2));
            }
            if i1 == i2 && k1 < k2 {
                assert(self.nodes@[i1].children@[k1] != self.nodes@[i1].children@[k2]);
            }
            if i1 == i2 && k2 < k1 {
                assert(self.nodes@[i1].children@[k2] != self.nodes@[i1].children@[k1]);
            }
        }
    }

    /// Booking `v` on `a` keeps every amount of the tree within `i32`: the root's total, and
    /// the total of each node at or above `a` and the own amount of the node of `a`.
    pub open spec fn can_add(self, a: Seq<char>, v: int) -> bool {
        &&& fits(self.nodes@[0].total.0 + v)
        &&& forall|j: int|
            1 <= j < self.nodes@.len() ==> fits(
                (#[trigger] self.nodes@[j]).total.0 + if is_node(self.path(j), a) {
                    v
                } else {
                    0
                },
            ) && fits(
                self.nodes@[j].own.0 + if self.path(j) == a {
                    v
                } else {
                    0
                },
            )
    }

    /// A tree with only its root, whose path is empty.
    pub fn new() -> (r: Tree)
        ensures
            r.wf(),
            r.nodes@.len() == 1,
            r.path(0) == Seq::<char>::empty(),
            r.nodes@[0].own.0 == 0,
            r.nodes@[0].total.0 == 0,
    {
        let mut nodes: Vec<Node> = Vec::new();
        nodes.push(Node::new(Account { raw: String::new() }));
        Tree { nodes }
    }

    /// The node below the root with path `p`, if any.
    fn find_node(&self, p: &Account) -> (r: Option<usize>)
        requires
            self.wf(),
        ensures
            match r {
                Some(j) => 1 <= j < self.nodes@.len() && self.path(j as int) == p@,
                None => forall|j: int| 1 <= j < self.nodes@.len() ==> self.path(j) != p@,
            },
    {
        let mut j: usize = 1;
        while j < self.nodes.len()
            invariant
                1 <= j <= self.nodes@.len(),
                forall|i: int| 1 <= i < j ==> self.path(i) != p@,
            decreases self.nodes@.len() - j,
        {
            if self.nodes[j].account.raw == p.raw {
                return Some(j);
            }
            j = j + 1;
        }
        None
    }
}

/// Every children list of `a` is still at the front of the same node's list in `b`.
pub open spec fn keeps_children(a: Tree, b: Tree) -> bool {
    &&& a.nodes@.len() <= b.nodes@.len()
    &&& forall|i: int|
        0 <= i < a.nodes@.len() ==> a.nodes@[i].children@.len() <= (
        #[trigger] b.nodes@[i]).children@.len() && b.nodes@[i].children@.take(
            a.nodes@[i].children@.len() as int,
        ) == a.nodes@[i].children@
}

proof fn lemma_keeps_trans(a: Tree, b: Tree, c: Tree)
    requires
        keeps_children(a, b),
        keeps_children(b, c),
    ensures
        keeps_children(a, c),
{
    assert forall|i: int| 0 <= i < a.nodes@.len() implies a.nodes@[i].children@.len() <= (
    #[trigger] c.nodes@[i]).children@.len() && c.nodes@[i].children@.take(
        a.nodes@[i].children@.len() as int,
    ) == a.nodes@[i].children@ by {
        let n = a.nodes@[i].children@.len() as int;
        assert(b.nodes@[i].children@.take(n) == a.nodes@[i].children@);
        assert(c.nodes@[i].children@.take(b.nodes@[i].children@.len() as int) == b.nodes@[i].children@);
        assert(c.nodes@[i].children@.take(n) =~= b.nodes@[i].children@.take(n));
    }
}

/// Changing amounts keeps the shape of a tree.
proof fn lemma_same_shape(a: Tree, b: Tree)
    requires
        a.wf(),
        a.nodes@.len() == b.nodes@.len(),
        forall|i: int|
            0 <= i < a.nodes@.len() ==> (#[trigger] b.nodes@[i]).account == a.nodes@[i].account
                && b.nodes@[i].children == a.nodes@[i].children,
    ensures
        b.wf(),
        keeps_children(a, b),
{
    assert forall|i: int, j: int|
        1 <= i < b.nodes@.len() && 1 <= j < b.nodes@.len() && i != j implies #[trigger] b.path(i)
        != #[trigger] b.path(j) by {
        assert(b.nodes@[i].account == a.nodes@[i].account);
        assert(b.nodes@[j].account == a.nodes@[j].account);
        assert(a.path(i) != a.path(j));
    }
    assert forall|i: int, k: int|
        0 <= i < b.nodes@.len() && 0 <= k < b.nodes@[i].children@.len() implies b.child_ok(
        i,
        #[trigger] b.nodes@[i].children@[k] as int,
    ) by {
        assert(b.nodes@[i].children == a.nodes@[i].children);
        let c = a.nodes@[i].children@[k] as int;
        assert(a.child_ok(i, c));
        assert(b.nodes@[c].account == a.nodes@[c].account);
        if i >= 1 {
            assert(b.nodes@[i].account == a.nodes@[i].account);
        }
    }
    assert forall|j: int| 1 <= j < b.nodes@.len() implies #[trigger] b.listed(j) by {
        assert(a.listed(j));
        let (i, k) = choose|i: int, k: int|
            0 <= i < a.nodes@.len() && 0 <= k < a.nodes@[i].children@.len()
                && #[trigger] a.nodes@[i].children@[k] == j;
        assert(b.nodes@[i].children == a.nodes@[i].children);
        assert(b.nodes@[i].children@[k] == j);
    }
    assert forall|i: int, k1: int, k2: int|
        0 <= i < b.nodes@.len() && 0 <= k1 < k2 < b.nodes@[i].children@.len()
        implies #[trigger] b.nodes@[i].children@[k1] != #[trigger] b.nodes@[i].children@[k2] by {
        assert(b.nodes@[i].children == a.nodes@[i].children);
        assert(a.nodes@[i].children@[k1] != a.nodes@[i].children@[k2]);
    }
    assert forall|i: int| 0 <= i < a.nodes@.len() implies a.nodes@[i].children@.len() <= (
    #[trigger] b.nodes@[i]).children@.len() && b.nodes@[i].children@.take(
        a.nodes@[i].children@.len() as int,
    ) == a.nodes@[i].children@ by {
        assert(b.nodes@[i].children == a.nodes@[i].children);
        assert(b.nodes@[i].children@.take(a.nodes@[i].children@.len() as int) =~= a.nodes@[i].children@);
    }
}

impl Tree {
    /// Adds `amount` to the total of node `j`; nothing else changes.
    fn add_total(&mut self, j: usize, amount: Cents)
        requires
            old(self).wf(),
            j < old(self).nodes@.len(),
            i32::MIN <= old(self).nodes@[j as int].total.0 + amount.0 <= i32::MAX,
        ensures
            final(self).wf(),
            keeps_children(*old(self), *final(self)),
            final(self).nodes@.len() == old(self).nodes@.len(),
            forall|i: int|
                0 <= i < old(self).nodes@.len() ==> (#[trigger] final(self).nodes@[i]).account
                    == old(self).nodes@[i].account && final(self).nodes@[i].children
                    == old(self).nodes@[i].children && final(self).nodes@[i].own
                    == old(self).nodes@[i].own && final(self).nodes@[i].total.0 == old(
                    self,
                ).nodes@[i].total.0 + if i == j {
                    amount.0 as int
                } else {
                    0
                },
    {
        let ghost a = *self;
        let t = self.nodes[j].total.0;
        self.nodes[j].total = Cents(t + amount.0);
        proof {
            lemma_same_shape(a, *self);
        }
    }

    /// Adds `amount` to the own amount of node `j`; nothing else changes.
    fn add_own(&mut self, j: usize, amount: Cents)
        requires
            old(self).wf(),
            j < old(self).nodes@.len(),
            i32::MIN <= old(self).nodes@[j as int].own.0 + amount.0 <= i32::MAX,
        ensures
            final(self).wf(),
            keeps_children(*old(self), *final(self)),
            final(self).nodes@.len() == old(self).nodes@.len(),
            forall|i: int|
                0 <= i < old(self).nodes@.len() ==> (#[trigger] final(self).nodes@[i]).account
                    == old(self).nodes@[i].account && final(self).nodes@[i].children
                    == old(self).nodes@[i].children && final(self).nodes@[i].total
                    == old(self).nodes@[i].total && final(self).nodes@[i].own.0 == old(
                    self,
                ).nodes@[i].own.0 + if i == j {
                    amount.0 as int
                } else {
                    0
                },
    {
        let ghost a = *self;
        let o = self.nodes[j].own.0;
        self.nodes[j].own = Cents(o + amount.0);
        proof {
            lemma_same_shape(a, *self);
        }
    }

    /// The child of node `cur` with path `n`, made (with nothing booked) where it is missing.
    fn child_node(&mut self, n: &Account, cur: usize) -> (j: usize)
        requires
            old(self).wf(),
            cur < old(self).nodes@.len(),
            match split_last(n@, '/') {
                Some((p, _)) => cur >= 1 && old(self).path(cur as int) == p,
                None => cur == 0,
            },
        ensures
            final(self).wf(),
            1 <= j < final(self).nodes@.len(),
            final(self).path(j as int) == n@,
            old(self).nodes@.len() <= final(self).nodes@.len() <= old(self).nodes@.len() + 1,
            j < old(self).nodes@.len() ==> final(self).nodes@.len() == old(self).nodes@.len(),
            j >= old(self).nodes@.len() ==> j == old(self).nodes@.len() && final(self).nodes@[j as int].own.0
                == 0 && final(self).nodes@[j as int].total.0 == 0,
            forall|i: int|
                0 <= i < old(self).nodes@.len() ==> (#[trigger] final(self).nodes@[i]).account
                    == old(self).nodes@[i].account && final(self).nodes@[i].own == old(
                    self,
                ).nodes@[i].own && final(self).nodes@[i].total == old(self).nodes@[i].total,
            keeps_children(*old(self), *final(self)),
    {
        match self.find_node(n) {
            Some(j) => {
                proof {
                    assert forall|i: int| 0 <= i < self.nodes@.len() implies self.nodes@[i].children@.len() <= (
                    #[trigger] self.nodes@[i]).children@.len() && self.nodes@[i].children@.take(
                        self.nodes@[i].children@.len() as int,
                    ) == self.nodes@[i].children@ by {
                        assert(self.nodes@[i].children@.take(self.nodes@[i].children@.len() as int) =~= self.nodes@[i].children@);
                    }
                }
                j
            },
            None => {
                let ghost before = *self;
                let j = self.nodes.len();
                self.nodes.push(Node::new(n.clone_account()));
                self.nodes[cur].children.push(j);
                proof {
                    assert(self.path(j as int) == n@);
                    assert forall|i: int, kk: int|
                        0 <= i < self.nodes@.len() && 0 <= kk
                            < self.nodes@[i].children@.len() implies self.child_ok(
                        i,
                        #[trigger] self.nodes@[i].children@[kk] as int,
                    ) by {
                        if i == cur && kk == self.nodes@[i].children@.len() - 1 {
                        } else {
                            assert(self.nodes@[i].children@[kk] == before.nodes@[i].children@[kk]);
                            let c = before.nodes@[i].children@[kk] as int;
                            assert(before.child_ok(i, c));
                            assert(self.path(c) == before.path(c));
                            if i >= 1 {
                                assert(self.path(i) == before.path(i));
                            }
                        }
                    }
                    assert forall|a: int, b: int|
                        1 <= a < self.nodes@.len() && 1 <= b < self.nodes@.len() && a != b
                        implies #[trigger] self.path(a) != #[trigger] self.path(b) by {
                        if a < before.nodes@.len() && b < before.nodes@.len() {
                            assert(before.path(a) != before.path(b));
                            assert(self.path(a) == before.path(a));
                            assert(self.path(b) == before.path(b));
                        } else if a < before.nodes@.len() {
                            assert(self.path(a) == before.path(a));
                        } else {
                            assert(self.path(b) == before.path(b));
                        }
                    }
                    let last = self.nodes@[cur as int].children@.len() - 1;
                    assert forall|jj: int| 1 <= jj < self.nodes@.len() implies #[trigger] self.listed(jj) by {
                        if jj == j {
                            assert(self.nodes@[cur as int].children@[last] == jj);
                        } else {
                            assert(before.listed(jj));
                            let (i, k) = choose|i: int, k: int|
                                0 <= i < before.nodes@.len() && 0 <= k < before.nodes@[i].children@.len()
                                    && #[trigger] before.nodes@[i].children@[k] == jj;
                            assert(self.nodes@[i].children@[k] == jj);
                        }
                    }
                    assert forall|i: int, k1: int, k2: int|
                        0 <= i < self.nodes@.len() && 0 <= k1 < k2 < self.nodes@[i].children@.len()
                        implies #[trigger] self.nodes@[i].children@[k1] != #[trigger] self.nodes@[i].children@[k2] by {
                        if i == cur && k2 == last {
                            assert(before.child_ok(i, before.nodes@[i].children@[k1] as int));
                        } else {
                            assert(before.nodes@[i].children@[k1] != before.nodes@[i].children@[k2]);
                        }
                    }
                    assert forall|i: int| 0 <= i < before.nodes@.len() implies before.nodes@[i].children@.len() <= (
                    #[trigger] self.nodes@[i]).children@.len() && self.nodes@[i].children@.take(
                        before.nodes@[i].children@.len() as int,
                    ) == before.nodes@[i].children@ by {
                        assert(self.nodes@[i].children@.take(before.nodes@[i].children@.len() as int) =~= before.nodes@[i].children@);
                    }
                }
                j
            },
        }
    }

    /// Books `amount` on `account`: every node from the top-level one down to `account` gains
    /// it in its total (nodes that are missing are made), the root too, and the node of
    /// `account` gains it in its own amount.
    #[verifier::rlimit(50)]
    pub fn insert(&mut self, account: &Account, amount: Cents)
        requires
            old(self).wf(),
            old(self).can_add(account@, amount.0 as int),
        ensures
            final(self).wf(),
            keeps_children(*old(self), *final(self)),
            old(self).nodes@.len() <= final(self).nodes@.len(),
            forall|j: int|
                0 <= j < old(self).nodes@.len() ==> final(self).path(j) == old(self).path(j) && (
                #[trigger] final(self).nodes@[j]).own.0 == old(self).nodes@[j].own.0 + if j >= 1
                    && old(self).path(j) == account@ {
                    amount.0 as int
                } else {
                    0
                } && final(self).nodes@[j].total.0 == old(self).nodes@[j].total.0 + if j == 0
                    || is_node(old(self).path(j), account@) {
                    amount.0 as int
                } else {
                    0
                },
            forall|j: int|
                old(self).nodes@.len() <= j < final(self).nodes@.len() ==> is_node(
                    final(self).path(j),
                    account@,
                ) && (#[trigger] final(self).nodes@[j]).own.0 == (if final(self).path(j)
                    == account@ {
                    amount.0 as int
                } else {
                    0
                }) && final(self).nodes@[j].total.0 == amount.0,
            forall|p: Seq<char>| is_node(p, account@) ==> #[trigger] final(self).present(p),
    {
        let walk = account.walk_nodes();
        let ghost w = walk@.map_values(|n: Account| n@);
        let ghost old_tree = *self;
        self.add_total(0, amount);
        proof {
            assert(keeps_children(old_tree, *self));
        }
        let mut cur: usize = 0;
        let mut k: usize = 0;
        while k < walk.len()
            invariant
                w == nodes_of(account@),
                w == walk@.map_values(|n: Account| n@),
                old_tree == *old(self),
                old_tree.can_add(account@, amount.0 as int),
                self.wf(),
                k <= walk@.len(),
                old_tree.nodes@.len() <= self.nodes@.len(),
                keeps_children(old_tree, *self),
                cur < self.nodes@.len(),
                k == 0 ==> cur == 0,
                k > 0 ==> cur >= 1 && self.path(cur as int) == w[k - 1],
                forall|j: int|
                    0 <= j < old_tree.nodes@.len() ==> self.path(j) == old_tree.path(j) && (
                    #[trigger] self.nodes@[j]).own == old_tree.nodes@[j].own && self.nodes@[j].total.0
                        == old_tree.nodes@[j].total.0 + if j == 0 || among(
                        w,
                        k as int,
                        old_tree.path(j),
                    ) {
                        amount.0 as int
                    } else {
                        0
                    },
                forall|j: int|
                    old_tree.nodes@.len() <= j < self.nodes@.len() ==> among(
                        w,
                        k as int,
                        self.path(j),
                    ) && (#[trigger] self.nodes@[j]).own.0 == 0 && self.nodes@[j].total.0
                        == amount.0,
                forall|t: int| 0 <= t < k ==> self.present(#[trigger] w[t]),
            decreases walk@.len() - k,
        {
            proof {
                lemma_nodes_of(account@);
            }
            let n = &walk[k];
            assert(n@ == w[k as int]);
            let ghost before = *self;
            let j = self.child_node(n, cur);
            proof {
                lemma_keeps_trans(old_tree, before, *self);
            }
            proof {
                assert forall|t: int| 0 <= t < k implies w[t] != w[k as int] by {
                    assert(w[t].len() < w[k as int].len());
                }
                if j < old_tree.nodes@.len() {
                    assert(self.nodes@[j as int].total.0 == old_tree.nodes@[j as int].total.0);
                    assert(nodes_of(account@)[k as int] == w[k as int]);
                    assert(is_node(old_tree.path(j as int), account@));
                }
                if old_tree.nodes@.len() <= j < before.nodes@.len() {
                    assert(before.nodes@[j as int].own.0 == 0);
                    let t = choose|t: int| 0 <= t < k && w[t] == before.path(j as int);
                }
            }
            let ghost mid = *self;
            self.add_total(j, amount);
            proof {
                lemma_keeps_trans(old_tree, mid, *self);
            }
            proof {
                assert forall|i: int| 0 <= i < old_tree.nodes@.len() implies among(
                    w,
                    k + 1,
                    old_tree.path(i),
                ) == (among(w, k as int, old_tree.path(i)) || old_tree.path(i) == w[k as int]) by {
                    if among(w, k + 1, old_tree.path(i)) && !(old_tree.path(i) == w[k as int]) {
                        let t = choose|t: int| 0 <= t < k + 1 && w[t] == old_tree.path(i);
                        assert(t < k);
                    }
                    if old_tree.path(i) == w[k as int] {
                        assert(w[k as int] == old_tree.path(i));
                    }
                }
                assert forall|i: int| 0 <= i < old_tree.nodes@.len() && i != j implies old_tree.path(i) != w[k as int] || i == 0 by {
                    if i >= 1 {
                        assert(mid.path(i) != mid.path(j as int));
                    }
                }
                assert forall|i: int| old_tree.nodes@.len() <= i < self.nodes@.len() implies among(
                    w,
                    k + 1,
                    #[trigger] self.path(i),
                ) by {
                    if i == j {
                        assert(w[k as int] == self.path(i));
                    } else {
                        assert(before.nodes@[i].own.0 == 0);
                        let t = choose|t: int| 0 <= t < k && w[t] == before.path(i);
                        assert(w[t] == self.path(i));
                    }
                }
                assert forall|t: int| 0 <= t < k + 1 implies self.present(#[trigger] w[t]) by {
                    if t == k {
                        assert(self.path(j as int) == w[t]);
                    } else {
                        assert(before.present(w[t]));
                        let jj = choose|jj: int| 1 <= jj < before.nodes@.len() && #[trigger] before.path(jj) == w[t];
                        assert(self.path(jj) == w[t]);
                    }
                }
            }
            cur = j;
            k = k + 1;
        }
        proof {
            lemma_nodes_of(account@);
        }
        let ghost last = *self;
        proof {
            assert(w[w.len() - 1] == account@);
            if cur < old_tree.nodes@.len() {
                assert(self.nodes@[cur as int].own == old_tree.nodes@[cur as int].own);
                assert(old_tree.path(cur as int) == account@);
            } else {
                assert(self.nodes@[cur as int].own.0 == 0);
            }
        }
        self.add_own(cur, amount);
        proof {
            lemma_keeps_trans(old_tree, last, *self);
        }
        proof {
            let n = w.len() as int;
            assert(w[n - 1] == account@);
            assert forall|p: Seq<char>| is_node(p, account@) implies #[trigger] self.present(p) by {
                let t = choose|t: int| 0 <= t < w.len() && w[t] == p;
                assert(last.present(w[t]));
                let jj = choose|jj: int| 1 <= jj < last.nodes@.len() && #[trigger] last.path(jj) == w[t];
                assert(self.nodes@[jj].account == last.nodes@[jj].account);
                assert(self.path(jj) == p);
            }
            assert forall|p: Seq<char>| among(w, n, p) ==> is_node(p, account@) by {
                if among(w, n, p) {
                    let t = choose|t: int| 0 <= t < n && w[t] == p;
                    assert(w[t] == p);
                }
            }
        }
    }
}

/// Where no mutation of `ms` lies at or below `p`, nothing is booked on `p`.
pub proof fn lemma_sums_absent(ms: Seq<(int, Seq<char>)>, p: Seq<char>)
    requires
        forall|q: int| 0 <= q < ms.len() ==> !is_node(p, (#[trigger] ms[q]).1),
    ensures
        own_sum(ms, p) == 0,
        total_sum(ms, p) == 0,
    decreases ms.len(),
{
    if ms.len() > 0 {
        assert forall|q: int| 0 <= q < ms.drop_last().len() implies !is_node(
            p,
            (#[trigger] ms.drop_last()[q]).1,
        ) by {
            assert(ms.drop_last()[q] == ms[q]);
        }
        lemma_sums_absent(ms.drop_last(), p);
        assert(!is_node(p, ms[ms.len() - 1].1));
    }
}

/// Every running sum of `ms` fits in an `i32`: after each prefix, the sum of all amounts, and
/// for every path the amounts booked on exactly it and on it or below it.
pub open spec fn sums_fit(ms: Seq<(int, Seq<char>)>) -> bool {
    &&& forall|k: int| 0 <= k <= ms.len() ==> fits(#[trigger] sum_amounts(ms.take(k)))
    &&& forall|k: int, p: Seq<char>|
        0 <= k <= ms.len() ==> fits(#[trigger] total_sum(ms.take(k), p))
    &&& forall|k: int, p: Seq<char>| 0 <= k <= ms.len() ==> fits(#[trigger] own_sum(ms.take(k), p))
}

/// `t` is the tree of the mutations `ms`: a root with the empty path, nothing booked on it and
/// the sum of all amounts as its total; a node for every account that a mutation books on and
/// for everything above it, and no other; each with the amounts booked on exactly its path and
/// on it or below it.
pub open spec fn totals_of(t: Tree, ms: Seq<(int, Seq<char>)>) -> bool {
    &&& t.wf()
    &&& t.path(0) == Seq::<char>::empty()
    &&& t.nodes@[0].own.0 == 0
    &&& t.nodes@[0].total.0 == sum_amounts(ms)
    &&& forall|j: int|
        1 <= j < t.nodes@.len() ==> (#[trigger] t.nodes@[j]).own.0 == own_sum(ms, t.path(j))
            && t.nodes@[j].total.0 == total_sum(ms, t.path(j)) && exists|q: int|
            0 <= q < ms.len() && is_node(t.path(j), (#[trigger] ms[q]).1)
    &&& forall|q: int, p: Seq<char>|
        0 <= q < ms.len() && is_node(p, (#[trigger] ms[q]).1) ==> #[trigger] t.present(p)
}

proof fn lemma_fit_prefix(s: Seq<(int, Seq<char>)>, n: int)
    requires
        sums_fit(s),
        0 <= n <= s.len(),
    ensures
        sums_fit(s.take(n)),
{
    let t = s.take(n);
    assert forall|k: int| 0 <= k <= t.len() implies fits(#[trigger] sum_amounts(t.take(k))) by {
        assert(t.take(k) =~= s.take(k));
    }
    assert forall|k: int, p: Seq<char>| 0 <= k <= t.len() implies fits(
        #[trigger] total_sum(t.take(k), p),
    ) by {
        assert(t.take(k) =~= s.take(k));
    }
    assert forall|k: int, p: Seq<char>| 0 <= k <= t.len() implies fits(
        #[trigger] own_sum(t.take(k), p),
    ) by {
        assert(t.take(k) =~= s.take(k));
    }
}

/// A tree that holds the sums of `ms` and has no room for `(v, a)`: some running sum of
/// `ms` followed by `(v, a)` leaves `i32`.
proof fn lemma_no_fit(t: Tree, ms: Seq<(int, Seq<char>)>, v: int, a: Seq<char>)
    requires
        t.nodes@.len() >= 1,
        t.nodes@[0].total.0 == sum_amounts(ms),
        forall|j: int|
            1 <= j < t.nodes@.len() ==> (#[trigger] t.nodes@[j]).own.0 == own_sum(ms, t.path(j))
                && t.nodes@[j].total.0 == total_sum(ms, t.path(j)),
        !t.can_add(a, v),
    ensures
        !sums_fit(ms.push((v, a))),
{
    let ms2 = ms.push((v, a));
    let n = ms2.len() as int;
    assert(ms2.take(n) =~= ms2);
    assert(ms2.drop_last() =~= ms);
    if !fits(t.nodes@[0].total.0 + v) {
        assert(!fits(sum_amounts(ms2.take(n))));
    } else {
        let j = choose|j: int|
            1 <= j < t.nodes@.len() && !(fits(
                (#[trigger] t.nodes@[j]).total.0 + if is_node(t.path(j), a) {
                    v
                } else {
                    0
                },
            ) && fits(
                t.nodes@[j].own.0 + if t.path(j) == a {
                    v
                } else {
                    0
                },
            ));
        let p = t.path(j);
        assert(total_sum(ms2, p) == total_sum(ms, p) + if is_node(p, a) { v } else { 0 });
        assert(own_sum(ms2, p) == own_sum(ms, p) + if p == a { v } else { 0 });
        assert(!fits(total_sum(ms2.take(n), p)) || !fits(own_sum(ms2.take(n), p)));
    }
}

/// A tree that holds the sums of `ms2` shows that its running sums fit, where those of all
/// but its last mutation do.
proof fn lemma_fit_extends(t: Tree, ms2: Seq<(int, Seq<char>)>)
    requires
        ms2.len() >= 1,
        sums_fit(ms2.drop_last()),
        t.nodes@.len() >= 1,
        t.nodes@[0].total.0 == sum_amounts(ms2),
        forall|j: int|
            1 <= j < t.nodes@.len() ==> (#[trigger] t.nodes@[j]).own.0 == own_sum(ms2, t.path(j))
                && t.nodes@[j].total.0 == total_sum(ms2, t.path(j)),
        forall|q: int, p: Seq<char>|
            0 <= q < ms2.len() && is_node(p, (#[trigger] ms2[q]).1) ==> #[trigger] t.present(p),
    ensures
        sums_fit(ms2),
{
    let ms = ms2.drop_last();
    let n = ms2.len() as int;
    assert(ms2.take(n) =~= ms2);
    assert forall|k: int| 0 <= k <= n implies fits(#[trigger] sum_amounts(ms2.take(k))) by {
        if k < n {
            assert(ms2.take(k) =~= ms.take(k));
        }
    }
    assert forall|k: int, p: Seq<char>| 0 <= k <= n implies fits(
        #[trigger] total_sum(ms2.take(k), p),
    ) && fits(own_sum(ms2.take(k), p)) by {
        if k < n {
            assert(ms2.take(k) =~= ms.take(k));
        } else if t.present(p) {
            let j = choose|j: int| 1 <= j < t.nodes@.len() && #[trigger] t.path(j) == p;
            assert(t.nodes@[j].own.0 == own_sum(ms2, p));
        } else {
            assert forall|q: int| 0 <= q < ms2.len() implies !is_node(p, (#[trigger] ms2[q]).1) by {
                if is_node(p, ms2[q].1) {
                    assert(t.present(p));
                }
            }
            lemma_sums_absent(ms2, p);
        }
    }
    assert forall|k: int, p: Seq<char>| 0 <= k <= n implies fits(#[trigger] own_sum(ms2.take(k), p)) by {
        assert(fits(total_sum(ms2.take(k), p)) && fits(own_sum(ms2.take(k), p)));
    }
}

/// The mutations of all transactions, in order.
fn flat_mutations(transactions: &Vec<Transaction>) -> (r: Vec<Mutation>)
    ensures
        mutation_views(r@) == all_mutations(models_of(transactions@)),
{
    let ghost txs = models_of(transactions@);
    let mut r: Vec<Mutation> = Vec::new();
    let mut i: usize = 0;
    assert(txs.take(0) =~= Seq::<TransactionModel>::empty());
    assert(mutation_views(r@) =~= Seq::<(int, Seq<char>)>::empty());
    while i < transactions.len()
        invariant
            i <= transactions@.len(),
            txs == models_of(transactions@),
            mutation_views(r@) == all_mutations(txs.take(i as int)),
        decreases transactions@.len() - i,
    {
        let ms = &transactions[i].mutations;
        let ghost base = r@;
        let mut k: usize = 0;
        assert(mutation_views(ms@).take(0) =~= Seq::<(int, Seq<char>)>::empty());
        assert(mutation_views(r@) =~= mutation_views(base) + mutation_views(ms@).take(0));
        while k < ms.len()
            invariant
                k <= ms@.len(),
                mutation_views(r@) == mutation_views(base) + mutation_views(ms@).take(k as int),
            decreases ms@.len() - k,
        {
            let m = Mutation { amount: ms[k].amount, account: ms[k].account.clone_account() };
            let ghost before = r@;
            r.push(m);
            assert(mutation_views(r@) =~= mutation_views(before).push(m@));
            assert(mutation_views(ms@).take(k + 1) =~= mutation_views(ms@).take(k as int).push(
                ms@[k as int]@,
            ));
            assert(mutation_views(r@) =~= mutation_views(base) + mutation_views(ms@).take(k + 1));
            k = k + 1;
        }
        assert(mutation_views(ms@).take(k as int) =~= mutation_views(ms@));
        assert(txs.take(i + 1).drop_last() =~= txs.take(i as int));
        assert(txs[i as int] == transactions@[i as int]@);
        i = i + 1;
    }
    assert(txs.take(i as int) =~= txs);
    r
}

/// `p` is a node of the account path `a`: `a` itself or a strict ancestor.
fn node_of(p: &Account, a: &Account) -> (r: bool)
    ensures
        r == is_node(p@, a@),
{
    let pc = chars_of(p.raw.as_str());
    let ac = chars_of(a.raw.as_str());
    if pc.len() > ac.len() {
        return false;
    }
    let mut i: usize = 0;
    while i < pc.len()
        invariant
            i <= pc@.len() <= ac@.len(),
            pc@ == p@,
            ac@ == a@,
            forall|j: int| 0 <= j < i ==> ac@[j] == pc@[j],
        decreases pc@.len() - i,
    {
        if ac[i] != pc[i] {
            assert(ac@.take(pc@.len() as int)[i as int] != pc@[i as int]);
            assert(ac@ != pc@ && ac@.take(pc@.len() as int) != pc@);
            return false;
        }
        i = i + 1;
    }
    assert(ac@.take(pc@.len() as int) =~= pc@);
    if pc.len() == ac.len() {
        assert(ac@ =~= pc@);
        true
    } else {
        ac[pc.len()] == '/'
    }
}

impl Tree {
    /// Whether booking `amount` on `account` keeps every amount of the tree within `i32`.
    pub fn fits_after(&self, account: &Account, amount: Cents) -> (r: bool)
        requires
            self.wf(),
        ensures
            r == self.can_add(account@, amount.0 as int),
    {
        let v = amount.0 as i64;
        let t0 = self.nodes[0].total.0 as i64 + v;
        if t0 < -0x8000_0000 || t0 > 0x7fff_ffff {
            return false;
        }
        let mut j: usize = 1;
        while j < self.nodes.len()
            invariant
                1 <= j <= self.nodes@.len(),
                v == amount.0,
                forall|i: int|
                    1 <= i < j ==> fits(
                        (#[trigger] self.nodes@[i]).total.0 + if is_node(self.path(i), account@) {
                            v as int
                        } else {
                            0
                        },
                    ) && fits(
                        self.nodes@[i].own.0 + if self.path(i) == account@ {
                            v as int
                        } else {
                            0
                        },
                    ),
            decreases self.nodes@.len() - j,
        {
            let n = &self.nodes[j];
            let t = n.total.0 as i64 + if node_of(&n.account, account) {
                v
            } else {
                0
            };
            let o = n.own.0 as i64 + if n.account.raw == account.raw {
                v
            } else {
                0
            };
            if t < -0x8000_0000 || t > 0x7fff_ffff || o < -0x8000_0000 || o > 0x7fff_ffff {
                return false;
            }
            j = j + 1;
        }
        true
    }
}

/// A sum of amounts of `i32` lies within `2^31` times their number of zero.
proof fn lemma_sum_bound(v: Seq<(int, Seq<char>)>)
    requires
        forall|j: int| 0 <= j < v.len() ==> fits(#[trigger] v[j].0),
    ensures
        -(v.len() * 0x8000_0000) <= sum_amounts(v) <= v.len() * 0x8000_0000,
    decreases v.len(),
{
    if v.len() > 0 {
        assert forall|j: int| 0 <= j < v.drop_last().len() implies fits(#[trigger] v.drop_last()[j].0) by {
            assert(v.drop_last()[j] == v[j]);
        }
        lemma_sum_bound(v.drop_last());
        assert(fits(v[v.len() - 1].0));
    }
}

/// The sum of the amounts of a transaction, in a wide integer.
fn balance_wide(transaction: &Transaction) -> (r: i128)
    ensures
        r == sum_amounts(transaction@.mutations),
{
    let ms = &transaction.mutations;
    let ghost v = mutation_views(ms@);
    let mut sum: i128 = 0;
    let mut k: usize = 0;
    assert(v.take(0) =~= Seq::<(int, Seq<char>)>::empty());
    while k < ms.len()
        invariant
            k <= ms@.len(),
            v == mutation_views(ms@),
            v == transaction@.mutations,
            sum == sum_amounts(v.take(k as int)),
        decreases ms@.len() - k,
    {
        let ghost t = v.take(k + 1);
        assert(t.drop_last() =~= v.take(k as int));
        assert(t.last() == ms@[k as int]@);
        proof {
            assert forall|j: int| 0 <= j < t.len() implies fits(#[trigger] t[j].0) by {
                assert(t[j] == ms@[j]@);
            }
            lemma_sum_bound(t);
            assert((k + 1) * 0x8000_0000 <= 0x1_0000_0000_0000_0000 * 0x8000_0000int) by (nonlinear_arith)
                requires k + 1 <= 0x1_0000_0000_0000_0000int;
        }
        sum = sum + ms[k].amount.0 as i128;
        k = k + 1;
    }
    assert(v.take(k as int) =~= v);
    sum
}

/// The sum of the amounts of a transaction.
pub fn balance(transaction: &Transaction) -> (r: Cents)
    requires
        fits(sum_amounts(transaction@.mutations)),
    ensures
        r.0 == sum_amounts(transaction@.mutations),
{
    Cents(balance_wide(transaction) as i32)
}

/// Whether the mutations of each transaction add up to an amount that fits in `Cents`.
pub fn balances_fit(transactions: &Vec<Transaction>) -> (r: bool)
    ensures
        r == forall|i: int|
            0 <= i < transactions@.len() ==> fits(
                sum_amounts((#[trigger] transactions@[i])@.mutations),
            ),
{
    let mut i: usize = 0;
    while i < transactions.len()
        invariant
            i <= transactions@.len(),
            forall|j: int|
                0 <= j < i ==> fits(sum_amounts((#[trigger] transactions@[j])@.mutations)),
        decreases transactions@.len() - i,
    {
        let b = balance_wide(&transactions[i]);
        if b < -0x8000_0000 || b > 0x7fff_ffff {
            return false;
        }
        i = i + 1;
    }
    true
}

/// The transactions of `txs` whose mutations do not add up to zero, each with its sum.
pub open spec fn unbalanced(txs: Seq<TransactionModel>) -> Seq<(TransactionModel, int)>
    decreases txs.len(),
{
    if txs.len() == 0 {
        Seq::empty()
    } else if sum_amounts(txs.last().mutations) != 0 {
        unbalanced(txs.drop_last()).push((txs.last(), sum_amounts(txs.last().mutations)))
    } else {
        unbalanced(txs.drop_last())
    }
}

/// The views of transactions paired with amounts.
pub open spec fn pair_views(s: Seq<(Transaction, Cents)>) -> Seq<(TransactionModel, int)> {
    s.map_values(|x: (Transaction, Cents)| (x.0@, x.1.0 as int))
}

/// The transactions whose mutations do not add up to zero, in order, each with what is left.
pub fn find_unbalanced(transactions: Vec<Transaction>) -> (r: Vec<(Transaction, Cents)>)
    requires
        forall|i: int|
            0 <= i < transactions@.len() ==> fits(
                sum_amounts((#[trigger] transactions@[i])@.mutations),
            ),
    ensures
        pair_views(r@) == unbalanced(models_of(transactions@)),
{
    let ghost txs = models_of(transactions@);
    let ghost ts = transactions@;
    let mut out: Vec<(Transaction, Cents)> = Vec::new();
    assert(txs.take(0) =~= Seq::<TransactionModel>::empty());
    assert(pair_views(out@) =~= Seq::<(TransactionModel, int)>::empty());
    for t in it: transactions
        invariant
            it.seq() == ts,
            txs == models_of(ts),
            forall|i: int| 0 <= i < ts.len() ==> fits(sum_amounts((#[trigger] ts[i])@.mutations)),
            pair_views(out@) == unbalanced(txs.take(it.index() as int)),
    {
        let ghost idx = it.index() as int;
        assert(t == ts[idx]);
        assert(t@ == txs[idx]);
        let b = balance(&t);
        assert(txs.take(idx + 1).drop_last() =~= txs.take(idx));
        assert(txs.take(idx + 1).last() == t@);
        if b.0 != 0 {
            let ghost before = out@;
            out.push((t, b));
            assert(pair_views(out@) =~= pair_views(before).push((t@, b.0 as int)));
        }
    }
    assert(txs.take(txs.len() as int) =~= txs);
    out
}

/// The tree of `transactions`, where every running sum of their amounts fits in `Cents`;
/// `None` where one does not.
#[verifier::rlimit(50)]
pub fn try_compute_totals(transactions: &Vec<Transaction>) -> (r: Option<Tree>)
    ensures
        r is None <==> !sums_fit(all_mutations(models_of(transactions@))),
        r matches Some(t) ==> totals_of(t, all_mutations(models_of(transactions@))),
{
    let flat = flat_mutations(transactions);
    let ghost all = mutation_views(flat@);
    let mut tree = Tree::new();
    let mut k: usize = 0;
    assert(all.take(0) =~= Seq::<(int, Seq<char>)>::empty());
    proof {
        let e = all.take(0);
        assert forall|kk: int| 0 <= kk <= e.len() implies fits(#[trigger] sum_amounts(e.take(kk))) by {
            assert(e.take(kk) =~= e);
        }
        assert forall|kk: int, p: Seq<char>| 0 <= kk <= e.len() implies fits(#[trigger] total_sum(e.take(kk), p)) by {
            assert(e.take(kk) =~= e);
        }
        assert forall|kk: int, p: Seq<char>| 0 <= kk <= e.len() implies fits(#[trigger] own_sum(e.take(kk), p)) by {
            assert(e.take(kk) =~= e);
        }
    }
    while k < flat.len()
        invariant
            k <= flat@.len(),
            all == mutation_views(flat@),
            all == all_mutations(models_of(transactions@)),
            sums_fit(all.take(k as int)),
            tree.wf(),
            tree.path(0) == Seq::<char>::empty(),
            tree.nodes@[0].own.0 == 0,
            tree.nodes@[0].total.0 == sum_amounts(all.take(k as int)),
            forall|j: int|
                1 <= j < tree.nodes@.len() ==> (#[trigger] tree.nodes@[j]).own.0 == own_sum(
                    all.take(k as int),
                    tree.path(j),
                ) && tree.nodes@[j].total.0 == total_sum(all.take(k as int), tree.path(j))
                    && exists|q: int| 0 <= q < k && is_node(tree.path(j), (#[trigger] all[q]).1),
            forall|q: int, p: Seq<char>|
                0 <= q < k && is_node(p, (#[trigger] all[q]).1) ==> #[trigger] tree.present(p),
        decreases flat@.len() - k,
    {
        let ghost ms = all.take(k as int);
        let ghost ms2 = all.take(k + 1);
        let ghost m = all[k as int];
        assert(ms2.drop_last() =~= ms);
        assert(ms2.last() == m);
        assert(m == flat@[k as int]@);
        assert(ms2 =~= ms.push(m));
        if !tree.fits_after(&flat[k].account, flat[k].amount) {
            proof {
                lemma_no_fit(tree, ms, m.0, m.1);
                if sums_fit(all) {
                    lemma_fit_prefix(all, k + 1);
                }
            }
            return None;
        }
        let ghost before = tree;
        tree.insert(&flat[k].account, flat[k].amount);
        proof {
            assert(m == flat@[k as int]@);
            assert forall|j: int| 1 <= j < tree.nodes@.len() implies (#[trigger] tree.nodes@[j]).own.0 == own_sum(ms2, tree.path(j))
                && tree.nodes@[j].total.0 == total_sum(ms2, tree.path(j))
                && exists|q: int| 0 <= q < k + 1 && is_node(tree.path(j), (#[trigger] all[q]).1) by {
                if j < before.nodes@.len() {
                    assert(before.nodes@[j].own.0 == own_sum(ms, before.path(j)));
                    let q = choose|q: int| 0 <= q < k && is_node(before.path(j), (#[trigger] all[q]).1);
                    assert(is_node(tree.path(j), all[q].1));
                } else {
                    assert(is_node(tree.path(j), all[k as int].1));
                    assert forall|q: int| 0 <= q < ms.len() implies !is_node(tree.path(j), (#[trigger] ms[q]).1) by {
                        if is_node(tree.path(j), ms[q].1) {
                            assert(all[q] == ms[q]);
                            assert(before.present(tree.path(j)));
                            let jj = choose|jj: int| 1 <= jj < before.nodes@.len() && #[trigger] before.path(jj) == tree.path(j);
                            assert(tree.path(jj) == before.path(jj));
                        }
                    }
                    lemma_sums_absent(ms, tree.path(j));
                }
            }
            assert forall|q: int, p: Seq<char>| 0 <= q < k + 1 && is_node(p, (#[trigger] all[q]).1) implies #[trigger] tree.present(p) by {
                if q < k {
                    assert(before.present(p));
                    let jj = choose|jj: int| 1 <= jj < before.nodes@.len() && #[trigger] before.path(jj) == p;
                    assert(tree.path(jj) == p);
                }
            }
        }
        proof {
            assert forall|q: int, p: Seq<char>| 0 <= q < ms2.len() && is_node(p, (#[trigger] ms2[q]).1) implies #[trigger] tree.present(p) by {
                assert(ms2[q] == all[q]);
            }
            lemma_fit_extends(tree, ms2);
        }
        k = k + 1;
    }
    assert(all.take(k as int) =~= all);
    proof {
        assert forall|j: int| 1 <= j < tree.nodes@.len() implies (#[trigger] tree.nodes@[j]).own.0 == own_sum(all, tree.path(j))
            && tree.nodes@[j].total.0 == total_sum(all, tree.path(j)) && exists|q: int|
            0 <= q < all.len() && is_node(tree.path(j), (#[trigger] all[q]).1) by {
            let q = choose|q: int| 0 <= q < k && is_node(tree.path(j), (#[trigger] all[q]).1);
        }
    }
    Some(tree)
}

/// The tree of `transactions`, where every running sum of their amounts fits in `Cents`.
pub fn compute_totals(transactions: &Vec<Transaction>) -> (r: Tree)
    requires
        sums_fit(all_mutations(models_of(transactions@))),
    ensures
        totals_of(r, all_mutations(models_of(transactions@))),
{
    match try_compute_totals(transactions) {
        Some(t) => t,
        None => Tree::new(),
    }
}

/// One line of the indented totals report: the indentation with its tree connector, the last
/// segment of the node's path, and the node's total.
pub struct TotalsRow {
    pub prefix: String,
    pub name: String,
    pub total: Cents,
}

impl View for TotalsRow {
    type V = (Seq<char>, Seq<char>, int);

    open spec fn view(&self) -> (Seq<char>, Seq<char>, int) {
        (self.prefix@, self.name@, self.total.0 as int)
    }
}

/// The views of report rows.
pub open spec fn row_views(s: Seq<TotalsRow>) -> Seq<(Seq<char>, Seq<char>, int)> {
    s.map_values(|r: TotalsRow| r@)
}

/// The last segment of a path.
pub open spec fn segment_name(p: Seq<char>) -> Seq<char> {
    match split_last(p, '/') {
        Some((_, n)) => n,
        None => p,
    }
}

/// The report rows below node `i`, each line indented by `indent`.
pub open spec fn subtree_rows(t: Tree, i: int, indent: Seq<char>) -> Seq<(Seq<char>, Seq<char>, int)>
    decreases t.nodes@.len() - i, t.nodes@[i].children@.len() + 1,
{
    if 0 <= i < t.nodes@.len() {
        children_rows(t, i, 0, indent)
    } else {
        Seq::empty()
    }
}

/// The report rows of the children of node `i` from the `k`-th on, and of everything below
/// them: a child's line, then the lines below it, indented one step further (`│  ` under every
/// child but the last, spaces under the last).
pub open spec fn children_rows(t: Tree, i: int, k: int, indent: Seq<char>) -> Seq<
    (Seq<char>, Seq<char>, int),
>
    decreases t.nodes@.len() - i, t.nodes@[i].children@.len() - k,
{
    if 0 <= i < t.nodes@.len() && 0 <= k < t.nodes@[i].children@.len() {
        let c = t.nodes@[i].children@[k] as int;
        let last = k == t.nodes@[i].children@.len() - 1;
        let connector = if last {
            seq!['\u{2514}', '\u{2500}']
        } else {
            seq!['\u{251c}', '\u{2500}']
        };
        let step = if last {
            seq![' ', ' ', ' ']
        } else {
            seq!['\u{2502}', ' ', ' ']
        };
        if i < c < t.nodes@.len() {
            seq![(indent + connector, segment_name(t.path(c)), t.nodes@[c].total.0 as int)]
                + subtree_rows(t, c, indent + step) + children_rows(t, i, k + 1, indent)
        } else {
            Seq::empty()
        }
    } else {
        Seq::empty()
    }
}

impl Tree {
    /// Appends the report rows below node `i` to `out`.
    fn push_subtree_rows(&self, i: usize, indent: &String, out: &mut Vec<TotalsRow>)
        requires
            self.wf(),
            i < self.nodes@.len(),
        ensures
            row_views(final(out)@) == row_views(old(out)@) + subtree_rows(*self, i as int, indent@),
        decreases self.nodes@.len() - i,
    {
        let ghost start = row_views(out@);
        let n = self.nodes[i].children.len();
        let mut k: usize = 0;
        assert(start + subtree_rows(*self, i as int, indent@) == start + children_rows(*self, i as int, 0, indent@));
        while k < n
            invariant
                self.wf(),
                i < self.nodes@.len(),
                n == self.nodes@[i as int].children@.len(),
                k <= n,
                row_views(out@) + children_rows(*self, i as int, k as int, indent@) == start
                    + subtree_rows(*self, i as int, indent@),
            decreases n - k,
        {
            let c = self.nodes[i].children[k];
            assert(self.child_ok(i as int, c as int));
            let last = k + 1 == n;
            let mut prefix = indent.clone();
            let mut step = indent.clone();
            if last {
                push_char(&mut prefix, '\u{2514}');
                push_char(&mut prefix, '\u{2500}');
                push_char(&mut step, ' ');
                push_char(&mut step, ' ');
                push_char(&mut step, ' ');
            } else {
                push_char(&mut prefix, '\u{251c}');
                push_char(&mut prefix, '\u{2500}');
                push_char(&mut step, '\u{2502}');
                push_char(&mut step, ' ');
                push_char(&mut step, ' ');
            }
            assert(prefix@ =~= indent@ + if last {
                seq!['\u{2514}', '\u{2500}']
            } else {
                seq!['\u{251c}', '\u{2500}']
            });
            assert(step@ =~= indent@ + if last {
                seq![' ', ' ', ' ']
            } else {
                seq!['\u{2502}', ' ', ' ']
            });
            let row = TotalsRow {
                prefix,
                name: self.nodes[c].account.name(),
                total: self.nodes[c].total,
            };
            let ghost before = row_views(out@);
            let ghost rv = row@;
            out.push(row);
            assert(row_views(out@) =~= before.push(rv));
            let ghost mid = row_views(out@);
            self.push_subtree_rows(c, &step, out);
            proof {
                let rest = children_rows(*self, i as int, k + 1, indent@);
                let sub = subtree_rows(*self, c as int, step@);
                assert(children_rows(*self, i as int, k as int, indent@) == seq![rv] + sub + rest);
                assert(row_views(out@) + rest =~= before + (seq![rv] + sub + rest));
            }
            k = k + 1;
        }
        assert(children_rows(*self, i as int, k as int, indent@) =~= Seq::<(Seq<char>, Seq<char>, int)>::empty());
        assert(row_views(out@) + Seq::<(Seq<char>, Seq<char>, int)>::empty() =~= row_views(out@));
    }

    /// The indented report of the tree: a row for every node below the root, depth first, each
    /// child after its parent in the order of the children lists.
    pub fn totals_rows(&self) -> (r: Vec<TotalsRow>)
        requires
            self.wf(),
        ensures
            row_views(r@) == subtree_rows(*self, 0, Seq::empty()),
    {
        let mut out: Vec<TotalsRow> = Vec::new();
        let indent = String::new();
        assert(row_views(out@) =~= Seq::<(Seq<char>, Seq<char>, int)>::empty());
        self.push_subtree_rows(0, &indent, &mut out);
        assert(Seq::<(Seq<char>, Seq<char>, int)>::empty() + subtree_rows(*self, 0, Seq::empty()) =~= subtree_rows(*self, 0, Seq::empty()));
        out
    }
}

/// The flat report of nodes `1..k`: (own amount, path) of each node in the order the nodes were
/// made, leaving out leaves with nothing booked where `omit_zero` asks for it.
pub open spec fn flat_rows(t: Tree, k: int, omit_zero: bool) -> Seq<(int, Seq<char>)>
    decreases k,
{
    if k <= 1 {
        Seq::empty()
    } else {
        let n = t.nodes@[k - 1];
        if omit_zero && n.own.0 == 0 && n.children@.len() == 0 {
            flat_rows(t, k - 1, omit_zero)
        } else {
            flat_rows(t, k - 1, omit_zero).push((n.own.0 as int, n.account@))
        }
    }
}

impl Tree {
    /// The flat report of the tree: the own amount and the full path of every node below the
    /// root, leaving out leaves with nothing booked where `omit_zero` asks for it.
    pub fn own_rows(&self, omit_zero: bool) -> (r: Vec<(Cents, String)>)
        ensures
            r@.map_values(|x: (Cents, String)| (x.0.0 as int, x.1@)) == flat_rows(
                *self,
                self.nodes@.len() as int,
                omit_zero,
            ),
    {
        let mut out: Vec<(Cents, String)> = Vec::new();
        let mut k: usize = 1;
        assert(out@.map_values(|x: (Cents, String)| (x.0.0 as int, x.1@)) =~= Seq::<(int, Seq<char>)>::empty());
        while k < self.nodes.len()
            invariant
                1 <= k <= self.nodes@.len() || (k == 1 && self.nodes@.len() == 0),
                out@.map_values(|x: (Cents, String)| (x.0.0 as int, x.1@)) == flat_rows(
                    *self,
                    k as int,
                    omit_zero,
                ),
            decreases self.nodes@.len() - k,
        {
            let n = &self.nodes[k];
            if !(omit_zero && n.own.0 == 0 && n.children.len() == 0) {
                let ghost before = out@;
                let path = n.account.raw.clone();
                out.push((n.own, path));
                assert(out@.map_values(|x: (Cents, String)| (x.0.0 as int, x.1@)) =~= before.map_values(|x: (Cents, String)| (x.0.0 as int, x.1@)).push((n.own.0 as int, n.account@)));
            }
            k = k + 1;
        }
        proof {
            if self.nodes@.len() == 0 {
                assert(flat_rows(*self, 0, omit_zero) == flat_rows(*self, 1, omit_zero));
            }
        }
        out
    }
}

} // verus!
