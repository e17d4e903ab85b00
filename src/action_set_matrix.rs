//! A table of child nodes indexed by joint move, one base-4 digit per snake.

use vstd::prelude::*;
use vstd::arithmetic::power::pow;
use crate::game::{Direction, dir_index};
use crate::node::Node;
use crate::search::{joint_actions, vviews, product, lemma_product_real};

verus! {

#[derive(Debug, Clone)]
pub struct ActionSetMatrix {
    pub sets: Vec<Option<Node>>,
    pub action_sets: Vec<Vec<Direction>>,
    pub num_snakes: u32,
}

/// The table position of a joint move: snake `i`'s move is digit `i` in base 4.
pub open spec fn set_index(s: Seq<Direction>) -> int
    decreases s.len(),
{
    if s.len() == 0 {
        0
    } else {
        dir_index(s[0]) + 4 * set_index(s.drop_first())
    }
}

/// Every move of the joint move is a real move.
pub open spec fn all_real(s: Seq<Direction>) -> bool {
    forall|i: int| 0 <= i < s.len() ==> dir_index(#[trigger] s[i]) < 4
}

/// Digit `k` of a table position.
pub open spec fn digit(idx: int, k: nat) -> int {
    (idx / pow(4, k)) % 4
}

/// The nodes stored at the first `m` positions whose digit `k` is `a`, in
/// position order.
pub open spec fn matching(sets: Seq<Option<Node>>, k: nat, a: int, m: int) -> Seq<Node>
    decreases m,
{
    if m <= 0 {
        Seq::<Node>::empty()
    } else if digit(m - 1, k) == a && sets[m - 1] is Some {
        matching(sets, k, a, m - 1).push(sets[m - 1]->Some_0)
    } else {
        matching(sets, k, a, m - 1)
    }
}

proof fn lemma_set_index_bound(s: Seq<Direction>)
    requires
        all_real(s),
    ensures
        0 <= set_index(s) < pow(4, s.len()),
    decreases s.len(),
{
    vstd::arithmetic::power::lemma_pow0(4);
    if s.len() > 0 {
        let t = s.drop_first();
        assert(all_real(t)) by {
            assert forall|i: int| 0 <= i < t.len() implies dir_index(#[trigger] t[i]) < 4 by {
                assert(t[i] == s[i + 1]);
            }
        }
        lemma_set_index_bound(t);
        vstd::arithmetic::power::lemma_pow_adds(4, 1, t.len());
        vstd::arithmetic::power::lemma_pow1(4);
        assert(pow(4, s.len()) == 4 * pow(4, t.len()));
        assert(dir_index(s[0]) < 4);
    }
}

proof fn lemma_pow4_15()
    ensures
        pow(4, 15) == 0x4000_0000,
{
    reveal(pow);
    reveal_with_fuel(pow, 16);
}

/// Two joint moves of real moves of one length share a position only when
/// they are equal.
proof fn lemma_set_index_injective(a: Seq<Direction>, b: Seq<Direction>)
    requires
        all_real(a),
        all_real(b),
        a.len() == b.len(),
        set_index(a) == set_index(b),
    ensures
        a == b,
    decreases a.len(),
{
    if a.len() > 0 {
        let (ta, tb) = (a.drop_first(), b.drop_first());
        assert(all_real(ta)) by {
            assert forall|i: int| 0 <= i < ta.len() implies dir_index(#[trigger] ta[i]) < 4 by {
                assert(ta[i] == a[i + 1]);
            }
        }
        assert(all_real(tb)) by {
            assert forall|i: int| 0 <= i < tb.len() implies dir_index(#[trigger] tb[i]) < 4 by {
                assert(tb[i] == b[i + 1]);
            }
        }
        lemma_set_index_bound(ta);
        lemma_set_index_bound(tb);
        let (x, y, u, v) = (dir_index(a[0]) as int, dir_index(b[0]) as int, set_index(ta), set_index(tb));
        assert(x < 4 && y < 4);
        assert(x == y && u == v) by (nonlinear_arith)
            requires
                x + 4 * u == y + 4 * v,
                0 <= x < 4,
                0 <= y < 4,
        ;
        lemma_set_index_injective(ta, tb);
        assert(dir_index(a[0]) == dir_index(b[0]));
        assert(a[0] == b[0]);
        assert(a =~= seq![a[0]] + ta);
        assert(b =~= seq![b[0]] + tb);
    }
}

fn pow4(k: u32) -> (r: usize)
    requires
        k <= 15,
    ensures
        r == pow(4, k as nat),
{
    let mut r: usize = 1;
    let mut i: u32 = 0;
    proof {
        vstd::arithmetic::power::lemma_pow0(4);
    }
    while i < k
        invariant
            i <= k <= 15,
            r == pow(4, i as nat),
            r <= 0x4000_0000,
        decreases k - i,
    {
        proof {
            vstd::arithmetic::power::lemma_pow_adds(4, i as nat, 1);
            vstd::arithmetic::power::lemma_pow1(4);
            vstd::arithmetic::power::lemma_pow_increases(4, (i + 1) as nat, 15);
            lemma_pow4_15();
        }
        r = r * 4;
        i = i + 1;
    }
    r
}

impl ActionSetMatrix {
    /// An empty table for `num_snakes` snakes: `4^num_snakes` positions.
    pub fn new(num_snakes: usize) -> (r: ActionSetMatrix)
        requires
            num_snakes <= 15,
        ensures
            r.sets@.len() == pow(4, num_snakes as nat),
            forall|i: int| 0 <= i < r.sets@.len() ==> r.sets@[i] is None,
            r.action_sets@.len() == 0,
            r.num_snakes == num_snakes,
    {
        let n = pow4(num_snakes as u32);
        let mut sets: Vec<Option<Node>> = Vec::with_capacity(n);
        let mut i: usize = 0;
        while i < n
            invariant
                i <= n,
                sets@.len() == i,
                forall|j: int| 0 <= j < i ==> sets@[j] is None,
            decreases n - i,
        {
            sets.push(None);
            i = i + 1;
        }
        ActionSetMatrix { sets, action_sets: Vec::new(), num_snakes: num_snakes as u32 }
    }

    /// The table position of a joint move.
    pub fn index_of(&self, action_set: &Vec<Direction>) -> (r: usize)
        requires
            action_set@.len() <= 15,
            all_real(action_set@),
        ensures
            r == set_index(action_set@),
    {
        proof {
            lemma_set_index_bound(action_set@);
            vstd::arithmetic::power::lemma_pow_increases(4, action_set@.len(), 15);
            lemma_pow4_15();
        }
        let mut acc: usize = 0;
        let mut i: usize = action_set.len();
        proof {
            vstd::arithmetic::power::lemma_pow0(4);
        }
        while i > 0
            invariant
                i <= action_set@.len() <= 15,
                all_real(action_set@),
                acc == set_index(action_set@.subrange(i as int, action_set@.len() as int)),
                acc < pow(4, (action_set@.len() - i) as nat),
                pow(4, (action_set@.len() - i) as nat) <= 0x4000_0000,
            decreases i,
        {
            let ghost tail = action_set@.subrange(i as int, action_set@.len() as int);
            let ghost next = action_set@.subrange(i - 1, action_set@.len() as int);
            assert(next.drop_first() =~= tail);
            assert(next[0] == action_set@[i - 1]);
            proof {
                lemma_set_index_bound(next);
                vstd::arithmetic::power::lemma_pow_increases(4, next.len(), 15);
                lemma_pow4_15();
            }
            acc = action_set[i - 1].index() + 4 * acc;
            i = i - 1;
        }
        assert(action_set@.subrange(0, action_set@.len() as int) =~= action_set@);
        acc
    }

    /// Stores the child of `node` for every joint move that picks one entry
    /// of each list, and records the joint moves in order.
    pub fn fill(&mut self, node: &Node, valid_actions: Vec<Vec<Direction>>)
        requires
            old(self).sets@.len() == pow(4, old(self).num_snakes as nat),
            old(self).num_snakes <= 15,
            valid_actions@.len() == old(self).num_snakes,
            valid_actions@.len() >= 1,
            valid_actions@.len() == node.state.snakes@.len(),
            forall|i: int, j: int|
                0 <= i < valid_actions@.len() && 0 <= j < valid_actions@[i]@.len() ==> dir_index(
                    #[trigger] valid_actions@[i]@[j],
                ) < 4,
            forall|a: Seq<Direction>| a.len() == node.state.snakes@.len() ==> #[trigger] node.state.step_ready(a),
            node.depth < u32::MAX,
        ensures
            final(self).sets@.len() == old(self).sets@.len(),
            final(self).num_snakes == old(self).num_snakes,
            vviews(final(self).action_sets@) == vviews(old(self).action_sets@) + product(vviews(valid_actions@)),
            forall|q: int| 0 <= q < product(vviews(valid_actions@)).len() ==> ({
                let a = #[trigger] product(vviews(valid_actions@))[q];
                &&& final(self).sets@[set_index(a)] is Some
                &&& node.state.step_post(a, final(self).sets@[set_index(a)]->Some_0.state)
                &&& final(self).sets@[set_index(a)]->Some_0.depth == node.depth + 1
            }),
            forall|x: int|
                0 <= x < final(self).sets@.len() && (forall|q: int| 0 <= q < product(vviews(valid_actions@)).len() ==> x != set_index(
                    #[trigger] product(vviews(valid_actions@))[q],
                )) ==> final(self).sets@[x] == old(self).sets@[x],
    {
        let ghost lists = vviews(valid_actions@);
        proof {
            assert forall|i: int, j: int| 0 <= i < lists.len() && 0 <= j < lists[i].len() implies dir_index(#[trigger] lists[i][j]) < 4 by {
                assert(lists[i] == valid_actions@[i]@);
            }
            lemma_product_real(lists);
        }
        let joint = joint_actions(valid_actions);
        assert forall|q: int| 0 <= q < joint@.len() implies all_real(#[trigger] joint@[q]@) by {
            assert(vviews(joint@)[q] == joint@[q]@);
            assert forall|i: int| 0 <= i < joint@[q]@.len() implies dir_index(#[trigger] joint@[q]@[i]) < 4 by {
                assert(joint@[q]@[i] == product(lists)[q][i]);
            }
        }
        let ghost start = vviews(self.action_sets@);
        let mut i: usize = 0;
        while i < joint.len()
            invariant
                self.sets@.len() == pow(4, self.num_snakes as nat),
                self.num_snakes <= 15,
                self.num_snakes == old(self).num_snakes,
                self.sets@.len() == old(self).sets@.len(),
                i <= joint@.len(),
                forall|q: int| 0 <= q < joint@.len() ==> (#[trigger] joint@[q])@.len() == self.num_snakes,
                forall|q: int| 0 <= q < joint@.len() ==> all_real(#[trigger] joint@[q]@),
                forall|a: Seq<Direction>| a.len() == node.state.snakes@.len() ==> #[trigger] node.state.step_ready(a),
                self.num_snakes == node.state.snakes@.len(),
                node.depth < u32::MAX,
                vviews(self.action_sets@) == start + vviews(joint@).subrange(0, i as int),
                forall|q: int| 0 <= q < i ==> ({
                    let a = #[trigger] joint@[q]@;
                    &&& 0 <= set_index(a) < self.sets@.len()
                    &&& self.sets@[set_index(a)] is Some
                    &&& node.state.step_post(a, self.sets@[set_index(a)]->Some_0.state)
                    &&& self.sets@[set_index(a)]->Some_0.depth == node.depth + 1
                }),
                forall|x: int|
                    0 <= x < self.sets@.len() && (forall|q: int| 0 <= q < i ==> x != set_index(#[trigger] joint@[q]@)) ==> self.sets@[x]
                        == old(self).sets@[x],
            decreases joint@.len() - i,
        {
            let action_set = &joint[i];
            assert(node.state.step_ready(action_set@));
            let child = node.step(action_set);
            let k = self.index_of(action_set);
            proof {
                lemma_set_index_bound(action_set@);
            }
            let ghost sets_before = self.sets@;
            self.sets[k] = Some(child);
            proof {
                assert forall|q: int| 0 <= q < i + 1 implies ({
                    let a = #[trigger] joint@[q]@;
                    &&& 0 <= set_index(a) < self.sets@.len()
                    &&& self.sets@[set_index(a)] is Some
                    &&& node.state.step_post(a, self.sets@[set_index(a)]->Some_0.state)
                    &&& self.sets@[set_index(a)]->Some_0.depth == node.depth + 1
                }) by {
                    if q < i && set_index(joint@[q]@) == k {
                        lemma_set_index_injective(joint@[q]@, joint@[i as int]@);
                    }
                }
                assert forall|x: int|
                    0 <= x < self.sets@.len() && (forall|q: int| 0 <= q < i + 1 ==> x != set_index(#[trigger] joint@[q]@)) implies self.sets@[x]
                        == old(self).sets@[x] by {
                    assert(x != set_index(joint@[i as int]@));
                    assert forall|q: int| 0 <= q < i implies x != set_index(#[trigger] joint@[q]@) by {}
                }
            }
            let copy = copy_actions(action_set);
            let ghost prev = self.action_sets@;
            self.action_sets.push(copy);
            assert(vviews(self.action_sets@) =~= vviews(prev).push(joint@[i as int]@));
            assert(vviews(joint@).subrange(0, i + 1) =~= vviews(joint@).subrange(0, i as int).push(joint@[i as int]@));
            i = i + 1;
            assert(vviews(self.action_sets@) =~= start + vviews(joint@).subrange(0, i as int));
        }
        assert(vviews(joint@).subrange(0, joint@.len() as int) =~= vviews(joint@));
        proof {
            assert forall|q: int| 0 <= q < product(lists).len() implies ({
                let a = #[trigger] product(lists)[q];
                &&& self.sets@[set_index(a)] is Some
                &&& node.state.step_post(a, self.sets@[set_index(a)]->Some_0.state)
                &&& self.sets@[set_index(a)]->Some_0.depth == node.depth + 1
            }) by {
                assert(vviews(joint@)[q] == joint@[q]@);
            }
            assert forall|x: int|
                0 <= x < self.sets@.len() && (forall|q: int| 0 <= q < product(lists).len() ==> x != set_index(#[trigger] product(lists)[q]))
                implies self.sets@[x] == old(self).sets@[x] by {
                assert forall|q: int| 0 <= q < joint@.len() implies x != set_index(#[trigger] joint@[q]@) by {
                    assert(vviews(joint@)[q] == joint@[q]@);
                    assert(x != set_index(product(lists)[q]));
                }
            }
        }
    }

    /// The stored children whose joint move gives snake `snake_id` the move
    /// `action`, in table order.
    pub fn get_nodes(&self, snake_id: u32, action: Direction) -> (r: Vec<&Node>)
        requires
            snake_id < self.num_snakes <= 15,
            dir_index(action) < 4,
        ensures
            r@.map_values(|n: &Node| *n) == matching(self.sets@, snake_id as nat, dir_index(action) as int, self.sets@.len() as int),
    {
        let base = pow4(snake_id);
        proof {
            vstd::arithmetic::power::lemma_pow_positive(4, snake_id as nat);
        }
        let a = action.index();
        let mut nodes: Vec<&Node> = Vec::new();
        let mut idx: usize = 0;
        while idx < self.sets.len()
            invariant
                base == pow(4, snake_id as nat),
                base > 0,
                a == dir_index(action),
                idx <= self.sets@.len(),
                nodes@.map_values(|n: &Node| *n) == matching(self.sets@, snake_id as nat, a as int, idx as int),
            decreases self.sets@.len() - idx,
        {
            if (idx / base) % 4 == a {
                match &self.sets[idx] {
                    Some(node) => {
                        nodes.push(node);
                    },
                    None => {},
                }
            }
            idx = idx + 1;
            assert(nodes@.map_values(|n: &Node| *n) =~= matching(self.sets@, snake_id as nat, a as int, idx as int));
        }
        nodes
    }
}

fn copy_actions(v: &Vec<Direction>) -> (r: Vec<Direction>)
    ensures
        r@ == v@,
{
    let mut r: Vec<Direction> = Vec::with_capacity(v.len());
    let mut i: usize = 0;
    while i < v.len()
        invariant
            i <= v@.len(),
            r@ == v@.subrange(0, i as int),
        decreases v@.len() - i,
    {
        r.push(v[i]);
        i = i + 1;
        assert(r@ =~= v@.subrange(0, i as int));
    }
    assert(v@.subrange(0, v@.len() as int) =~= v@);
    r
}

} // verus!
