//! Search tree nodes: a state and its depth below the root.

use vstd::prelude::*;
use crate::game::{Direction, linear_dist};
use crate::cell::{views, lemma_hazard_dims, hazard_count};
use crate::snake::{Snake, SnakeView};
use crate::state::{State, Mode, HAZARD_DAMAGE, stepped_snakes, moved_all, after_head_collisions, after_collisions};

verus! {

#[derive(Debug, Clone)]
pub struct Node {
    pub state: State,
    pub depth: u32,
}

/// Living heads stay `m` cells clear of the coordinate type's bounds.
pub open spec fn heads_room(st: State, m: int) -> bool {
    forall|i: int|
        0 <= i < st.sv().len() && (#[trigger] st.sv()[i]).alive() ==> i32::MIN + m < st.sv()[i].head().x
            < i32::MAX - m && i32::MIN + m < st.sv()[i].head().y < i32::MAX - m
}

/// A state from which `m` more turns can be simulated.
pub open spec fn ready(st: State, m: int) -> bool {
    &&& st.wf()
    &&& 1 <= st.snakes@.len() <= 128
    &&& forall|i: int| 0 <= i < st.snakes@.len() ==> (#[trigger] st.snakes@[i]).body@.len() >= 2
    &&& st.turn + m < u32::MAX
    &&& forall|i: int| 0 <= i < st.snakes@.len() ==> (#[trigger] st.snakes@[i]).body@.len() + m < u32::MAX
    &&& st.sv()[0].should_simulate
    &&& heads_room(st, m)
    &&& forall|i: int|
        0 <= i < st.sv().len() && (#[trigger] st.sv()[i]).alive() ==> st.sv()[i].health > i16::MIN
            + HAZARD_DAMAGE * 255
    &&& forall|k: int| 0 <= k < st.grid.cells@.len() ==> hazard_count(st.grid, st.hazards@, k) <= u8::MAX
}

pub proof fn lemma_ready_step(st: State, actions: Seq<Direction>, r: State, m: int)
    requires
        ready(st, m + 1),
        m >= 0,
        actions.len() == st.snakes@.len(),
        st.step_post(actions, r),
    ensures
        ready(r, m),
{
    let sv = st.sv();
    let cons = st.mode == Mode::Constrictor;
    let mv = moved_all(sv, actions, cons);
    let h = after_head_collisions(mv);
    let c = after_collisions(st.grid, h);
    let f = stepped_snakes(st, actions);
    assert(r.sv() == f);
    assert(f.len() == sv.len());
    assert forall|i: int| 0 <= i < r.snakes@.len() implies (#[trigger] r.snakes@[i]).body@.len() >= 2 by {
        assert(r.sv()[i] == r.snakes@[i]@);
        assert(st.snakes@[i].body@.len() >= 2);
        assert(sv[i] == st.snakes@[i]@);
    }
    assert forall|i: int| 0 <= i < r.snakes@.len() implies (#[trigger] r.snakes@[i]).body@.len() + m < u32::MAX by {
        assert(r.sv()[i] == r.snakes@[i]@);
        assert(st.snakes@[i].body@.len() + m + 1 < u32::MAX);
        assert(sv[i] == st.snakes@[i]@);
    }
    assert(st.snakes@[0].body@.len() >= 2);
    assert(sv[0] == st.snakes@[0]@);
    assert(r.sv()[0].should_simulate);
    assert forall|i: int| 0 <= i < r.sv().len() && (#[trigger] r.sv()[i]).alive() implies i32::MIN + m < r.sv()[i].head().x
            < i32::MAX - m && i32::MIN + m < r.sv()[i].head().y < i32::MAX - m by {
        assert(st.snakes@[i].body@.len() >= 2);
        assert(sv[i] == st.snakes@[i]@);
        assert(sv[i].alive());
        assert(f[i].head() == mv[i].head());
    }
    assert forall|i: int| 0 <= i < r.sv().len() && (#[trigger] r.sv()[i]).alive() implies r.sv()[i].health > i16::MIN
            + HAZARD_DAMAGE * 255 by {
        assert(sv[i] == st.snakes@[i]@);
    }
    assert forall|k: int| 0 <= k < r.grid.cells@.len() implies hazard_count(r.grid, r.hazards@, k) <= u8::MAX by {
        if r.hazards@.len() > 0 {
            assert(r.hazards@ == st.hazards@);
            lemma_hazard_dims(r.grid, st.grid, st.hazards@, k);
        } else {
            assert(hazard_count(r.grid, r.hazards@, k) == 0);
        }
    }
}

impl Node {
    /// A node is searchable down to `max_depth` when its state has room for
    /// the remaining turns.
    pub open spec fn ready_for(&self, max_depth: int) -> bool {
        self.depth <= max_depth && ready(self.state, max_depth - self.depth)
    }

    pub fn new(state: State, depth: u32) -> (r: Node)
        ensures
            r.state == state,
            r.depth == depth,
    {
        Node { state, depth }
    }

    /// The child node after the joint move `action_set`.
    pub fn step(&self, action_set: &Vec<Direction>) -> (r: Node)
        requires
            self.state.step_ready(action_set@),
            self.depth < u32::MAX,
        ensures
            self.state.step_post(action_set@, r.state),
            r.depth == self.depth + 1,
    {
        let state = self.state.step(action_set);
        let depth = self.depth + 1;
        Node::new(state, depth)
    }

    /// With more than three snakes (and not in constrictor mode), only the
    /// snakes whose head is within `2 * max_depth` of ours are simulated.
    pub fn update_snake_simulation(&mut self, max_depth: u32)
        requires
            old(self).state.wf(),
            old(self).state.snakes@.len() >= 1,
            forall|i: int| 0 <= i < old(self).state.sv().len() ==> linear_dist(old(self).state.sv()[0].head(), #[trigger] old(self).state.sv()[i].head()) <= i32::MAX,
        ensures
            final(self).state.wf(),
            final(self).depth == old(self).depth,
            final(self).state.turn == old(self).state.turn,
            final(self).state.food@ == old(self).state.food@,
            final(self).state.hazards@ == old(self).state.hazards@,
            final(self).state.grid == old(self).state.grid,
            final(self).state.mode == old(self).state.mode,
            final(self).state.sv().len() == old(self).state.sv().len(),
            forall|i: int| 0 <= i < final(self).state.sv().len() ==> #[trigger] final(self).state.sv()[i] == if i >= 1 && old(self).state.sv().len() > 3 && old(self).state.mode != Mode::Constrictor {
                SnakeView {
                    should_simulate: linear_dist(old(self).state.sv()[0].head(), old(self).state.sv()[i].head()) <= 2 * max_depth,
                    ..old(self).state.sv()[i]
                }
            } else {
                old(self).state.sv()[i]
            },
    {
        let ghost sv = self.state.sv();
        assert(self.state.snakes@[0].body@.len() >= 1);
        let our_head = self.state.snakes[0].head();
        if self.state.snakes.len() > 3 && self.state.mode != Mode::Constrictor {
            let n = self.state.snakes.len();
            let mut new_snakes: Vec<Snake> = Vec::with_capacity(n);
            new_snakes.push(self.state.snakes[0].duplicate());
            let mut i: usize = 1;
            while i < n
                invariant
                    n == self.state.snakes@.len(),
                    sv == self.state.sv(),
                    sv == old(self).state.sv(),
                    self.state.wf(),
                    sv.len() == n,
                    1 <= i <= n,
                    our_head == sv[0].head(),
                    new_snakes@.len() == i,
                    forall|j: int| 0 <= j < sv.len() ==> linear_dist(sv[0].head(), #[trigger] sv[j].head()) <= i32::MAX,
                    forall|j: int| 0 <= j < i ==> #[trigger] views(new_snakes@)[j] == if j >= 1 {
                        SnakeView { should_simulate: linear_dist(sv[0].head(), sv[j].head()) <= 2 * max_depth, ..sv[j] }
                    } else {
                        sv[j]
                    },
                decreases n - i,
            {
                let ghost prev = new_snakes@;
                assert(sv[i as int] == self.state.snakes@[i as int]@);
                assert(self.state.snakes@[i as int].body@.len() >= 1);
                let mut s = self.state.snakes[i].duplicate();
                let d = our_head.manhattan_dist(&s.head());
                s.should_simulate = (d as u64) <= 2 * (max_depth as u64);
                new_snakes.push(s);
                i = i + 1;
                assert forall|j: int| 0 <= j < i implies #[trigger] views(new_snakes@)[j] == if j >= 1 {
                        SnakeView { should_simulate: linear_dist(sv[0].head(), sv[j].head()) <= 2 * max_depth, ..sv[j] }
                    } else {
                        sv[j]
                    } by {
                    if j < i - 1 {
                        assert(new_snakes@[j] == prev[j]);
                        assert(views(prev)[j] == views(new_snakes@)[j]);
                    }
                }
            }
            self.state.snakes = new_snakes;
            assert forall|j: int| 0 <= j < self.state.snakes@.len() implies (#[trigger] self.state.snakes@[j]).body@.len() >= 1 by {
                assert(self.state.sv()[j] == self.state.snakes@[j]@);
                assert(old(self).state.snakes@[j].body@.len() >= 1);
                assert(sv[j] == old(self).state.snakes@[j]@);
            }
            assert forall|j: int, p: int|
                0 <= j < self.state.sv().len() && self.state.sv()[j].alive() && 0 <= p < self.state.sv()[j].body.len()
                implies self.state.grid.contains_spec(#[trigger] self.state.sv()[j].body[p]) by {
                assert(self.state.sv()[j].body == sv[j].body);
                assert(old(self).state.grid.contains_spec(sv[j].body[p]));
            }
        }
    }
}


impl Node {
    /// Whether the node can be searched down to `max_depth`: the check that
    /// `eval_node` needs, for callers that cannot prove it.
    pub fn is_ready_for(&self, max_depth: u32) -> (r: bool)
        requires
            self.state.wf(),
        ensures
            r == self.ready_for(max_depth as int),
    {
        if self.depth > max_depth {
            return false;
        }
        let m: u64 = (max_depth - self.depth) as u64;
        let mi: i64 = m as i64;
        let st = &self.state;
        let n = st.snakes.len();
        if n < 1 || n > 128 {
            return false;
        }
        if st.turn as u64 + m >= u32::MAX as u64 {
            return false;
        }
        assert(st.sv()[0] == st.snakes@[0]@);
        if !st.snakes[0].should_simulate {
            return false;
        }
        let mut ok = true;
        let mut i: usize = 0;
        while i < n
            invariant
                n == st.snakes@.len(),
                st.wf(),
                i <= n,
                m < u32::MAX,
                mi == m,
                ok == (forall|j: int| 0 <= j < i ==> #[trigger] slot_ready(*st, j, m as int)),
            decreases n - i,
        {
            let s = &st.snakes[i];
            assert(st.sv()[i as int] == s@);
            let len = s.body.len() as u64;
            let mut good = len >= 2 && len < u32::MAX as u64 - m;
            if s.is_alive() {
                let h = s.body[0];
                let lo: i64 = i32::MIN as i64 + mi;
                let hi: i64 = i32::MAX as i64 - mi;
                if !(lo < h.x as i64 && (h.x as i64) < hi && lo < h.y as i64 && (h.y as i64) < hi) {
                    good = false;
                }
                if !(s.health as i64 > i16::MIN as i64 + 14 * 255) {
                    good = false;
                }
            }
            assert(good == slot_ready(*st, i as int, m as int));
            let ghost ok0 = ok;
            if !good {
                ok = false;
            }
            i = i + 1;
            assert(ok == (forall|j: int| 0 <= j < i ==> #[trigger] slot_ready(*st, j, m as int))) by {
                if ok {
                    assert forall|j: int| 0 <= j < i implies #[trigger] slot_ready(*st, j, m as int) by {
                        if j < i - 1 {
                            assert(ok0);
                        }
                    }
                } else {
                    if ok0 {
                        assert(!slot_ready(*st, i - 1, m as int));
                    } else {
                        let j = choose|j: int| 0 <= j < i - 1 && !#[trigger] slot_ready(*st, j, m as int);
                        assert(!slot_ready(*st, j, m as int));
                    }
                }
            }
        }
        if !ok {
            proof {
                let j = choose|j: int| 0 <= j < n && !#[trigger] slot_ready(*st, j, m as int);
                assert(st.sv()[j] == st.snakes@[j]@);
            }
            return false;
        }
        let ncells = st.grid.cells.len();
        let mut k: usize = 0;
        let mut counts: Vec<usize> = Vec::with_capacity(ncells);
        let mut c: usize = 0;
        while c < ncells
            invariant
                c <= ncells,
                counts@.len() == c,
                forall|q: int| 0 <= q < c ==> counts@[q] == 0,
            decreases ncells - c,
        {
            counts.push(0);
            c = c + 1;
        }
        let mut hzi: usize = 0;
        while hzi < st.hazards.len()
            invariant
                st.wf(),
                ncells == st.grid.cells@.len(),
                counts@.len() == ncells,
                hzi <= st.hazards@.len(),
                forall|q: int| 0 <= q < ncells ==> #[trigger] counts@[q] == hazard_count(st.grid, st.hazards@.subrange(0, hzi as int), q),
                forall|q: int| 0 <= q < ncells ==> counts@[q] <= hzi,
            decreases st.hazards@.len() - hzi,
        {
            let pos = st.hazards[hzi];
            let ghost pre = st.hazards@.subrange(0, hzi as int);
            let ghost post = st.hazards@.subrange(0, hzi + 1);
            assert(post.drop_last() =~= pre);
            if st.grid.contains(pos) {
                let q = st.grid.index_of(pos);
                let v = counts[q];
                counts[q] = v + 1;
            }
            hzi = hzi + 1;
        }
        assert(st.hazards@.subrange(0, st.hazards@.len() as int) =~= st.hazards@);
        while k < ncells
            invariant
                st == &self.state,
                ncells == st.grid.cells@.len(),
                counts@.len() == ncells,
                k <= ncells,
                forall|q: int| 0 <= q < ncells ==> #[trigger] counts@[q] == hazard_count(st.grid, st.hazards@, q),
                forall|q: int| 0 <= q < k ==> hazard_count(st.grid, st.hazards@, q) <= u8::MAX,
            decreases ncells - k,
        {
            if counts[k] > 255 {
                assert(hazard_count(st.grid, st.hazards@, k as int) > u8::MAX);
                return false;
            }
            k = k + 1;
        }
        proof {
            assert forall|j: int| 0 <= j < st.snakes@.len() implies (#[trigger] st.snakes@[j]).body@.len() >= 2 by {
                assert(slot_ready(*st, j, m as int));
                assert(st.sv()[j] == st.snakes@[j]@);
            }
            assert forall|j: int| 0 <= j < st.snakes@.len() implies (#[trigger] st.snakes@[j]).body@.len() + m < u32::MAX by {
                assert(slot_ready(*st, j, m as int));
                assert(st.sv()[j] == st.snakes@[j]@);
            }
            assert forall|j: int| 0 <= j < st.sv().len() && (#[trigger] st.sv()[j]).alive() implies i32::MIN + m < st.sv()[j].head().x
                < i32::MAX - m && i32::MIN + m < st.sv()[j].head().y < i32::MAX - m by {
                assert(slot_ready(*st, j, m as int));
            }
            assert forall|j: int| 0 <= j < st.sv().len() && (#[trigger] st.sv()[j]).alive() implies st.sv()[j].health > i16::MIN
                + HAZARD_DAMAGE * 255 by {
                assert(slot_ready(*st, j, m as int));
            }
        }
        true
    }
}

/// Snake `j` has room for `m` more turns.
pub open spec fn slot_ready(st: State, j: int, m: int) -> bool {
    let s = st.sv()[j];
    s.body.len() >= 2 && s.body.len() + m < u32::MAX && (s.alive() ==> (i32::MIN + m < s.head().x < i32::MAX - m
        && i32::MIN + m < s.head().y < i32::MAX - m && s.health > i16::MIN + HAZARD_DAMAGE * 255))
}

} // verus!
