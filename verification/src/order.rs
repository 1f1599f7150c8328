//! The order in which the nodes of a model are evaluated.
//!
//! Only the nodes that the model's outputs depend on are listed. Among the
//! nodes whose inputs are all listed already, the one with the smallest id
//! comes next.
use vstd::prelude::*;
use vstd::set_lib::{lemma_int_range, lemma_len_subset, set_int_range};
use crate::error::{ErrorKind, TractError, TractResult};
use crate::model::{outlet_exists, ModelImpl};

verus! {

/// Whether `node` stands in `order` before the place `p`.
pub open spec fn occurs_before(order: Seq<usize>, p: int, node: usize) -> bool {
    exists|q: int| 0 <= q < p && q < order.len() && #[trigger] order[q] == node
}

impl<F, O> ModelImpl<F, O> {
    /// Whether the set holds the node of every output of the model.
    pub open spec fn holds_outputs(&self, s: Set<int>) -> bool {
        forall|k: int|
            0 <= k < self.outputs@.len() ==> s.contains((#[trigger] self.outputs@[k]).node as int)
    }

    /// Whether the set holds, with a node, every node that it reads from.
    pub open spec fn closed_upstream(&self, s: Set<int>) -> bool {
        forall|b: int, k: int|
            0 <= b < self.nodes@.len() && s.contains(b) && 0 <= k < self.nodes@[b].inputs@.len()
                ==> s.contains((#[trigger] self.nodes@[b].inputs@[k]).node as int)
    }

    /// Whether an output of the model depends on the node `n`: `n` is in
    /// every set that holds the output nodes and is closed upstream.
    pub open spec fn needs(&self, n: int) -> bool {
        forall|s: Set<int>| (#[trigger] self.closed_upstream(s)) && self.holds_outputs(s) ==> s.contains(n)
    }

    /// Whether all that the node `n` reads stands in `order` before `p`, and
    /// `n` itself does not.
    pub open spec fn ready(&self, order: Seq<usize>, p: int, n: int) -> bool {
        &&& 0 <= n < self.nodes@.len()
        &&& !occurs_before(order, p, n as usize)
        &&& forall|k: int|
            0 <= k < self.nodes@[n].inputs@.len() ==> occurs_before(
                order,
                p,
                (#[trigger] self.nodes@[n].inputs@[k]).node,
            )
    }

    /// Whether `order` lists the needed nodes, each once and no other node,
    /// and every node after the nodes it reads from.
    pub open spec fn is_topological(&self, order: Seq<usize>) -> bool {
        &&& forall|p: int| 0 <= p < order.len() ==> self.needs((#[trigger] order[p]) as int)
        &&& forall|n: usize|
            self.needs(n as int) ==> #[trigger] occurs_before(order, order.len() as int, n)
        &&& forall|p: int, q: int| 0 <= p < q < order.len() ==> order[p] != order[q]
        &&& forall|p: int, k: int|
            0 <= p < order.len() && order[p] < self.nodes@.len() && 0 <= k
                < self.nodes@[order[p] as int].inputs@.len() ==> occurs_before(
                order,
                p,
                (#[trigger] self.nodes@[order[p] as int].inputs@[k]).node,
            )
    }

    /// Whether `order` is the evaluation order of the model: topological,
    /// and at each place the ready node of smallest id.
    pub open spec fn is_eval_order(&self, order: Seq<usize>) -> bool {
        &&& self.is_topological(order)
        &&& forall|p: int, n: int|
            0 <= p < order.len() && 0 <= n < order[p] && self.needs(n) ==> !#[trigger] self.ready(
                order,
                p,
                n,
            )
    }

    /// A needed node is a node of the model.
    pub proof fn lemma_needs_in_range(&self, n: int)
        requires
            self.wf(),
            self.needs(n),
        ensures
            0 <= n < self.nodes@.len(),
    {
        let s = set_int_range(0, self.nodes@.len() as int);
        assert(self.closed_upstream(s)) by {
            assert forall|b: int, k: int|
                0 <= b < self.nodes@.len() && s.contains(b) && 0 <= k
                    < self.nodes@[b].inputs@.len() implies s.contains(
                (#[trigger] self.nodes@[b].inputs@[k]).node as int,
            ) by {
                assert(outlet_exists(self.nodes@, self.nodes@[b].inputs@[k]));
            }
        }
        assert(self.holds_outputs(s)) by {
            assert forall|k: int| 0 <= k < self.outputs@.len() implies s.contains(
                (#[trigger] self.outputs@[k]).node as int,
            ) by {
                assert(outlet_exists(self.nodes@, self.outputs@[k]));
            }
        }
    }

    /// The node of an output is needed.
    pub proof fn lemma_needs_output(&self, k: int)
        requires
            0 <= k < self.outputs@.len(),
        ensures
            self.needs(self.outputs@[k].node as int),
    {
        assert forall|s: Set<int>| (#[trigger] self.closed_upstream(s)) && self.holds_outputs(
            s,
        ) implies s.contains(self.outputs@[k].node as int) by {
            assert(s.contains(self.outputs@[k].node as int));
        }
    }

    /// What a needed node reads from is needed.
    pub proof fn lemma_needs_input(&self, b: int, k: int)
        requires
            0 <= b < self.nodes@.len(),
            self.needs(b),
            0 <= k < self.nodes@[b].inputs@.len(),
        ensures
            self.needs(self.nodes@[b].inputs@[k].node as int),
    {
        assert forall|s: Set<int>| (#[trigger] self.closed_upstream(s)) && self.holds_outputs(
            s,
        ) implies s.contains(self.nodes@[b].inputs@[k].node as int) by {
            assert(s.contains(b));
            assert(s.contains((self.nodes@[b].inputs@[k]).node as int));
        }
    }

    /// For each node, whether an output of the model depends on it.
    pub fn needed_nodes(&self) -> (marks: Vec<bool>)
        requires
            self.wf(),
        ensures
            marks@.len() == self.nodes@.len(),
            forall|n: int| 0 <= n < marks@.len() ==> (marks@[n] <==> self.needs(n)),
    {
        let n = self.nodes.len();
        let mut marks: Vec<bool> = Vec::new();
        while marks.len() < n
            invariant
                marks@.len() <= n,
                forall|j: int| 0 <= j < marks@.len() ==> !marks@[j],
            decreases n - marks@.len(),
        {
            marks.push(false);
        }
        let mut stack: Vec<usize> = Vec::new();
        let ghost mut marked: Set<int> = Set::empty();
        let ghost range = set_int_range(0, n as int);
        proof {
            lemma_int_range(0, n as int);
        }
        let mut k: usize = 0;
        while k < self.outputs.len()
            invariant
                self.wf(),
                n == self.nodes@.len(),
                marks@.len() == n,
                k <= self.outputs@.len(),
                range == set_int_range(0, n as int),
                marked.subset_of(range),
                forall|j: int| 0 <= j < n ==> (marks@[j] <==> marked.contains(j)),
                forall|j: int| marked.contains(j) ==> self.needs(j),
                forall|q: int| 0 <= q < k ==> marked.contains((#[trigger] self.outputs@[q]).node as int),
                forall|p: int|
                    0 <= p < stack@.len() ==> (#[trigger] stack@[p]) < n && marked.contains(
                        stack@[p] as int,
                    ),
                forall|b: int| marked.contains(b) ==> stack@.contains(b as usize),
            decreases self.outputs@.len() - k,
        {
            let o = self.outputs[k].node;
            assert(outlet_exists(self.nodes@, self.outputs@[k as int]));
            proof {
                self.lemma_needs_output(k as int);
            }
            if !marks[o] {
                let ghost before = stack@;
                marks.set(o, true);
                stack.push(o);
                proof {
                    marked = marked.insert(o as int);
                    assert forall|b: int| marked.contains(b) implies stack@.contains(b as usize) by {
                        if b == o as int {
                            assert(stack@[before.len() as int] == o);
                        } else {
                            assert(before.contains(b as usize));
                            let i = choose|i: int| 0 <= i < before.len() && before[i] == b as usize;
                            assert(stack@[i] == b as usize);
                        }
                    }
                }
            }
            k += 1;
        }
        while stack.len() > 0
            invariant
                self.wf(),
                n == self.nodes@.len(),
                marks@.len() == n,
                range == set_int_range(0, n as int),
                range.finite(),
                range.len() == n,
                marked.subset_of(range),
                forall|j: int| 0 <= j < n ==> (marks@[j] <==> marked.contains(j)),
                forall|j: int| marked.contains(j) ==> self.needs(j),
                self.holds_outputs(marked),
                forall|p: int|
                    0 <= p < stack@.len() ==> (#[trigger] stack@[p]) < n && marked.contains(
                        stack@[p] as int,
                    ),
                forall|b: int, j: int|
                    0 <= b < n && marked.contains(b) && !stack@.contains(b as usize) && 0 <= j
                        < self.nodes@[b].inputs@.len() ==> marked.contains(
                        (#[trigger] self.nodes@[b].inputs@[j]).node as int,
                    ),
            decreases n - marked.len(), stack@.len(),
        {
            proof {
                lemma_len_subset(marked, range);
            }
            let ghost stack0 = stack@;
            let ghost marked0 = marked;
            let b = stack.pop().unwrap();
            assert(b == stack0[stack0.len() - 1]);
            assert(forall|x: usize| stack0.contains(x) <==> stack@.contains(x) || x == b) by {
                assert forall|x: usize| stack0.contains(x) implies stack@.contains(x) || x == b by {
                    let i = choose|i: int| 0 <= i < stack0.len() && stack0[i] == x;
                    if i < stack@.len() {
                        assert(stack@[i] == x);
                    }
                }
                assert forall|x: usize| stack@.contains(x) || x == b implies stack0.contains(x) by {
                    if stack@.contains(x) {
                        let i = choose|i: int| 0 <= i < stack@.len() && stack@[i] == x;
                        assert(stack0[i] == x);
                    } else {
                        assert(stack0[stack0.len() - 1] == x);
                    }
                }
            }
            let mut j: usize = 0;
            while j < self.nodes[b].inputs.len()
                invariant
                    self.wf(),
                    n == self.nodes@.len(),
                    marks@.len() == n,
                    b < n,
                    j <= self.nodes@[b as int].inputs@.len(),
                    range == set_int_range(0, n as int),
                    range.finite(),
                    range.len() == n,
                    marked.subset_of(range),
                    marked0.subset_of(marked),
                    marked0.finite(),
                    marked.finite(),
                    stack@.len() - (stack0.len() - 1) == marked.len() - marked0.len(),
                    forall|i: int| 0 <= i < n ==> (marks@[i] <==> marked.contains(i)),
                    forall|i: int| marked.contains(i) ==> self.needs(i),
                    self.needs(b as int),
                    self.holds_outputs(marked),
                    forall|p: int|
                        0 <= p < stack@.len() ==> (#[trigger] stack@[p]) < n && marked.contains(
                            stack@[p] as int,
                        ),
                    forall|jj: int|
                        0 <= jj < j ==> marked.contains(
                            (#[trigger] self.nodes@[b as int].inputs@[jj]).node as int,
                        ),
                    forall|c: int, jj: int|
                        0 <= c < n && c != b && marked.contains(c) && !stack@.contains(c as usize)
                            && 0 <= jj < self.nodes@[c].inputs@.len() ==> marked.contains(
                            (#[trigger] self.nodes@[c].inputs@[jj]).node as int,
                        ),
                decreases self.nodes@[b as int].inputs@.len() - j,
            {
                let i = self.nodes[b].inputs[j].node;
                assert(outlet_exists(self.nodes@, self.nodes@[b as int].inputs@[j as int]));
                proof {
                    self.lemma_needs_input(b as int, j as int);
                }
                if !marks[i] {
                    let ghost before = stack@;
                    let ghost marked_before = marked;
                    marks.set(i, true);
                    stack.push(i);
                    proof {
                        marked = marked.insert(i as int);
                        assert(forall|x: usize| before.contains(x) ==> stack@.contains(x)) by {
                            assert forall|x: usize| before.contains(x) implies stack@.contains(x) by {
                                let q = choose|q: int| 0 <= q < before.len() && before[q] == x;
                                assert(stack@[q] == x);
                            }
                        }
                        assert(stack@[before.len() as int] == i);
                        assert(stack@.contains(i));
                    }
                }
                j += 1;
            }
            proof {
                lemma_len_subset(marked, range);
                lemma_len_subset(marked0, marked);
            }
        }
        proof {
            assert(self.closed_upstream(marked)) by {
                assert forall|b: int, j: int|
                    0 <= b < self.nodes@.len() && marked.contains(b) && 0 <= j
                        < self.nodes@[b].inputs@.len() implies marked.contains(
                    (#[trigger] self.nodes@[b].inputs@[j]).node as int,
                ) by {
                    assert(!stack@.contains(b as usize));
                }
            }
            assert forall|m: int| 0 <= m < n && self.needs(m) implies marked.contains(m) by {
                assert(self.closed_upstream(marked) && self.holds_outputs(marked));
            }
            assert forall|m: int| 0 <= m < marks@.len() implies (marks@[m] <==> self.needs(m)) by {
                if marks@[m] {
                    assert(marked.contains(m));
                }
                if self.needs(m) {
                    assert(marked.contains(m));
                }
            }
        }
        marks
    }

    /// Whether all that the node `c` reads is marked in `done`.
    fn inputs_done(&self, c: usize, done: &Vec<bool>) -> (r: bool)
        requires
            self.wf(),
            c < self.nodes@.len(),
            done@.len() == self.nodes@.len(),
        ensures
            r <==> forall|k: int|
                0 <= k < self.nodes@[c as int].inputs@.len() ==> done@[(
                #[trigger] self.nodes@[c as int].inputs@[k]).node as int],
    {
        let mut k: usize = 0;
        while k < self.nodes[c].inputs.len()
            invariant
                self.wf(),
                c < self.nodes@.len(),
                done@.len() == self.nodes@.len(),
                k <= self.nodes@[c as int].inputs@.len(),
                forall|j: int|
                    0 <= j < k ==> done@[(#[trigger] self.nodes@[c as int].inputs@[j]).node as int],
            decreases self.nodes@[c as int].inputs@.len() - k,
        {
            assert(outlet_exists(self.nodes@, self.nodes@[c as int].inputs@[k as int]));
            if !done[self.nodes[c].inputs[k].node] {
                return false;
            }
            k += 1;
        }
        true
    }

    /// The evaluation order of the model: the nodes that its outputs depend
    /// on, each after the nodes it reads from, the smallest id first where
    /// several could come next. Fails exactly where the needed nodes cannot
    /// be ordered so, because some of them depend on each other in a circle.
    pub fn eval_order(&self) -> (r: TractResult<Vec<usize>>)
        requires
            self.wf(),
        ensures
            match r {
                Ok(order) => self.is_eval_order(order@) && forall|p: int|
                    0 <= p < order@.len() ==> (#[trigger] order@[p]) < self.nodes@.len(),
                Err(e) => e.kind == ErrorKind::InvariantViolation && forall|t: Seq<usize>|
                    !self.is_topological(t),
            },
    {
        let n = self.nodes.len();
        let marks = self.needed_nodes();
        let mut done: Vec<bool> = Vec::new();
        while done.len() < n
            invariant
                done@.len() <= n,
                forall|j: int| 0 <= j < done@.len() ==> !done@[j],
            decreases n - done@.len(),
        {
            done.push(false);
        }
        let mut order: Vec<usize> = Vec::new();
        let ghost mut placed: Set<int> = Set::empty();
        let ghost range = set_int_range(0, n as int);
        proof {
            lemma_int_range(0, n as int);
        }
        loop
            invariant
                self.wf(),
                n == self.nodes@.len(),
                marks@.len() == n,
                done@.len() == n,
                forall|j: int| 0 <= j < n ==> (marks@[j] <==> self.needs(j)),
                range == set_int_range(0, n as int),
                range.finite(),
                range.len() == n,
                placed.finite(),
                placed.subset_of(range),
                placed.len() == order@.len(),
                forall|j: int| 0 <= j < n ==> (placed.contains(j) <==> done@[j]),
                forall|j: int|
                    0 <= j < n ==> (done@[j] <==> occurs_before(
                        order@,
                        order@.len() as int,
                        j as usize,
                    )),
                forall|p: int| 0 <= p < order@.len() ==> (#[trigger] order@[p]) < n && self.needs(
                    order@[p] as int,
                ),
                forall|p: int, q: int| 0 <= p < q < order@.len() ==> order@[p] != order@[q],
                forall|p: int, k: int|
                    0 <= p < order@.len() && 0 <= k < self.nodes@[order@[p] as int].inputs@.len()
                        ==> occurs_before(
                        order@,
                        p,
                        (#[trigger] self.nodes@[order@[p] as int].inputs@[k]).node,
                    ),
                forall|p: int, c: int|
                    0 <= p < order@.len() && 0 <= c < order@[p] && self.needs(c) ==> !#[trigger] self.ready(
                        order@,
                        p,
                        c,
                    ),
            ensures
                forall|c: int| 0 <= c < n && self.needs(c) ==> !#[trigger] self.ready(
                    order@,
                    order@.len() as int,
                    c,
                ),
            decreases n - order@.len(),
        {
            proof {
                lemma_len_subset(placed, range);
            }
            let mut c: usize = 0;
            let mut found = false;
            while c < n && !found
                invariant
                    self.wf(),
                    n == self.nodes@.len(),
                    marks@.len() == n,
                    done@.len() == n,
                    c <= n,
                    forall|j: int| 0 <= j < n ==> (marks@[j] <==> self.needs(j)),
                    forall|j: int|
                        0 <= j < n ==> (done@[j] <==> occurs_before(
                            order@,
                            order@.len() as int,
                            j as usize,
                        )),
                    forall|j: int| 0 <= j < c && self.needs(j) ==> !#[trigger] self.ready(
                        order@,
                        order@.len() as int,
                        j,
                    ),
                    found ==> c < n && self.needs(c as int) && self.ready(
                        order@,
                        order@.len() as int,
                        c as int,
                    ),
                decreases n - c, (if found { 0int } else { 1int }),
            {
                if marks[c] && !done[c] && self.inputs_done(c, &done) {
                    proof {
                        assert forall|k: int|
                            0 <= k < self.nodes@[c as int].inputs@.len() implies occurs_before(
                            order@,
                            order@.len() as int,
                            (#[trigger] self.nodes@[c as int].inputs@[k]).node,
                        ) by {
                            assert(outlet_exists(self.nodes@, self.nodes@[c as int].inputs@[k]));
                        }
                    }
                    found = true;
                } else {
                    proof {
                        if marks@[c as int] && !done@[c as int] {
                            let k = choose|k: int|
                                0 <= k < self.nodes@[c as int].inputs@.len() && !done@[(
                                #[trigger] self.nodes@[c as int].inputs@[k]).node as int];
                            assert(outlet_exists(self.nodes@, self.nodes@[c as int].inputs@[k]));
                            assert(!occurs_before(
                                order@,
                                order@.len() as int,
                                self.nodes@[c as int].inputs@[k].node,
                            ));
                        }
                    }
                    c += 1;
                }
            }
            if !found {
                break;
            }
            let ghost before = order@;
            assert(!placed.contains(c as int));
            order.push(c);
            done.set(c, true);
            proof {
                placed = placed.insert(c as int);
                lemma_len_subset(placed, range);
                let len = before.len() as int;
                assert(order@.len() == len + 1);
                assert(len + 1 <= n);
                assert(order@[len] == c);
                assert forall|x: usize, p: int| 0 <= p <= len implies (occurs_before(before, p, x)
                    <==> occurs_before(order@, p, x)) by {
                    if occurs_before(before, p, x) {
                        let q = choose|q: int| 0 <= q < p && q < before.len() && before[q] == x;
                        assert(order@[q] == x);
                    }
                    if occurs_before(order@, p, x) {
                        let q = choose|q: int| 0 <= q < p && q < order@.len() && order@[q] == x;
                        assert(before[q] == x);
                    }
                }
                assert forall|j: int| 0 <= j < n implies (done@[j] <==> occurs_before(
                    order@,
                    order@.len() as int,
                    j as usize,
                )) by {
                    if j == c {
                        assert(order@[len] == j as usize);
                    } else {
                        if occurs_before(order@, order@.len() as int, j as usize) {
                            let q = choose|q: int|
                                0 <= q < order@.len() && q < order@.len() && order@[q] == j as usize;
                            assert(q < len);
                            assert(before[q] == j as usize);
                            assert(occurs_before(before, len, j as usize));
                        }
                        if occurs_before(before, len, j as usize) {
                            assert(occurs_before(order@, len, j as usize));
                            let q = choose|q: int|
                                0 <= q < len && q < order@.len() && order@[q] == j as usize;
                            assert(order@[q] == j as usize);
                        }
                    }
                }
                assert forall|p: int, q: int| 0 <= p < q < order@.len() implies order@[p]
                    != order@[q] by {
                    if q == len {
                        if order@[p] == c {
                            assert(before[p] == c);
                            assert(occurs_before(before, len, c));
                        }
                    } else {
                        assert(before[p] == order@[p] && before[q] == order@[q]);
                    }
                }
                assert forall|p: int, k: int|
                    0 <= p < order@.len() && 0 <= k
                        < self.nodes@[order@[p] as int].inputs@.len() implies occurs_before(
                    order@,
                    p,
                    (#[trigger] self.nodes@[order@[p] as int].inputs@[k]).node,
                ) by {
                    let x = self.nodes@[order@[p] as int].inputs@[k].node;
                    if p < len {
                        assert(before[p] == order@[p]);
                        assert(occurs_before(before, p, x));
                    } else {
                        assert(occurs_before(before, len, x));
                    }
                }
                assert forall|p: int, d: int|
                    0 <= p < order@.len() && 0 <= d < order@[p] && self.needs(
                        d,
                    ) implies !#[trigger] self.ready(order@, p, d) by {
                    if p < len {
                        assert(before[p] == order@[p]);
                        assert(!self.ready(before, p, d));
                        self.lemma_needs_in_range(d);
                        if !occurs_before(before, p, d as usize) {
                            let k = choose|k: int|
                                0 <= k < self.nodes@[d].inputs@.len() && !occurs_before(
                                    before,
                                    p,
                                    (#[trigger] self.nodes@[d].inputs@[k]).node,
                                );
                            assert(!occurs_before(order@, p, self.nodes@[d].inputs@[k].node));
                        }
                    } else {
                        assert(!self.ready(before, len, d));
                        self.lemma_needs_in_range(d);
                        if !occurs_before(before, len, d as usize) {
                            let k = choose|k: int|
                                0 <= k < self.nodes@[d].inputs@.len() && !occurs_before(
                                    before,
                                    len,
                                    (#[trigger] self.nodes@[d].inputs@[k]).node,
                                );
                            assert(!occurs_before(order@, len, self.nodes@[d].inputs@[k].node));
                        }
                    }
                }
                assert forall|p: int| 0 <= p < order@.len() implies (#[trigger] order@[p]) < n
                    && self.needs(order@[p] as int) by {
                    if p < len {
                        assert(before[p] == order@[p]);
                    }
                }
            }
        }
        let mut j: usize = 0;
        while j < n
            invariant
                self.wf(),
                n == self.nodes@.len(),
                marks@.len() == n,
                done@.len() == n,
                j <= n,
                forall|i: int| 0 <= i < n ==> (marks@[i] <==> self.needs(i)),
                forall|i: int|
                    0 <= i < n ==> (done@[i] <==> occurs_before(
                        order@,
                        order@.len() as int,
                        i as usize,
                    )),
                forall|c: int| 0 <= c < n && self.needs(c) ==> !#[trigger] self.ready(
                    order@,
                    order@.len() as int,
                    c,
                ),
                forall|i: int| 0 <= i < j && self.needs(i) ==> done@[i],
            decreases n - j,
        {
            if marks[j] && !done[j] {
                proof {
                    assert forall|t: Seq<usize>| !self.is_topological(t) by {
                        self.lemma_stuck(t, order@, done@, j);
                    }
                }
                return Err(
                    TractError::new(ErrorKind::InvariantViolation, "the graph has a loop"),
                );
            }
            j += 1;
        }
        proof {
            assert forall|x: usize| self.needs(x as int) implies #[trigger] occurs_before(
                order@,
                order@.len() as int,
                x,
            ) by {
                self.lemma_needs_in_range(x as int);
                assert(done@[x as int]);
                assert(occurs_before(order@, order@.len() as int, (x as int) as usize));
            }
        }
        Ok(order)
    }

    /// Where no needed node is ready and one is left out, no order lists the
    /// needed nodes after what they read.
    proof fn lemma_stuck(&self, t: Seq<usize>, order: Seq<usize>, done: Seq<bool>, j: usize)
        requires
            self.wf(),
            done.len() == self.nodes@.len(),
            j < self.nodes@.len(),
            self.needs(j as int),
            !done[j as int],
            forall|i: int|
                0 <= i < self.nodes@.len() ==> (done[i] <==> occurs_before(
                    order,
                    order.len() as int,
                    i as usize,
                )),
            forall|c: int|
                0 <= c < self.nodes@.len() && self.needs(c) ==> !#[trigger] self.ready(
                    order,
                    order.len() as int,
                    c,
                ),
        ensures
            !self.is_topological(t),
    {
        if self.is_topological(t) {
            assert(occurs_before(t, t.len() as int, j));
            let p = choose|p: int| 0 <= p < t.len() && p < t.len() && t[p] == j;
            assert forall|q: int| 0 <= q < t.len() implies (#[trigger] t[q]) < done.len() by {
                self.lemma_needs_in_range(t[q] as int);
            }
            let q = lemma_first_left_out(t, done, p);
            let c = t[q];
            assert(self.needs(c as int));
            assert forall|k: int|
                0 <= k < self.nodes@[c as int].inputs@.len() implies occurs_before(
                order,
                order.len() as int,
                (#[trigger] self.nodes@[c as int].inputs@[k]).node,
            ) by {
                let x = self.nodes@[c as int].inputs@[k].node;
                assert(occurs_before(t, q, x));
                let r = choose|r: int| 0 <= r < q && r < t.len() && t[r] == x;
                assert(done[t[r] as int]);
            }
            assert(self.ready(order, order.len() as int, c as int));
        }
    }
}

/// The first place of `t`, up to `p`, whose node is not marked in `done`.
proof fn lemma_first_left_out(t: Seq<usize>, done: Seq<bool>, p: int) -> (q: int)
    requires
        0 <= p < t.len(),
        forall|i: int| 0 <= i < t.len() ==> (#[trigger] t[i]) < done.len(),
        !done[t[p] as int],
    ensures
        0 <= q <= p,
        !done[t[q] as int],
        forall|r: int| 0 <= r < q ==> done[(#[trigger] t[r]) as int],
    decreases p,
{
    if exists|r: int| 0 <= r < p && !done[(#[trigger] t[r]) as int] {
        let r = choose|r: int| 0 <= r < p && !done[(#[trigger] t[r]) as int];
        lemma_first_left_out(t, done, r)
    } else {
        p
    }
}

/// Whether a node stands in an order before a place depends only on what
/// stands before that place.
proof fn lemma_occurs_before_prefix(a: Seq<usize>, b: Seq<usize>, p: int, node: usize)
    requires
        0 <= p <= a.len(),
        p <= b.len(),
        a.take(p) == b.take(p),
    ensures
        occurs_before(a, p, node) == occurs_before(b, p, node),
{
    if occurs_before(a, p, node) {
        let q = choose|q: int| 0 <= q < p && q < a.len() && #[trigger] a[q] == node;
        assert(a.take(p)[q] == a[q]);
        assert(b.take(p)[q] == b[q]);
        assert(b[q] == node);
    }
    if occurs_before(b, p, node) {
        let q = choose|q: int| 0 <= q < p && q < b.len() && #[trigger] b[q] == node;
        assert(a.take(p)[q] == a[q]);
        assert(b.take(p)[q] == b[q]);
        assert(a[q] == node);
    }
}

impl<F, O> ModelImpl<F, O> {
    /// In an evaluation order, the node at a place is ready there.
    proof fn lemma_placed_is_ready(&self, order: Seq<usize>, p: int)
        requires
            self.wf(),
            self.is_eval_order(order),
            0 <= p < order.len(),
        ensures
            self.ready(order, p, order[p] as int),
    {
        self.lemma_needs_in_range(order[p] as int);
        if occurs_before(order, p, order[p]) {
            let q = choose|q: int| 0 <= q < p && q < order.len() && #[trigger] order[q] == order[p];
            assert(order[q] != order[p]);
        }
    }

    /// Two evaluation orders of one model agree on their common places.
    proof fn lemma_eval_orders_agree(&self, a: Seq<usize>, b: Seq<usize>, p: int)
        requires
            self.wf(),
            self.is_eval_order(a),
            self.is_eval_order(b),
            0 <= p <= a.len(),
            p <= b.len(),
        ensures
            a.take(p) == b.take(p),
        decreases p,
    {
        if p == 0 {
            assert(a.take(0) =~= b.take(0));
        } else {
            self.lemma_eval_orders_agree(a, b, p - 1);
            let k = p - 1;
            self.lemma_placed_is_ready(a, k);
            self.lemma_placed_is_ready(b, k);
            assert forall|n: int| self.ready(a, k, n) == self.ready(b, k, n) by {
                if 0 <= n < self.nodes@.len() {
                    lemma_occurs_before_prefix(a, b, k, n as usize);
                    assert forall|i: int| 0 <= i < self.nodes@[n].inputs@.len() implies occurs_before(
                        a,
                        k,
                        (#[trigger] self.nodes@[n].inputs@[i]).node,
                    ) == occurs_before(b, k, self.nodes@[n].inputs@[i].node) by {
                        lemma_occurs_before_prefix(a, b, k, self.nodes@[n].inputs@[i].node);
                    }
                }
            }
            if a[k] < b[k] {
                assert(self.ready(b, k, a[k] as int));
                assert(!self.ready(b, k, a[k] as int));
            }
            if b[k] < a[k] {
                assert(self.ready(a, k, b[k] as int));
                assert(!self.ready(a, k, b[k] as int));
            }
            assert(a.take(p) =~= a.take(k).push(a[k]));
            assert(b.take(p) =~= b.take(k).push(b[k]));
        }
    }

    /// A model has one evaluation order: two orders that both list the
    /// needed nodes after what they read, the smallest ready id first, are
    /// the same.
    pub proof fn lemma_eval_order_unique(&self, a: Seq<usize>, b: Seq<usize>)
        requires
            self.wf(),
            self.is_eval_order(a),
            self.is_eval_order(b),
        ensures
            a == b,
    {
        if a.len() <= b.len() {
            self.lemma_eval_orders_agree(a, b, a.len() as int);
            if a.len() < b.len() {
                let extra = b[a.len() as int];
                assert(self.needs(extra as int));
                assert(occurs_before(a, a.len() as int, extra));
                let q = choose|q: int| 0 <= q < a.len() as int && q < a.len() && #[trigger] a[q] == extra;
                assert(a.take(a.len() as int)[q] == b.take(a.len() as int)[q]);
                assert(b[q] == b[a.len() as int]);
            }
            assert(a.take(a.len() as int) =~= a);
            assert(b.take(b.len() as int) =~= b);
        } else {
            self.lemma_eval_orders_agree(a, b, b.len() as int);
            let extra = a[b.len() as int];
            assert(self.needs(extra as int));
            assert(occurs_before(b, b.len() as int, extra));
            let q = choose|q: int| 0 <= q < b.len() as int && q < b.len() && #[trigger] b[q] == extra;
            assert(a.take(b.len() as int)[q] == b.take(b.len() as int)[q]);
            assert(a[q] == a[b.len() as int]);
        }
    }
}

} // verus!
