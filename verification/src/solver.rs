//! Declarative rules over the facts of the inputs and outputs of one node,
//! and the propagation that applies them until nothing narrows any more.
use vstd::prelude::*;
use crate::datum::Dim;
use crate::error::{ErrorKind, TractError, TractResult};
use crate::fact::{concrete_dims, lemma_unify_associative, lemma_unify_idempotent, lemma_unify_refines, refines, shape_is_concrete, unify_fact, unify_shape, DimFact, InferenceFact, InferenceFactView, ShapeFact, TypeFact};

verus! {

/// The name of one tensor of the node under inference.
#[derive(Clone, Copy, Debug, PartialEq, Eq, Structural)]
pub enum TensorProxy {
    Input(usize),
    Output(usize),
}

/// One constraint on the facts of a node.
#[derive(Debug)]
pub enum Rule {
    /// The two tensors have the same datum type.
    EqualType(TensorProxy, TensorProxy),
    /// The rank of `of` is the rank of `base` minus `minus`.
    RankMinus { of: TensorProxy, base: TensorProxy, minus: usize },
    /// The dimension `axis` of the tensor is `dim`.
    EqualDim { tensor: TensorProxy, axis: usize, dim: Dim },
    /// The shape of the tensor is `dims`.
    EqualShape { tensor: TensorProxy, dims: Vec<Dim> },
    /// Once the shape of the tensor is known, the operator is asked, under
    /// `key`, for the rules that follow from it.
    Given { tensor: TensorProxy, key: usize },
}

/// A rule as contracts speak of it.
pub enum RuleView {
    EqualType(TensorProxy, TensorProxy),
    RankMinus { of: TensorProxy, base: TensorProxy, minus: usize },
    EqualDim { tensor: TensorProxy, axis: usize, dim: Dim },
    EqualShape { tensor: TensorProxy, dims: Seq<Dim> },
    Given { tensor: TensorProxy, key: usize },
}

impl View for Rule {
    type V = RuleView;

    open spec fn view(&self) -> RuleView {
        match self {
            Rule::EqualType(a, b) => RuleView::EqualType(*a, *b),
            Rule::RankMinus { of, base, minus } => RuleView::RankMinus {
                of: *of,
                base: *base,
                minus: *minus,
            },
            Rule::EqualDim { tensor, axis, dim } => RuleView::EqualDim {
                tensor: *tensor,
                axis: *axis,
                dim: *dim,
            },
            Rule::EqualShape { tensor, dims } => RuleView::EqualShape { tensor: *tensor, dims: dims@ },
            Rule::Given { tensor, key } => RuleView::Given { tensor: *tensor, key: *key },
        }
    }
}

/// The views of a list of rules.
pub open spec fn rule_views(rules: Seq<Rule>) -> Seq<RuleView> {
    rules.map_values(|r: Rule| r@)
}

/// The facts of the inputs and of the outputs of a node, as contracts speak
/// of them.
pub struct FactsView {
    pub inputs: Seq<InferenceFactView>,
    pub outputs: Seq<InferenceFactView>,
}

/// The facts of the inputs and of the outputs of a node.
#[derive(Debug)]
pub struct Facts {
    pub inputs: Vec<InferenceFact>,
    pub outputs: Vec<InferenceFact>,
}

/// The views of a list of facts.
pub open spec fn fact_views(facts: Seq<InferenceFact>) -> Seq<InferenceFactView> {
    facts.map_values(|f: InferenceFact| f@)
}

/// The views of a list of borrowed facts.
pub open spec fn fact_ref_views(facts: Seq<&InferenceFact>) -> Seq<InferenceFactView> {
    facts.map_values(|f: &InferenceFact| f@)
}

impl View for Facts {
    type V = FactsView;

    open spec fn view(&self) -> FactsView {
        FactsView { inputs: fact_views(self.inputs@), outputs: fact_views(self.outputs@) }
    }
}

impl FactsView {
    /// The fact of the tensor, if the node has that tensor.
    pub open spec fn at(self, t: TensorProxy) -> Option<InferenceFactView> {
        match t {
            TensorProxy::Input(i) => if i < self.inputs.len() {
                Some(self.inputs[i as int])
            } else {
                None
            },
            TensorProxy::Output(i) => if i < self.outputs.len() {
                Some(self.outputs[i as int])
            } else {
                None
            },
        }
    }

    /// The facts with `fact` for the tensor `t`, which the node has.
    pub open spec fn with(self, t: TensorProxy, fact: InferenceFactView) -> FactsView {
        match t {
            TensorProxy::Input(i) => FactsView {
                inputs: self.inputs.update(i as int, fact),
                outputs: self.outputs,
            },
            TensorProxy::Output(i) => FactsView {
                inputs: self.inputs,
                outputs: self.outputs.update(i as int, fact),
            },
        }
    }
}

/// A list of `rank` unknown dimensions.
pub open spec fn any_dims(rank: nat) -> Seq<DimFact> {
    Seq::new(rank, |i: int| DimFact::Any)
}

/// The list of dimension facts that know the dimensions `dims`.
pub open spec fn only_dims(dims: Seq<Dim>) -> Seq<DimFact> {
    Seq::new(dims.len(), |i: int| DimFact::Only(dims[i]))
}

/// The fact `f` with another datum type.
pub open spec fn with_type(f: InferenceFactView, datum_type: TypeFact) -> InferenceFactView {
    InferenceFactView { datum_type, shape: f.shape, value: f.value }
}

/// The fact `f` with another shape.
pub open spec fn with_shape(f: InferenceFactView, shape: Option<Seq<DimFact>>) -> InferenceFactView {
    InferenceFactView { datum_type: f.datum_type, shape, value: f.value }
}

/// What a rule that is not deferred makes of the facts: the narrowed facts,
/// a unification error where the rule contradicts them, or an invariant
/// violation where the rule names a tensor that the node does not have.
pub open spec fn apply_simple(rule: RuleView, facts: FactsView) -> Result<FactsView, ErrorKind> {
    match rule {
        RuleView::EqualType(a, b) => match (facts.at(a), facts.at(b)) {
            (Some(fa), Some(fb)) => match fa.datum_type.unify_spec(fb.datum_type) {
                Some(t) => Ok(facts.with(a, with_type(fa, t)).with(b, with_type(fb, t))),
                None => Err(ErrorKind::Unification),
            },
            _ => Err(ErrorKind::InvariantViolation),
        },
        RuleView::RankMinus { of, base, minus } => match (facts.at(of), facts.at(base)) {
            (Some(fo), Some(fb)) => match (fo.shape, fb.shape) {
                (None, None) => Ok(facts),
                (None, Some(db)) => if db.len() >= minus {
                    Ok(facts.with(of, with_shape(fo, Some(any_dims((db.len() - minus) as nat)))))
                } else {
                    Err(ErrorKind::Unification)
                },
                (Some(d), None) => if d.len() + minus <= usize::MAX {
                    Ok(facts.with(base, with_shape(fb, Some(any_dims((d.len() + minus) as nat)))))
                } else {
                    Err(ErrorKind::Unification)
                },
                (Some(d), Some(db)) => if d.len() + minus == db.len() {
                    Ok(facts)
                } else {
                    Err(ErrorKind::Unification)
                },
            },
            _ => Err(ErrorKind::InvariantViolation),
        },
        RuleView::EqualDim { tensor, axis, dim } => match facts.at(tensor) {
            Some(f) => match f.shape {
                None => Ok(facts),
                Some(d) => if axis < d.len() {
                    match d[axis as int].unify_spec(DimFact::Only(dim)) {
                        Some(u) => Ok(
                            facts.with(tensor, with_shape(f, Some(d.update(axis as int, u)))),
                        ),
                        None => Err(ErrorKind::Unification),
                    }
                } else {
                    Err(ErrorKind::Unification)
                },
            },
            None => Err(ErrorKind::InvariantViolation),
        },
        RuleView::EqualShape { tensor, dims } => match facts.at(tensor) {
            Some(f) => match unify_shape(f.shape, Some(only_dims(dims))) {
                Some(shape) => Ok(facts.with(tensor, with_shape(f, shape))),
                None => Err(ErrorKind::Unification),
            },
            None => Err(ErrorKind::InvariantViolation),
        },
        RuleView::Given { tensor, key } => Err(ErrorKind::InvariantViolation),
    }
}

/// What the first `k` of the rules, none of them deferred, make of the facts
/// one after the other, up to the first error.
pub open spec fn apply_simple_list(rules: Seq<RuleView>, facts: FactsView, k: nat) -> Result<
    FactsView,
    ErrorKind,
>
    decreases k,
{
    if k == 0 {
        Ok(facts)
    } else {
        match apply_simple_list(rules, facts, (k - 1) as nat) {
            Ok(before) => apply_simple(rules[k - 1], before),
            Err(e) => Err(e),
        }
    }
}

/// An operator whose inference is given by rules.
pub trait InferenceRulesOp {
    /// The rules of the operator for a node with so many inputs and outputs.
    spec fn rules_spec(&self, inputs: nat, outputs: nat) -> Result<Seq<RuleView>, ErrorKind>;

    /// Hands the rules to the solver. On success the solver holds, behind
    /// the rules it held, the rules of the operator.
    fn rules(&self, s: &mut Solver, inputs: &Vec<TensorProxy>, outputs: &Vec<TensorProxy>) -> (r:
        TractResult<()>)
        ensures
            match self.rules_spec(inputs@.len(), outputs@.len()) {
                Ok(rules) => r is Ok && final(s)@ == old(s)@ + rules,
                Err(kind) => r matches Err(e) && e.kind == kind,
            },
    ;

    /// The rules that follow, under `key`, once the shape of the tensor that
    /// a deferred rule waits for is known to be `shape`. None of them is
    /// deferred again.
    spec fn given_spec(&self, key: usize, shape: Seq<Dim>, inputs: nat, outputs: nat) -> Result<
        Seq<RuleView>,
        ErrorKind,
    >;

    fn given(
        &self,
        s: &mut Solver,
        key: usize,
        shape: &Vec<Dim>,
        inputs: &Vec<TensorProxy>,
        outputs: &Vec<TensorProxy>,
    ) -> (r: TractResult<()>)
        ensures
            match self.given_spec(key, shape@, inputs@.len(), outputs@.len()) {
                Ok(rules) => r is Ok && final(s)@ == old(s)@ + rules,
                Err(kind) => r matches Err(e) && e.kind == kind,
            },
    ;
}

/// The rules collected for one node.
#[derive(Debug)]
pub struct Solver {
    pub rules: Vec<Rule>,
}

impl View for Solver {
    type V = Seq<RuleView>;

    open spec fn view(&self) -> Seq<RuleView> {
        rule_views(self.rules@)
    }
}

impl Solver {
    /// A solver without rules.
    pub fn new() -> (s: Solver)
        ensures
            s@ == Seq::<RuleView>::empty(),
    {
        let s = Solver { rules: Vec::new() };
        assert(s@ =~= Seq::<RuleView>::empty());
        s
    }

    fn push(&mut self, rule: Rule)
        ensures
            final(self)@ == old(self)@.push(rule@),
    {
        self.rules.push(rule);
        assert(self@ =~= old(self)@.push(rule@));
    }

    /// Adds the rule that the two tensors have the same datum type.
    pub fn equals_type(&mut self, a: TensorProxy, b: TensorProxy) -> (r: TractResult<()>)
        ensures
            r is Ok,
            final(self)@ == old(self)@.push(RuleView::EqualType(a, b)),
    {
        self.push(Rule::EqualType(a, b));
        Ok(())
    }

    /// Adds the rule that the rank of `of` is the rank of `base` minus
    /// `minus`.
    pub fn equals_rank_minus(&mut self, of: TensorProxy, base: TensorProxy, minus: usize) -> (r:
        TractResult<()>)
        ensures
            r is Ok,
            final(self)@ == old(self)@.push(RuleView::RankMinus { of, base, minus }),
    {
        self.push(Rule::RankMinus { of, base, minus });
        Ok(())
    }

    /// Adds the rule that the dimension `axis` of the tensor is `dim`.
    pub fn equals_dim(&mut self, tensor: TensorProxy, axis: usize, dim: Dim) -> (r: TractResult<()>)
        ensures
            r is Ok,
            final(self)@ == old(self)@.push(RuleView::EqualDim { tensor, axis, dim }),
    {
        self.push(Rule::EqualDim { tensor, axis, dim });
        Ok(())
    }

    /// Adds the rule that the shape of the tensor is `dims`.
    pub fn equals_shape(&mut self, tensor: TensorProxy, dims: Vec<Dim>) -> (r: TractResult<()>)
        ensures
            r is Ok,
            final(self)@ == old(self)@.push(RuleView::EqualShape { tensor, dims: dims@ }),
    {
        self.push(Rule::EqualShape { tensor, dims });
        Ok(())
    }

    /// Adds the deferred rule that waits for the shape of the tensor.
    pub fn given_shape(&mut self, tensor: TensorProxy, key: usize) -> (r: TractResult<()>)
        ensures
            r is Ok,
            final(self)@ == old(self)@.push(RuleView::Given { tensor, key }),
    {
        self.push(Rule::Given { tensor, key });
        Ok(())
    }
}

/// What a rule makes of the facts. A deferred rule leaves them as they are
/// until the shape it waits for is known, and from then on does what the
/// rules that the operator gives for that shape do.
pub open spec fn apply_rule<R: InferenceRulesOp>(op: &R, rule: RuleView, facts: FactsView) -> Result<
    FactsView,
    ErrorKind,
> {
    match rule {
        RuleView::Given { tensor, key } => match facts.at(tensor) {
            Some(f) => if shape_is_concrete(f.shape) {
                match op.given_spec(
                    key,
                    concrete_dims(f.shape.unwrap()),
                    facts.inputs.len(),
                    facts.outputs.len(),
                ) {
                    Ok(rules) => apply_simple_list(rules, facts, rules.len()),
                    Err(kind) => Err(kind),
                }
            } else {
                Ok(facts)
            },
            None => Err(ErrorKind::InvariantViolation),
        },
        _ => apply_simple(rule, facts),
    }
}

/// What the first `k` of the rules make of the facts one after the other, up
/// to the first error.
pub open spec fn apply_rules<R: InferenceRulesOp>(
    op: &R,
    rules: Seq<RuleView>,
    facts: FactsView,
    k: nat,
) -> Result<FactsView, ErrorKind>
    decreases k,
{
    if k == 0 {
        Ok(facts)
    } else {
        match apply_rules(op, rules, facts, (k - 1) as nat) {
            Ok(before) => apply_rule(op, rules[k - 1], before),
            Err(e) => Err(e),
        }
    }
}

/// What `n` passes over all the rules make of the facts, up to the first
/// error.
pub open spec fn passes<R: InferenceRulesOp>(
    op: &R,
    rules: Seq<RuleView>,
    facts: FactsView,
    n: nat,
) -> Result<FactsView, ErrorKind>
    decreases n,
{
    if n == 0 {
        Ok(facts)
    } else {
        match passes(op, rules, facts, (n - 1) as nat) {
            Ok(before) => apply_rules(op, rules, before, rules.len()),
            Err(e) => Err(e),
        }
    }
}

/// Whether no rule narrows the facts any further.
pub open spec fn is_fixpoint<R: InferenceRulesOp>(op: &R, rules: Seq<RuleView>, facts: FactsView) -> bool {
    apply_rules(op, rules, facts, rules.len()) == Ok::<FactsView, ErrorKind>(facts)
}

/// The number of unknown dimensions in a list of dimension facts.
pub open spec fn count_any(dims: Seq<DimFact>) -> nat
    decreases dims.len(),
{
    if dims.len() == 0 {
        0
    } else {
        count_any(dims.drop_last()) + if dims.last() is Any {
            1nat
        } else {
            0nat
        }
    }
}

/// One where the rank of the tensor is unknown.
pub open spec fn open_rank(f: InferenceFactView) -> nat {
    if f.shape is None {
        1
    } else {
        0
    }
}

/// The number of fields of the fact that are unknown, the rank left out.
pub open spec fn unknowns(f: InferenceFactView) -> nat {
    (if f.datum_type is Any {
        1nat
    } else {
        0nat
    }) + (if f.value is None {
        1nat
    } else {
        0nat
    }) + (match f.shape {
        Some(d) => count_any(d),
        None => 0nat,
    })
}

/// The sum of `open_rank` over the facts.
pub open spec fn sum_open(facts: Seq<InferenceFactView>) -> nat
    decreases facts.len(),
{
    if facts.len() == 0 {
        0
    } else {
        sum_open(facts.drop_last()) + open_rank(facts.last())
    }
}

/// The sum of `unknowns` over the facts.
pub open spec fn sum_unknowns(facts: Seq<InferenceFactView>) -> nat
    decreases facts.len(),
{
    if facts.len() == 0 {
        0
    } else {
        sum_unknowns(facts.drop_last()) + unknowns(facts.last())
    }
}

/// How many ranks are still unknown.
pub open spec fn open_ranks(facts: FactsView) -> nat {
    sum_open(facts.inputs) + sum_open(facts.outputs)
}

/// How many other fields are still unknown.
pub open spec fn open_fields(facts: FactsView) -> nat {
    sum_unknowns(facts.inputs) + sum_unknowns(facts.outputs)
}

/// Whether `after` knows strictly more than `before`, by the count of
/// unknown ranks first and of the other unknown fields second.
pub open spec fn knows_more(after: FactsView, before: FactsView) -> bool {
    open_ranks(after) < open_ranks(before) || (open_ranks(after) == open_ranks(before)
        && open_fields(after) < open_fields(before))
}

/// Whether `after` is `before` or knows strictly more, over the same
/// tensors.
pub open spec fn narrows(after: FactsView, before: FactsView) -> bool {
    &&& after.inputs.len() == before.inputs.len()
    &&& after.outputs.len() == before.outputs.len()
    &&& (after == before || knows_more(after, before))
}

/// Whether the fact `after` is `before` or knows strictly more.
pub open spec fn fact_narrows(after: InferenceFactView, before: InferenceFactView) -> bool {
    after == before || open_rank(after) < open_rank(before) || (open_rank(after) == open_rank(before)
        && unknowns(after) < unknowns(before))
}

proof fn lemma_sum_open_update(facts: Seq<InferenceFactView>, i: int, f: InferenceFactView)
    requires
        0 <= i < facts.len(),
    ensures
        sum_open(facts.update(i, f)) + open_rank(facts[i]) == sum_open(facts) + open_rank(f),
    decreases facts.len(),
{
    let after = facts.update(i, f);
    if i == facts.len() - 1 {
        assert(after.drop_last() =~= facts.drop_last());
    } else {
        assert(after.drop_last() =~= facts.drop_last().update(i, f));
        lemma_sum_open_update(facts.drop_last(), i, f);
    }
}

proof fn lemma_sum_unknowns_update(facts: Seq<InferenceFactView>, i: int, f: InferenceFactView)
    requires
        0 <= i < facts.len(),
    ensures
        sum_unknowns(facts.update(i, f)) + unknowns(facts[i]) == sum_unknowns(facts) + unknowns(f),
    decreases facts.len(),
{
    let after = facts.update(i, f);
    if i == facts.len() - 1 {
        assert(after.drop_last() =~= facts.drop_last());
    } else {
        assert(after.drop_last() =~= facts.drop_last().update(i, f));
        lemma_sum_unknowns_update(facts.drop_last(), i, f);
    }
}

/// Replacing the fact of one tensor by a narrower one narrows the facts.
pub proof fn lemma_with_narrows(facts: FactsView, t: TensorProxy, f: InferenceFactView)
    requires
        facts.at(t) is Some,
        fact_narrows(f, facts.at(t).unwrap()),
    ensures
        narrows(facts.with(t, f), facts),
{
    match t {
        TensorProxy::Input(i) => {
            lemma_sum_open_update(facts.inputs, i as int, f);
            lemma_sum_unknowns_update(facts.inputs, i as int, f);
            if f == facts.inputs[i as int] {
                assert(facts.inputs.update(i as int, f) =~= facts.inputs);
            }
        },
        TensorProxy::Output(i) => {
            lemma_sum_open_update(facts.outputs, i as int, f);
            lemma_sum_unknowns_update(facts.outputs, i as int, f);
            if f == facts.outputs[i as int] {
                assert(facts.outputs.update(i as int, f) =~= facts.outputs);
            }
        },
    }
}

/// Narrowing twice is narrowing.
pub proof fn lemma_narrows_transitive(a: FactsView, b: FactsView, c: FactsView)
    requires
        narrows(a, b),
        narrows(b, c),
    ensures
        narrows(a, c),
{
}

/// Where each dimension fact is what it was, or known where it was unknown,
/// no more dimensions are unknown than before, and as many only where
/// nothing changed.
pub proof fn lemma_count_any_refine(after: Seq<DimFact>, before: Seq<DimFact>)
    requires
        after.len() == before.len(),
        forall|i: int|
            0 <= i < before.len() ==> (#[trigger] after[i]) == before[i] || (before[i] is Any
                && after[i] is Only),
    ensures
        count_any(after) <= count_any(before),
        count_any(after) == count_any(before) ==> after == before,
    decreases before.len(),
{
    if before.len() > 0 {
        let a = after.drop_last();
        let b = before.drop_last();
        assert forall|i: int| 0 <= i < b.len() implies (#[trigger] a[i]) == b[i] || (b[i] is Any
            && a[i] is Only) by {
            assert(after[i] == a[i] && before[i] == b[i]);
        }
        lemma_count_any_refine(a, b);
        assert(after[after.len() - 1] == before[before.len() - 1] || (before[before.len() - 1] is Any
            && after[after.len() - 1] is Only));
        let la: nat = if after.last() is Any { 1 } else { 0 };
        let lb: nat = if before.last() is Any { 1 } else { 0 };
        assert(la <= lb);
        if count_any(after) == count_any(before) {
            assert(count_any(a) == count_any(b));
            assert(a == b);
            assert(after.last() == before.last());
            assert forall|i: int| 0 <= i < after.len() implies after[i] == before[i] by {
                if i < a.len() {
                    assert(after[i] == a[i] && before[i] == b[i]);
                }
            }
            assert(after =~= before);
        }
    } else {
        assert(after =~= before);
    }
}

/// What a rule that is not deferred makes of the facts is the facts, or
/// knows strictly more.
pub proof fn lemma_apply_simple_narrows(rule: RuleView, facts: FactsView)
    requires
        apply_simple(rule, facts) is Ok,
    ensures
        narrows(apply_simple(rule, facts).unwrap(), facts),
{
    let after = apply_simple(rule, facts).unwrap();
    match rule {
        RuleView::EqualType(a, b) => {
            let fa = facts.at(a).unwrap();
            let fb = facts.at(b).unwrap();
            let t = fa.datum_type.unify_spec(fb.datum_type).unwrap();
            let mid = facts.with(a, with_type(fa, t));
            lemma_with_narrows(facts, a, with_type(fa, t));
            if a == b {
                assert(mid.at(b) == Some(with_type(fa, t)));
                lemma_with_narrows(mid, b, with_type(fb, t));
            } else {
                assert(mid.at(b) == Some(fb));
                lemma_with_narrows(mid, b, with_type(fb, t));
            }
            lemma_narrows_transitive(after, mid, facts);
        },
        RuleView::RankMinus { of, base, minus } => {
            let fo = facts.at(of).unwrap();
            let fb = facts.at(base).unwrap();
            match (fo.shape, fb.shape) {
                (None, Some(db)) => {
                    lemma_with_narrows(
                        facts,
                        of,
                        with_shape(fo, Some(any_dims((db.len() - minus) as nat))),
                    );
                },
                (Some(d), None) => {
                    lemma_with_narrows(
                        facts,
                        base,
                        with_shape(fb, Some(any_dims((d.len() + minus) as nat))),
                    );
                },
                _ => {},
            }
        },
        RuleView::EqualDim { tensor, axis, dim } => {
            let f = facts.at(tensor).unwrap();
            match f.shape {
                None => {},
                Some(d) => {
                    let u = d[axis as int].unify_spec(DimFact::Only(dim)).unwrap();
                    let nd = d.update(axis as int, u);
                    lemma_count_any_refine(nd, d);
                    lemma_with_narrows(facts, tensor, with_shape(f, Some(nd)));
                },
            }
        },
        RuleView::EqualShape { tensor, dims } => {
            let f = facts.at(tensor).unwrap();
            let shape = unify_shape(f.shape, Some(only_dims(dims))).unwrap();
            match f.shape {
                None => {},
                Some(d) => {
                    let nd = shape.unwrap();
                    assert forall|i: int| 0 <= i < d.len() implies (#[trigger] nd[i]) == d[i] || (
                    d[i] is Any && nd[i] is Only) by {
                        assert(d[i].unify_spec(only_dims(dims)[i]) is Some);
                    }
                    lemma_count_any_refine(nd, d);
                },
            }
            lemma_with_narrows(facts, tensor, with_shape(f, shape));
        },
        RuleView::Given { tensor, key } => {},
    }
}

/// What a list of rules, none deferred, makes of the facts is the facts, or
/// knows strictly more.
pub proof fn lemma_apply_simple_list_narrows(rules: Seq<RuleView>, facts: FactsView, k: nat)
    requires
        k <= rules.len(),
        apply_simple_list(rules, facts, k) is Ok,
    ensures
        narrows(apply_simple_list(rules, facts, k).unwrap(), facts),
    decreases k,
{
    if k > 0 {
        lemma_apply_simple_list_narrows(rules, facts, (k - 1) as nat);
        let before = apply_simple_list(rules, facts, (k - 1) as nat).unwrap();
        lemma_apply_simple_narrows(rules[k - 1], before);
        lemma_narrows_transitive(apply_simple_list(rules, facts, k).unwrap(), before, facts);
    }
}

/// What a rule makes of the facts is the facts, or knows strictly more.
pub proof fn lemma_apply_rule_narrows<R: InferenceRulesOp>(op: &R, rule: RuleView, facts: FactsView)
    requires
        apply_rule(op, rule, facts) is Ok,
    ensures
        narrows(apply_rule(op, rule, facts).unwrap(), facts),
{
    match rule {
        RuleView::Given { tensor, key } => {
            let f = facts.at(tensor).unwrap();
            if shape_is_concrete(f.shape) {
                let rules = op.given_spec(
                    key,
                    concrete_dims(f.shape.unwrap()),
                    facts.inputs.len(),
                    facts.outputs.len(),
                ).unwrap();
                lemma_apply_simple_list_narrows(rules, facts, rules.len());
            }
        },
        _ => {
            lemma_apply_simple_narrows(rule, facts);
        },
    }
}

/// What the rules make of the facts is the facts, or knows strictly more.
pub proof fn lemma_apply_rules_narrows<R: InferenceRulesOp>(
    op: &R,
    rules: Seq<RuleView>,
    facts: FactsView,
    k: nat,
)
    requires
        k <= rules.len(),
        apply_rules(op, rules, facts, k) is Ok,
    ensures
        narrows(apply_rules(op, rules, facts, k).unwrap(), facts),
    decreases k,
{
    if k > 0 {
        lemma_apply_rules_narrows(op, rules, facts, (k - 1) as nat);
        let before = apply_rules(op, rules, facts, (k - 1) as nat).unwrap();
        lemma_apply_rule_narrows(op, rules[k - 1], before);
        lemma_narrows_transitive(apply_rules(op, rules, facts, k).unwrap(), before, facts);
    }
}

/// A copy of a list of facts.
pub fn copy_facts(facts: &Vec<InferenceFact>) -> (r: Vec<InferenceFact>)
    ensures
        fact_views(r@) == fact_views(facts@),
{
    let mut out: Vec<InferenceFact> = Vec::new();
    let mut i: usize = 0;
    while i < facts.len()
        invariant
            i <= facts@.len(),
            out@.len() == i,
            forall|j: int| 0 <= j < i ==> (#[trigger] out@[j])@ == facts@[j]@,
        decreases facts@.len() - i,
    {
        out.push(facts[i].clone());
        i += 1;
    }
    assert(fact_views(out@) =~= fact_views(facts@));
    out
}

/// Copies of a list of borrowed facts.
pub fn copy_fact_refs(facts: &Vec<&InferenceFact>) -> (r: Vec<InferenceFact>)
    ensures
        fact_views(r@) == fact_ref_views(facts@),
{
    let mut out: Vec<InferenceFact> = Vec::new();
    let mut i: usize = 0;
    while i < facts.len()
        invariant
            i <= facts@.len(),
            out@.len() == i,
            forall|j: int| 0 <= j < i ==> (#[trigger] out@[j])@ == facts@[j]@,
        decreases facts@.len() - i,
    {
        out.push(facts[i].clone());
        i += 1;
    }
    assert(fact_views(out@) =~= fact_ref_views(facts@));
    out
}

/// Whether two lists of facts know the same.
pub fn same_facts(a: &Vec<InferenceFact>, b: &Vec<InferenceFact>) -> (r: bool)
    ensures
        r == (fact_views(a@) == fact_views(b@)),
{
    if a.len() != b.len() {
        assert(fact_views(a@).len() != fact_views(b@).len());
        return false;
    }
    let mut i: usize = 0;
    while i < a.len()
        invariant
            i <= a@.len(),
            a@.len() == b@.len(),
            forall|j: int| 0 <= j < i ==> (#[trigger] a@[j])@ == b@[j]@,
        decreases a@.len() - i,
    {
        if !a[i].same(&b[i]) {
            assert(fact_views(a@)[i as int] != fact_views(b@)[i as int]);
            return false;
        }
        i += 1;
    }
    assert(fact_views(a@) =~= fact_views(b@));
    true
}

impl Clone for Facts {
    fn clone(&self) -> (r: Facts)
        ensures
            r@ == self@,
    {
        Facts { inputs: copy_facts(&self.inputs), outputs: copy_facts(&self.outputs) }
    }
}

impl Facts {
    /// Whether the two hold the same facts.
    pub fn same(&self, other: &Facts) -> (r: bool)
        ensures
            r == (self@ == other@),
    {
        same_facts(&self.inputs, &other.inputs) && same_facts(&self.outputs, &other.outputs)
    }

    /// The fact of the tensor, if the node has that tensor.
    pub fn at(&self, t: TensorProxy) -> (r: Option<&InferenceFact>)
        ensures
            match r {
                Some(f) => self@.at(t) == Some(f@),
                None => self@.at(t) is None,
            },
    {
        match t {
            TensorProxy::Input(i) => if i < self.inputs.len() {
                Some(&self.inputs[i])
            } else {
                None
            },
            TensorProxy::Output(i) => if i < self.outputs.len() {
                Some(&self.outputs[i])
            } else {
                None
            },
        }
    }

    /// Replaces the fact of a tensor that the node has.
    fn put(&mut self, t: TensorProxy, fact: InferenceFact)
        requires
            old(self)@.at(t) is Some,
        ensures
            final(self)@ == old(self)@.with(t, fact@),
    {
        match t {
            TensorProxy::Input(i) => {
                self.inputs.set(i, fact);
                assert(fact_views(self.inputs@) =~= fact_views(old(self).inputs@).update(
                    i as int,
                    fact@,
                ));
            },
            TensorProxy::Output(i) => {
                self.outputs.set(i, fact);
                assert(fact_views(self.outputs@) =~= fact_views(old(self).outputs@).update(
                    i as int,
                    fact@,
                ));
            },
        }
    }
}

/// Whether the result of a step and the facts after it are what the
/// contract of the step gives for the facts before it.
pub open spec fn step_matches(
    wanted: Result<FactsView, ErrorKind>,
    r: TractResult<()>,
    after: FactsView,
) -> bool {
    match wanted {
        Ok(v) => r is Ok && after == v,
        Err(kind) => r matches Err(e) && e.kind == kind,
    }
}

/// Narrows the facts by the rule that two tensors have one datum type.
fn apply_equal_type(a: TensorProxy, b: TensorProxy, facts: &mut Facts) -> (r: TractResult<()>)
    ensures
        step_matches(apply_simple(RuleView::EqualType(a, b), old(facts)@), r, final(facts)@),
{
    let (ta, tb) = match (facts.at(a), facts.at(b)) {
        (Some(fa), Some(fb)) => (fa.datum_type, fb.datum_type),
        _ => {
            return Err(TractError::new(ErrorKind::InvariantViolation, "no such tensor"));
        },
    };
    let t = match ta.unify(&tb) {
        Ok(t) => t,
        Err(e) => {
            return Err(e);
        },
    };
    let fa = match facts.at(a) {
        Some(f) => f.clone(),
        None => {
            return Ok(());
        },
    };
    facts.put(a, InferenceFact { datum_type: t, shape: fa.shape, value: fa.value });
    let fb = match facts.at(b) {
        Some(f) => f.clone(),
        None => {
            return Ok(());
        },
    };
    facts.put(b, InferenceFact { datum_type: t, shape: fb.shape, value: fb.value });
    Ok(())
}

/// Narrows the facts by the rule that one rank is another minus a number.
fn apply_rank_minus(of: TensorProxy, base: TensorProxy, minus: usize, facts: &mut Facts) -> (r:
    TractResult<()>)
    ensures
        step_matches(
            apply_simple(RuleView::RankMinus { of, base, minus }, old(facts)@),
            r,
            final(facts)@,
        ),
{
    let (ro, rb) = match (facts.at(of), facts.at(base)) {
        (Some(fo), Some(fb)) => (fo.shape.rank(), fb.shape.rank()),
        _ => {
            return Err(TractError::new(ErrorKind::InvariantViolation, "no such tensor"));
        },
    };
    match (ro, rb) {
        (None, None) => Ok(()),
        (None, Some(b)) => {
            if b >= minus {
                let fo = match facts.at(of) {
                    Some(f) => f.clone(),
                    None => {
                        return Ok(());
                    },
                };
                facts.put(
                    of,
                    InferenceFact {
                        datum_type: fo.datum_type,
                        shape: ShapeFact::of_rank(b - minus),
                        value: fo.value,
                    },
                );
                Ok(())
            } else {
                Err(TractError::new(ErrorKind::Unification, "the rank would be negative"))
            }
        },
        (Some(o), None) => {
            match o.checked_add(minus) {
                Some(rank) => {
                    let fb = match facts.at(base) {
                        Some(f) => f.clone(),
                        None => {
                            return Ok(());
                        },
                    };
                    facts.put(
                        base,
                        InferenceFact {
                            datum_type: fb.datum_type,
                            shape: ShapeFact::of_rank(rank),
                            value: fb.value,
                        },
                    );
                    Ok(())
                },
                None => Err(TractError::new(ErrorKind::Unification, "the rank is too large")),
            }
        },
        (Some(o), Some(b)) => {
            if b >= minus && b - minus == o {
                Ok(())
            } else {
                Err(TractError::new(ErrorKind::Unification, "the ranks do not agree"))
            }
        },
    }
}

/// Narrows the facts by the rule that gives one dimension of a tensor.
fn apply_equal_dim(tensor: TensorProxy, axis: usize, dim: Dim, facts: &mut Facts) -> (r:
    TractResult<()>)
    ensures
        step_matches(
            apply_simple(RuleView::EqualDim { tensor, axis, dim }, old(facts)@),
            r,
            final(facts)@,
        ),
{
    let f = match facts.at(tensor) {
        Some(f) => f.clone(),
        None => {
            return Err(TractError::new(ErrorKind::InvariantViolation, "no such tensor"));
        },
    };
    match f.shape {
        ShapeFact::Any => Ok(()),
        ShapeFact::Only(dims) => {
            if axis < dims.len() {
                let u = match dims[axis].unify(&DimFact::Only(dim)) {
                    Ok(u) => u,
                    Err(e) => {
                        return Err(e);
                    },
                };
                let mut dims = dims;
                dims.set(axis, u);
                facts.put(
                    tensor,
                    InferenceFact {
                        datum_type: f.datum_type,
                        shape: ShapeFact::Only(dims),
                        value: f.value,
                    },
                );
                Ok(())
            } else {
                Err(TractError::new(ErrorKind::Unification, "the tensor has no such axis"))
            }
        },
    }
}

/// Narrows the facts by the rule that gives the shape of a tensor.
fn apply_equal_shape(tensor: TensorProxy, dims: &Vec<Dim>, facts: &mut Facts) -> (r: TractResult<()>)
    ensures
        step_matches(
            apply_simple(RuleView::EqualShape { tensor, dims: dims@ }, old(facts)@),
            r,
            final(facts)@,
        ),
{
    let f = match facts.at(tensor) {
        Some(f) => f.clone(),
        None => {
            return Err(TractError::new(ErrorKind::InvariantViolation, "no such tensor"));
        },
    };
    let wanted = ShapeFact::from_dims(dims);
    assert(wanted@ == Some(only_dims(dims@)));
    let shape = match f.shape.unify(&wanted) {
        Ok(s) => s,
        Err(e) => {
            return Err(e);
        },
    };
    facts.put(tensor, InferenceFact { datum_type: f.datum_type, shape, value: f.value });
    Ok(())
}

/// Narrows the facts by a rule that is not deferred.
fn apply_simple_to(rule: &Rule, facts: &mut Facts) -> (r: TractResult<()>)
    ensures
        step_matches(apply_simple(rule@, old(facts)@), r, final(facts)@),
{
    match rule {
        Rule::EqualType(a, b) => apply_equal_type(*a, *b, facts),
        Rule::RankMinus { of, base, minus } => apply_rank_minus(*of, *base, *minus, facts),
        Rule::EqualDim { tensor, axis, dim } => apply_equal_dim(*tensor, *axis, *dim, facts),
        Rule::EqualShape { tensor, dims } => apply_equal_shape(*tensor, dims, facts),
        Rule::Given { tensor, key } => Err(
            TractError::new(ErrorKind::InvariantViolation, "a deferred rule cannot defer again"),
        ),
    }
}

/// The names of the first `count` inputs of a node.
pub fn input_proxies(count: usize) -> (r: Vec<TensorProxy>)
    ensures
        r@ == Seq::new(count as nat, |i: int| TensorProxy::Input(i as usize)),
{
    let mut out: Vec<TensorProxy> = Vec::new();
    let mut i: usize = 0;
    while i < count
        invariant
            i <= count,
            out@ == Seq::new(i as nat, |k: int| TensorProxy::Input(k as usize)),
        decreases count - i,
    {
        out.push(TensorProxy::Input(i));
        assert(out@ =~= Seq::new((i + 1) as nat, |k: int| TensorProxy::Input(k as usize)));
        i += 1;
    }
    out
}

/// The names of the first `count` outputs of a node.
pub fn output_proxies(count: usize) -> (r: Vec<TensorProxy>)
    ensures
        r@ == Seq::new(count as nat, |i: int| TensorProxy::Output(i as usize)),
{
    let mut out: Vec<TensorProxy> = Vec::new();
    let mut i: usize = 0;
    while i < count
        invariant
            i <= count,
            out@ == Seq::new(i as nat, |k: int| TensorProxy::Output(k as usize)),
        decreases count - i,
    {
        out.push(TensorProxy::Output(i));
        assert(out@ =~= Seq::new((i + 1) as nat, |k: int| TensorProxy::Output(k as usize)));
        i += 1;
    }
    out
}

/// Narrows the facts by a list of rules of which none is deferred.
fn apply_simple_list_to(rules: &Vec<Rule>, facts: &mut Facts) -> (r: TractResult<()>)
    ensures
        step_matches(
            apply_simple_list(rule_views(rules@), old(facts)@, rules@.len()),
            r,
            final(facts)@,
        ),
{
    let ghost views = rule_views(rules@);
    let mut k: usize = 0;
    while k < rules.len()
        invariant
            k <= rules@.len(),
            views == rule_views(rules@),
            apply_simple_list(views, old(facts)@, k as nat) == Ok::<FactsView, ErrorKind>(facts@),
        decreases rules@.len() - k,
    {
        assert(views[k as int] == rules@[k as int]@);
        match apply_simple_to(&rules[k], facts) {
            Ok(()) => {},
            Err(e) => {
                proof {
                    lemma_simple_list_error(views, old(facts)@, (k + 1) as nat, rules@.len());
                }
                return Err(e);
            },
        }
        k += 1;
    }
    Ok(())
}

/// Once a list of rules, none deferred, has run into an error, it stays
/// there.
pub proof fn lemma_simple_list_error(rules: Seq<RuleView>, facts: FactsView, k: nat, n: nat)
    requires
        k <= n,
        apply_simple_list(rules, facts, k) is Err,
    ensures
        apply_simple_list(rules, facts, n) == apply_simple_list(rules, facts, k),
    decreases n,
{
    if k < n {
        lemma_simple_list_error(rules, facts, k, (n - 1) as nat);
    }
}

/// Once the rules have run into an error, they stay there.
pub proof fn lemma_rules_error<R: InferenceRulesOp>(
    op: &R,
    rules: Seq<RuleView>,
    facts: FactsView,
    k: nat,
    n: nat,
)
    requires
        k <= n,
        apply_rules(op, rules, facts, k) is Err,
    ensures
        apply_rules(op, rules, facts, n) == apply_rules(op, rules, facts, k),
    decreases n,
{
    if k < n {
        lemma_rules_error(op, rules, facts, k, (n - 1) as nat);
    }
}

/// Narrows the facts by one rule.
fn apply_rule_to<R: InferenceRulesOp>(
    op: &R,
    rule: &Rule,
    facts: &mut Facts,
    inputs: &Vec<TensorProxy>,
    outputs: &Vec<TensorProxy>,
) -> (r: TractResult<()>)
    requires
        inputs@.len() == old(facts)@.inputs.len(),
        outputs@.len() == old(facts)@.outputs.len(),
    ensures
        step_matches(apply_rule(op, rule@, old(facts)@), r, final(facts)@),
{
    match rule {
        Rule::Given { tensor, key } => {
            let shape = match facts.at(*tensor) {
                Some(f) => f.shape.concretize(),
                None => {
                    return Err(TractError::new(ErrorKind::InvariantViolation, "no such tensor"));
                },
            };
            match shape {
                Some(dims) => {
                    let mut s = Solver::new();
                    match op.given(&mut s, *key, &dims, inputs, outputs) {
                        Ok(()) => {},
                        Err(e) => {
                            return Err(e);
                        },
                    }
                    assert(s@ =~= op.given_spec(
                        *key,
                        dims@,
                        inputs@.len(),
                        outputs@.len(),
                    ).unwrap());
                    apply_simple_list_to(&s.rules, facts)
                },
                None => Ok(()),
            }
        },
        _ => apply_simple_to(rule, facts),
    }
}

/// Narrows the facts by every rule, once, in the order of the rules.
fn pass_over<R: InferenceRulesOp>(
    op: &R,
    rules: &Vec<Rule>,
    facts: &mut Facts,
    inputs: &Vec<TensorProxy>,
    outputs: &Vec<TensorProxy>,
) -> (r: TractResult<()>)
    requires
        inputs@.len() == old(facts)@.inputs.len(),
        outputs@.len() == old(facts)@.outputs.len(),
    ensures
        step_matches(
            apply_rules(op, rule_views(rules@), old(facts)@, rules@.len()),
            r,
            final(facts)@,
        ),
{
    let ghost views = rule_views(rules@);
    let mut k: usize = 0;
    while k < rules.len()
        invariant
            k <= rules@.len(),
            views == rule_views(rules@),
            inputs@.len() == old(facts)@.inputs.len(),
            outputs@.len() == old(facts)@.outputs.len(),
            apply_rules(op, views, old(facts)@, k as nat) == Ok::<FactsView, ErrorKind>(facts@),
            narrows(facts@, old(facts)@),
        decreases rules@.len() - k,
    {
        assert(views[k as int] == rules@[k as int]@);
        let ghost before = facts@;
        match apply_rule_to(op, &rules[k], facts, inputs, outputs) {
            Ok(()) => {
                proof {
                    lemma_apply_rule_narrows(op, views[k as int], before);
                    lemma_narrows_transitive(facts@, before, old(facts)@);
                }
            },
            Err(e) => {
                proof {
                    lemma_rules_error(op, views, old(facts)@, (k + 1) as nat, rules@.len());
                }
                return Err(e);
            },
        }
        k += 1;
    }
    Ok(())
}

/// Whether `r` is what propagation makes of the facts `start` under the
/// rules: the facts after some number of passes, at which no rule narrows
/// them any further, or the error that some pass runs into.
pub open spec fn propagates<R: InferenceRulesOp>(
    op: &R,
    rules: Seq<RuleView>,
    start: FactsView,
    r: Result<FactsView, ErrorKind>,
) -> bool {
    exists|n: nat|
        match r {
            Ok(end) => #[trigger] passes(op, rules, start, n) == Ok::<FactsView, ErrorKind>(end)
                && is_fixpoint(op, rules, end),
            Err(kind) => #[trigger] passes(op, rules, start, n) == Err::<FactsView, ErrorKind>(kind),
        }
}

/// The view of the result of a propagation.
pub open spec fn facts_result_view(r: TractResult<Facts>) -> Result<FactsView, ErrorKind> {
    match r {
        Ok(facts) => Ok(facts@),
        Err(e) => Err(e.kind),
    }
}

/// Applies the rules to the facts, pass after pass, until a pass narrows
/// nothing, or a rule contradicts the facts.
pub fn propagate<R: InferenceRulesOp>(op: &R, rules: &Vec<Rule>, facts: Facts) -> (r: TractResult<
    Facts,
>)
    ensures
        propagates(op, rule_views(rules@), facts@, facts_result_view(r)),
        r matches Ok(end) ==> narrows(end@, facts@) && refines_all(end@, facts@),
{
    let inputs = input_proxies(facts.inputs.len());
    let outputs = output_proxies(facts.outputs.len());
    let ghost views = rule_views(rules@);
    let ghost mut n: nat = 0;
    let mut current = facts;
    loop
        invariant
            views == rule_views(rules@),
            inputs@.len() == current@.inputs.len(),
            outputs@.len() == current@.outputs.len(),
            passes(op, views, facts@, n) == Ok::<FactsView, ErrorKind>(current@),
            narrows(current@, facts@),
        decreases open_ranks(current@), open_fields(current@),
    {
        let mut next = current.clone();
        match pass_over(op, rules, &mut next, &inputs, &outputs) {
            Ok(()) => {},
            Err(e) => {
                proof {
                    assert(passes(op, views, facts@, n + 1) == Err::<FactsView, ErrorKind>(e.kind));
                }
                return Err(e);
            },
        }
        proof {
            lemma_apply_rules_narrows(op, views, current@, views.len());
            lemma_narrows_transitive(next@, current@, facts@);
        }
        if next.same(&current) {
            proof {
                assert(is_fixpoint(op, views, current@));
                assert(passes(op, views, facts@, n) == Ok::<FactsView, ErrorKind>(next@));
                lemma_passes_refine(op, views, facts@, n);
            }
            return Ok(next);
        }
        proof {
            assert(passes(op, views, facts@, n + 1) == Ok::<FactsView, ErrorKind>(next@));
            n = n + 1;
        }
        current = next;
    }
}

/// At a fixpoint, further passes change nothing.
pub proof fn lemma_fixpoint_stays<R: InferenceRulesOp>(
    op: &R,
    rules: Seq<RuleView>,
    start: FactsView,
    n: nat,
    m: nat,
)
    requires
        n <= m,
        passes(op, rules, start, n) is Ok,
        is_fixpoint(op, rules, passes(op, rules, start, n).unwrap()),
    ensures
        passes(op, rules, start, m) == passes(op, rules, start, n),
    decreases m,
{
    if n < m {
        lemma_fixpoint_stays(op, rules, start, n, (m - 1) as nat);
    }
}

/// After an error, further passes stay at the error.
pub proof fn lemma_error_stays<R: InferenceRulesOp>(
    op: &R,
    rules: Seq<RuleView>,
    start: FactsView,
    n: nat,
    m: nat,
)
    requires
        n <= m,
        passes(op, rules, start, n) is Err,
    ensures
        passes(op, rules, start, m) == passes(op, rules, start, n),
    decreases m,
{
    if n < m {
        lemma_error_stays(op, rules, start, n, (m - 1) as nat);
    }
}

/// Propagation is a function of the rules and the facts it starts from:
/// whatever two runs over the same rules and facts end in, facts or an
/// error, is the same.
pub proof fn lemma_propagates_once<R: InferenceRulesOp>(
    op: &R,
    rules: Seq<RuleView>,
    start: FactsView,
    one: Result<FactsView, ErrorKind>,
    other: Result<FactsView, ErrorKind>,
)
    requires
        propagates(op, rules, start, one),
        propagates(op, rules, start, other),
    ensures
        one == other,
{
    let steps_one = choose|n: nat|
        match one {
            Ok(end) => #[trigger] passes(op, rules, start, n) == Ok::<FactsView, ErrorKind>(end)
                && is_fixpoint(op, rules, end),
            Err(kind) => #[trigger] passes(op, rules, start, n) == Err::<FactsView, ErrorKind>(kind),
        };
    let steps_other = choose|n: nat|
        match other {
            Ok(end) => #[trigger] passes(op, rules, start, n) == Ok::<FactsView, ErrorKind>(end)
                && is_fixpoint(op, rules, end),
            Err(kind) => #[trigger] passes(op, rules, start, n) == Err::<FactsView, ErrorKind>(kind),
        };
    if steps_one <= steps_other {
        if one is Ok {
            lemma_fixpoint_stays(op, rules, start, steps_one, steps_other);
        } else {
            lemma_error_stays(op, rules, start, steps_one, steps_other);
        }
    } else {
        if other is Ok {
            lemma_fixpoint_stays(op, rules, start, steps_other, steps_one);
        } else {
            lemma_error_stays(op, rules, start, steps_other, steps_one);
        }
    }
}

/// Whether every fact of `after` says all that the fact of `before` for the
/// same tensor says, and contradicts none of it.
pub open spec fn refines_all(after: FactsView, before: FactsView) -> bool {
    &&& after.inputs.len() == before.inputs.len()
    &&& after.outputs.len() == before.outputs.len()
    &&& forall|i: int|
        0 <= i < before.inputs.len() ==> refines(#[trigger] after.inputs[i], before.inputs[i])
    &&& forall|i: int|
        0 <= i < before.outputs.len() ==> refines(#[trigger] after.outputs[i], before.outputs[i])
}

/// A fact that says all that a second says, which says all that a third
/// says, says all that the third says.
pub proof fn lemma_refines_transitive(a: InferenceFactView, b: InferenceFactView, c: InferenceFactView)
    requires
        refines(a, b),
        refines(b, c),
    ensures
        refines(a, c),
{
    lemma_unify_associative(a, b, c);
}

/// Facts say all that they say.
pub proof fn lemma_refines_all_reflexive(facts: FactsView)
    ensures
        refines_all(facts, facts),
{
    assert forall|i: int| 0 <= i < facts.inputs.len() implies refines(
        #[trigger] facts.inputs[i],
        facts.inputs[i],
    ) by {
        lemma_unify_idempotent(facts.inputs[i]);
    }
    assert forall|i: int| 0 <= i < facts.outputs.len() implies refines(
        #[trigger] facts.outputs[i],
        facts.outputs[i],
    ) by {
        lemma_unify_idempotent(facts.outputs[i]);
    }
}

/// Saying all that another says carries over two steps.
pub proof fn lemma_refines_all_transitive(a: FactsView, b: FactsView, c: FactsView)
    requires
        refines_all(a, b),
        refines_all(b, c),
    ensures
        refines_all(a, c),
{
    assert forall|i: int| 0 <= i < c.inputs.len() implies refines(
        #[trigger] a.inputs[i],
        c.inputs[i],
    ) by {
        assert(refines(b.inputs[i], c.inputs[i]));
        lemma_refines_transitive(a.inputs[i], b.inputs[i], c.inputs[i]);
    }
    assert forall|i: int| 0 <= i < c.outputs.len() implies refines(
        #[trigger] a.outputs[i],
        c.outputs[i],
    ) by {
        assert(refines(b.outputs[i], c.outputs[i]));
        lemma_refines_transitive(a.outputs[i], b.outputs[i], c.outputs[i]);
    }
}

/// Replacing the fact of one tensor by what it merges into with another
/// fact gives facts that say all that the facts said.
proof fn lemma_with_merged_refines(facts: FactsView, t: TensorProxy, other: InferenceFactView)
    requires
        facts.at(t) is Some,
        unify_fact(facts.at(t).unwrap(), other) is Some,
    ensures
        refines_all(facts.with(t, unify_fact(facts.at(t).unwrap(), other).unwrap()), facts),
{
    let f = facts.at(t).unwrap();
    let merged = unify_fact(f, other).unwrap();
    let after = facts.with(t, merged);
    lemma_unify_refines(f, other);
    lemma_refines_all_reflexive(facts);
    assert forall|i: int| 0 <= i < facts.inputs.len() implies refines(
        #[trigger] after.inputs[i],
        facts.inputs[i],
    ) by {
        if after.inputs[i] != merged {
            assert(after.inputs[i] == facts.inputs[i]);
        }
    }
    assert forall|i: int| 0 <= i < facts.outputs.len() implies refines(
        #[trigger] after.outputs[i],
        facts.outputs[i],
    ) by {
        if after.outputs[i] != merged {
            assert(after.outputs[i] == facts.outputs[i]);
        }
    }
}

/// The fact that knows nothing but a datum type.
spec fn only_type(datum_type: TypeFact) -> InferenceFactView {
    InferenceFactView { datum_type, shape: None, value: None }
}

/// The fact that knows nothing but a shape.
spec fn only_shape(shape: Option<Seq<DimFact>>) -> InferenceFactView {
    InferenceFactView { datum_type: TypeFact::Any, shape, value: None }
}

/// What a rule that is not deferred makes of the facts says all that the
/// facts said.
pub proof fn lemma_apply_simple_refines(rule: RuleView, facts: FactsView)
    requires
        apply_simple(rule, facts) is Ok,
    ensures
        refines_all(apply_simple(rule, facts).unwrap(), facts),
{
    let after = apply_simple(rule, facts).unwrap();
    match rule {
        RuleView::EqualType(a, b) => {
            let fa = facts.at(a).unwrap();
            let fb = facts.at(b).unwrap();
            let t = fa.datum_type.unify_spec(fb.datum_type).unwrap();
            let mid = facts.with(a, with_type(fa, t));
            assert(unify_fact(fa, only_type(fb.datum_type)) == Some(with_type(fa, t)));
            lemma_with_merged_refines(facts, a, only_type(fb.datum_type));
            let now = mid.at(b).unwrap();
            assert(unify_fact(now, only_type(t)) == Some(with_type(fb, t)));
            lemma_with_merged_refines(mid, b, only_type(t));
            lemma_refines_all_transitive(after, mid, facts);
        },
        RuleView::RankMinus { of, base, minus } => {
            let fo = facts.at(of).unwrap();
            let fb = facts.at(base).unwrap();
            match (fo.shape, fb.shape) {
                (None, Some(db)) => {
                    let shape = Some(any_dims((db.len() - minus) as nat));
                    assert(unify_fact(fo, only_shape(shape)) == Some(with_shape(fo, shape)));
                    lemma_with_merged_refines(facts, of, only_shape(shape));
                },
                (Some(d), None) => {
                    let shape = Some(any_dims((d.len() + minus) as nat));
                    assert(unify_fact(fb, only_shape(shape)) == Some(with_shape(fb, shape)));
                    lemma_with_merged_refines(facts, base, only_shape(shape));
                },
                _ => {
                    lemma_refines_all_reflexive(facts);
                },
            }
        },
        RuleView::EqualDim { tensor, axis, dim } => {
            let f = facts.at(tensor).unwrap();
            match f.shape {
                None => {
                    lemma_refines_all_reflexive(facts);
                },
                Some(d) => {
                    let u = d[axis as int].unify_spec(DimFact::Only(dim)).unwrap();
                    let wanted = any_dims(d.len()).update(axis as int, DimFact::Only(dim));
                    assert forall|i: int| 0 <= i < d.len() implies (#[trigger] d[i].unify_spec(
                        wanted[i],
                    )) is Some by {}
                    assert(crate::fact::unify_dims(d, wanted).unwrap() =~= d.update(axis as int, u));
                    assert(unify_fact(f, only_shape(Some(wanted))) == Some(
                        with_shape(f, Some(d.update(axis as int, u))),
                    ));
                    lemma_with_merged_refines(facts, tensor, only_shape(Some(wanted)));
                },
            }
        },
        RuleView::EqualShape { tensor, dims } => {
            let f = facts.at(tensor).unwrap();
            let shape = unify_shape(f.shape, Some(only_dims(dims))).unwrap();
            assert(unify_fact(f, only_shape(Some(only_dims(dims)))) == Some(with_shape(f, shape)));
            lemma_with_merged_refines(facts, tensor, only_shape(Some(only_dims(dims))));
        },
        RuleView::Given { tensor, key } => {},
    }
}

/// What a list of rules, none deferred, makes of the facts says all that
/// the facts said.
pub proof fn lemma_apply_simple_list_refines(rules: Seq<RuleView>, facts: FactsView, k: nat)
    requires
        k <= rules.len(),
        apply_simple_list(rules, facts, k) is Ok,
    ensures
        refines_all(apply_simple_list(rules, facts, k).unwrap(), facts),
    decreases k,
{
    if k > 0 {
        lemma_apply_simple_list_refines(rules, facts, (k - 1) as nat);
        let before = apply_simple_list(rules, facts, (k - 1) as nat).unwrap();
        lemma_apply_simple_refines(rules[k - 1], before);
        lemma_refines_all_transitive(apply_simple_list(rules, facts, k).unwrap(), before, facts);
    } else {
        lemma_refines_all_reflexive(facts);
    }
}

/// What the rules make of the facts says all that the facts said.
pub proof fn lemma_apply_rules_refines<R: InferenceRulesOp>(
    op: &R,
    rules: Seq<RuleView>,
    facts: FactsView,
    k: nat,
)
    requires
        k <= rules.len(),
        apply_rules(op, rules, facts, k) is Ok,
    ensures
        refines_all(apply_rules(op, rules, facts, k).unwrap(), facts),
    decreases k,
{
    if k > 0 {
        lemma_apply_rules_refines(op, rules, facts, (k - 1) as nat);
        let before = apply_rules(op, rules, facts, (k - 1) as nat).unwrap();
        match rules[k - 1] {
            RuleView::Given { tensor, key } => {
                let f = before.at(tensor).unwrap();
                if shape_is_concrete(f.shape) {
                    let given = op.given_spec(
                        key,
                        concrete_dims(f.shape.unwrap()),
                        before.inputs.len(),
                        before.outputs.len(),
                    ).unwrap();
                    lemma_apply_simple_list_refines(given, before, given.len());
                } else {
                    lemma_refines_all_reflexive(before);
                }
            },
            _ => {
                lemma_apply_simple_refines(rules[k - 1], before);
            },
        }
        lemma_refines_all_transitive(apply_rules(op, rules, facts, k).unwrap(), before, facts);
    } else {
        lemma_refines_all_reflexive(facts);
    }
}

/// Facts only narrow: after any number of passes, every fact says all that
/// it said at the start, and what was known is still known.
pub proof fn lemma_passes_refine<R: InferenceRulesOp>(
    op: &R,
    rules: Seq<RuleView>,
    start: FactsView,
    n: nat,
)
    requires
        passes(op, rules, start, n) is Ok,
    ensures
        refines_all(passes(op, rules, start, n).unwrap(), start),
    decreases n,
{
    if n > 0 {
        lemma_passes_refine(op, rules, start, (n - 1) as nat);
        let before = passes(op, rules, start, (n - 1) as nat).unwrap();
        lemma_apply_rules_refines(op, rules, before, rules.len());
        lemma_refines_all_transitive(passes(op, rules, start, n).unwrap(), before, start);
    } else {
        lemma_refines_all_reflexive(start);
    }
}

} // verus!
