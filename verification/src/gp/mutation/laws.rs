//! What offspring of the mutations that come with the crate say, told by what
//! their parents do.

use super::builtin::{
    overwritten, slot_count, tagged_at, HoistMutation, InsertMutation, ParamJitter, PointMutation,
    SubtreeMutation, TerminalMutation,
};
use super::{apply_mutation, bred, led_to, lemma_completes, lemma_offspring_formula, Mutation, Step};
use crate::ast::{ExprArena, ExprNode, NodeKind};
use crate::expr::{
    alike, expr_of, finite_at, lemma_expr_id, lemma_expr_step, lemma_params_below, lemma_same_tags,
    lemma_tags_alike, part_at, tags_kept, Expr,
};
use crate::formula::{
    formula, formula_with, lemma_formula_alike, lemma_formula_extend, lemma_formula_itself, Formula,
};
use crate::gp::{Genome, Individual};
use crate::ops::OperationTable;
use crate::gp::subtree::{follows, generated, lemma_picked, tagged, TreeMethod};
use crate::random::{
    may_draw, may_flip, may_pick, may_pick_index, may_show, next_index,
    next_jitter, next_one, picks_u16, Reals,
};
use crate::scalar::less;
use crate::types::{low16, NodeId, OperationId, ParameterId, Scalar, VariableId};
use rand::rngs::StdRng;
use vstd::prelude::*;

verus! {

/// The tree of an individual.
pub open spec fn tree_of<G: Genome>(
    individual: &Individual<G>,
    arena: &ExprArena<G::Tag>,
) -> Expr<G::Tag> {
    arena.expr(arena.root_node(individual.root)->0)
}

/// Whether the root of the tree has a tag that the genome gives to its kind.
pub open spec fn given_tag<G: Genome>(e: Expr<G::Tag>) -> bool {
    match e {
        Expr::Missing { .. } => false,
        Expr::Variable { var, tag, .. } => call_ensures(
            G::get_tag_for_node,
            (NodeKind::Variable(var),),
            tag,
        ),
        Expr::Parameter { param, tag, .. } => call_ensures(
            G::get_tag_for_node,
            (NodeKind::Parameter(param),),
            tag,
        ),
        Expr::Unary { op, tag, value, .. } => call_ensures(
            G::get_tag_for_node,
            (NodeKind::Unary { value: value.id(), op },),
            tag,
        ),
        Expr::Binary { op, tag, left, right, .. } => call_ensures(
            G::get_tag_for_node,
            (NodeKind::Binary { left: left.id(), right: right.id(), op },),
            tag,
        ),
    }
}

/// Whether the tags of `b` are clones of those of `a`, node by node.
pub open spec fn cloned_tags<Tag: Clone>(a: Expr<Tag>, b: Expr<Tag>) -> bool {
    tags_kept(a, b, None, b)
}

/// A copy has cloned tags.
proof fn lemma_cloned_tags<Tag: Clone>(a: Expr<Tag>, b: Expr<Tag>)
    requires
        alike(a, b),
        b.complete(),
    ensures
        cloned_tags(a, b),
{
    lemma_same_tags(b);
    lemma_tags_alike(a, b, b);
}

/// Whether the tree of an individual reads every parameter that it has.
pub open spec fn reads_all<G: Genome>(
    individual: &Individual<G>,
    arena: &ExprArena<G::Tag>,
) -> bool {
    forall|p: ParameterId|
        p.0 < individual.parameters@.len() ==> #[trigger] tree_of(
            individual,
            arena,
        ).parameters().contains(p)
}

/// What an individual says: the formula of its tree under its parameters.
pub open spec fn says<G: Genome>(
    individual: &Individual<G>,
    arena: &ExprArena<G::Tag>,
) -> Formula {
    formula(arena.expr(arena.root_node(individual.root)->0), individual.parameters@)
}

/// What an individual says, with `part` in place of its subtree at `target`.
pub open spec fn says_with<G: Genome>(
    individual: &Individual<G>,
    arena: &ExprArena<G::Tag>,
    target: NodeId,
    part: Formula,
) -> Formula {
    formula_with(
        arena.expr(arena.root_node(individual.root)->0),
        individual.parameters@,
        target,
        part,
    )
}

/// What the subtree at `node` says under an individual's parameters.
pub open spec fn said_at<G: Genome>(
    individual: &Individual<G>,
    arena: &ExprArena<G::Tag>,
    node: NodeId,
) -> Formula {
    formula(arena.expr(node), individual.parameters@)
}

/// Whether the individual has a tree, and `target` is a node that a mutation of
/// it can be asked to replace.
pub open spec fn mutable_at<G: Genome>(
    parent: &Individual<G>,
    source: &ExprArena<G::Tag>,
    target: NodeId,
) -> bool {
    &&& source.root_node(parent.root) is Some
    &&& source.sound_at(source.root_node(parent.root)->0)
    &&& source.expr(source.root_node(parent.root)->0).params_below(parent.parameters@.len())
    &&& source.has(target)
    &&& source.sound_at(target)
    &&& source.expr(target).params_below(parent.parameters@.len())
}

/// The step that led to an offspring, and what came of it.
proof fn lemma_step<G: Genome, M: Mutation<G> + ?Sized>(
    mutation: &M,
    target: NodeId,
    parent: &Individual<G>,
    source: &ExprArena<G::Tag>,
    ops: &OperationTable,
    rng: StdRng,
    old_dest: &ExprArena<G::Tag>,
    new_dest: &ExprArena<G::Tag>,
    offspring: Individual<G>,
) -> (r: (Step<G::Tag>, Option<NodeId>))
    requires
        bred(mutation, target, parent, source, ops, rng, old_dest, new_dest, offspring),
        mutable_at(parent, source, target),
    ensures
        mutation.yields(r.0, r.1),
        r.0.sound(r.1),
        r.0.rng == rng,
        r.0.source == source.nodes(),
        r.0.unary == ops.unary_ids(),
        r.0.binary == ops.binary_ids(),
        r.0.target == target,
        r.0.before == old_dest.nodes(),
        r.0.old_params == parent.parameters@,
        r.1 is None ==> {
            &&& offspring.parameters@ == r.0.new_params
            &&& says(&offspring, new_dest) == formula(
                source.expr(source.root_node(parent.root)->0),
                r.0.new_params,
            )
            &&& tags_kept(
                tree_of(parent, source),
                tree_of(&offspring, new_dest),
                None,
                tree_of(&offspring, new_dest),
            )
        },
        r.1 is Some ==> reads_all(&offspring, new_dest),
        r.1 matches Some(id) ==> tags_kept(
            tree_of(parent, source),
            tree_of(&offspring, new_dest),
            Some(target),
            expr_of(r.0.after, id),
        ),
        r.1 matches Some(id) ==> parent.parameters@.is_prefix_of(r.0.new_params) ==> says(
            &offspring,
            new_dest,
        ) == says_with(
            parent,
            source,
            target,
            formula(expr_of(r.0.after, id), r.0.new_params),
        ),
{
    let (step, replacement) = choose|step: Step<G::Tag>, replacement: Option<NodeId>|
        #[trigger] led_to(
            mutation,
            target,
            parent,
            source,
            ops,
            old_dest,
            new_dest,
            offspring,
            step,
            replacement,
        ) && step.rng == rng;
    lemma_offspring_formula(
        mutation,
        target,
        parent,
        source,
        ops,
        old_dest,
        new_dest,
        offspring,
        step,
        replacement,
    );
    assert(new_dest.root_node(offspring.root) == Some(new_dest.roots().last()));
    new_dest.lemma_lengths();
    assert(tree_of(parent, source).params_below(step.new_params.len()));
    let g = lemma_completes(
        tree_of(parent, source),
        target,
        replacement,
        step.new_params,
        step.after,
        new_dest.nodes(),
        new_dest.roots().last(),
        offspring.parameters@,
        step.before.len(),
        ops.operations(),
        Seq::empty(),
    );
    if let Some(id) = replacement {
        if parent.parameters@.is_prefix_of(step.new_params) {
            lemma_formula_extend(
                source.expr(source.root_node(parent.root)->0),
                parent.parameters@,
                step.new_params,
                target,
                formula(expr_of(step.after, id), step.new_params),
            );
        }
    }
    (step, replacement)
}

/// A jitter adds noise to the value of one parameter: the offspring has the
/// parent's tree under the parent's parameters, but for that one, whose value
/// is a sum of the parent's own value of it and of a draw with the configured
/// standard deviation.
pub proof fn lemma_jitter_formula<G: Genome>(
    mutation: ParamJitter,
    target: NodeId,
    parent: &Individual<G>,
    source: &ExprArena<G::Tag>,
    ops: &OperationTable,
    rng: StdRng,
    old_dest: &ExprArena<G::Tag>,
    new_dest: &ExprArena<G::Tag>,
    offspring: Individual<G>,
    param: ParameterId,
)
    requires
        bred(&mutation, target, parent, source, ops, rng, old_dest, new_dest, offspring),
        mutable_at(parent, source, target),
        source.nodes()[target.0 as int].kind == NodeKind::Parameter(param),
    ensures
        offspring.parameters@.len() == parent.parameters@.len(),
        forall|i: int|
            0 <= i < parent.parameters@.len() && i != param.0 ==> #[trigger] offspring.parameters@[i]
                == parent.parameters@[i],
        exists|state: &mut StdRng|
            *state == rng && #[trigger] call_ensures(
                G::Reals::jittered,
                (state, parent.parameters@[param.0 as int], mutation.stddev),
                offspring.parameters@[param.0 as int],
            ),
        says(&offspring, new_dest) == formula(
            source.expr(source.root_node(parent.root)->0),
            offspring.parameters@,
        ),
{
    let (step, replacement) = lemma_step(
        &mutation,
        target,
        parent,
        source,
        ops,
        rng,
        old_dest,
        new_dest,
        offspring,
    );
    lemma_expr_step(source.nodes(), target);
    lemma_params_below(source.expr(target), parent.parameters@.len());
    let pp = parent.parameters@;
    let value = choose|value: Scalar|
        {
            &&& #[trigger] overwritten(step, replacement, param, value)
            &&& next_jitter::<G::Reals>(rng, pp[param.0 as int], mutation.stddev, value)
        };
    assert(offspring.parameters@[param.0 as int] == value);
}

/// A hoist puts a proper descendant of the target in its place, as a draw among
/// all of them picked it. Parameters that the tree no longer reads are gone.
pub proof fn lemma_hoist_formula<G: Genome>(
    target: NodeId,
    parent: &Individual<G>,
    source: &ExprArena<G::Tag>,
    ops: &OperationTable,
    rng: StdRng,
    old_dest: &ExprArena<G::Tag>,
    new_dest: &ExprArena<G::Tag>,
    offspring: Individual<G>,
)
    requires
        bred(&HoistMutation, target, parent, source, ops, rng, old_dest, new_dest, offspring),
        mutable_at(parent, source, target),
    ensures
        reads_all(&offspring, new_dest),
        exists|state: &mut StdRng, n: nat, k: usize|
            {
                let walked = source.expr(target).walked();
                &&& *state == rng
                &&& #[trigger] may_pick_index(state, n, k)
                &&& n + 1 == walked.len()
                &&& k < n
                &&& says(&offspring, new_dest) == says_with(
                    parent,
                    source,
                    target,
                    said_at(parent, source, walked[k + 1]),
                )
            },
{
    let (step, replacement) = lemma_step(
        &HoistMutation,
        target,
        parent,
        source,
        ops,
        rng,
        old_dest,
        new_dest,
        offspring,
    );
    let id = replacement->0;
    let walked = source.expr(target).walked();
    let n = (walked.len() - 1) as nat;
    let k = choose|k: int|
        {
            &&& #[trigger] HoistMutation::hoisted(step, id, k)
            &&& next_index(rng, n, k - 1)
        };
    let state = choose|state: &mut StdRng|
        *state == rng && #[trigger] may_pick_index(state, n, (k - 1) as usize);
    lemma_formula_alike(source.expr(walked[k]), expr_of(step.after, id), parent.parameters@);
    assert(may_pick_index(state, n, (k - 1) as usize));
}

/// A point mutation of an operator leaves its operands alone and puts an
/// operator of the same arity in its place, as a draw among all of them picked
/// it. One of a variable puts a variable in its place that was drawn among the
/// genome's, if it has any. One of a parameter puts one in its place that was
/// drawn among those that can be named. Parameters that the tree no longer
/// reads are gone.
pub proof fn lemma_point_formula<G: Genome>(
    target: NodeId,
    parent: &Individual<G>,
    source: &ExprArena<G::Tag>,
    ops: &OperationTable,
    rng: StdRng,
    old_dest: &ExprArena<G::Tag>,
    new_dest: &ExprArena<G::Tag>,
    offspring: Individual<G>,
)
    requires
        bred(&PointMutation, target, parent, source, ops, rng, old_dest, new_dest, offspring),
        mutable_at(parent, source, target),
    ensures
        reads_all(&offspring, new_dest),
        match source.nodes()[target.0 as int].kind {
            NodeKind::Unary { value, .. } => exists|state: &mut StdRng, i: usize|
                {
                    &&& *state == rng
                    &&& #[trigger] may_pick_index(state, ops.unary_ids().len(), i)
                    &&& i < ops.unary_ids().len()
                    &&& says(&offspring, new_dest) == says_with(
                        parent,
                        source,
                        target,
                        Formula::Unary(
                            ops.unary_ids()[i as int],
                            Box::new(said_at(parent, source, value)),
                        ),
                    )
                },
            NodeKind::Binary { left, right, .. } => exists|state: &mut StdRng, i: usize|
                {
                    &&& *state == rng
                    &&& #[trigger] may_pick_index(state, ops.binary_ids().len(), i)
                    &&& i < ops.binary_ids().len()
                    &&& says(&offspring, new_dest) == says_with(
                        parent,
                        source,
                        target,
                        Formula::Binary(
                            ops.binary_ids()[i as int],
                            Box::new(said_at(parent, source, left)),
                            Box::new(said_at(parent, source, right)),
                        ),
                    )
                },
            NodeKind::Variable(_) => if G::INPUT_DIM == 0 {
                says(&offspring, new_dest) == says(parent, source)
            } else {
                exists|state: &mut StdRng, v: u16|
                    {
                        &&& *state == rng
                        &&& #[trigger] may_pick(state, G::INPUT_DIM, v)
                        &&& v < G::INPUT_DIM
                        &&& says(&offspring, new_dest) == says_with(
                            parent,
                            source,
                            target,
                            Formula::Variable(VariableId(v)),
                        )
                    }
            },
            NodeKind::Parameter(_) => exists|state: &mut StdRng, n: nat, p: usize|
                {
                    &&& *state == rng
                    &&& #[trigger] may_pick_index(state, n, p)
                    &&& n <= parent.parameters@.len() && n <= 0x1_0000
                    &&& n == parent.parameters@.len() || n == 0x1_0000
                    &&& p < n
                    &&& says(&offspring, new_dest) == says_with(
                        parent,
                        source,
                        target,
                        Formula::Constant(parent.parameters@[p as int]),
                    )
                },
        },
{
    let (step, replacement) = lemma_step(
        &PointMutation,
        target,
        parent,
        source,
        ops,
        rng,
        old_dest,
        new_dest,
        offspring,
    );
    let id = replacement->0;
    let pp = parent.parameters@;
    let subject = source.expr(target);
    lemma_expr_step(source.nodes(), target);
    lemma_expr_step(step.after, id);
    match source.nodes()[target.0 as int].kind {
        NodeKind::Unary { value, .. } => {
            let op = choose|op: OperationId|
                {
                    &&& #[trigger] PointMutation::swapped::<G>(step, id, op)
                    &&& next_one(rng, step.unary, op)
                };
            let k = choose|k: int| #[trigger] next_index(rng, step.unary.len(), k)
                && step.unary[k] == op;
            let state = choose|state: &mut StdRng|
                *state == rng && #[trigger] may_pick_index(state, step.unary.len(), k as usize);
            if let Expr::Unary { value: b, .. } = expr_of(step.after, id) {
                lemma_formula_alike(source.expr(value), *b, pp);
            }
            assert(may_pick_index(state, ops.unary_ids().len(), k as usize));
        },
        NodeKind::Binary { left, right, .. } => {
            let op = choose|op: OperationId|
                {
                    &&& #[trigger] PointMutation::swapped::<G>(step, id, op)
                    &&& next_one(rng, step.binary, op)
                };
            let k = choose|k: int| #[trigger] next_index(rng, step.binary.len(), k)
                && step.binary[k] == op;
            let state = choose|state: &mut StdRng|
                *state == rng && #[trigger] may_pick_index(state, step.binary.len(), k as usize);
            if let Expr::Binary { left: l, right: r, .. } = expr_of(step.after, id) {
                lemma_formula_alike(source.expr(left), *l, pp);
                lemma_formula_alike(source.expr(right), *r, pp);
            }
            assert(may_pick_index(state, ops.binary_ids().len(), k as usize));
        },
        NodeKind::Variable(var) => {
            lemma_formula_itself(
                source.nodes(),
                source.root_node(parent.root)->0,
                target,
                pp,
            );
        },
        NodeKind::Parameter(_) => {
            let kind = choose|kind: NodeKind|
                {
                    &&& #[trigger] PointMutation::swapped_leaf::<G>(step, id, kind)
                    &&& PointMutation::may_swap::<G>(step, kind)
                };
            let n = slot_count(pp.len());
            if let NodeKind::Parameter(p) = kind {
                let state = choose|state: &mut StdRng|
                    *state == rng && #[trigger] may_pick_index(state, n, (p.0 as int) as usize);
                assert(may_pick_index(state, n, p.0 as usize));
            }
        },
    }
}

/// Whether the generator's next draw from `[0, 1)` may be below `p`, or not, as
/// `below` says.
pub open spec fn draws_below<R: Reals>(rng: StdRng, p: Scalar, below: bool) -> bool {
    exists|state: &mut StdRng, unit: Scalar|
        *state == rng && #[trigger] call_ensures(R::unit, (state,), unit) && (less(unit, p)
            <==> below)
}

/// Whether the formula is a variable drawn among the first `n`, or a constant
/// drawn from the range.
pub open spec fn drawn_leaf<R: Reals>(f: Formula, n: u16, range: (Scalar, Scalar)) -> bool {
    match f {
        Formula::Variable(var) => var.0 < n && exists|state: &mut StdRng| #[trigger]
            may_pick(state, n, var.0),
        Formula::Constant(c) => drawn_between::<R>(range.0, range.1, c),
        _ => false,
    }
}

/// Whether `c` is a draw from `[lo, hi)`.
pub open spec fn drawn_between<R: Reals>(lo: Scalar, hi: Scalar, c: Scalar) -> bool {
    exists|state: &mut StdRng| #[trigger] call_ensures(R::uniform, (state, lo, hi), c)
}

/// A variable that was drawn, as a leaf.
proof fn lemma_drawn_variable<R: Reals>(var: VariableId, n: u16, range: (Scalar, Scalar))
    requires
        picks_u16(n, var.0),
    ensures
        drawn_leaf::<R>(Formula::Variable(var), n, range),
{
    let state = choose|state: &mut StdRng| #[trigger] may_pick(state, n, var.0);
    assert(may_pick(state, n, var.0));
}

/// The next slot, where it can be named, is named by its index.
proof fn lemma_fresh_slot(n: nat)
    requires
        n < 0x1_0000,
    ensures
        low16(n) == n,
{
    assert(n % 65536 == n) by (nonlinear_arith)
        requires
            0 <= n < 65536,
    ;
}

/// A terminal mutation routes a leaf to a variable if a draw is below
/// `p_variable`, and to a constant if not, or if the genome has no variables. A
/// variable is drawn among the genome's, and a constant from the configured
/// range. A constant replaces a variable, and overwrites the value of a
/// parameter in place, which changes nothing but that value. Where a leaf is
/// replaced, parameters that the tree no longer reads are gone.
pub proof fn lemma_terminal_formula<G: Genome>(
    mutation: TerminalMutation,
    target: NodeId,
    parent: &Individual<G>,
    source: &ExprArena<G::Tag>,
    ops: &OperationTable,
    rng: StdRng,
    old_dest: &ExprArena<G::Tag>,
    new_dest: &ExprArena<G::Tag>,
    offspring: Individual<G>,
)
    requires
        bred(&mutation, target, parent, source, ops, rng, old_dest, new_dest, offspring),
        mutable_at(parent, source, target),
        parent.parameters@.len() < 0x1_0000,
    ensures
        source.nodes()[target.0 as int].kind is Variable ==> reads_all(&offspring, new_dest),
        reads_all(&offspring, new_dest) || offspring.parameters@.len() == parent.parameters@.len(),
        ({
            ||| {
                &&& G::INPUT_DIM > 0
                &&& draws_below::<G::Reals>(rng, mutation.p_variable, true)
                &&& exists|var: VariableId|
                    {
                        &&& #[trigger] drawn_leaf::<G::Reals>(
                            Formula::Variable(var),
                            G::INPUT_DIM,
                            mutation.const_range,
                        )
                        &&& says(&offspring, new_dest) == says_with(
                            parent,
                            source,
                            target,
                            Formula::Variable(var),
                        )
                    }
            }
            ||| {
                &&& G::INPUT_DIM > 0 ==> draws_below::<G::Reals>(rng, mutation.p_variable, false)
                &&& exists|c: Scalar|
                    {
                        &&& #[trigger] drawn_leaf::<G::Reals>(
                            Formula::Constant(c),
                            G::INPUT_DIM,
                            mutation.const_range,
                        )
                        &&& match source.nodes()[target.0 as int].kind {
                            NodeKind::Parameter(p) => {
                                &&& offspring.parameters@ == parent.parameters@.update(
                                    p.0 as int,
                                    c,
                                )
                                &&& says(&offspring, new_dest) == formula(
                                    source.expr(source.root_node(parent.root)->0),
                                    offspring.parameters@,
                                )
                            },
                            _ => says(&offspring, new_dest) == says_with(
                                parent,
                                source,
                                target,
                                Formula::Constant(c),
                            ),
                        }
                    }
            }
        }),
{
    let (step, replacement) = lemma_step(
        &mutation,
        target,
        parent,
        source,
        ops,
        rng,
        old_dest,
        new_dest,
        offspring,
    );
    let pp = parent.parameters@;
    lemma_expr_step(source.nodes(), target);
    lemma_params_below(source.expr(target), pp.len());
    match replacement {
        Some(id) => {
            let t = expr_of(step.after, id);
            match t {
                Expr::Variable { var, .. } => {
                    lemma_drawn_variable::<G::Reals>(var, G::INPUT_DIM, mutation.const_range);
                    assert(drawn_leaf::<G::Reals>(
                        Formula::Variable(var),
                        G::INPUT_DIM,
                        mutation.const_range,
                    ));
                },
                Expr::Parameter { param, .. } => {
                    lemma_fresh_slot(pp.len());
                    let c = step.new_params.last();
                    assert(drawn_leaf::<G::Reals>(
                        Formula::Constant(c),
                        G::INPUT_DIM,
                        mutation.const_range,
                    ));
                },
                _ => {},
            }
        },
        None => {
            let p = source.expr(target)->param;
            let c = choose|c: Scalar|
                {
                    &&& #[trigger] overwritten(step, replacement, p, c)
                    &&& may_draw::<G::Reals>(mutation.const_range.0, mutation.const_range.1, c)
                };
            assert(drawn_leaf::<G::Reals>(
                Formula::Constant(c),
                G::INPUT_DIM,
                mutation.const_range,
            ));
        },
    }
}

/// Whether `op` is the one of `ids` at a position that was drawn among all.
pub open spec fn drawn_operator(ids: Seq<OperationId>, op: OperationId) -> bool {
    exists|state: &mut StdRng, i: usize|
        i < ids.len() && op == ids[i as int] && #[trigger] may_pick_index(state, ids.len(), i)
}

/// Whether a coin may show the given side.
pub open spec fn coin_shows(side: bool) -> bool {
    exists|state: &mut StdRng| #[trigger] may_flip(state, side)
}

/// Whether `f` is an operator over `inner` and, if it is binary, a drawn leaf,
/// on the right of it if a coin shows `true`, and on the left if `false`.
/// Where there are variables, another coin made the leaf a variable. The
/// operator was drawn among all those of its arity, and where there are such
/// of both, a draw below `p_binary` made it binary.
pub open spec fn wraps<R: Reals>(
    f: Formula,
    inner: Formula,
    ops: &OperationTable,
    n_inputs: u16,
    mutation: InsertMutation,
    rng: StdRng,
) -> bool {
    match f {
        Formula::Unary(op, x) => {
            &&& *x == inner
            &&& drawn_operator(ops.unary_ids(), op)
            &&& ops.binary_ids().len() > 0 ==> draws_below::<R>(rng, mutation.p_binary, false)
        },
        Formula::Binary(op, l, r) => {
            &&& drawn_operator(ops.binary_ids(), op)
            &&& ops.unary_ids().len() > 0 ==> draws_below::<R>(rng, mutation.p_binary, true)
            &&& {
                ||| {
                    &&& *l == inner
                    &&& drawn_leaf::<R>(*r, n_inputs, mutation.const_range)
                    &&& n_inputs > 0 ==> coin_shows(*r is Variable)
                    &&& coin_shows(true)
                }
                ||| {
                    &&& *r == inner
                    &&& drawn_leaf::<R>(*l, n_inputs, mutation.const_range)
                    &&& n_inputs > 0 ==> coin_shows(*l is Variable)
                    &&& coin_shows(false)
                }
            }
        },
        _ => false,
    }
}

/// An insertion wraps the target in an operator, and leaves the parent's tree
/// and parameters as they are if there are no operators. If there are,
/// parameters that the tree does not read are gone.
pub proof fn lemma_insert_formula<G: Genome>(
    mutation: InsertMutation,
    target: NodeId,
    parent: &Individual<G>,
    source: &ExprArena<G::Tag>,
    ops: &OperationTable,
    rng: StdRng,
    old_dest: &ExprArena<G::Tag>,
    new_dest: &ExprArena<G::Tag>,
    offspring: Individual<G>,
)
    requires
        bred(&mutation, target, parent, source, ops, rng, old_dest, new_dest, offspring),
        mutable_at(parent, source, target),
        parent.parameters@.len() < 0x1_0000,
    ensures
        ops.unary_ids().len() + ops.binary_ids().len() > 0 ==> reads_all(&offspring, new_dest),
        if ops.unary_ids().len() == 0 && ops.binary_ids().len() == 0 {
            &&& says(&offspring, new_dest) == says(parent, source)
            &&& offspring.parameters@ == parent.parameters@
        } else {
            exists|f: Formula|
                {
                    &&& #[trigger] wraps::<G::Reals>(
                        f,
                        said_at(parent, source, target),
                        ops,
                        G::INPUT_DIM,
                        mutation,
                        rng,
                    )
                    &&& says(&offspring, new_dest) == says_with(parent, source, target, f)
                }
        },
{
    let (step, replacement) = lemma_step(
        &mutation,
        target,
        parent,
        source,
        ops,
        rng,
        old_dest,
        new_dest,
        offspring,
    );
    let pp = parent.parameters@;
    let subject = source.expr(target);
    if let Some(id) = replacement {
        let t = expr_of(step.after, id);
        let f = formula(t, step.new_params);
        match t {
            Expr::Unary { op, value, .. } => {
                lemma_picked(step.unary, op);
                lemma_formula_alike(subject, *value, pp);
            },
            Expr::Binary { op, left, right, .. } => {
                lemma_picked(step.binary, op);
                let inner_first = may_show(true) && mutation.beside::<G>(step, *left, *right);
                let (inner, other) = if inner_first {
                    (*left, *right)
                } else {
                    (*right, *left)
                };
                lemma_formula_alike(subject, inner, step.new_params);
                lemma_formula_extend(subject, pp, step.new_params, target, Formula::Missing);
                lemma_fresh_slot(pp.len());
                if let Expr::Variable { var, .. } = other {
                    lemma_drawn_variable::<G::Reals>(var, G::INPUT_DIM, mutation.const_range);
                }
                assert(drawn_leaf::<G::Reals>(
                    formula(other, step.new_params),
                    G::INPUT_DIM,
                    mutation.const_range,
                ));
            },
            _ => {},
        }
        assert(wraps::<G::Reals>(
            f,
            said_at(parent, source, target),
            ops,
            G::INPUT_DIM,
            mutation,
            rng,
        ));
    }
}

/// A subtree mutation puts a tree in place of the target that the `grow` method
/// generated, as configured, to the largest depth, over fresh constants.
/// Parameters that the tree no longer reads are gone.
pub proof fn lemma_subtree_formula<G: Genome>(
    mutation: SubtreeMutation,
    target: NodeId,
    parent: &Individual<G>,
    source: &ExprArena<G::Tag>,
    ops: &OperationTable,
    rng: StdRng,
    old_dest: &ExprArena<G::Tag>,
    new_dest: &ExprArena<G::Tag>,
    offspring: Individual<G>,
) -> (r: (Seq<ExprNode<G::Tag>>, NodeId, Seq<Scalar>))
    requires
        bred(&mutation, target, parent, source, ops, rng, old_dest, new_dest, offspring),
        mutable_at(parent, source, target),
    ensures
        reads_all(&offspring, new_dest),
        generated::<G>(
            old_dest.nodes(),
            r.0,
            r.1,
            parent.parameters@,
            r.2,
            mutation.grow.tuning.n_variables,
            mutation.grow.tuning.const_range,
            ops.unary_ids(),
            ops.binary_ids(),
        ),
        follows::<G>(
            expr_of(r.0, r.1),
            mutation.grow.tuning.p_terminal,
            TreeMethod::Grow,
            mutation.grow.max_depth as nat,
            ops.unary_ids().len() + ops.binary_ids().len() > 0,
        ),
        says(&offspring, new_dest) == says_with(
            parent,
            source,
            target,
            formula(expr_of(r.0, r.1), r.2),
        ),
{
    let (step, replacement) = lemma_step(
        &mutation,
        target,
        parent,
        source,
        ops,
        rng,
        old_dest,
        new_dest,
        offspring,
    );
    (step.after, replacement->0, step.new_params)
}

/// The kinds of nodes that each mutation acts on.
pub proof fn lemma_applies<G: Genome>(
    subtree: SubtreeMutation,
    jitter: ParamJitter,
    insert: InsertMutation,
    terminal: TerminalMutation,
    kind: NodeKind,
)
    ensures
        Mutation::<G>::applies(&PointMutation, kind),
        Mutation::<G>::applies(&subtree, kind),
        Mutation::<G>::applies(&insert, kind),
        Mutation::<G>::applies(&jitter, kind) <==> kind is Parameter,
        Mutation::<G>::applies(&HoistMutation, kind) <==> kind is Unary || kind is Binary,
        Mutation::<G>::applies(&terminal, kind) <==> kind is Variable || kind is Parameter,
{
}

/// A node that a point mutation changes gets a tag that the genome gives to it,
/// and all other nodes keep theirs.
pub proof fn lemma_point_tags<G: Genome>(
    target: NodeId,
    parent: &Individual<G>,
    source: &ExprArena<G::Tag>,
    ops: &OperationTable,
    rng: StdRng,
    old_dest: &ExprArena<G::Tag>,
    new_dest: &ExprArena<G::Tag>,
    offspring: Individual<G>,
) -> (part: Expr<G::Tag>)
    requires
        bred(&PointMutation, target, parent, source, ops, rng, old_dest, new_dest, offspring),
        mutable_at(parent, source, target),
    ensures
        tags_kept(
            tree_of(parent, source),
            tree_of(&offspring, new_dest),
            Some(target),
            part,
        ),
        given_tag::<G>(part),
        match (source.expr(target), part) {
            (Expr::Unary { value: a, .. }, Expr::Unary { value: b, .. }) => cloned_tags(*a, *b),
            (
                Expr::Binary { left: la, right: ra, .. },
                Expr::Binary { left: lb, right: rb, .. },
            ) => cloned_tags(*la, *lb) && cloned_tags(*ra, *rb),
            (Expr::Variable { .. }, Expr::Variable { .. }) => true,
            (Expr::Parameter { .. }, Expr::Parameter { .. }) => true,
            _ => false,
        },
{
    let (step, replacement) = lemma_step(
        &PointMutation,
        target,
        parent,
        source,
        ops,
        rng,
        old_dest,
        new_dest,
        offspring,
    );
    let id = replacement->0;
    let part = expr_of(step.after, id);
    lemma_expr_step(source.nodes(), target);
    lemma_expr_step(step.after, id);
    lemma_given_tag::<G>(step.after, id);
    match (source.expr(target), part) {
        (Expr::Unary { value: a, .. }, Expr::Unary { value: b, .. }) => {
            lemma_cloned_tags(*a, *b);
        },
        (Expr::Binary { left: la, right: ra, .. }, Expr::Binary { left: lb, right: rb, .. }) => {
            lemma_cloned_tags(*la, *lb);
            lemma_cloned_tags(*ra, *rb);
        },
        _ => {},
    }
    part
}

/// A tag that was given to a node is one of the tree that it is the root of.
proof fn lemma_given_tag<G: Genome>(nodes: Seq<ExprNode<G::Tag>>, id: NodeId)
    requires
        finite_at(nodes, id),
        expr_of(nodes, id).complete(),
        tagged_at::<G>(nodes, id),
    ensures
        given_tag::<G>(expr_of(nodes, id)),
{
    lemma_expr_step(nodes, id);
    match nodes[id.0 as int].kind {
        NodeKind::Unary { value, .. } => {
            lemma_expr_id(nodes, value);
        },
        NodeKind::Binary { left, right, .. } => {
            lemma_expr_id(nodes, left);
            lemma_expr_id(nodes, right);
        },
        _ => {},
    }
}

/// Hoisted nodes keep their tags, as do all others that are left.
pub proof fn lemma_hoist_tags<G: Genome>(
    target: NodeId,
    parent: &Individual<G>,
    source: &ExprArena<G::Tag>,
    ops: &OperationTable,
    rng: StdRng,
    old_dest: &ExprArena<G::Tag>,
    new_dest: &ExprArena<G::Tag>,
    offspring: Individual<G>,
) -> (r: (Expr<G::Tag>, int))
    requires
        bred(&HoistMutation, target, parent, source, ops, rng, old_dest, new_dest, offspring),
        mutable_at(parent, source, target),
    ensures
        tags_kept(
            tree_of(parent, source),
            tree_of(&offspring, new_dest),
            Some(target),
            r.0,
        ),
        0 < r.1 < source.expr(target).walked().len(),
        cloned_tags(source.expr(source.expr(target).walked()[r.1]), r.0),
{
    let (step, replacement) = lemma_step(
        &HoistMutation,
        target,
        parent,
        source,
        ops,
        rng,
        old_dest,
        new_dest,
        offspring,
    );
    let id = replacement->0;
    let part = expr_of(step.after, id);
    let k = choose|k: int| #[trigger] HoistMutation::hoisted(step, id, k);
    lemma_cloned_tags(source.expr(source.expr(target).walked()[k]), part);
    (part, k)
}

/// An inserted operator gets a tag that the genome gives to it, as does its new
/// operand if it has one, and all other nodes keep theirs.
pub proof fn lemma_insert_tags<G: Genome>(
    mutation: InsertMutation,
    target: NodeId,
    parent: &Individual<G>,
    source: &ExprArena<G::Tag>,
    ops: &OperationTable,
    rng: StdRng,
    old_dest: &ExprArena<G::Tag>,
    new_dest: &ExprArena<G::Tag>,
    offspring: Individual<G>,
) -> (part: Expr<G::Tag>)
    requires
        bred(&mutation, target, parent, source, ops, rng, old_dest, new_dest, offspring),
        mutable_at(parent, source, target),
        ops.unary_ids().len() > 0 || ops.binary_ids().len() > 0,
    ensures
        tags_kept(
            tree_of(parent, source),
            tree_of(&offspring, new_dest),
            Some(target),
            part,
        ),
        given_tag::<G>(part),
        match part {
            Expr::Unary { value, .. } => cloned_tags(source.expr(target), *value),
            Expr::Binary { left, right, .. } => {
                ||| cloned_tags(source.expr(target), *left) && given_tag::<G>(*right)
                ||| cloned_tags(source.expr(target), *right) && given_tag::<G>(*left)
            },
            _ => false,
        },
{
    let (step, replacement) = lemma_step(
        &mutation,
        target,
        parent,
        source,
        ops,
        rng,
        old_dest,
        new_dest,
        offspring,
    );
    let id = replacement->0;
    let part = expr_of(step.after, id);
    lemma_given_tag::<G>(step.after, id);
    lemma_expr_step(step.after, id);
    match step.after[id.0 as int].kind {
        NodeKind::Unary { value, .. } => {
            lemma_cloned_tags(source.expr(target), expr_of(step.after, value));
        },
        NodeKind::Binary { left, right, .. } => {
            lemma_expr_id(step.after, left);
            lemma_expr_id(step.after, right);
            let l = expr_of(step.after, left);
            let r = expr_of(step.after, right);
            if mutation.beside::<G>(step, l, r) {
                lemma_cloned_tags(source.expr(target), l);
                lemma_given_tag::<G>(step.after, right);
            } else {
                lemma_cloned_tags(source.expr(target), r);
                lemma_given_tag::<G>(step.after, left);
            }
        },
        _ => {},
    }
    part
}

/// A leaf that a terminal mutation puts in place gets a tag that the genome
/// gives to it, and all other nodes keep theirs, as does a parameter that is
/// overwritten.
pub proof fn lemma_terminal_tags<G: Genome>(
    mutation: TerminalMutation,
    target: NodeId,
    parent: &Individual<G>,
    source: &ExprArena<G::Tag>,
    ops: &OperationTable,
    rng: StdRng,
    old_dest: &ExprArena<G::Tag>,
    new_dest: &ExprArena<G::Tag>,
    offspring: Individual<G>,
) -> (part: Option<Expr<G::Tag>>)
    requires
        bred(&mutation, target, parent, source, ops, rng, old_dest, new_dest, offspring),
        mutable_at(parent, source, target),
    ensures
        match part {
            Some(leaf) => {
                &&& tags_kept(
                    tree_of(parent, source),
                    tree_of(&offspring, new_dest),
                    Some(target),
                    leaf,
                )
                &&& leaf is Variable || leaf is Parameter
                &&& given_tag::<G>(leaf)
            },
            None => {
                &&& source.nodes()[target.0 as int].kind is Parameter
                &&& cloned_tags(tree_of(parent, source), tree_of(&offspring, new_dest))
            },
        },
{
    let (step, replacement) = lemma_step(
        &mutation,
        target,
        parent,
        source,
        ops,
        rng,
        old_dest,
        new_dest,
        offspring,
    );
    lemma_expr_step(source.nodes(), target);
    match replacement {
        Some(id) => {
            lemma_expr_step(step.after, id);
            lemma_given_tag::<G>(step.after, id);
            Some(expr_of(step.after, id))
        },
        None => None,
    }
}

/// A jitter keeps all tags.
pub proof fn lemma_jitter_tags<G: Genome>(
    mutation: ParamJitter,
    target: NodeId,
    parent: &Individual<G>,
    source: &ExprArena<G::Tag>,
    ops: &OperationTable,
    rng: StdRng,
    old_dest: &ExprArena<G::Tag>,
    new_dest: &ExprArena<G::Tag>,
    offspring: Individual<G>,
)
    requires
        bred(&mutation, target, parent, source, ops, rng, old_dest, new_dest, offspring),
        mutable_at(parent, source, target),
    ensures
        cloned_tags(tree_of(parent, source), tree_of(&offspring, new_dest)),
{
    let (step, replacement) = lemma_step(
        &mutation,
        target,
        parent,
        source,
        ops,
        rng,
        old_dest,
        new_dest,
        offspring,
    );
}

/// All nodes of a tree that a subtree mutation generates get tags that the
/// genome gives to them, and all other nodes keep theirs.
pub proof fn lemma_subtree_tags<G: Genome>(
    mutation: SubtreeMutation,
    target: NodeId,
    parent: &Individual<G>,
    source: &ExprArena<G::Tag>,
    ops: &OperationTable,
    rng: StdRng,
    old_dest: &ExprArena<G::Tag>,
    new_dest: &ExprArena<G::Tag>,
    offspring: Individual<G>,
    path: Seq<bool>,
) -> (part: Expr<G::Tag>)
    requires
        bred(&mutation, target, parent, source, ops, rng, old_dest, new_dest, offspring),
        mutable_at(parent, source, target),
    ensures
        tags_kept(
            tree_of(parent, source),
            tree_of(&offspring, new_dest),
            Some(target),
            part,
        ),
        part_at(part, path) matches Some(x) ==> given_tag::<G>(x),
{
    let (step, replacement) = lemma_step(
        &mutation,
        target,
        parent,
        source,
        ops,
        rng,
        old_dest,
        new_dest,
        offspring,
    );
    let id = replacement->0;
    let part = expr_of(step.after, id);
    if part_at(part, path) is Some {
        lemma_generated_tags::<G>(step.before, step.after, id, path);
    }
    part
}

/// Every node of a tree that is made of appended nodes alone has a tag that the
/// genome gives to it, if all of these have.
pub proof fn lemma_generated_tags<G: Genome>(
    before: Seq<ExprNode<G::Tag>>,
    after: Seq<ExprNode<G::Tag>>,
    id: NodeId,
    path: Seq<bool>,
)
    requires
        tagged::<G>(before, after),
        finite_at(after, id),
        expr_of(after, id).complete(),
        expr_of(after, id).ids_from(before.len()),
        part_at(expr_of(after, id), path) is Some,
    ensures
        given_tag::<G>(part_at(expr_of(after, id), path)->0),
    decreases path.len(),
{
    lemma_expr_id(after, id);
    lemma_expr_step(after, id);
    if path.len() == 0 {
        assert(after[id.0 as int] == after[id.0 as int]);
        lemma_given_tag::<G>(after, id);
    } else {
        match after[id.0 as int].kind {
            NodeKind::Unary { value, .. } => {
                lemma_generated_tags::<G>(before, after, value, path.drop_first());
            },
            NodeKind::Binary { left, right, .. } => {
                if path[0] {
                    lemma_generated_tags::<G>(before, after, right, path.drop_first());
                } else {
                    lemma_generated_tags::<G>(before, after, left, path.drop_first());
                }
            },
            _ => {},
        }
    }
}

/// Applying a mutation to a node of an individual's tree breeds an offspring
/// by that mutation of that node, with the generator as it was handed over.
/// There is none exactly if the individual has no tree or there is no such
/// node, and then the arena stays as it was.
pub proof fn lemma_applied<G: Genome + 'static, M: Mutation<G>>(
    mutation: &M,
    target: NodeId,
    parent: &Individual<G>,
    source: &ExprArena<G::Tag>,
    ops: &OperationTable,
    rng: StdRng,
    old_dest: ExprArena<G::Tag>,
    new_dest: ExprArena<G::Tag>,
    r: Option<Individual<G>>,
)
    requires
        mutable_at(parent, source, target),
        mutation.applies(source.nodes()[target.0 as int].kind),
        mutation.ready(source.nodes()[target.0 as int].kind, ops, parent.parameters@.len()),
        exists|dest: &mut ExprArena<G::Tag>, state: &mut StdRng|
            {
                &&& *dest == old_dest
                &&& *final(dest) == new_dest
                &&& *state == rng
                &&& #[trigger] call_ensures(
                    apply_mutation::<G, M>,
                    (mutation, target, parent, source, dest, ops, state),
                    r,
                )
            },
    ensures
        r matches Some(offspring) && bred(
            mutation,
            target,
            parent,
            source,
            ops,
            rng,
            &old_dest,
            &new_dest,
            offspring,
        ),
{
}

/// An offspring is rooted behind all roots that there were, in a tree without
/// dangling identifiers made of new nodes alone, which reads its own parameters
/// only. What was in the arena before stays as it was.
pub proof fn lemma_offspring_apart<G: Genome, M: Mutation<G> + ?Sized>(
    mutation: &M,
    target: NodeId,
    parent: &Individual<G>,
    source: &ExprArena<G::Tag>,
    ops: &OperationTable,
    rng: StdRng,
    old_dest: &ExprArena<G::Tag>,
    new_dest: &ExprArena<G::Tag>,
    offspring: Individual<G>,
)
    requires
        bred(mutation, target, parent, source, ops, rng, old_dest, new_dest, offspring),
    ensures
        new_dest.nodes().take(old_dest.nodes().len() as int) == old_dest.nodes(),
        new_dest.roots().take(old_dest.roots().len() as int) == old_dest.roots(),
        new_dest.roots().len() == old_dest.roots().len() + 1,
        new_dest.root_node(offspring.root) == Some(new_dest.roots().last()),
        offspring.root.0 == old_dest.roots().len(),
        new_dest.sound_at(new_dest.roots().last()),
        tree_of(&offspring, new_dest).ids_from(old_dest.nodes().len()),
        tree_of(&offspring, new_dest).params_below(offspring.parameters@.len()),
{
    assert(new_dest.roots().take(old_dest.roots().len() as int) == new_dest.roots().drop_last());
}

} // verus!
