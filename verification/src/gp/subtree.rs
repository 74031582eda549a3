//! Random tree generation.

use super::builder::NodeBuilder;
use super::Genome;
use crate::ast::{ExprNode, NodeKind};
use crate::eval::evaluable;
use crate::expr::{
    expr_of, finite_at, index_after, lemma_copied_alike, lemma_copied_len, lemma_expr_extend,
    lemma_expr_step, lemma_params_below, part_at, Expr,
};
use crate::ops::{lemma_ids_with, Arity, OperationTable};
use crate::random::{
    flip, lemma_picks_one, may_draw, may_flip, may_pick, may_pick_index, may_show, may_toss,
    pick_u16, picks_index, picks_one, picks_u16, toss, Reals,
};
use crate::scalar::{drawable, less};
use crate::types::{low16, NodeId, OperationId, ParameterId, Scalar, VariableId};
use rand::rngs::StdRng;
use vstd::prelude::*;

verus! {

/// Tuning parameters for the random tree generators, shared by the `grow` and
/// `full` methods. Depth is supplied separately at the call site.
pub struct TreeGenConfig {
    /// Probability of emitting a terminal at a non-zero depth (grow only).
    pub p_terminal: Scalar,
    /// Number of input variables available.
    pub n_variables: u16,
    /// Range [lo, hi) for randomly-initialized constant parameters.
    pub const_range: (Scalar, Scalar),
}

/// Configuration for the `grow`-method subtree generator used by mutation.
pub struct GrowSubtreeConfig {
    /// Maximum tree depth (depth 0 = terminal only).
    pub max_depth: usize,
    /// Generator tuning shared with population initialization.
    pub tuning: TreeGenConfig,
}

/// The tree-construction strategy.
#[derive(Clone, Copy, PartialEq, Eq, Debug, Structural)]
pub enum TreeMethod {
    /// Every branch grows to `depth`; terminals appear only at `depth == 0`.
    Full,
    /// Terminals may appear early (with probability `p_terminal`), so trees are
    /// irregular in shape and depth.
    Grow,
}

impl TreeGenConfig {
    /// Whether constants can be drawn from the configured range.
    pub open spec fn drawable(&self) -> bool {
        drawable(self.const_range.0, self.const_range.1)
    }
}

/// `count` parameter identifiers handed out one after the other, starting at
/// slot `first`.
pub open spec fn fresh_slots(first: nat, count: nat) -> Seq<ParameterId> {
    Seq::new(count, |i: int| ParameterId(low16((first + i) as nat)))
}

/// Whether draws may have given the expression its variables, among the first
/// `n_variables`, and its operators, among the given ones, each of its arity. A
/// coin tells variables from constants where there are variables, and the
/// arities apart where there are operators of both.
pub open spec fn drawn_from<Tag>(
    e: Expr<Tag>,
    n_variables: u16,
    unary: Seq<OperationId>,
    binary: Seq<OperationId>,
) -> bool
    decreases e,
{
    match e {
        Expr::Missing { .. } => false,
        Expr::Variable { var, .. } => may_show(true) && picks_u16(n_variables, var.0),
        Expr::Parameter { .. } => n_variables > 0 ==> may_show(false),
        Expr::Unary { op, value, .. } => {
            &&& picks_one(unary, op)
            &&& binary.len() > 0 ==> may_show(false)
            &&& drawn_from(*value, n_variables, unary, binary)
        },
        Expr::Binary { op, left, right, .. } => {
            &&& picks_one(binary, op)
            &&& unary.len() > 0 ==> may_show(true)
            &&& drawn_from(*left, n_variables, unary, binary)
            &&& drawn_from(*right, n_variables, unary, binary)
        },
    }
}

/// Whether a generator may have given the expression its shape: terminals
/// stand at depth zero, or where a draw of the `grow` method ended a branch
/// early; and everywhere, if there are no operators.
pub open spec fn follows<G: Genome>(
    e: Expr<G::Tag>,
    p_terminal: Scalar,
    method: TreeMethod,
    depth: nat,
    operators: bool,
) -> bool
    decreases e,
{
    match e {
        Expr::Missing { .. } => false,
        Expr::Variable { .. } | Expr::Parameter { .. } => {
            ||| depth == 0
            ||| !operators
            ||| method == TreeMethod::Grow && may_toss::<G::Reals>(p_terminal, true)
        },
        Expr::Unary { value, .. } => {
            &&& depth > 0
            &&& operators
            &&& method == TreeMethod::Grow ==> may_toss::<G::Reals>(p_terminal, false)
            &&& follows::<G>(*value, p_terminal, method, (depth - 1) as nat, operators)
        },
        Expr::Binary { left, right, .. } => {
            &&& depth > 0
            &&& operators
            &&& method == TreeMethod::Grow ==> may_toss::<G::Reals>(p_terminal, false)
            &&& follows::<G>(*left, p_terminal, method, (depth - 1) as nat, operators)
            &&& follows::<G>(*right, p_terminal, method, (depth - 1) as nat, operators)
        },
    }
}

/// No branch of a generated tree exceeds the depth it was generated to, and
/// every branch of a `full` tree reaches it. Without operators every tree is a
/// terminal.
pub proof fn lemma_follows<G: Genome>(
    e: Expr<G::Tag>,
    p_terminal: Scalar,
    method: TreeMethod,
    depth: nat,
    operators: bool,
)
    requires
        follows::<G>(e, p_terminal, method, depth, operators),
    ensures
        e.depth() <= depth,
        operators && method == TreeMethod::Full ==> e.full(depth),
        !operators ==> e.full(0),
    decreases e,
{
    match e {
        Expr::Unary { value, .. } => {
            lemma_follows::<G>(*value, p_terminal, method, (depth - 1) as nat, operators);
        },
        Expr::Binary { left, right, .. } => {
            lemma_follows::<G>(*left, p_terminal, method, (depth - 1) as nat, operators);
            lemma_follows::<G>(*right, p_terminal, method, (depth - 1) as nat, operators);
        },
        _ => {},
    }
}

/// Whether a tree was generated at `id`: exactly its nodes were appended to
/// the arena, with tags that the genome gave them, and exactly one fresh
/// parameter slot was allocated for each of its constants, from left to right,
/// with a value drawn from the range.
pub open spec fn generated<G: Genome>(
    before: Seq<ExprNode<G::Tag>>,
    after: Seq<ExprNode<G::Tag>>,
    id: NodeId,
    old_params: Seq<Scalar>,
    new_params: Seq<Scalar>,
    n_variables: u16,
    range: (Scalar, Scalar),
    unary: Seq<OperationId>,
    binary: Seq<OperationId>,
) -> bool {
    let e = expr_of(after, id);
    let base = before.len();
    &&& finite_at(after, id)
    &&& e.complete()
    &&& after == before + e.copied(base)
    &&& id == index_after(base, (e.copied(base).len() - 1) as nat)
    &&& old_params.is_prefix_of(new_params)
    &&& e.parameters() == fresh_slots(
        old_params.len(),
        (new_params.len() - old_params.len()) as nat,
    )
    &&& forall|i: int|
        old_params.len() <= i < new_params.len() ==> may_draw::<G::Reals>(
            range.0,
            range.1,
            #[trigger] new_params[i],
        )
    &&& drawn_from(e, n_variables, unary, binary)
    &&& tagged::<G>(before, after)
}

/// Whether each node that was appended has a tag that the genome gives to
/// nodes of its kind.
pub open spec fn tagged<G: Genome>(
    before: Seq<ExprNode<G::Tag>>,
    after: Seq<ExprNode<G::Tag>>,
) -> bool {
    forall|i: int|
        before.len() <= i < after.len() ==> call_ensures(
            G::get_tag_for_node,
            ((#[trigger] after[i]).kind,),
            after[i].tag,
        )
}

proof fn lemma_generated_leaf<G: Genome>(
    before: Seq<ExprNode<G::Tag>>,
    node: ExprNode<G::Tag>,
    id: NodeId,
    old_params: Seq<Scalar>,
    new_params: Seq<Scalar>,
    n_variables: u16,
    range: (Scalar, Scalar),
    unary: Seq<OperationId>,
    binary: Seq<OperationId>,
)
    requires
        before.len() <= usize::MAX,
        id.0 == before.len(),
        call_ensures(G::get_tag_for_node, (node.kind,), node.tag),
        match node.kind {
            NodeKind::Variable(var) => may_show(true) && picks_u16(n_variables, var.0)
                && new_params == old_params,
            NodeKind::Parameter(param) => {
                &&& n_variables > 0 ==> may_show(false)
                &&& param == ParameterId(low16(old_params.len()))
                &&& old_params.is_prefix_of(new_params)
                &&& new_params.len() == old_params.len() + 1
                &&& may_draw::<G::Reals>(range.0, range.1, new_params.last())
            },
            _ => false,
        },
    ensures
        generated::<G>(
            before,
            before.push(node),
            id,
            old_params,
            new_params,
            n_variables,
            range,
            unary,
            binary,
        ),
        expr_of(before.push(node), id).depth() == 0,
        expr_of(before.push(node), id).full(0),
{
    let after = before.push(node);
    lemma_expr_step(after, id);
    let e = expr_of(after, id);
    assert(after == before + e.copied(before.len()));
    assert(e.parameters() == fresh_slots(
        old_params.len(),
        (new_params.len() - old_params.len()) as nat,
    ));
}

proof fn lemma_generated_unary<G: Genome>(
    before: Seq<ExprNode<G::Tag>>,
    mid: Seq<ExprNode<G::Tag>>,
    node: ExprNode<G::Tag>,
    value: NodeId,
    id: NodeId,
    old_params: Seq<Scalar>,
    new_params: Seq<Scalar>,
    n_variables: u16,
    range: (Scalar, Scalar),
    unary: Seq<OperationId>,
    binary: Seq<OperationId>,
)
    requires
        mid.len() <= usize::MAX,
        generated::<G>(before, mid, value, old_params, new_params, n_variables, range, unary, binary),
        id.0 == mid.len(),
        call_ensures(G::get_tag_for_node, (node.kind,), node.tag),
        node.kind matches NodeKind::Unary { value: v, op } && v == value && picks_one(unary, op),
        binary.len() > 0 ==> may_show(false),
    ensures
        generated::<G>(before, mid.push(node), id, old_params, new_params, n_variables, range, unary, binary),
        expr_of(mid.push(node), id) matches Expr::Unary { value: x, .. } && *x == expr_of(
            mid,
            value,
        ),
{
    let after = mid.push(node);
    lemma_expr_extend(mid, after, value);
    lemma_expr_step(after, id);
    lemma_copied_len(expr_of(mid, value), before.len());
    assert(after == before + expr_of(after, id).copied(before.len()));
}

proof fn lemma_generated_binary<G: Genome>(
    before: Seq<ExprNode<G::Tag>>,
    mid: Seq<ExprNode<G::Tag>>,
    both: Seq<ExprNode<G::Tag>>,
    node: ExprNode<G::Tag>,
    left: NodeId,
    right: NodeId,
    id: NodeId,
    old_params: Seq<Scalar>,
    mid_params: Seq<Scalar>,
    new_params: Seq<Scalar>,
    n_variables: u16,
    range: (Scalar, Scalar),
    unary: Seq<OperationId>,
    binary: Seq<OperationId>,
)
    requires
        both.len() <= usize::MAX,
        generated::<G>(before, mid, left, old_params, mid_params, n_variables, range, unary, binary),
        generated::<G>(mid, both, right, mid_params, new_params, n_variables, range, unary, binary),
        id.0 == both.len(),
        call_ensures(G::get_tag_for_node, (node.kind,), node.tag),
        node.kind matches NodeKind::Binary { left: l, right: r, op } && l == left && r == right
            && picks_one(binary, op),
        unary.len() > 0 ==> may_show(true),
    ensures
        generated::<G>(before, both.push(node), id, old_params, new_params, n_variables, range, unary, binary),
        expr_of(both.push(node), id) matches Expr::Binary { left: l, right: r, .. } && *l
            == expr_of(mid, left) && *r == expr_of(both, right),
{
    let after = both.push(node);
    let base = before.len();
    lemma_expr_extend(mid, both, left);
    lemma_expr_extend(both, after, left);
    lemma_expr_extend(both, after, right);
    lemma_expr_step(after, id);
    let l = expr_of(mid, left);
    let r = expr_of(both, right);
    let e = expr_of(after, id);
    lemma_copied_len(l, base);
    lemma_copied_len(r, base + l.copied(base).len());
    assert(mid.len() == base + l.copied(base).len());
    assert(after == before + e.copied(base));
    assert(e.parameters() == fresh_slots(
        old_params.len(),
        (new_params.len() - old_params.len()) as nat,
    )) by {
        let first = fresh_slots(old_params.len(), (mid_params.len() - old_params.len()) as nat);
        let second = fresh_slots(mid_params.len(), (new_params.len() - mid_params.len()) as nat);
        assert(e.parameters() == first + second);
    }
    assert forall|i: int| old_params.len() <= i < new_params.len() implies may_draw::<G::Reals>(
        range.0,
        range.1,
        #[trigger] new_params[i],
    ) by {
        if i < mid_params.len() {
            assert(mid_params[i] == new_params[i]);
        }
    }
    assert(tagged::<G>(before, after)) by {
        assert forall|i: int| before.len() <= i < after.len() implies call_ensures(
            G::get_tag_for_node,
            ((#[trigger] after[i]).kind,),
            after[i].tag,
        ) by {
            if i < mid.len() {
                assert(after[i] == mid[i]);
            } else if i < both.len() {
                assert(after[i] == both[i]);
            }
        }
    }
}

/// A generated tree is made of appended nodes alone, and reads only parameters
/// that exist.
pub proof fn lemma_generated<G: Genome>(
    before: Seq<ExprNode<G::Tag>>,
    after: Seq<ExprNode<G::Tag>>,
    id: NodeId,
    old_params: Seq<Scalar>,
    new_params: Seq<Scalar>,
    n_variables: u16,
    range: (Scalar, Scalar),
    unary: Seq<OperationId>,
    binary: Seq<OperationId>,
)
    requires
        after.len() <= usize::MAX,
        generated::<G>(before, after, id, old_params, new_params, n_variables, range, unary, binary),
    ensures
        before.is_prefix_of(after),
        expr_of(after, id).ids_from(before.len()),
        expr_of(after, id).params_below(new_params.len()),
        after.len() == before.len() + expr_of(after, id).weight(),
{
    let e = expr_of(after, id);
    let list = e.copied(before.len());
    lemma_copied_len(e, before.len());
    assert forall|i: int| 0 <= i < list.len() implies after[before.len() + i].kind == (
    #[trigger] list[i]).kind && cloned(list[i].tag, after[before.len() + i].tag) by {}
    lemma_copied_alike(e, after, before.len());
    assert forall|i: int| 0 <= i < e.parameters().len() implies (#[trigger] e.parameters()[i]).0
        < new_params.len() by {
        let slot = old_params.len() + i;
        assert(e.parameters()[i] == ParameterId(low16(slot as nat)));
        assert(slot % 65536 <= slot);
    }
}

/// Where the identifiers of a table tell its operations apart, an expression
/// drawn from them can be evaluated on inputs and parameters that cover its
/// leaves.
pub proof fn lemma_drawn_evaluable<Tag>(
    e: Expr<Tag>,
    ops: &OperationTable,
    n_variables: u16,
    n_inputs: nat,
    n_params: nat,
)
    requires
        ops.addressable(),
        drawn_from(e, n_variables, ops.unary_ids(), ops.binary_ids()),
        n_variables <= n_inputs,
        e.params_below(n_params),
    ensures
        evaluable(e, ops.operations(), n_inputs, n_params),
    decreases e,
{
    lemma_params_below(e, n_params);
    match e {
        Expr::Unary { op, value, .. } => {
            lemma_picks_one(ops.unary_ids(), op);
            lemma_ids_with(ops.operations(), Arity::Unary, op);
            lemma_drawn_evaluable(*value, ops, n_variables, n_inputs, n_params);
        },
        Expr::Binary { op, left, right, .. } => {
            lemma_picks_one(ops.binary_ids(), op);
            lemma_ids_with(ops.operations(), Arity::Binary, op);
            lemma_drawn_evaluable(*left, ops, n_variables, n_inputs, n_params);
            lemma_drawn_evaluable(*right, ops, n_variables, n_inputs, n_params);
        },
        _ => {},
    }
}

/// Emits a read of `var`.
pub fn emit_variable<G: Genome, B: NodeBuilder<G>>(b: &mut B, var: VariableId) -> (id: NodeId)
    ensures
        id.0 == old(b).arena_ref().nodes().len(),
        final(b).arena_ref().nodes().len() == id.0 + 1,
        final(b).arena_ref().nodes().drop_last() == old(b).arena_ref().nodes(),
        final(b).arena_ref().nodes().last().kind == NodeKind::Variable(var),
        tagged::<G>(old(b).arena_ref().nodes(), final(b).arena_ref().nodes()),
        final(b).params() == old(b).params(),
        *final(final(b).arena_ref()) == *final(old(b).arena_ref()),
        *final(final(b).params_ref()) == *final(old(b).params_ref()),
        final(b).arena_ref().roots() == old(b).arena_ref().roots(),
        final(b).rng_ref() == old(b).rng_ref(),
        final(b).table() == old(b).table(),
        final(b).n_inputs() == old(b).n_inputs(),
        final(b).rest() == old(b).rest(),
{
    let kind = NodeKind::Variable(var);
    let tag = G::get_tag_for_node(kind);
    let id = b.emit(ExprNode::new(kind, tag));
    assert(b.arena_ref().nodes().drop_last() == old(b).arena_ref().nodes());
    id
}

/// Emits a constant: a read of a fresh parameter slot that holds `value`.
pub fn emit_constant<G: Genome, B: NodeBuilder<G>>(b: &mut B, value: Scalar) -> (id: NodeId)
    ensures
        id.0 == old(b).arena_ref().nodes().len(),
        final(b).arena_ref().nodes().len() == id.0 + 1,
        final(b).arena_ref().nodes().drop_last() == old(b).arena_ref().nodes(),
        final(b).arena_ref().nodes().last().kind == NodeKind::Parameter(
            ParameterId(low16(old(b).params().len())),
        ),
        tagged::<G>(old(b).arena_ref().nodes(), final(b).arena_ref().nodes()),
        final(b).params() == old(b).params().push(value),
        *final(final(b).arena_ref()) == *final(old(b).arena_ref()),
        *final(final(b).params_ref()) == *final(old(b).params_ref()),
        final(b).arena_ref().roots() == old(b).arena_ref().roots(),
        final(b).rng_ref() == old(b).rng_ref(),
        final(b).table() == old(b).table(),
        final(b).n_inputs() == old(b).n_inputs(),
        final(b).rest() == old(b).rest(),
{
    let param_id = b.new_parameter(value);
    let kind = NodeKind::Parameter(param_id);
    let tag = G::get_tag_for_node(kind);
    let id = b.emit(ExprNode::new(kind, tag));
    assert(b.arena_ref().nodes().drop_last() == old(b).arena_ref().nodes());
    id
}

/// Whether a draw from the generator may have given the terminal its variable
/// or, if it is a constant, its value.
pub open spec fn leaf_draw<G: Genome>(
    rng: &mut StdRng,
    e: Expr<G::Tag>,
    cfg: &TreeGenConfig,
    value: Scalar,
) -> bool {
    match e {
        Expr::Variable { var, .. } => may_pick(rng, cfg.n_variables, var.0),
        _ => call_ensures(G::Reals::uniform, (rng, cfg.const_range.0, cfg.const_range.1), value),
    }
}

/// Whether a terminal is a variable, given the number of variables and a
/// tossed coin: the coin decides where there are any, and a constant comes
/// where there are none.
pub fn choose_variable(n_variables: u16, coin: bool) -> (r: bool)
    ensures
        r == (n_variables > 0 && coin),
{
    n_variables > 0 && coin
}

/// Emits a random terminal: a variable or a new constant parameter.
pub fn emit_terminal<G: Genome, B: NodeBuilder<G>>(b: &mut B, cfg: &TreeGenConfig) -> (id: NodeId)
    requires
        cfg.drawable(),
    ensures
        generated::<G>(
            old(b).arena_ref().nodes(),
            final(b).arena_ref().nodes(),
            id,
            old(b).params(),
            final(b).params(),
            cfg.n_variables,
            cfg.const_range,
            old(b).table().unary_ids(),
            old(b).table().binary_ids(),
        ),
        expr_of(final(b).arena_ref().nodes(), id).depth() == 0,
        expr_of(final(b).arena_ref().nodes(), id).full(0),
        cfg.n_variables == 0 ==> expr_of(final(b).arena_ref().nodes(), id) is Parameter,
        cfg.n_variables > 0 ==> exists|first: &mut StdRng, second: &mut StdRng, coin: bool|
            {
                &&& *first == *old(b).rng_ref()
                &&& #[trigger] may_flip(first, coin)
                &&& coin == (expr_of(final(b).arena_ref().nodes(), id) is Variable)
                &&& *second == *final(first)
                &&& *final(second) == *final(b).rng_ref()
                &&& #[trigger] leaf_draw::<G>(
                    second,
                    expr_of(final(b).arena_ref().nodes(), id),
                    cfg,
                    final(b).params().last(),
                )
            },
        cfg.n_variables == 0 ==> exists|first: &mut StdRng|
            {
                &&& *first == *old(b).rng_ref()
                &&& *final(first) == *final(b).rng_ref()
                &&& #[trigger] leaf_draw::<G>(
                    first,
                    expr_of(final(b).arena_ref().nodes(), id),
                    cfg,
                    final(b).params().last(),
                )
            },
        *final(final(b).rng_ref()) == *final(old(b).rng_ref()),
        *final(final(b).arena_ref()) == *final(old(b).arena_ref()),
        *final(final(b).params_ref()) == *final(old(b).params_ref()),
        final(b).arena_ref().roots() == old(b).arena_ref().roots(),
        final(b).table() == old(b).table(),
        final(b).n_inputs() == old(b).n_inputs(),
        final(b).rest() == old(b).rest(),
{
    let ghost before = b.arena_ref().nodes();
    // 50/50 between a variable and a new constant parameter.
    let coin = cfg.n_variables > 0 && flip(b.rng());
    let id = if choose_variable(cfg.n_variables, coin) {
        let var = VariableId(pick_u16(b.rng(), cfg.n_variables));
        emit_variable(b, var)
    } else {
        let (lo, hi) = cfg.const_range;
        let value: Scalar = G::Reals::uniform(b.rng(), lo, hi);
        emit_constant(b, value)
    };
    proof {
        let after = b.arena_ref().nodes();
        assert(after == before.push(after.last()));
        assert(after[after.len() - 1] == after.last());
        lemma_generated_leaf::<G>(
            before,
            after.last(),
            id,
            old(b).params(),
            b.params(),
            cfg.n_variables,
            cfg.const_range,
            old(b).table().unary_ids(),
            old(b).table().binary_ids(),
        );
        lemma_expr_step(after, id);
        let e = expr_of(after, id);
        let value = b.params().last();
        if let Expr::Variable { var, .. } = e {
            assert forall|state: &mut StdRng| #[trigger]
                may_pick(state, cfg.n_variables, var.0) implies leaf_draw::<G>(
                state,
                e,
                cfg,
                value,
            ) by {}
        } else {
            assert forall|state: &mut StdRng| #[trigger]
                call_ensures(
                    G::Reals::uniform,
                    (state, cfg.const_range.0, cfg.const_range.1),
                    value,
                ) implies leaf_draw::<G>(state, e, cfg, value) by {}
        }
    }
    id
}

/// Whether to use a binary operator, given which arities have operators and a
/// tossed coin: the coin decides where both do, and `None` comes where none
/// does.
pub fn choose_arity(has_unary: bool, has_binary: bool, coin: bool) -> (r: Option<bool>)
    ensures
        r == if has_unary && has_binary {
            Some(coin)
        } else if has_unary || has_binary {
            Some(has_binary)
        } else {
            None
        },
{
    match (has_unary, has_binary) {
        (true, true) => Some(coin),
        (false, true) => Some(true),
        (true, false) => Some(false),
        (false, false) => None,
    }
}

/// Whether the root is an operator of an arity that has operators, and a
/// terminal where neither has.
pub open spec fn operator_root<Tag>(e: Expr<Tag>, has_unary: bool, has_binary: bool) -> bool {
    match e {
        Expr::Missing { .. } => false,
        Expr::Variable { .. } => !has_unary && !has_binary,
        Expr::Parameter { .. } => !has_unary && !has_binary,
        Expr::Unary { .. } => has_unary,
        Expr::Binary { .. } => has_binary,
    }
}

/// Whether a draw from the generator may have given the root its operator,
/// among all those of its arity.
pub open spec fn root_draw<Tag>(
    rng: &mut StdRng,
    e: Expr<Tag>,
    unary: Seq<OperationId>,
    binary: Seq<OperationId>,
) -> bool {
    match e {
        Expr::Unary { op, .. } => exists|idx: usize| #[trigger]
            may_pick_index(rng, unary.len(), idx) && idx < unary.len() && unary[idx as int] == op,
        Expr::Binary { op, .. } => exists|idx: usize| #[trigger]
            may_pick_index(rng, binary.len(), idx) && idx < binary.len() && binary[idx as int]
                == op,
        _ => false,
    }
}

/// Emits a random operator over generated operands; a terminal if no
/// operators are registered.
fn emit_operator<G: Genome, B: NodeBuilder<G>>(
    b: &mut B,
    cfg: &TreeGenConfig,
    method: TreeMethod,
    depth: usize,
) -> (id: NodeId)
    requires
        cfg.drawable(),
        depth > 0,
        method == TreeMethod::Grow ==> may_toss::<G::Reals>(cfg.p_terminal, false),
    ensures
        generated::<G>(
            old(b).arena_ref().nodes(),
            final(b).arena_ref().nodes(),
            id,
            old(b).params(),
            final(b).params(),
            cfg.n_variables,
            cfg.const_range,
            old(b).table().unary_ids(),
            old(b).table().binary_ids(),
        ),
        follows::<G>(
            expr_of(final(b).arena_ref().nodes(), id),
            cfg.p_terminal,
            method,
            depth as nat,
            old(b).table().unary_ids().len() + old(b).table().binary_ids().len() > 0,
        ),
        operator_root(
            expr_of(final(b).arena_ref().nodes(), id),
            old(b).table().unary_ids().len() > 0,
            old(b).table().binary_ids().len() > 0,
        ),
        old(b).table().unary_ids().len() + old(b).table().binary_ids().len() == 0
            ==> final(b).arena_ref().nodes().len() == old(b).arena_ref().nodes().len() + 1,
        old(b).table().unary_ids().len() > 0 && old(b).table().binary_ids().len() > 0
            ==> exists|first: &mut StdRng, second: &mut StdRng, coin: bool|
            {
                &&& *first == *old(b).rng_ref()
                &&& #[trigger] may_flip(first, coin)
                &&& coin == (expr_of(final(b).arena_ref().nodes(), id) is Binary)
                &&& *second == *final(first)
                &&& #[trigger] root_draw(
                    second,
                    expr_of(final(b).arena_ref().nodes(), id),
                    old(b).table().unary_ids(),
                    old(b).table().binary_ids(),
                )
            },
        (old(b).table().unary_ids().len() > 0) != (old(b).table().binary_ids().len() > 0)
            ==> exists|first: &mut StdRng|
            {
                &&& *first == *old(b).rng_ref()
                &&& #[trigger] root_draw(
                    first,
                    expr_of(final(b).arena_ref().nodes(), id),
                    old(b).table().unary_ids(),
                    old(b).table().binary_ids(),
                )
            },
        *final(final(b).rng_ref()) == *final(old(b).rng_ref()),
        *final(final(b).arena_ref()) == *final(old(b).arena_ref()),
        *final(final(b).params_ref()) == *final(old(b).params_ref()),
        final(b).arena_ref().roots() == old(b).arena_ref().roots(),
        final(b).table() == old(b).table(),
        final(b).n_inputs() == old(b).n_inputs(),
        final(b).rest() == old(b).rest(),
    decreases depth, 0nat,
{
    let ghost unary = b.table().unary_ids();
    let ghost binary = b.table().binary_ids();
    let has_unary = b.ops().iter_unary_ops().len() > 0;
    let has_binary = b.ops().iter_binary_ops().len() > 0;
    // Prefer binary if both are available (tends to generate interesting trees).
    let coin = has_unary && has_binary && flip(b.rng());
    let use_binary = match choose_arity(has_unary, has_binary, coin) {
        Some(use_binary) => use_binary,
        None => {
            return emit_terminal(b, cfg);
        },
    };
    if use_binary {
        let op = b.pick_random_binary_op();
        let left = gen_tree(b, cfg, method, depth - 1);
        let ghost mid = b.arena_ref().nodes();
        let ghost mid_params = b.params();
        let right = gen_tree(b, cfg, method, depth - 1);
        let ghost both = b.arena_ref().nodes();
        let kind = NodeKind::Binary { left, right, op };
        let tag = G::get_tag_for_node(kind);
        let id = b.emit(ExprNode::new(kind, tag));
        proof {
            lemma_generated_binary::<G>(
                old(b).arena_ref().nodes(),
                mid,
                both,
                b.arena_ref().nodes().last(),
                left,
                right,
                id,
                old(b).params(),
                mid_params,
                b.params(),
                cfg.n_variables,
                cfg.const_range,
                old(b).table().unary_ids(),
                old(b).table().binary_ids(),
            );
            let e = expr_of(b.arena_ref().nodes(), id);
            assert forall|state: &mut StdRng, idx: usize| #[trigger]
                may_pick_index(state, binary.len(), idx) && idx < binary.len() && binary[idx as int]
                    == op implies root_draw(state, e, unary, binary) by {}
        }
        id
    } else {
        let op = b.pick_random_unary_op();
        let value = gen_tree(b, cfg, method, depth - 1);
        let ghost mid = b.arena_ref().nodes();
        let kind = NodeKind::Unary { value, op };
        let tag = G::get_tag_for_node(kind);
        let id = b.emit(ExprNode::new(kind, tag));
        proof {
            lemma_generated_unary::<G>(
                old(b).arena_ref().nodes(),
                mid,
                b.arena_ref().nodes().last(),
                value,
                id,
                old(b).params(),
                b.params(),
                cfg.n_variables,
                cfg.const_range,
                old(b).table().unary_ids(),
                old(b).table().binary_ids(),
            );
            let e = expr_of(b.arena_ref().nodes(), id);
            assert forall|state: &mut StdRng, idx: usize| #[trigger]
                may_pick_index(state, unary.len(), idx) && idx < unary.len() && unary[idx as int]
                    == op implies root_draw(state, e, unary, binary) by {}
        }
        id
    }
}

/// Recursively generates a random tree into the builder, returning its root
/// `NodeId`.
///
/// For [`TreeMethod::Full`], an operator is emitted at every level until
/// `depth == 0`. For [`TreeMethod::Grow`], a terminal is emitted at `depth == 0`
/// or, at any non-zero depth, with probability `cfg.p_terminal`. Otherwise a
/// unary or binary operator is chosen and its children are generated recursively
/// at `depth - 1`.
pub fn gen_tree<G: Genome, B: NodeBuilder<G>>(
    b: &mut B,
    cfg: &TreeGenConfig,
    method: TreeMethod,
    depth: usize,
) -> (id: NodeId)
    requires
        cfg.drawable(),
    ensures
        generated::<G>(
            old(b).arena_ref().nodes(),
            final(b).arena_ref().nodes(),
            id,
            old(b).params(),
            final(b).params(),
            cfg.n_variables,
            cfg.const_range,
            old(b).table().unary_ids(),
            old(b).table().binary_ids(),
        ),
        follows::<G>(
            expr_of(final(b).arena_ref().nodes(), id),
            cfg.p_terminal,
            method,
            depth as nat,
            old(b).table().unary_ids().len() + old(b).table().binary_ids().len() > 0,
        ),
        depth > 0 && method == TreeMethod::Grow ==> exists|state: &mut StdRng, unit: Scalar|
            {
                &&& *state == *old(b).rng_ref()
                &&& #[trigger] call_ensures(G::Reals::unit, (state,), unit)
                &&& if less(unit, cfg.p_terminal) {
                    expr_of(final(b).arena_ref().nodes(), id).full(0)
                } else {
                    operator_root(
                        expr_of(final(b).arena_ref().nodes(), id),
                        old(b).table().unary_ids().len() > 0,
                        old(b).table().binary_ids().len() > 0,
                    )
                }
            },
        *final(final(b).rng_ref()) == *final(old(b).rng_ref()),
        *final(final(b).arena_ref()) == *final(old(b).arena_ref()),
        *final(final(b).params_ref()) == *final(old(b).params_ref()),
        final(b).arena_ref().roots() == old(b).arena_ref().roots(),
        final(b).table() == old(b).table(),
        final(b).n_inputs() == old(b).n_inputs(),
        final(b).rest() == old(b).rest(),
    decreases depth, 1nat,
{
    let should_be_terminal = depth == 0 || (method == TreeMethod::Grow && toss::<G::Reals>(
        b.rng(),
        cfg.p_terminal,
    ));
    if should_be_terminal {
        emit_terminal(b, cfg)
    } else {
        emit_operator(b, cfg, method, depth)
    }
}

/// Generates a random subtree using the `grow` method. Retained as a thin
/// wrapper over [`gen_tree`] for mutation call sites.
pub fn gen_subtree<G: Genome, B: NodeBuilder<G>>(
    b: &mut B,
    cfg: &GrowSubtreeConfig,
    depth: usize,
) -> (id: NodeId)
    requires
        cfg.tuning.drawable(),
    ensures
        generated::<G>(
            old(b).arena_ref().nodes(),
            final(b).arena_ref().nodes(),
            id,
            old(b).params(),
            final(b).params(),
            cfg.tuning.n_variables,
            cfg.tuning.const_range,
            old(b).table().unary_ids(),
            old(b).table().binary_ids(),
        ),
        follows::<G>(
            expr_of(final(b).arena_ref().nodes(), id),
            cfg.tuning.p_terminal,
            TreeMethod::Grow,
            depth as nat,
            old(b).table().unary_ids().len() + old(b).table().binary_ids().len() > 0,
        ),
        depth > 0 ==> exists|state: &mut StdRng, unit: Scalar|
            {
                &&& *state == *old(b).rng_ref()
                &&& #[trigger] call_ensures(G::Reals::unit, (state,), unit)
                &&& if less(unit, cfg.tuning.p_terminal) {
                    expr_of(final(b).arena_ref().nodes(), id).full(0)
                } else {
                    operator_root(
                        expr_of(final(b).arena_ref().nodes(), id),
                        old(b).table().unary_ids().len() > 0,
                        old(b).table().binary_ids().len() > 0,
                    )
                }
            },
        *final(final(b).rng_ref()) == *final(old(b).rng_ref()),
        *final(final(b).arena_ref()) == *final(old(b).arena_ref()),
        *final(final(b).params_ref()) == *final(old(b).params_ref()),
        final(b).arena_ref().roots() == old(b).arena_ref().roots(),
        final(b).table() == old(b).table(),
        final(b).n_inputs() == old(b).n_inputs(),
        final(b).rest() == old(b).rest(),
{
    gen_tree(b, &cfg.tuning, TreeMethod::Grow, depth)
}

/// What a generator puts at each place of a tree. By the `full` method all
/// leaves stand at the given depth. By the `grow` method a leaf may stand above
/// it only where a draw below `p_terminal` ended the branch, and an operator
/// only where one was not. Nothing stands below the given depth, and without
/// operators there is nothing but a leaf.
pub proof fn lemma_places<G: Genome>(
    e: Expr<G::Tag>,
    p_terminal: Scalar,
    method: TreeMethod,
    depth: nat,
    operators: bool,
    path: Seq<bool>,
)
    requires
        follows::<G>(e, p_terminal, method, depth, operators),
        part_at(e, path) is Some,
    ensures
        path.len() <= depth,
        !operators ==> path.len() == 0,
        match part_at(e, path)->0 {
            Expr::Missing { .. } => false,
            Expr::Variable { .. } | Expr::Parameter { .. } => operators && path.len() < depth ==> {
                &&& method == TreeMethod::Grow
                &&& exists|rng: &mut StdRng, unit: Scalar| #[trigger]
                    call_ensures(G::Reals::unit, (rng,), unit) && less(unit, p_terminal)
            },
            Expr::Unary { .. } | Expr::Binary { .. } => {
                &&& operators
                &&& path.len() < depth
                &&& method == TreeMethod::Grow ==> exists|rng: &mut StdRng, unit: Scalar|
                    #[trigger] call_ensures(G::Reals::unit, (rng,), unit) && !less(
                        unit,
                        p_terminal,
                    )
            },
        },
    decreases path.len(),
{
    if path.len() > 0 {
        let rest = path.drop_first();
        let below = (depth - 1) as nat;
        match e {
            Expr::Unary { value, .. } => {
                lemma_places::<G>(*value, p_terminal, method, below, operators, rest);
            },
            Expr::Binary { left, right, .. } => {
                let x = if path[0] {
                    *right
                } else {
                    *left
                };
                lemma_places::<G>(x, p_terminal, method, below, operators, rest);
            },
            _ => {},
        }
    }
}

/// What a generated tree is made of at each place: a variable that was drawn
/// among the first `n_variables`, a constant of a slot that was not there
/// before, with a value drawn from the range, or an operator that was drawn
/// among all those of its arity. Coins tell variables from constants where
/// there are variables, and the arities apart where there are operators of
/// both. Where the slots can all be named, the constants read the new slots one
/// after the other, from left to right.
pub proof fn lemma_parts<G: Genome>(
    before: Seq<ExprNode<G::Tag>>,
    after: Seq<ExprNode<G::Tag>>,
    id: NodeId,
    old_params: Seq<Scalar>,
    new_params: Seq<Scalar>,
    n_variables: u16,
    range: (Scalar, Scalar),
    unary: Seq<OperationId>,
    binary: Seq<OperationId>,
    path: Seq<bool>,
    slot: int,
)
    requires
        generated::<G>(before, after, id, old_params, new_params, n_variables, range, unary, binary),
        part_at(expr_of(after, id), path) is Some,
    ensures
        new_params.take(old_params.len() as int) == old_params,
        expr_of(after, id).parameters().len() == new_params.len() - old_params.len(),
        new_params.len() <= 0x1_0000 && old_params.len() <= slot < new_params.len()
            ==> expr_of(after, id).parameters()[slot - old_params.len()].0 == slot,
        old_params.len() <= slot < new_params.len() ==> exists|rng: &mut StdRng| #[trigger]
            call_ensures(G::Reals::uniform, (rng, range.0, range.1), new_params[slot]),
        match part_at(expr_of(after, id), path)->0 {
            Expr::Missing { .. } => false,
            Expr::Variable { var, .. } => {
                &&& var.0 < n_variables
                &&& exists|rng: &mut StdRng| #[trigger] may_pick(rng, n_variables, var.0)
                &&& exists|rng: &mut StdRng| #[trigger] may_flip(rng, true)
            },
            Expr::Parameter { param, .. } => {
                &&& n_variables > 0 ==> exists|rng: &mut StdRng| #[trigger] may_flip(rng, false)
                &&& expr_of(after, id).parameters().contains(param)
                &&& new_params.len() <= 0x1_0000 ==> old_params.len() <= param.0 < new_params.len()
            },
            Expr::Unary { op, .. } => exists|rng: &mut StdRng, i: usize|
                i < unary.len() && op == unary[i as int] && #[trigger] may_pick_index(
                    rng,
                    unary.len(),
                    i,
                ),
            Expr::Binary { op, .. } => exists|rng: &mut StdRng, i: usize|
                i < binary.len() && op == binary[i as int] && #[trigger] may_pick_index(
                    rng,
                    binary.len(),
                    i,
                ),
        },
        part_at(expr_of(after, id), path)->0 is Unary && binary.len() > 0
            ==> exists|rng: &mut StdRng| #[trigger] may_flip(rng, false),
        part_at(expr_of(after, id), path)->0 is Binary && unary.len() > 0
            ==> exists|rng: &mut StdRng| #[trigger] may_flip(rng, true),
{
    let e = expr_of(after, id);
    if old_params.len() <= slot < new_params.len() {
        assert(may_draw::<G::Reals>(range.0, range.1, new_params[slot]));
        if new_params.len() <= 0x1_0000 {
            assert(slot % 65536 == slot) by (nonlinear_arith)
                requires
                    0 <= slot < 65536,
            ;
        }
    }
    lemma_drawn_part(e, n_variables, unary, binary, path);
    let x = part_at(e, path)->0;
    if let Expr::Parameter { param, .. } = x {
        let k = e.parameters().index_of(param);
        assert(e.parameters()[k] == param);
        let own = (old_params.len() + k) as nat;
        assert(param == ParameterId(low16(own)));
        if new_params.len() <= 0x1_0000 {
            assert(own % 65536 == own) by (nonlinear_arith)
                requires
                    0 <= own < 65536,
            ;
        }
    }
    if let Expr::Unary { op, .. } = x {
        lemma_picked(unary, op);
    }
    if let Expr::Binary { op, .. } = x {
        lemma_picked(binary, op);
    }
}

/// What was picked was picked by a draw among the positions of all.
pub proof fn lemma_picked(all: Seq<OperationId>, op: OperationId)
    requires
        picks_one(all, op),
    ensures
        exists|rng: &mut StdRng, i: usize|
            i < all.len() && op == all[i as int] && #[trigger] may_pick_index(rng, all.len(), i),
{
    let k = choose|k: int| #[trigger] picks_index(all.len(), k) && all[k] == op;
    let rng = choose|rng: &mut StdRng| #[trigger] may_pick_index(rng, all.len(), k as usize);
    assert(may_pick_index(rng, all.len(), k as usize));
}

/// A part of a drawn tree is drawn, and its parameters are among the tree's.
proof fn lemma_drawn_part<Tag>(
    e: Expr<Tag>,
    n_variables: u16,
    unary: Seq<OperationId>,
    binary: Seq<OperationId>,
    path: Seq<bool>,
)
    requires
        drawn_from(e, n_variables, unary, binary),
        part_at(e, path) is Some,
    ensures
        drawn_from(part_at(e, path)->0, n_variables, unary, binary),
        part_at(e, path)->0 matches Expr::Parameter { param, .. } ==> e.parameters().contains(param),
    decreases path.len(),
{
    if path.len() > 0 {
        let rest = path.drop_first();
        match e {
            Expr::Unary { value, .. } => {
                lemma_drawn_part(*value, n_variables, unary, binary, rest);
            },
            Expr::Binary { left, right, .. } => {
                let (l, r) = (left.parameters(), right.parameters());
                if path[0] {
                    lemma_drawn_part(*right, n_variables, unary, binary, rest);
                } else {
                    lemma_drawn_part(*left, n_variables, unary, binary, rest);
                }
                if let Expr::Parameter { param, .. } = part_at(e, path)->0 {
                    vstd::seq_lib::lemma_seq_concat_contains_all_elements(l, r, param);
                }
            },
            _ => {},
        }
    } else if let Expr::Parameter { param, .. } = e {
        assert(e.parameters()[0] == param);
    }
}

} // verus!
