use std::sync::atomic::{AtomicU32, Ordering};

use expreon::array::{Buffer, Matrix};
use expreon::ast::{ExprArena, ExprNode};
use expreon::cached::{CachedEvalContext, EvalCache};
use expreon::eval::EvalContext;
use expreon::ops::{Arity, Operation, OperationTable, OperationTableBuilder};
use expreon::types::{NodeId, OperationId, ParameterId, Scalar, VariableId};
use expreon::vectorized::{EvalBufferStack, VectorizedEvalContext};

fn float(x: Scalar) -> f32 {
    f32::from_bits(x)
}

fn bits(values: &[f32]) -> Vec<Scalar> {
    values.iter().map(|x| x.to_bits()).collect()
}

/// A one-dimensional array.
fn arr1(values: &[f32]) -> Buffer {
    Buffer::from_vec(bits(values))
}

/// A two-dimensional array of `N` columns.
fn arr2<const N: usize>(rows: &[[f32; N]]) -> Matrix {
    let items: Vec<f32> = rows.iter().flat_map(|r| r.iter().copied()).collect();
    Matrix::from_shape_vec(rows.len(), N, bits(&items)).unwrap()
}

fn floats(buffer: &Buffer) -> Vec<f32> {
    (0..buffer.len()).map(|i| float(buffer.get(i))).collect()
}

struct Add;
impl Operation for Add {
    const NAME: &'static str = "add";
    const ID: &'static str = "add";
    const ARITY: Arity = Arity::Binary;
    fn forward(input: &[Scalar]) -> Scalar {
        (float(input[0]) + float(input[1])).to_bits()
    }
}

struct Neg;
impl Operation for Neg {
    const NAME: &'static str = "neg";
    const ID: &'static str = "neg";
    const ARITY: Arity = Arity::Unary;
    fn forward(input: &[Scalar]) -> Scalar {
        (-float(input[0])).to_bits()
    }
}

fn build_ops_test_table() -> OperationTable {
    let mut b = OperationTableBuilder::new();
    b.register::<Add>();
    b.register::<Neg>();
    b.build()
}

#[test]
fn test_eval_parameter() {
    let mut arena: ExprArena<()> = ExprArena::new();
    let ops = build_ops_test_table();

    let p = arena.add(ExprNode::new_parameter(ParameterId::from(1), ()));
    let ctx = EvalContext::new(&arena, &ops);

    assert_eq!(float(ctx.eval(p, &arr1(&[]), &arr1(&[10.0, 42.0]))), 42.0);
}

#[test]
fn test_eval_variable() {
    let mut arena: ExprArena<()> = ExprArena::new();
    let ops = build_ops_test_table();

    let v = arena.add(ExprNode::new_variable(VariableId::from(0), ()));
    let ctx = EvalContext::new(&arena, &ops);
    assert_eq!(float(ctx.eval(v, &arr1(&[7.0]), &arr1(&[]))), 7.0);
}

#[test]
fn test_eval_binary_add() {
    let mut arena: ExprArena<()> = ExprArena::new();
    let ops = build_ops_test_table();

    let a = arena.add(ExprNode::new_parameter(ParameterId::from(0), ()));
    let b = arena.add(ExprNode::new_parameter(ParameterId::from(1), ()));
    let add = arena.add(ExprNode::new_binary(a, b, OperationId::from(0), ()));

    let ctx = EvalContext::new(&arena, &ops);

    assert_eq!(float(ctx.eval(add, &arr1(&[]), &arr1(&[3.0, 4.0]))), 7.0);
}

#[test]
fn test_eval_unary_neg() {
    let mut arena: ExprArena<()> = ExprArena::new();
    let v = arena.add(ExprNode::new_variable(VariableId::from(0), ()));
    let neg = arena.add(ExprNode::new_unary(v, OperationId::from(1), ()));

    let ops = build_ops_test_table();
    let ctx = EvalContext::new(&arena, &ops);
    assert_eq!(float(ctx.eval(neg, &arr1(&[5.0]), &arr1(&[]))), -5.0);
}

#[test]
fn test_eval_sum_five_variables() {
    let mut arena: ExprArena<()> = ExprArena::new();
    let ops = build_ops_test_table();

    let vars: Vec<NodeId> = (0..5)
        .map(|i| arena.add(ExprNode::new_variable(VariableId::from(i), ())))
        .collect();

    let sum = vars[1..].iter().fold(vars[0], |acc, &v| {
        arena.add(ExprNode::new_binary(acc, v, OperationId::from(0), ()))
    });

    let ctx = EvalContext::new(&arena, &ops);
    assert_eq!(
        float(ctx.eval(sum, &arr1(&[1.0, 2.0, 3.0, 4.0, 5.0]), &arr1(&[]))),
        15.0
    );
}

#[test]
fn eval_test_eval_batch_variable() {
    let mut arena: ExprArena<()> = ExprArena::new();
    let ops = build_ops_test_table();

    let v = arena.add(ExprNode::new_variable(VariableId::from(1), ()));
    let ctx = EvalContext::new(&arena, &ops);

    // 3 samples, 2 variables each; we read variable index 1
    let inputs = arr2(&[[1.0, 10.0], [2.0, 20.0], [3.0, 30.0]]);
    let params = arr2(&[[], [], []]);
    let result = ctx.eval_batch(v, &inputs, &params);

    assert_eq!(floats(&result), vec![10.0, 20.0, 30.0]);
}

#[test]
fn test_eval_batch_parameter() {
    let mut arena: ExprArena<()> = ExprArena::new();
    let ops = build_ops_test_table();

    let p = arena.add(ExprNode::new_parameter(ParameterId::from(0), ()));
    let ctx = EvalContext::new(&arena, &ops);

    // 3 samples, each with its own parameter value
    let inputs = arr2(&[[], [], []]);
    let params = arr2(&[[5.0], [6.0], [7.0]]);
    let result = ctx.eval_batch(p, &inputs, &params);

    assert_eq!(floats(&result), vec![5.0, 6.0, 7.0]);
}

#[test]
fn eval_test_eval_batch_binary_add() {
    let mut arena: ExprArena<()> = ExprArena::new();
    let ops = build_ops_test_table();

    let var = arena.add(ExprNode::new_variable(VariableId::from(0), ()));
    let param = arena.add(ExprNode::new_parameter(ParameterId::from(0), ()));
    let add = arena.add(ExprNode::new_binary(var, param, OperationId::from(0), ()));

    let ctx = EvalContext::new(&arena, &ops);

    // 3 samples: var=1,2,3 + param=10,20,30 -> 11,22,33
    let inputs = arr2(&[[1.0], [2.0], [3.0]]);
    let params = arr2(&[[10.0], [20.0], [30.0]]);
    let result = ctx.eval_batch(add, &inputs, &params);

    assert_eq!(floats(&result), vec![11.0, 22.0, 33.0]);
}

#[test]
fn vectorized_test_eval_batch_variable() {
    let mut arena: ExprArena<()> = ExprArena::new();
    let ops = build_ops_test_table();

    let v = arena.add(ExprNode::new_variable(VariableId::from(1), ()));
    let ctx = VectorizedEvalContext::new(&arena, &ops);
    let mut stack = EvalBufferStack::new(3);

    let inputs = arr2(&[[1.0, 10.0], [2.0, 20.0], [3.0, 30.0]]);
    let result = ctx.eval_batch(v, &inputs, &[], &mut stack);

    assert_eq!(floats(&result), vec![10.0, 20.0, 30.0]);
}

#[test]
fn test_eval_batch_parameter_broadcasts_across_samples() {
    let mut arena: ExprArena<()> = ExprArena::new();
    let ops = build_ops_test_table();

    let p = arena.add(ExprNode::new_parameter(ParameterId::from(0), ()));
    let ctx = VectorizedEvalContext::new(&arena, &ops);
    let mut stack = EvalBufferStack::new(3);

    let inputs = arr2(&[[], [], []]);
    let result = ctx.eval_batch(p, &inputs, &bits(&[5.0]), &mut stack);

    assert_eq!(floats(&result), vec![5.0, 5.0, 5.0]);
}

#[test]
fn test_eval_batch_unary_neg() {
    let mut arena: ExprArena<()> = ExprArena::new();
    let ops = build_ops_test_table();

    let v = arena.add(ExprNode::new_variable(VariableId::from(0), ()));
    let neg = arena.add(ExprNode::new_unary(v, OperationId::from(1), ()));

    let ctx = VectorizedEvalContext::new(&arena, &ops);
    let mut stack = EvalBufferStack::new(3);

    let inputs = arr2(&[[1.0], [2.0], [3.0]]);
    let result = ctx.eval_batch(neg, &inputs, &[], &mut stack);

    assert_eq!(floats(&result), vec![-1.0, -2.0, -3.0]);
}

#[test]
fn vectorized_test_eval_batch_binary_add() {
    let mut arena: ExprArena<()> = ExprArena::new();
    let ops = build_ops_test_table();

    let var = arena.add(ExprNode::new_variable(VariableId::from(0), ()));
    let param = arena.add(ExprNode::new_parameter(ParameterId::from(0), ()));
    let add = arena.add(ExprNode::new_binary(var, param, OperationId::from(0), ()));

    let ctx = VectorizedEvalContext::new(&arena, &ops);
    let mut stack = EvalBufferStack::new(3);

    // 3 samples: var=1,2,3 + the broadcast param (10) -> 11,12,13
    let inputs = arr2(&[[1.0], [2.0], [3.0]]);
    let result = ctx.eval_batch(add, &inputs, &bits(&[10.0]), &mut stack);

    assert_eq!(floats(&result), vec![11.0, 12.0, 13.0]);
}

/// `neg(var0 + param0) + param1`.
fn build_nested(arena: &mut ExprArena<()>) -> NodeId {
    let var = arena.add(ExprNode::new_variable(VariableId::from(0), ()));
    let p0 = arena.add(ExprNode::new_parameter(ParameterId::from(0), ()));
    let p1 = arena.add(ExprNode::new_parameter(ParameterId::from(1), ()));
    let add1 = arena.add(ExprNode::new_binary(var, p0, OperationId::from(0), ()));
    let neg = arena.add(ExprNode::new_unary(add1, OperationId::from(1), ()));
    arena.add(ExprNode::new_binary(neg, p1, OperationId::from(0), ()))
}

/// Cross-checks the vectorized path against the scalar
/// `EvalContext::eval_batch` on a deeper nested expression:
/// `neg(var0 + param0) + param1`.
#[test]
fn vectorized_matches_scalar_eval_batch_on_nested_expr() {
    let mut arena: ExprArena<()> = ExprArena::new();
    let ops = build_ops_test_table();
    let root = build_nested(&mut arena);

    let inputs = arr2(&[[1.0], [2.0], [3.0], [4.0]]);
    let params = [10.0, 100.0];

    let scalar_ctx = EvalContext::new(&arena, &ops);
    let expected = scalar_ctx.eval_batch(root, &inputs, &arr2(&[params; 4]));

    let vec_ctx = VectorizedEvalContext::new(&arena, &ops);
    let mut stack = EvalBufferStack::new(4);
    let actual = vec_ctx.eval_batch(root, &inputs, &bits(&params), &mut stack);

    assert_eq!(floats(&actual), floats(&expected));
    assert_eq!(floats(&actual), vec![89.0, 88.0, 87.0, 86.0]);
}

/// Cross-checks the vectorized path against the scalar
/// `EvalContext::eval_batch` on a parameter-free tree.
#[test]
fn eval_batch_agrees_on_parameter_free_tree() {
    let mut arena: ExprArena<()> = ExprArena::new();
    let ops = build_ops_test_table();

    let var = arena.add(ExprNode::new_variable(VariableId::from(0), ()));
    let root = arena.add(ExprNode::new_unary(var, OperationId::from(1), ()));

    let inputs = arr2(&[[1.0], [2.0], [3.0]]);

    let scalar_ctx = EvalContext::new(&arena, &ops);
    let expected = scalar_ctx.eval_batch(root, &inputs, &arr2(&[[], [], []]));

    let vec_ctx = VectorizedEvalContext::new(&arena, &ops);
    let mut stack = EvalBufferStack::new(3);
    let actual = vec_ctx.eval_batch(root, &inputs, &[], &mut stack);

    assert_eq!(floats(&actual), floats(&expected));
}

/// One stack must serve batches of different sizes correctly, e.g. training
/// data and a differently-sized test set, without the caller needing a second
/// stack. A buffer reclaimed at one length is only ever handed back out at
/// that same length.
#[test]
fn one_stack_serves_multiple_batch_sizes() {
    let mut stack = EvalBufferStack::new(3);

    let a = stack.acquire(3);
    let b = stack.acquire(5);
    assert_eq!(a.len(), 3);
    assert_eq!(b.len(), 5);
    stack.reclaim(a);
    stack.reclaim(b);

    // Both a length-3 and a length-5 buffer are idle in the pool at once.
    assert_eq!(stack.len(), 2);

    // Each is served back out at its own length, not the other's.
    assert_eq!(stack.acquire(3).len(), 3);
    assert_eq!(stack.acquire(5).len(), 5);
    // Both were taken from the pool (now empty), not freshly allocated.
    assert_eq!(stack.len(), 0);
}

/// A vectorized evaluation still produces correct results when run through a
/// stack that has already served a different batch size.
#[test]
fn eval_batch_correct_after_stack_served_another_batch_size() {
    let mut arena: ExprArena<()> = ExprArena::new();
    let ops = build_ops_test_table();

    let var = arena.add(ExprNode::new_variable(VariableId::from(0), ()));
    let param = arena.add(ExprNode::new_parameter(ParameterId::from(0), ()));
    let add = arena.add(ExprNode::new_binary(var, param, OperationId::from(0), ()));

    let ctx = VectorizedEvalContext::new(&arena, &ops);
    let mut stack = EvalBufferStack::new(3);

    let inputs3 = arr2(&[[1.0], [2.0], [3.0]]);
    let result3 = ctx.eval_batch(add, &inputs3, &bits(&[10.0]), &mut stack);
    assert_eq!(floats(&result3), vec![11.0, 12.0, 13.0]);
    stack.reclaim(result3);

    let inputs5 = arr2(&[[1.0], [2.0], [3.0], [4.0], [5.0]]);
    let result5 = ctx.eval_batch(add, &inputs5, &bits(&[10.0]), &mut stack);
    assert_eq!(floats(&result5), vec![11.0, 12.0, 13.0, 14.0, 15.0]);
    stack.reclaim(result5);
}

/// Running several evaluations through the same stack, reclaiming each result
/// buffer before the next call, must keep producing correct results (proving
/// recycled buffers are fully overwritten, not stale) and must not keep
/// growing the number of allocated buffers.
#[test]
fn buffer_reuse_is_correct_and_bounded() {
    let mut arena: ExprArena<()> = ExprArena::new();
    let ops = build_ops_test_table();

    let var = arena.add(ExprNode::new_variable(VariableId::from(0), ()));
    let param = arena.add(ExprNode::new_parameter(ParameterId::from(0), ()));
    let add = arena.add(ExprNode::new_binary(var, param, OperationId::from(0), ()));

    let ctx = VectorizedEvalContext::new(&arena, &ops);
    let mut stack = EvalBufferStack::new(2);

    for i in 0..10 {
        let x = i as f32;
        let inputs = arr2(&[[x], [x + 1.0]]);
        let result = ctx.eval_batch(add, &inputs, &bits(&[100.0]), &mut stack);
        assert_eq!(floats(&result), vec![x + 100.0, x + 101.0]);
        stack.reclaim(result);
    }

    // Two leaf reads + one add output = at most 3 live buffers per call;
    // the pool must stabilize instead of growing every iteration.
    assert!(
        stack.len() <= 3,
        "expected bounded pool, got {}",
        stack.len()
    );
}

#[test]
fn the_pool_grows_to_what_the_expression_needs() {
    let mut arena: ExprArena<()> = ExprArena::new();
    let ops = build_ops_test_table();
    let root = build_nested(&mut arena);
    let ctx = VectorizedEvalContext::new(&arena, &ops);
    let mut stack = EvalBufferStack::new(2);
    assert!(stack.is_empty());
    assert_eq!(stack.batch_size(), 2);

    let inputs = arr2(&[[1.0], [2.0]]);
    for _ in 0..3 {
        let result = ctx.eval_batch(root, &inputs, &bits(&[1.0, 2.0]), &mut stack);
        stack.reclaim(result);
        // Both operands and the sum of the inner addition; the outer one
        // needs no more.
        assert_eq!(stack.len(), 3);
    }
}

#[test]
fn cached_matches_vectorized_with_cache_everything_policy() {
    let mut arena: ExprArena<()> = ExprArena::new();
    let ops = build_ops_test_table();
    let root = build_nested(&mut arena);

    let inputs = arr2(&[[1.0], [2.0], [3.0], [4.0]]);
    let params = bits(&[10.0, 100.0]);

    let vec_ctx = VectorizedEvalContext::new(&arena, &ops);
    let mut vec_stack = EvalBufferStack::new(4);
    let expected = vec_ctx.eval_batch(root, &inputs, &params, &mut vec_stack);

    let cached_ctx = CachedEvalContext::new(&arena, &ops, |_: NodeId, _: &ExprNode<()>| true);
    let mut cache = EvalCache::new(4);
    let mut stack = EvalBufferStack::new(4);
    let actual = cached_ctx.eval_batch(root, &inputs, &params, &mut cache, &mut stack);

    assert_eq!(floats(&actual), floats(&expected));
    // Every node in the tree should have been cached.
    assert_eq!(cache.len(), arena.node_count(root));
}

#[test]
fn cached_matches_vectorized_with_cache_nothing_policy() {
    let mut arena: ExprArena<()> = ExprArena::new();
    let ops = build_ops_test_table();
    let root = build_nested(&mut arena);

    let inputs = arr2(&[[1.0], [2.0], [3.0], [4.0]]);
    let params = bits(&[10.0, 100.0]);

    let vec_ctx = VectorizedEvalContext::new(&arena, &ops);
    let mut vec_stack = EvalBufferStack::new(4);
    let expected = vec_ctx.eval_batch(root, &inputs, &params, &mut vec_stack);

    let cached_ctx = CachedEvalContext::new(&arena, &ops, |_: NodeId, _: &ExprNode<()>| false);
    let mut cache = EvalCache::new(4);
    let mut stack = EvalBufferStack::new(4);
    let actual = cached_ctx.eval_batch(root, &inputs, &params, &mut cache, &mut stack);

    assert_eq!(floats(&actual), floats(&expected));
    assert!(cache.is_empty());
}

#[test]
fn a_cached_node_is_answered_whatever_the_arena_holds() {
    let ops = build_ops_test_table();
    let inputs = arr2(&[[1.0], [2.0]]);
    let mut cache = EvalCache::new(2);
    let mut stack = EvalBufferStack::new(2);

    let mut plain: ExprArena<()> = ExprArena::new();
    let id = plain.add(ExprNode::new_variable(VariableId::from(0), ()));
    let first = CachedEvalContext::new(&plain, &ops, |_: NodeId, _: &ExprNode<()>| true);
    first.eval_batch(id, &inputs, &[], &mut cache, &mut stack);
    assert_eq!(cache.len(), 1);

    // The same identifier, on a cycle.
    let mut cyclic: ExprArena<()> = ExprArena::new();
    assert_eq!(cyclic.add(ExprNode::new_unary(id, OperationId::from(0), ())), id);
    let second = CachedEvalContext::new(&cyclic, &ops, |_: NodeId, _: &ExprNode<()>| {
        panic!("a cached node is not asked about")
    });
    let r = second.eval_batch(id, &inputs, &[], &mut cache, &mut stack);
    assert_eq!(floats(&r), vec![1.0, 2.0]);
    assert_eq!(cache.len(), 1);
}

static CALLS: AtomicU32 = AtomicU32::new(0);

struct CountingNeg;
impl Operation for CountingNeg {
    const NAME: &'static str = "counting_neg";
    const ID: &'static str = "counting_neg";
    const ARITY: Arity = Arity::Unary;
    fn forward(input: &[Scalar]) -> Scalar {
        (-float(input[0])).to_bits()
    }
    fn vectorized_forward(inputs: &[&Buffer], out: &mut Buffer) {
        CALLS.fetch_add(1, Ordering::SeqCst);
        out.assign(&inputs[0].mapv(|x| (-float(x)).to_bits()));
    }
}

#[test]
fn cached_subtree_is_evaluated_once_across_two_root_evaluations() {
    let mut b = OperationTableBuilder::new();
    b.register::<Add>();
    b.register::<CountingNeg>();
    let ops = b.build();

    let mut arena: ExprArena<()> = ExprArena::new();
    let var = arena.add(ExprNode::new_variable(VariableId::from(0), ()));
    // The cached node: neg(var0).
    let neg = arena.add(ExprNode::new_unary(var, OperationId::from(1), ()));
    let p0 = arena.add(ExprNode::new_parameter(ParameterId::from(0), ()));
    let p1 = arena.add(ExprNode::new_parameter(ParameterId::from(1), ()));
    let root1 = arena.add(ExprNode::new_binary(neg, p0, OperationId::from(0), ()));
    let root2 = arena.add(ExprNode::new_binary(neg, p1, OperationId::from(0), ()));

    let cached_ctx =
        CachedEvalContext::new(&arena, &ops, |id: NodeId, _: &ExprNode<()>| id == neg);
    let mut cache = EvalCache::new(3);
    let mut stack = EvalBufferStack::new(3);

    let inputs = arr2(&[[1.0], [2.0], [3.0]]);
    let params = bits(&[10.0, 20.0]);
    let r1 = cached_ctx.eval_batch(root1, &inputs, &params, &mut cache, &mut stack);
    assert_eq!(floats(&r1), vec![9.0, 8.0, 7.0]);
    stack.reclaim(r1);

    let r2 = cached_ctx.eval_batch(root2, &inputs, &params, &mut cache, &mut stack);
    assert_eq!(floats(&r2), vec![19.0, 18.0, 17.0]);
    stack.reclaim(r2);

    // `neg` was cached after the first evaluation, so the second root
    // evaluation must have reused it instead of calling the op again.
    assert_eq!(CALLS.load(Ordering::SeqCst), 1);
}

#[test]
fn stale_cache_returns_old_value_after_parameter_change() {
    let mut arena: ExprArena<()> = ExprArena::new();
    let ops = build_ops_test_table();
    let p0 = arena.add(ExprNode::new_parameter(ParameterId::from(0), ()));

    let cached_ctx = CachedEvalContext::new(&arena, &ops, |_: NodeId, _: &ExprNode<()>| true);
    let mut cache = EvalCache::new(2);
    let mut stack = EvalBufferStack::new(2);
    let inputs = arr2(&[[], []]);

    let r1 = cached_ctx.eval_batch(p0, &inputs, &bits(&[5.0]), &mut cache, &mut stack);
    assert_eq!(floats(&r1), vec![5.0, 5.0]);
    stack.reclaim(r1);

    // Parameter changed, but the cache is not told: it must keep serving
    // the stale value until explicitly cleared. This pins the documented
    // contract in `EvalCache`.
    let r2 = cached_ctx.eval_batch(p0, &inputs, &bits(&[99.0]), &mut cache, &mut stack);
    assert_eq!(floats(&r2), vec![5.0, 5.0]);
    stack.reclaim(r2);

    cache.clear();
    let r3 = cached_ctx.eval_batch(p0, &inputs, &bits(&[99.0]), &mut cache, &mut stack);
    assert_eq!(floats(&r3), vec![99.0, 99.0]);
    stack.reclaim(r3);
}

#[test]
fn changing_batch_size_auto_clears_the_cache() {
    let mut arena: ExprArena<()> = ExprArena::new();
    let ops = build_ops_test_table();
    let var = arena.add(ExprNode::new_variable(VariableId::from(0), ()));

    let cached_ctx = CachedEvalContext::new(&arena, &ops, |_: NodeId, _: &ExprNode<()>| true);
    let mut cache = EvalCache::new(3);
    let mut stack = EvalBufferStack::new(3);

    let inputs3 = arr2(&[[1.0], [2.0], [3.0]]);
    let r1 = cached_ctx.eval_batch(var, &inputs3, &[], &mut cache, &mut stack);
    assert_eq!(floats(&r1), vec![1.0, 2.0, 3.0]);
    stack.reclaim(r1);
    assert_eq!(cache.len(), 1);

    let inputs5 = arr2(&[[1.0], [2.0], [3.0], [4.0], [5.0]]);
    let r2 = cached_ctx.eval_batch(var, &inputs5, &[], &mut cache, &mut stack);
    assert_eq!(floats(&r2), vec![1.0, 2.0, 3.0, 4.0, 5.0]);
    stack.reclaim(r2);
    // Re-populated for the new batch size, not stale from size 3.
    assert_eq!(cache.len(), 1);
    assert_eq!(cache.batch_size(), 5);
}

#[test]
fn cached_results_can_be_looked_up() {
    let mut arena: ExprArena<()> = ExprArena::new();
    let ops = build_ops_test_table();
    let var = arena.add(ExprNode::new_variable(VariableId::from(0), ()));
    let neg = arena.add(ExprNode::new_unary(var, OperationId::from(1), ()));

    let ctx = CachedEvalContext::new(&arena, &ops, |id: NodeId, _: &ExprNode<()>| id == neg);
    let mut cache = EvalCache::new(2);
    let mut stack = EvalBufferStack::new(2);
    let result = ctx.eval_batch(neg, &arr2(&[[1.0], [2.0]]), &[], &mut cache, &mut stack);
    assert_eq!(floats(&result), vec![-1.0, -2.0]);
    assert_eq!(floats(cache.get(neg).unwrap()), vec![-1.0, -2.0]);
    assert!(cache.get(var).is_none());
    cache.clear();
    assert!(cache.get(neg).is_none());
}

#[test]
fn buffers_hold_what_was_written() {
    let mut buffer = Buffer::zeros(3);
    assert_eq!(floats(&buffer), vec![0.0, 0.0, 0.0]);
    buffer.set(1, 2.5f32.to_bits());
    assert_eq!(floats(&buffer), vec![0.0, 2.5, 0.0]);
    let copy = buffer.clone();
    buffer.fill((-1.0f32).to_bits());
    assert_eq!(floats(&buffer), vec![-1.0, -1.0, -1.0]);
    assert_eq!(floats(&copy), vec![0.0, 2.5, 0.0]);
    buffer.assign(&copy);
    assert_eq!(floats(&buffer), vec![0.0, 2.5, 0.0]);
    let sum = buffer.zip_map(&copy, |a, b| (float(*a) + float(*b)).to_bits());
    assert_eq!(floats(&sum), vec![0.0, 5.0, 0.0]);
}

#[test]
fn matrices_are_filled_row_by_row() {
    let matrix = Matrix::from_shape_vec(2, 3, bits(&[1.0, 2.0, 3.0, 4.0, 5.0, 6.0])).unwrap();
    assert_eq!(matrix.nrows(), 2);
    assert_eq!(matrix.ncols(), 3);
    assert_eq!(float(matrix.get(1, 0)), 4.0);
    assert_eq!(floats(&matrix.column(2)), vec![3.0, 6.0]);
    let mut buffer = Buffer::zeros(2);
    buffer.assign_column(&matrix, 1);
    assert_eq!(floats(&buffer), vec![2.0, 5.0]);

    assert!(Matrix::from_shape_vec(2, 3, bits(&[1.0, 2.0])).is_none());
    assert!(Matrix::from_shape_vec(0, usize::MAX, Vec::new()).is_none());
    assert_eq!(Matrix::from_shape_vec(0, 4, Vec::new()).unwrap().ncols(), 4);
}
