use std::f32::consts::{E, FRAC_PI_2, FRAC_PI_4, PI};

use expreon::array::Buffer;
use expreon::ops::{Arity, Operation, OperationSet, OperationTable, OperationTableBuilder};
use expreon::types::{OperationId, Scalar};

fn float(x: Scalar) -> f32 {
    f32::from_bits(x)
}

fn bits(values: &[f32]) -> Vec<Scalar> {
    values.iter().map(|x| x.to_bits()).collect()
}

struct TestAdd;

impl Operation for TestAdd {
    const NAME: &'static str = "add";
    const ID: &'static str = "test_add";
    const ARITY: Arity = Arity::Binary;

    fn forward(input: &[Scalar]) -> Scalar {
        (float(input[0]) + float(input[1])).to_bits()
    }
}

struct TestOpSet;

impl OperationSet for TestOpSet {
    fn register(op: &mut OperationTableBuilder) {
        op.register::<TestAdd>();
    }
}

#[test]
fn mod_test_op_set_builder_works() {
    let mut builder = OperationTableBuilder::new();
    builder.register::<TestAdd>();

    assert_eq!(builder.len(), 1);
    assert!(builder.contains("test_add"));
}

#[test]
fn mod_test_registering_operation_set() {
    let mut builder = OperationTableBuilder::new();
    builder.register_set::<TestOpSet>();

    assert_eq!(builder.len(), 1);
    assert!(builder.contains("test_add"));
}

#[test]
fn forward_vectorized_default_matches_forward_elementwise() {
    let mut b = OperationTableBuilder::new();
    b.register::<TestAdd>();
    let table = b.build();

    let meta = table.lookup::<TestAdd>().unwrap();

    let lhs = Buffer::from_vec(bits(&[1.0, 2.0, 3.0]));
    let rhs = Buffer::from_vec(bits(&[10.0, 20.0, 30.0]));
    let mut out = Buffer::zeros(3);

    meta.call_vectorized(&[&lhs, &rhs], &mut out);

    let expected = bits(&[11.0, 22.0, 33.0]);
    assert_eq!(out.len(), 3);
    for i in 0..3 {
        assert_eq!(out.get(i), expected[i]);
        assert_eq!(out.get(i), meta.call(&[lhs.get(i), rhs.get(i)]));
    }
}

struct Add;
impl Operation for Add {
    const NAME: &'static str = "add";
    const ID: &'static str = "add";
    const ARITY: Arity = Arity::Binary;
    fn forward(i: &[Scalar]) -> Scalar {
        (float(i[0]) + float(i[1])).to_bits()
    }
}

struct Sub;
impl Operation for Sub {
    const NAME: &'static str = "sub";
    const ID: &'static str = "sub";
    const ARITY: Arity = Arity::Binary;
    fn forward(i: &[Scalar]) -> Scalar {
        (float(i[0]) - float(i[1])).to_bits()
    }
}

struct Mul;
impl Operation for Mul {
    const NAME: &'static str = "mul";
    const ID: &'static str = "mul";
    const ARITY: Arity = Arity::Binary;
    fn forward(i: &[Scalar]) -> Scalar {
        (float(i[0]) * float(i[1])).to_bits()
    }
}

struct Div;
impl Operation for Div {
    const NAME: &'static str = "div";
    const ID: &'static str = "div";
    const ARITY: Arity = Arity::Binary;
    fn forward(i: &[Scalar]) -> Scalar {
        (float(i[0]) / float(i[1])).to_bits()
    }
}

struct Sin;
impl Operation for Sin {
    const NAME: &'static str = "sin";
    const ID: &'static str = "sin";
    const ARITY: Arity = Arity::Unary;
    fn forward(i: &[Scalar]) -> Scalar {
        float(i[0]).sin().to_bits()
    }
}

struct Cos;
impl Operation for Cos {
    const NAME: &'static str = "cos";
    const ID: &'static str = "cos";
    const ARITY: Arity = Arity::Unary;
    fn forward(i: &[Scalar]) -> Scalar {
        float(i[0]).cos().to_bits()
    }
}

struct Tan;
impl Operation for Tan {
    const NAME: &'static str = "tan";
    const ID: &'static str = "tan";
    const ARITY: Arity = Arity::Unary;
    fn forward(i: &[Scalar]) -> Scalar {
        float(i[0]).tan().to_bits()
    }
}

struct Exp;
impl Operation for Exp {
    const NAME: &'static str = "exp";
    const ID: &'static str = "exp";
    const ARITY: Arity = Arity::Unary;
    fn forward(i: &[Scalar]) -> Scalar {
        float(i[0]).exp().to_bits()
    }
}

struct Ln;
impl Operation for Ln {
    const NAME: &'static str = "ln";
    const ID: &'static str = "ln";
    const ARITY: Arity = Arity::Unary;
    fn forward(i: &[Scalar]) -> Scalar {
        float(i[0]).ln().to_bits()
    }
}

struct Log2;
impl Operation for Log2 {
    const NAME: &'static str = "log2";
    const ID: &'static str = "log2";
    const ARITY: Arity = Arity::Unary;
    fn forward(i: &[Scalar]) -> Scalar {
        float(i[0]).log2().to_bits()
    }
}

struct Log10;
impl Operation for Log10 {
    const NAME: &'static str = "log10";
    const ID: &'static str = "log10";
    const ARITY: Arity = Arity::Unary;
    fn forward(i: &[Scalar]) -> Scalar {
        float(i[0]).log10().to_bits()
    }
}

struct MathBaseOps;

impl OperationSet for MathBaseOps {
    fn register(op: &mut OperationTableBuilder) {
        op.register::<Add>();
        op.register::<Sub>();
        op.register::<Mul>();
        op.register::<Div>();
    }
}

struct MathTrigOps;

impl OperationSet for MathTrigOps {
    fn register(op: &mut OperationTableBuilder) {
        op.register::<Sin>();
        op.register::<Cos>();
        op.register::<Tan>();
    }
}

struct MathExpLogOps;

impl OperationSet for MathExpLogOps {
    fn register(op: &mut OperationTableBuilder) {
        op.register::<Exp>();
        op.register::<Ln>();
        op.register::<Log2>();
        op.register::<Log10>();
    }
}

fn math_ops() -> OperationTable {
    let mut b = OperationTableBuilder::new();
    b.register_set::<MathBaseOps>();
    b.build()
}

fn trig_ops() -> OperationTable {
    let mut b = OperationTableBuilder::new();
    b.register_set::<MathTrigOps>();
    b.build()
}

fn explog_ops() -> OperationTable {
    let mut b = OperationTableBuilder::new();
    b.register_set::<MathExpLogOps>();
    b.build()
}

fn call<Op: Operation>(ops: &OperationTable, args: &[f32]) -> f32 {
    float(ops.lookup::<Op>().unwrap().call(&bits(args)))
}

#[test]
fn test_add() {
    let ops = math_ops();
    assert_eq!(call::<Add>(&ops, &[3.0, 4.0]), 7.0);
    assert_eq!(call::<Add>(&ops, &[-1.0, 1.0]), 0.0);
    assert_eq!(call::<Add>(&ops, &[0.0, 0.0]), 0.0);
}

#[test]
fn test_sub() {
    let ops = math_ops();
    assert_eq!(call::<Sub>(&ops, &[10.0, 3.0]), 7.0);
    assert_eq!(call::<Sub>(&ops, &[3.0, 10.0]), -7.0);
    assert_eq!(call::<Sub>(&ops, &[5.0, 5.0]), 0.0);
}

#[test]
fn test_mul() {
    let ops = math_ops();
    assert_eq!(call::<Mul>(&ops, &[3.0, 4.0]), 12.0);
    assert_eq!(call::<Mul>(&ops, &[-2.0, 5.0]), -10.0);
    assert_eq!(call::<Mul>(&ops, &[0.0, 99.0]), 0.0);
}

#[test]
fn test_div() {
    let ops = math_ops();
    assert_eq!(call::<Div>(&ops, &[10.0, 2.0]), 5.0);
    assert_eq!(call::<Div>(&ops, &[1.0, 4.0]), 0.25);
    assert_eq!(call::<Div>(&ops, &[0.0, 5.0]), 0.0);
}

#[test]
fn test_sin() {
    let ops = trig_ops();
    assert!(call::<Sin>(&ops, &[0.0]).abs() < 1e-6);
    assert!((call::<Sin>(&ops, &[FRAC_PI_2]) - 1.0).abs() < 1e-6);
    assert!(call::<Sin>(&ops, &[PI]).abs() < 1e-6);
}

#[test]
fn test_cos() {
    let ops = trig_ops();
    assert!((call::<Cos>(&ops, &[0.0]) - 1.0).abs() < 1e-6);
    assert!(call::<Cos>(&ops, &[FRAC_PI_2]).abs() < 1e-6);
    assert!((call::<Cos>(&ops, &[PI]) + 1.0).abs() < 1e-6);
}

#[test]
fn test_tan() {
    let ops = trig_ops();
    assert!(call::<Tan>(&ops, &[0.0]).abs() < 1e-6);
    assert!((call::<Tan>(&ops, &[FRAC_PI_4]) - 1.0).abs() < 1e-6);
    assert!((call::<Tan>(&ops, &[-FRAC_PI_4]) + 1.0).abs() < 1e-6);
}

#[test]
fn test_exp() {
    let ops = explog_ops();
    assert!((call::<Exp>(&ops, &[0.0]) - 1.0).abs() < 1e-6);
    assert!((call::<Exp>(&ops, &[1.0]) - E).abs() < 1e-6);
    assert!((call::<Exp>(&ops, &[-1.0]) - 1.0 / E).abs() < 1e-6);
}

#[test]
fn test_ln() {
    let ops = explog_ops();
    assert!(call::<Ln>(&ops, &[1.0]).abs() < 1e-6);
    assert!((call::<Ln>(&ops, &[E]) - 1.0).abs() < 1e-6);
    assert!((call::<Ln>(&ops, &[E * E]) - 2.0).abs() < 1e-6);
}

#[test]
fn test_log2() {
    let ops = explog_ops();
    assert!(call::<Log2>(&ops, &[1.0]).abs() < 1e-6);
    assert!((call::<Log2>(&ops, &[2.0]) - 1.0).abs() < 1e-6);
    assert!((call::<Log2>(&ops, &[8.0]) - 3.0).abs() < 1e-6);
}

#[test]
fn test_log10() {
    let ops = explog_ops();
    assert!(call::<Log10>(&ops, &[1.0]).abs() < 1e-6);
    assert!((call::<Log10>(&ops, &[10.0]) - 1.0).abs() < 1e-6);
    assert!((call::<Log10>(&ops, &[100.0]) - 2.0).abs() < 1e-6);
}

#[test]
fn ids_follow_the_order_of_registration() {
    let mut b = OperationTableBuilder::new();
    b.register_set::<MathBaseOps>();
    b.register_set::<MathTrigOps>();
    b.register::<TestAdd>();
    let ops = b.build();

    assert_eq!(ops.get_id_for_op::<Add>(), Some(OperationId(0)));
    assert_eq!(ops.get_id_for_op::<Div>(), Some(OperationId(3)));
    assert_eq!(ops.get_id_for_op::<Tan>(), Some(OperationId(6)));
    assert_eq!(ops.get_id_for_op::<TestAdd>(), Some(OperationId(7)));
    assert_eq!(ops.get_id_for_op::<Exp>(), None);
    assert!(ops.lookup::<Exp>().is_none());

    assert_eq!(
        ops.iter_unary_ops(),
        &[OperationId(4), OperationId(5), OperationId(6)]
    );
    assert_eq!(
        ops.iter_binary_ops(),
        &[OperationId(0), OperationId(1), OperationId(2), OperationId(3), OperationId(7)]
    );
}

#[test]
fn metadata_is_found_by_id() {
    let ops = math_ops();
    let meta = ops.lookup_by_id(OperationId(1)).unwrap();
    assert_eq!(meta.name, "sub");
    assert_eq!(meta.id, "sub");
    assert_eq!(meta.arity, Arity::Binary);
    assert!(ops.lookup_by_id(OperationId(4)).is_none());
}

struct Doubled;
impl Operation for Doubled {
    const NAME: &'static str = "doubled";
    const ID: &'static str = "doubled";
    const ARITY: Arity = Arity::Unary;
    fn forward(i: &[Scalar]) -> Scalar {
        (float(i[0]) * 2.0).to_bits()
    }
    fn vectorized_forward(inputs: &[&Buffer], out: &mut Buffer) {
        out.assign(&inputs[0].mapv(|x| (float(x) * 2.0).to_bits()));
    }
}

#[test]
fn an_overridden_kernel_takes_the_place_of_the_default() {
    let mut b = OperationTableBuilder::new();
    b.register::<Doubled>();
    let ops = b.build();
    let input = Buffer::from_vec(bits(&[1.5, -4.0]));
    let mut out = Buffer::zeros(2);
    ops.lookup::<Doubled>().unwrap().call_vectorized(&[&input], &mut out);
    assert_eq!(float(out.get(0)), 3.0);
    assert_eq!(float(out.get(1)), -8.0);
}
