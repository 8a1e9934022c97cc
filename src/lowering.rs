//! The decisions that code generation makes for a graph, independent of
//! the backend: where each buffer and parameter sits in the arguments of
//! the generated function, and how each stage's loops nest.

use vstd::prelude::*;
use crate::ast::{name_views, Access, Comparison, Definition, Func, Var, VarExpr};
use crate::graph::Graph;
use crate::processor::{
    copy_names, div_value, eval, find_name, lemma_position_range, pixel_actions, position, reads, y_outer,
    Scene,
};
use crate::trace::{Action, TraceId};

verus! {

/// One instruction of lowered code. Operands name the results of earlier
/// instructions by their index; every value is an `i32`.
#[derive(Debug, Clone, Copy, PartialEq, Eq, Structural)]
pub enum Op {
    Const(i32),
    /// The current `x`.
    X,
    /// The current `y`.
    Y,
    /// The parameter with this index.
    Param(usize),
    /// Wrapping addition.
    Add(usize, usize),
    /// Wrapping subtraction.
    Sub(usize, usize),
    /// Wrapping multiplication.
    Mul(usize, usize),
    /// Signed division.
    SDiv(usize, usize),
    /// The pixel of `buffer` at `(x, y)`, zero-extended and reported as a
    /// read, when that lies inside the buffer; 0 otherwise.
    LoadChecked { buffer: usize, x: usize, y: usize },
    /// `t` when `l` and `r` stand in relation `cmp` (signed), else `f`.
    Select { cmp: Comparison, l: usize, r: usize, t: usize, f: usize },
}

impl VarExpr {
    /// The number of nodes.
    pub open spec fn size(self) -> nat
        decreases self,
    {
        match self {
            VarExpr::Add(l, r) => 1 + l.size() + r.size(),
            VarExpr::Sub(l, r) => 1 + l.size() + r.size(),
            VarExpr::Mul(l, r) => 1 + l.size() + r.size(),
            _ => 1,
        }
    }
}

impl Definition {
    /// The number of nodes, coordinate expressions included.
    pub open spec fn size(self) -> nat
        decreases self,
    {
        match self {
            Definition::Access(a) => 1 + a.x.size() + a.y.size(),
            Definition::Cond(c) => 1 + c.lhs.size() + c.rhs.size() + c.if_true.size() + c.if_false.size(),
            Definition::Add(l, r) => 1 + l.size() + r.size(),
            Definition::Sub(l, r) => 1 + l.size() + r.size(),
            Definition::Mul(l, r) => 1 + l.size() + r.size(),
            Definition::Div(l, r) => 1 + l.size() + r.size(),
            _ => 1,
        }
    }
}

/// The value of the pixel of buffer `b` at `(px, py)`, or 0 outside it.
pub open spec fn load_value(scene: Scene, b: usize, px: i32, py: i32) -> i32 {
    if b < scene.images.len() && scene.images[b as int].contains(px as int, py as int) {
        scene.images[b as int].pixel(px as int, py as int) as i32
    } else {
        0
    }
}

/// The value of `op`, given the values of the instructions before it.
pub open spec fn op_value(op: Op, prior: Seq<i32>, scene: Scene, x: i32, y: i32) -> i32 {
    match op {
        Op::Const(c) => c,
        Op::X => x,
        Op::Y => y,
        Op::Param(j) => if j < scene.param_values.len() {
            scene.param_values[j as int]
        } else {
            0
        },
        Op::Add(a, b) => prior[a as int].wrapping_add(prior[b as int]),
        Op::Sub(a, b) => prior[a as int].wrapping_sub(prior[b as int]),
        Op::Mul(a, b) => prior[a as int].wrapping_mul(prior[b as int]),
        Op::SDiv(a, b) => div_value(prior[a as int], prior[b as int]),
        Op::LoadChecked { buffer, x: a, y: b } => load_value(scene, buffer, prior[a as int], prior[b as int]),
        Op::Select { cmp, l, r, t, f } => if cmp.holds(prior[l as int], prior[r as int]) {
            prior[t as int]
        } else {
            prior[f as int]
        },
    }
}

/// The read that `op` reports, if any.
pub open spec fn op_reads(op: Op, prior: Seq<i32>, scene: Scene) -> Seq<Action> {
    match op {
        Op::LoadChecked { buffer, x: a, y: b } => {
            let (px, py) = (prior[a as int], prior[b as int]);
            if buffer < scene.images.len() && scene.images[buffer as int].contains(px as int, py as int) {
                seq![Action::Read(TraceId(buffer), px as usize, py as usize)]
            } else {
                seq![]
            }
        },
        _ => seq![],
    }
}

/// The values of all instructions of `ops`, run in order at `(x, y)`.
pub open spec fn op_values(ops: Seq<Op>, scene: Scene, x: i32, y: i32) -> Seq<i32>
    decreases ops.len(),
{
    if ops.len() == 0 {
        seq![]
    } else {
        let prior = op_values(ops.drop_last(), scene, x, y);
        prior.push(op_value(ops.last(), prior, scene, x, y))
    }
}

/// The reads that running `ops` at `(x, y)` reports, in order.
pub open spec fn op_trace(ops: Seq<Op>, scene: Scene, x: i32, y: i32) -> Seq<Action>
    decreases ops.len(),
{
    if ops.len() == 0 {
        seq![]
    } else {
        op_trace(ops.drop_last(), scene, x, y) + op_reads(ops.last(), op_values(ops.drop_last(), scene, x, y), scene)
    }
}

proof fn lemma_values_len(ops: Seq<Op>, scene: Scene, x: i32, y: i32)
    ensures
        op_values(ops, scene, x, y).len() == ops.len(),
    decreases ops.len(),
{
    if ops.len() > 0 {
        lemma_values_len(ops.drop_last(), scene, x, y);
    }
}

/// Running more instructions does not change the values of earlier ones.
proof fn lemma_values_prefix(ops: Seq<Op>, n: int, i: int, scene: Scene, x: i32, y: i32)
    requires
        0 <= i < n <= ops.len(),
    ensures
        op_values(ops, scene, x, y)[i] == op_values(ops.take(n), scene, x, y)[i],
    decreases ops.len(),
{
    lemma_values_len(ops, scene, x, y);
    if n < ops.len() {
        lemma_values_len(ops.drop_last(), scene, x, y);
        assert(ops.drop_last().take(n) =~= ops.take(n));
        lemma_values_prefix(ops.drop_last(), n, i, scene, x, y);
    } else {
        assert(ops.take(n) =~= ops);
    }
}

/// Appends `op` and returns its index.
fn emit(ops: &mut Vec<Op>, op: Op) -> (r: usize)
    requires
        old(ops)@.len() < usize::MAX,
    ensures
        final(ops)@ == old(ops)@.push(op),
        r == old(ops)@.len(),
        forall|scene: Scene, x: i32, y: i32|
            #![trigger op_values(final(ops)@, scene, x, y)]
            {
                &&& op_values(final(ops)@, scene, x, y) == op_values(old(ops)@, scene, x, y).push(
                    op_value(op, op_values(old(ops)@, scene, x, y), scene, x, y),
                )
                &&& op_trace(final(ops)@, scene, x, y) == op_trace(old(ops)@, scene, x, y) + op_reads(
                    op,
                    op_values(old(ops)@, scene, x, y),
                    scene,
                )
                &&& op_values(final(ops)@, scene, x, y)[r as int] == op_value(
                    op,
                    op_values(old(ops)@, scene, x, y),
                    scene,
                    x,
                    y,
                )
            },
{
    let r = ops.len();
    ops.push(op);
    assert(ops@.drop_last() =~= old(ops)@);
    assert forall|scene: Scene, x: i32, y: i32| #[trigger]
        op_values(ops@, scene, x, y)[r as int] == op_value(op, op_values(old(ops)@, scene, x, y), scene, x, y) by {
        lemma_values_len(old(ops)@, scene, x, y);
    }
    r
}

/// `new` extends `old`, and the values of `old`'s instructions stay.
pub open spec fn extends(new: Seq<Op>, old: Seq<Op>) -> bool {
    old.len() <= new.len() && new.take(old.len() as int) == old
}

proof fn lemma_extends_value(new: Seq<Op>, old: Seq<Op>, i: int, scene: Scene, x: i32, y: i32)
    requires
        extends(new, old),
        0 <= i < old.len(),
    ensures
        op_values(new, scene, x, y)[i] == op_values(old, scene, x, y)[i],
{
    lemma_values_prefix(new, old.len() as int, i, scene, x, y);
}

/// Instruction `r` of `new` holds the value of `e` at every `(x, y)`, and
/// the instructions added to `old` read nothing.
pub open spec fn var_lowered(e: VarExpr, old: Seq<Op>, new: Seq<Op>, r: int) -> bool {
    forall|scene: Scene, x: i32, y: i32|
        #![trigger op_values(new, scene, x, y)]
        op_values(new, scene, x, y)[r] == e.value(x, y) && op_trace(new, scene, x, y) == op_trace(old, scene, x, y)
}

/// Lowers a coordinate expression; it reads nothing.
pub fn lower_var_expr(e: &VarExpr, ops: &mut Vec<Op>) -> (r: usize)
    requires
        old(ops)@.len() + e.size() < usize::MAX,
    ensures
        extends(final(ops)@, old(ops)@),
        final(ops)@.len() <= old(ops)@.len() + e.size(),
        r < final(ops)@.len(),
        var_lowered(*e, old(ops)@, final(ops)@, r as int),
    decreases e, 1nat,
{
    let ghost start = ops@;
    match e {
        VarExpr::Var(Var::X) => {
            let r = emit(ops, Op::X);
            proof {
                lemma_emit_extends(start, Op::X);
                assert forall|scene: Scene, x: i32, y: i32|
                    #![trigger op_values(ops@, scene, x, y)]
                    op_values(ops@, scene, x, y)[r as int] == e.value(x, y) && op_trace(ops@, scene, x, y)
                        == op_trace(start, scene, x, y) by {
                    assert(op_values(ops@, scene, x, y)[r as int] == op_value(Op::X, op_values(start, scene, x, y), scene, x, y));
                    assert(op_trace(ops@, scene, x, y) =~= op_trace(start, scene, x, y));
                }
            }
            r
        },
        VarExpr::Var(Var::Y) => {
            let r = emit(ops, Op::Y);
            proof {
                lemma_emit_extends(start, Op::Y);
                assert forall|scene: Scene, x: i32, y: i32|
                    #![trigger op_values(ops@, scene, x, y)]
                    op_values(ops@, scene, x, y)[r as int] == e.value(x, y) && op_trace(ops@, scene, x, y)
                        == op_trace(start, scene, x, y) by {
                    assert(op_values(ops@, scene, x, y)[r as int] == op_value(Op::Y, op_values(start, scene, x, y), scene, x, y));
                    assert(op_trace(ops@, scene, x, y) =~= op_trace(start, scene, x, y));
                }
            }
            r
        },
        VarExpr::Const(c) => {
            let r = emit(ops, Op::Const(*c));
            proof {
                lemma_emit_extends(start, Op::Const(*c));
                assert forall|scene: Scene, x: i32, y: i32|
                    #![trigger op_values(ops@, scene, x, y)]
                    op_values(ops@, scene, x, y)[r as int] == e.value(x, y) && op_trace(ops@, scene, x, y)
                        == op_trace(start, scene, x, y) by {
                    assert(op_values(ops@, scene, x, y)[r as int] == op_value(Op::Const(*c), op_values(start, scene, x, y), scene, x, y));
                    assert(op_trace(ops@, scene, x, y) =~= op_trace(start, scene, x, y));
                }
            }
            r
        },
        _ => lower_var_binary(e, ops),
    }
}

fn lower_var_binary(e: &VarExpr, ops: &mut Vec<Op>) -> (r: usize)
    requires
        !(e is Var || e is Const),
        old(ops)@.len() + e.size() < usize::MAX,
    ensures
        extends(final(ops)@, old(ops)@),
        final(ops)@.len() <= old(ops)@.len() + e.size(),
        r < final(ops)@.len(),
        var_lowered(*e, old(ops)@, final(ops)@, r as int),
    decreases e, 0nat,
{
    let ghost start = ops@;
    match e {
        VarExpr::Add(l, rt) | VarExpr::Sub(l, rt) | VarExpr::Mul(l, rt) => {
            let a = lower_var_expr(l, ops);
            let ghost mid = ops@;
            let b = lower_var_expr(rt, ops);
            let ghost before = ops@;
            let op = match e {
                VarExpr::Add(_, _) => Op::Add(a, b),
                VarExpr::Sub(_, _) => Op::Sub(a, b),
                _ => Op::Mul(a, b),
            };
            let r = emit(ops, op);
            proof {
                lemma_emit_extends(before, op);
                lemma_extends_trans(ops@, before, mid);
                lemma_extends_trans(ops@, mid, start);
                assert forall|scene: Scene, x: i32, y: i32|
                    #![trigger op_values(ops@, scene, x, y)]
                    op_values(ops@, scene, x, y)[r as int] == e.value(x, y) && op_trace(ops@, scene, x, y)
                        == op_trace(start, scene, x, y) by {
                    lemma_values_len(mid, scene, x, y);
                    lemma_values_len(before, scene, x, y);
                    assert(op_values(mid, scene, x, y)[a as int] == l.value(x, y));
                    lemma_extends_value(before, mid, a as int, scene, x, y);
                    assert(op_values(before, scene, x, y)[a as int] == l.value(x, y));
                    assert(op_values(before, scene, x, y)[b as int] == rt.value(x, y));
                    assert(op_values(ops@, scene, x, y)[r as int] == op_value(op, op_values(before, scene, x, y), scene, x, y));
                    assert(op_trace(ops@, scene, x, y) =~= op_trace(start, scene, x, y));
                }
                assert(var_lowered(*e, start, ops@, r as int));
            }
            r
        },
        VarExpr::Var(_) | VarExpr::Const(_) => {
            proof {
                assert(false);
            }
            0
        },
    }
}

proof fn lemma_emit_extends(old: Seq<Op>, op: Op)
    ensures
        extends(old.push(op), old),
{
    assert(old.push(op).take(old.len() as int) =~= old);
}

proof fn lemma_extends_trans(a: Seq<Op>, b: Seq<Op>, c: Seq<Op>)
    requires
        extends(a, b),
        extends(b, c),
    ensures
        extends(a, c),
{
    assert(a.take(c.len() as int) =~= b.take(c.len() as int));
}

/// `scene` names its buffers and parameters as the lists lowering used.
pub open spec fn scene_matches(scene: Scene, names: Seq<String>, params: Seq<String>) -> bool {
    scene.names == name_views(names) && scene.param_names == name_views(params)
}

/// The semantics of lowered definition code: at every `(x, y)`, in every
/// scene whose buffers and parameters are named as `names` and `params`,
/// instruction `r` of `new` holds the value of `d`, and the instructions
/// added to `old` report exactly the reads of `d`, in order.
pub open spec fn lowers(d: Definition, names: Seq<String>, params: Seq<String>, old: Seq<Op>, new: Seq<Op>, r: int) -> bool {
    &&& extends(new, old)
    &&& 0 <= r < new.len()
    &&& forall|scene: Scene, x: i32, y: i32|
        #![trigger op_values(new, scene, x, y)]
        scene_matches(scene, names, params) ==> op_values(new, scene, x, y)[r] == eval(d, scene, x, y)
            && op_trace(new, scene, x, y) == op_trace(old, scene, x, y) + reads(d, scene, x, y)
}

/// The value at `i` of `old`'s code stays in `new`'s.
proof fn lemma_kept(new: Seq<Op>, old: Seq<Op>, i: int)
    requires
        extends(new, old),
        0 <= i < old.len(),
    ensures
        forall|scene: Scene, x: i32, y: i32|
            #![trigger op_values(new, scene, x, y)]
            op_values(new, scene, x, y)[i] == op_values(old, scene, x, y)[i],
{
    assert forall|scene: Scene, x: i32, y: i32|
        #![trigger op_values(new, scene, x, y)]
        op_values(new, scene, x, y)[i] == op_values(old, scene, x, y)[i] by {
        lemma_extends_value(new, old, i, scene, x, y);
    }
}

fn lower_access(a: &Access, names: &Vec<String>, params: &Vec<String>, ops: &mut Vec<Op>) -> (r: usize)
    requires
        old(ops)@.len() + Definition::Access(*a).size() < usize::MAX,
    ensures
        lowers(Definition::Access(*a), names@, params@, old(ops)@, final(ops)@, r as int),
        final(ops)@.len() <= old(ops)@.len() + Definition::Access(*a).size(),
{
    let ghost start = ops@;
    let ix = lower_var_expr(&a.x, ops);
    let ghost m1 = ops@;
    let iy = lower_var_expr(&a.y, ops);
    let ghost m2 = ops@;
    let k = find_name(names, &a.source);
    proof {
        lemma_position_range(name_views(names@), a.source@);
    }
    let op = if k < names.len() {
        Op::LoadChecked { buffer: k, x: ix, y: iy }
    } else {
        Op::Const(0)
    };
    let r = emit(ops, op);
    proof {
        lemma_emit_extends(m2, op);
        lemma_extends_trans(ops@, m2, m1);
        lemma_extends_trans(ops@, m1, start);
        lemma_kept(m2, m1, ix as int);
        let d = Definition::Access(*a);
        assert forall|scene: Scene, x: i32, y: i32|
            #![trigger op_values(ops@, scene, x, y)]
            scene_matches(scene, names@, params@) implies op_values(ops@, scene, x, y)[r as int] == eval(
                d,
                scene,
                x,
                y,
            ) && op_trace(ops@, scene, x, y) == op_trace(start, scene, x, y) + reads(d, scene, x, y) by {
            lemma_values_len(m1, scene, x, y);
            lemma_values_len(m2, scene, x, y);
            assert(op_values(m1, scene, x, y)[ix as int] == a.x.value(x, y));
            assert(op_values(m2, scene, x, y)[ix as int] == a.x.value(x, y));
            assert(op_values(m2, scene, x, y)[iy as int] == a.y.value(x, y));
            assert(op_trace(m2, scene, x, y) == op_trace(start, scene, x, y));
            assert(op_reads(op, op_values(m2, scene, x, y), scene) =~= reads(d, scene, x, y));
            assert(op_trace(ops@, scene, x, y) =~= op_trace(start, scene, x, y) + reads(d, scene, x, y));
        }
    }
    r
}

/// Lowers a definition. Buffers and parameters are found by name in
/// `names` and `params`; a name that is not there reads as 0.
pub fn lower_definition(d: &Definition, names: &Vec<String>, params: &Vec<String>, ops: &mut Vec<Op>) -> (r: usize)
    requires
        old(ops)@.len() + d.size() < usize::MAX,
    ensures
        lowers(*d, names@, params@, old(ops)@, final(ops)@, r as int),
        final(ops)@.len() <= old(ops)@.len() + d.size(),
    decreases d, 1nat,
{
    let ghost start = ops@;
    match d {
        Definition::Access(a) => lower_access(a, names, params, ops),
        Definition::Const(c) => {
            let r = emit(ops, Op::Const(*c));
            proof {
                lemma_emit_extends(start, Op::Const(*c));
                assert forall|scene: Scene, x: i32, y: i32|
                    #![trigger op_values(ops@, scene, x, y)]
                    scene_matches(scene, names@, params@) implies op_trace(ops@, scene, x, y)
                        == op_trace(start, scene, x, y) + reads(*d, scene, x, y) by {
                    assert(op_trace(ops@, scene, x, y) =~= op_trace(start, scene, x, y) + reads(*d, scene, x, y));
                }
            }
            r
        },
        Definition::Param(p) => {
            let k = find_name(params, p);
            proof {
                lemma_position_range(name_views(params@), p@);
            }
            let op = if k < params.len() {
                Op::Param(k)
            } else {
                Op::Const(0)
            };
            let r = emit(ops, op);
            proof {
                lemma_emit_extends(start, op);
                assert forall|scene: Scene, x: i32, y: i32|
                    #![trigger op_values(ops@, scene, x, y)]
                    scene_matches(scene, names@, params@) implies op_values(ops@, scene, x, y)[r as int]
                        == eval(*d, scene, x, y) && op_trace(ops@, scene, x, y) == op_trace(start, scene, x, y)
                        + reads(*d, scene, x, y) by {
                    assert(op_trace(ops@, scene, x, y) =~= op_trace(start, scene, x, y) + reads(*d, scene, x, y));
                }
            }
            r
        },
        Definition::Cond(_) => lower_cond(d, names, params, ops),
        Definition::Add(_, _) | Definition::Sub(_, _) | Definition::Mul(_, _) | Definition::Div(_, _) => lower_binary(
            d,
            names,
            params,
            ops,
        ),
    }
}

#[verifier::rlimit(100)]
fn lower_cond(d: &Definition, names: &Vec<String>, params: &Vec<String>, ops: &mut Vec<Op>) -> (r: usize)
    requires
        d is Cond,
        old(ops)@.len() + d.size() < usize::MAX,
    ensures
        lowers(*d, names@, params@, old(ops)@, final(ops)@, r as int),
        final(ops)@.len() <= old(ops)@.len() + d.size(),
    decreases d, 0nat,
{
    let ghost start = ops@;
    match d {
        Definition::Cond(c) => {
            let il = lower_definition(&c.lhs, names, params, ops);
            let ghost m1 = ops@;
            let ir = lower_definition(&c.rhs, names, params, ops);
            let ghost m2 = ops@;
            let it = lower_definition(&c.if_true, names, params, ops);
            let ghost m3 = ops@;
            let iff = lower_definition(&c.if_false, names, params, ops);
            let ghost m4 = ops@;
            let op = Op::Select { cmp: c.cmp, l: il, r: ir, t: it, f: iff };
            let r = emit(ops, op);
            proof {
                lemma_emit_extends(m4, op);
                lemma_extends_trans(m4, m3, m2);
                lemma_extends_trans(m4, m2, m1);
                lemma_extends_trans(m3, m2, m1);
                lemma_extends_trans(ops@, m4, m1);
                lemma_extends_trans(ops@, m1, start);
                lemma_kept(m4, m1, il as int);
                lemma_kept(m4, m2, ir as int);
                lemma_kept(m4, m3, it as int);
                assert forall|scene: Scene, x: i32, y: i32|
                    #![trigger op_values(ops@, scene, x, y)]
                    scene_matches(scene, names@, params@) implies op_values(ops@, scene, x, y)[r as int]
                        == eval(*d, scene, x, y) && op_trace(ops@, scene, x, y) == op_trace(start, scene, x, y)
                        + reads(*d, scene, x, y) by {
                    assert(op_values(m1, scene, x, y)[il as int] == eval(*c.lhs, scene, x, y));
                    assert(op_values(m2, scene, x, y)[ir as int] == eval(*c.rhs, scene, x, y));
                    assert(op_values(m3, scene, x, y)[it as int] == eval(*c.if_true, scene, x, y));
                    assert(op_values(m4, scene, x, y)[iff as int] == eval(*c.if_false, scene, x, y));
                    assert(op_values(m4, scene, x, y)[il as int] == eval(*c.lhs, scene, x, y));
                    assert(op_values(m4, scene, x, y)[ir as int] == eval(*c.rhs, scene, x, y));
                    assert(op_values(m4, scene, x, y)[it as int] == eval(*c.if_true, scene, x, y));
                    assert(op_trace(ops@, scene, x, y) =~= op_trace(start, scene, x, y) + reads(*d, scene, x, y));
                }
            }
            r
        },
        _ => 0,
    }
}

fn lower_binary(d: &Definition, names: &Vec<String>, params: &Vec<String>, ops: &mut Vec<Op>) -> (r: usize)
    requires
        d is Add || d is Sub || d is Mul || d is Div,
        old(ops)@.len() + d.size() < usize::MAX,
    ensures
        lowers(*d, names@, params@, old(ops)@, final(ops)@, r as int),
        final(ops)@.len() <= old(ops)@.len() + d.size(),
    decreases d, 0nat,
{
    let ghost start = ops@;
    match d {
        Definition::Add(l, rt) | Definition::Sub(l, rt) | Definition::Mul(l, rt) | Definition::Div(l, rt) => {
            let a = lower_definition(l, names, params, ops);
            let ghost m1 = ops@;
            let b = lower_definition(rt, names, params, ops);
            let ghost m2 = ops@;
            let op = match d {
                Definition::Add(_, _) => Op::Add(a, b),
                Definition::Sub(_, _) => Op::Sub(a, b),
                Definition::Mul(_, _) => Op::Mul(a, b),
                _ => Op::SDiv(a, b),
            };
            let r = emit(ops, op);
            proof {
                lemma_emit_extends(m2, op);
                lemma_extends_trans(ops@, m2, m1);
                lemma_extends_trans(ops@, m1, start);
                lemma_kept(m2, m1, a as int);
                assert forall|scene: Scene, x: i32, y: i32|
                    #![trigger op_values(ops@, scene, x, y)]
                    scene_matches(scene, names@, params@) implies op_values(ops@, scene, x, y)[r as int]
                        == eval(*d, scene, x, y) && op_trace(ops@, scene, x, y) == op_trace(start, scene, x, y)
                        + reads(*d, scene, x, y) by {
                    assert(op_values(m1, scene, x, y)[a as int] == eval(**l, scene, x, y));
                    assert(op_values(m2, scene, x, y)[a as int] == eval(**l, scene, x, y));
                    assert(op_values(m2, scene, x, y)[b as int] == eval(**rt, scene, x, y));
                    assert(op_trace(ops@, scene, x, y) =~= op_trace(start, scene, x, y) + reads(*d, scene, x, y));
                }
            }
            r
        },
        _ => 0,
    }
}

/// `n`, or `usize::MAX` when it is not below that.
pub open spec fn capped(n: nat) -> usize {
    if n < usize::MAX {
        n as usize
    } else {
        usize::MAX
    }
}

fn capped_sum(a: usize, b: usize, c: usize, Ghost(x): Ghost<nat>, Ghost(y): Ghost<nat>, Ghost(z): Ghost<nat>) -> (r: usize)
    requires
        a == capped(x),
        b == capped(y),
        c == capped(z),
    ensures
        r == capped(x + y + z),
{
    if a < usize::MAX && b < usize::MAX && c < usize::MAX && b < usize::MAX - a && c < usize::MAX - a - b {
        a + b + c
    } else {
        usize::MAX
    }
}

/// The number of nodes of `e`, capped.
fn var_expr_size(e: &VarExpr) -> (r: usize)
    ensures
        r == capped(e.size()),
    decreases e,
{
    match e {
        VarExpr::Add(l, rt) | VarExpr::Sub(l, rt) | VarExpr::Mul(l, rt) => capped_sum(
            1,
            var_expr_size(l),
            var_expr_size(rt),
            Ghost(1),
            Ghost(l.size()),
            Ghost(rt.size()),
        ),
        _ => 1,
    }
}

/// The number of nodes of `d`, capped.
pub fn definition_size(d: &Definition) -> (r: usize)
    ensures
        r == capped(d.size()),
    decreases d,
{
    match d {
        Definition::Access(a) => capped_sum(
            1,
            var_expr_size(&a.x),
            var_expr_size(&a.y),
            Ghost(1),
            Ghost(a.x.size()),
            Ghost(a.y.size()),
        ),
        Definition::Cond(c) => {
            let a = capped_sum(
                1,
                definition_size(&c.lhs),
                definition_size(&c.rhs),
                Ghost(1),
                Ghost(c.lhs.size()),
                Ghost(c.rhs.size()),
            );
            let b = capped_sum(
                0,
                definition_size(&c.if_true),
                definition_size(&c.if_false),
                Ghost(0),
                Ghost(c.if_true.size()),
                Ghost(c.if_false.size()),
            );
            capped_sum(
                a,
                b,
                0,
                Ghost(1 + c.lhs.size() + c.rhs.size()),
                Ghost(c.if_true.size() + c.if_false.size()),
                Ghost(0),
            )
        },
        Definition::Add(l, rt) | Definition::Sub(l, rt) | Definition::Mul(l, rt) | Definition::Div(l, rt) => capped_sum(
            1,
            definition_size(l),
            definition_size(rt),
            Ghost(1),
            Ghost(l.size()),
            Ghost(rt.size()),
        ),
        _ => 1,
    }
}

/// The code of one stage: `ops`, whose instruction `result` holds the value
/// stored at each pixel (truncated to 8 bits) into buffer `buffer`.
#[derive(Debug)]
pub struct StageCode {
    pub ops: Vec<Op>,
    pub result: usize,
    pub buffer: usize,
}

/// The semantics of a stage's code: at every `(x, y)` of the image, in a
/// scene named as `names` and `params`, running it reports the stage's
/// reads and then the write of the truncated value, exactly as computing
/// the pixel does.
pub open spec fn computes_stage(code: StageCode, f: Func, names: Seq<String>, params: Seq<String>) -> bool {
    &&& code.result < code.ops@.len()
    &&& forall|scene: Scene, x: i32, y: i32|
        #![trigger op_values(code.ops@, scene, x, y)]
        scene_matches(scene, names, params) ==> op_values(code.ops@, scene, x, y)[code.result as int] == eval(
            f.definition,
            scene,
            x,
            y,
        ) && op_trace(code.ops@, scene, x, y) == reads(f.definition, scene, x, y)
    &&& forall|scene: Scene, x: i32, y: i32|
        #![trigger pixel_actions(f.definition, scene, code.buffer as int, x as int, y as int)]
        scene_matches(scene, names, params) && x >= 0 && y >= 0 ==> pixel_actions(
            f.definition,
            scene,
            code.buffer as int,
            x as int,
            y as int,
        ) == op_trace(code.ops@, scene, x, y).push(
            Action::Write(
                TraceId(code.buffer),
                x as usize,
                y as usize,
                op_values(code.ops@, scene, x, y)[code.result as int] as u8,
            ),
        )
}

/// Lowers a stage whose output is buffer `buffer`; `None` when its code
/// would have more instructions than a `usize` counts.
pub fn lower_func(f: &Func, buffer: usize, names: &Vec<String>, params: &Vec<String>) -> (r: Option<StageCode>)
    ensures
        r is None <==> f.definition.size() >= usize::MAX,
        r matches Some(code) ==> code.buffer == buffer && computes_stage(code, *f, names@, params@),
{
    if definition_size(&f.definition) == usize::MAX {
        return None;
    }
    let mut ops: Vec<Op> = Vec::new();
    let result = lower_definition(&f.definition, names, params, &mut ops);
    let code = StageCode { ops, result, buffer };
    proof {
        assert forall|scene: Scene, x: i32, y: i32|
            #![trigger op_values(code.ops@, scene, x, y)]
            scene_matches(scene, names@, params@) implies op_trace(code.ops@, scene, x, y) == reads(
                f.definition,
                scene,
                x,
                y,
            ) by {
            lemma_values_len(code.ops@, scene, x, y);
            assert(op_trace(Seq::<Op>::empty(), scene, x, y) =~= Seq::<Action>::empty());
            assert(op_trace(code.ops@, scene, x, y) =~= reads(f.definition, scene, x, y));
        }
        assert forall|scene: Scene, x: i32, y: i32|
            #![trigger pixel_actions(f.definition, scene, code.buffer as int, x as int, y as int)]
            scene_matches(scene, names@, params@) && x >= 0 && y >= 0 implies pixel_actions(
            f.definition,
            scene,
            code.buffer as int,
            x as int,
            y as int,
        ) == op_trace(code.ops@, scene, x, y).push(
            Action::Write(
                TraceId(code.buffer),
                x as usize,
                y as usize,
                op_values(code.ops@, scene, x, y)[code.result as int] as u8,
            ),
        ) by {
            lemma_values_len(code.ops@, scene, x, y);
            assert(op_trace(Seq::<Op>::empty(), scene, x, y) =~= Seq::<Action>::empty());
            assert(op_trace(code.ops@, scene, x, y) =~= reads(f.definition, scene, x, y));
            assert((x as int) as i32 == x && (y as int) as i32 == y);
        }
    }
    Some(code)
}

/// How one stage is computed.
#[derive(Debug)]
pub struct StagePlan {
    /// The stage's name, which is also its buffer's name.
    pub name: String,
    /// The index of the stage's buffer among the buffer arguments.
    pub buffer: usize,
    /// The variable of the outer loop.
    pub outer: Var,
    /// The variable of the inner loop.
    pub inner: Var,
    /// The code that computes one pixel.
    pub code: StageCode,
}

/// The layout of the generated function's arguments and the loop nest of
/// each stage.
#[derive(Debug)]
pub struct LoweringPlan {
    /// The names of the buffer arguments, in order: the inputs, then the
    /// stages.
    pub buffers: Vec<String>,
    /// The names of the parameter arguments, in order.
    pub params: Vec<String>,
    /// The stages, in the order they are computed.
    pub stages: Vec<StagePlan>,
    /// The buffer whose width and height bound every loop: the last stage's.
    pub bound_buffer: usize,
}

/// The loop variables of a stage, outer first, for its schedule.
pub open spec fn loop_vars(vars: Seq<Var>) -> (Var, Var) {
    if y_outer(vars) {
        (Var::Y, Var::X)
    } else {
        (Var::X, Var::Y)
    }
}

/// Some stage of `graph` has more nodes than a `usize` counts.
pub open spec fn too_big(graph: Graph) -> bool {
    exists|k: int|
        0 <= k < graph.spec_funcs().len() && (#[trigger] graph.spec_funcs()[k]).definition.size() >= usize::MAX
}

/// Plans the lowering of `graph`, which has at least one stage, and lowers
/// each stage; `None` when some stage is too big to lower.
pub fn plan_lowering(graph: &Graph) -> (r: Option<LoweringPlan>)
    requires
        graph.wf(),
        graph.spec_funcs().len() > 0,
        graph.spec_inputs().len() + graph.spec_funcs().len() <= usize::MAX,
    ensures
        r is None <==> too_big(*graph),
        r matches Some(r) ==> plan_holds(r, *graph),
{
    let buffers = graph.input_then_outputs();
    let params = copy_names(graph.params());
    let funcs = graph.funcs();
    let n_in = graph.inputs().len();
    let mut stages: Vec<StagePlan> = Vec::new();
    let mut k: usize = 0;
    while k < funcs.len()
        invariant
            graph.wf(),
            funcs@ == graph.spec_funcs(),
            n_in == graph.spec_inputs().len(),
            n_in + funcs@.len() <= usize::MAX,
            name_views(buffers@) == graph.spec_inputs() + graph.spec_outputs(),
            name_views(params@) == graph.spec_params(),
            k <= funcs@.len(),
            stages@.len() == k,
            forall|j: int| 0 <= j < k ==> (#[trigger] graph.spec_funcs()[j]).definition.size() < usize::MAX,
            forall|j: int|
                0 <= j < k ==> {
                    let s = #[trigger] stages@[j];
                    let f = graph.spec_funcs()[j];
                    &&& s.name@ == f.name@
                    &&& s.buffer == n_in + j
                    &&& (s.outer, s.inner) == loop_vars(graph.spec_schedule()[f.name@])
                    &&& s.code.buffer == s.buffer
                    &&& computes_stage(s.code, f, buffers@, params@)
                },
        decreases funcs@.len() - k,
    {
        let f = &funcs[k];
        assert(graph.spec_schedule().contains_key(graph.spec_funcs()[k as int].name@));
        let sched = graph.schedule().get_func_schedule(f);
        let yo = sched.variables.len() > 0 && sched.variables[0] == Var::Y;
        let (outer, inner) = if yo {
            (Var::Y, Var::X)
        } else {
            (Var::X, Var::Y)
        };
        let code = match lower_func(f, n_in + k, &buffers, &params) {
            Some(code) => code,
            None => {
                assert(too_big(*graph)) by {
                    assert(graph.spec_funcs()[k as int].definition.size() >= usize::MAX);
                }
                return None;
            },
        };
        stages.push(StagePlan { name: f.name.clone(), buffer: n_in + k, outer, inner, code });
        k = k + 1;
    }
    let r = LoweringPlan { buffers, params, stages, bound_buffer: n_in + funcs.len() - 1 };
    assert(!too_big(*graph));
    Some(r)
}

/// What a plan states of `graph`: the buffers are its inputs then its
/// stages, the parameters are in order, and each stage has its buffer, the
/// loop order of its schedule and code that computes it.
pub open spec fn plan_holds(r: LoweringPlan, graph: Graph) -> bool {
    &&& name_views(r.buffers@) == graph.spec_inputs() + graph.spec_outputs()
    &&& name_views(r.params@) == graph.spec_params()
    &&& r.stages@.len() == graph.spec_funcs().len()
    &&& forall|k: int|
        0 <= k < r.stages@.len() ==> {
            let s = #[trigger] r.stages@[k];
            let f = graph.spec_funcs()[k];
            &&& s.name@ == f.name@
            &&& s.buffer == graph.spec_inputs().len() + k
            &&& (s.outer, s.inner) == loop_vars(graph.spec_schedule()[f.name@])
            &&& s.code.buffer == s.buffer
            &&& computes_stage(s.code, f, r.buffers@, r.params@)
        }
    &&& r.bound_buffer == graph.spec_inputs().len() + graph.spec_funcs().len() - 1
}


} // verus!
