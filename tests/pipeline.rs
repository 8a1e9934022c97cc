use prism::ast::{Comparison, Condition, Definition, Func, FuncSchedule, Param, Schedule, Source, Var, VarExpr};
use prism::graph::{Graph, GraphError};
use prism::image::GrayImage;
use prism::lowering::{lower_definition, plan_lowering, Op};
use prism::processor::{ProcessError, Processor};
use prism::trace::{Action, TraceId};

fn x() -> VarExpr {
    VarExpr::var(Var::X)
}

fn y() -> VarExpr {
    VarExpr::var(Var::Y)
}

fn offset(v: VarExpr, d: i32) -> VarExpr {
    VarExpr::add(v, VarExpr::constant(d))
}

fn image(rows: &[&[u8]]) -> GrayImage {
    let h = rows.len();
    let w = rows[0].len();
    let mut data = Vec::new();
    for r in rows {
        data.extend_from_slice(r);
    }
    GrayImage::from_raw(w, h, data)
}

fn rows(img: &GrayImage) -> Vec<Vec<u8>> {
    let mut r = Vec::new();
    for yy in 0..img.height() {
        let mut row = Vec::new();
        for xx in 0..img.width() {
            row.push(img.get(xx, yy));
        }
        r.push(row);
    }
    r
}

fn nine() -> GrayImage {
    image(&[&[1, 2, 3], &[4, 5, 6], &[7, 8, 9]])
}

/// img[x, y] = 100 * ((x / 2 mod 2) + (y / 2 mod 2)), 6 by 6.
fn gradient() -> GrayImage {
    let mut img = GrayImage::new(6, 6);
    for yy in 0..6 {
        for xx in 0..6 {
            img.set(xx, yy, (100 * ((xx / 2) % 2 + (yy / 2) % 2)) as u8);
        }
    }
    img
}

fn graph(name: &str, funcs: Vec<Func>, sources: &[&Source]) -> Graph {
    let mut schedule = Schedule::new();
    for f in &funcs {
        schedule.add_func(f, FuncSchedule::by_row());
    }
    for s in sources {
        schedule.add_source(s, FuncSchedule::by_row());
    }
    Graph::new(name, funcs, schedule).unwrap()
}

fn run(g: Graph, input: &Source, img: &GrayImage, params: &[(Param, i32)]) -> Vec<(String, GrayImage)> {
    let p = Processor::new(g);
    p.process(&[(input, img)], params).unwrap()
}

#[test]
fn identity_pipeline_copies_input() {
    let input = Source::new("input");
    let out = Func::new("out", input.at(x(), y()));
    let g = graph("identity", vec![out], &[&input]);
    let img = nine();
    let r = run(g, &input, &img, &[]);
    assert_eq!(r.len(), 1);
    assert_eq!(r[0].0, "out");
    assert_eq!(rows(&r[0].1), rows(&img));
}

#[test]
fn add_constant_pipeline() {
    let input = Source::new("input");
    let out = Func::new("out", Definition::add(input.at(x(), y()), Definition::constant(3)));
    let g = graph("add3", vec![out], &[&input]);
    let r = run(g, &input, &nine(), &[]);
    assert_eq!(rows(&r[0].1), vec![vec![4, 5, 6], vec![7, 8, 9], vec![10, 11, 12]]);
}

#[test]
fn chained_pipeline() {
    let input = Source::new("input");
    let f = Func::new("f", Definition::add(input.at(x(), y()), Definition::constant(3)));
    let g = Func::new("g", Definition::mul(f.at(x(), y()), Definition::constant(2)));
    let gr = graph("chain", vec![f, g], &[&input]);
    let r = run(gr, &input, &nine(), &[]);
    assert_eq!(r[0].0, "f");
    assert_eq!(rows(&r[0].1), vec![vec![4, 5, 6], vec![7, 8, 9], vec![10, 11, 12]]);
    assert_eq!(r[1].0, "g");
    assert_eq!(rows(&r[1].1), vec![vec![8, 10, 12], vec![14, 16, 18], vec![20, 22, 24]]);
}

#[test]
fn brighten_with_param() {
    let input = Source::new("input");
    let p = Param::new("p");
    let bright = Func::new("bright", Definition::add(input.at(x(), y()), Definition::param(&p)));
    let g = graph("brighten", vec![bright], &[&input]);
    let img = gradient();
    let r = run(g, &input, &img, &[(Param::new("p"), 50)]);
    for yy in 0..6 {
        for xx in 0..6 {
            assert_eq!(r[0].1.get(xx, yy), (img.get(xx, yy) as i32 + 50) as u8);
        }
    }
    assert_eq!(r[0].1.get(2, 2), 250);
}

#[test]
fn param_equals_constant() {
    let input = Source::new("input");
    let p = Param::new("p");
    let with_param = Func::new("out", Definition::add(input.at(x(), y()), Definition::param(&p)));
    let with_const = Func::new("out", Definition::add(input.at(x(), y()), Definition::constant(77)));
    let img = gradient();
    let a = run(graph("a", vec![with_param], &[&input]), &input, &img, &[(Param::new("p"), 77)]);
    let b = run(graph("b", vec![with_const], &[&input]), &input, &img, &[]);
    assert_eq!(rows(&a[0].1), rows(&b[0].1));
}

#[test]
fn threshold_pipeline() {
    let input = Source::new("input");
    let thresh = Func::new(
        "thresh",
        Definition::cond(Condition::new(
            Comparison::GT,
            input.at(x(), y()),
            Definition::constant(100),
            Definition::constant(250),
            Definition::constant(0),
        )),
    );
    let g = graph("threshold", vec![thresh], &[&input]);
    let img = gradient();
    let r = run(g, &input, &img, &[]);
    for yy in 0..6 {
        for xx in 0..6 {
            let expected = if img.get(xx, yy) > 100 { 250 } else { 0 };
            assert_eq!(r[0].1.get(xx, yy), expected);
        }
    }
}

#[test]
fn out_of_bounds_blur() {
    let input = Source::new("input");
    let blur_h = Func::new(
        "blur_h",
        Definition::div(
            Definition::add(
                Definition::add(input.at(offset(x(), -1), y()), input.at(x(), y())),
                input.at(offset(x(), 1), y()),
            ),
            Definition::constant(3),
        ),
    );
    let blur_v = Func::new(
        "blur_v",
        Definition::div(
            Definition::add(
                Definition::add(blur_h.at(x(), offset(y(), -1)), blur_h.at(x(), y())),
                blur_h.at(x(), offset(y(), 1)),
            ),
            Definition::constant(3),
        ),
    );
    let g = graph("blur", vec![blur_h, blur_v], &[&input]);
    let img = image(&[&[9, 9, 9, 9], &[9, 9, 9, 9], &[9, 9, 9, 9], &[9, 9, 9, 9]]);
    let r = run(g, &input, &img, &[]);
    assert_eq!(rows(&r[0].1), vec![vec![6, 9, 9, 6]; 4]);
    assert_eq!(
        rows(&r[1].1),
        vec![vec![4, 6, 6, 4], vec![6, 9, 9, 6], vec![6, 9, 9, 6], vec![4, 6, 6, 4]]
    );
}

#[test]
fn constant_pipeline_fills_output() {
    let input = Source::new("input");
    let f = Func::new("f", Definition::constant(300));
    let g = graph("constant", vec![f], &[]);
    let r = run(g, &input, &nine(), &[]);
    assert_eq!(rows(&r[0].1), vec![vec![44u8; 3]; 3]);
}

#[test]
fn rerun_gives_same_output_with_and_without_tracing() {
    let input = Source::new("input");
    let out = Func::new("out", Definition::mul(input.at(offset(x(), 1), y()), Definition::constant(7)));
    let p = Processor::new(graph("again", vec![out], &[&input]));
    let img = gradient();
    let a = p.process(&[(&input, &img)], &[]).unwrap();
    let b = p.process(&[(&input, &img)], &[]).unwrap();
    let (c, _) = p.process_with_tracing(&[(&input, &img)], &[]).unwrap();
    assert_eq!(rows(&a[0].1), rows(&b[0].1));
    assert_eq!(rows(&a[0].1), rows(&c[0].1));
}

#[test]
fn trace_records_reads_then_write() {
    let input = Source::new("input");
    let out = Func::new("out", Definition::add(input.at(x(), y()), input.at(offset(x(), 1), y())));
    let p = Processor::new(graph("pairs", vec![out], &[&input]));
    let img = image(&[&[1, 2], &[3, 4]]);
    let (outs, trace) = p.process_with_tracing(&[(&input, &img)], &[]).unwrap();
    assert_eq!(rows(&outs[0].1), vec![vec![3, 2], vec![7, 4]]);
    assert_eq!(trace.initial_images().len(), 2);
    assert_eq!(rows(&trace.initial_images()[0]), rows(&img));
    assert_eq!(rows(&trace.initial_images()[1]), vec![vec![0, 0], vec![0, 0]]);
    let (i, o) = (TraceId(0), TraceId(1));
    assert_eq!(
        trace.actions().to_vec(),
        vec![
            Action::Read(i, 0, 0),
            Action::Read(i, 1, 0),
            Action::Write(o, 0, 0, 3),
            Action::Read(i, 1, 0),
            Action::Write(o, 1, 0, 2),
            Action::Read(i, 0, 1),
            Action::Read(i, 1, 1),
            Action::Write(o, 0, 1, 7),
            Action::Read(i, 1, 1),
            Action::Write(o, 1, 1, 4),
        ]
    );
}

#[test]
fn column_schedule_changes_trace_order_only() {
    let input = Source::new("input");
    let out = Func::new("out", input.at(x(), y()));
    let mut schedule = Schedule::new();
    schedule.add_func(&out, FuncSchedule::by_column());
    schedule.add_source(&input, FuncSchedule::by_row());
    let p = Processor::new(Graph::new("cols", vec![out], schedule).unwrap());
    let img = image(&[&[1, 2], &[3, 4]]);
    let (outs, trace) = p.process_with_tracing(&[(&input, &img)], &[]).unwrap();
    assert_eq!(rows(&outs[0].1), rows(&img));
    let writes: Vec<Action> = trace
        .actions()
        .iter()
        .cloned()
        .filter(|a| matches!(a, Action::Write(..)))
        .collect();
    let o = TraceId(1);
    assert_eq!(
        writes,
        vec![Action::Write(o, 0, 0, 1), Action::Write(o, 0, 1, 3), Action::Write(o, 1, 0, 2), Action::Write(o, 1, 1, 4)]
    );
}

#[test]
fn missing_input_is_reported() {
    let input = Source::new("input");
    let other = Source::new("other");
    let out = Func::new("out", input.at(x(), y()));
    let p = Processor::new(graph("g", vec![out], &[&input]));
    let img = nine();
    match p.process(&[(&other, &img)], &[]) {
        Err(ProcessError::MissingInput(n)) => assert_eq!(n, "input"),
        _ => panic!("expected a missing input"),
    }
}

#[test]
fn no_inputs_is_reported() {
    let f = Func::new("f", Definition::constant(1));
    let p = Processor::new(graph("g", vec![f], &[]));
    assert!(matches!(p.process(&[], &[]), Err(ProcessError::NoInputs)));
}

#[test]
fn shape_mismatch_is_reported() {
    let a = Source::new("a");
    let b = Source::new("b");
    let out = Func::new("out", Definition::add(a.at(x(), y()), b.at(x(), y())));
    let p = Processor::new(graph("g", vec![out], &[&a, &b]));
    let small = image(&[&[1]]);
    let big = nine();
    match p.process(&[(&a, &big), (&b, &small)], &[]) {
        Err(ProcessError::ShapeMismatch(n)) => assert_eq!(n, "b"),
        _ => panic!("expected a shape mismatch"),
    }
}

#[test]
fn missing_param_is_reported() {
    let input = Source::new("input");
    let q = Param::new("q");
    let out = Func::new("out", Definition::add(input.at(x(), y()), Definition::param(&q)));
    let p = Processor::new(graph("g", vec![out], &[&input]));
    let img = nine();
    match p.process(&[(&input, &img)], &[(Param::new("r"), 1)]) {
        Err(ProcessError::MissingParam(n)) => assert_eq!(n, "q"),
        _ => panic!("expected a missing parameter"),
    }
}

#[test]
fn graph_inputs_and_params_are_sorted_and_unique() {
    let b = Source::new("b");
    let a = Source::new("a");
    let p = Param::new("p");
    let k = Param::new("k");
    let f = Func::new(
        "f",
        Definition::add(
            Definition::add(b.at(x(), y()), a.at(x(), y())),
            Definition::add(Definition::param(&p), Definition::param(&k)),
        ),
    );
    let g2 = Func::new("g", Definition::add(f.at(x(), y()), Definition::add(b.at(x(), y()), Definition::param(&p))));
    let g = graph("sorted", vec![f, g2], &[&a, &b]);
    assert_eq!(g.inputs().to_vec(), vec!["a".to_string(), "b".to_string()]);
    assert_eq!(g.params().to_vec(), vec!["k".to_string(), "p".to_string()]);
    assert_eq!(g.outputs().to_vec(), vec!["f".to_string(), "g".to_string()]);
    assert_eq!(
        g.input_then_outputs(),
        vec!["a".to_string(), "b".to_string(), "f".to_string(), "g".to_string()]
    );
    assert_eq!(g.name(), "sorted");
}

#[test]
fn graph_rejects_bad_dependency_order() {
    let input = Source::new("input");
    let f = Func::new("f", Definition::add(input.at(x(), y()), Definition::constant(1)));
    let g = Func::new("g", f.at(x(), y()));
    let mut schedule = Schedule::new();
    schedule.add_func(&f, FuncSchedule::by_row());
    schedule.add_func(&g, FuncSchedule::by_row());
    schedule.add_source(&input, FuncSchedule::by_row());
    match Graph::new("bad", vec![g, f], schedule) {
        Err(GraphError::DependencyOrder { func, source }) => {
            assert_eq!(func, "g");
            assert_eq!(source, "f");
        }
        _ => panic!("expected a dependency order error"),
    }
}

#[test]
fn graph_reports_missing_schedules() {
    let input = Source::new("input");
    let f = Func::new("f", input.at(x(), y()));
    let schedule = Schedule::new();
    match Graph::new("unscheduled", vec![f], schedule) {
        Err(GraphError::MissingSchedules { funcs, inputs }) => {
            assert_eq!(funcs, vec!["f".to_string()]);
            assert_eq!(inputs, vec!["input".to_string()]);
        }
        _ => panic!("expected missing schedules"),
    }
}

#[test]
fn lowering_plan_follows_schedules() {
    let b = Source::new("b");
    let a = Source::new("a");
    let p = Param::new("p");
    let f = Func::new("f", Definition::add(b.at(x(), y()), a.at(x(), y())));
    let g = Func::new("g", Definition::add(f.at(x(), y()), Definition::param(&p)));
    let mut schedule = Schedule::new();
    schedule.add_func(&f, FuncSchedule::by_row());
    schedule.add_func(&g, FuncSchedule::by_column());
    schedule.add_source(&a, FuncSchedule::by_row());
    schedule.add_source(&b, FuncSchedule::by_row());
    let graph = Graph::new("plan", vec![f, g], schedule).unwrap();
    let plan = plan_lowering(&graph).unwrap();
    assert_eq!(plan.buffers, vec!["a".to_string(), "b".to_string(), "f".to_string(), "g".to_string()]);
    assert_eq!(plan.params, vec!["p".to_string()]);
    assert_eq!(plan.bound_buffer, 3);
    assert_eq!(plan.stages.len(), 2);
    assert_eq!((plan.stages[0].buffer, plan.stages[0].outer, plan.stages[0].inner), (2, Var::Y, Var::X));
    assert_eq!((plan.stages[1].buffer, plan.stages[1].outer, plan.stages[1].inner), (3, Var::X, Var::Y));
    assert_eq!(plan.stages[1].name, "g");
}

#[test]
fn lowering_plan_holds_stage_code() {
    let input = Source::new("in");
    let f = Func::new("f", Definition::add(input.at(offset(x(), 1), y()), Definition::constant(3)));
    let graph = graph("code", vec![f], &[&input]);
    let plan = plan_lowering(&graph).unwrap();
    let code = &plan.stages[0].code;
    assert_eq!(code.buffer, 1);
    assert_eq!(
        code.ops,
        vec![
            Op::X,
            Op::Const(1),
            Op::Add(0, 1),
            Op::Y,
            Op::LoadChecked { buffer: 0, x: 2, y: 3 },
            Op::Const(3),
            Op::Add(4, 5),
        ]
    );
    assert_eq!(code.result, 6);
}

#[test]
fn lowering_definition_resolves_names() {
    let p = Param::new("k");
    let d = Definition::cond(Condition::new(
        Comparison::LT,
        Source::new("missing").at(x(), y()),
        Definition::param(&p),
        Definition::param(&Param::new("nope")),
        Definition::div(Definition::constant(8), Definition::constant(2)),
    ));
    let mut ops = vec![Op::Const(7)];
    let r = lower_definition(&d, &vec!["in".to_string()], &vec!["k".to_string()], &mut ops);
    assert_eq!(
        ops,
        vec![
            Op::Const(7),
            Op::X,
            Op::Y,
            Op::Const(0),
            Op::Param(0),
            Op::Const(0),
            Op::Const(8),
            Op::Const(2),
            Op::SDiv(6, 7),
            Op::Select { cmp: Comparison::LT, l: 3, r: 4, t: 5, f: 8 },
        ]
    );
    assert_eq!(r, 9);
}

#[test]
fn unused_input_of_another_size_is_a_shape_mismatch() {
    let input = Source::new("input");
    let extra = Source::new("extra");
    let out = Func::new("out", input.at(x(), y()));
    let p = Processor::new(graph("g", vec![out], &[&input]));
    let (img, small) = (nine(), image(&[&[1]]));
    match p.process(&[(&input, &img), (&extra, &small)], &[]) {
        Err(ProcessError::ShapeMismatch(n)) => assert_eq!(n, "extra"),
        _ => panic!("expected a shape mismatch"),
    }
}

#[test]
fn unused_param_is_reported() {
    let input = Source::new("input");
    let out = Func::new("out", input.at(x(), y()));
    let p = Processor::new(graph("g", vec![out], &[&input]));
    let img = nine();
    match p.process(&[(&input, &img)], &[(Param::new("q"), 1)]) {
        Err(ProcessError::UnusedParam(n)) => assert_eq!(n, "q"),
        _ => panic!("expected an unused parameter"),
    }
}

#[test]
fn prepare_orders_images_and_params() {
    let b = Source::new("b");
    let a = Source::new("a");
    let (pk, pz) = (Param::new("k"), Param::new("z"));
    let f = Func::new(
        "f",
        Definition::add(
            Definition::add(b.at(x(), y()), a.at(x(), y())),
            Definition::add(Definition::param(&pz), Definition::param(&pk)),
        ),
    );
    let p = Processor::new(graph("g", vec![f], &[&a, &b]));
    let (ia, ib) = (image(&[&[1, 2]]), image(&[&[3, 4]]));
    let inv = p.prepare(&[(&b, &ib), (&a, &ia)], &[(Param::new("z"), 9), (Param::new("k"), 5)]).unwrap();
    assert_eq!(inv.param_values, vec![5, 9]);
    assert_eq!((inv.width, inv.height), (2, 1));
    assert_eq!(rows(&inv.images[0]), vec![vec![1, 2]]);
    assert_eq!(rows(&inv.images[1]), vec![vec![3, 4]]);
    let t = p.start_trace(&inv);
    assert_eq!(t.initial_images().len(), 3);
    assert_eq!(rows(&t.initial_images()[2]), vec![vec![0, 0]]);
    assert!(t.actions().is_empty());
}
