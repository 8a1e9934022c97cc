//! A pipeline: its stages in dependency order, the inputs and parameters
//! they need, and their schedule.

use vstd::prelude::*;
use crate::ast::{name_views, Func, Schedule};
use crate::names::{insert_sorted, strictly_sorted};

verus! {

/// The names of the stages, in order.
pub open spec fn func_names(funcs: Seq<Func>) -> Seq<Seq<char>> {
    funcs.map_values(|f: Func| f.name@)
}

/// Some stage among the first `n` reads `s`.
pub open spec fn read_by_first(funcs: Seq<Func>, n: int, s: Seq<char>) -> bool {
    exists|k: int| 0 <= k < n && (#[trigger] funcs[k]).definition.read_names().contains(s)
}

/// `s` is read by some stage and computed by none: it must be supplied.
pub open spec fn is_input(funcs: Seq<Func>, s: Seq<char>) -> bool {
    read_by_first(funcs, funcs.len() as int, s) && !func_names(funcs).contains(s)
}

/// Some stage among the first `n` uses the parameter `p`.
pub open spec fn param_in_first(funcs: Seq<Func>, n: int, p: Seq<char>) -> bool {
    exists|k: int| 0 <= k < n && (#[trigger] funcs[k]).definition.param_names().contains(p)
}

/// Some stage at position `i` or later is named `s`.
pub open spec fn defined_from(funcs: Seq<Func>, i: int, s: Seq<char>) -> bool {
    exists|j: int| i <= j < funcs.len() && (#[trigger] funcs[j]).name@ == s
}

/// Every stage reads only inputs and stages listed before it.
pub open spec fn in_dependency_order(funcs: Seq<Func>) -> bool {
    forall|i: int, s: Seq<char>|
        0 <= i < funcs.len() && #[trigger] funcs[i].definition.read_names().contains(s)
            ==> !defined_from(funcs, i, s)
}

/// Why a graph could not be built.
#[derive(Debug)]
pub enum GraphError {
    /// The stage `func` reads `source`, which is computed by `func` itself or
    /// by a stage listed after it.
    DependencyOrder { func: String, source: String },
    /// Some stages and inputs have no schedule.
    MissingSchedules { funcs: Vec<String>, inputs: Vec<String> },
}

/// Doesn't yet look very graph-like: the stages are kept in the order given.
#[derive(Debug)]
pub struct Graph {
    name: String,
    funcs: Vec<Func>,
    /// Names of the required input buffers, computed from funcs, in
    /// lexicographic order.
    inputs: Vec<String>,
    /// Names of the output buffers (including all intermediates), in
    /// dependency order.
    outputs: Vec<String>,
    /// Names of the required parameters, computed from funcs, in
    /// lexicographic order.
    params: Vec<String>,
    /// The iteration order of each stage.
    schedule: Schedule,
}

impl Graph {
    pub closed spec fn spec_name(&self) -> Seq<char> {
        self.name@
    }

    pub closed spec fn spec_funcs(&self) -> Seq<Func> {
        self.funcs@
    }

    pub closed spec fn spec_inputs(&self) -> Seq<Seq<char>> {
        name_views(self.inputs@)
    }

    pub closed spec fn spec_outputs(&self) -> Seq<Seq<char>> {
        name_views(self.outputs@)
    }

    pub closed spec fn spec_params(&self) -> Seq<Seq<char>> {
        name_views(self.params@)
    }

    pub closed spec fn spec_schedule(&self) -> Map<Seq<char>, Seq<crate::ast::Var>> {
        self.schedule@
    }

    /// What every graph satisfies, as `new` builds it.
    pub open spec fn wf(&self) -> bool {
        let funcs = self.spec_funcs();
        &&& in_dependency_order(funcs)
        &&& self.spec_outputs() == func_names(funcs)
        &&& strictly_sorted(self.spec_inputs())
        &&& forall|s: Seq<char>| #[trigger] self.spec_inputs().contains(s) <==> is_input(funcs, s)
        &&& strictly_sorted(self.spec_params())
        &&& forall|p: Seq<char>| #[trigger]
            self.spec_params().contains(p) <==> param_in_first(funcs, funcs.len() as int, p)
        &&& forall|i: int|
            0 <= i < funcs.len() ==> self.spec_schedule().contains_key(#[trigger] funcs[i].name@)
        &&& forall|s: Seq<char>| #[trigger]
            self.spec_inputs().contains(s) ==> self.spec_schedule().contains_key(s)
    }

    pub fn name(&self) -> (r: &str)
        ensures
            r@ == self.spec_name(),
    {
        self.name.as_str()
    }

    pub fn funcs(&self) -> (r: &[Func])
        ensures
            r@ == self.spec_funcs(),
    {
        self.funcs.as_slice()
    }

    pub fn inputs(&self) -> (r: &[String])
        ensures
            name_views(r@) == self.spec_inputs(),
    {
        self.inputs.as_slice()
    }

    pub fn outputs(&self) -> (r: &[String])
        ensures
            name_views(r@) == self.spec_outputs(),
    {
        self.outputs.as_slice()
    }

    pub fn params(&self) -> (r: &[String])
        ensures
            name_views(r@) == self.spec_params(),
    {
        self.params.as_slice()
    }

    pub fn schedule(&self) -> (r: &Schedule)
        ensures
            r@ == self.spec_schedule(),
    {
        &self.schedule
    }

    /// The inputs followed by the outputs: the order in which buffers are
    /// handed to generated code.
    pub fn input_then_outputs(&self) -> (r: Vec<String>)
        ensures
            name_views(r@) == self.spec_inputs() + self.spec_outputs(),
    {
        let mut r: Vec<String> = Vec::new();
        let mut i: usize = 0;
        while i < self.inputs.len()
            invariant
                i <= self.inputs@.len(),
                r@.len() == i,
                name_views(r@) == name_views(self.inputs@).take(i as int),
            decreases self.inputs@.len() - i,
        {
            r.push(self.inputs[i].clone());
            assert(name_views(r@) =~= name_views(self.inputs@).take(i + 1));
            i = i + 1;
        }
        let mut j: usize = 0;
        while j < self.outputs.len()
            invariant
                i == self.inputs@.len(),
                j <= self.outputs@.len(),
                r@.len() == i + j,
                name_views(r@) == name_views(self.inputs@) + name_views(self.outputs@).take(
                    j as int,
                ),
            decreases self.outputs@.len() - j,
        {
            let ghost prev = name_views(r@);
            r.push(self.outputs[j].clone());
            assert(name_views(r@) =~= prev.push(self.outputs@[j as int]@));
            assert(name_views(r@) =~= name_views(self.inputs@) + name_views(self.outputs@).take(
                j + 1,
            ));
            j = j + 1;
        }
        assert(name_views(self.inputs@).take(i as int) =~= name_views(self.inputs@));
        assert(name_views(self.outputs@).take(j as int) =~= name_views(self.outputs@));
        r
    }
}

/// Whether some stage is named `name`.
fn is_func_name(funcs: &Vec<Func>, name: &String) -> (r: bool)
    ensures
        r == func_names(funcs@).contains(name@),
{
    let mut i: usize = 0;
    while i < funcs.len()
        invariant
            i <= funcs@.len(),
            forall|k: int| 0 <= k < i ==> funcs@[k].name@ != name@,
        decreases funcs@.len() - i,
    {
        if funcs[i].name == *name {
            assert(func_names(funcs@)[i as int] == name@);
            return true;
        }
        i = i + 1;
    }
    assert forall|k: int| 0 <= k < func_names(funcs@).len() implies func_names(funcs@)[k]
        != name@ by {
        assert(func_names(funcs@)[k] == funcs@[k].name@);
    }
    false
}

/// The first stage, in order, that reads a stage defined at or after it,
/// with the name it reads.
fn find_order_violation(funcs: &Vec<Func>) -> (r: Option<(usize, String)>)
    ensures
        r is None <==> in_dependency_order(funcs@),
        r matches Some((i, s)) ==> i < funcs@.len() && funcs@[i as int].definition.read_names().contains(s@)
            && defined_from(funcs@, i as int, s@),
{
    let mut i: usize = 0;
    while i < funcs.len()
        invariant
            i <= funcs@.len(),
            forall|k: int, s: Seq<char>|
                0 <= k < i && #[trigger] funcs@[k].definition.read_names().contains(s)
                    ==> !defined_from(funcs@, k, s),
        decreases funcs@.len() - i,
    {
        let srcs = funcs[i].sources();
        let mut a: usize = 0;
        while a < srcs.len()
            invariant
                i < funcs@.len(),
                a <= srcs@.len(),
                name_views(srcs@) == funcs@[i as int].definition.read_names(),
                forall|t: int| 0 <= t < a ==> !defined_from(funcs@, i as int, #[trigger] srcs@[t]@),
            decreases srcs@.len() - a,
        {
            assert(name_views(srcs@)[a as int] == srcs@[a as int]@);
            let mut j: usize = i;
            while j < funcs.len()
                invariant
                    i <= j <= funcs@.len(),
                    a < srcs@.len(),
                    name_views(srcs@) == funcs@[i as int].definition.read_names(),
                    forall|m: int| i <= m < j ==> funcs@[m].name@ != srcs@[a as int]@,
                decreases funcs@.len() - j,
            {
                if funcs[j].name == srcs[a] {
                    assert(funcs@[i as int].definition.read_names()[a as int] == srcs@[a as int]@);
                    assert(funcs@[i as int].definition.read_names().contains(srcs@[a as int]@));
                    assert(defined_from(funcs@, i as int, srcs@[a as int]@)) by {
                        assert(funcs@[j as int].name@ == srcs@[a as int]@);
                    }
                    return Some((i, srcs[a].clone()));
                }
                j = j + 1;
            }
            a = a + 1;
        }
        assert forall|s: Seq<char>| #[trigger]
            funcs@[i as int].definition.read_names().contains(s) implies !defined_from(
            funcs@,
            i as int,
            s,
        ) by {
            let t = choose|t: int|
                0 <= t < srcs@.len() && funcs@[i as int].definition.read_names()[t] == s;
            assert(name_views(srcs@)[t] == srcs@[t]@);
        }
        i = i + 1;
    }
    None
}

/// The names that some stage reads and no stage computes, sorted.
fn collect_inputs(funcs: &Vec<Func>) -> (r: Vec<String>)
    ensures
        strictly_sorted(name_views(r@)),
        forall|s: Seq<char>| #[trigger] name_views(r@).contains(s) <==> is_input(funcs@, s),
{
    let mut r: Vec<String> = Vec::new();
    let mut i: usize = 0;
    while i < funcs.len()
        invariant
            i <= funcs@.len(),
            strictly_sorted(name_views(r@)),
            forall|s: Seq<char>| #[trigger]
                name_views(r@).contains(s) <==> (read_by_first(funcs@, i as int, s)
                    && !func_names(funcs@).contains(s)),
        decreases funcs@.len() - i,
    {
        let srcs = funcs[i].sources();
        let mut a: usize = 0;
        while a < srcs.len()
            invariant
                i < funcs@.len(),
                a <= srcs@.len(),
                name_views(srcs@) == funcs@[i as int].definition.read_names(),
                strictly_sorted(name_views(r@)),
                forall|s: Seq<char>| #[trigger]
                    name_views(r@).contains(s) <==> ((read_by_first(funcs@, i as int, s)
                        || name_views(srcs@).take(a as int).contains(s)) && !func_names(
                        funcs@,
                    ).contains(s)),
            decreases srcs@.len() - a,
        {
            let ghost before = name_views(r@);
            let ghost t = srcs@[a as int]@;
            assert(name_views(srcs@).take(a + 1) =~= name_views(srcs@).take(a as int).push(t));
            if !is_func_name(funcs, &srcs[a]) {
                insert_sorted(&mut r, &srcs[a]);
            }
            assert forall|s: Seq<char>| #[trigger]
                name_views(r@).contains(s) <==> ((read_by_first(funcs@, i as int, s)
                    || name_views(srcs@).take(a + 1).contains(s)) && !func_names(
                    funcs@,
                ).contains(s)) by {
                if name_views(srcs@).take(a + 1).contains(s) && s != t {
                    let k = choose|k: int|
                        0 <= k < a + 1 && (#[trigger] name_views(srcs@).take(a + 1)[k]) == s;
                    assert(name_views(srcs@).take(a as int)[k] == s);
                }
                if name_views(srcs@).take(a as int).contains(s) {
                    let k = choose|k: int| 0 <= k < a && (#[trigger] name_views(srcs@).take(a as int)[k]) == s;
                    assert(name_views(srcs@).take(a + 1)[k] == s);
                }
                if s == t {
                    assert(name_views(srcs@).take(a + 1)[a as int] == s);
                }
            }
            a = a + 1;
        }
        assert(name_views(srcs@).take(a as int) =~= funcs@[i as int].definition.read_names());
        assert forall|s: Seq<char>| #[trigger]
            read_by_first(funcs@, i + 1, s) <==> (read_by_first(funcs@, i as int, s)
                || funcs@[i as int].definition.read_names().contains(s)) by {
            if funcs@[i as int].definition.read_names().contains(s) {
                assert(0 <= i < i + 1 && funcs@[i as int].definition.read_names().contains(s));
            }
            if read_by_first(funcs@, i + 1, s) && !read_by_first(funcs@, i as int, s) {
                let k = choose|k: int|
                    0 <= k < i + 1 && (#[trigger] funcs@[k]).definition.read_names().contains(s);
                assert(k == i);
            }
        }
        i = i + 1;
    }
    r
}

/// The names of all parameters that some stage uses, sorted.
fn collect_params(funcs: &Vec<Func>) -> (r: Vec<String>)
    ensures
        strictly_sorted(name_views(r@)),
        forall|p: Seq<char>| #[trigger]
            name_views(r@).contains(p) <==> param_in_first(funcs@, funcs@.len() as int, p),
{
    let mut r: Vec<String> = Vec::new();
    let mut i: usize = 0;
    while i < funcs.len()
        invariant
            i <= funcs@.len(),
            strictly_sorted(name_views(r@)),
            forall|s: Seq<char>| #[trigger]
                name_views(r@).contains(s) <==> param_in_first(funcs@, i as int, s),
        decreases funcs@.len() - i,
    {
        let ps = funcs[i].params();
        let mut a: usize = 0;
        while a < ps.len()
            invariant
                i < funcs@.len(),
                a <= ps@.len(),
                name_views(ps@) == funcs@[i as int].definition.param_names(),
                strictly_sorted(name_views(r@)),
                forall|s: Seq<char>| #[trigger]
                    name_views(r@).contains(s) <==> (param_in_first(funcs@, i as int, s)
                        || name_views(ps@).take(a as int).contains(s)),
            decreases ps@.len() - a,
        {
            let ghost t = ps@[a as int]@;
            assert(name_views(ps@).take(a + 1) =~= name_views(ps@).take(a as int).push(t));
            insert_sorted(&mut r, &ps[a]);
            assert forall|s: Seq<char>| #[trigger]
                name_views(r@).contains(s) <==> (param_in_first(funcs@, i as int, s)
                    || name_views(ps@).take(a + 1).contains(s)) by {
                if name_views(ps@).take(a + 1).contains(s) && s != t {
                    let k = choose|k: int| 0 <= k < a + 1 && (#[trigger] name_views(ps@).take(a + 1)[k]) == s;
                    assert(name_views(ps@).take(a as int)[k] == s);
                }
                if name_views(ps@).take(a as int).contains(s) {
                    let k = choose|k: int| 0 <= k < a && (#[trigger] name_views(ps@).take(a as int)[k]) == s;
                    assert(name_views(ps@).take(a + 1)[k] == s);
                }
                if s == t {
                    assert(name_views(ps@).take(a + 1)[a as int] == s);
                }
            }
            a = a + 1;
        }
        assert(name_views(ps@).take(a as int) =~= funcs@[i as int].definition.param_names());
        assert forall|s: Seq<char>| #[trigger]
            param_in_first(funcs@, i + 1, s) <==> (param_in_first(funcs@, i as int, s)
                || funcs@[i as int].definition.param_names().contains(s)) by {
            if funcs@[i as int].definition.param_names().contains(s) {
                assert(0 <= i < i + 1 && funcs@[i as int].definition.param_names().contains(s));
            }
            if param_in_first(funcs@, i + 1, s) && !param_in_first(funcs@, i as int, s) {
                let k = choose|k: int|
                    0 <= k < i + 1 && (#[trigger] funcs@[k]).definition.param_names().contains(s);
                assert(k == i);
            }
        }
        i = i + 1;
    }
    r
}

/// The names in `names` that have no schedule, in order.
fn without_schedule(names: &Vec<String>, schedule: &Schedule) -> (r: Vec<String>)
    ensures
        forall|s: Seq<char>| #[trigger]
            name_views(r@).contains(s) <==> (name_views(names@).contains(s)
                && !schedule@.contains_key(s)),
{
    let mut r: Vec<String> = Vec::new();
    let mut i: usize = 0;
    while i < names.len()
        invariant
            i <= names@.len(),
            forall|s: Seq<char>| #[trigger]
                name_views(r@).contains(s) <==> (name_views(names@).take(i as int).contains(s)
                    && !schedule@.contains_key(s)),
        decreases names@.len() - i,
    {
        let ghost before = name_views(r@);
        let ghost t = names@[i as int]@;
        assert(name_views(names@).take(i + 1) =~= name_views(names@).take(i as int).push(t));
        if !schedule.contains(&names[i]) {
            r.push(names[i].clone());
            assert(name_views(r@) =~= before.push(t));
        }
        assert forall|s: Seq<char>| #[trigger]
            name_views(r@).contains(s) <==> (name_views(names@).take(i + 1).contains(s)
                && !schedule@.contains_key(s)) by {
            if name_views(names@).take(i + 1).contains(s) && s != t {
                let k = choose|k: int|
                    0 <= k < i + 1 && (#[trigger] name_views(names@).take(i + 1)[k]) == s;
                assert(name_views(names@).take(i as int)[k] == s);
            }
            if name_views(names@).take(i as int).contains(s) {
                let k = choose|k: int|
                    0 <= k < i && (#[trigger] name_views(names@).take(i as int)[k]) == s;
                assert(name_views(names@).take(i + 1)[k] == s);
            }
            if s == t {
                assert(name_views(names@).take(i + 1)[i as int] == s);
                if !schedule@.contains_key(t) {
                    assert(name_views(r@)[before.len() as int] == t);
                }
            }
            if name_views(r@).contains(s) && !before.contains(s) {
                let k = choose|k: int| 0 <= k < name_views(r@).len() && (#[trigger] name_views(r@)[k]) == s;
                assert(k == before.len());
            }
            if before.contains(s) {
                let k = choose|k: int| 0 <= k < before.len() && (#[trigger] before[k]) == s;
                assert(name_views(r@)[k] == s);
            }
        }
        i = i + 1;
    }
    assert(name_views(names@).take(i as int) =~= name_views(names@));
    r
}

/// The names of the stages, in order.
fn names_of(funcs: &Vec<Func>) -> (r: Vec<String>)
    ensures
        name_views(r@) == func_names(funcs@),
{
    let mut r: Vec<String> = Vec::new();
    let mut i: usize = 0;
    while i < funcs.len()
        invariant
            i <= funcs@.len(),
            r@.len() == i,
            name_views(r@) == func_names(funcs@).take(i as int),
        decreases funcs@.len() - i,
    {
        let ghost before = name_views(r@);
        r.push(funcs[i].name.clone());
        assert(name_views(r@) =~= before.push(funcs@[i as int].name@));
        assert(name_views(r@) =~= func_names(funcs@).take(i + 1));
        i = i + 1;
    }
    assert(func_names(funcs@).take(i as int) =~= func_names(funcs@));
    r
}

impl Graph {
    /// Builds the graph of `funcs`, which must be listed so that each reads
    /// only inputs and earlier stages, and each of which, like each input,
    /// must have an entry in `schedule`.
    pub fn new(name: &str, funcs: Vec<Func>, schedule: Schedule) -> (r: Result<Graph, GraphError>)
        ensures
            r is Ok <==> in_dependency_order(funcs@) && (forall|i: int|
                0 <= i < funcs@.len() ==> schedule@.contains_key(#[trigger] funcs@[i].name@)) && (
            forall|s: Seq<char>| is_input(funcs@, s) ==> #[trigger] schedule@.contains_key(s)),
            r matches Ok(g) ==> {
                &&& g.wf()
                &&& g.spec_name() == name@
                &&& g.spec_funcs() == funcs@
                &&& g.spec_schedule() == schedule@
            },
            r matches Err(GraphError::DependencyOrder { func, source }) ==> {
                &&& !in_dependency_order(funcs@)
                &&& exists|i: int|
                    0 <= i < funcs@.len() && (#[trigger] funcs@[i]).name@ == func@
                        && funcs@[i].definition.read_names().contains(source@) && defined_from(
                        funcs@,
                        i,
                        source@,
                    )
            },
            r matches Err(GraphError::MissingSchedules { funcs: missing_funcs, inputs: missing_inputs }) ==> {
                &&& in_dependency_order(funcs@)
                &&& forall|s: Seq<char>| #[trigger]
                    name_views(missing_funcs@).contains(s) <==> (func_names(funcs@).contains(s)
                        && !schedule@.contains_key(s))
                &&& forall|s: Seq<char>| #[trigger]
                    name_views(missing_inputs@).contains(s) <==> (is_input(funcs@, s)
                        && !schedule@.contains_key(s))
            },
    {
        match find_order_violation(&funcs) {
            Some((i, source)) => {
                let func = funcs[i].name.clone();
                return Err(GraphError::DependencyOrder { func, source });
            },
            None => {},
        }
        let name = name.to_string();
        let inputs = collect_inputs(&funcs);
        let outputs = names_of(&funcs);
        let params = collect_params(&funcs);
        let missing_funcs = without_schedule(&outputs, &schedule);
        let missing_inputs = without_schedule(&inputs, &schedule);
        if missing_funcs.len() > 0 || missing_inputs.len() > 0 {
            proof {
                if missing_funcs@.len() > 0 {
                    assert(name_views(missing_funcs@)[0] == missing_funcs@[0]@);
                    assert(name_views(missing_funcs@).contains(missing_funcs@[0]@));
                    let k = choose|k: int| 0 <= k < outputs@.len() && name_views(outputs@)[k] == missing_funcs@[0]@;
                    assert(funcs@[k].name@ == func_names(funcs@)[k]);
                } else {
                    assert(name_views(missing_inputs@)[0] == missing_inputs@[0]@);
                    assert(name_views(missing_inputs@).contains(missing_inputs@[0]@));
                }
            }
            return Err(GraphError::MissingSchedules { funcs: missing_funcs, inputs: missing_inputs });
        }
        proof {
            assert forall|i: int| 0 <= i < funcs@.len() implies schedule@.contains_key(
                #[trigger] funcs@[i].name@,
            ) by {
                assert(func_names(funcs@)[i] == funcs@[i].name@);
                assert(name_views(outputs@).contains(funcs@[i].name@));
                if !schedule@.contains_key(funcs@[i].name@) {
                    assert(name_views(missing_funcs@).contains(funcs@[i].name@));
                }
            }
            assert forall|s: Seq<char>| is_input(funcs@, s) implies #[trigger] schedule@.contains_key(s) by {
                assert(name_views(inputs@).contains(s));
                if !schedule@.contains_key(s) {
                    assert(name_views(missing_inputs@).contains(s));
                }
            }
        }
        Ok(Graph { name, funcs, inputs, outputs, params, schedule })
    }
}

/// Every name that a stage reads is an input of the graph or the output of
/// an earlier stage; so the outputs are listed in dependency order.
pub proof fn lemma_reads_resolve(g: &Graph)
    requires
        g.wf(),
    ensures
        forall|i: int, s: Seq<char>|
            0 <= i < g.spec_funcs().len() && #[trigger] g.spec_funcs()[i].definition.read_names().contains(s)
                ==> g.spec_inputs().contains(s) || exists|j: int|
                0 <= j < i && #[trigger] g.spec_outputs()[j] == s,
{
    let funcs = g.spec_funcs();
    assert forall|i: int, s: Seq<char>|
        0 <= i < funcs.len() && #[trigger] funcs[i].definition.read_names().contains(s) implies
            g.spec_inputs().contains(s) || exists|j: int|
            0 <= j < i && #[trigger] g.spec_outputs()[j] == s by {
        assert(read_by_first(funcs, funcs.len() as int, s)) by {
            assert(0 <= i < funcs.len() && funcs[i].definition.read_names().contains(s));
        }
        if func_names(funcs).contains(s) {
            let j = choose|j: int| 0 <= j < funcs.len() && func_names(funcs)[j] == s;
            assert(funcs[j].name@ == s);
            if j >= i {
                assert(defined_from(funcs, i, s));
            }
            assert(g.spec_outputs()[j] == s);
        }
    }
}

/// The inputs and the parameters of a graph are each in lexicographic
/// order, with no name twice.
pub proof fn lemma_names_sorted(g: &Graph)
    requires
        g.wf(),
    ensures
        strictly_sorted(g.spec_inputs()),
        strictly_sorted(g.spec_params()),
        g.spec_inputs().no_duplicates(),
        g.spec_params().no_duplicates(),
{
    assert forall|i: int, j: int|
        0 <= i < g.spec_inputs().len() && 0 <= j < g.spec_inputs().len() && i != j implies g.spec_inputs()[i]
        != g.spec_inputs()[j] by {
        if i < j {
            crate::names::lemma_lex_irreflexive(g.spec_inputs()[i]);
        } else {
            crate::names::lemma_lex_irreflexive(g.spec_inputs()[j]);
        }
    }
    assert forall|i: int, j: int|
        0 <= i < g.spec_params().len() && 0 <= j < g.spec_params().len() && i != j implies g.spec_params()[i]
        != g.spec_params()[j] by {
        if i < j {
            crate::names::lemma_lex_irreflexive(g.spec_params()[i]);
        } else {
            crate::names::lemma_lex_irreflexive(g.spec_params()[j]);
        }
    }
}

} // verus!
