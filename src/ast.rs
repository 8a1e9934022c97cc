//! The syntax tree of pipeline definitions.
//!
//! In `f(x, y) = g(x + 1, y - 1) + g(x - 1, y) + 2` the whole right-hand side
//! is a `Definition`, each `g(..)` is an `Access`, and each coordinate inside
//! an access is a `VarExpr`.

use vstd::prelude::*;

verus! {

/// One of the two free coordinate variables.
#[derive(Debug, Clone, Copy, PartialEq, Eq, Structural)]
pub enum Var {
    X,
    Y,
}

/// An expression defining the coordinate to access an input image at.
#[derive(Debug)]
pub enum VarExpr {
    Var(Var),
    Const(i32),
    Add(Box<VarExpr>, Box<VarExpr>),
    Sub(Box<VarExpr>, Box<VarExpr>),
    Mul(Box<VarExpr>, Box<VarExpr>),
}

impl VarExpr {
    /// The value of the expression at `(x, y)`, computed with 32-bit
    /// two's-complement arithmetic, as generated code computes it.
    pub open spec fn value(self, x: i32, y: i32) -> i32
        decreases self,
    {
        match self {
            VarExpr::Var(v) => match v {
                Var::X => x,
                Var::Y => y,
            },
            VarExpr::Const(c) => c,
            VarExpr::Add(l, r) => l.value(x, y).wrapping_add(r.value(x, y)),
            VarExpr::Sub(l, r) => l.value(x, y).wrapping_sub(r.value(x, y)),
            VarExpr::Mul(l, r) => l.value(x, y).wrapping_mul(r.value(x, y)),
        }
    }

    pub fn evaluate(&self, x: i32, y: i32) -> (r: i32)
        ensures
            r == self.value(x, y),
        decreases self,
    {
        match self {
            VarExpr::Var(v) => match v {
                Var::X => x,
                Var::Y => y,
            },
            VarExpr::Const(c) => *c,
            VarExpr::Add(l, r) => l.evaluate(x, y).wrapping_add(r.evaluate(x, y)),
            VarExpr::Sub(l, r) => l.evaluate(x, y).wrapping_sub(r.evaluate(x, y)),
            VarExpr::Mul(l, r) => l.evaluate(x, y).wrapping_mul(r.evaluate(x, y)),
        }
    }

    pub fn var(v: Var) -> (r: VarExpr)
        ensures
            r == VarExpr::Var(v),
    {
        VarExpr::Var(v)
    }

    pub fn constant(c: i32) -> (r: VarExpr)
        ensures
            r == VarExpr::Const(c),
    {
        VarExpr::Const(c)
    }

    pub fn add(l: VarExpr, r: VarExpr) -> (e: VarExpr)
        ensures
            e == VarExpr::Add(Box::new(l), Box::new(r)),
    {
        VarExpr::Add(Box::new(l), Box::new(r))
    }

    pub fn sub(l: VarExpr, r: VarExpr) -> (e: VarExpr)
        ensures
            e == VarExpr::Sub(Box::new(l), Box::new(r)),
    {
        VarExpr::Sub(Box::new(l), Box::new(r))
    }

    pub fn mul(l: VarExpr, r: VarExpr) -> (e: VarExpr)
        ensures
            e == VarExpr::Mul(Box::new(l), Box::new(r)),
    {
        VarExpr::Mul(Box::new(l), Box::new(r))
    }

    /// An exact copy of the expression.
    pub fn duplicate(&self) -> (r: VarExpr)
        ensures
            r == *self,
        decreases self,
    {
        match self {
            VarExpr::Var(v) => VarExpr::Var(*v),
            VarExpr::Const(c) => VarExpr::Const(*c),
            VarExpr::Add(l, r) => VarExpr::Add(Box::new(l.duplicate()), Box::new(r.duplicate())),
            VarExpr::Sub(l, r) => VarExpr::Sub(Box::new(l.duplicate()), Box::new(r.duplicate())),
            VarExpr::Mul(l, r) => VarExpr::Mul(Box::new(l.duplicate()), Box::new(r.duplicate())),
        }
    }
}

impl From<Var> for VarExpr {
    fn from(v: Var) -> (r: VarExpr) {
        VarExpr::Var(v)
    }
}

impl vstd::std_specs::convert::FromSpecImpl<Var> for VarExpr {
    open spec fn obeys_from_spec() -> bool {
        true
    }

    open spec fn from_spec(v: Var) -> VarExpr {
        VarExpr::Var(v)
    }
}

/// A runtime parameter of type `i32`.
#[derive(Debug)]
pub struct Param {
    pub name: String,
}

impl Param {
    pub fn new(name: &str) -> (r: Param)
        ensures
            r.name@ == name@,
    {
        Param { name: name.to_string() }
    }
}

/// A read of one pixel of a named stage at a computed coordinate.
#[derive(Debug)]
pub struct Access {
    /// The stage from which we're reading.
    pub source: String,
    /// The x-coordinate to read from, in terms of X and Y.
    pub x: VarExpr,
    /// The y-coordinate to read from, in terms of X and Y.
    pub y: VarExpr,
}

impl Access {
    pub fn new(source: &str, x: VarExpr, y: VarExpr) -> (r: Access)
        ensures
            r.source@ == source@,
            r.x == x,
            r.y == y,
    {
        Access { source: source.to_string(), x, y }
    }
}

#[derive(Debug, Clone, Copy, PartialEq, Eq, Structural)]
pub enum Comparison {
    /// Left equal to right.
    EQ,
    /// Left strictly greater than right.
    GT,
    /// Left greater than or equal to right.
    GTE,
    /// Left strictly less than right.
    LT,
    /// Left less than or equal to right.
    LTE,
}

impl Comparison {
    /// Whether `l` and `r` stand in this relation (signed comparison).
    pub open spec fn holds(self, l: i32, r: i32) -> bool {
        match self {
            Comparison::EQ => l == r,
            Comparison::GT => l > r,
            Comparison::GTE => l >= r,
            Comparison::LT => l < r,
            Comparison::LTE => l <= r,
        }
    }

    pub fn test(&self, l: i32, r: i32) -> (b: bool)
        ensures
            b == self.holds(l, r),
    {
        match self {
            Comparison::EQ => l == r,
            Comparison::GT => l > r,
            Comparison::GTE => l >= r,
            Comparison::LT => l < r,
            Comparison::LTE => l <= r,
        }
    }
}

/// `if lhs <cmp> rhs then if_true else if_false`.
#[derive(Debug)]
pub struct Condition {
    pub cmp: Comparison,
    pub lhs: Box<Definition>,
    pub rhs: Box<Definition>,
    pub if_true: Box<Definition>,
    pub if_false: Box<Definition>,
}

impl Condition {
    pub fn new(
        cmp: Comparison,
        lhs: Definition,
        rhs: Definition,
        if_true: Definition,
        if_false: Definition,
    ) -> (r: Condition)
        ensures
            r.cmp == cmp,
            *r.lhs == lhs,
            *r.rhs == rhs,
            *r.if_true == if_true,
            *r.if_false == if_false,
    {
        Condition {
            cmp,
            lhs: Box::new(lhs),
            rhs: Box::new(rhs),
            if_true: Box::new(if_true),
            if_false: Box::new(if_false),
        }
    }
}

/// An expression defining the value to set an image pixel to. All
/// intermediate values are of type `i32`.
#[derive(Debug)]
pub enum Definition {
    Access(Access),
    Const(i32),
    Param(String),
    Cond(Condition),
    Add(Box<Definition>, Box<Definition>),
    Mul(Box<Definition>, Box<Definition>),
    Sub(Box<Definition>, Box<Definition>),
    Div(Box<Definition>, Box<Definition>),
}

/// The character sequences of a list of names.
pub open spec fn name_views(v: Seq<String>) -> Seq<Seq<char>> {
    v.map_values(|s: String| s@)
}

/// Appends `more` to `acc`, keeping the two name views in step.
fn append_names(acc: &mut Vec<String>, more: Vec<String>)
    ensures
        name_views(final(acc)@) == name_views(old(acc)@) + name_views(more@),
{
    let mut more = more;
    let ghost a = acc@;
    let ghost m = more@;
    acc.append(&mut more);
    assert(name_views(acc@) =~= name_views(a) + name_views(m));
}

impl Definition {
    /// The names of the stages read by every access in the tree, left to
    /// right, with repetitions.
    pub open spec fn read_names(self) -> Seq<Seq<char>>
        decreases self,
    {
        match self {
            Definition::Access(a) => seq![a.source@],
            Definition::Const(_) => seq![],
            Definition::Param(_) => seq![],
            Definition::Cond(c) => (*c.lhs).read_names() + (*c.rhs).read_names() + (*c.if_true).read_names()
                + (*c.if_false).read_names(),
            Definition::Add(l, r) => l.read_names() + r.read_names(),
            Definition::Mul(l, r) => l.read_names() + r.read_names(),
            Definition::Sub(l, r) => l.read_names() + r.read_names(),
            Definition::Div(l, r) => l.read_names() + r.read_names(),
        }
    }

    /// The names of every parameter in the tree, left to right, with
    /// repetitions.
    pub open spec fn param_names(self) -> Seq<Seq<char>>
        decreases self,
    {
        match self {
            Definition::Access(_) => seq![],
            Definition::Const(_) => seq![],
            Definition::Param(p) => seq![p@],
            Definition::Cond(c) => (*c.lhs).param_names() + (*c.rhs).param_names() + (*c.if_true).param_names()
                + (*c.if_false).param_names(),
            Definition::Add(l, r) => l.param_names() + r.param_names(),
            Definition::Mul(l, r) => l.param_names() + r.param_names(),
            Definition::Sub(l, r) => l.param_names() + r.param_names(),
            Definition::Div(l, r) => l.param_names() + r.param_names(),
        }
    }
}

impl Definition {
    /// Returns the names of all the stages read in this definition.
    pub fn sources(&self) -> (r: Vec<String>)
        ensures
            name_views(r@) == self.read_names(),
        decreases self,
    {
        match self {
            Definition::Access(a) => {
                let r = vec![a.source.clone()];
                assert(name_views(r@) =~= self.read_names());
                r
            },
            Definition::Const(_) | Definition::Param(_) => {
                let r: Vec<String> = Vec::new();
                assert(name_views(r@) =~= self.read_names());
                r
            },
            Definition::Cond(c) => {
                let mut r = c.lhs.sources();
                append_names(&mut r, c.rhs.sources());
                append_names(&mut r, c.if_true.sources());
                append_names(&mut r, c.if_false.sources());
                r
            },
            Definition::Add(l, rt) | Definition::Mul(l, rt) | Definition::Sub(l, rt) | Definition::Div(
                l,
                rt,
            ) => {
                let mut r = l.sources();
                append_names(&mut r, rt.sources());
                r
            },
        }
    }

    /// Returns the names of all the parameters used in this definition.
    pub fn params(&self) -> (r: Vec<String>)
        ensures
            name_views(r@) == self.param_names(),
        decreases self,
    {
        match self {
            Definition::Param(p) => {
                let r = vec![p.clone()];
                assert(name_views(r@) =~= self.param_names());
                r
            },
            Definition::Const(_) | Definition::Access(_) => {
                let r: Vec<String> = Vec::new();
                assert(name_views(r@) =~= self.param_names());
                r
            },
            Definition::Cond(c) => {
                let mut r = c.lhs.params();
                append_names(&mut r, c.rhs.params());
                append_names(&mut r, c.if_true.params());
                append_names(&mut r, c.if_false.params());
                r
            },
            Definition::Add(l, rt) | Definition::Mul(l, rt) | Definition::Sub(l, rt) | Definition::Div(
                l,
                rt,
            ) => {
                let mut r = l.params();
                append_names(&mut r, rt.params());
                r
            },
        }
    }

    pub fn constant(c: i32) -> (r: Definition)
        ensures
            r == Definition::Const(c),
    {
        Definition::Const(c)
    }

    pub fn param(p: &Param) -> (r: Definition)
        ensures
            r matches Definition::Param(n) && n@ == p.name@,
    {
        Definition::Param(p.name.clone())
    }

    pub fn cond(c: Condition) -> (r: Definition)
        ensures
            r == Definition::Cond(c),
    {
        Definition::Cond(c)
    }

    pub fn add(l: Definition, r: Definition) -> (e: Definition)
        ensures
            e == Definition::Add(Box::new(l), Box::new(r)),
    {
        Definition::Add(Box::new(l), Box::new(r))
    }

    pub fn sub(l: Definition, r: Definition) -> (e: Definition)
        ensures
            e == Definition::Sub(Box::new(l), Box::new(r)),
    {
        Definition::Sub(Box::new(l), Box::new(r))
    }

    pub fn mul(l: Definition, r: Definition) -> (e: Definition)
        ensures
            e == Definition::Mul(Box::new(l), Box::new(r)),
    {
        Definition::Mul(Box::new(l), Box::new(r))
    }

    pub fn div(l: Definition, r: Definition) -> (e: Definition)
        ensures
            e == Definition::Div(Box::new(l), Box::new(r)),
    {
        Definition::Div(Box::new(l), Box::new(r))
    }
}

/// An image provided as an input.
#[derive(Debug)]
pub struct Source {
    pub name: String,
}

impl Source {
    pub fn new(name: &str) -> (r: Source)
        ensures
            r.name@ == name@,
    {
        Source { name: name.to_string() }
    }

    /// A read of this source at `(x, y)`.
    pub fn at(&self, x: VarExpr, y: VarExpr) -> (r: Definition)
        ensures
            r matches Definition::Access(a) && a.source@ == self.name@ && a.x == x && a.y == y,
    {
        Definition::Access(Access::new(self.name.as_str(), x, y))
    }
}

/// A named stage of a pipeline: `name(x, y) = definition`.
#[derive(Debug)]
pub struct Func {
    pub name: String,
    pub definition: Definition,
}

impl Func {
    pub fn new(name: &str, definition: Definition) -> (r: Func)
        ensures
            r.name@ == name@,
            r.definition == definition,
    {
        Func { name: name.to_string(), definition }
    }

    /// Returns the names of all the stages mentioned in this func's
    /// definition.
    pub fn sources(&self) -> (r: Vec<String>)
        ensures
            name_views(r@) == self.definition.read_names(),
    {
        self.definition.sources()
    }

    /// Returns the names of all the params mentioned in this func's
    /// definition.
    pub fn params(&self) -> (r: Vec<String>)
        ensures
            name_views(r@) == self.definition.param_names(),
    {
        self.definition.params()
    }

    /// A read of this func's output at `(x, y)`.
    pub fn at(&self, x: VarExpr, y: VarExpr) -> (r: Definition)
        ensures
            r matches Definition::Access(a) && a.source@ == self.name@ && a.x == x && a.y == y,
    {
        Definition::Access(Access::new(self.name.as_str(), x, y))
    }
}

/// The iteration order of one stage: its loop variables, outermost first.
#[derive(Debug)]
pub struct FuncSchedule {
    pub variables: Vec<Var>,
}

impl FuncSchedule {
    /// Iterates over `y` in the outer loop.
    pub fn by_row() -> (r: FuncSchedule)
        ensures
            r.variables@ == seq![Var::Y, Var::X],
    {
        FuncSchedule { variables: vec![Var::Y, Var::X] }
    }

    /// Iterates over `x` in the outer loop.
    pub fn by_column() -> (r: FuncSchedule)
        ensures
            r.variables@ == seq![Var::X, Var::Y],
    {
        FuncSchedule { variables: vec![Var::X, Var::Y] }
    }

    /// Whether `y` is the outer loop variable.
    pub open spec fn y_outer(self) -> bool {
        self.variables@.len() > 0 && self.variables@[0] == Var::Y
    }
}

/// The map that a list of `(name, schedule)` entries stands for: a later
/// entry for a name replaces an earlier one.
pub open spec fn schedule_map(entries: Seq<(String, FuncSchedule)>) -> Map<Seq<char>, Seq<Var>>
    decreases entries.len(),
{
    if entries.len() == 0 {
        Map::empty()
    } else {
        schedule_map(entries.drop_last()).insert(entries.last().0@, entries.last().1.variables@)
    }
}

proof fn lemma_schedule_map_last(entries: Seq<(String, FuncSchedule)>, i: int, k: Seq<char>)
    requires
        0 <= i < entries.len(),
        entries[i].0@ == k,
        forall|j: int| i < j < entries.len() ==> entries[j].0@ != k,
    ensures
        schedule_map(entries).contains_key(k),
        schedule_map(entries)[k] == entries[i].1.variables@,
    decreases entries.len(),
{
    if i < entries.len() - 1 {
        lemma_schedule_map_last(entries.drop_last(), i, k);
    }
}

proof fn lemma_schedule_map_absent(entries: Seq<(String, FuncSchedule)>, k: Seq<char>)
    requires
        forall|j: int| 0 <= j < entries.len() ==> entries[j].0@ != k,
    ensures
        !schedule_map(entries).contains_key(k),
    decreases entries.len(),
{
    if entries.len() > 0 {
        lemma_schedule_map_absent(entries.drop_last(), k);
    }
}

/// The schedules of the stages and inputs of a pipeline, by name.
#[derive(Debug)]
pub struct Schedule {
    entries: Vec<(String, FuncSchedule)>,
}

impl View for Schedule {
    type V = Map<Seq<char>, Seq<Var>>;

    closed spec fn view(&self) -> Map<Seq<char>, Seq<Var>> {
        schedule_map(self.entries@)
    }
}

impl Schedule {
    pub fn new() -> (r: Schedule)
        ensures
            r@ == Map::<Seq<char>, Seq<Var>>::empty(),
    {
        Schedule { entries: Vec::new() }
    }

    fn insert(&mut self, name: &String, sched: FuncSchedule)
        ensures
            final(self)@ == old(self)@.insert(name@, sched.variables@),
    {
        let ghost old_entries = self.entries@;
        self.entries.push((name.clone(), sched));
        assert(self.entries@.drop_last() =~= old_entries);
    }

    pub fn add_func(&mut self, func: &Func, sched: FuncSchedule)
        ensures
            final(self)@ == old(self)@.insert(func.name@, sched.variables@),
    {
        self.insert(&func.name, sched);
    }

    pub fn add_source(&mut self, source: &Source, sched: FuncSchedule)
        ensures
            final(self)@ == old(self)@.insert(source.name@, sched.variables@),
    {
        self.insert(&source.name, sched);
    }

    /// The schedule recorded for `name`, if any.
    pub fn get(&self, name: &String) -> (r: Option<&FuncSchedule>)
        ensures
            r is None <==> !self@.contains_key(name@),
            r matches Some(s) ==> s.variables@ == self@[name@],
    {
        let mut i = self.entries.len();
        while i > 0
            invariant
                i <= self.entries@.len(),
                forall|j: int| i <= j < self.entries@.len() ==> self.entries@[j].0@ != name@,
            decreases i,
        {
            i = i - 1;
            if self.entries[i].0 == *name {
                proof {
                    lemma_schedule_map_last(self.entries@, i as int, name@);
                }
                return Some(&self.entries[i].1);
            }
        }
        proof {
            lemma_schedule_map_absent(self.entries@, name@);
        }
        None
    }

    /// Whether a schedule is recorded for `name`.
    pub fn contains(&self, name: &String) -> (r: bool)
        ensures
            r == self@.contains_key(name@),
    {
        self.get(name).is_some()
    }

    pub fn get_func_schedule(&self, func: &Func) -> (r: &FuncSchedule)
        requires
            self@.contains_key(func.name@),
        ensures
            r.variables@ == self@[func.name@],
    {
        self.get(&func.name).unwrap()
    }

    pub fn get_source_schedule(&self, source: &Source) -> (r: &FuncSchedule)
        requires
            self@.contains_key(source.name@),
        ensures
            r.variables@ == self@[source.name@],
    {
        self.get(&source.name).unwrap()
    }
}

} // verus!
