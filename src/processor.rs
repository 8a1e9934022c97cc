//! Running a pipeline: checking what the caller supplies, allocating the
//! output buffers, computing every stage pixel by pixel by the meaning of
//! its definition (which `lowering` proves its lowered code to compute),
//! and recording the trace of reads and writes.
//!
//! All arithmetic is on `i32` and wraps; a pixel is read zero-extended and
//! stored truncated to 8 bits; a read outside its image yields 0.

use vstd::prelude::*;
use crate::ast::{name_views, Access, Definition, Func, Param, Source, Var, VarExpr};
use crate::graph::{defined_from, func_names, is_input, read_by_first, Graph};
use crate::image::GrayImage;
use crate::trace::{Action, Trace, TraceId};

verus! {

/// The contents of an image: its size and its buffer.
pub struct Raster {
    pub width: nat,
    pub height: nat,
    pub data: Seq<u8>,
}

pub open spec fn raster(img: GrayImage) -> Raster {
    Raster { width: img.spec_width(), height: img.spec_height(), data: img.spec_data() }
}

impl Raster {
    pub open spec fn contains(self, x: int, y: int) -> bool {
        0 <= x < self.width && 0 <= y < self.height
    }

    pub open spec fn pixel(self, x: int, y: int) -> u8 {
        self.data[y * self.width + x]
    }
}

/// What a stage sees while it is computed: the buffers it can read, by
/// name, and the parameter values, by name.
pub struct Scene {
    pub names: Seq<Seq<char>>,
    pub images: Seq<Raster>,
    pub param_names: Seq<Seq<char>>,
    pub param_values: Seq<i32>,
}

/// The index of the first occurrence of `n` in `names`, or -1.
pub open spec fn position(names: Seq<Seq<char>>, n: Seq<char>) -> int
    decreases names.len(),
{
    if names.len() == 0 {
        -1
    } else if names[0] == n {
        0
    } else {
        let p = position(names.drop_first(), n);
        if p < 0 {
            -1
        } else {
            p + 1
        }
    }
}

proof fn lemma_position(names: Seq<Seq<char>>, n: Seq<char>, i: int)
    requires
        0 <= i <= names.len(),
        forall|k: int| 0 <= k < i ==> names[k] != n,
        i < names.len() ==> names[i] == n,
    ensures
        position(names, n) == if i < names.len() {
            i
        } else {
            -1
        },
    decreases i,
{
    if i > 0 {
        lemma_position(names.drop_first(), n, i - 1);
    }
}

pub(crate) proof fn lemma_position_range(names: Seq<Seq<char>>, n: Seq<char>)
    ensures
        -1 <= position(names, n) < names.len(),
        0 <= position(names, n) ==> names[position(names, n)] == n,
        position(names, n) < 0 ==> !names.contains(n),
    decreases names.len(),
{
    if names.len() > 0 && names[0] != n {
        lemma_position_range(names.drop_first(), n);
        if position(names, n) < 0 && names.contains(n) {
            let k = choose|k: int| 0 <= k < names.len() && names[k] == n;
            assert(names.drop_first()[k - 1] == n);
        }
    }
}

/// The value that `d` reads at `(x, y)`: the pixel, zero-extended, or 0
/// outside the image (or for a name that is not there).
pub open spec fn read_value(scene: Scene, source: Seq<char>, x: i32, y: i32) -> i32 {
    let k = position(scene.names, source);
    if 0 <= k < scene.images.len() && scene.images[k].contains(x as int, y as int) {
        scene.images[k].pixel(x as int, y as int) as i32
    } else {
        0
    }
}

pub open spec fn param_value(scene: Scene, p: Seq<char>) -> i32 {
    let k = position(scene.param_names, p);
    if 0 <= k < scene.param_values.len() {
        scene.param_values[k]
    } else {
        0
    }
}

/// Signed division rounding toward zero; 0 where it is undefined
/// (a zero divisor, or `i32::MIN / -1`).
pub open spec fn div_value(a: i32, b: i32) -> i32 {
    match a.checked_div(b) {
        Some(q) => q,
        None => 0,
    }
}

/// The value of `d` at `(x, y)`.
pub open spec fn eval(d: Definition, scene: Scene, x: i32, y: i32) -> i32
    decreases d,
{
    match d {
        Definition::Access(a) => read_value(scene, a.source@, a.x.value(x, y), a.y.value(x, y)),
        Definition::Const(c) => c,
        Definition::Param(p) => param_value(scene, p@),
        Definition::Cond(c) => if c.cmp.holds(eval(*c.lhs, scene, x, y), eval(*c.rhs, scene, x, y)) {
            eval(*c.if_true, scene, x, y)
        } else {
            eval(*c.if_false, scene, x, y)
        },
        Definition::Add(l, r) => eval(*l, scene, x, y).wrapping_add(eval(*r, scene, x, y)),
        Definition::Sub(l, r) => eval(*l, scene, x, y).wrapping_sub(eval(*r, scene, x, y)),
        Definition::Mul(l, r) => eval(*l, scene, x, y).wrapping_mul(eval(*r, scene, x, y)),
        Definition::Div(l, r) => div_value(eval(*l, scene, x, y), eval(*r, scene, x, y)),
    }
}

/// The reads that evaluating `d` at `(x, y)` performs, in order: every
/// access inside its image, the four parts of a condition all evaluated.
pub open spec fn reads(d: Definition, scene: Scene, x: i32, y: i32) -> Seq<Action>
    decreases d,
{
    match d {
        Definition::Access(a) => {
            let k = position(scene.names, a.source@);
            let (ax, ay) = (a.x.value(x, y), a.y.value(x, y));
            if 0 <= k < scene.images.len() && scene.images[k].contains(ax as int, ay as int) {
                seq![Action::Read(TraceId(k as usize), ax as usize, ay as usize)]
            } else {
                seq![]
            }
        },
        Definition::Const(_) => seq![],
        Definition::Param(_) => seq![],
        Definition::Cond(c) => reads(*c.lhs, scene, x, y) + reads(*c.rhs, scene, x, y) + reads(
            *c.if_true,
            scene,
            x,
            y,
        ) + reads(*c.if_false, scene, x, y),
        Definition::Add(l, r) => reads(*l, scene, x, y) + reads(*r, scene, x, y),
        Definition::Sub(l, r) => reads(*l, scene, x, y) + reads(*r, scene, x, y),
        Definition::Mul(l, r) => reads(*l, scene, x, y) + reads(*r, scene, x, y),
        Definition::Div(l, r) => reads(*l, scene, x, y) + reads(*r, scene, x, y),
    }
}

/// The coordinates of the `inner`-th pixel of the `outer`-th line of a
/// loop nest whose outer variable is `y` when `y_outer`.
pub open spec fn loop_point(y_outer: bool, outer: int, inner: int) -> (int, int) {
    if y_outer {
        (inner, outer)
    } else {
        (outer, inner)
    }
}

/// The actions for computing one pixel of a stage stored in image `id`:
/// its reads, then the write of the truncated value.
pub open spec fn pixel_actions(d: Definition, scene: Scene, id: int, x: int, y: int) -> Seq<Action> {
    reads(d, scene, x as i32, y as i32).push(
        Action::Write(TraceId(id as usize), x as usize, y as usize, eval(d, scene, x as i32, y as i32) as u8),
    )
}

/// The actions of the first `n` pixels of line `outer`.
pub open spec fn line_actions(
    d: Definition,
    scene: Scene,
    id: int,
    y_outer: bool,
    outer: int,
    n: int,
) -> Seq<Action>
    decreases n,
{
    if n <= 0 {
        seq![]
    } else {
        let (x, y) = loop_point(y_outer, outer, n - 1);
        line_actions(d, scene, id, y_outer, outer, n - 1) + pixel_actions(d, scene, id, x, y)
    }
}

/// The actions of the first `m` lines, each of `n` pixels.
pub open spec fn nest_actions(
    d: Definition,
    scene: Scene,
    id: int,
    y_outer: bool,
    m: int,
    n: int,
) -> Seq<Action>
    decreases m,
{
    if m <= 0 {
        seq![]
    } else {
        nest_actions(d, scene, id, y_outer, m - 1, n) + line_actions(d, scene, id, y_outer, m - 1, n)
    }
}

/// The actions of computing a stage over a `w` by `h` image.
pub open spec fn stage_actions(d: Definition, scene: Scene, id: int, y_outer: bool, w: int, h: int) -> Seq<Action> {
    if y_outer {
        nest_actions(d, scene, id, y_outer, h, w)
    } else {
        nest_actions(d, scene, id, y_outer, w, h)
    }
}

/// `img` is the `w` by `h` image whose pixels are the truncated values of
/// `d`.
pub open spec fn computes(img: Raster, d: Definition, scene: Scene, w: int, h: int) -> bool {
    &&& img.width == w
    &&& img.height == h
    &&& img.data.len() == w * h
    &&& forall|x: int, y: int|
        0 <= x < w && 0 <= y < h ==> #[trigger] img.pixel(x, y) == eval(d, scene, x as i32, y as i32) as u8
}

/// Every action of `acts` fits `images`.
pub open spec fn all_fit(acts: Seq<Action>, images: Seq<GrayImage>) -> bool {
    forall|i: int| 0 <= i < acts.len() ==> crate::trace::action_fits(#[trigger] acts[i], images)
}

/// The first `n` of `images` have the sizes of the scene's images.
pub open spec fn sizes_match(scene: Scene, images: Seq<GrayImage>) -> bool {
    &&& scene.images.len() <= images.len()
    &&& images.len() <= usize::MAX
    &&& forall|k: int|
        0 <= k < scene.images.len() ==> (#[trigger] images[k]).spec_width() == scene.images[k].width
            && images[k].spec_height() == scene.images[k].height
}

proof fn lemma_concat_fit(a: Seq<Action>, b: Seq<Action>, images: Seq<GrayImage>)
    requires
        all_fit(a, images),
        all_fit(b, images),
    ensures
        all_fit(a + b, images),
{
    assert forall|i: int| 0 <= i < (a + b).len() implies crate::trace::action_fits(
        #[trigger] (a + b)[i],
        images,
    ) by {
        if i < a.len() {
            assert((a + b)[i] == a[i]);
        } else {
            assert((a + b)[i] == b[i - a.len()]);
        }
    }
}

proof fn lemma_reads_fit(d: Definition, scene: Scene, x: i32, y: i32, images: Seq<GrayImage>)
    requires
        sizes_match(scene, images),
    ensures
        all_fit(reads(d, scene, x, y), images),
    decreases d,
{
    match d {
        Definition::Cond(c) => {
            assert(reads(d, scene, x, y) == reads(*c.lhs, scene, x, y) + reads(*c.rhs, scene, x, y)
                + reads(*c.if_true, scene, x, y) + reads(*c.if_false, scene, x, y));
            lemma_reads_fit(*c.lhs, scene, x, y, images);
            lemma_reads_fit(*c.rhs, scene, x, y, images);
            lemma_reads_fit(*c.if_true, scene, x, y, images);
            lemma_reads_fit(*c.if_false, scene, x, y, images);
            lemma_concat_fit(reads(*c.lhs, scene, x, y), reads(*c.rhs, scene, x, y), images);
            lemma_concat_fit(
                reads(*c.lhs, scene, x, y) + reads(*c.rhs, scene, x, y),
                reads(*c.if_true, scene, x, y),
                images,
            );
            lemma_concat_fit(
                reads(*c.lhs, scene, x, y) + reads(*c.rhs, scene, x, y) + reads(*c.if_true, scene, x, y),
                reads(*c.if_false, scene, x, y),
                images,
            );
        },
        Definition::Add(l, r) | Definition::Sub(l, r) | Definition::Mul(l, r) | Definition::Div(l, r) => {
            lemma_reads_fit(*l, scene, x, y, images);
            lemma_reads_fit(*r, scene, x, y, images);
            lemma_concat_fit(reads(*l, scene, x, y), reads(*r, scene, x, y), images);
        },
        _ => {},
    }
}

proof fn lemma_line_fits(
    d: Definition,
    scene: Scene,
    id: int,
    y_outer: bool,
    outer: int,
    n: int,
    w: int,
    h: int,
    images: Seq<GrayImage>,
)
    requires
        sizes_match(scene, images),
        0 <= id < images.len(),
        images[id].spec_width() == w,
        images[id].spec_height() == h,
        0 <= outer < (if y_outer { h } else { w }),
        n <= (if y_outer { w } else { h }),
        w <= i32::MAX,
        h <= i32::MAX,
    ensures
        all_fit(line_actions(d, scene, id, y_outer, outer, n), images),
    decreases n,
{
    if n > 0 {
        let (x, y) = loop_point(y_outer, outer, n - 1);
        lemma_line_fits(d, scene, id, y_outer, outer, n - 1, w, h, images);
        lemma_reads_fit(d, scene, x as i32, y as i32, images);
        let p = pixel_actions(d, scene, id, x, y);
        assert(all_fit(p, images)) by {
            assert forall|i: int| 0 <= i < p.len() implies crate::trace::action_fits(
                #[trigger] p[i],
                images,
            ) by {
                if i < p.len() - 1 {
                    assert(p[i] == reads(d, scene, x as i32, y as i32)[i]);
                }
            }
        }
        lemma_concat_fit(line_actions(d, scene, id, y_outer, outer, n - 1), p, images);
    }
}

proof fn lemma_nest_fits(
    d: Definition,
    scene: Scene,
    id: int,
    y_outer: bool,
    m: int,
    w: int,
    h: int,
    images: Seq<GrayImage>,
)
    requires
        sizes_match(scene, images),
        0 <= id < images.len(),
        images[id].spec_width() == w,
        images[id].spec_height() == h,
        m <= (if y_outer { h } else { w }),
        w <= i32::MAX,
        h <= i32::MAX,
    ensures
        all_fit(nest_actions(d, scene, id, y_outer, m, if y_outer { w } else { h }), images),
    decreases m,
{
    if m > 0 {
        let n = if y_outer { w } else { h };
        lemma_nest_fits(d, scene, id, y_outer, m - 1, w, h, images);
        lemma_line_fits(d, scene, id, y_outer, m - 1, n, w, h, images);
        lemma_concat_fit(
            nest_actions(d, scene, id, y_outer, m - 1, n),
            line_actions(d, scene, id, y_outer, m - 1, n),
            images,
        );
    }
}

/// The buffers and parameters a stage is computed with, in executable form.
struct Env {
    names: Vec<String>,
    images: Vec<GrayImage>,
    param_names: Vec<String>,
    param_values: Vec<i32>,
}

impl Env {
    spec fn scene(&self) -> Scene {
        Scene {
            names: name_views(self.names@),
            images: self.images@.map_values(|i: GrayImage| raster(i)),
            param_names: name_views(self.param_names@),
            param_values: self.param_values@,
        }
    }

    spec fn wf(&self) -> bool {
        &&& self.names@.len() == self.images@.len()
        &&& self.param_names@.len() == self.param_values@.len()
    }
}

pub(crate) fn find_name(names: &Vec<String>, n: &String) -> (r: usize)
    ensures
        r == if position(name_views(names@), n@) < 0 {
            names@.len() as int
        } else {
            position(name_views(names@), n@)
        },
{
    let mut i: usize = 0;
    while i < names.len()
        invariant
            i <= names@.len(),
            forall|k: int| 0 <= k < i ==> name_views(names@)[k] != n@,
        decreases names@.len() - i,
    {
        if names[i] == *n {
            proof {
                lemma_position(name_views(names@), n@, i as int);
            }
            return i;
        }
        i = i + 1;
    }
    proof {
        lemma_position(name_views(names@), n@, i as int);
    }
    i
}

fn read_access(a: &Access, env: &Env, x: i32, y: i32, log: &mut Vec<Action>, tracing: bool) -> (r: i32)
    requires
        env.wf(),
    ensures
        r == read_value(env.scene(), a.source@, a.x.value(x, y), a.y.value(x, y)),
        final(log)@ == old(log)@ + if tracing {
            reads(Definition::Access(*a), env.scene(), x, y)
        } else {
            seq![]
        },
{
    let ax = a.x.evaluate(x, y);
    let ay = a.y.evaluate(x, y);
    let k = find_name(&env.names, &a.source);
    let ghost scene = env.scene();
    assert(scene.images.len() == env.images@.len());
    if k < env.images.len() {
        let img = &env.images[k];
        assert(scene.images[k as int] == raster(*img));
        if 0 <= ax && (ax as usize) < img.width() && 0 <= ay && (ay as usize) < img.height() {
            let v = img.get(ax as usize, ay as usize);
            if tracing {
                log.push(Action::Read(TraceId(k), ax as usize, ay as usize));
            }
            assert(final(log)@ =~= old(log)@ + if tracing {
                reads(Definition::Access(*a), env.scene(), x, y)
            } else {
                seq![]
            });
            return v as i32;
        }
    }
    assert(final(log)@ =~= old(log)@ + if tracing {
        reads(Definition::Access(*a), env.scene(), x, y)
    } else {
        seq![]
    });
    0
}

fn eval_definition(d: &Definition, env: &Env, x: i32, y: i32, log: &mut Vec<Action>, tracing: bool) -> (r: i32)
    requires
        env.wf(),
    ensures
        r == eval(*d, env.scene(), x, y),
        final(log)@ == old(log)@ + if tracing {
            reads(*d, env.scene(), x, y)
        } else {
            seq![]
        },
    decreases d,
{
    let ghost start = log@;
    let ghost scene = env.scene();
    let r = match d {
        Definition::Access(a) => read_access(a, env, x, y, log, tracing),
        Definition::Const(c) => *c,
        Definition::Param(p) => {
            let k = find_name(&env.param_names, p);
            if k < env.param_values.len() {
                env.param_values[k]
            } else {
                0
            }
        },
        Definition::Cond(c) => {
            let l = eval_definition(&c.lhs, env, x, y, log, tracing);
            let r = eval_definition(&c.rhs, env, x, y, log, tracing);
            let t = eval_definition(&c.if_true, env, x, y, log, tracing);
            let f = eval_definition(&c.if_false, env, x, y, log, tracing);
            if c.cmp.test(l, r) {
                t
            } else {
                f
            }
        },
        Definition::Add(l, r) => {
            let a = eval_definition(l, env, x, y, log, tracing);
            let b = eval_definition(r, env, x, y, log, tracing);
            a.wrapping_add(b)
        },
        Definition::Sub(l, r) => {
            let a = eval_definition(l, env, x, y, log, tracing);
            let b = eval_definition(r, env, x, y, log, tracing);
            a.wrapping_sub(b)
        },
        Definition::Mul(l, r) => {
            let a = eval_definition(l, env, x, y, log, tracing);
            let b = eval_definition(r, env, x, y, log, tracing);
            a.wrapping_mul(b)
        },
        Definition::Div(l, r) => {
            let a = eval_definition(l, env, x, y, log, tracing);
            let b = eval_definition(r, env, x, y, log, tracing);
            match a.checked_div(b) {
                Some(q) => q,
                None => 0,
            }
        },
    };
    assert(log@ =~= start + if tracing {
        reads(*d, scene, x, y)
    } else {
        seq![]
    });
    r
}

/// Computes one stage over a `w` by `h` image, in the loop order of its
/// schedule; with `tracing`, records its reads and writes as image `id`.
fn compute_stage(
    d: &Definition,
    env: &Env,
    y_outer: bool,
    w: usize,
    h: usize,
    id: usize,
    log: &mut Vec<Action>,
    tracing: bool,
) -> (out: GrayImage)
    requires
        env.wf(),
        w <= i32::MAX,
        h <= i32::MAX,
        w * h <= usize::MAX,
    ensures
        computes(raster(out), *d, env.scene(), w as int, h as int),
        final(log)@ == old(log)@ + if tracing {
            stage_actions(*d, env.scene(), id as int, y_outer, w as int, h as int)
        } else {
            seq![]
        },
{
    let ghost scene = env.scene();
    let mut out: GrayImage = GrayImage::new(w, h);
    let (outer_max, inner_max) = if y_outer {
        (h, w)
    } else {
        (w, h)
    };
    let ghost start = log@;
    let mut o: usize = 0;
    while o < outer_max
        invariant
            env.wf(),
            scene == env.scene(),
            w <= i32::MAX,
            h <= i32::MAX,
            outer_max == (if y_outer { h } else { w }),
            inner_max == (if y_outer { w } else { h }),
            o <= outer_max,
            out.spec_width() == w,
            out.spec_height() == h,
            out.spec_data().len() == w * h,
            forall|x: int, y: int|
                0 <= x < w && 0 <= y < h && (if y_outer { y < o } else { x < o }) ==> #[trigger] raster(
                    out,
                ).pixel(x, y) == eval(*d, scene, x as i32, y as i32) as u8,
            log@ == start + if tracing {
                nest_actions(*d, scene, id as int, y_outer, o as int, inner_max as int)
            } else {
                seq![]
            },
        decreases outer_max - o,
    {
        let ghost line_start = log@;
        let mut n: usize = 0;
        while n < inner_max
            invariant
                env.wf(),
                scene == env.scene(),
                w <= i32::MAX,
                h <= i32::MAX,
                outer_max == (if y_outer { h } else { w }),
                inner_max == (if y_outer { w } else { h }),
                o < outer_max,
                n <= inner_max,
                out.spec_width() == w,
                out.spec_height() == h,
                out.spec_data().len() == w * h,
                forall|x: int, y: int|
                    0 <= x < w && 0 <= y < h && (if y_outer {
                        y < o || (y == o && x < n)
                    } else {
                        x < o || (x == o && y < n)
                    }) ==> #[trigger] raster(out).pixel(x, y) == eval(*d, scene, x as i32, y as i32) as u8,
                log@ == line_start + if tracing {
                    line_actions(*d, scene, id as int, y_outer, o as int, n as int)
                } else {
                    seq![]
                },
            decreases inner_max - n,
        {
            let (x, y) = if y_outer {
                (n, o)
            } else {
                (o, n)
            };
            let ghost before = log@;
            let v = eval_definition(d, env, x as i32, y as i32, log, tracing);
            let c = #[verifier::truncate] (v as u8);
            let ghost old_out = raster(out);
            proof {
                crate::image::lemma_offset_distinct(x as int, y as int, x as int, y as int, w as int, h as int);
            }
            out.set(x, y, c);
            assert(raster(out).data == old_out.data.update(y * w + x, c));
            assert(out.spec_data().len() == w * h);
            if tracing {
                log.push(Action::Write(TraceId(id), x, y, c));
            }
            proof {
                assert(log@ =~= line_start + if tracing {
                    line_actions(*d, scene, id as int, y_outer, o as int, n + 1)
                } else {
                    seq![]
                });
                assert forall|px: int, py: int|
                    0 <= px < w && 0 <= py < h && (if y_outer {
                        py < o || (py == o && px < n + 1)
                    } else {
                        px < o || (px == o && py < n + 1)
                    }) implies #[trigger] raster(out).pixel(px, py) == eval(
                    *d,
                    scene,
                    px as i32,
                    py as i32,
                ) as u8 by {
                    crate::image::lemma_offset_distinct(px, py, x as int, y as int, w as int, h as int);
                    if px == x && py == y {
                        assert(raster(out).pixel(px, py) == c);
                    } else {
                        assert(raster(out).pixel(px, py) == old_out.pixel(px, py));
                    }
                }
            }
            n = n + 1;
        }
        proof {
            assert(log@ =~= start + if tracing {
                nest_actions(*d, scene, id as int, y_outer, o + 1, inner_max as int)
            } else {
                seq![]
            });
        }
        o = o + 1;
    }
    out
}

/// Why a pipeline could not be run.
#[derive(Debug)]
pub enum ProcessError {
    /// A source the graph reads is not among the supplied inputs.
    MissingInput(String),
    /// No input image was supplied, so the image size is unknown.
    NoInputs,
    /// A supplied input does not have the size of the first supplied input.
    ShapeMismatch(String),
    /// A parameter the graph uses has no supplied value.
    MissingParam(String),
    /// A value is supplied for a parameter that the graph does not use.
    UnusedParam(String),
    /// The images are too wide or too high for 32-bit coordinates.
    TooLarge,
    /// Another traced run is in progress; runs do not report this error
    /// themselves, but code that installs a process-wide trace sink does.
    TraceInUse,
}

/// The names of the supplied inputs, in order.
pub open spec fn supplied_names(inputs: Seq<(&Source, &GrayImage)>) -> Seq<Seq<char>> {
    inputs.map_values(|p: (&Source, &GrayImage)| p.0.name@)
}

/// The names of the supplied parameters, in order.
pub open spec fn supplied_param_names(params: Seq<(Param, i32)>) -> Seq<Seq<char>> {
    params.map_values(|p: (Param, i32)| p.0.name@)
}

/// The image supplied for each of `names` (the first one of that name).
pub open spec fn chosen_inputs(inputs: Seq<(&Source, &GrayImage)>, names: Seq<Seq<char>>) -> Seq<Raster> {
    names.map_values(|n: Seq<char>| raster(*inputs[position(supplied_names(inputs), n)].1))
}

/// The value supplied for each of `names` (the first one of that name).
pub open spec fn chosen_params(params: Seq<(Param, i32)>, names: Seq<Seq<char>>) -> Seq<i32> {
    names.map_values(|n: Seq<char>| params[position(supplied_param_names(params), n)].1)
}

/// Whether `y` is the outer loop variable of a schedule.
pub open spec fn y_outer(vars: Seq<Var>) -> bool {
    vars.len() > 0 && vars[0] == Var::Y
}

/// What stage `k` of `g` sees: the inputs, the outputs of the stages before
/// it, and the parameters.
pub open spec fn stage_scene(g: Graph, ins: Seq<Raster>, pvals: Seq<i32>, outs: Seq<Raster>, k: int) -> Scene {
    Scene {
        names: g.spec_inputs() + g.spec_outputs().take(k),
        images: ins + outs.take(k),
        param_names: g.spec_params(),
        param_values: pvals,
    }
}

/// `outs` are the images of the stages of `g`, each `w` by `h`, computed
/// in order from the input images `ins` and the parameter values `pvals`.
pub open spec fn stage_images(g: Graph, ins: Seq<Raster>, pvals: Seq<i32>, w: int, h: int, outs: Seq<Raster>) -> bool {
    &&& outs.len() == g.spec_funcs().len()
    &&& forall|k: int|
        0 <= k < outs.len() ==> computes(
            #[trigger] outs[k],
            g.spec_funcs()[k].definition,
            stage_scene(g, ins, pvals, outs, k),
            w,
            h,
        )
}

/// The trace actions of the first `k` stages of `g`.
pub open spec fn run_actions(g: Graph, ins: Seq<Raster>, pvals: Seq<i32>, w: int, h: int, outs: Seq<Raster>, k: int) -> Seq<Action>
    decreases k,
{
    if k <= 0 {
        seq![]
    } else {
        run_actions(g, ins, pvals, w, h, outs, k - 1) + stage_actions(
            g.spec_funcs()[k - 1].definition,
            stage_scene(g, ins, pvals, outs, k - 1),
            ins.len() + k - 1,
            y_outer(g.spec_schedule()[g.spec_funcs()[k - 1].name@]),
            w,
            h,
        )
    }
}

/// A `w` by `h` image of zeros.
pub open spec fn zero_raster(w: int, h: int) -> Raster {
    Raster { width: w as nat, height: h as nat, data: Seq::new((w * h) as nat, |i: int| 0u8) }
}

/// Some input that `g` reads is not supplied.
pub open spec fn missing_input(g: Graph, inputs: Seq<(&Source, &GrayImage)>) -> bool {
    exists|n: Seq<char>| #[trigger] g.spec_inputs().contains(n) && !supplied_names(inputs).contains(n)
}

/// Some supplied image does not have the size of the first.
pub open spec fn shape_mismatch(inputs: Seq<(&Source, &GrayImage)>) -> bool {
    exists|i: int|
        0 <= i < inputs.len() && ((#[trigger] inputs[i]).1.spec_width() != inputs[0].1.spec_width()
            || inputs[i].1.spec_height() != inputs[0].1.spec_height())
}

/// Some parameter that `g` uses has no supplied value.
pub open spec fn missing_param(g: Graph, params: Seq<(Param, i32)>) -> bool {
    exists|n: Seq<char>| #[trigger] g.spec_params().contains(n) && !supplied_param_names(params).contains(n)
}

/// Some supplied parameter is one that `g` does not use.
pub open spec fn unused_param(g: Graph, params: Seq<(Param, i32)>) -> bool {
    exists|n: Seq<char>| #[trigger] supplied_param_names(params).contains(n) && !g.spec_params().contains(n)
}

/// The images are too large for 32-bit coordinates, or there are too many
/// buffers to count.
pub open spec fn too_large(g: Graph, inputs: Seq<(&Source, &GrayImage)>) -> bool {
    inputs[0].1.spec_width() > i32::MAX || inputs[0].1.spec_height() > i32::MAX || g.spec_inputs().len()
        + g.spec_funcs().len() > usize::MAX
}

/// `g` can be run on `inputs` and `params`: every input it reads and every
/// parameter it uses is supplied, with no other parameter, and all supplied
/// images have one size that fits 32-bit coordinates.
pub open spec fn call_ok(g: Graph, inputs: Seq<(&Source, &GrayImage)>, params: Seq<(Param, i32)>) -> bool {
    &&& !missing_input(g, inputs)
    &&& inputs.len() > 0
    &&& !shape_mismatch(inputs)
    &&& !missing_param(g, params)
    &&& !unused_param(g, params)
    &&& !too_large(g, inputs)
}

/// `e` is the error that a run of `g` on `inputs` and `params` reports:
/// the checks are made in the order of the variants.
pub open spec fn rejects(
    g: Graph,
    inputs: Seq<(&Source, &GrayImage)>,
    params: Seq<(Param, i32)>,
    e: ProcessError,
) -> bool {
    match e {
        ProcessError::MissingInput(n) => missing_input(g, inputs) && g.spec_inputs().contains(n@)
            && !supplied_names(inputs).contains(n@),
        ProcessError::NoInputs => !missing_input(g, inputs) && inputs.len() == 0,
        ProcessError::ShapeMismatch(n) => !missing_input(g, inputs) && inputs.len() > 0 && shape_mismatch(
            inputs,
        ) && exists|i: int|
            0 <= i < inputs.len() && supplied_names(inputs)[i] == n@ && (inputs[i].1.spec_width()
                != inputs[0].1.spec_width() || inputs[i].1.spec_height() != inputs[0].1.spec_height()),
        ProcessError::MissingParam(n) => !missing_input(g, inputs) && inputs.len() > 0 && !shape_mismatch(
            inputs,
        ) && g.spec_params().contains(n@) && !supplied_param_names(params).contains(n@),
        ProcessError::UnusedParam(n) => !missing_input(g, inputs) && inputs.len() > 0 && !shape_mismatch(
            inputs,
        ) && !missing_param(g, params) && supplied_param_names(params).contains(n@)
            && !g.spec_params().contains(n@),
        ProcessError::TooLarge => !missing_input(g, inputs) && inputs.len() > 0 && !shape_mismatch(inputs)
            && !missing_param(g, params) && !unused_param(g, params) && too_large(g, inputs),
        ProcessError::TraceInUse => false,
    }
}

/// What running `g` returns or fails with.
pub open spec fn run_result(
    g: Graph,
    inputs: Seq<(&Source, &GrayImage)>,
    params: Seq<(Param, i32)>,
    r: Result<(Seq<Raster>, Seq<Seq<char>>), ProcessError>,
) -> bool {
    match r {
        Err(e) => rejects(g, inputs, params, e),
        Ok((outs, names)) => call_ok(g, inputs, params) && names == g.spec_outputs() && stage_images(
            g,
            chosen_inputs(inputs, g.spec_inputs()),
            chosen_params(params, g.spec_params()),
            inputs[0].1.spec_width() as int,
            inputs[0].1.spec_height() as int,
            outs,
        ),
    }
}

/// What a run is given once its arguments are checked: the image of each
/// input the graph reads (in the graph's order), the value of each
/// parameter (in lexicographic order), and the image size.
#[derive(Debug)]
pub struct Invocation {
    pub images: Vec<GrayImage>,
    pub param_values: Vec<i32>,
    pub width: usize,
    pub height: usize,
}

/// The contents of the output images, in order.
pub open spec fn out_rasters(outs: Seq<(String, GrayImage)>) -> Seq<Raster> {
    outs.map_values(|p: (String, GrayImage)| raster(p.1))
}

/// The names of the output images, in order.
pub open spec fn out_names(outs: Seq<(String, GrayImage)>) -> Seq<Seq<char>> {
    outs.map_values(|p: (String, GrayImage)| p.0@)
}

/// `r`, with each output image replaced by its contents.
pub open spec fn result_view<T>(r: Result<(Vec<(String, GrayImage)>, T), ProcessError>) -> Result<
    (Seq<Raster>, Seq<Seq<char>>),
    ProcessError,
> {
    match r {
        Ok((outs, _)) => Ok((out_rasters(outs@), out_names(outs@))),
        Err(e) => Err(e),
    }
}

/// The trace of a run of `g` on `inputs` and `params` that produced `outs`.
pub open spec fn run_trace(
    g: Graph,
    inputs: Seq<(&Source, &GrayImage)>,
    params: Seq<(Param, i32)>,
    outs: Seq<Raster>,
    t: Trace,
) -> bool {
    let ins = chosen_inputs(inputs, g.spec_inputs());
    let w = inputs[0].1.spec_width() as int;
    let h = inputs[0].1.spec_height() as int;
    &&& t.wf()
    &&& t.spec_initial_images().map_values(|i: GrayImage| raster(i)) == ins + Seq::new(
        g.spec_funcs().len(),
        |k: int| zero_raster(w, h),
    )
    &&& t.spec_actions() == run_actions(
        g,
        ins,
        chosen_params(params, g.spec_params()),
        w,
        h,
        outs,
        g.spec_funcs().len() as int,
    )
}

proof fn lemma_run_actions_prefix(
    g: Graph,
    ins: Seq<Raster>,
    pvals: Seq<i32>,
    w: int,
    h: int,
    a: Seq<Raster>,
    b: Seq<Raster>,
    k: int,
)
    requires
        0 <= k <= a.len(),
        k <= b.len(),
        a.take(k) == b.take(k),
    ensures
        run_actions(g, ins, pvals, w, h, a, k) == run_actions(g, ins, pvals, w, h, b, k),
    decreases k,
{
    if k > 0 {
        assert(a.take(k - 1) =~= a.take(k).take(k - 1));
        assert(b.take(k - 1) =~= b.take(k).take(k - 1));
        lemma_run_actions_prefix(g, ins, pvals, w, h, a, b, k - 1);
        assert(stage_scene(g, ins, pvals, a, k - 1) == stage_scene(g, ins, pvals, b, k - 1));
    }
}

fn find_input(inputs: &[(&Source, &GrayImage)], n: &String) -> (r: usize)
    ensures
        r == if position(supplied_names(inputs@), n@) < 0 {
            inputs@.len() as int
        } else {
            position(supplied_names(inputs@), n@)
        },
{
    let mut i: usize = 0;
    while i < inputs.len()
        invariant
            i <= inputs@.len(),
            forall|k: int| 0 <= k < i ==> supplied_names(inputs@)[k] != n@,
        decreases inputs@.len() - i,
    {
        if inputs[i].0.name == *n {
            proof {
                lemma_position(supplied_names(inputs@), n@, i as int);
            }
            return i;
        }
        i = i + 1;
    }
    proof {
        lemma_position(supplied_names(inputs@), n@, i as int);
    }
    i
}

fn find_param(params: &[(Param, i32)], n: &String) -> (r: usize)
    ensures
        r == if position(supplied_param_names(params@), n@) < 0 {
            params@.len() as int
        } else {
            position(supplied_param_names(params@), n@)
        },
{
    let mut i: usize = 0;
    while i < params.len()
        invariant
            i <= params@.len(),
            forall|k: int| 0 <= k < i ==> supplied_param_names(params@)[k] != n@,
        decreases params@.len() - i,
    {
        if params[i].0.name == *n {
            proof {
                lemma_position(supplied_param_names(params@), n@, i as int);
            }
            return i;
        }
        i = i + 1;
    }
    proof {
        lemma_position(supplied_param_names(params@), n@, i as int);
    }
    i
}

pub(crate) fn copy_names(names: &[String]) -> (r: Vec<String>)
    ensures
        name_views(r@) == name_views(names@),
{
    let mut r: Vec<String> = Vec::new();
    let mut i: usize = 0;
    while i < names.len()
        invariant
            i <= names@.len(),
            r@.len() == i,
            name_views(r@) == name_views(names@).take(i as int),
        decreases names@.len() - i,
    {
        let ghost before = name_views(r@);
        r.push(names[i].clone());
        assert(name_views(r@) =~= before.push(names@[i as int]@));
        assert(name_views(r@) =~= name_views(names@).take(i + 1));
        i = i + 1;
    }
    assert(name_views(names@).take(i as int) =~= name_views(names@));
    r
}

/// Runs a graph's stages on supplied inputs and parameter values.
pub struct Processor {
    graph: Graph,
}

impl Processor {
    pub closed spec fn spec_graph(&self) -> Graph {
        self.graph
    }

    pub open spec fn wf(&self) -> bool {
        self.spec_graph().wf()
    }

    pub fn new(graph: Graph) -> (r: Processor)
        requires
            graph.wf(),
        ensures
            r.spec_graph() == graph,
            r.wf(),
    {
        Processor { graph }
    }

    pub fn graph(&self) -> (r: &Graph)
        ensures
            *r == self.spec_graph(),
    {
        &self.graph
    }
}

fn contains_name(names: &[String], n: &String) -> (r: bool)
    ensures
        r == name_views(names@).contains(n@),
{
    let mut i: usize = 0;
    while i < names.len()
        invariant
            i <= names@.len(),
            forall|k: int| 0 <= k < i ==> name_views(names@)[k] != n@,
        decreases names@.len() - i,
    {
        if names[i] == *n {
            assert(name_views(names@)[i as int] == n@);
            return true;
        }
        i = i + 1;
    }
    false
}

impl Processor {
    /// Checks the inputs and parameters supplied for a run, in the order of
    /// `ProcessError`'s variants, and returns what the run is given.
    pub fn prepare(&self, inputs: &[(&Source, &GrayImage)], params: &[(Param, i32)]) -> (r: Result<
        Invocation,
        ProcessError,
    >)
        requires
            self.wf(),
        ensures
            r matches Err(e) ==> rejects(self.spec_graph(), inputs@, params@, e),
            r matches Ok(inv) ==> {
                &&& call_ok(self.spec_graph(), inputs@, params@)
                &&& inv.images@.map_values(|i: GrayImage| raster(i)) == chosen_inputs(
                    inputs@,
                    self.spec_graph().spec_inputs(),
                )
                &&& inv.param_values@ == chosen_params(params@, self.spec_graph().spec_params())
                &&& inv.width == inputs@[0].1.spec_width()
                &&& inv.height == inputs@[0].1.spec_height()
                &&& inv.width * inv.height <= usize::MAX
                &&& inv.width <= i32::MAX
                &&& inv.height <= i32::MAX
                &&& inv.images@.len() + self.spec_graph().spec_funcs().len() <= usize::MAX
                &&& forall|j: int|
                    0 <= j < inv.images@.len() ==> (#[trigger] inv.images@[j]).spec_width() == inv.width
                        && inv.images@[j].spec_height() == inv.height
            },
    {
        let ghost g = self.spec_graph();
        assert(self.graph == g);
        let gin = self.graph.inputs();
        let ghost ins = chosen_inputs(inputs@, g.spec_inputs());
        // The image supplied for each input the graph reads.
        let mut chosen: Vec<GrayImage> = Vec::new();
        let mut i: usize = 0;
        while i < gin.len()
            invariant
                g == self.spec_graph(),
                self.graph == g,
                name_views(gin@) == g.spec_inputs(),
                ins == chosen_inputs(inputs@, g.spec_inputs()),
                i <= gin@.len(),
                chosen@.len() == i,
                forall|j: int| 0 <= j < i ==> 0 <= #[trigger] position(supplied_names(inputs@), g.spec_inputs()[j]),
                forall|j: int| 0 <= j < i ==> raster(#[trigger] chosen@[j]) == ins[j],
            decreases gin@.len() - i,
        {
            assert(name_views(gin@)[i as int] == gin@[i as int]@);
            let k = find_input(inputs, &gin[i]);
            proof {
                lemma_position_range(supplied_names(inputs@), gin@[i as int]@);
            }
            if k == inputs.len() {
                let n = gin[i].clone();
                proof {
                    assert(g.spec_inputs()[i as int] == n@);
                    assert(g.spec_inputs().contains(n@));
                    assert(!supplied_names(inputs@).contains(n@));
                }
                return Err(ProcessError::MissingInput(n));
            }
            chosen.push(inputs[k].1.duplicate());
            i = i + 1;
        }
        proof {
            assert forall|n: Seq<char>| #[trigger] g.spec_inputs().contains(n) implies supplied_names(
                inputs@,
            ).contains(n) by {
                let j = choose|j: int| 0 <= j < g.spec_inputs().len() && g.spec_inputs()[j] == n;
                assert(0 <= position(supplied_names(inputs@), g.spec_inputs()[j]));
                lemma_position_range(supplied_names(inputs@), n);
            }
        }
        if inputs.len() == 0 {
            return Err(ProcessError::NoInputs);
        }
        let (w, h) = inputs[0].1.dimensions();
        // Every supplied image must have the size of the first.
        let mut i: usize = 0;
        while i < inputs.len()
            invariant
                g == self.spec_graph(),
                i <= inputs@.len(),
                inputs@.len() > 0,
                w == inputs@[0].1.spec_width(),
                h == inputs@[0].1.spec_height(),
                forall|n: Seq<char>| #[trigger] g.spec_inputs().contains(n) ==> supplied_names(inputs@).contains(n),
                forall|j: int| 0 <= j < i ==> (#[trigger] inputs@[j]).1.spec_width() == w && inputs@[j].1.spec_height() == h,
            decreases inputs@.len() - i,
        {
            if inputs[i].1.width() != w || inputs[i].1.height() != h {
                let n = inputs[i].0.name.clone();
                proof {
                    assert(supplied_names(inputs@)[i as int] == n@);
                    assert(shape_mismatch(inputs@));
                }
                return Err(ProcessError::ShapeMismatch(n));
            }
            i = i + 1;
        }
        assert(!shape_mismatch(inputs@));
        proof {
            assert forall|j: int| 0 <= j < ins.len() implies (#[trigger] ins[j]).width == w && ins[j].height == h by {
                let n = g.spec_inputs()[j];
                assert(g.spec_inputs().contains(n));
                lemma_position_range(supplied_names(inputs@), n);
                let k = position(supplied_names(inputs@), n);
                assert(ins[j] == raster(*inputs@[k].1));
            }
            assert forall|j: int| 0 <= j < chosen@.len() implies (#[trigger] chosen@[j]).spec_width() == w
                && chosen@[j].spec_height() == h by {
                assert(raster(chosen@[j]) == ins[j]);
            }
        }
        // The value supplied for each parameter, in lexicographic order.
        let pnames = self.graph.params();
        let ghost pvals = chosen_params(params@, g.spec_params());
        let mut values: Vec<i32> = Vec::new();
        let mut i: usize = 0;
        while i < pnames.len()
            invariant
                g == self.spec_graph(),
                self.graph == g,
                name_views(pnames@) == g.spec_params(),
                pvals == chosen_params(params@, g.spec_params()),
                !missing_input(g, inputs@),
                inputs@.len() > 0,
                !shape_mismatch(inputs@),
                i <= pnames@.len(),
                values@ == pvals.take(i as int),
                forall|j: int| 0 <= j < i ==> 0 <= #[trigger] position(supplied_param_names(params@), g.spec_params()[j]),
            decreases pnames@.len() - i,
        {
            assert(name_views(pnames@)[i as int] == pnames@[i as int]@);
            let k = find_param(params, &pnames[i]);
            proof {
                lemma_position_range(supplied_param_names(params@), pnames@[i as int]@);
            }
            if k == params.len() {
                let n = pnames[i].clone();
                proof {
                    assert(g.spec_params()[i as int] == n@);
                    assert(g.spec_params().contains(n@));
                    assert(!supplied_param_names(params@).contains(n@));
                }
                return Err(ProcessError::MissingParam(n));
            }
            values.push(params[k].1);
            assert(values@ =~= pvals.take(i + 1));
            i = i + 1;
        }
        assert(values@ =~= pvals);
        proof {
            assert forall|n: Seq<char>| #[trigger] g.spec_params().contains(n) implies supplied_param_names(
                params@,
            ).contains(n) by {
                let j = choose|j: int| 0 <= j < g.spec_params().len() && g.spec_params()[j] == n;
                assert(0 <= position(supplied_param_names(params@), g.spec_params()[j]));
                lemma_position_range(supplied_param_names(params@), n);
            }
        }
        // Every supplied parameter must be one the graph uses.
        let mut i: usize = 0;
        while i < params.len()
            invariant
                g == self.spec_graph(),
                name_views(pnames@) == g.spec_params(),
                !missing_input(g, inputs@),
                inputs@.len() > 0,
                !shape_mismatch(inputs@),
                !missing_param(g, params@),
                i <= params@.len(),
                forall|j: int| 0 <= j < i ==> g.spec_params().contains(#[trigger] supplied_param_names(params@)[j]),
            decreases params@.len() - i,
        {
            assert(supplied_param_names(params@)[i as int] == params@[i as int].0.name@);
            if !contains_name(pnames, &params[i].0.name) {
                let n = params[i].0.name.clone();
                proof {
                    assert(supplied_param_names(params@).contains(n@));
                }
                return Err(ProcessError::UnusedParam(n));
            }
            i = i + 1;
        }
        proof {
            assert forall|n: Seq<char>| #[trigger] supplied_param_names(params@).contains(n) implies g.spec_params().contains(n) by {
                let j = choose|j: int| 0 <= j < params@.len() && supplied_param_names(params@)[j] == n;
            }
        }
        let funcs = self.graph.funcs();
        let n_in = chosen.len();
        if w > 0x7fff_ffff || h > 0x7fff_ffff || funcs.len() > usize::MAX - n_in {
            return Err(ProcessError::TooLarge);
        }
        assert(chosen@.map_values(|i: GrayImage| raster(i)) =~= ins);
        Ok(Invocation { images: chosen, param_values: values, width: w, height: h })
    }

    /// A trace whose images are the checked inputs, then a blank image for
    /// each stage, in the order of the graph's buffers; it has no actions.
    pub fn start_trace(&self, inv: &Invocation) -> (t: Trace)
        requires
            inv.width * inv.height <= usize::MAX,
        ensures
            t.wf(),
            t.spec_actions().len() == 0,
            t.spec_initial_images().len() == inv.images@.len() + self.spec_graph().spec_funcs().len(),
            forall|j: int|
                0 <= j < inv.images@.len() ==> raster(#[trigger] t.spec_initial_images()[j]) == raster(
                    inv.images@[j],
                ),
            forall|j: int|
                inv.images@.len() <= j < t.spec_initial_images().len() ==> raster(
                    #[trigger] t.spec_initial_images()[j],
                ) == zero_raster(inv.width as int, inv.height as int),
    {
        let mut initial: Vec<GrayImage> = Vec::new();
        let mut i: usize = 0;
        while i < inv.images.len()
            invariant
                i <= inv.images@.len(),
                initial@.len() == i,
                forall|j: int| 0 <= j < i ==> raster(#[trigger] initial@[j]) == raster(inv.images@[j]),
            decreases inv.images@.len() - i,
        {
            initial.push(inv.images[i].duplicate());
            i = i + 1;
        }
        let n_in = inv.images.len();
        let funcs = self.graph.funcs();
        let mut k: usize = 0;
        while k < funcs.len()
            invariant
                inv.width * inv.height <= usize::MAX,
                n_in == inv.images@.len(),
                k <= funcs@.len(),
                initial@.len() == n_in + k,
                forall|j: int| 0 <= j < n_in ==> raster(#[trigger] initial@[j]) == raster(inv.images@[j]),
                forall|j: int| n_in <= j < n_in + k ==> raster(#[trigger] initial@[j]) == zero_raster(inv.width as int, inv.height as int),
            decreases funcs@.len() - k,
        {
            let z = GrayImage::new(inv.width, inv.height);
            assert(raster(z).data =~= zero_raster(inv.width as int, inv.height as int).data);
            initial.push(z);
            k = k + 1;
        }
        Trace::from_parts(Vec::new(), initial)
    }
}

impl Processor {
    /// Checks what the caller supplies and computes every stage; with
    /// `tracing`, also returns the trace of every read and write.
    fn run(&self, inputs: &[(&Source, &GrayImage)], params: &[(Param, i32)], tracing: bool) -> (r:
        Result<(Vec<(String, GrayImage)>, Option<Trace>), ProcessError>)
        requires
            self.wf(),
        ensures
            run_result(self.spec_graph(), inputs@, params@, result_view(r)),
            r matches Ok((outs, t)) ==> (t is Some <==> tracing) && (t matches Some(tr) ==> run_trace(
                self.spec_graph(),
                inputs@,
                params@,
                out_rasters(outs@),
                tr,
            )),
    {
        let ghost g = self.spec_graph();
        let inv = match self.prepare(inputs, params) {
            Ok(inv) => inv,
            Err(e) => return Err(e),
        };
        let ghost ins = chosen_inputs(inputs@, g.spec_inputs());
        let ghost pvals = chosen_params(params@, g.spec_params());
        let gin = self.graph.inputs();
        let pnames = self.graph.params();
        let funcs = self.graph.funcs();
        let (w, h) = (inv.width, inv.height);
        let n_in = inv.images.len();
        let mut trace = if tracing {
            Some(self.start_trace(&inv))
        } else {
            None
        };
        let ghost initial: Seq<GrayImage> = if trace is Some {
            trace.unwrap().spec_initial_images()
        } else {
            Seq::empty()
        };
        proof {
            if tracing {
                let t = trace.unwrap();
                assert forall|j: int| 0 <= j < n_in implies (#[trigger] initial[j]).spec_width() == ins[j].width
                    && initial[j].spec_height() == ins[j].height by {
                    assert(raster(t.spec_initial_images()[j]) == raster(inv.images@[j]));
                    assert(inv.images@.map_values(|i: GrayImage| raster(i))[j] == raster(inv.images@[j]));
                }
                assert forall|j: int| n_in <= j < initial.len() implies (#[trigger] initial[j]).spec_width() == w
                    && initial[j].spec_height() == h by {
                    assert(raster(t.spec_initial_images()[j]) == zero_raster(w as int, h as int));
                }
                assert(initial.map_values(|i: GrayImage| raster(i)) =~= ins + Seq::new(
                    g.spec_funcs().len(),
                    |j: int| zero_raster(w as int, h as int),
                )) by {
                    assert forall|j: int| 0 <= j < n_in implies raster(initial[j]) == ins[j] by {
                        assert(raster(t.spec_initial_images()[j]) == raster(inv.images@[j]));
                        assert(inv.images@.map_values(|i: GrayImage| raster(i))[j] == raster(inv.images@[j]));
                    }
                    assert forall|j: int| n_in <= j < initial.len() implies raster(initial[j]) == zero_raster(
                        w as int,
                        h as int,
                    ) by {
                        assert(raster(t.spec_initial_images()[j]) == zero_raster(w as int, h as int));
                    }
                }
            }
        }
        let Invocation { images: chosen, param_values: values, width: _, height: _ } = inv;
        assert(chosen@.map_values(|i: GrayImage| raster(i)) == ins);
        assert forall|j: int| 0 <= j < chosen@.len() implies raster(#[trigger] chosen@[j]) == ins[j] by {
            assert(chosen@.map_values(|i: GrayImage| raster(i))[j] == raster(chosen@[j]));
        }
        let mut env = Env {
            names: copy_names(gin),
            images: chosen,
            param_names: copy_names(pnames),
            param_values: values,
        };
        assert(env.scene().images =~= ins);
        let mut outs: Vec<(String, GrayImage)> = Vec::new();
        let mut log: Vec<Action> = Vec::new();
        let mut k: usize = 0;
        while k < funcs.len()
            invariant
                g == self.spec_graph(),
                self.graph == g,
                g.wf(),
                funcs@ == g.spec_funcs(),
                ins == chosen_inputs(inputs@, g.spec_inputs()),
                pvals == chosen_params(params@, g.spec_params()),
                forall|n: Seq<char>| #[trigger] g.spec_inputs().contains(n) ==> supplied_names(inputs@).contains(n),
                inputs@.len() > 0,
                w == inputs@[0].1.spec_width(),
                h == inputs@[0].1.spec_height(),
                forall|j: int| 0 <= j < ins.len() ==> (#[trigger] ins[j]).width == w && ins[j].height == h,
                forall|n: Seq<char>| #[trigger] g.spec_params().contains(n) ==> supplied_param_names(params@).contains(n),
                w <= i32::MAX,
                h <= i32::MAX,
                w * h <= usize::MAX,
                n_in == ins.len(),
                n_in + funcs@.len() <= usize::MAX,
                k <= funcs@.len(),
                env.wf(),
                outs@.len() == k,
                env.scene() == stage_scene(g, ins, pvals, out_rasters(outs@), k as int),
                out_names(outs@) == g.spec_outputs().take(k as int),
                forall|j: int|
                    0 <= j < k ==> computes(
                        #[trigger] out_rasters(outs@)[j],
                        g.spec_funcs()[j].definition,
                        stage_scene(g, ins, pvals, out_rasters(outs@), j),
                        w as int,
                        h as int,
                    ),
                log@ == if tracing {
                    run_actions(g, ins, pvals, w as int, h as int, out_rasters(outs@), k as int)
                } else {
                    seq![]
                },
                tracing ==> all_fit(log@, initial),
                tracing ==> (trace matches Some(t) && t.spec_initial_images() == initial && t.wf()
                    && t.spec_actions().len() == 0),
                !tracing ==> trace is None,
                tracing ==> initial.len() == n_in + funcs@.len(),
                tracing ==> forall|j: int| 0 <= j < n_in ==> (#[trigger] initial[j]).spec_width() == ins[j].width && initial[j].spec_height() == ins[j].height,
                tracing ==> forall|j: int| n_in <= j < initial.len() ==> (#[trigger] initial[j]).spec_width() == w && initial[j].spec_height() == h,
            decreases funcs@.len() - k,
        {
            let f = &funcs[k];
            assert(f.name@ == g.spec_funcs()[k as int].name@);
            assert(g.spec_schedule().contains_key(g.spec_funcs()[k as int].name@));
            let sched = self.graph.schedule().get_func_schedule(f);
            let yo = sched.variables.len() > 0 && sched.variables[0] == Var::Y;
            let ghost scene = env.scene();
            let ghost before = log@;
            let ghost old_outs = out_rasters(outs@);
            let img = compute_stage(&f.definition, &env, yo, w, h, n_in + k, &mut log, tracing);
            proof {
                if tracing {
                    assert(sizes_match(scene, initial)) by {
                        assert forall|j: int| 0 <= j < scene.images.len() implies (#[trigger] initial[j]).spec_width()
                            == scene.images[j].width && initial[j].spec_height() == scene.images[j].height by {
                            if j >= n_in {
                                assert(scene.images[j] == old_outs[j - n_in]);
                            }
                        }
                    }
                    if yo {
                        lemma_nest_fits(f.definition, scene, n_in + k, yo, h as int, w as int, h as int, initial);
                    } else {
                        lemma_nest_fits(f.definition, scene, n_in + k, yo, w as int, w as int, h as int, initial);
                    }
                    lemma_concat_fit(before, stage_actions(f.definition, scene, n_in + k, yo, w as int, h as int), initial);
                }
            }
            let ghost old_names = env.names@;
            let ghost old_images = env.images@;
            env.names.push(f.name.clone());
            env.images.push(img.duplicate());
            outs.push((f.name.clone(), img));
            proof {
                assert(name_views(env.names@) =~= name_views(old_names).push(f.name@));
                assert(env.images@.map_values(|i: GrayImage| raster(i)) =~= old_images.map_values(|i: GrayImage| raster(i)).push(raster(img)));
                let new_outs = out_rasters(outs@);
                assert(new_outs =~= old_outs.push(raster(img)));
                assert(g.spec_outputs()[k as int] == f.name@);
                assert(out_names(outs@) =~= g.spec_outputs().take(k + 1));
                assert(env.scene().names =~= g.spec_inputs() + g.spec_outputs().take(k + 1));
                assert(env.scene().images =~= ins + new_outs.take(k + 1));
                assert(env.scene() == stage_scene(g, ins, pvals, new_outs, k + 1));
                assert forall|j: int| 0 <= j <= k implies stage_scene(g, ins, pvals, new_outs, j)
                    == stage_scene(g, ins, pvals, old_outs, j) by {
                    assert(new_outs.take(j) =~= old_outs.take(j));
                }
                assert(stage_scene(g, ins, pvals, old_outs, k as int) == scene) by {
                    assert(old_outs.take(k as int) =~= old_outs);
                }
                assert forall|j: int|
                    0 <= j < k + 1 implies computes(
                        #[trigger] new_outs[j],
                        g.spec_funcs()[j].definition,
                        stage_scene(g, ins, pvals, new_outs, j),
                        w as int,
                        h as int,
                    ) by {
                    if j < k {
                        assert(new_outs[j] == old_outs[j]);
                    }
                }
                assert(sched.variables@ == g.spec_schedule()[g.spec_funcs()[k as int].name@]);
                assert(yo == y_outer(sched.variables@));
                assert(old_outs.take(k as int) =~= new_outs.take(k as int));
                lemma_run_actions_prefix(g, ins, pvals, w as int, h as int, old_outs, new_outs, k as int);
            }
            k = k + 1;
        }
        proof {
            assert(g.spec_outputs().take(k as int) =~= g.spec_outputs());
        }
        let trace = match trace {
            Some(t) => {
                let mut t = t;
                t.append_all(log);
                assert(t.spec_actions() =~= log@);
                Some(t)
            },
            None => None,
        };
        Ok((outs, trace))
    }
}

impl Processor {
    /// Runs the pipeline on `inputs` and the parameter values `params`,
    /// returning each stage's image under its name, in stage order.
    pub fn process(&self, inputs: &[(&Source, &GrayImage)], params: &[(Param, i32)]) -> (r: Result<
        Vec<(String, GrayImage)>,
        ProcessError,
    >)
        requires
            self.wf(),
        ensures
            run_result(
                self.spec_graph(),
                inputs@,
                params@,
                match r {
                    Ok(outs) => Ok((out_rasters(outs@), out_names(outs@))),
                    Err(e) => Err(e),
                },
            ),
    {
        match self.run(inputs, params, false) {
            Ok((outs, _)) => Ok(outs),
            Err(e) => Err(e),
        }
    }

    /// Runs the pipeline as `process` does, and also returns the trace of
    /// every pixel read and written.
    pub fn process_with_tracing(&self, inputs: &[(&Source, &GrayImage)], params: &[(Param, i32)]) -> (r:
        Result<(Vec<(String, GrayImage)>, Trace), ProcessError>)
        requires
            self.wf(),
        ensures
            run_result(self.spec_graph(), inputs@, params@, result_view(r)),
            r matches Ok((outs, t)) ==> run_trace(self.spec_graph(), inputs@, params@, out_rasters(outs@), t),
    {
        match self.run(inputs, params, true) {
            Ok((outs, t)) => Ok((outs, t.unwrap())),
            Err(e) => Err(e),
        }
    }
}

/// A `w` by `h` raster is determined by its pixels.
proof fn lemma_raster_ext(a: Raster, b: Raster, w: int, h: int)
    requires
        a.width == w,
        b.width == w,
        a.height == h,
        b.height == h,
        a.data.len() == w * h,
        b.data.len() == w * h,
        forall|x: int, y: int| 0 <= x < w && 0 <= y < h ==> #[trigger] a.pixel(x, y) == b.pixel(x, y),
    ensures
        a == b,
{
    assert forall|i: int| 0 <= i < a.data.len() implies a.data[i] == b.data[i] by {
        let x = i % w;
        let y = i / w;
        assert(w > 0) by (nonlinear_arith)
            requires
                0 <= i < w * h,
                w >= 0,
        ;
        assert(0 <= x < w && y * w + x == i) by (nonlinear_arith)
            requires
                w > 0,
                x == i % w,
                y == i / w,
                0 <= i,
        ;
        assert(0 <= y < h) by (nonlinear_arith)
            requires
                w > 0,
                y * w + x == i,
                0 <= x < w,
                0 <= i < w * h,
        ;
        assert(a.pixel(x, y) == b.pixel(x, y));
    }
    assert(a.data =~= b.data);
}

/// The outputs of a run are determined by the graph, the input images and
/// the parameter values.
pub proof fn lemma_stage_images_unique(
    g: Graph,
    ins: Seq<Raster>,
    pvals: Seq<i32>,
    w: int,
    h: int,
    a: Seq<Raster>,
    b: Seq<Raster>,
)
    requires
        stage_images(g, ins, pvals, w, h, a),
        stage_images(g, ins, pvals, w, h, b),
    ensures
        a == b,
{
    lemma_stage_prefix_equal(g, ins, pvals, w, h, a, b, a.len() as int);
    assert(a =~= a.take(a.len() as int));
    assert(b =~= b.take(b.len() as int));
}

proof fn lemma_stage_prefix_equal(
    g: Graph,
    ins: Seq<Raster>,
    pvals: Seq<i32>,
    w: int,
    h: int,
    a: Seq<Raster>,
    b: Seq<Raster>,
    k: int,
)
    requires
        stage_images(g, ins, pvals, w, h, a),
        stage_images(g, ins, pvals, w, h, b),
        0 <= k <= a.len(),
    ensures
        a.take(k) == b.take(k),
    decreases k,
{
    if k > 0 {
        let j = k - 1;
        lemma_stage_prefix_equal(g, ins, pvals, w, h, a, b, j);
        assert(stage_scene(g, ins, pvals, a, j) == stage_scene(g, ins, pvals, b, j));
        assert(computes(a[j], g.spec_funcs()[j].definition, stage_scene(g, ins, pvals, a, j), w, h));
        assert(computes(b[j], g.spec_funcs()[j].definition, stage_scene(g, ins, pvals, b, j), w, h));
        lemma_raster_ext(a[j], b[j], w, h);
        assert(a.take(k) =~= a.take(j).push(a[j]));
        assert(b.take(k) =~= b.take(j).push(b[j]));
    }
}

/// Running a pipeline is a function of the graph, the inputs and the
/// parameters: two runs on the same arguments, with tracing or without,
/// fail in the same way or return the same images.
pub proof fn lemma_run_deterministic(
    g: Graph,
    inputs: Seq<(&Source, &GrayImage)>,
    params: Seq<(Param, i32)>,
    r1: Result<(Seq<Raster>, Seq<Seq<char>>), ProcessError>,
    r2: Result<(Seq<Raster>, Seq<Seq<char>>), ProcessError>,
)
    requires
        run_result(g, inputs, params, r1),
        run_result(g, inputs, params, r2),
    ensures
        r1 is Ok <==> r2 is Ok,
        r1 is Ok ==> r1 == r2,
        r1 matches Err(ProcessError::MissingInput(_)) <==> r2 matches Err(ProcessError::MissingInput(_)),
        r1 matches Err(ProcessError::NoInputs) <==> r2 matches Err(ProcessError::NoInputs),
        r1 matches Err(ProcessError::ShapeMismatch(_)) <==> r2 matches Err(ProcessError::ShapeMismatch(_)),
        r1 matches Err(ProcessError::MissingParam(_)) <==> r2 matches Err(ProcessError::MissingParam(_)),
        r1 matches Err(ProcessError::TooLarge) <==> r2 matches Err(ProcessError::TooLarge),
{
    if let (Ok((o1, n1)), Ok((o2, n2))) = (r1, r2) {
        lemma_stage_images_unique(
            g,
            chosen_inputs(inputs, g.spec_inputs()),
            chosen_params(params, g.spec_params()),
            inputs[0].1.spec_width() as int,
            inputs[0].1.spec_height() as int,
            o1,
            o2,
        );
    }
}

/// A pipeline whose only stage is the constant `c` fills its output with
/// `c`, truncated to 8 bits.
pub proof fn lemma_constant_stage(
    g: Graph,
    inputs: Seq<(&Source, &GrayImage)>,
    params: Seq<(Param, i32)>,
    outs: Seq<Raster>,
    names: Seq<Seq<char>>,
    c: i32,
)
    requires
        g.spec_funcs().len() == 1,
        g.spec_funcs()[0].definition == Definition::Const(c),
        run_result(g, inputs, params, Ok((outs, names))),
    ensures
        outs.len() == 1,
        outs[0].width == inputs[0].1.spec_width(),
        outs[0].height == inputs[0].1.spec_height(),
        forall|x: int, y: int| #[trigger] outs[0].contains(x, y) ==> outs[0].pixel(x, y) == c as u8,
{
    let w = inputs[0].1.spec_width() as int;
    let h = inputs[0].1.spec_height() as int;
    assert(computes(
        outs[0],
        g.spec_funcs()[0].definition,
        stage_scene(g, chosen_inputs(inputs, g.spec_inputs()), chosen_params(params, g.spec_params()), outs, 0),
        w,
        h,
    ));
}

/// In a pipeline whose only stage is `out(x, y) = in(x, y)`, the output
/// equals the input pixel for pixel.
pub proof fn lemma_identity_stage(
    g: Graph,
    inputs: Seq<(&Source, &GrayImage)>,
    params: Seq<(Param, i32)>,
    outs: Seq<Raster>,
    names: Seq<Seq<char>>,
)
    requires
        g.wf(),
        g.spec_funcs().len() == 1,
        g.spec_funcs()[0].definition matches Definition::Access(a) && a.x == VarExpr::Var(Var::X)
            && a.y == VarExpr::Var(Var::Y),
        run_result(g, inputs, params, Ok((outs, names))),
    ensures
        g.spec_inputs().len() == 1,
        outs.len() == 1,
        outs[0].width == chosen_inputs(inputs, g.spec_inputs())[0].width,
        outs[0].height == chosen_inputs(inputs, g.spec_inputs())[0].height,
        forall|x: int, y: int| #[trigger]
            outs[0].contains(x, y) ==> outs[0].pixel(x, y) == chosen_inputs(inputs, g.spec_inputs())[0].pixel(
                x,
                y,
            ),
{
    let funcs = g.spec_funcs();
    let a = match funcs[0].definition {
        Definition::Access(a) => a,
        _ => arbitrary(),
    };
    let s = a.source@;
    assert(funcs[0].definition.read_names() =~= seq![s]);
    assert(funcs[0].definition.read_names()[0] == s);
    assert(funcs[0].definition.read_names().contains(s));
    assert(!defined_from(funcs, 0, s));
    assert(func_names(funcs) =~= seq![funcs[0].name@]);
    assert(read_by_first(funcs, 1, s));
    assert(is_input(funcs, s));
    let names_in = g.spec_inputs();
    assert(names_in.contains(s));
    assert forall|j: int| 0 <= j < names_in.len() implies names_in[j] == s by {
        assert(names_in.contains(names_in[j]));
        assert(is_input(funcs, names_in[j]));
        let k = choose|k: int| 0 <= k < 1 && (#[trigger] funcs[k]).definition.read_names().contains(names_in[j]);
        assert(k == 0);
    }
    if names_in.len() >= 2 {
        assert(crate::names::lex_lt(names_in[0], names_in[1]));
        crate::names::lemma_lex_irreflexive(s);
    }
    assert(names_in =~= seq![s]);
    let ins = chosen_inputs(inputs, names_in);
    let w = inputs[0].1.spec_width() as int;
    let h = inputs[0].1.spec_height() as int;
    assert(ins[0].width == w && ins[0].height == h) by {
        assert(names_in.contains(s));
        lemma_position_range(supplied_names(inputs), s);
        let k = position(supplied_names(inputs), s);
        assert(ins[0] == raster(*inputs[k].1));
        assert(0 <= k < inputs.len());
    }
    let scene = stage_scene(g, ins, chosen_params(params, g.spec_params()), outs, 0);
    assert(scene.names =~= seq![s]);
    assert(position(scene.names, s) == 0);
    assert(scene.images[0] == ins[0]);
    assert(computes(outs[0], funcs[0].definition, scene, w, h));
    assert forall|x: int, y: int| #[trigger] outs[0].contains(x, y) implies outs[0].pixel(x, y) == ins[0].pixel(
        x,
        y,
    ) by {
        assert(outs[0].pixel(x, y) == eval(funcs[0].definition, scene, x as i32, y as i32) as u8);
    }
}

/// A definition that uses no parameter has the same value whatever the
/// parameters are.
proof fn lemma_eval_without_params(d: Definition, s1: Scene, s2: Scene, x: i32, y: i32)
    requires
        d.param_names().len() == 0,
        s1.names == s2.names,
        s1.images == s2.images,
    ensures
        eval(d, s1, x, y) == eval(d, s2, x, y),
    decreases d,
{
    match d {
        Definition::Cond(c) => {
            lemma_eval_without_params(*c.lhs, s1, s2, x, y);
            lemma_eval_without_params(*c.rhs, s1, s2, x, y);
            lemma_eval_without_params(*c.if_true, s1, s2, x, y);
            lemma_eval_without_params(*c.if_false, s1, s2, x, y);
        },
        Definition::Add(l, r) | Definition::Sub(l, r) | Definition::Mul(l, r) | Definition::Div(l, r) => {
            lemma_eval_without_params(*l, s1, s2, x, y);
            lemma_eval_without_params(*r, s1, s2, x, y);
        },
        Definition::Param(_) => {
            assert(d.param_names().len() == 1);
        },
        _ => {},
    }
}

/// The only stage reads `l` plus a parameter `p`: the graph needs exactly
/// the parameter `p`.
proof fn lemma_single_param(g: Graph, l: Definition, p: Seq<char>)
    requires
        g.wf(),
        g.spec_funcs().len() == 1,
        g.spec_funcs()[0].definition.param_names() == l.param_names() + seq![p],
        l.param_names().len() == 0,
    ensures
        g.spec_params() == seq![p],
{
    let funcs = g.spec_funcs();
    let names = g.spec_params();
    assert(funcs[0].definition.param_names() =~= seq![p]);
    assert(funcs[0].definition.param_names()[0] == p);
    assert(crate::graph::param_in_first(funcs, 1, p));
    assert(names.contains(p));
    assert forall|j: int| 0 <= j < names.len() implies names[j] == p by {
        assert(names.contains(names[j]));
        let k = choose|k: int| 0 <= k < 1 && (#[trigger] funcs[k]).definition.param_names().contains(names[j]);
        assert(k == 0);
    }
    if names.len() >= 2 {
        assert(crate::names::lex_lt(names[0], names[1]));
        crate::names::lemma_lex_irreflexive(p);
    }
    assert(names =~= seq![p]);
}

/// A pipeline whose only stage is `l + p`, run with the parameter `p`
/// set to `k`, produces what the pipeline whose only stage is `l + k`
/// produces on the same inputs, when `l` uses no parameter.
pub proof fn lemma_param_stage_as_constant(
    g1: Graph,
    g2: Graph,
    inputs: Seq<(&Source, &GrayImage)>,
    p: Param,
    k: i32,
    params2: Seq<(Param, i32)>,
    l: Definition,
    o1: Seq<Raster>,
    n1: Seq<Seq<char>>,
    o2: Seq<Raster>,
    n2: Seq<Seq<char>>,
)
    requires
        g1.wf(),
        g2.wf(),
        g1.spec_funcs().len() == 1,
        g2.spec_funcs().len() == 1,
        g1.spec_funcs()[0].name@ == g2.spec_funcs()[0].name@,
        g1.spec_funcs()[0].definition == Definition::Add(Box::new(l), Box::new(Definition::Param(p.name))),
        g2.spec_funcs()[0].definition == Definition::Add(Box::new(l), Box::new(Definition::Const(k))),
        l.param_names().len() == 0,
        run_result(g1, inputs, seq![(p, k)], Ok((o1, n1))),
        run_result(g2, inputs, params2, Ok((o2, n2))),
    ensures
        o1 == o2,
{
    let (f1, f2) = (g1.spec_funcs(), g2.spec_funcs());
    let (d1, d2) = (f1[0].definition, f2[0].definition);
    assert(Definition::Param(p.name).read_names() =~= Seq::<Seq<char>>::empty());
    assert(Definition::Const(k).read_names() =~= Seq::<Seq<char>>::empty());
    assert(d1.read_names() =~= l.read_names() + Definition::Param(p.name).read_names());
    assert(d2.read_names() =~= l.read_names() + Definition::Const(k).read_names());
    assert(d1.read_names() =~= l.read_names());
    assert(d2.read_names() =~= l.read_names());
    assert(crate::graph::func_names(f1) =~= seq![f1[0].name@]);
    assert(crate::graph::func_names(f2) =~= seq![f2[0].name@]);
    assert forall|s: Seq<char>| g1.spec_inputs().contains(s) <==> g2.spec_inputs().contains(s) by {
        if read_by_first(f1, 1, s) {
            let j = choose|j: int| 0 <= j < 1 && (#[trigger] f1[j]).definition.read_names().contains(s);
            assert(j == 0);
            assert(f2[0].definition.read_names().contains(s));
        }
        if read_by_first(f2, 1, s) {
            let j = choose|j: int| 0 <= j < 1 && (#[trigger] f2[j]).definition.read_names().contains(s);
            assert(j == 0);
            assert(f1[0].definition.read_names().contains(s));
        }
    }
    crate::names::lemma_sorted_unique(g1.spec_inputs(), g2.spec_inputs());
    assert(Definition::Param(p.name).param_names() =~= seq![p.name@]);
    assert(d1.param_names() =~= l.param_names() + Definition::Param(p.name).param_names());
    assert(d1.param_names() =~= l.param_names() + seq![p.name@]);
    lemma_single_param(g1, l, p.name@);
    let params1 = seq![(p, k)];
    assert(supplied_param_names(params1)[0] == p.name@);
    assert(position(supplied_param_names(params1), p.name@) == 0);
    let pv1 = chosen_params(params1, g1.spec_params());
    assert(pv1[0] == k);
    let ins = chosen_inputs(inputs, g1.spec_inputs());
    let w = inputs[0].1.spec_width() as int;
    let h = inputs[0].1.spec_height() as int;
    let s1 = stage_scene(g1, ins, pv1, o1, 0);
    let s2 = stage_scene(g2, ins, chosen_params(params2, g2.spec_params()), o2, 0);
    assert(position(s1.param_names, p.name@) == 0);
    assert(param_value(s1, p.name@) == k);
    assert(o1.take(0) =~= o2.take(0));
    assert(s1.names == s2.names);
    assert(s1.images == s2.images);
    assert(computes(o1[0], d1, s1, w, h));
    assert(computes(o2[0], d2, s2, w, h));
    assert forall|x: int, y: int| 0 <= x < w && 0 <= y < h implies #[trigger] o1[0].pixel(x, y) == o2[0].pixel(x, y) by {
        lemma_eval_without_params(l, s1, s2, x as i32, y as i32);
        assert(eval(Definition::Param(p.name), s1, x as i32, y as i32) == k);
        assert(eval(Definition::Const(k), s2, x as i32, y as i32) == k);
    }
    lemma_raster_ext(o1[0], o2[0], w, h);
    assert(o1 =~= o2);
}

/// With the parameter `p` set to `k`, a pipeline whose only stage is
/// `l + p` succeeds only when the pipeline whose only stage is `l + k`,
/// given no parameters, succeeds on the same inputs, and then both produce
/// the same image (when `l` uses no parameter).
pub proof fn lemma_param_run_as_constant_run(
    g1: Graph,
    g2: Graph,
    inputs: Seq<(&Source, &GrayImage)>,
    p: Param,
    k: i32,
    l: Definition,
    o1: Seq<Raster>,
    n1: Seq<Seq<char>>,
    r2: Result<(Seq<Raster>, Seq<Seq<char>>), ProcessError>,
)
    requires
        g1.wf(),
        g2.wf(),
        g1.spec_funcs().len() == 1,
        g2.spec_funcs().len() == 1,
        g1.spec_funcs()[0].name@ == g2.spec_funcs()[0].name@,
        g1.spec_funcs()[0].definition == Definition::Add(Box::new(l), Box::new(Definition::Param(p.name))),
        g2.spec_funcs()[0].definition == Definition::Add(Box::new(l), Box::new(Definition::Const(k))),
        l.param_names().len() == 0,
        run_result(g1, inputs, seq![(p, k)], Ok((o1, n1))),
        run_result(g2, inputs, Seq::empty(), r2),
    ensures
        r2 matches Ok((o2, _)) && o2 == o1,
{
    let (f1, f2) = (g1.spec_funcs(), g2.spec_funcs());
    let (d1, d2) = (f1[0].definition, f2[0].definition);
    assert(Definition::Param(p.name).read_names() =~= Seq::<Seq<char>>::empty());
    assert(Definition::Const(k).read_names() =~= Seq::<Seq<char>>::empty());
    assert(d1.read_names() =~= l.read_names() + Definition::Param(p.name).read_names());
    assert(d2.read_names() =~= l.read_names() + Definition::Const(k).read_names());
    assert(crate::graph::func_names(f1) =~= seq![f1[0].name@]);
    assert(crate::graph::func_names(f2) =~= seq![f2[0].name@]);
    assert forall|s: Seq<char>| g1.spec_inputs().contains(s) <==> g2.spec_inputs().contains(s) by {
        if read_by_first(f1, 1, s) {
            let j = choose|j: int| 0 <= j < 1 && (#[trigger] f1[j]).definition.read_names().contains(s);
            assert(j == 0);
            assert(f2[0].definition.read_names().contains(s));
        }
        if read_by_first(f2, 1, s) {
            let j = choose|j: int| 0 <= j < 1 && (#[trigger] f2[j]).definition.read_names().contains(s);
            assert(j == 0);
            assert(f1[0].definition.read_names().contains(s));
        }
    }
    crate::names::lemma_sorted_unique(g1.spec_inputs(), g2.spec_inputs());
    assert(Definition::Const(k).param_names() =~= Seq::<Seq<char>>::empty());
    assert(d2.param_names() =~= l.param_names() + Definition::Const(k).param_names());
    if g2.spec_params().len() > 0 {
        let n = g2.spec_params()[0];
        assert(g2.spec_params().contains(n));
        let j = choose|j: int| 0 <= j < 1 && (#[trigger] f2[j]).definition.param_names().contains(n);
        assert(j == 0);
    }
    let none: Seq<(Param, i32)> = Seq::empty();
    assert(supplied_param_names(none) =~= Seq::<Seq<char>>::empty());
    assert(!missing_param(g2, none));
    assert(!unused_param(g2, none));
    assert(!missing_input(g2, inputs));
    assert(!too_large(g2, inputs));
    match r2 {
        Ok((o2, n2)) => {
            lemma_param_stage_as_constant(g1, g2, inputs, p, k, none, l, o1, n1, o2, n2);
        },
        Err(e) => {
            assert(!rejects(g2, inputs, none, e));
        },
    }
}

} // verus!