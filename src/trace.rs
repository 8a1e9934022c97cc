//! A `Trace` is a record of the actions performed on images, for debugging
//! or for generating animated replays.

use vstd::prelude::*;
use crate::image::GrayImage;

verus! {

/// A dense index identifying one image within a trace.
#[derive(Debug, Clone, Copy, PartialEq, Eq, Hash, Structural)]
pub struct TraceId(pub usize);

/// An image region highlighted when generating visualisations.
#[derive(Debug, Clone, Copy, PartialEq, Eq, Structural)]
pub struct ActiveRegion {
    pub x: usize,
    pub y: usize,
    pub width: usize,
    pub height: usize,
}

#[derive(Debug, Clone, Copy, PartialEq, Eq, Structural)]
pub enum Action {
    /// A pixel in an image has been read from.
    Read(TraceId, usize, usize),
    /// A pixel in an image has been written to.
    Write(TraceId, usize, usize, u8),
    /// The contents of an image have been cleared.
    Clear(TraceId),
    /// An area of an image is now "active"; only used for visualisations.
    Active(TraceId, ActiveRegion),
}

impl Action {
    /// The image the action is about.
    pub open spec fn id(self) -> TraceId {
        match self {
            Action::Read(id, _, _) => id,
            Action::Write(id, _, _, _) => id,
            Action::Clear(id) => id,
            Action::Active(id, _) => id,
        }
    }
}

/// An append-only sequence of actions, and the initial state of each image
/// that the actions refer to.
#[derive(Debug)]
pub struct Trace {
    actions: Vec<Action>,
    initial_images: Vec<GrayImage>,
}

impl Trace {
    pub closed spec fn spec_actions(&self) -> Seq<Action> {
        self.actions@
    }

    pub closed spec fn spec_initial_images(&self) -> Seq<GrayImage> {
        self.initial_images@
    }

    /// Every action refers to a registered image, and every read or write
    /// to a pixel inside it.
    pub open spec fn wf(&self) -> bool {
        forall|i: int|
            0 <= i < self.spec_actions().len() ==> action_fits(
                #[trigger] self.spec_actions()[i],
                self.spec_initial_images(),
            )
    }

    pub fn new() -> (r: Trace)
        ensures
            r.spec_actions() == Seq::<Action>::empty(),
            r.spec_initial_images() == Seq::<GrayImage>::empty(),
            r.wf(),
    {
        Trace { actions: Vec::new(), initial_images: Vec::new() }
    }

    /// A trace made of recorded actions and the images they refer to.
    pub(crate) fn from_parts(actions: Vec<Action>, initial_images: Vec<GrayImage>) -> (r: Trace)
        requires
            forall|i: int|
                0 <= i < actions@.len() ==> action_fits(#[trigger] actions@[i], initial_images@),
        ensures
            r.spec_actions() == actions@,
            r.spec_initial_images() == initial_images@,
            r.wf(),
    {
        Trace { actions, initial_images }
    }

    /// Records `more` after the actions so far.
    pub(crate) fn append_all(&mut self, more: Vec<Action>)
        requires
            old(self).wf(),
            forall|i: int|
                0 <= i < more@.len() ==> action_fits(#[trigger] more@[i], old(self).spec_initial_images()),
        ensures
            final(self).wf(),
            final(self).spec_actions() == old(self).spec_actions() + more@,
            final(self).spec_initial_images() == old(self).spec_initial_images(),
    {
        let mut more = more;
        let ghost a = self.actions@;
        let ghost m = more@;
        self.actions.append(&mut more);
        assert(self.actions@ =~= a + m);
        assert forall|i: int| 0 <= i < self.spec_actions().len() implies action_fits(
            #[trigger] self.spec_actions()[i],
            self.spec_initial_images(),
        ) by {
            if i < a.len() {
                assert(action_fits(old(self).spec_actions()[i], old(self).spec_initial_images()));
            } else {
                assert(self.spec_actions()[i] == m[i - a.len()]);
            }
        }
    }

    pub fn actions(&self) -> (r: &[Action])
        ensures
            r@ == self.spec_actions(),
    {
        self.actions.as_slice()
    }

    pub fn initial_images(&self) -> (r: &[GrayImage])
        ensures
            r@ == self.spec_initial_images(),
    {
        self.initial_images.as_slice()
    }

    /// Registers an image with its initial contents; ids are handed out
    /// densely from 0.
    pub fn create_trace_id(&mut self, initial_image: &GrayImage) -> (r: TraceId)
        requires
            old(self).wf(),
        ensures
            r.0 == old(self).spec_initial_images().len(),
            final(self).spec_actions() == old(self).spec_actions(),
            final(self).spec_initial_images().len() == old(self).spec_initial_images().len() + 1,
            final(self).spec_initial_images().take(r.0 as int) == old(self).spec_initial_images(),
            same_image(final(self).spec_initial_images()[r.0 as int], *initial_image),
            final(self).wf(),
    {
        let id = TraceId(self.initial_images.len());
        let ghost before = self.initial_images@;
        self.initial_images.push(initial_image.duplicate());
        assert(self.initial_images@.take(id.0 as int) =~= before);
        assert forall|i: int| 0 <= i < self.actions@.len() implies action_fits(
            #[trigger] self.actions@[i],
            self.initial_images@,
        ) by {
            assert(action_fits(old(self).spec_actions()[i], before));
            assert(self.initial_images@[self.actions@[i].id().0 as int] == before[self.actions@[i].id().0 as int]);
        }
        id
    }

    fn record(&mut self, a: Action)
        requires
            old(self).wf(),
            action_fits(a, old(self).spec_initial_images()),
        ensures
            final(self).spec_actions() == old(self).spec_actions().push(a),
            final(self).spec_initial_images() == old(self).spec_initial_images(),
            final(self).wf(),
    {
        self.actions.push(a);
    }

    pub fn trace_get(&mut self, id: TraceId, x: usize, y: usize)
        requires
            old(self).wf(),
            action_fits(Action::Read(id, x, y), old(self).spec_initial_images()),
        ensures
            final(self).spec_actions() == old(self).spec_actions().push(Action::Read(id, x, y)),
            final(self).spec_initial_images() == old(self).spec_initial_images(),
            final(self).wf(),
    {
        self.record(Action::Read(id, x, y));
    }

    pub fn trace_set(&mut self, id: TraceId, x: usize, y: usize, c: u8)
        requires
            old(self).wf(),
            action_fits(Action::Write(id, x, y, c), old(self).spec_initial_images()),
        ensures
            final(self).spec_actions() == old(self).spec_actions().push(Action::Write(id, x, y, c)),
            final(self).spec_initial_images() == old(self).spec_initial_images(),
            final(self).wf(),
    {
        self.record(Action::Write(id, x, y, c));
    }

    pub fn trace_clear(&mut self, id: TraceId)
        requires
            old(self).wf(),
            id.0 < old(self).spec_initial_images().len(),
        ensures
            final(self).spec_actions() == old(self).spec_actions().push(Action::Clear(id)),
            final(self).spec_initial_images() == old(self).spec_initial_images(),
            final(self).wf(),
    {
        self.record(Action::Clear(id));
    }

    pub fn trace_active(&mut self, id: TraceId, x: usize, y: usize, width: usize, height: usize)
        requires
            old(self).wf(),
            id.0 < old(self).spec_initial_images().len(),
        ensures
            final(self).spec_actions() == old(self).spec_actions().push(
                Action::Active(id, ActiveRegion { x, y, width, height }),
            ),
            final(self).spec_initial_images() == old(self).spec_initial_images(),
            final(self).wf(),
    {
        self.record(Action::Active(id, ActiveRegion { x, y, width, height }));
    }
}

/// An image whose reads and writes are recorded in a trace, under the id
/// it was registered with.
#[derive(Debug)]
pub struct TraceImage {
    image: GrayImage,
    trace_id: TraceId,
}

impl TraceImage {
    pub closed spec fn spec_image(&self) -> GrayImage {
        self.image
    }

    pub closed spec fn spec_id(&self) -> TraceId {
        self.trace_id
    }

    /// The image is registered in `trace` with an initial image of its
    /// size.
    pub open spec fn registered_in(&self, trace: Trace) -> bool {
        &&& self.spec_id().0 < trace.spec_initial_images().len()
        &&& trace.spec_initial_images()[self.spec_id().0 as int].spec_width() == self.spec_image().spec_width()
        &&& trace.spec_initial_images()[self.spec_id().0 as int].spec_height() == self.spec_image().spec_height()
    }

    /// A blank image of the given size, registered in `trace`.
    pub fn new(trace: &mut Trace, width: usize, height: usize) -> (r: TraceImage)
        requires
            old(trace).wf(),
            width * height <= usize::MAX,
        ensures
            final(trace).wf(),
            r.registered_in(*final(trace)),
            r.spec_id().0 == old(trace).spec_initial_images().len(),
            r.spec_image().spec_width() == width,
            r.spec_image().spec_height() == height,
            r.spec_image().spec_data().len() == width * height,
            forall|i: int| 0 <= i < width * height ==> r.spec_image().spec_data()[i] == 0,
            final(trace).spec_initial_images().len() == old(trace).spec_initial_images().len() + 1,
            final(trace).spec_actions() == old(trace).spec_actions(),
            final(trace).spec_initial_images().take(r.spec_id().0 as int) == old(trace).spec_initial_images(),
    {
        Self::from_image(trace, &GrayImage::new(width, height))
    }

    /// A copy of `image`, registered in `trace` with `image` as its initial
    /// contents.
    pub fn from_image(trace: &mut Trace, image: &GrayImage) -> (r: TraceImage)
        requires
            old(trace).wf(),
        ensures
            final(trace).wf(),
            r.registered_in(*final(trace)),
            r.spec_id().0 == old(trace).spec_initial_images().len(),
            same_image(r.spec_image(), *image),
            same_image(final(trace).spec_initial_images()[r.spec_id().0 as int], *image),
            final(trace).spec_initial_images().len() == old(trace).spec_initial_images().len() + 1,
            final(trace).spec_actions() == old(trace).spec_actions(),
            final(trace).spec_initial_images().take(r.spec_id().0 as int) == old(trace).spec_initial_images(),
    {
        let trace_id = trace.create_trace_id(image);
        TraceImage { image: image.duplicate(), trace_id }
    }

    pub fn trace_id(&self) -> (r: TraceId)
        ensures
            r == self.spec_id(),
    {
        self.trace_id
    }

    pub fn image(&self) -> (r: &GrayImage)
        ensures
            *r == self.spec_image(),
    {
        &self.image
    }

    pub fn width(&self) -> (r: usize)
        ensures
            r == self.spec_image().spec_width(),
    {
        self.image.width()
    }

    pub fn height(&self) -> (r: usize)
        ensures
            r == self.spec_image().spec_height(),
    {
        self.image.height()
    }

    /// Reads a pixel, recording the read.
    pub fn get(&self, trace: &mut Trace, x: usize, y: usize) -> (r: u8)
        requires
            old(trace).wf(),
            self.registered_in(*old(trace)),
            self.spec_image().contains(x as int, y as int),
        ensures
            r == self.spec_image().pixel(x as int, y as int),
            final(trace).wf(),
            final(trace).spec_actions() == old(trace).spec_actions().push(Action::Read(self.spec_id(), x, y)),
            final(trace).spec_initial_images() == old(trace).spec_initial_images(),
    {
        trace.trace_get(self.trace_id, x, y);
        self.image.get(x, y)
    }

    /// Writes a pixel, recording the write.
    pub fn set(&mut self, trace: &mut Trace, x: usize, y: usize, c: u8)
        requires
            old(trace).wf(),
            old(self).registered_in(*old(trace)),
            old(self).spec_image().contains(x as int, y as int),
        ensures
            final(self).spec_id() == old(self).spec_id(),
            final(self).spec_image().spec_width() == old(self).spec_image().spec_width(),
            final(self).spec_image().spec_height() == old(self).spec_image().spec_height(),
            final(self).spec_image().spec_data() == old(self).spec_image().spec_data().update(
                y * old(self).spec_image().spec_width() + x,
                c,
            ),
            final(trace).wf(),
            final(trace).spec_actions() == old(trace).spec_actions().push(Action::Write(old(self).spec_id(), x, y, c)),
            final(trace).spec_initial_images() == old(trace).spec_initial_images(),
    {
        trace.trace_set(self.trace_id, x, y, c);
        self.image.set(x, y, c);
    }

    /// Clears the image, recording it.
    pub fn clear(&mut self, trace: &mut Trace)
        requires
            old(trace).wf(),
            old(self).registered_in(*old(trace)),
        ensures
            final(self).spec_id() == old(self).spec_id(),
            final(self).spec_image().spec_width() == old(self).spec_image().spec_width(),
            final(self).spec_image().spec_height() == old(self).spec_image().spec_height(),
            forall|i: int|
                0 <= i < final(self).spec_image().spec_data().len() ==> final(self).spec_image().spec_data()[i] == 0,
            final(trace).wf(),
            final(trace).spec_actions() == old(trace).spec_actions().push(Action::Clear(old(self).spec_id())),
            final(trace).spec_initial_images() == old(trace).spec_initial_images(),
    {
        trace.trace_clear(self.trace_id);
        self.image.clear();
    }

    /// Marks a region of the image as active, for visualisations.
    pub fn active(&self, trace: &mut Trace, x: usize, y: usize, width: usize, height: usize)
        requires
            old(trace).wf(),
            self.registered_in(*old(trace)),
        ensures
            final(trace).wf(),
            final(trace).spec_actions() == old(trace).spec_actions().push(
                Action::Active(self.spec_id(), ActiveRegion { x, y, width, height }),
            ),
            final(trace).spec_initial_images() == old(trace).spec_initial_images(),
    {
        trace.trace_active(self.trace_id, x, y, width, height);
    }
}

/// The factory of traced images under its earlier name.
pub type Tracer = TraceImageFactory;

/// Allocates images that are recorded in one shared trace.
#[derive(Debug)]
pub struct TraceImageFactory {
    pub trace: Trace,
}

impl TraceImageFactory {
    pub fn new() -> (r: TraceImageFactory)
        ensures
            r.trace.wf(),
            r.trace.spec_actions().len() == 0,
            r.trace.spec_initial_images().len() == 0,
    {
        TraceImageFactory { trace: Trace::new() }
    }

    /// A blank traced image.
    pub fn create_image(&mut self, width: usize, height: usize) -> (r: TraceImage)
        requires
            old(self).trace.wf(),
            width * height <= usize::MAX,
        ensures
            final(self).trace.wf(),
            r.registered_in(final(self).trace),
            r.spec_image().spec_width() == width,
            r.spec_image().spec_height() == height,
            r.spec_image().spec_data().len() == width * height,
            forall|i: int| 0 <= i < width * height ==> r.spec_image().spec_data()[i] == 0,
            final(self).trace.spec_actions() == old(self).trace.spec_actions(),
            final(self).trace.spec_initial_images().len() == old(self).trace.spec_initial_images().len() + 1,
            forall|i: int|
                0 <= i < old(self).trace.spec_initial_images().len() ==> final(self).trace.spec_initial_images()[i]
                    == old(self).trace.spec_initial_images()[i],
    {
        let ghost before = self.trace.spec_initial_images();
        let r = TraceImage::new(&mut self.trace, width, height);
        assert forall|i: int| 0 <= i < before.len() implies self.trace.spec_initial_images()[i] == before[i] by {
            assert(self.trace.spec_initial_images().take(before.len() as int)[i] == before[i]);
        }
        r
    }

    /// A traced copy of `image`.
    pub fn create_from_image(&mut self, image: &GrayImage) -> (r: TraceImage)
        requires
            old(self).trace.wf(),
        ensures
            final(self).trace.wf(),
            r.registered_in(final(self).trace),
            same_image(r.spec_image(), *image),
            final(self).trace.spec_actions() == old(self).trace.spec_actions(),
    {
        TraceImage::from_image(&mut self.trace, image)
    }
}

/// Two images with the same size and buffer.
pub open spec fn same_image(a: GrayImage, b: GrayImage) -> bool {
    a.spec_width() == b.spec_width() && a.spec_height() == b.spec_height() && a.spec_data()
        == b.spec_data()
}

/// The action refers to one of `images`, and a read or write to a pixel
/// inside that image.
pub open spec fn action_fits(a: Action, images: Seq<GrayImage>) -> bool {
    &&& a.id().0 < images.len()
    &&& match a {
        Action::Read(id, x, y) => images[id.0 as int].contains(x as int, y as int),
        Action::Write(id, x, y, _) => images[id.0 as int].contains(x as int, y as int),
        _ => true,
    }
}

/// Every write in a trace is to an image registered before it, at a pixel
/// inside that image's initial image; so is every read.
pub proof fn lemma_writes_registered(t: Trace)
    requires
        t.wf(),
    ensures
        forall|i: int|
            0 <= i < t.spec_actions().len() ==> match #[trigger] t.spec_actions()[i] {
                Action::Write(id, x, y, _) => id.0 < t.spec_initial_images().len()
                    && t.spec_initial_images()[id.0 as int].contains(x as int, y as int),
                Action::Read(id, x, y) => id.0 < t.spec_initial_images().len()
                    && t.spec_initial_images()[id.0 as int].contains(x as int, y as int),
                _ => true,
            },
{
    assert forall|i: int| 0 <= i < t.spec_actions().len() implies match #[trigger] t.spec_actions()[i] {
        Action::Write(id, x, y, _) => id.0 < t.spec_initial_images().len()
            && t.spec_initial_images()[id.0 as int].contains(x as int, y as int),
        Action::Read(id, x, y) => id.0 < t.spec_initial_images().len()
            && t.spec_initial_images()[id.0 as int].contains(x as int, y as int),
        _ => true,
    } by {
        assert(action_fits(t.spec_actions()[i], t.spec_initial_images()));
    }
}

} // verus!