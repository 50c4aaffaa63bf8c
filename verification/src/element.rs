//! The layout element protocol and the three shipped node kinds.
//!
//! Per pass and per node, an element is driven through the state machine
//! `Start -> (LayoutChild)* -> Done`: given its incoming constraint and, on
//! re-entry, the size just resolved for the child it last asked about, it
//! either asks for one more child to be laid out or declares its own final
//! size. The kinds form a closed set behind one enum, each carrying its own
//! private re-entry state.

use crate::command::Command;
use crate::constraint::Constraint;
use crate::geometry::{Rect, Size};
use crate::style::{Background, Style};
use crate::surface::{LayoutContext, RenderContext};
use vstd::prelude::*;

verus! {

pub open spec fn max_of(a: int, b: int) -> int {
    if a < b {
        b
    } else {
        a
    }
}

/// The axis along which a flex container distributes its children (major),
/// versus the perpendicular one (minor).
#[derive(Debug, Copy, Clone, PartialEq, Eq, Structural)]
pub enum Axis {
    Horizontal,
    Vertical,
}

impl Axis {
    /// The major-axis component of an `(x-ish, y-ish)` pair.
    pub open spec fn spec_major(self, width: int, height: int) -> int {
        match self {
            Axis::Horizontal => width,
            Axis::Vertical => height,
        }
    }

    /// The minor-axis component of an `(x-ish, y-ish)` pair.
    pub open spec fn spec_minor(self, width: int, height: int) -> int {
        match self {
            Axis::Horizontal => height,
            Axis::Vertical => width,
        }
    }

    /// The x component of packing a (major, minor) pair back into (x, y).
    pub open spec fn spec_pack_x(self, major: int, minor: int) -> int {
        match self {
            Axis::Horizontal => major,
            Axis::Vertical => minor,
        }
    }

    /// The y component of packing a (major, minor) pair back into (x, y).
    pub open spec fn spec_pack_y(self, major: int, minor: int) -> int {
        match self {
            Axis::Horizontal => minor,
            Axis::Vertical => major,
        }
    }

    pub fn major(&self, coords: (usize, usize)) -> (r: usize)
        ensures
            r as int == self.spec_major(coords.0 as int, coords.1 as int),
    {
        match self {
            Axis::Horizontal => coords.0,
            Axis::Vertical => coords.1,
        }
    }

    pub fn minor(&self, coords: (usize, usize)) -> (r: usize)
        ensures
            r as int == self.spec_minor(coords.0 as int, coords.1 as int),
    {
        match self {
            Axis::Horizontal => coords.1,
            Axis::Vertical => coords.0,
        }
    }

    pub fn pack(&self, major: usize, minor: usize) -> (r: (usize, usize))
        ensures
            r.0 as int == self.spec_pack_x(major as int, minor as int),
            r.1 as int == self.spec_pack_y(major as int, minor as int),
    {
        match self {
            Axis::Horizontal => (major, minor),
            Axis::Vertical => (minor, major),
        }
    }
}

/// What one invocation of an element's `layout` asks of the traversal:
/// either pause this node and resolve the named child under the given
/// constraint first, or accept this node's final size.
#[derive(Debug, Copy, Clone, PartialEq, Eq, Structural)]
pub enum LayoutResult {
    Done(Size),
    LayoutChild(usize, Constraint),
}

/// The generic default node: no intrinsic size of its own. With no child it
/// is its constraint's minimum; with one child it adopts that child's size.
#[derive(Debug, Copy, Clone, PartialEq, Eq, Structural)]
pub struct BoxElement {}

impl BoxElement {
    pub fn new() -> (e: BoxElement) {
        BoxElement {  }
    }
}

/// A leaf or wrapper with an intrinsic size, clamped to the incoming
/// constraint's maxima.
#[derive(Debug, Copy, Clone, PartialEq, Eq, Structural)]
pub struct FixedElement {
    pub width: usize,
    pub height: usize,
}

impl FixedElement {
    pub fn new(width: usize, height: usize) -> (e: FixedElement)
        ensures
            e == (FixedElement { width, height }),
    {
        FixedElement { width, height }
    }
}

/// A multi-child container distributing equal major-axis slots among its
/// children. `ix`, `major_per_flex` and `minor` are its private re-entry
/// state within one pass, reset whenever a pass starts.
#[derive(Debug, Copy, Clone, PartialEq, Eq, Structural)]
pub struct FlexElement {
    pub direction: Axis,
    pub ix: usize,
    pub major_per_flex: usize,
    pub minor: usize,
}

impl FlexElement {
    pub fn new(direction: Axis) -> (e: FlexElement)
        ensures
            e == (FlexElement { direction, ix: 0, major_per_flex: 0, minor: 0 }),
    {
        FlexElement { direction, ix: 0, major_per_flex: 0, minor: 0 }
    }
}

/// The closed set of layout behaviors a node can carry.
#[derive(Debug, Copy, Clone, PartialEq, Eq, Structural)]
pub enum Element {
    Boxed(BoxElement),
    Fixed(FixedElement),
    Flex(FlexElement),
}

/// The constraint a generic default node offers its single child: the
/// parent's own maxima with the minima relaxed to zero.
pub open spec fn box_child_constraint(c: Constraint) -> Constraint {
    Constraint { min_width: 0, max_width: c.max_width, min_height: 0, max_height: c.max_height }
}

/// The intrinsic width clamped to the constraint's maximum.
pub open spec fn fixed_clamped_width(f: FixedElement, c: Constraint) -> usize {
    if f.width < c.max_width {
        f.width
    } else {
        c.max_width
    }
}

/// The intrinsic height clamped to the constraint's maximum.
pub open spec fn fixed_clamped_height(f: FixedElement, c: Constraint) -> usize {
    if f.height < c.max_height {
        f.height
    } else {
        c.max_height
    }
}

/// The constraint a fixed-size wrapper offers its single child:
/// `[0, clamped width] x [0, clamped height]`.
pub open spec fn fixed_child_constraint(f: FixedElement, c: Constraint) -> Constraint {
    Constraint {
        min_width: 0,
        max_width: fixed_clamped_width(f, c),
        min_height: 0,
        max_height: fixed_clamped_height(f, c),
    }
}

/// The constraint a flex container offers every child: exactly
/// `major_per_flex` on the major axis, the parent's own range on the minor.
pub open spec fn flex_child_constraint(dir: Axis, mpf: usize, c: Constraint) -> Constraint {
    match dir {
        Axis::Horizontal => Constraint {
            min_width: mpf,
            max_width: mpf,
            min_height: c.min_height,
            max_height: c.max_height,
        },
        Axis::Vertical => Constraint {
            min_width: c.min_width,
            max_width: c.max_width,
            min_height: mpf,
            max_height: mpf,
        },
    }
}

/// The major-axis budget a flex container divides among `n` children.
pub open spec fn flex_major_budget(dir: Axis, c: Constraint) -> int {
    dir.spec_major(c.max_width as int, c.max_height as int)
}

/// The per-child major-axis slot: the budget divided evenly, remainder
/// dropped.
pub open spec fn flex_slot(dir: Axis, c: Constraint, n: int) -> int {
    flex_major_budget(dir, c) / n
}

/// The rectangle table after a flex container has centered each already
/// laid-out child inside its slot along the major axis, children `k` and
/// onward. Offsets on the minor axis are always zero.
pub open spec fn flex_place(
    dir: Axis,
    mpf: usize,
    kids: Seq<usize>,
    rects: Seq<Rect>,
    k: int,
) -> Seq<Rect>
    decreases kids.len() - k,
{
    if k < 0 || k >= kids.len() {
        rects
    } else {
        let i = kids[k] as int;
        let cr = rects[i];
        let cm = dir.spec_major(cr.width as int, cr.height as int);
        let pad: int = if mpf as int > cm {
            (mpf as int - cm) / 2
        } else {
            0
        };
        let off = k * (mpf as int) + pad;
        let placed = Rect {
            x: dir.spec_pack_x(off, 0) as usize,
            y: dir.spec_pack_y(off, 0) as usize,
            width: cr.width,
            height: cr.height,
        };
        flex_place(dir, mpf, kids, rects.update(i, placed), k + 1)
    }
}

/// Exactly what one invocation of the generic default behavior does.
pub open spec fn box_step(
    c: Constraint,
    kids: Seq<usize>,
    req: Option<Size>,
    rects0: Seq<Rect>,
    rects1: Seq<Rect>,
    r: LayoutResult,
) -> bool {
    if kids.len() == 0 {
        r == LayoutResult::Done(Size { width: c.min_width, height: c.min_height }) && rects1
            == rects0
    } else {
        match req {
            Option::None => r == LayoutResult::LayoutChild(kids[0], box_child_constraint(c))
                && rects1 == rects0,
            Option::Some(s) => r == LayoutResult::Done(s) && rects1 == rects0.update(
                kids[0] as int,
                Rect {
                    x: 0,
                    y: 0,
                    width: rects0[kids[0] as int].width,
                    height: rects0[kids[0] as int].height,
                },
            ),
        }
    }
}

/// Exactly what one invocation of the fixed-size behavior does. The child's
/// resolved size is never adopted: the wrapper always reports its own
/// clamped intrinsic size.
pub open spec fn fixed_step(
    f: FixedElement,
    c: Constraint,
    kids: Seq<usize>,
    req: Option<Size>,
    rects0: Seq<Rect>,
    rects1: Seq<Rect>,
    r: LayoutResult,
) -> bool {
    let clamped = Size { width: fixed_clamped_width(f, c), height: fixed_clamped_height(f, c) };
    if kids.len() == 0 {
        r == LayoutResult::Done(clamped) && rects1 == rects0
    } else {
        match req {
            Option::None => r == LayoutResult::LayoutChild(kids[0], fixed_child_constraint(f, c))
                && rects1 == rects0,
            Option::Some(s) => r == LayoutResult::Done(clamped) && rects1 == rects0.update(
                kids[0] as int,
                Rect {
                    x: 0,
                    y: 0,
                    width: rects0[kids[0] as int].width,
                    height: rects0[kids[0] as int].height,
                },
            ),
        }
    }
}

/// Exactly what one invocation of the flex behavior does, including its
/// state updates.
pub open spec fn flex_step(
    pre: FlexElement,
    c: Constraint,
    kids: Seq<usize>,
    req: Option<Size>,
    rects0: Seq<Rect>,
    post: FlexElement,
    rects1: Seq<Rect>,
    r: LayoutResult,
) -> bool {
    let dir = pre.direction;
    match req {
        Option::None => {
            if kids.len() == 0 {
                post == pre && rects1 == rects0 && r == LayoutResult::Done(
                    Size { width: c.min_width, height: c.min_height },
                )
            } else {
                &&& post.direction == dir
                &&& post.ix == 0
                &&& post.major_per_flex as int == flex_slot(dir, c, kids.len() as int)
                &&& post.minor as int == dir.spec_minor(c.min_width as int, c.min_height as int)
                &&& rects1 == rects0
                &&& r == LayoutResult::LayoutChild(
                    kids[0],
                    flex_child_constraint(dir, post.major_per_flex, c),
                )
            }
        },
        Option::Some(s) => {
            let minor2 = max_of(
                pre.minor as int,
                dir.spec_minor(s.width as int, s.height as int),
            );
            &&& post.direction == dir
            &&& post.major_per_flex == pre.major_per_flex
            &&& post.ix as int == pre.ix as int + 1
            &&& post.minor as int == minor2
            &&& if pre.ix as int + 1 < kids.len() {
                rects1 == rects0 && r == LayoutResult::LayoutChild(
                    kids[pre.ix as int + 1],
                    flex_child_constraint(dir, pre.major_per_flex, c),
                )
            } else {
                rects1 == flex_place(dir, pre.major_per_flex, kids, rects0, 0) && r
                    == LayoutResult::Done(
                    Size {
                        width: dir.spec_pack_x(flex_major_budget(dir, c), minor2) as usize,
                        height: dir.spec_pack_y(flex_major_budget(dir, c), minor2) as usize,
                    },
                )
            }
        },
    }
}

/// Kinds agree and per-kind parameters agree; only private re-entry state
/// may differ.
pub open spec fn same_shape(a: Element, b: Element) -> bool {
    match (a, b) {
        (Element::Boxed(_), Element::Boxed(_)) => true,
        (Element::Fixed(f1), Element::Fixed(f2)) => f1 == f2,
        (Element::Flex(x1), Element::Flex(x2)) => x1.direction == x2.direction,
        _ => false,
    }
}

/// The constraint an element offers each of its `n` children, as a function
/// of its own shape and incoming constraint alone.
pub open spec fn child_constraint_of(e: Element, c: Constraint, n: int) -> Constraint {
    match e {
        Element::Boxed(_) => box_child_constraint(c),
        Element::Fixed(f) => fixed_child_constraint(f, c),
        Element::Flex(x) => flex_child_constraint(
            x.direction,
            flex_slot(x.direction, c, n) as usize,
            c,
        ),
    }
}

/// What the protocol demands of one invocation: child indices must name
/// rectangle slots, children must be distinct, the generic and fixed kinds
/// support at most one child, and a flex re-entry must still be waiting on
/// a child (with slots that cannot overflow the offset arithmetic).
pub open spec fn element_step_req(
    e: Element,
    kids: Seq<usize>,
    req: Option<Size>,
    rects: Seq<Rect>,
) -> bool {
    &&& forall|k: int| 0 <= k < kids.len() ==> (#[trigger] kids[k]) < rects.len()
    &&& forall|k1: int, k2: int| 0 <= k1 < k2 < kids.len() ==> kids[k1] != kids[k2]
    &&& match e {
        Element::Boxed(_) => kids.len() <= 1,
        Element::Fixed(_) => kids.len() <= 1,
        Element::Flex(x) => req is Some ==> x.ix < kids.len() && (kids.len() as int) * (
        x.major_per_flex as int) <= usize::MAX as int,
    }
}

/// Exactly what one invocation of any element kind does.
pub open spec fn element_step(
    pre: Element,
    c: Constraint,
    kids: Seq<usize>,
    req: Option<Size>,
    rects0: Seq<Rect>,
    post: Element,
    rects1: Seq<Rect>,
    r: LayoutResult,
) -> bool {
    match pre {
        Element::Boxed(_) => post == pre && box_step(c, kids, req, rects0, rects1, r),
        Element::Fixed(f) => post == pre && fixed_step(f, c, kids, req, rects0, rects1, r),
        Element::Flex(x) => match post {
            Element::Flex(x2) => flex_step(x, c, kids, req, rects0, x2, rects1, r),
            _ => false,
        },
    }
}

/// The commands one node contributes to a paint pass: one filled rectangle
/// when it has a solid background, nothing otherwise.
pub open spec fn node_paint_commands(style: Style, rect: Rect) -> Seq<Command> {
    match style.background {
        Background::Color(color) => seq![Command::DrawRect(rect, color)],
        _ => Seq::empty(),
    }
}

impl BoxElement {
    /// The generic default behavior: zero children resolve to the
    /// constraint's minimum; one child is offered the parent's maxima, then
    /// positioned at the origin and its size adopted.
    pub fn layout(
        &self,
        constraint: Constraint,
        context: &mut LayoutContext,
        children: &Vec<usize>,
        requested: Option<Size>,
    ) -> (r: LayoutResult)
        requires
            children@.len() <= 1,
            forall|k: int|
                0 <= k < children@.len() ==> (#[trigger] children@[k]) < old(context)@.len(),
        ensures
            box_step(constraint, children@, requested, old(context)@, final(context)@, r),
    {
        if children.len() == 0 {
            LayoutResult::Done(Size::new(constraint.min_width, constraint.min_height))
        } else {
            match requested {
                Option::Some(size) => {
                    context.position_child(children[0], 0, 0);
                    LayoutResult::Done(size)
                },
                Option::None => LayoutResult::LayoutChild(
                    children[0],
                    Constraint::new(0, constraint.max_width, 0, constraint.max_height),
                ),
            }
        }
    }
}

impl FixedElement {
    /// The fixed-size behavior: the intrinsic size clamped to the incoming
    /// maxima, whatever any child resolves to.
    pub fn layout(
        &self,
        constraint: Constraint,
        context: &mut LayoutContext,
        children: &Vec<usize>,
        requested: Option<Size>,
    ) -> (r: LayoutResult)
        requires
            children@.len() <= 1,
            forall|k: int|
                0 <= k < children@.len() ==> (#[trigger] children@[k]) < old(context)@.len(),
        ensures
            fixed_step(*self, constraint, children@, requested, old(context)@, final(context)@, r),
    {
        let constrained_width = if self.width < constraint.max_width {
            self.width
        } else {
            constraint.max_width
        };
        let constrained_height = if self.height < constraint.max_height {
            self.height
        } else {
            constraint.max_height
        };
        if children.len() == 0 {
            LayoutResult::Done(Size::new(constrained_width, constrained_height))
        } else {
            match requested {
                Option::Some(_size) => {
                    context.position_child(children[0], 0, 0);
                    LayoutResult::Done(Size::new(constrained_width, constrained_height))
                },
                Option::None => LayoutResult::LayoutChild(
                    children[0],
                    Constraint::new(0, constrained_width, 0, constrained_height),
                ),
            }
        }
    }
}

impl FlexElement {
    /// The constraint this container offers the child it is waiting on.
    fn child_constraint(&self, constraint: Constraint) -> (cc: Constraint)
        ensures
            cc == flex_child_constraint(self.direction, self.major_per_flex, constraint),
    {
        match self.direction {
            Axis::Horizontal => Constraint::new(
                self.major_per_flex,
                self.major_per_flex,
                constraint.min_height,
                constraint.max_height,
            ),
            Axis::Vertical => Constraint::new(
                constraint.min_width,
                constraint.max_width,
                self.major_per_flex,
                self.major_per_flex,
            ),
        }
    }

    /// The flex behavior. Pass start resets the re-entry state, divides the
    /// major-axis budget evenly and asks for the first child; each re-entry
    /// accumulates the minor extent and asks for the next child; after the
    /// last child every child is centered inside its slot and the container
    /// resolves to the full budget by the accumulated minor extent.
    pub fn layout(
        &mut self,
        constraint: Constraint,
        context: &mut LayoutContext,
        children: &Vec<usize>,
        requested: Option<Size>,
    ) -> (r: LayoutResult)
        requires
            forall|k: int|
                0 <= k < children@.len() ==> (#[trigger] children@[k]) < old(context)@.len(),
            forall|k1: int, k2: int|
                0 <= k1 < k2 < children@.len() ==> children@[k1] != children@[k2],
            requested is Some ==> old(self).ix < children@.len() && (children@.len() as int) * (
            old(self).major_per_flex as int) <= usize::MAX as int,
        ensures
            flex_step(
                *old(self),
                constraint,
                children@,
                requested,
                old(context)@,
                *final(self),
                final(context)@,
                r,
            ),
    {
        match requested {
            Option::Some(size) => {
                let n = children.len();
                let minor = self.direction.minor((size.width, size.height));
                if self.minor < minor {
                    self.minor = minor;
                }
                self.ix = self.ix + 1;
                if self.ix == n {
                    let mpf = self.major_per_flex;
                    let ghost rects0 = context@;
                    let ghost dir = self.direction;
                    let ghost self_snap = *self;
                    let mut k: usize = 0;
                    let mut major: usize = 0;
                    while k < children.len()
                        invariant
                            *self == self_snap,
                            k <= children@.len(),
                            major as int == (k as int) * (mpf as int),
                            (children@.len() as int) * (mpf as int) <= usize::MAX as int,
                            forall|j: int|
                                0 <= j < children@.len() ==> (#[trigger] children@[j])
                                    < rects0.len(),
                            context@.len() == rects0.len(),
                            flex_place(dir, mpf, children@, context@, k as int) == flex_place(
                                dir,
                                mpf,
                                children@,
                                rects0,
                                0,
                            ),
                            self.direction == dir,
                            mpf == self_snap.major_per_flex,
                        decreases children@.len() - k,
                    {
                        proof {
                            assert((k as int + 1) * (mpf as int) <= (children@.len() as int) * (
                            mpf as int) && (k as int + 1) * (mpf as int) == (k as int) * (
                            mpf as int) + mpf as int) by (nonlinear_arith)
                                requires
                                    k as int + 1 <= children@.len() as int,
                                    mpf as int >= 0,
                            ;
                        }
                        let child = children[k];
                        let child_size = context.get_child_size(child);
                        let child_major_size = self.direction.major(
                            (child_size.width, child_size.height),
                        );
                        let padding: usize = if mpf > child_major_size {
                            (mpf - child_major_size) / 2
                        } else {
                            0
                        };
                        assert(padding as int <= mpf as int);
                        let ghost rects_before = context@;
                        let pos = self.direction.pack(major + padding, 0);
                        context.position_child(child, pos.0, pos.1);
                        proof {
                            let off = (k as int) * (mpf as int) + padding as int;
                            let cr = rects_before[child as int];
                            let placed = Rect {
                                x: dir.spec_pack_x(off, 0) as usize,
                                y: dir.spec_pack_y(off, 0) as usize,
                                width: cr.width,
                                height: cr.height,
                            };
                            assert(context@ == rects_before.update(child as int, placed));
                            assert(flex_place(dir, mpf, children@, rects_before, k as int)
                                == flex_place(dir, mpf, children@, context@, k as int + 1));
                        }
                        major = major + mpf;
                        k = k + 1;
                    }
                    let max_major = self.direction.major(
                        (constraint.max_width, constraint.max_height),
                    );
                    let packed = self.direction.pack(max_major, self.minor);
                    LayoutResult::Done(Size::new(packed.0, packed.1))
                } else {
                    let cc = self.child_constraint(constraint);
                    LayoutResult::LayoutChild(children[self.ix], cc)
                }
            },
            Option::None => {
                if children.len() == 0 {
                    return LayoutResult::Done(
                        Size::new(constraint.min_width, constraint.min_height),
                    );
                }
                self.ix = 0;
                self.minor = self.direction.minor((constraint.min_width, constraint.min_height));
                let max_major = self.direction.major((constraint.max_width, constraint.max_height));
                self.major_per_flex = max_major / children.len();
                let cc = self.child_constraint(constraint);
                LayoutResult::LayoutChild(children[0], cc)
            },
        }
    }
}

impl Element {
    /// Dispatches one protocol invocation to the node's kind.
    pub fn layout(
        &mut self,
        constraint: Constraint,
        context: &mut LayoutContext,
        children: &Vec<usize>,
        requested: Option<Size>,
    ) -> (r: LayoutResult)
        requires
            element_step_req(*old(self), children@, requested, old(context)@),
        ensures
            element_step(
                *old(self),
                constraint,
                children@,
                requested,
                old(context)@,
                *final(self),
                final(context)@,
                r,
            ),
    {
        let e = *self;
        match e {
            Element::Boxed(b) => b.layout(constraint, context, children, requested),
            Element::Fixed(f) => f.layout(constraint, context, children, requested),
            Element::Flex(mut x) => {
                let r = x.layout(constraint, context, children, requested);
                *self = Element::Flex(x);
                r
            },
        }
    }

    /// The default paint behavior, shared by every shipped kind: one filled
    /// rectangle when the style has a solid background, nothing otherwise.
    pub fn paint(&self, rect: Rect, context: &mut RenderContext, style: &Style)
        ensures
            final(context)@ == old(context)@ + node_paint_commands(*style, rect),
    {
        match style.background {
            Background::Color(color) => {
                context.add_command(Command::DrawRect(rect, color));
                proof {
                    assert(context@ =~= old(context)@ + node_paint_commands(*style, rect));
                }
            },
            _ => {
                proof {
                    assert(context@ =~= old(context)@ + node_paint_commands(*style, rect));
                }
            },
        }
    }
}

/// A fixed-size node resolves to its intrinsic size whenever the incoming
/// constraint's maxima admit it on both axes, and to the constraint's
/// maximum on any axis whose maximum is smaller than the intrinsic size.
pub proof fn lemma_fixed_resolution(f: FixedElement, c: Constraint)
    ensures
        f.width <= c.max_width ==> fixed_clamped_width(f, c) == f.width,
        f.height <= c.max_height ==> fixed_clamped_height(f, c) == f.height,
        c.max_width < f.width ==> fixed_clamped_width(f, c) == c.max_width,
        c.max_height < f.height ==> fixed_clamped_height(f, c) == c.max_height,
        fixed_step(
            f,
            c,
            Seq::<usize>::empty(),
            Option::<Size>::None,
            Seq::<Rect>::empty(),
            Seq::<Rect>::empty(),
            LayoutResult::Done(
                Size { width: fixed_clamped_width(f, c), height: fixed_clamped_height(f, c) },
            ),
        ),
{
}

/// A flex container with `n` children slices its major-axis budget into
/// `n` equal slots of exactly `floor(budget / n)`: every child's constraint
/// pins both major-axis bounds to that slot, and the `n` slots together
/// never exceed the budget, so any remainder stays unused.
pub proof fn lemma_flex_slots(dir: Axis, c: Constraint, n: int)
    requires
        n >= 1,
        c.valid(),
    ensures
        ({
            let e = Element::Flex(FlexElement { direction: dir, ix: 0, major_per_flex: 0, minor: 0 });
            let cc = child_constraint_of(e, c, n);
            &&& dir.spec_major(cc.min_width as int, cc.min_height as int) == flex_slot(dir, c, n)
            &&& dir.spec_major(cc.max_width as int, cc.max_height as int) == flex_slot(dir, c, n)
            &&& dir.spec_minor(cc.min_width as int, cc.min_height as int) == dir.spec_minor(
                c.min_width as int,
                c.min_height as int,
            )
            &&& dir.spec_minor(cc.max_width as int, cc.max_height as int) == dir.spec_minor(
                c.max_width as int,
                c.max_height as int,
            )
        }),
        n * flex_slot(dir, c, n) <= flex_major_budget(dir, c),
        flex_slot(dir, c, n) <= flex_major_budget(dir, c),
{
    let budget = flex_major_budget(dir, c);
    assert(budget >= 0) by {
        match dir {
            Axis::Horizontal => {},
            Axis::Vertical => {},
        }
    }
    assert(budget <= usize::MAX as int) by {
        match dir {
            Axis::Horizontal => {},
            Axis::Vertical => {},
        }
    }
    assert(n * (budget / n) <= budget && budget / n <= budget && budget / n >= 0)
        by (nonlinear_arith)
        requires
            n >= 1,
            budget >= 0,
    ;
    let slot = flex_slot(dir, c, n);
    assert((slot as usize) as int == slot);
    match dir {
        Axis::Horizontal => {},
        Axis::Vertical => {},
    }
}

} // verus!
