//! The scene graph: two side-tables addressable by node index (resolved
//! rectangles and pending drawing commands), and the arena that owns all
//! nodes and drives the layout and paint traversals.

use crate::command::Command;
use crate::geometry::{Rect, Size};
use vstd::prelude::*;

verus! {

/// The side-table of resolved rectangles, one per node index. Written
/// during layout, read during paint.
pub struct LayoutContext {
    data: Vec<Rect>,
}

impl View for LayoutContext {
    type V = Seq<Rect>;

    closed spec fn view(&self) -> Seq<Rect> {
        self.data@
    }
}

impl LayoutContext {
    pub fn new() -> (c: LayoutContext)
        ensures
            c@ == Seq::<Rect>::empty(),
    {
        LayoutContext { data: Vec::new() }
    }

    /// Appends a slot for a newly allocated node index.
    pub(crate) fn insert(&mut self, rect: Rect)
        ensures
            final(self)@ == old(self)@.push(rect),
    {
        self.data.push(rect);
    }

    pub(crate) fn get_rect(&self, index: usize) -> (r: Rect)
        requires
            index < self@.len(),
        ensures
            r == self@[index as int],
    {
        self.data[index]
    }

    /// Overwrites the extent of the slot, keeping its position.
    pub(crate) fn set_size(&mut self, index: usize, width: usize, height: usize)
        requires
            index < old(self)@.len(),
        ensures
            final(self)@ == old(self)@.update(
                index as int,
                Rect {
                    x: old(self)@[index as int].x,
                    y: old(self)@[index as int].y,
                    width,
                    height,
                },
            ),
    {
        let r = self.data[index];
        self.data.set(index, Rect { x: r.x, y: r.y, width, height });
    }

    /// Reads back the extent a child resolved to, for a parent that is
    /// mid-way through its own layout.
    pub fn get_child_size(&mut self, index: usize) -> (s: Size)
        requires
            index < old(self)@.len(),
        ensures
            final(self)@ == old(self)@,
            s.width == old(self)@[index as int].width,
            s.height == old(self)@[index as int].height,
    {
        let rect = self.data[index];
        Size::new(rect.width, rect.height)
    }

    /// Fixes a child's top-left offset, keeping its extent.
    pub fn position_child(&mut self, index: usize, x: usize, y: usize)
        requires
            index < old(self)@.len(),
        ensures
            final(self)@ == old(self)@.update(
                index as int,
                Rect {
                    x,
                    y,
                    width: old(self)@[index as int].width,
                    height: old(self)@[index as int].height,
                },
            ),
    {
        let r = self.data[index];
        self.data.set(index, Rect { x, y, width: r.width, height: r.height });
    }
}

/// The side-table accumulating drawing commands during a paint pass,
/// drained once per pass.
pub struct RenderContext {
    commands: Vec<Command>,
}

impl View for RenderContext {
    type V = Seq<Command>;

    closed spec fn view(&self) -> Seq<Command> {
        self.commands@
    }
}

impl RenderContext {
    pub fn new() -> (c: RenderContext)
        ensures
            c@ == Seq::<Command>::empty(),
    {
        RenderContext { commands: Vec::new() }
    }

    pub fn add_command(&mut self, command: Command)
        ensures
            final(self)@ == old(self)@.push(command),
    {
        self.commands.push(command);
    }

    /// Hands the accumulated commands out, leaving the buffer empty.
    pub(crate) fn get_commands(&mut self) -> (r: Vec<Command>)
        ensures
            r@ == old(self)@,
            final(self)@ == Seq::<Command>::empty(),
    {
        let mut swapped: Vec<Command> = Vec::new();
        core::mem::swap(&mut self.commands, &mut swapped);
        swapped
    }
}

} // verus!

use crate::constraint::Constraint;
use crate::element::{
    box_child_constraint, child_constraint_of, element_step, element_step_req, fixed_clamped_height,
    fixed_clamped_width, flex_major_budget, flex_place, flex_slot, max_of, node_paint_commands,
    same_shape, Axis, Element, LayoutResult,
};
use crate::style::Style;

verus! {

/// The scene graph: owns every node's element, child list, parent link and
/// style, plus the two side-tables, and manages index allocation with
/// free-index recycling.
pub struct Surface {
    size: Size,
    root_index: Option<usize>,
    elements: Vec<Element>,
    children: Vec<Vec<usize>>,
    parents: Vec<Option<usize>>,
    styles: Vec<Style>,
    layout_context: LayoutContext,
    render_context: RenderContext,
    free_list: Vec<usize>,
}

impl Surface {
    /// How many arena slots exist, live or free.
    pub closed spec fn node_count(self) -> int {
        self.elements.len() as int
    }

    /// The ordered child-index list of slot `i`.
    pub closed spec fn spec_kids(self, i: int) -> Seq<usize> {
        self.children@[i]@
    }

    /// The parent back-reference of slot `i`.
    pub closed spec fn spec_parent(self, i: int) -> Option<usize> {
        self.parents@[i]
    }

    /// The style of slot `i`.
    pub closed spec fn spec_style(self, i: int) -> Style {
        self.styles@[i]
    }

    /// The layout element of slot `i`.
    pub closed spec fn spec_element(self, i: int) -> Element {
        self.elements@[i]
    }

    /// The resolved rectangle of slot `i`.
    pub closed spec fn spec_rect(self, i: int) -> Rect {
        self.layout_context@[i]
    }

    /// The recycling list of free indices, most recently freed last.
    pub closed spec fn spec_free(self) -> Seq<usize> {
        self.free_list@
    }

    /// The designated root node, if any.
    pub closed spec fn spec_root(self) -> Option<usize> {
        self.root_index
    }

    /// The logical surface size the root is constrained to.
    pub closed spec fn spec_size(self) -> Size {
        self.size
    }

    /// Drawing commands accumulated and not yet drained by `paint`.
    pub closed spec fn pending_commands(self) -> Seq<Command> {
        self.render_context@
    }

    /// All parallel tables cover exactly the arena's slots.
    pub closed spec fn tables_sized(self) -> bool {
        &&& self.children@.len() == self.elements@.len()
        &&& self.parents@.len() == self.elements@.len()
        &&& self.styles@.len() == self.elements@.len()
        &&& self.layout_context@.len() == self.elements@.len()
    }

    /// Slot `i` names a live node: allocated and not on the free list.
    pub open spec fn live(self, i: int) -> bool {
        0 <= i < self.node_count() && !self.spec_free().contains(i as usize)
    }

    /// The arena invariants, maintained by every public operation: child
    /// lists and parent links agree, a node is the child of at most one
    /// parent (and appears there once), free indices are in range,
    /// pairwise distinct and fully detached, and the root, if set, is a
    /// live node without a parent.
    pub open spec fn wf(self) -> bool {
        &&& self.tables_sized()
        &&& forall|p: int, k: int|
            self.live(p) && 0 <= k < self.spec_kids(p).len() ==> self.live(
                (#[trigger] self.spec_kids(p)[k]) as int,
            ) && self.spec_parent(self.spec_kids(p)[k] as int) == Option::Some(p as usize)
        &&& forall|i: int|
            self.live(i) ==> ((#[trigger] self.spec_parent(i)) matches Option::Some(p) ==> self.live(
                p as int,
            ) && self.spec_kids(p as int).contains(i as usize))
        &&& forall|p1: int, k1: int, p2: int, k2: int|
            self.live(p1) && self.live(p2) && 0 <= k1 < self.spec_kids(p1).len() && 0 <= k2
                < self.spec_kids(p2).len() && (#[trigger] self.spec_kids(p1)[k1])
                == (#[trigger] self.spec_kids(p2)[k2]) ==> p1 == p2 && k1 == k2
        &&& forall|k: int|
            0 <= k < self.spec_free().len() ==> ((#[trigger] self.spec_free()[k]) as int)
                < self.node_count()
        &&& forall|k1: int, k2: int|
            0 <= k1 < k2 < self.spec_free().len() ==> (#[trigger] self.spec_free()[k1])
                != (#[trigger] self.spec_free()[k2])
        &&& forall|k: int|
            0 <= k < self.spec_free().len() ==> self.spec_kids(
                (#[trigger] self.spec_free()[k]) as int,
            ).len() == 0 && self.spec_parent(self.spec_free()[k] as int) is None
        &&& (self.spec_root() matches Option::Some(r) ==> self.live(r as int) && self.spec_parent(
            r as int,
        ) is None)
    }

    /// A freshly created, empty scene graph for a surface of the given size.
    pub fn new(size: Size) -> (s: Surface)
        ensures
            s.wf(),
            s.node_count() == 0,
            s.spec_root() is None,
            s.spec_size() == size,
            s.spec_free().len() == 0,
            s.pending_commands() == Seq::<Command>::empty(),
    {
        Surface {
            size,
            root_index: None,
            elements: Vec::new(),
            children: Vec::new(),
            parents: Vec::new(),
            styles: Vec::new(),
            layout_context: LayoutContext::new(),
            render_context: RenderContext::new(),
            free_list: Vec::new(),
        }
    }

    pub fn get_size(&self) -> (s: Size)
        ensures
            s == self.spec_size(),
    {
        self.size
    }

    /// Updates the logical surface size; takes effect at the next `layout`.
    pub fn resize(&mut self, size: Size)
        requires
            old(self).wf(),
        ensures
            final(self).wf(),
            final(self).spec_size() == size,
            final(self).spec_root() == old(self).spec_root(),
            final(self).spec_free() == old(self).spec_free(),
            final(self).node_count() == old(self).node_count(),
            final(self).pending_commands() == old(self).pending_commands(),
            forall|i: int|
                0 <= i < old(self).node_count() ==> #[trigger] node_unchanged(
                    *old(self),
                    *final(self),
                    i,
                ),
    {
        self.size = size;
        proof {
            lemma_wf_preserved(*old(self), *self);
        }
    }

    pub fn get_root(&self) -> (r: Option<usize>)
        ensures
            r == self.spec_root(),
    {
        self.root_index
    }

    /// Designates a live, parentless node as the root.
    pub fn set_root(&mut self, index: usize)
        requires
            old(self).wf(),
            old(self).live(index as int),
            old(self).spec_parent(index as int) is None,
        ensures
            final(self).wf(),
            final(self).spec_root() == Option::Some(index),
            final(self).spec_size() == old(self).spec_size(),
            final(self).spec_free() == old(self).spec_free(),
            final(self).node_count() == old(self).node_count(),
            final(self).pending_commands() == old(self).pending_commands(),
            forall|i: int|
                0 <= i < old(self).node_count() ==> #[trigger] node_unchanged(
                    *old(self),
                    *final(self),
                    i,
                ),
    {
        self.root_index = Some(index);
        proof {
            lemma_wf_preserved(*old(self), *self);
        }
    }

    /// Overwrites the style of an allocated slot.
    pub fn set_style(&mut self, index: usize, style: Style)
        requires
            old(self).wf(),
            index < old(self).node_count(),
        ensures
            final(self).wf(),
            final(self).spec_style(index as int) == style,
            final(self).spec_root() == old(self).spec_root(),
            final(self).spec_size() == old(self).spec_size(),
            final(self).spec_free() == old(self).spec_free(),
            final(self).node_count() == old(self).node_count(),
            final(self).pending_commands() == old(self).pending_commands(),
            forall|i: int|
                0 <= i < old(self).node_count() && i != index ==> #[trigger] node_unchanged(
                    *old(self),
                    *final(self),
                    i,
                ),
            final(self).spec_kids(index as int) == old(self).spec_kids(index as int),
            final(self).spec_parent(index as int) == old(self).spec_parent(index as int),
            final(self).spec_element(index as int) == old(self).spec_element(index as int),
            final(self).spec_rect(index as int) == old(self).spec_rect(index as int),
    {
        self.styles.set(index, style);
        proof {
            lemma_wf_preserved(*old(self), *self);
        }
    }

    /// Reads back the style of an allocated slot.
    pub fn get_style(&self, index: usize) -> (s: Style)
        requires
            self.wf(),
            index < self.node_count(),
        ensures
            s == self.spec_style(index as int),
    {
        self.styles[index]
    }

    /// Reads back the rectangle last resolved for an allocated slot.
    pub fn get_rect(&self, index: usize) -> (r: Rect)
        requires
            self.wf(),
            index < self.node_count(),
        ensures
            r == self.spec_rect(index as int),
    {
        self.layout_context.get_rect(index)
    }
}

/// Exactly what `insert` does: a recycled free index if one exists (the
/// most recently freed), otherwise a fresh slot appended at the end; the
/// new node starts with the given element, empty style, zero rectangle, no
/// children and no parent, and nothing else changes.
pub open spec fn insert_post(pre: Surface, element: Element, post: Surface, idx: usize) -> bool {
    &&& post.spec_root() == pre.spec_root()
    &&& post.spec_size() == pre.spec_size()
    &&& post.pending_commands() == pre.pending_commands()
    &&& post.live(idx as int)
    &&& post.spec_element(idx as int) == element
    &&& post.spec_style(idx as int) == Style::spec_empty()
    &&& post.spec_rect(idx as int) == (Rect { x: 0, y: 0, width: 0, height: 0 })
    &&& post.spec_kids(idx as int).len() == 0
    &&& post.spec_parent(idx as int) is None
    &&& if pre.spec_free().len() > 0 {
        &&& idx == pre.spec_free().last()
        &&& post.spec_free() == pre.spec_free().drop_last()
        &&& post.node_count() == pre.node_count()
        &&& forall|i: int|
            0 <= i < pre.node_count() && i != idx ==> #[trigger] node_unchanged(pre, post, i)
    } else {
        &&& idx as int == pre.node_count()
        &&& post.spec_free() == pre.spec_free()
        &&& post.node_count() == pre.node_count() + 1
        &&& forall|i: int|
            0 <= i < pre.node_count() ==> #[trigger] node_unchanged(pre, post, i)
    }
}

/// Slot `i` has the same child list and parent link in `a` and `b`.
pub open spec fn links_unchanged(a: Surface, b: Surface, i: int) -> bool {
    b.spec_kids(i) == a.spec_kids(i) && b.spec_parent(i) == a.spec_parent(i)
}

/// The arena invariants depend only on the child lists, parent links, free
/// list and root; any operation leaving those as they were (or moving the
/// root to another live, parentless node) preserves them.
proof fn lemma_wf_preserved(a: Surface, b: Surface)
    requires
        a.wf(),
        b.tables_sized(),
        b.node_count() == a.node_count(),
        b.spec_free() == a.spec_free(),
        forall|i: int| 0 <= i < a.node_count() ==> #[trigger] links_unchanged(a, b, i),
        b.spec_root() matches Option::Some(r) ==> b.live(r as int) && b.spec_parent(
            r as int,
        ) is None,
    ensures
        b.wf(),
{
    assert forall|i: int| #[trigger] b.live(i) == a.live(i) by {}
    assert forall|p: int, k: int| b.live(p) && 0 <= k < b.spec_kids(p).len() implies b.live(
        (#[trigger] b.spec_kids(p)[k]) as int,
    ) && b.spec_parent(b.spec_kids(p)[k] as int) == Option::Some(p as usize) by {
        assert(a.live(p));
        assert(links_unchanged(a, b, p));
        let x = a.spec_kids(p)[k] as int;
        assert(a.live(x) && a.spec_parent(x) == Option::Some(p as usize));
        assert(links_unchanged(a, b, x));
        assert(b.live(x));
    }
    assert forall|i: int| b.live(i) implies ((#[trigger] b.spec_parent(i)) matches Option::Some(p)
        ==> b.live(p as int) && b.spec_kids(p as int).contains(i as usize)) by {
        assert(a.live(i));
        assert(links_unchanged(a, b, i));
        if b.spec_parent(i) is Some {
            let p = b.spec_parent(i)->0;
            assert(a.spec_parent(i) matches Option::Some(q) && q == p);
            assert(a.live(p as int) && a.spec_kids(p as int).contains(i as usize));
            assert(links_unchanged(a, b, p as int));
            assert(b.live(p as int));
        }
    }
    assert forall|p1: int, k1: int, p2: int, k2: int|
        b.live(p1) && b.live(p2) && 0 <= k1 < b.spec_kids(p1).len() && 0 <= k2 < b.spec_kids(
            p2,
        ).len() && (#[trigger] b.spec_kids(p1)[k1]) == (#[trigger] b.spec_kids(p2)[k2]) implies p1
        == p2 && k1 == k2 by {
        assert(a.live(p1) && a.live(p2));
        assert(links_unchanged(a, b, p1) && links_unchanged(a, b, p2));
        assert(a.spec_kids(p1)[k1] == a.spec_kids(p2)[k2]);
        assert(p1 == p2 && k1 == k2);
    }
    assert forall|k: int| 0 <= k < b.spec_free().len() implies ((#[trigger] b.spec_free()[k]) as int)
        < b.node_count() && b.spec_kids(b.spec_free()[k] as int).len() == 0 && b.spec_parent(
        b.spec_free()[k] as int,
    ) is None by {
        assert(a.spec_free()[k] == b.spec_free()[k]);
        let x = a.spec_free()[k] as int;
        assert(x < a.node_count());
        assert(a.spec_kids(x).len() == 0 && a.spec_parent(x) is None);
        assert(links_unchanged(a, b, x));
    }
}

/// Slot `i` holds the same node record in `a` and `b`.
pub open spec fn node_unchanged(a: Surface, b: Surface, i: int) -> bool {
    &&& b.spec_kids(i) == a.spec_kids(i)
    &&& b.spec_parent(i) == a.spec_parent(i)
    &&& b.spec_style(i) == a.spec_style(i)
    &&& b.spec_element(i) == a.spec_element(i)
    &&& b.spec_rect(i) == a.spec_rect(i)
}

/// Allocating one detached, childless node (recycled or appended)
/// preserves the arena invariants.
proof fn lemma_wf_insert(a: Surface, b: Surface, idx: int)
    requires
        a.wf(),
        b.tables_sized(),
        0 <= idx < b.node_count(),
        a.node_count() <= b.node_count() <= a.node_count() + 1,
        forall|i: int| 0 <= i < a.node_count() && i != idx ==> #[trigger] links_unchanged(a, b, i),
        b.spec_kids(idx).len() == 0,
        b.spec_parent(idx) is None,
        forall|i: int| #[trigger] b.live(i) <==> (a.live(i) || i == idx),
        !a.live(idx),
        forall|k: int|
            0 <= k < b.spec_free().len() ==> a.spec_free().contains(#[trigger] b.spec_free()[k]),
        forall|k1: int, k2: int|
            0 <= k1 < k2 < b.spec_free().len() ==> (#[trigger] b.spec_free()[k1])
                != (#[trigger] b.spec_free()[k2]),
        b.spec_root() == a.spec_root(),
    ensures
        b.wf(),
{
    assert forall|p: int, k: int| b.live(p) && 0 <= k < b.spec_kids(p).len() implies b.live(
        (#[trigger] b.spec_kids(p)[k]) as int,
    ) && b.spec_parent(b.spec_kids(p)[k] as int) == Option::Some(p as usize) by {
        if p != idx {
            assert(a.live(p));
            assert(links_unchanged(a, b, p));
            let x = a.spec_kids(p)[k] as int;
            assert(a.live(x) && a.spec_parent(x) == Option::Some(p as usize));
            assert(x != idx);
            assert(links_unchanged(a, b, x));
            assert(b.live(x));
        }
    }
    assert forall|i: int| b.live(i) implies ((#[trigger] b.spec_parent(i)) matches Option::Some(p)
        ==> b.live(p as int) && b.spec_kids(p as int).contains(i as usize)) by {
        if i != idx && b.spec_parent(i) is Some {
            assert(a.live(i));
            assert(links_unchanged(a, b, i));
            let p = b.spec_parent(i)->0;
            assert(a.live(p as int) && a.spec_kids(p as int).contains(i as usize));
            assert(p as int != idx);
            assert(links_unchanged(a, b, p as int));
            assert(b.live(p as int));
        }
    }
    assert forall|p1: int, k1: int, p2: int, k2: int|
        b.live(p1) && b.live(p2) && 0 <= k1 < b.spec_kids(p1).len() && 0 <= k2 < b.spec_kids(
            p2,
        ).len() && (#[trigger] b.spec_kids(p1)[k1]) == (#[trigger] b.spec_kids(p2)[k2]) implies p1
        == p2 && k1 == k2 by {
        if p1 != idx && p2 != idx {
            assert(a.live(p1) && a.live(p2));
            assert(links_unchanged(a, b, p1) && links_unchanged(a, b, p2));
            assert(a.spec_kids(p1)[k1] == a.spec_kids(p2)[k2]);
        }
    }
    assert forall|k: int| 0 <= k < b.spec_free().len() implies ((#[trigger] b.spec_free()[k]) as int)
        < b.node_count() && b.spec_kids(b.spec_free()[k] as int).len() == 0 && b.spec_parent(
        b.spec_free()[k] as int,
    ) is None by {
        let x = b.spec_free()[k];
        assert(a.spec_free().contains(x));
        let j = choose|j: int| 0 <= j < a.spec_free().len() && a.spec_free()[j] == x;
        assert((a.spec_free()[j] as int) < a.node_count());
        assert(a.spec_kids(x as int).len() == 0 && a.spec_parent(x as int) is None);
        assert(!b.live(x as int));
        assert(x as int != idx);
        assert(links_unchanged(a, b, x as int));
    }
    if b.spec_root() is Some {
        let r = b.spec_root()->0;
        assert(a.live(r as int));
        assert(r as int != idx);
        assert(links_unchanged(a, b, r as int));
        assert(b.live(r as int));
    }
}

impl Surface {
    /// Allocates a node for the given element, preferring a recycled free
    /// index; the node starts detached, childless, zero-sized and
    /// empty-styled. Never fails.
    pub fn insert(&mut self, element: Element) -> (idx: usize)
        requires
            old(self).wf(),
        ensures
            final(self).wf(),
            insert_post(*old(self), element, *final(self), idx),
    {
        let popped = self.free_list.pop();
        match popped {
            Some(index) => {
                proof {
                    let a = *old(self);
                    let fl = a.spec_free();
                    assert(fl[fl.len() - 1] == index);
                    assert((fl[fl.len() - 1] as int) < a.node_count());
                    assert(fl.contains(index));
                    assert(a.spec_kids(index as int).len() == 0 && a.spec_parent(
                        index as int,
                    ) is None);
                }
                self.elements.set(index, element);
                self.styles.set(index, Style::empty());
                self.layout_context.set_size(index, 0, 0);
                self.layout_context.position_child(index, 0, 0);
                proof {
                    let a = *old(self);
                    let b = *self;
                    let fl = a.spec_free();
                    assert forall|k: int|
                        0 <= k < b.spec_free().len() implies a.spec_free().contains(
                        #[trigger] b.spec_free()[k],
                    ) by {
                        assert(b.spec_free()[k] == fl[k]);
                    }
                    assert forall|i: int| #[trigger] b.live(i) <==> (a.live(i) || i == index) by {
                        if a.live(i) || i == index {
                            assert(!b.spec_free().contains(i as usize)) by {
                                if b.spec_free().contains(i as usize) {
                                    let k = choose|k: int|
                                        0 <= k < b.spec_free().len() && b.spec_free()[k]
                                            == i as usize;
                                    assert(fl[k] == i as usize);
                                    if i == index {
                                        assert(fl[k] == fl[fl.len() - 1] && k < fl.len() - 1);
                                    } else {
                                        assert(fl.contains(i as usize));
                                        assert(!a.live(i));
                                    }
                                }
                            }
                        }
                        if b.live(i) && i != index {
                            assert(0 <= i < b.node_count());
                            assert(!fl.contains(i as usize)) by {
                                if fl.contains(i as usize) {
                                    let k = choose|k: int|
                                        0 <= k < fl.len() && fl[k] == i as usize;
                                    if k == fl.len() - 1 {
                                        assert(i as usize == index);
                                        assert(i == index as int);
                                    } else {
                                        assert(b.spec_free()[k] == fl[k]);
                                        assert(b.spec_free().contains(i as usize));
                                    }
                                }
                            }
                        }
                    }
                    assert(!a.live(index as int));
                    lemma_wf_insert(a, b, index as int);
                    assert(insert_post(a, element, b, index));
                }
                index
            },
            None => {
                let index = self.elements.len();
                self.layout_context.insert(Rect::new(0, 0, 0, 0));
                self.elements.push(element);
                self.children.push(Vec::new());
                self.parents.push(None);
                self.styles.push(Style::empty());
                proof {
                    let a = *old(self);
                    let b = *self;
                    assert(b.spec_kids(index as int).len() == 0);
                    assert forall|i: int|
                        0 <= i < a.node_count() && i != index as int implies #[trigger] links_unchanged(
                        a,
                        b,
                        i,
                    ) by {
                        assert(b.spec_kids(i) == a.spec_kids(i));
                    }
                    assert forall|i: int| #[trigger] b.live(i) <==> (a.live(i) || i == index) by {
                        if i == index {
                            assert(!b.spec_free().contains(i as usize)) by {
                                if b.spec_free().contains(i as usize) {
                                    let k = choose|k: int|
                                        0 <= k < b.spec_free().len() && b.spec_free()[k]
                                            == i as usize;
                                    assert((a.spec_free()[k] as int) < a.node_count());
                                }
                            }
                        }
                    }
                    assert(!a.live(index as int));
                    lemma_wf_insert(a, b, index as int);
                    assert(insert_post(a, element, b, index));
                }
                index
            },
        }
    }

    /// Appends `child_index` to `parent_index`'s children and sets the
    /// child's parent link. The child must not be parented elsewhere, be
    /// the parent itself, or be the root.
    pub fn set_parent(&mut self, child_index: usize, parent_index: usize)
        requires
            old(self).wf(),
            old(self).live(child_index as int),
            old(self).live(parent_index as int),
            child_index != parent_index,
            old(self).spec_parent(child_index as int) is None,
            old(self).spec_root() != Option::Some(child_index),
        ensures
            final(self).wf(),
            final(self).spec_kids(parent_index as int) == old(self).spec_kids(
                parent_index as int,
            ).push(child_index),
            final(self).spec_parent(child_index as int) == Option::Some(parent_index),
            final(self).spec_root() == old(self).spec_root(),
            final(self).spec_size() == old(self).spec_size(),
            final(self).spec_free() == old(self).spec_free(),
            final(self).node_count() == old(self).node_count(),
            final(self).pending_commands() == old(self).pending_commands(),
            forall|i: int|
                0 <= i < old(self).node_count() && i != child_index as int && i
                    != parent_index as int ==> #[trigger] node_unchanged(*old(self), *final(self), i),
            final(self).spec_kids(child_index as int) == old(self).spec_kids(child_index as int),
            final(self).spec_parent(parent_index as int) == old(self).spec_parent(
                parent_index as int,
            ),
            final(self).spec_style(child_index as int) == old(self).spec_style(child_index as int),
            final(self).spec_style(parent_index as int) == old(self).spec_style(
                parent_index as int,
            ),
            final(self).spec_element(child_index as int) == old(self).spec_element(
                child_index as int,
            ),
            final(self).spec_element(parent_index as int) == old(self).spec_element(
                parent_index as int,
            ),
            final(self).spec_rect(child_index as int) == old(self).spec_rect(child_index as int),
            final(self).spec_rect(parent_index as int) == old(self).spec_rect(parent_index as int),
    {
        self.children[parent_index].push(child_index);
        self.parents.set(child_index, Some(parent_index));
        proof {
            let a = *old(self);
            let b = *self;
            let ci = child_index as int;
            let pi = parent_index as int;
            assert(b.spec_kids(pi) == a.spec_kids(pi).push(child_index));
            // the child was in nobody's list: its parent link was unset
            assert forall|p: int, k: int|
                a.live(p) && 0 <= k < a.spec_kids(p).len() implies (#[trigger] a.spec_kids(p)[k])
                    != child_index by {
                if a.spec_kids(p)[k] == child_index {
                    assert(a.spec_parent(ci) == Option::Some(p as usize));
                }
            }
            assert forall|i: int| #[trigger] b.live(i) == a.live(i) by {}
            assert forall|p: int, k: int| b.live(p) && 0 <= k < b.spec_kids(p).len() implies b.live(
                (#[trigger] b.spec_kids(p)[k]) as int,
            ) && b.spec_parent(b.spec_kids(p)[k] as int) == Option::Some(p as usize) by {
                if p == pi && k == a.spec_kids(pi).len() {
                    assert(b.spec_kids(p)[k] == child_index);
                } else {
                    assert(b.spec_kids(p)[k] == a.spec_kids(p)[k]);
                    let x = a.spec_kids(p)[k] as int;
                    assert(a.live(x) && a.spec_parent(x) == Option::Some(p as usize));
                    assert(x != ci);
                    assert(b.spec_parent(x) == a.spec_parent(x));
                }
            }
            assert forall|i: int| b.live(i) implies ((#[trigger] b.spec_parent(
                i,
            )) matches Option::Some(p) ==> b.live(p as int) && b.spec_kids(p as int).contains(
                i as usize,
            )) by {
                if b.spec_parent(i) is Some {
                    let p = b.spec_parent(i)->0;
                    if i == ci {
                        assert(p == parent_index);
                        assert(b.spec_kids(pi)[a.spec_kids(pi).len() as int] == child_index);
                        assert(b.spec_kids(pi).contains(child_index));
                    } else {
                        assert(a.spec_parent(i) == b.spec_parent(i));
                        assert(a.live(p as int) && a.spec_kids(p as int).contains(i as usize));
                        if p as int == pi {
                            let k = choose|k: int|
                                0 <= k < a.spec_kids(pi).len() && a.spec_kids(pi)[k] == i as usize;
                            assert(b.spec_kids(pi)[k] == i as usize);
                            assert(b.spec_kids(pi).contains(i as usize));
                        } else {
                            assert(b.spec_kids(p as int) == a.spec_kids(p as int));
                        }
                    }
                }
            }
            assert forall|p1: int, k1: int, p2: int, k2: int|
                b.live(p1) && b.live(p2) && 0 <= k1 < b.spec_kids(p1).len() && 0 <= k2
                    < b.spec_kids(p2).len() && (#[trigger] b.spec_kids(p1)[k1])
                    == (#[trigger] b.spec_kids(p2)[k2]) implies p1 == p2 && k1 == k2 by {
                let new1 = p1 == pi && k1 == a.spec_kids(pi).len();
                let new2 = p2 == pi && k2 == a.spec_kids(pi).len();
                if new1 && new2 {
                } else if new1 {
                    assert(b.spec_kids(p1)[k1] == child_index);
                    assert(b.spec_kids(p2)[k2] == a.spec_kids(p2)[k2]);
                    assert(a.spec_kids(p2)[k2] != child_index);
                } else if new2 {
                    assert(b.spec_kids(p2)[k2] == child_index);
                    assert(b.spec_kids(p1)[k1] == a.spec_kids(p1)[k1]);
                    assert(a.spec_kids(p1)[k1] != child_index);
                } else {
                    assert(b.spec_kids(p1)[k1] == a.spec_kids(p1)[k1]);
                    assert(b.spec_kids(p2)[k2] == a.spec_kids(p2)[k2]);
                }
            }
            assert forall|k: int|
                0 <= k < b.spec_free().len() implies ((#[trigger] b.spec_free()[k]) as int)
                    < b.node_count() && b.spec_kids(b.spec_free()[k] as int).len() == 0
                    && b.spec_parent(b.spec_free()[k] as int) is None by {
                let x = b.spec_free()[k] as int;
                assert((a.spec_free()[k] as int) < a.node_count());
                assert(a.spec_kids(x).len() == 0 && a.spec_parent(x) is None);
                assert(a.spec_free().contains(x as usize));
                assert(!a.live(x));
                assert(x != ci && x != pi);
            }
            if b.spec_root() is Some {
                let r = b.spec_root()->0;
                assert(r != child_index);
                assert(a.live(r as int));
            }
        }
    }
}

/// `x` occurs somewhere in the work stack.
pub open spec fn stack_has(s: Seq<usize>, x: int) -> bool {
    exists|j: int| 0 <= j < s.len() && (#[trigger] s[j]) as int == x
}

/// Slot `i` carries the same style, element and rectangle in `a` and `b`.
pub open spec fn payload_unchanged(a: Surface, b: Surface, i: int) -> bool {
    &&& b.spec_style(i) == a.spec_style(i)
    &&& b.spec_element(i) == a.spec_element(i)
    &&& b.spec_rect(i) == a.spec_rect(i)
}

/// The set `rem` describes exactly what `remove(index)` destroyed: it is
/// the subtree of `index` (it contains `index`, is closed under children,
/// and every other member's parent is a member), those nodes stop being
/// live and join the free list, the root is cleared when it was destroyed,
/// and every surviving node keeps its record, except that `index`'s old
/// parent loses `index` from its child list.
pub open spec fn remove_witness(pre: Surface, post: Surface, index: usize, rem: Set<int>) -> bool {
    &&& rem.contains(index as int)
    &&& forall|i: int| #[trigger] rem.contains(i) ==> pre.live(i)
    &&& forall|i: int|
        0 <= i < pre.node_count() ==> ((#[trigger] post.live(i)) <==> (pre.live(i)
            && !rem.contains(i)))
    &&& forall|i: int, k: int|
        rem.contains(i) && 0 <= k < pre.spec_kids(i).len() ==> rem.contains(
            (#[trigger] pre.spec_kids(i)[k]) as int,
        )
    &&& forall|i: int|
        #[trigger] rem.contains(i) && i != index as int ==> (pre.spec_parent(
            i,
        ) matches Option::Some(p) && rem.contains(p as int))
    &&& forall|x: usize|
        #[trigger] post.spec_free().contains(x) <==> (pre.spec_free().contains(x) || rem.contains(
            x as int,
        ))
    &&& post.spec_root() == (if pre.spec_root() matches Option::Some(r) && rem.contains(r as int) {
        Option::<usize>::None
    } else {
        pre.spec_root()
    })
    &&& forall|i: int|
        0 <= i < pre.node_count() && !rem.contains(i) ==> (#[trigger] post.spec_parent(i))
            == pre.spec_parent(i) && payload_unchanged(pre, post, i)
    &&& forall|i: int|
        0 <= i < pre.node_count() && !rem.contains(i) ==> (#[trigger] post.spec_kids(i)) == (
        if pre.spec_parent(index as int) matches Option::Some(p) && p as int == i {
            pre.spec_kids(i).remove_value(index)
        } else {
            pre.spec_kids(i)
        })
}

/// Exactly what `remove` does. Besides the subtree witness, removing a
/// childless node is pinned down completely: only that one slot is freed
/// and every other record is untouched (except the old parent's child
/// list).
pub open spec fn remove_post(pre: Surface, post: Surface, index: usize) -> bool {
    &&& post.spec_size() == pre.spec_size()
    &&& post.pending_commands() == pre.pending_commands()
    &&& post.node_count() == pre.node_count()
    &&& exists|rem: Set<int>| #[trigger] remove_witness(pre, post, index, rem)
    &&& (pre.spec_kids(index as int).len() == 0 ==> {
        &&& post.spec_free() == pre.spec_free().push(index)
        &&& forall|i: int|
            0 <= i < pre.node_count() && i != index as int ==> (#[trigger] post.spec_parent(i))
                == pre.spec_parent(i) && payload_unchanged(pre, post, i)
        &&& forall|i: int|
            0 <= i < pre.node_count() && i != index as int ==> (#[trigger] post.spec_kids(i)) == (
            if pre.spec_parent(index as int) matches Option::Some(p) && p as int == i {
                pre.spec_kids(i).remove_value(index)
            } else {
                pre.spec_kids(i)
            })
        &&& post.spec_root() == (if pre.spec_root() == Option::Some(index) {
            Option::<usize>::None
        } else {
            pre.spec_root()
        })
    })
}

/// Removing one value from a duplicate-free sequence keeps every other
/// value, keeps it duplicate-free, and never grows it.
proof fn lemma_remove_value_props(s: Seq<usize>, v: usize)
    requires
        forall|k1: int, k2: int| 0 <= k1 < k2 < s.len() ==> s[k1] != s[k2],
    ensures
        forall|x: usize| #[trigger] s.remove_value(v).contains(x) <==> (s.contains(x) && x != v),
        forall|k1: int, k2: int|
            0 <= k1 < k2 < s.remove_value(v).len() ==> s.remove_value(v)[k1] != s.remove_value(
                v,
            )[k2],
        s.remove_value(v).len() <= s.len(),
        forall|k: int|
            0 <= k < s.remove_value(v).len() ==> s.contains(#[trigger] s.remove_value(v)[k]),
{
    s.index_of_first_ensures(v);
    let t = s.remove_value(v);
    if s.contains(v) {
        let i = s.index_of_first(v)->0;
        s.remove_ensures(i);
        assert forall|x: usize| #[trigger] t.contains(x) implies (s.contains(x) && x != v) by {
            let k = choose|k: int| 0 <= k < t.len() && t[k] == x;
            if k < i {
                assert(s[k] == x);
                assert(x != v);
            } else {
                assert(t[k] == s[k + 1]);
                assert(s[k + 1] == x);
                assert(x != v);
            }
        }
        assert forall|x: usize| s.contains(x) && x != v implies #[trigger] t.contains(x) by {
            let k = choose|k: int| 0 <= k < s.len() && s[k] == x;
            assert(k != i);
            if k < i {
                assert(t[k] == s[k]);
            } else {
                assert(t[k - 1] == s[k]);
            }
        }
        assert forall|k1: int, k2: int| 0 <= k1 < k2 < t.len() implies t[k1] != t[k2] by {
            let o1: int = if k1 < i {
                k1
            } else {
                k1 + 1
            };
            let o2: int = if k2 < i {
                k2
            } else {
                k2 + 1
            };
            assert(t[k1] == s[o1] && t[k2] == s[o2]);
        }
        assert forall|k: int| 0 <= k < t.len() implies s.contains(#[trigger] t[k]) by {
            let o: int = if k < i {
                k
            } else {
                k + 1
            };
            assert(t[k] == s[o]);
        }
    }
}

/// Removes the first occurrence of `value`, leaving the vector unchanged
/// when it does not occur.
fn remove_first(v: &mut Vec<usize>, value: usize)
    ensures
        final(v)@ == old(v)@.remove_value(value),
{
    let mut j: usize = 0;
    let len = v.len();
    while j < len
        invariant
            j <= len,
            len == v@.len(),
            v@ == old(v)@,
            forall|t: int| 0 <= t < j ==> v@[t] != value,
        decreases len - j,
    {
        if v[j] == value {
            v.remove(j);
            proof {
                old(v)@.index_of_first_ensures(value);
                assert(old(v)@.contains(value));
                let i = old(v)@.index_of_first(value)->0;
                assert(i == j as int) by {
                    if i < j as int {
                        assert(old(v)@[i] != value);
                    }
                    if i > j as int {
                        assert(old(v)@[j as int] != value);
                    }
                }
            }
            return ;
        }
        j = j + 1;
    }
    proof {
        old(v)@.index_of_first_ensures(value);
        if old(v)@.contains(value) {
            let i = old(v)@.index_of_first(value)->0;
            assert(old(v)@[i] != value);
        }
    }
}

/// Destroying a child-closed, parent-rooted set of nodes (detaching its
/// top from the one surviving child list that held it) preserves the
/// arena invariants.
proof fn lemma_wf_after_remove(a: Surface, b: Surface, index: usize, rem: Set<int>)
    requires
        a.wf(),
        a.live(index as int),
        b.tables_sized(),
        b.node_count() == a.node_count(),
        remove_witness(a, b, index, rem),
        forall|x: int|
            #[trigger] rem.contains(x) ==> b.spec_kids(x).len() == 0 && b.spec_parent(x) is None,
        forall|k1: int, k2: int|
            0 <= k1 < k2 < b.spec_free().len() ==> b.spec_free()[k1] != b.spec_free()[k2],
    ensures
        b.wf(),
{
    let px: int = match a.spec_parent(index as int) {
        Option::Some(p) => p as int,
        Option::None => -1,
    };
    if px >= 0 {
        lemma_remove_value_props(a.spec_kids(px), index);
    }
    assert forall|p: int, k: int| b.live(p) && 0 <= k < b.spec_kids(p).len() implies b.live(
        (#[trigger] b.spec_kids(p)[k]) as int,
    ) && b.spec_parent(b.spec_kids(p)[k] as int) == Option::Some(p as usize) by {
        assert(a.live(p) && !rem.contains(p));
        let x = b.spec_kids(p)[k];
        assert(a.spec_kids(p).contains(x)) by {
            if p == px {
                assert(b.spec_kids(p) == a.spec_kids(p).remove_value(index));
            } else {
                assert(b.spec_kids(p) == a.spec_kids(p));
            }
        }
        let ko = choose|ko: int| 0 <= ko < a.spec_kids(p).len() && a.spec_kids(p)[ko] == x;
        assert(a.live(x as int) && a.spec_parent(x as int) == Option::Some(p as usize));
        assert(x != index) by {
            if x == index {
                if p == px {
                    assert(!a.spec_kids(px).remove_value(index).contains(index));
                    assert(b.spec_kids(p).contains(x));
                } else {
                    assert(a.spec_parent(index as int) == Option::Some(p as usize));
                }
            }
        }
        assert(!rem.contains(x as int)) by {
            if rem.contains(x as int) {
                assert(a.spec_parent(x as int) matches Option::Some(q) && rem.contains(q as int));
            }
        }
        assert(b.live(x as int));
        assert(b.spec_parent(x as int) == a.spec_parent(x as int));
    }
    assert forall|i: int| b.live(i) implies ((#[trigger] b.spec_parent(i)) matches Option::Some(p)
        ==> b.live(p as int) && b.spec_kids(p as int).contains(i as usize)) by {
        assert(a.live(i) && !rem.contains(i));
        assert(b.spec_parent(i) == a.spec_parent(i));
        if b.spec_parent(i) is Some {
            let p = b.spec_parent(i)->0;
            assert(a.live(p as int) && a.spec_kids(p as int).contains(i as usize));
            assert(!rem.contains(p as int)) by {
                if rem.contains(p as int) {
                    let kk = choose|kk: int|
                        0 <= kk < a.spec_kids(p as int).len() && a.spec_kids(p as int)[kk]
                            == i as usize;
                    assert(rem.contains((a.spec_kids(p as int)[kk]) as int));
                }
            }
            assert(b.live(p as int));
            assert(i != index as int);
            if p as int == px {
                assert(b.spec_kids(p as int) == a.spec_kids(px).remove_value(index));
                assert(b.spec_kids(p as int).contains(i as usize));
            } else {
                assert(b.spec_kids(p as int) == a.spec_kids(p as int));
            }
        }
    }
    assert forall|p1: int, k1: int, p2: int, k2: int|
        b.live(p1) && b.live(p2) && 0 <= k1 < b.spec_kids(p1).len() && 0 <= k2 < b.spec_kids(
            p2,
        ).len() && (#[trigger] b.spec_kids(p1)[k1]) == (#[trigger] b.spec_kids(p2)[k2]) implies p1
        == p2 && k1 == k2 by {
        assert(a.live(p1) && !rem.contains(p1) && a.live(p2) && !rem.contains(p2));
        let ix: int = if px >= 0 && a.spec_kids(px).contains(index) {
            a.spec_kids(px).index_of_first(index)->0
        } else {
            -1
        };
        if px >= 0 {
            a.spec_kids(px).index_of_first_ensures(index);
            if a.spec_kids(px).contains(index) {
                a.spec_kids(px).remove_ensures(ix);
            }
        }
        let o1: int = if p1 == px && ix >= 0 && k1 >= ix {
            k1 + 1
        } else {
            k1
        };
        let o2: int = if p2 == px && ix >= 0 && k2 >= ix {
            k2 + 1
        } else {
            k2
        };
        assert(b.spec_kids(p1)[k1] == a.spec_kids(p1)[o1]) by {
            if p1 == px {
                assert(b.spec_kids(p1) == a.spec_kids(px).remove_value(index));
            } else {
                assert(b.spec_kids(p1) == a.spec_kids(p1));
            }
        }
        assert(b.spec_kids(p2)[k2] == a.spec_kids(p2)[o2]) by {
            if p2 == px {
                assert(b.spec_kids(p2) == a.spec_kids(px).remove_value(index));
            } else {
                assert(b.spec_kids(p2) == a.spec_kids(p2));
            }
        }
        assert(a.spec_kids(p1)[o1] == a.spec_kids(p2)[o2]);
        assert(p1 == p2 && o1 == o2);
    }
    assert forall|k: int| 0 <= k < b.spec_free().len() implies ((#[trigger] b.spec_free()[k]) as int)
        < b.node_count() && b.spec_kids(b.spec_free()[k] as int).len() == 0 && b.spec_parent(
        b.spec_free()[k] as int,
    ) is None by {
        let x = b.spec_free()[k];
        assert(b.spec_free().contains(x));
        assert(a.spec_free().contains(x) || rem.contains(x as int));
        if rem.contains(x as int) {
            assert(a.live(x as int));
        } else {
            let ko = choose|ko: int| 0 <= ko < a.spec_free().len() && a.spec_free()[ko] == x;
            assert((a.spec_free()[ko] as int) < a.node_count());
            assert(a.spec_kids(x as int).len() == 0 && a.spec_parent(x as int) is None);
            assert(!a.live(x as int));
            assert(x as int != px) by {
                if px >= 0 {
                    assert(a.live(px));
                }
            }
            assert(b.spec_kids(x as int) == a.spec_kids(x as int) && b.spec_parent(x as int)
                == a.spec_parent(x as int));
        }
    }
    if b.spec_root() is Some {
        let r = b.spec_root()->0;
        assert(a.spec_root() == Option::Some(r) && !rem.contains(r as int));
        assert(a.live(r as int) && a.spec_parent(r as int) is None);
        assert(b.live(r as int));
        assert(b.spec_parent(r as int) == a.spec_parent(r as int));
    }
}

impl Surface {
    /// Destroys the node and its entire subtree iteratively (via an
    /// explicit work stack, never recursion), detaches it from its
    /// parent's child list, clears the root when the root is destroyed,
    /// and recycles every destroyed index onto the free list.
    #[verifier::rlimit(100)]
    pub fn remove(&mut self, index: usize)
        requires
            old(self).wf(),
            old(self).live(index as int),
        ensures
            final(self).wf(),
            remove_post(*old(self), *final(self), index),
    {
        let ghost a = *old(self);
        let mut stack: Vec<usize> = Vec::new();
        stack.push(index);
        let ghost mut rem: Set<int> = Set::empty();
        let ghost mut remseq: Seq<usize> = Seq::empty();
        let ghost mut pushed: Set<int> = Set::empty().insert(index as int);
        proof {
            assert(a.spec_free() + remseq =~= a.spec_free());
            assert(stack@ =~= seq![index]);
            assert(pushed.len() == 1) by {
                assert(Set::<int>::empty().len() == 0);
            }
            assert(a.node_count() >= 1);
            assert forall|x: int| #[trigger] pushed.contains(x) implies (rem.contains(x)
                || stack_has(stack@, x)) by {
                assert(stack@[0] == index);
            }
        }
        while stack.len() > 0
            invariant
                a == *old(self),
                a.wf(),
                a.live(index as int),
                self.node_count() == a.node_count(),
                self.tables_sized(),
                self.spec_size() == a.spec_size(),
                self.pending_commands() == a.pending_commands(),
                forall|i: int|
                    0 <= i < a.node_count() ==> #[trigger] payload_unchanged(a, *self, i),
                pushed.finite(),
                pushed.len() <= a.node_count(),
                pushed.contains(index as int),
                forall|x: int| #[trigger] pushed.contains(x) ==> a.live(x),
                forall|x: int|
                    #[trigger] pushed.contains(x) <==> (rem.contains(x) || stack_has(stack@, x)),
                forall|j1: int, j2: int| 0 <= j1 < j2 < stack@.len() ==> stack@[j1] != stack@[j2],
                forall|j: int|
                    0 <= j < stack@.len() ==> !rem.contains((#[trigger] stack@[j]) as int),
                forall|j: int| 0 <= j < stack@.len() ==> a.live((#[trigger] stack@[j]) as int),
                forall|x: int|
                    #[trigger] pushed.contains(x) && x != index as int ==> (a.spec_parent(
                        x,
                    ) matches Option::Some(p) && rem.contains(p as int)),
                forall|x: int, k: int|
                    rem.contains(x) && 0 <= k < a.spec_kids(x).len() ==> pushed.contains(
                        (#[trigger] a.spec_kids(x)[k]) as int,
                    ),
                forall|i: int|
                    0 <= i < a.node_count() && !rem.contains(i) ==> (#[trigger] self.spec_parent(i))
                        == a.spec_parent(i),
                forall|i: int|
                    0 <= i < a.node_count() && !rem.contains(i) ==> (#[trigger] self.spec_kids(i))
                        == (if rem.contains(index as int) && (a.spec_parent(
                        index as int,
                    ) matches Option::Some(p) && p as int == i) {
                        a.spec_kids(i).remove_value(index)
                    } else {
                        a.spec_kids(i)
                    }),
                forall|x: int|
                    #[trigger] rem.contains(x) ==> self.spec_kids(x).len() == 0 && self.spec_parent(
                        x,
                    ) is None,
                self.spec_free() == a.spec_free() + remseq,
                forall|x: usize| #[trigger] remseq.contains(x) <==> rem.contains(x as int),
                forall|j1: int, j2: int| 0 <= j1 < j2 < remseq.len() ==> remseq[j1] != remseq[j2],
                self.spec_root() == (if a.spec_root() matches Option::Some(r) && rem.contains(
                    r as int,
                ) {
                    Option::<usize>::None
                } else {
                    a.spec_root()
                }),
                rem.contains(index as int) || stack@ == seq![index],
                a.spec_kids(index as int).len() == 0 ==> ((remseq == Seq::<usize>::empty()
                    && stack@ == seq![index]) || (remseq == seq![index] && stack@.len() == 0)),
            decreases 2 * (a.node_count() - pushed.len()) + stack@.len(),
        {
            let ghost s0 = *self;
            let ghost stack_pre = stack@;
            let ghost rem_pre = rem;
            let ghost remseq_pre = remseq;
            let ghost pushed_pre = pushed;
            let i = stack.pop().unwrap();
            proof {
                assert(stack_pre[stack_pre.len() - 1] == i);
                assert(stack_has(stack_pre, i as int));
                assert(pushed.contains(i as int));
                assert(a.live(i as int));
                assert(!rem.contains(i as int));
                assert forall|j: int| 0 <= j < stack@.len() implies stack@[j] != i by {
                    assert(stack@[j] == stack_pre[j]);
                }
                assert(s0.spec_kids(i as int) == (if rem.contains(index as int) && (a.spec_parent(
                    index as int,
                ) matches Option::Some(p) && p as int == i as int) {
                    a.spec_kids(i as int).remove_value(index)
                } else {
                    a.spec_kids(i as int)
                }));
                assert(s0.spec_parent(i as int) == a.spec_parent(i as int));
            }
            match self.root_index {
                Some(r) => {
                    if r == i {
                        self.root_index = None;
                    }
                },
                None => {},
            }
            let pi_opt = self.parents[i];
            proof {
                assert(pi_opt == a.spec_parent(i as int));
            }
            let ghost kids_before_detach = self.spec_kids(i as int);
            match pi_opt {
                Some(p) => {
                    proof {
                        assert(a.live(p as int));
                    }
                    let mut plist: Vec<usize> = Vec::new();
                    self.children.set_and_swap(p, &mut plist);
                    remove_first(&mut plist, i);
                    self.children.set_and_swap(p, &mut plist);
                    proof {
                        assert(self.spec_kids(p as int) == s0.spec_kids(p as int).remove_value(i));
                    }
                },
                None => {},
            }
            proof {
                assert(kids_before_detach == s0.spec_kids(i as int));
                assert forall|t: int|
                    0 <= t < a.node_count() implies (#[trigger] self.spec_kids(t)) == (
                match pi_opt {
                    Option::Some(p) => if t == p as int {
                        s0.spec_kids(t).remove_value(i)
                    } else {
                        s0.spec_kids(t)
                    },
                    Option::None => s0.spec_kids(t),
                }) && self.spec_parent(t) == s0.spec_parent(t) by {}
                match pi_opt {
                    Option::Some(p) => {
                        if rem.contains(p as int) {
                            let pk = s0.spec_kids(p as int);
                            assert(pk.len() == 0);
                            pk.index_of_first_ensures(i);
                            assert(self.spec_kids(p as int) =~= Seq::<usize>::empty());
                        }
                    },
                    Option::None => {},
                }
            }
            let ghost kids_now = self.spec_kids(i as int);
            let ghost s1 = *self;
            let mut kids_vec: Vec<usize> = Vec::new();
            self.children.set_and_swap(i, &mut kids_vec);
            self.parents.set(i, None);
            self.free_list.push(i);
            proof {
                assert(kids_vec@ == kids_now);
                assert(self.spec_kids(i as int) =~= Seq::<usize>::empty());
                assert(self.spec_parent(i as int) is None);
                assert forall|t: int|
                    0 <= t < a.node_count() && t != i as int implies #[trigger] self.spec_kids(t)
                        == s1.spec_kids(t) && self.spec_parent(t) == s1.spec_parent(t) by {}
                assert forall|t: int|
                    0 <= t < a.node_count() implies #[trigger] payload_unchanged(a, *self, t) by {
                    assert(payload_unchanged(a, s0, t));
                }
                // how the current list of i relates to the list it started the pass with
                assert(kids_now == a.spec_kids(i as int) || kids_now == a.spec_kids(
                    i as int,
                ).remove_value(index)) by {
                    match pi_opt {
                        Option::Some(p) => {
                            if p as int == i as int {
                                // self-parented: only possible for the start node,
                                // whose own entry was just detached
                                if i != index {
                                    assert(a.spec_parent(i as int) matches Option::Some(q)
                                        && rem_pre.contains(q as int));
                                }
                                assert(i == index);
                                assert(!rem_pre.contains(index as int));
                                assert(kids_before_detach == a.spec_kids(i as int));
                                assert(kids_now == kids_before_detach.remove_value(i));
                            }
                        },
                        Option::None => {},
                    }
                }
                assert forall|t: int| 0 <= t < kids_vec@.len() implies a.spec_kids(
                    i as int,
                ).contains(#[trigger] kids_vec@[t]) by {
                    if kids_now != a.spec_kids(i as int) {
                        lemma_remove_value_props(a.spec_kids(i as int), index);
                    }
                }
                assert(!kids_vec@.contains(index) || i == index) by {
                    if kids_vec@.contains(index) && i != index {
                        assert(a.spec_kids(i as int).contains(index));
                        let k = choose|k: int|
                            0 <= k < a.spec_kids(i as int).len() && a.spec_kids(i as int)[k]
                                == index;
                        assert(a.spec_parent(index as int) == Option::Some(i));
                        // the start node is destroyed first, so its old parent's
                        // list has already lost it
                        assert(rem_pre.contains(index as int)) by {
                            if stack_pre == seq![index] {
                                assert(i == index);
                            }
                        }
                        assert(s0.spec_kids(i as int) == a.spec_kids(i as int).remove_value(index));
                        lemma_remove_value_props(a.spec_kids(i as int), index);
                        assert(!s0.spec_kids(i as int).contains(index));
                        if kids_now == s0.spec_kids(i as int) {
                            assert(!kids_vec@.contains(index));
                        } else {
                            assert(kids_now == a.spec_kids(i as int));
                        }
                    }
                }
                assert(!kids_vec@.contains(index)) by {
                    if i == index && kids_vec@.contains(index) {
                        assert(a.spec_kids(index as int).contains(index));
                        let k = choose|k: int|
                            0 <= k < a.spec_kids(index as int).len() && a.spec_kids(
                                index as int,
                            )[k] == index;
                        assert(a.spec_parent(index as int) == Option::Some(index));
                        assert(pi_opt == Option::Some(index));
                        assert(!rem_pre.contains(index as int));
                        assert(kids_before_detach == a.spec_kids(index as int));
                        assert(kids_now == kids_before_detach.remove_value(index));
                        lemma_remove_value_props(a.spec_kids(index as int), index);
                        assert(!kids_now.contains(index));
                    }
                }
                assert forall|t: int| 0 <= t < kids_vec@.len() implies a.live(
                    (#[trigger] kids_vec@[t]) as int,
                ) && a.spec_parent(kids_vec@[t] as int) == Option::Some(i)
                    && !pushed.contains(kids_vec@[t] as int) by {
                    let x = kids_vec@[t];
                    assert(a.spec_kids(i as int).contains(x));
                    let k = choose|k: int|
                        0 <= k < a.spec_kids(i as int).len() && a.spec_kids(i as int)[k] == x;
                    assert(a.live(x as int) && a.spec_parent(x as int) == Option::Some(i));
                    if pushed.contains(x as int) {
                        assert(x != index);
                        assert(a.spec_parent(x as int) matches Option::Some(q) && rem.contains(
                            q as int,
                        ));
                        assert(rem.contains(i as int));
                    }
                }
                assert forall|t1: int, t2: int|
                    0 <= t1 < t2 < kids_vec@.len() implies kids_vec@[t1] != kids_vec@[t2] by {
                    if kids_now == a.spec_kids(i as int) {
                        assert(a.spec_kids(i as int)[t1] != a.spec_kids(i as int)[t2]);
                    } else {
                        lemma_remove_value_props(a.spec_kids(i as int), index);
                    }
                }
                rem = rem.insert(i as int);
                remseq = remseq.push(i);
                assert(self.spec_free() =~= a.spec_free() + remseq) by {
                    assert(s1.spec_free() == a.spec_free() + remseq_pre);
                    assert(self.spec_free() == s1.spec_free().push(i));
                }
                assert forall|x: usize| #[trigger] remseq.contains(x) implies rem.contains(
                    x as int,
                ) by {
                    let j = choose|j: int| 0 <= j < remseq.len() && remseq[j] == x;
                    if j < remseq.len() - 1 {
                        assert(remseq[j] == remseq_pre[j]);
                        assert(remseq_pre.contains(x));
                        assert(rem_pre.contains(x as int));
                    } else {
                        assert(x == i);
                    }
                }
                assert forall|x: usize| rem.contains(x as int) implies #[trigger] remseq.contains(
                    x,
                ) by {
                    if x == i {
                        assert(remseq[remseq.len() - 1] == x);
                    } else {
                        assert(rem_pre.contains(x as int));
                        assert(remseq_pre.contains(x));
                        let j = choose|j: int|
                            0 <= j < remseq_pre.len() && remseq_pre[j] == x;
                        assert(remseq[j] == x);
                    }
                }
                assert forall|j1: int, j2: int|
                    0 <= j1 < j2 < remseq.len() implies remseq[j1] != remseq[j2] by {
                    if j2 == remseq.len() - 1 {
                        assert(remseq[j2] == i);
                        assert(remseq[j1] == remseq_pre[j1]);
                        if remseq_pre[j1] == i {
                            assert(remseq_pre.contains(i));
                            assert(rem_pre.contains(i as int));
                        }
                    } else {
                        assert(remseq[j1] == remseq_pre[j1] && remseq[j2] == remseq_pre[j2]);
                    }
                }
            }
            let ghost stack_snap = stack@;
            let ghost pushed_snap = pushed;
            let klen = kids_vec.len();
            let mut j: usize = 0;
            while j < klen
                invariant
                    j <= klen,
                    klen == kids_vec@.len(),
                    a.wf(),
                    rem.contains(i as int),
                    pushed.finite(),
                    pushed.len() <= a.node_count(),
                    pushed.len() == pushed_snap.len() + j,
                    forall|x: int| #[trigger] pushed_snap.contains(x) ==> pushed.contains(x),
                    forall|x: int| #[trigger] pushed.contains(x) ==> a.live(x),
                    forall|t: int|
                        0 <= t < klen ==> a.live((#[trigger] kids_vec@[t]) as int)
                            && a.spec_parent(kids_vec@[t] as int) == Option::Some(i),
                    forall|t: int|
                        j <= t < klen ==> !pushed.contains((#[trigger] kids_vec@[t]) as int),
                    forall|t1: int, t2: int|
                        0 <= t1 < t2 < klen ==> kids_vec@[t1] != kids_vec@[t2],
                    stack@ == stack_snap + kids_vec@.subrange(0, j as int),
                    forall|x: int|
                        #[trigger] pushed.contains(x) <==> (pushed_snap.contains(x) || stack_has(
                            kids_vec@.subrange(0, j as int),
                            x,
                        )),
                    forall|j1: int, j2: int|
                        0 <= j1 < j2 < stack@.len() ==> stack@[j1] != stack@[j2],
                    forall|t: int| 0 <= t < stack_snap.len() ==> pushed_snap.contains(
                        (#[trigger] stack_snap[t]) as int,
                    ),
                decreases klen - j,
            {
                let kid = kids_vec[j];
                proof {
                    assert(!pushed.contains(kid as int));
                    vstd::set_lib::lemma_int_range(0, a.node_count());
                    assert(pushed.insert(kid as int).subset_of(
                        vstd::set_lib::set_int_range(0, a.node_count()),
                    )) by {
                        assert forall|x: int|
                            pushed.insert(kid as int).contains(x) implies vstd::set_lib::set_int_range(
                            0,
                            a.node_count(),
                        ).contains(x) by {
                            if x != kid as int {
                                assert(pushed.contains(x));
                                assert(a.live(x));
                            } else {
                                assert(a.live(kid as int));
                            }
                        }
                    }
                    vstd::set_lib::lemma_len_subset(
                        pushed.insert(kid as int),
                        vstd::set_lib::set_int_range(0, a.node_count()),
                    );
                }
                stack.push(kid);
                proof {
                    pushed = pushed.insert(kid as int);
                    assert(stack@ =~= stack_snap + kids_vec@.subrange(0, j as int + 1));
                    assert forall|x: int| #[trigger] pushed.contains(x) implies (
                    pushed_snap.contains(x) || stack_has(
                        kids_vec@.subrange(0, j as int + 1),
                        x,
                    )) by {
                        if x == kid as int {
                            assert(kids_vec@.subrange(0, j as int + 1)[j as int] == kid);
                        } else {
                            assert(pushed_snap.contains(x) || stack_has(
                                kids_vec@.subrange(0, j as int),
                                x,
                            ));
                            if stack_has(kids_vec@.subrange(0, j as int), x) {
                                let t = choose|t: int|
                                    0 <= t < j as int && (#[trigger] kids_vec@.subrange(
                                        0,
                                        j as int,
                                    )[t]) as int == x;
                                assert(kids_vec@.subrange(0, j as int + 1)[t] as int == x);
                            }
                        }
                    }
                    assert forall|x: int| (pushed_snap.contains(x) || stack_has(
                        kids_vec@.subrange(0, j as int + 1),
                        x,
                    )) implies #[trigger] pushed.contains(x) by {
                        if stack_has(kids_vec@.subrange(0, j as int + 1), x) {
                            let t = choose|t: int|
                                0 <= t < j as int + 1 && (#[trigger] kids_vec@.subrange(
                                    0,
                                    j as int + 1,
                                )[t]) as int == x;
                            if t < j as int {
                                assert(kids_vec@.subrange(0, j as int)[t] as int == x);
                            }
                        }
                    }
                    assert forall|t: int|
                        j as int + 1 <= t < klen implies !pushed.contains(
                        (#[trigger] kids_vec@[t]) as int,
                    ) by {
                        assert(kids_vec@[t] != kid);
                    }
                    assert forall|j1: int, j2: int|
                        0 <= j1 < j2 < stack@.len() implies stack@[j1] != stack@[j2] by {
                        if j2 == stack@.len() - 1 {
                            assert(stack@[j2] == kid);
                            if j1 < stack_snap.len() {
                                assert(pushed_snap.contains((stack_snap[j1]) as int));
                            } else {
                                let t = j1 - stack_snap.len();
                                assert(stack@[j1] == kids_vec@.subrange(0, j as int)[t]);
                                assert(stack_has(
                                    kids_vec@.subrange(0, j as int),
                                    stack@[j1] as int,
                                ));
                            }
                        }
                    }
                }
                j = j + 1;
            }
            proof {
                assert(kids_vec@.subrange(0, klen as int) =~= kids_vec@);
                assert(stack@ == stack_snap + kids_vec@);
                // no child equals the node just destroyed
                assert forall|t: int| 0 <= t < klen implies kids_vec@[t] != i by {
                    if kids_vec@[t] == i {
                        assert(a.spec_parent(i as int) == Option::Some(i));
                        assert(pushed_pre.contains(i as int) && i != index);
                        assert(rem_pre.contains(i as int));
                    }
                }
                // the pushed set is still exactly rem plus the stack
                assert forall|x: int|
                    #[trigger] pushed.contains(x) implies (rem.contains(x) || stack_has(stack@, x)) by {
                    if pushed_snap.contains(x) {
                        if x == i as int {
                            assert(rem.contains(x));
                        } else if rem_pre.contains(x) {
                            assert(rem.contains(x));
                        } else {
                            assert(stack_has(stack_pre, x));
                            let jj = choose|jj: int|
                                0 <= jj < stack_pre.len() && (#[trigger] stack_pre[jj]) as int == x;
                            assert(jj < stack_pre.len() - 1);
                            assert(stack_snap[jj] as int == x);
                            assert(stack@[jj] as int == x);
                            assert(stack_has(stack@, x));
                        }
                    } else {
                        assert(stack_has(kids_vec@, x));
                        let t = choose|t: int|
                            0 <= t < klen && (#[trigger] kids_vec@[t]) as int == x;
                        assert(stack@[stack_snap.len() + t] as int == x);
                        assert(stack_has(stack@, x));
                    }
                }
                assert forall|x: int| (rem.contains(x) || stack_has(stack@, x)) implies
                    #[trigger] pushed.contains(x) by {
                    if rem.contains(x) {
                        if x == i as int {
                            assert(pushed_snap.contains(x));
                        } else {
                            assert(rem_pre.contains(x));
                            assert(pushed_pre.contains(x));
                            assert(pushed_snap.contains(x));
                        }
                    } else {
                        let jj = choose|jj: int|
                            0 <= jj < stack@.len() && (#[trigger] stack@[jj]) as int == x;
                        if jj < stack_snap.len() {
                            assert(stack_snap[jj] == stack_pre[jj]);
                            assert(stack_has(stack_pre, x));
                            assert(pushed_pre.contains(x));
                            assert(pushed_snap.contains(x));
                        } else {
                            assert(kids_vec@[jj - stack_snap.len()] as int == x);
                            assert(stack_has(kids_vec@, x));
                        }
                    }
                }
                // the stack stays disjoint from rem and entirely live
                assert forall|jj: int| 0 <= jj < stack@.len() implies !rem.contains(
                    (#[trigger] stack@[jj]) as int,
                ) && a.live((stack@[jj]) as int) by {
                    if jj < stack_snap.len() {
                        assert(stack@[jj] == stack_pre[jj]);
                        assert(stack@[jj] != i);
                        assert(!rem_pre.contains((stack@[jj]) as int));
                    } else {
                        let t = jj - stack_snap.len();
                        assert(stack@[jj] == kids_vec@[t]);
                        assert(!pushed_snap.contains((kids_vec@[t]) as int));
                        assert(kids_vec@[t] != i);
                        if rem_pre.contains((kids_vec@[t]) as int) {
                            assert(pushed_pre.contains((kids_vec@[t]) as int));
                            assert(pushed_snap.contains((kids_vec@[t]) as int));
                        }
                    }
                }
                assert forall|x: int|
                    #[trigger] pushed.contains(x) && x != index as int implies (a.spec_parent(
                        x,
                    ) matches Option::Some(p) && rem.contains(p as int)) by {
                    if pushed_snap.contains(x) {
                        if x != i as int {
                            assert(a.spec_parent(x) matches Option::Some(p) && rem_pre.contains(
                                p as int,
                            ));
                        }
                    } else {
                        assert(stack_has(kids_vec@, x));
                        let t = choose|t: int|
                            0 <= t < klen && (#[trigger] kids_vec@[t]) as int == x;
                        assert(a.spec_parent(x) == Option::Some(i));
                    }
                }
                // closure of rem under the pre-pass child lists
                assert forall|x: int, k: int|
                    rem.contains(x) && 0 <= k < a.spec_kids(x).len() implies pushed.contains(
                        (#[trigger] a.spec_kids(x)[k]) as int,
                    ) by {
                    if x == i as int {
                        let v = a.spec_kids(i as int)[k];
                        if kids_now == a.spec_kids(i as int) {
                            assert(kids_vec@[k] == v);
                            assert(stack_has(kids_vec@, v as int));
                        } else {
                            lemma_remove_value_props(a.spec_kids(i as int), index);
                            if v == index {
                                assert(pushed.contains(index as int));
                            } else {
                                assert(kids_now.contains(v));
                                let t = choose|t: int|
                                    0 <= t < kids_now.len() && kids_now[t] == v;
                                assert(stack_has(kids_vec@, v as int));
                            }
                        }
                    } else {
                        assert(rem_pre.contains(x));
                        assert(pushed_pre.contains((a.spec_kids(x)[k]) as int));
                        assert(pushed_snap.contains((a.spec_kids(x)[k]) as int));
                    }
                }
                // surviving links
                assert forall|t: int|
                    0 <= t < a.node_count() && !rem.contains(t) implies (
                #[trigger] self.spec_parent(t)) == a.spec_parent(t) by {
                    assert(t != i as int);
                    assert(self.spec_parent(t) == s1.spec_parent(t));
                    assert(s1.spec_parent(t) == s0.spec_parent(t));
                    assert(!rem_pre.contains(t));
                }
                assert forall|t: int|
                    0 <= t < a.node_count() && !rem.contains(t) implies (#[trigger] self.spec_kids(
                    t,
                )) == (if rem.contains(index as int) && (a.spec_parent(
                    index as int,
                ) matches Option::Some(p) && p as int == t) {
                    a.spec_kids(t).remove_value(index)
                } else {
                    a.spec_kids(t)
                }) by {
                    assert(t != i as int);
                    assert(!rem_pre.contains(t));
                    assert(self.spec_kids(t) == s1.spec_kids(t));
                    match pi_opt {
                        Option::Some(p) => {
                            if p as int == t {
                                // t survives, so this detach happened at index itself
                                assert(i == index) by {
                                    if i != index {
                                        assert(pushed_pre.contains(i as int));
                                        assert(a.spec_parent(i as int) matches Option::Some(q)
                                            && rem_pre.contains(q as int));
                                    }
                                }
                                assert(!rem_pre.contains(index as int));
                                assert(rem.contains(index as int));
                                assert(s1.spec_kids(t) == s0.spec_kids(t).remove_value(index));
                                assert(s0.spec_kids(t) == a.spec_kids(t));
                            } else {
                                assert(s1.spec_kids(t) == s0.spec_kids(t));
                            }
                        },
                        Option::None => {
                            assert(s1.spec_kids(t) == s0.spec_kids(t));
                        },
                    }
                }
                assert forall|x: int|
                    #[trigger] rem.contains(x) implies self.spec_kids(x).len() == 0
                        && self.spec_parent(x) is None by {
                    if x == i as int {
                        assert(self.spec_kids(x) =~= Seq::<usize>::empty());
                    } else {
                        assert(rem_pre.contains(x));
                        assert(pushed_pre.contains(x));
                        assert(a.live(x));
                        assert(0 <= x < a.node_count());
                        assert(s0.spec_kids(x).len() == 0 && s0.spec_parent(x) is None);
                        assert(x != i as int);
                        match pi_opt {
                            Option::Some(p) => {
                                if p as int == x {
                                    assert(s1.spec_kids(x) == s0.spec_kids(x).remove_value(i));
                                    s0.spec_kids(x).index_of_first_ensures(i);
                                    assert(s1.spec_kids(x).len() == 0);
                                } else {
                                    assert(s1.spec_kids(x) == s0.spec_kids(x));
                                }
                            },
                            Option::None => {
                                assert(s1.spec_kids(x) == s0.spec_kids(x));
                            },
                        }
                        assert(self.spec_kids(x) == s1.spec_kids(x));
                        assert(self.spec_parent(x) == s1.spec_parent(x));
                        assert(s1.spec_parent(x) == s0.spec_parent(x));
                    }
                }
                // root bookkeeping
                assert(self.spec_root() == (if a.spec_root() matches Option::Some(r)
                    && rem.contains(r as int) {
                    Option::<usize>::None
                } else {
                    a.spec_root()
                })) by {
                    match a.spec_root() {
                        Option::Some(r) => {
                            if rem_pre.contains(r as int) {
                                assert(s0.spec_root() is None);
                            }
                        },
                        Option::None => {},
                    }
                }
                // the childless special case stays pinned
                if a.spec_kids(index as int).len() == 0 {
                    assert(remseq_pre == Seq::<usize>::empty() && stack_pre == seq![index]);
                    assert(i == index);
                    assert(kids_now.len() == 0) by {
                        if kids_now != a.spec_kids(index as int) {
                            lemma_remove_value_props(a.spec_kids(index as int), index);
                        }
                    }
                    assert(stack@.len() == 0);
                    assert(remseq =~= seq![index]);
                }
            }
        }
        proof {
            let b = *self;
            assert forall|x: int| #[trigger] pushed.contains(x) implies rem.contains(x) by {
                if stack_has(stack@, x) {
                    let j = choose|j: int| 0 <= j < stack@.len() && (#[trigger] stack@[j]) as int == x;
                }
            }
            assert(rem.contains(index as int)) by {
                assert(pushed.contains(index as int));
            }
            assert(remove_witness(a, b, index, rem)) by {
                assert forall|x: int| #[trigger] rem.contains(x) implies pushed.contains(x)
                    && a.live(x) by {
                    assert(pushed.contains(x));
                }
                assert forall|x: int, k: int|
                    rem.contains(x) && 0 <= k < a.spec_kids(x).len() implies rem.contains(
                        (#[trigger] a.spec_kids(x)[k]) as int,
                    ) by {
                    assert(pushed.contains((a.spec_kids(x)[k]) as int));
                }
                assert forall|x: int|
                    #[trigger] rem.contains(x) && x != index as int implies (a.spec_parent(
                        x,
                    ) matches Option::Some(p) && rem.contains(p as int)) by {
                    assert(pushed.contains(x));
                }
                assert forall|i: int|
                    0 <= i < a.node_count() implies ((#[trigger] b.live(i)) <==> (a.live(i)
                        && !rem.contains(i))) by {
                    if b.spec_free().contains(i as usize) {
                        let k = choose|k: int|
                            0 <= k < b.spec_free().len() && b.spec_free()[k] == i as usize;
                        if k < a.spec_free().len() {
                            assert(a.spec_free()[k] == i as usize);
                            assert(a.spec_free().contains(i as usize));
                        } else {
                            assert(remseq[k - a.spec_free().len()] == i as usize);
                            assert(remseq.contains(i as usize));
                        }
                    }
                    if a.spec_free().contains(i as usize) {
                        let k = choose|k: int|
                            0 <= k < a.spec_free().len() && a.spec_free()[k] == i as usize;
                        assert(b.spec_free()[k] == i as usize);
                        assert(b.spec_free().contains(i as usize));
                    }
                    if rem.contains(i) {
                        assert(remseq.contains(i as usize));
                        let k = choose|k: int| 0 <= k < remseq.len() && remseq[k] == i as usize;
                        assert(b.spec_free()[a.spec_free().len() + k] == i as usize);
                        assert(b.spec_free().contains(i as usize));
                    }
                }
                assert forall|x: usize| #[trigger] b.spec_free().contains(x) implies (
                a.spec_free().contains(x) || rem.contains(x as int)) by {
                    let k = choose|k: int|
                        0 <= k < b.spec_free().len() && b.spec_free()[k] == x;
                    if k < a.spec_free().len() {
                        assert(a.spec_free()[k] == x);
                    } else {
                        assert(remseq[k - a.spec_free().len()] == x);
                        assert(remseq.contains(x));
                    }
                }
                assert forall|x: usize| (a.spec_free().contains(x) || rem.contains(
                    x as int,
                )) implies #[trigger] b.spec_free().contains(x) by {
                    if a.spec_free().contains(x) {
                        let k = choose|k: int|
                            0 <= k < a.spec_free().len() && a.spec_free()[k] == x;
                        assert(b.spec_free()[k] == x);
                    } else {
                        assert(remseq.contains(x));
                        let k = choose|k: int| 0 <= k < remseq.len() && remseq[k] == x;
                        assert(b.spec_free()[a.spec_free().len() + k] == x);
                    }
                }
            }
            if a.spec_kids(index as int).len() == 0 {
                assert(remseq == seq![index]);
                assert(b.spec_free() =~= a.spec_free().push(index));
                assert forall|x: int| #[trigger] rem.contains(x) implies x == index as int by {
                    assert(a.live(x));
                    assert(remseq.contains(x as usize));
                    let k = choose|k: int| 0 <= k < remseq.len() && remseq[k] == x as usize;
                    assert(remseq[0] == index);
                    assert(x as usize == index);
                }
                assert forall|i: int|
                    0 <= i < a.node_count() && i != index as int implies (#[trigger] b.spec_parent(
                    i,
                )) == a.spec_parent(i) && payload_unchanged(a, b, i) by {
                    assert(!rem.contains(i));
                }
                assert forall|i: int|
                    0 <= i < a.node_count() && i != index as int implies (#[trigger] b.spec_kids(i))
                        == (if a.spec_parent(index as int) matches Option::Some(p) && p as int == i {
                        a.spec_kids(i).remove_value(index)
                    } else {
                        a.spec_kids(i)
                    }) by {
                    assert(!rem.contains(i));
                    assert(rem.contains(index as int));
                }
            }
            // well-formedness of the result
            assert forall|k1: int, k2: int|
                0 <= k1 < k2 < b.spec_free().len() implies b.spec_free()[k1] != b.spec_free()[k2] by {
                let n1 = a.spec_free().len() as int;
                if k1 < n1 && k2 < n1 {
                    assert(b.spec_free()[k1] == a.spec_free()[k1]);
                    assert(b.spec_free()[k2] == a.spec_free()[k2]);
                } else if k1 < n1 {
                    assert(b.spec_free()[k1] == a.spec_free()[k1]);
                    assert(b.spec_free()[k2] == remseq[k2 - n1]);
                    if a.spec_free()[k1] == remseq[k2 - n1] {
                        assert(remseq.contains(remseq[k2 - n1]));
                        assert(rem.contains((remseq[k2 - n1]) as int));
                        assert(a.live((remseq[k2 - n1]) as int));
                        assert(a.spec_free().contains(a.spec_free()[k1]));
                    }
                } else {
                    assert(b.spec_free()[k1] == remseq[k1 - n1]);
                    assert(b.spec_free()[k2] == remseq[k2 - n1]);
                }
            }
            lemma_wf_after_remove(a, b, index, rem);
            assert(remove_post(a, b, index));
        }
    }
}

/// The commands emitted by painting the nodes of `vs`, in order.
pub open spec fn paint_concat(s: Surface, vs: Seq<int>) -> Seq<Command>
    decreases vs.len(),
{
    if vs.len() == 0 {
        Seq::empty()
    } else {
        node_paint_commands(s.spec_style(vs[0]), s.spec_rect(vs[0])) + paint_concat(
            s,
            vs.drop_first(),
        )
    }
}

/// `vs` is a paint traversal of the tree rooted at the surface's root:
/// it starts at the root, visits distinct live nodes, paints every parent
/// before any of its descendants, and covers every child of every visited
/// node.
pub open spec fn paint_traversal(pre: Surface, vs: Seq<int>) -> bool {
    &&& vs.len() > 0
    &&& (pre.spec_root() matches Option::Some(r) && vs[0] == r as int)
    &&& forall|j1: int, j2: int| 0 <= j1 < j2 < vs.len() ==> vs[j1] != vs[j2]
    &&& forall|j: int| 0 <= j < vs.len() ==> pre.live(#[trigger] vs[j])
    &&& forall|j: int|
        1 <= j < vs.len() ==> exists|j2: int|
            0 <= j2 < j && pre.spec_parent(#[trigger] vs[j]) == Option::Some(vs[j2] as usize)
    &&& forall|j: int, k: int|
        0 <= j < vs.len() && 0 <= k < pre.spec_kids(vs[j]).len() ==> vs.contains(
            (#[trigger] pre.spec_kids(vs[j])[k]) as int,
        )
}

/// Appending one node to a traversal appends its commands.
proof fn lemma_paint_concat_push(s: Surface, vs: Seq<int>, e: int)
    ensures
        paint_concat(s, vs.push(e)) == paint_concat(s, vs) + node_paint_commands(
            s.spec_style(e),
            s.spec_rect(e),
        ),
    decreases vs.len(),
{
    let npc = node_paint_commands(s.spec_style(e), s.spec_rect(e));
    if vs.len() == 0 {
        assert(vs.push(e)[0] == e);
        assert(vs.push(e).drop_first() =~= Seq::<int>::empty());
        assert(paint_concat(s, vs.push(e)) == npc + paint_concat(s, vs.push(e).drop_first()));
        assert(paint_concat(s, Seq::<int>::empty()) == Seq::<Command>::empty());
        assert(npc + Seq::<Command>::empty() =~= npc);
        assert(paint_concat(s, vs) + npc =~= npc);
    } else {
        assert(vs.push(e).drop_first() =~= vs.drop_first().push(e));
        lemma_paint_concat_push(s, vs.drop_first(), e);
        assert(vs.push(e)[0] == vs[0]);
        let head = node_paint_commands(s.spec_style(vs[0]), s.spec_rect(vs[0]));
        assert(paint_concat(s, vs.push(e)) == head + paint_concat(s, vs.push(e).drop_first()));
        assert(paint_concat(s, vs) == head + paint_concat(s, vs.drop_first()));
        assert(paint_concat(s, vs.push(e)) == head + (paint_concat(s, vs.drop_first()) + npc));
        assert(head + (paint_concat(s, vs.drop_first()) + npc) =~= (head + paint_concat(
            s,
            vs.drop_first(),
        )) + npc);
    }
}

/// One paint-loop iteration rewires the bookkeeping: visiting `idx` moves
/// it from the stack into the traversal and schedules its children.
proof fn lemma_paint_rewire(
    a: Surface,
    i: usize,
    idx: usize,
    vs_pre: Seq<int>,
    vs: Seq<int>,
    stack_pre: Seq<usize>,
    stack_snap: Seq<usize>,
    spost: Seq<usize>,
    pushed_snap: Set<int>,
    pushed: Set<int>,
)
    requires
        a.wf(),
        a.live(idx as int),
        a.spec_root() == Option::Some(i),
        vs == vs_pre.push(idx as int),
        stack_pre.len() > 0,
        stack_pre[stack_pre.len() - 1] == idx,
        stack_snap == stack_pre.drop_last(),
        spost == stack_snap + a.spec_kids(idx as int),
        !vs_pre.contains(idx as int),
        forall|x: int|
            #[trigger] pushed_snap.contains(x) <==> (vs_pre.contains(x) || stack_has(stack_pre, x)),
        forall|x: int|
            #[trigger] pushed.contains(x) <==> (pushed_snap.contains(x) || stack_has(
                a.spec_kids(idx as int),
                x,
            )),
        forall|j1: int, j2: int| 0 <= j1 < j2 < stack_pre.len() ==> stack_pre[j1] != stack_pre[j2],
        forall|j: int| 0 <= j < stack_pre.len() ==> !vs_pre.contains((#[trigger] stack_pre[j]) as int),
        forall|j: int| 0 <= j < stack_pre.len() ==> a.live((#[trigger] stack_pre[j]) as int),
        forall|j: int|
            0 <= j < stack_pre.len() ==> ((#[trigger] stack_pre[j]) == i || (a.spec_parent(
                stack_pre[j] as int,
            ) matches Option::Some(p) && vs_pre.contains(p as int))),
        forall|j1: int, j2: int| 0 <= j1 < j2 < vs_pre.len() ==> vs_pre[j1] != vs_pre[j2],
        forall|j: int| 0 <= j < vs_pre.len() ==> a.live(#[trigger] vs_pre[j]),
        vs_pre.len() > 0 ==> vs_pre[0] == i as int,
        vs_pre.len() == 0 ==> stack_pre == seq![i],
        forall|j: int|
            1 <= j < vs.len() ==> exists|j2: int|
                0 <= j2 < j && a.spec_parent(#[trigger] vs[j]) == Option::Some(vs[j2] as usize),
        forall|j: int, k: int|
            0 <= j < vs_pre.len() && 0 <= k < a.spec_kids(vs_pre[j]).len() ==> (vs_pre.contains(
                (#[trigger] a.spec_kids(vs_pre[j])[k]) as int,
            ) || stack_has(stack_pre, (a.spec_kids(vs_pre[j])[k]) as int)),
        forall|t: int|
            0 <= t < a.spec_kids(idx as int).len() ==> !pushed_snap.contains(
                (#[trigger] a.spec_kids(idx as int)[t]) as int,
            ) && a.live((a.spec_kids(idx as int)[t]) as int) && a.spec_parent(
                (a.spec_kids(idx as int)[t]) as int,
            ) == Option::Some(idx),
    ensures
        forall|x: int| #[trigger] pushed.contains(x) <==> (vs.contains(x) || stack_has(spost, x)),
        forall|j1: int, j2: int| 0 <= j1 < j2 < spost.len() ==> spost[j1] != spost[j2],
        forall|j: int| 0 <= j < spost.len() ==> !vs.contains((#[trigger] spost[j]) as int),
        forall|j: int| 0 <= j < spost.len() ==> a.live((#[trigger] spost[j]) as int),
        forall|j: int|
            0 <= j < spost.len() ==> ((#[trigger] spost[j]) == i || (a.spec_parent(
                spost[j] as int,
            ) matches Option::Some(p) && vs.contains(p as int))),
        forall|j1: int, j2: int| 0 <= j1 < j2 < vs.len() ==> vs[j1] != vs[j2],
        forall|j: int| 0 <= j < vs.len() ==> a.live(#[trigger] vs[j]),
        vs.len() > 0 && vs[0] == i as int,
        forall|j: int, k: int|
            0 <= j < vs.len() && 0 <= k < a.spec_kids(vs[j]).len() ==> (vs.contains(
                (#[trigger] a.spec_kids(vs[j])[k]) as int,
            ) || stack_has(spost, (a.spec_kids(vs[j])[k]) as int)),
{
    let kids = a.spec_kids(idx as int);
    if vs_pre.len() == 0 {
        assert(stack_pre == seq![i]);
        assert(idx == i);
    }
    assert(vs[0] == i as int);

                // every loop invariant of the outer loop, re-established
                assert forall|x: int|
                    #[trigger] pushed.contains(x) implies (vs.contains(x) || stack_has(
                    spost,
                    x,
                )) by {
                    if pushed_snap.contains(x) {
                        if x == idx as int {
                            assert(vs[vs.len() - 1] == x);
                        } else if vs_pre.contains(x) {
                            let jv = choose|jv: int|
                                0 <= jv < vs_pre.len() && vs_pre[jv] == x;
                            assert(vs[jv] == x);
                        } else {
                            assert(stack_has(stack_pre, x));
                            let js = choose|js: int|
                                0 <= js < stack_pre.len() && (#[trigger] stack_pre[js]) as int
                                    == x;
                            assert(js < stack_pre.len() - 1);
                            assert(stack_snap[js] as int == x);
                            assert(spost[js] as int == x);
                            assert(stack_has(spost, x));
                        }
                    } else {
                        assert(stack_has(kids, x));
                        let t = choose|t: int|
                            0 <= t < kids.len() && (#[trigger] kids[t]) as int == x;
                        assert(spost[stack_snap.len() + t] as int == x);
                        assert(stack_has(spost, x));
                    }
                }
                assert forall|x: int| (vs.contains(x) || stack_has(
                    spost,
                    x,
                )) implies #[trigger] pushed.contains(x) by {
                    if vs.contains(x) {
                        let jv = choose|jv: int| 0 <= jv < vs.len() && vs[jv] == x;
                        if jv == vs.len() - 1 {
                            assert(x == idx as int);
                            assert(pushed_snap.contains(x));
                        } else {
                            assert(vs_pre[jv] == x);
                            assert(vs_pre.contains(x));
                        }
                    } else {
                        let js = choose|js: int|
                            0 <= js < spost.len() && (#[trigger] spost[js]) as int
                                == x;
                        if js < stack_snap.len() {
                            assert(stack_snap[js] == stack_pre[js]);
                            assert(stack_has(stack_pre, x));
                        } else {
                            assert(kids[js - stack_snap.len()] as int == x);
                            assert(stack_has(kids, x));
                        }
                    }
                }
                assert forall|j1: int, j2: int|
                    0 <= j1 < j2 < vs.len() implies vs[j1] != vs[j2] by {
                    if j2 == vs.len() - 1 {
                        assert(vs[j2] == idx as int);
                        assert(vs[j1] == vs_pre[j1]);
                        assert(!vs_pre.contains(idx as int));
                        if vs_pre[j1] == idx as int {
                            assert(vs_pre.contains(idx as int));
                        }
                    } else {
                        assert(vs[j1] == vs_pre[j1] && vs[j2] == vs_pre[j2]);
                    }
                }
                assert forall|jj: int|
                    0 <= jj < spost.len() implies !vs.contains(
                    (#[trigger] spost[jj]) as int,
                ) && a.live((spost[jj]) as int) && ((spost[jj]) == i || (
                a.spec_parent(spost[jj] as int) matches Option::Some(p)
                    && vs.contains(p as int))) by {
                    let x = spost[jj];
                    if jj < stack_snap.len() {
                        assert(x == stack_pre[jj]);
                        assert(x != idx);
                        if vs.contains(x as int) {
                            let jv = choose|jv: int|
                                0 <= jv < vs.len() && vs[jv] == x as int;
                            assert(jv < vs.len() - 1);
                            assert(vs_pre[jv] == x as int);
                            assert(vs_pre.contains(x as int));
                        }
                        if x != i {
                            assert(a.spec_parent(x as int) matches Option::Some(p)
                                && vs_pre.contains(p as int));
                            let p = a.spec_parent(x as int)->0;
                            let jv = choose|jv: int|
                                0 <= jv < vs_pre.len() && vs_pre[jv] == p as int;
                            assert(vs[jv] == p as int);
                        }
                    } else {
                        let t = jj - stack_snap.len();
                        assert(x == kids[t]);
                        assert(a.spec_parent(x as int) == Option::Some(idx));
                        assert(vs[vs.len() - 1] == idx as int);
                        if vs.contains(x as int) {
                            assert(pushed_snap.contains(x as int)) by {
                                let jv = choose|jv: int|
                                    0 <= jv < vs.len() && vs[jv] == x as int;
                                if jv == vs.len() - 1 {
                                    assert(x as int == idx as int);
                                } else {
                                    assert(vs_pre.contains(x as int));
                                }
                            }
                            assert(!pushed_snap.contains(x as int));
                        }
                    }
                }
                assert forall|jv: int, k: int|
                    0 <= jv < vs.len() && 0 <= k < a.spec_kids(vs[jv]).len() implies (
                vs.contains((#[trigger] a.spec_kids(vs[jv])[k]) as int) || stack_has(
                    spost,
                    (a.spec_kids(vs[jv])[k]) as int,
                )) by {
                    let x = (a.spec_kids(vs[jv])[k]) as int;
                    if jv == vs.len() - 1 {
                        assert(vs[jv] == idx as int);
                        assert(spost[stack_snap.len() + k] as int == x);
                        assert(stack_has(spost, x));
                    } else {
                        assert(vs[jv] == vs_pre[jv]);
                        if vs_pre.contains(x) {
                            let j2 = choose|j2: int|
                                0 <= j2 < vs_pre.len() && vs_pre[j2] == x;
                            assert(vs[j2] == x);
                        } else {
                            assert(stack_has(stack_pre, x));
                            let js = choose|js: int|
                                0 <= js < stack_pre.len() && (#[trigger] stack_pre[js]) as int
                                    == x;
                            if js == stack_pre.len() - 1 {
                                assert(x == idx as int);
                                assert(vs[vs.len() - 1] == x);
                            } else {
                                assert(stack_snap[js] as int == x);
                                assert(spost[js] as int == x);
                                assert(stack_has(spost, x));
                            }
                        }
                    }
                }
}

impl Surface {
    /// Walks the tree depth-first from the root (parents before their
    /// descendants), invokes each node's paint behavior with its resolved
    /// rectangle and style, and drains the accumulated commands. With no
    /// root it only drains the (normally empty) buffer.
    #[verifier::rlimit(100)]
    pub fn paint(&mut self) -> (r: Vec<Command>)
        requires
            old(self).wf(),
        ensures
            final(self).wf(),
            final(self).pending_commands() == Seq::<Command>::empty(),
            final(self).spec_size() == old(self).spec_size(),
            final(self).spec_free() == old(self).spec_free(),
            final(self).spec_root() == old(self).spec_root(),
            final(self).node_count() == old(self).node_count(),
            forall|i: int|
                0 <= i < old(self).node_count() ==> #[trigger] node_unchanged(
                    *old(self),
                    *final(self),
                    i,
                ),
            old(self).spec_root() is None ==> r@ == old(self).pending_commands(),
            old(self).spec_root() is Some ==> exists|vs: Seq<int>|
                #[trigger] paint_traversal(*old(self), vs) && r@ == old(self).pending_commands()
                    + paint_concat(*old(self), vs),
    {
        let ghost a = *old(self);
        let root = self.root_index;
        match root {
            Some(i) => {
                let mut index_stack: Vec<usize> = Vec::new();
                index_stack.push(i);
                let ghost mut vs: Seq<int> = Seq::empty();
                let ghost mut pushed: Set<int> = Set::empty().insert(i as int);
                proof {
                    assert(index_stack@ =~= seq![i]);
                    assert(pushed.len() == 1) by {
                        assert(Set::<int>::empty().len() == 0);
                    }
                    assert(a.live(i as int));
                    assert(a.node_count() >= 1);
                    assert forall|x: int| #[trigger] pushed.contains(x) implies (vs.contains(x)
                        || stack_has(index_stack@, x)) by {
                        assert(index_stack@[0] == i);
                    }
                    assert(a.pending_commands() + paint_concat(a, vs) =~= a.pending_commands());
                }
                while index_stack.len() > 0
                    invariant
                        a == *old(self),
                        a.wf(),
                        a.spec_root() == Option::Some(i),
                        self.node_count() == a.node_count(),
                        self.tables_sized(),
                        self.spec_size() == a.spec_size(),
                        self.spec_root() == a.spec_root(),
                        self.spec_free() == a.spec_free(),
                        forall|t: int|
                            0 <= t < a.node_count() ==> #[trigger] node_unchanged(a, *self, t),
                        self.pending_commands() == a.pending_commands() + paint_concat(a, vs),
                        pushed.finite(),
                        pushed.len() <= a.node_count(),
                        forall|x: int| #[trigger] pushed.contains(x) ==> a.live(x),
                        forall|x: int|
                            #[trigger] pushed.contains(x) <==> (vs.contains(x) || stack_has(
                                index_stack@,
                                x,
                            )),
                        forall|j1: int, j2: int|
                            0 <= j1 < j2 < index_stack@.len() ==> index_stack@[j1]
                                != index_stack@[j2],
                        forall|j: int|
                            0 <= j < index_stack@.len() ==> !vs.contains(
                                (#[trigger] index_stack@[j]) as int,
                            ),
                        forall|j: int|
                            0 <= j < index_stack@.len() ==> a.live(
                                (#[trigger] index_stack@[j]) as int,
                            ),
                        forall|j: int|
                            0 <= j < index_stack@.len() ==> ((#[trigger] index_stack@[j]) == i || (
                            a.spec_parent(index_stack@[j] as int) matches Option::Some(p)
                                && vs.contains(p as int))),
                        forall|j1: int, j2: int| 0 <= j1 < j2 < vs.len() ==> vs[j1] != vs[j2],
                        forall|j: int| 0 <= j < vs.len() ==> a.live(#[trigger] vs[j]),
                        vs.len() > 0 ==> vs[0] == i as int,
                        vs.len() == 0 ==> index_stack@ == seq![i],
                        forall|j: int|
                            1 <= j < vs.len() ==> exists|j2: int|
                                0 <= j2 < j && a.spec_parent(#[trigger] vs[j]) == Option::Some(
                                    vs[j2] as usize,
                                ),
                        forall|j: int, k: int|
                            0 <= j < vs.len() && 0 <= k < a.spec_kids(vs[j]).len() ==> (vs.contains(
                                (#[trigger] a.spec_kids(vs[j])[k]) as int,
                            ) || stack_has(
                                index_stack@,
                                (a.spec_kids(vs[j])[k]) as int,
                            )),
                    decreases 2 * (a.node_count() - pushed.len()) + index_stack@.len(),
                {
                    let ghost s_head = *self;
                    let ghost stack_pre = index_stack@;
                    let ghost vs_pre = vs;
                    let idx = index_stack.pop().unwrap();
                    proof {
                        assert(stack_pre[stack_pre.len() - 1] == idx);
                        assert(stack_has(stack_pre, idx as int));
                        assert(pushed.contains(idx as int));
                        assert(a.live(idx as int));
                        assert(!vs.contains(idx as int));
                        assert forall|j: int| 0 <= j < index_stack@.len() implies index_stack@[j]
                            != idx by {
                            assert(index_stack@[j] == stack_pre[j]);
                        }
                    }
                    let rect = self.layout_context.get_rect(idx);
                    let node = self.elements[idx];
                    let style = self.styles[idx];
                    node.paint(rect, &mut self.render_context, &style);
                    proof {
                        assert(node_unchanged(a, s_head, idx as int));
                        assert forall|t: int|
                            0 <= t < a.node_count() implies #[trigger] node_unchanged(
                            a,
                            *self,
                            t,
                        ) by {
                            assert(node_unchanged(a, s_head, t));
                            assert(self.spec_kids(t) == s_head.spec_kids(t) && self.spec_parent(t)
                                == s_head.spec_parent(t) && self.spec_style(t) == s_head.spec_style(
                                t,
                            ) && self.spec_element(t) == s_head.spec_element(t) && self.spec_rect(t)
                                == s_head.spec_rect(t));
                        }
                        assert(style == a.spec_style(idx as int) && rect == a.spec_rect(
                            idx as int,
                        ));
                        vs = vs.push(idx as int);
                        lemma_paint_concat_push(a, vs_pre, idx as int);
                        assert(self.pending_commands() =~= a.pending_commands() + paint_concat(
                            a,
                            vs,
                        )) by {
                            assert(self.pending_commands() == (a.pending_commands() + paint_concat(
                                a,
                                vs_pre,
                            )) + node_paint_commands(
                                a.spec_style(idx as int),
                                a.spec_rect(idx as int),
                            ));
                        }
                        assert(vs[0] == vs_pre.push(idx as int)[0]);
                        if vs_pre.len() == 0 {
                            assert(stack_pre == seq![i]);
                            assert(idx == i);
                            assert(vs[0] == i as int);
                        }
                        // parent-before condition for the new entry
                        if idx != i {
                            assert(a.spec_parent(idx as int) matches Option::Some(p)
                                && vs_pre.contains(p as int));
                            let p = a.spec_parent(idx as int)->0;
                            let j2 = choose|j2: int|
                                0 <= j2 < vs_pre.len() && vs_pre[j2] == p as int;
                            assert(vs[j2] == p as int);
                            assert(a.spec_parent(vs[vs.len() - 1]) == Option::Some(
                                vs[j2] as usize,
                            ));
                        }
                    }
                    let klen = self.children[idx].len();
                    let ghost stack_snap = index_stack@;
                    let ghost pushed_snap = pushed;
                    proof {
                        assert(self.spec_kids(idx as int) == a.spec_kids(idx as int)) by {
                            assert(node_unchanged(a, *self, idx as int));
                        }
                        assert(klen == a.spec_kids(idx as int).len());
                        // no child of the just-visited node has been seen before
                        assert forall|t: int|
                            0 <= t < klen implies !pushed.contains(
                            (#[trigger] a.spec_kids(idx as int)[t]) as int,
                        ) && a.live((a.spec_kids(idx as int)[t]) as int) && a.spec_parent(
                            (a.spec_kids(idx as int)[t]) as int,
                        ) == Option::Some(idx) by {
                            let x = a.spec_kids(idx as int)[t];
                            assert(a.live(x as int) && a.spec_parent(x as int) == Option::Some(
                                idx,
                            ));
                            if pushed.contains(x as int) {
                                if vs_pre.contains(x as int) {
                                    let jv = choose|jv: int|
                                        0 <= jv < vs_pre.len() && vs_pre[jv] == x as int;
                                    if jv == 0 {
                                        assert(x == i);
                                        assert(a.spec_parent(i as int) is None);
                                    } else {
                                        let j2 = choose|j2: int|
                                            0 <= j2 < jv && a.spec_parent(vs_pre[jv])
                                                == Option::Some(vs_pre[j2] as usize);
                                        assert(vs_pre[j2] == idx as int);
                                        assert(vs_pre.contains(idx as int));
                                    }
                                } else {
                                    assert(stack_has(stack_pre, x as int));
                                    let js = choose|js: int|
                                        0 <= js < stack_pre.len() && (#[trigger] stack_pre[js]) as int
                                            == x as int;
                                    if js == stack_pre.len() - 1 {
                                        assert(x == idx);
                                        assert(a.spec_parent(idx as int) == Option::Some(idx));
                                        assert(a.spec_kids(idx as int).contains(idx));
                                        assert(vs.contains(idx as int));
                                        assert(stack_pre[js] == idx);
                                        if idx == i {
                                            assert(a.spec_parent(i as int) is None);
                                        } else {
                                            assert(vs_pre.contains(idx as int));
                                        }
                                    } else {
                                        assert(index_stack@[js] as int == x as int);
                                        assert(stack_has(index_stack@, x as int));
                                        if x == i {
                                            assert(a.spec_parent(i as int) is None);
                                        } else {
                                            assert(a.spec_parent(x as int) matches Option::Some(
                                                q,
                                            ) && vs_pre.contains(q as int));
                                            assert(vs_pre.contains(idx as int));
                                        }
                                    }
                                }
                            }
                        }
                    }
                    let mut j: usize = 0;
                    while j < klen
                        invariant
                            j <= klen,
                            a.wf(),
                            idx < a.node_count(),
                            a.live(idx as int),
                            self.tables_sized(),
                            self.node_count() == a.node_count(),
                            self.spec_kids(idx as int) == a.spec_kids(idx as int),
                            klen == a.spec_kids(idx as int).len(),
                            vs.contains(idx as int),
                            pushed.finite(),
                            pushed.len() <= a.node_count(),
                            pushed.len() == pushed_snap.len() + j,
                            forall|x: int| #[trigger] pushed_snap.contains(x) ==> pushed.contains(x),
                            forall|x: int| #[trigger] pushed.contains(x) ==> a.live(x),
                            forall|t: int|
                                0 <= t < klen ==> a.live(
                                    (#[trigger] a.spec_kids(idx as int)[t]) as int,
                                ) && a.spec_parent((a.spec_kids(idx as int)[t]) as int)
                                    == Option::Some(idx),
                            forall|t: int|
                                j <= t < klen ==> !pushed.contains(
                                    (#[trigger] a.spec_kids(idx as int)[t]) as int,
                                ),
                            index_stack@ == stack_snap + a.spec_kids(idx as int).subrange(
                                0,
                                j as int,
                            ),
                            forall|x: int|
                                #[trigger] pushed.contains(x) <==> (pushed_snap.contains(x)
                                    || stack_has(
                                    a.spec_kids(idx as int).subrange(0, j as int),
                                    x,
                                )),
                            forall|j1: int, j2: int|
                                0 <= j1 < j2 < index_stack@.len() ==> index_stack@[j1]
                                    != index_stack@[j2],
                            forall|t: int| 0 <= t < stack_snap.len() ==> pushed_snap.contains(
                                (#[trigger] stack_snap[t]) as int,
                            ),
                        decreases klen - j,
                    {
                        let kid = self.children[idx][j];
                        proof {
                            assert(kid == a.spec_kids(idx as int)[j as int]);
                            assert(!pushed.contains(kid as int));
                            vstd::set_lib::lemma_int_range(0, a.node_count());
                            assert(pushed.insert(kid as int).subset_of(
                                vstd::set_lib::set_int_range(0, a.node_count()),
                            )) by {
                                assert forall|x: int|
                                    pushed.insert(kid as int).contains(
                                    x,
                                ) implies vstd::set_lib::set_int_range(0, a.node_count()).contains(
                                    x,
                                ) by {
                                    if x != kid as int {
                                        assert(pushed.contains(x));
                                        assert(a.live(x));
                                    } else {
                                        assert(a.live(kid as int));
                                    }
                                }
                            }
                            vstd::set_lib::lemma_len_subset(
                                pushed.insert(kid as int),
                                vstd::set_lib::set_int_range(0, a.node_count()),
                            );
                        }
                        index_stack.push(kid);
                        proof {
                            pushed = pushed.insert(kid as int);
                            assert(index_stack@ =~= stack_snap + a.spec_kids(
                                idx as int,
                            ).subrange(0, j as int + 1));
                            assert forall|x: int| #[trigger] pushed.contains(x) implies (
                            pushed_snap.contains(x) || stack_has(
                                a.spec_kids(idx as int).subrange(0, j as int + 1),
                                x,
                            )) by {
                                if x == kid as int {
                                    assert(a.spec_kids(idx as int).subrange(
                                        0,
                                        j as int + 1,
                                    )[j as int] == kid);
                                } else {
                                    if stack_has(
                                        a.spec_kids(idx as int).subrange(0, j as int),
                                        x,
                                    ) {
                                        let t = choose|t: int|
                                            0 <= t < j as int && (#[trigger] a.spec_kids(
                                                idx as int,
                                            ).subrange(0, j as int)[t]) as int == x;
                                        assert(a.spec_kids(idx as int).subrange(
                                            0,
                                            j as int + 1,
                                        )[t] as int == x);
                                    }
                                }
                            }
                            assert forall|x: int| (pushed_snap.contains(x) || stack_has(
                                a.spec_kids(idx as int).subrange(0, j as int + 1),
                                x,
                            )) implies #[trigger] pushed.contains(x) by {
                                if stack_has(
                                    a.spec_kids(idx as int).subrange(0, j as int + 1),
                                    x,
                                ) {
                                    let t = choose|t: int|
                                        0 <= t < j as int + 1 && (#[trigger] a.spec_kids(
                                            idx as int,
                                        ).subrange(0, j as int + 1)[t]) as int == x;
                                    if t < j as int {
                                        assert(a.spec_kids(idx as int).subrange(
                                            0,
                                            j as int,
                                        )[t] as int == x);
                                    }
                                }
                            }
                            assert forall|t: int|
                                j as int + 1 <= t < klen implies !pushed.contains(
                                (#[trigger] a.spec_kids(idx as int)[t]) as int,
                            ) by {
                                assert(a.spec_kids(idx as int)[t] != kid);
                            }
                            assert forall|j1: int, j2: int|
                                0 <= j1 < j2 < index_stack@.len() implies index_stack@[j1]
                                    != index_stack@[j2] by {
                                if j2 == index_stack@.len() - 1 {
                                    assert(index_stack@[j2] == kid);
                                    if j1 < stack_snap.len() {
                                        assert(pushed_snap.contains((stack_snap[j1]) as int));
                                    } else {
                                        let t = j1 - stack_snap.len();
                                        assert(index_stack@[j1] == a.spec_kids(
                                            idx as int,
                                        ).subrange(0, j as int)[t]);
                                        assert(stack_has(
                                            a.spec_kids(idx as int).subrange(0, j as int),
                                            index_stack@[j1] as int,
                                        ));
                                    }
                                }
                            }
                        }
                        j = j + 1;
                    }
                    proof {
                        assert(a.spec_kids(idx as int).subrange(0, klen as int) =~= a.spec_kids(
                            idx as int,
                        ));
                        assert forall|jq: int| 1 <= jq < vs.len() implies exists|j2: int|
                            0 <= j2 < jq && a.spec_parent(#[trigger] vs[jq]) == Option::Some(
                                vs[j2] as usize,
                            ) by {
                            if jq < vs.len() - 1 {
                                assert(vs[jq] == vs_pre[jq]);
                                let j2 = choose|j2: int|
                                    0 <= j2 < jq && a.spec_parent(#[trigger] vs_pre[jq])
                                        == Option::Some(vs_pre[j2] as usize);
                                assert(vs[j2] == vs_pre[j2]);
                                assert(a.spec_parent(vs[jq]) == Option::Some(vs[j2] as usize));
                            } else {
                                assert(vs[jq] == idx as int);
                                assert(vs_pre.len() > 0);
                                assert(idx != i) by {
                                    if idx == i {
                                        assert(vs_pre[0] == i as int);
                                        assert(vs_pre.contains(idx as int));
                                    }
                                }
                                assert(a.spec_parent(idx as int) matches Option::Some(p)
                                    && vs_pre.contains(p as int));
                                let p = a.spec_parent(idx as int)->0;
                                let j2 = choose|j2: int|
                                    0 <= j2 < vs_pre.len() && vs_pre[j2] == p as int;
                                assert(vs[j2] == p as int);
                                assert(a.spec_parent(vs[jq]) == Option::Some(vs[j2] as usize));
                            }
                        }
                        lemma_paint_rewire(
                            a,
                            i,
                            idx,
                            vs_pre,
                            vs,
                            stack_pre,
                            stack_snap,
                            index_stack@,
                            pushed_snap,
                            pushed,
                        );
                    }
                }
                proof {
                    assert(vs.len() > 0);
                    assert(paint_traversal(a, vs)) by {
                        assert forall|jv: int, k: int|
                            0 <= jv < vs.len() && 0 <= k < a.spec_kids(vs[jv]).len() implies vs.contains(
                            (#[trigger] a.spec_kids(vs[jv])[k]) as int,
                        ) by {
                            let x = (a.spec_kids(vs[jv])[k]) as int;
                            if stack_has(index_stack@, x) {
                                let js = choose|js: int|
                                    0 <= js < index_stack@.len() && (#[trigger] index_stack@[js]) as int
                                        == x;
                            }
                        }
                    }
                }
                let ghost s_end = *self;
                let commands = self.render_context.get_commands();
                proof {
                    assert forall|t: int|
                        0 <= t < a.node_count() implies #[trigger] node_unchanged(a, *self, t) by {
                        assert(node_unchanged(a, s_end, t));
                        assert(self.spec_kids(t) == s_end.spec_kids(t) && self.spec_parent(t)
                            == s_end.spec_parent(t) && self.spec_style(t) == s_end.spec_style(t)
                            && self.spec_element(t) == s_end.spec_element(t) && self.spec_rect(t)
                            == s_end.spec_rect(t));
                    }
                    assert forall|t: int|
                        0 <= t < a.node_count() implies #[trigger] links_unchanged(a, *self, t) by {
                        assert(node_unchanged(a, *self, t));
                    }
                    assert(self.live(i as int));
                    assert(self.spec_parent(i as int) is None) by {
                        assert(links_unchanged(a, *self, i as int));
                        assert(a.spec_parent(i as int) is None);
                    }
                    lemma_wf_preserved(a, *self);
                    assert(exists|w: Seq<int>|
                        #[trigger] paint_traversal(a, w) && commands@ == a.pending_commands()
                            + paint_concat(a, w)) by {
                        assert(paint_traversal(a, vs) && commands@ == a.pending_commands()
                            + paint_concat(a, vs));
                    }
                }
                commands
            },
            None => {
                let commands = self.render_context.get_commands();
                proof {
                    assert forall|t: int|
                        0 <= t < a.node_count() implies #[trigger] node_unchanged(a, *self, t) by {
                        assert(self.spec_kids(t) == a.spec_kids(t) && self.spec_parent(t)
                            == a.spec_parent(t) && self.spec_style(t) == a.spec_style(t)
                            && self.spec_element(t) == a.spec_element(t) && self.spec_rect(t)
                            == a.spec_rect(t));
                    }
                    assert forall|t: int|
                        0 <= t < a.node_count() implies #[trigger] links_unchanged(a, *self, t) by {
                        assert(node_unchanged(a, *self, t));
                    }
                    lemma_wf_preserved(a, *self);
                }
                commands
            },
        }
    }
}

/// The resolved extent lies within the constraint's maxima on both axes.
pub open spec fn rect_fits_max(r: Rect, c: Constraint) -> bool {
    r.width <= c.max_width && r.height <= c.max_height
}

/// Every live node with the generic or fixed-size behavior has at most one
/// child; more is a fatal configuration error the layout pass does not
/// accept.
pub open spec fn layout_ready(s: Surface) -> bool {
    forall|i: int|
        s.live(i) ==> (match #[trigger] s.spec_element(i) {
            Element::Flex(_) => true,
            _ => s.spec_kids(i).len() <= 1,
        })
}

/// The root's fixed constraint for a pass over a surface of size `sz`.
pub open spec fn root_constraint(sz: Size) -> Constraint {
    Constraint {
        min_width: sz.width,
        max_width: sz.width,
        min_height: sz.height,
        max_height: sz.height,
    }
}

/// Exactly what a `layout` pass guarantees, witnessed by the set `ds` of
/// nodes it resolved and the constraint `cm[i]` each of them was resolved
/// under: the graph, styles and element shapes are untouched; the root was
/// resolved at the origin under the surface's fixed constraint; `ds` is
/// closed under children; each resolved node's rectangle fits its
/// constraint's maxima; each child's constraint is determined by its
/// parent's shape and constraint; and no other rectangle moved.
pub open spec fn layout_post(
    pre: Surface,
    post: Surface,
    ds: Set<int>,
    cm: Map<int, Constraint>,
) -> bool {
    &&& post.node_count() == pre.node_count()
    &&& post.spec_size() == pre.spec_size()
    &&& post.spec_free() == pre.spec_free()
    &&& post.spec_root() == pre.spec_root()
    &&& post.pending_commands() == pre.pending_commands()
    &&& forall|i: int| 0 <= i < pre.node_count() ==> #[trigger] links_unchanged(pre, post, i)
    &&& forall|i: int|
        0 <= i < pre.node_count() ==> (#[trigger] post.spec_style(i)) == pre.spec_style(i)
    &&& forall|i: int|
        0 <= i < pre.node_count() ==> same_shape(pre.spec_element(i), #[trigger] post.spec_element(i))
    &&& (pre.spec_root() matches Option::Some(r) ==> ds.contains(r as int) && cm.contains_key(
        r as int,
    ) && cm[r as int] == root_constraint(pre.spec_size()) && post.spec_rect(r as int).x == 0
        && post.spec_rect(r as int).y == 0)
    &&& forall|i: int|
        #[trigger] ds.contains(i) ==> pre.live(i) && cm.contains_key(i) && cm[i].valid()
            && rect_fits_max(post.spec_rect(i), cm[i])
    &&& forall|i: int, k: int|
        ds.contains(i) && 0 <= k < pre.spec_kids(i).len() ==> ds.contains(
            (#[trigger] pre.spec_kids(i)[k]) as int,
        ) && cm.contains_key(pre.spec_kids(i)[k] as int) && cm[pre.spec_kids(i)[k] as int]
            == child_constraint_of(pre.spec_element(i), cm[i], pre.spec_kids(i).len() as int)
    &&& forall|i: int| #[trigger] ds.contains(i) ==> resolved_extent_ok(pre, post, i, cm[i])
    &&& forall|i: int|
        0 <= i < pre.node_count() && !ds.contains(i) ==> (#[trigger] post.spec_rect(i))
            == pre.spec_rect(i)
}

/// What a resolved node's extent is, as far as the pass pins it down
/// exactly: a fixed-size node is its clamped intrinsic size; a childless
/// generic or flex node is its constraint's minimum; a generic node with a
/// child adopts that child's extent; a flex container spans its whole
/// major-axis budget.
pub open spec fn resolved_extent_ok(pre: Surface, post: Surface, i: int, c: Constraint) -> bool {
    let r = post.spec_rect(i);
    let kids = pre.spec_kids(i);
    match pre.spec_element(i) {
        Element::Fixed(f) => r.width == fixed_clamped_width(f, c) && r.height
            == fixed_clamped_height(f, c),
        Element::Boxed(_) => if kids.len() == 0 {
            r.width == c.min_width && r.height == c.min_height
        } else {
            r.width == post.spec_rect(kids[0] as int).width && r.height == post.spec_rect(
                kids[0] as int,
            ).height
        },
        Element::Flex(x) => if kids.len() == 0 {
            r.width == c.min_width && r.height == c.min_height
        } else {
            x.direction.spec_major(r.width as int, r.height as int) == flex_major_budget(
                x.direction,
                c,
            )
        },
    }
}

/// The stacked node `x`, resolved under `c`, is part-way through its
/// children: what it has already seen is resolved, the child it is waiting
/// on has been scheduled under the constraint this shape dictates, and the
/// rest are untouched.
pub open spec fn node_waiting(
    a: Surface,
    s: Surface,
    x: int,
    c: Constraint,
    ds: Set<int>,
    pushed: Set<int>,
    cm: Map<int, Constraint>,
) -> bool {
    let kids = a.spec_kids(x);
    let n = kids.len() as int;
    let cc = child_constraint_of(a.spec_element(x), c, n);
    match s.spec_element(x) {
        Element::Flex(st) => {
            &&& (st.ix as int) < n
            &&& st.major_per_flex as int == flex_slot(st.direction, c, n)
            &&& st.minor as int <= st.direction.spec_minor(c.max_width as int, c.max_height as int)
            &&& forall|k: int| 0 <= k < st.ix as int ==> ds.contains((#[trigger] kids[k]) as int)
            &&& forall|k: int|
                0 <= k <= st.ix as int ==> pushed.contains((#[trigger] kids[k]) as int)
                    && cm.contains_key(kids[k] as int) && cm[kids[k] as int] == cc
            &&& forall|k: int|
                (st.ix as int) < k < n ==> !pushed.contains((#[trigger] kids[k]) as int)
        },
        _ => {
            &&& n == 1
            &&& pushed.contains(kids[0] as int)
            &&& cm.contains_key(kids[0] as int)
            &&& cm[kids[0] as int] == cc
        },
    }
}

/// The child a waiting node is paused on.
pub open spec fn issued_of(a: Surface, s: Surface, x: int) -> usize {
    match s.spec_element(x) {
        Element::Flex(st) => a.spec_kids(x)[st.ix as int],
        _ => a.spec_kids(x)[0],
    }
}

/// None of `x`'s children has been scheduled yet this pass.
pub open spec fn node_fresh(a: Surface, x: int, pushed: Set<int>) -> bool {
    forall|k: int|
        0 <= k < a.spec_kids(x).len() ==> !pushed.contains((#[trigger] a.spec_kids(x)[k]) as int)
}

/// Centering children inside their slots moves only their offsets: every
/// extent is kept, and slots outside the child list are untouched.
proof fn lemma_flex_place_frame(dir: Axis, mpf: usize, kids: Seq<usize>, rects: Seq<Rect>, k: int)
    requires
        forall|t: int| 0 <= t < kids.len() ==> (#[trigger] kids[t]) < rects.len(),
    ensures
        flex_place(dir, mpf, kids, rects, k).len() == rects.len(),
        forall|i: int|
            0 <= i < rects.len() ==> (#[trigger] flex_place(dir, mpf, kids, rects, k)[i]).width
                == rects[i].width && flex_place(dir, mpf, kids, rects, k)[i].height
                == rects[i].height,
        forall|i: int|
            0 <= i < rects.len() && !kids.contains(i as usize) ==> (#[trigger] flex_place(
                dir,
                mpf,
                kids,
                rects,
                k,
            )[i]) == rects[i],
    decreases kids.len() - k,
{
    if k < 0 || k >= kids.len() {
    } else {
        let i = kids[k] as int;
        let cr = rects[i];
        let cm0 = dir.spec_major(cr.width as int, cr.height as int);
        let pad: int = if mpf as int > cm0 {
            (mpf as int - cm0) / 2
        } else {
            0
        };
        let off = k * (mpf as int) + pad;
        let placed = Rect {
            x: dir.spec_pack_x(off, 0) as usize,
            y: dir.spec_pack_y(off, 0) as usize,
            width: cr.width,
            height: cr.height,
        };
        let mid = rects.update(i, placed);
        lemma_flex_place_frame(dir, mpf, kids, mid, k + 1);
        assert forall|t: int|
            0 <= t < rects.len() && !kids.contains(t as usize) implies (#[trigger] flex_place(
            dir,
            mpf,
            kids,
            rects,
            k,
        )[t]) == rects[t] by {
            assert(t != i) by {
                if t == i {
                    assert(kids[k] == t as usize);
                }
            }
            assert(mid[t] == rects[t]);
        }
    }
}

/// The layout machine's invariant. `is`/`cs` are the parallel stacks of
/// pending nodes and their constraints (a chain: each entry is the child
/// its predecessor is waiting on), `rs` holds at most one just-resolved
/// size destined for the top entry, `ds` is the set of resolved nodes and
/// `cm` the constraint each scheduled node was given; `pushed` is
/// everything scheduled so far.
#[verifier::opaque]
pub open spec fn layout_inv(
    a: Surface,
    s: Surface,
    is: Seq<usize>,
    cs: Seq<Constraint>,
    rs: Seq<Size>,
    ds: Set<int>,
    cm: Map<int, Constraint>,
    pushed: Set<int>,
    rt: usize,
) -> bool {
    let n = a.node_count();
    let m = is.len() as int;
    &&& a.wf()
    &&& layout_ready(a)
    &&& a.spec_root() == Option::Some(rt)
    &&& s.node_count() == n
    &&& s.tables_sized()
    &&& s.spec_size() == a.spec_size()
    &&& s.spec_root() == a.spec_root()
    &&& s.spec_free() == a.spec_free()
    &&& s.pending_commands() == a.pending_commands()
    &&& forall|i: int| 0 <= i < n ==> #[trigger] links_unchanged(a, s, i)
    &&& forall|i: int| 0 <= i < n ==> (#[trigger] s.spec_style(i)) == a.spec_style(i)
    &&& forall|i: int| 0 <= i < n ==> same_shape(a.spec_element(i), #[trigger] s.spec_element(i))
    &&& is.len() == cs.len()
    &&& rs.len() <= 1
    &&& forall|j: int|
        0 <= j < m ==> a.live((#[trigger] is[j]) as int) && pushed.contains(is[j] as int)
            && !ds.contains(is[j] as int) && cs[j].valid() && cm.contains_key(is[j] as int)
            && cm[is[j] as int] == cs[j]
    &&& forall|j1: int, j2: int| 0 <= j1 < j2 < m ==> is[j1] != is[j2]
    &&& forall|j: int|
        1 <= j < m ==> a.spec_parent((#[trigger] is[j]) as int) == Option::Some(is[j - 1])
    &&& m > 0 ==> is[0] == rt
    &&& m == 0 ==> ds.contains(rt as int)
    &&& forall|j: int|
        0 <= j < m - 1 ==> node_waiting(a, s, (#[trigger] is[j]) as int, cs[j], ds, pushed, cm)
            && is[j + 1] == issued_of(a, s, is[j] as int)
    &&& (rs.len() == 1 && m > 0 ==> node_waiting(a, s, is[m - 1] as int, cs[m - 1], ds, pushed, cm)
        && ds.contains(issued_of(a, s, is[m - 1] as int) as int) && rs[0].width == s.spec_rect(
        issued_of(a, s, is[m - 1] as int) as int,
    ).width && rs[0].height == s.spec_rect(issued_of(a, s, is[m - 1] as int) as int).height)
    &&& (rs.len() == 0 && m > 0 ==> node_fresh(a, is[m - 1] as int, pushed))
    &&& (rs.len() == 1 && m == 0 ==> ds.contains(rt as int))
    &&& pushed.finite()
    &&& pushed.len() <= n
    &&& pushed.contains(rt as int)
    &&& forall|x: int| #[trigger] pushed.contains(x) ==> a.live(x)
    &&& forall|x: int| #[trigger] pushed.contains(x) <==> (ds.contains(x) || stack_has(is, x))
    &&& cm.contains_key(rt as int)
    &&& cm[rt as int] == root_constraint(a.spec_size())
    &&& forall|x: int|
        #[trigger] ds.contains(x) ==> a.live(x) && cm.contains_key(x) && cm[x].valid()
            && rect_fits_max(s.spec_rect(x), cm[x])
    &&& forall|x: int| #[trigger] ds.contains(x) ==> resolved_extent_ok(a, s, x, cm[x])
    &&& forall|x: int, k: int|
        ds.contains(x) && 0 <= k < a.spec_kids(x).len() ==> ds.contains(
            (#[trigger] a.spec_kids(x)[k]) as int,
        ) && cm.contains_key(a.spec_kids(x)[k] as int) && cm[a.spec_kids(x)[k] as int]
            == child_constraint_of(a.spec_element(x), cm[x], a.spec_kids(x).len() as int)
    &&& forall|x: int|
        #[trigger] ds.contains(x) && x != rt as int ==> (a.spec_parent(x) matches Option::Some(p)
            && pushed.contains(p as int))
    &&& forall|i: int|
        0 <= i < n && !pushed.contains(i) ==> (#[trigger] s.spec_rect(i)) == a.spec_rect(i)
    &&& s.spec_rect(rt as int).x == 0
    &&& s.spec_rect(rt as int).y == 0
}

/// How `s_mid` relates to `s_head` after one element-step invocation on
/// `idx`: only that node's element state and the rectangle table changed.
pub open spec fn step_frame(s_head: Surface, s_mid: Surface, idx: int, e_post: Element) -> bool {
    &&& s_mid.node_count() == s_head.node_count()
    &&& s_mid.tables_sized()
    &&& s_mid.spec_size() == s_head.spec_size()
    &&& s_mid.spec_root() == s_head.spec_root()
    &&& s_mid.spec_free() == s_head.spec_free()
    &&& s_mid.pending_commands() == s_head.pending_commands()
    &&& forall|i: int| 0 <= i < s_head.node_count() ==> #[trigger] links_unchanged(s_head, s_mid, i)
    &&& forall|i: int|
        0 <= i < s_head.node_count() ==> (#[trigger] s_mid.spec_style(i)) == s_head.spec_style(i)
    &&& s_mid.spec_element(idx) == e_post
    &&& forall|i: int|
        0 <= i < s_head.node_count() && i != idx ==> (#[trigger] s_mid.spec_element(i))
            == s_head.spec_element(i)
}

/// The few invariant facts the machine itself needs at each pop.
proof fn lemma_layout_pop_facts(
    a: Surface,
    s: Surface,
    is: Seq<usize>,
    cs: Seq<Constraint>,
    rs: Seq<Size>,
    ds: Set<int>,
    cm: Map<int, Constraint>,
    pushed: Set<int>,
    rt: usize,
)
    requires
        layout_inv(a, s, is, cs, rs, ds, cm, pushed, rt),
    ensures
        a.wf(),
        layout_ready(a),
        is.len() == cs.len(),
        rs.len() <= 1,
        s.node_count() == a.node_count(),
        s.tables_sized(),
        pushed.finite(),
        pushed.len() <= a.node_count(),
        is.len() > 0 ==> a.live(is.last() as int) && links_unchanged(a, s, is.last() as int)
            && s.spec_element(is.last() as int) == s.spec_element(is.last() as int),
        is.len() == 0 ==> ds.contains(rt as int),
{
    reveal(layout_inv);
}

/// The protocol's demands hold whenever a node is popped: this is what
/// lets the machine call the element at all.
#[verifier::rlimit(100)]
proof fn lemma_layout_req(
    a: Surface,
    s: Surface,
    is: Seq<usize>,
    cs: Seq<Constraint>,
    rs: Seq<Size>,
    ds: Set<int>,
    cm: Map<int, Constraint>,
    pushed: Set<int>,
    rt: usize,
    rects0: Seq<Rect>,
)
    requires
        layout_inv(a, s, is, cs, rs, ds, cm, pushed, rt),
        is.len() > 0,
        rects0.len() == a.node_count(),
        forall|i: int| 0 <= i < a.node_count() ==> (#[trigger] rects0[i]) == s.spec_rect(i),
    ensures
        element_step_req(
            s.spec_element(is.last() as int),
            a.spec_kids(is.last() as int),
            if rs.len() == 1 {
                Option::Some(rs[0])
            } else {
                Option::<Size>::None
            },
            rects0,
        ),
{
    reveal(layout_inv);
    let idx = is.last() as int;
    let m = is.len() as int;
    let kids = a.spec_kids(idx);
    assert(a.live(idx) && !ds.contains(idx));
    assert forall|k: int| 0 <= k < kids.len() implies (#[trigger] kids[k]) < rects0.len() by {
        assert(a.live((kids[k]) as int));
    }
    assert forall|k1: int, k2: int| 0 <= k1 < k2 < kids.len() implies kids[k1] != kids[k2] by {
        assert(kids[k1] == a.spec_kids(idx)[k1] && kids[k2] == a.spec_kids(idx)[k2]);
    }
    match s.spec_element(idx) {
        Element::Flex(st) => {
            if rs.len() == 1 {
                assert(node_waiting(a, s, idx, cs[m - 1], ds, pushed, cm));
                assert((st.ix as int) < kids.len());
                let c = cs[m - 1];
                let n = kids.len() as int;
                let budget = flex_major_budget(st.direction, c);
                assert(st.major_per_flex as int == budget / n);
                assert(budget <= usize::MAX as int) by {
                    assert(c.valid());
                }
                assert(n * (budget / n) <= budget) by (nonlinear_arith)
                    requires
                        n >= 1,
                        budget >= 0,
                ;
                assert((kids.len() as int) * (st.major_per_flex as int) <= usize::MAX as int);
            }
        },
        _ => {
            assert(match a.spec_element(idx) {
                Element::Flex(_) => true,
                _ => a.spec_kids(idx).len() <= 1,
            });
            assert(same_shape(a.spec_element(idx), s.spec_element(idx)));
        },
    }
}

proof fn lemma_same_shape_refl(e: Element)
    ensures
        same_shape(e, e),
{
}

/// One `LayoutChild` step: the paused parent stays put and the child it
/// asked about is scheduled on top of it under the constraint its shape
/// dictates.
#[verifier::rlimit(100)]
#[verifier::spinoff_prover]
proof fn lemma_layout_child_core(
    a: Surface,
    s_head: Surface,
    s_mid: Surface,
    is0: Seq<usize>,
    cs0: Seq<Constraint>,
    rs0: Seq<Size>,
    ds: Set<int>,
    cm: Map<int, Constraint>,
    pushed: Set<int>,
    rt: usize,
    idx: usize,
    c: Constraint,
    req: Option<Size>,
    e_pre: Element,
    e_post: Element,
    ci: usize,
    cc: Constraint,
)
    requires
        layout_inv(a, s_head, is0, cs0, rs0, ds, cm, pushed, rt),
        is0.len() > 0,
        idx == is0.last(),
        c == cs0.last(),
        req == (if rs0.len() == 1 {
            Option::Some(rs0[0])
        } else {
            Option::<Size>::None
        }),
        e_pre == s_head.spec_element(idx as int),
        element_step(
            e_pre,
            c,
            a.spec_kids(idx as int),
            req,
            s_head.layout_context@,
            e_post,
            s_mid.layout_context@,
            LayoutResult::LayoutChild(ci, cc),
        ),
        step_frame(s_head, s_mid, idx as int, e_post),
        vstd::set_lib::set_int_range(0, a.node_count()).finite(),
        vstd::set_lib::set_int_range(0, a.node_count()).len() == a.node_count(),
    ensures
        s_mid.layout_context@ == s_head.layout_context@,
        s_head.layout_context@.len() == a.node_count(),
        ci == issued_of(a, s_mid, idx as int),
        cc == child_constraint_of(
            a.spec_element(idx as int),
            c,
            a.spec_kids(idx as int).len() as int,
        ),
        cc.valid(),
        node_waiting(
            a,
            s_mid,
            idx as int,
            c,
            ds,
            pushed.insert(ci as int),
            cm.insert(ci as int, cc),
        ),
        a.live(ci as int),
        a.spec_parent(ci as int) == Option::Some(idx),
        !pushed.contains(ci as int),
        node_fresh(a, ci as int, pushed.insert(ci as int)),
        pushed.insert(ci as int).len() == pushed.len() + 1,
        pushed.insert(ci as int).len() <= a.node_count(),
        same_shape(s_head.spec_element(idx as int), e_post),
{
    reveal(layout_inv);
    let n = a.node_count();
    let m = is0.len() as int;
    let kids = a.spec_kids(idx as int);
    let nk = kids.len() as int;
    let is1 = is0.push(ci);
    let cs1 = cs0.push(cc);
    let cm1 = cm.insert(ci as int, cc);
    let pushed1 = pushed.insert(ci as int);
    assert(a.live(idx as int) && cm[idx as int] == c && c.valid());
    assert(same_shape(a.spec_element(idx as int), e_pre));
    // rectangles did not move in any LayoutChild case
    assert(s_mid.layout_context@ == s_head.layout_context@) by {
        match e_pre {
            Element::Flex(x) => {},
            _ => {},
        }
    }
    assert(s_head.layout_context@.len() == n);
    assert forall|i: int| 0 <= i < n implies (#[trigger] s_mid.spec_rect(i)) == s_head.spec_rect(
        i,
    ) by {}
    // which child was issued, and under which constraint
    let issued_k: int = match e_pre {
        Element::Flex(x) => if req is Some {
            x.ix as int + 1
        } else {
            0
        },
        _ => 0,
    };
    assert(0 <= issued_k < nk && ci == kids[issued_k] && cc == child_constraint_of(
        a.spec_element(idx as int),
        c,
        nk,
    ) && node_waiting(a, s_mid, idx as int, c, ds, pushed1, cm1) && issued_of(
        a,
        s_mid,
        idx as int,
    ) == ci && cc.valid()) by {
        match e_pre {
            Element::Flex(x) => {
                assert(e_post is Flex);
                let x2 = e_post->Flex_0;
                match req {
                    Option::Some(sz) => {
                        assert(rs0.len() == 1);
                        assert(node_waiting(a, s_head, idx as int, c, ds, pushed, cm));
                        assert(x2.ix as int == x.ix as int + 1);
                        assert(x.ix as int + 1 < nk);
                        assert(x2.major_per_flex == x.major_per_flex);
                        assert(x.major_per_flex as int == flex_slot(x.direction, c, nk));
                        // the minor extent stays within the constraint
                        let prev = issued_of(a, s_head, idx as int);
                        assert(prev == kids[x.ix as int]);
                        assert(ds.contains(prev as int));
                        assert(cm[prev as int] == child_constraint_of(
                            a.spec_element(idx as int),
                            c,
                            nk,
                        ));
                        assert(rect_fits_max(s_head.spec_rect(prev as int), cm[prev as int]));
                        assert(x.direction.spec_minor(sz.width as int, sz.height as int)
                            <= x.direction.spec_minor(c.max_width as int, c.max_height as int))
                            by {
                            assert(sz.width == s_head.spec_rect(prev as int).width && sz.height
                                == s_head.spec_rect(prev as int).height);
                        }
                        assert forall|k: int|
                            0 <= k <= x2.ix as int implies pushed1.contains(
                            (#[trigger] kids[k]) as int,
                        ) && cm1.contains_key(kids[k] as int) && cm1[kids[k] as int]
                            == child_constraint_of(a.spec_element(idx as int), c, nk) by {
                            if k < x2.ix as int {
                                assert(pushed.contains(kids[k] as int));
                                assert(kids[k] != ci);
                            } else {
                                assert(kids[k] == ci);
                            }
                        }
                        assert forall|k: int|
                            (x2.ix as int) < k < nk implies !pushed1.contains(
                            (#[trigger] kids[k]) as int,
                        ) by {
                            assert(!pushed.contains(kids[k] as int));
                            assert(kids[k] != ci);
                        }
                    },
                    Option::None => {
                        assert(rs0.len() == 0);
                        assert(node_fresh(a, idx as int, pushed));
                        assert(x2.ix == 0);
                        assert(nk > 0);
                        assert forall|k: int|
                            0 <= k <= x2.ix as int implies pushed1.contains(
                            (#[trigger] kids[k]) as int,
                        ) && cm1.contains_key(kids[k] as int) && cm1[kids[k] as int]
                            == child_constraint_of(a.spec_element(idx as int), c, nk) by {
                            assert(kids[k] == ci);
                        }
                        assert forall|k: int|
                            (x2.ix as int) < k < nk implies !pushed1.contains(
                            (#[trigger] kids[k]) as int,
                        ) by {
                            assert(!pushed.contains(kids[k] as int));
                            assert(kids[k] != ci);
                        }
                    },
                }
            },
            _ => {
                assert(req is None) by {
                    if rs0.len() == 1 {
                        assert(node_waiting(a, s_head, idx as int, c, ds, pushed, cm));
                    }
                }
                assert(rs0.len() == 0);
                assert(node_fresh(a, idx as int, pushed));
                assert(nk == 1);
                assert(ci == kids[0]);
            },
        }
    }
    assert(a.live(ci as int) && a.spec_parent(ci as int) == Option::Some(idx)) by {
        assert(a.live((kids[issued_k]) as int));
    }
    // the issued child is genuinely new
    assert(!pushed.contains(ci as int)) by {
        if pushed.contains(ci as int) {
            match e_pre {
                Element::Flex(x) => {
                    if req is Some {
                        assert(node_waiting(a, s_head, idx as int, c, ds, pushed, cm));
                        assert(!pushed.contains((kids[issued_k]) as int));
                    } else {
                        assert(node_fresh(a, idx as int, pushed));
                        assert(!pushed.contains((kids[issued_k]) as int));
                    }
                },
                _ => {
                    assert(node_fresh(a, idx as int, pushed));
                    assert(!pushed.contains((kids[issued_k]) as int));
                },
            }
        }
    }
    assert(pushed1.len() == pushed.len() + 1);
    assert(pushed1.len() <= n) by {
        assert(pushed1.subset_of(vstd::set_lib::set_int_range(0, n))) by {
            assert forall|x: int|
                pushed1.contains(x) implies vstd::set_lib::set_int_range(0, n).contains(x) by {
                if x == ci as int {
                    assert(a.live(ci as int));
                } else {
                    assert(pushed.contains(x));
                    assert(a.live(x));
                }
            }
        }
        vstd::set_lib::lemma_len_subset(pushed1, vstd::set_lib::set_int_range(0, n));
    }
    // fresh top: none of the child's own children has been scheduled
    assert(node_fresh(a, ci as int, pushed1)) by {
        assert forall|k: int|
            0 <= k < a.spec_kids(ci as int).len() implies !pushed1.contains(
            (#[trigger] a.spec_kids(ci as int)[k]) as int,
        ) by {
            let g = a.spec_kids(ci as int)[k];
            assert(a.live(g as int) && a.spec_parent(g as int) == Option::Some(ci));
            if pushed1.contains(g as int) {
                if g == ci {
                    assert(a.spec_parent(ci as int) == Option::Some(idx));
                } else {
                    assert(pushed.contains(g as int));
                    if ds.contains(g as int) {
                        assert(g as int == rt as int ==> a.spec_parent(g as int) is None);
                        assert(a.spec_parent(g as int) matches Option::Some(p) && pushed.contains(
                            p as int,
                        ));
                        assert(pushed.contains(ci as int));
                    } else {
                        assert(stack_has(is0, g as int));
                        let j = choose|j: int|
                            0 <= j < is0.len() && (#[trigger] is0[j]) as int == g as int;
                        if j == 0 {
                            assert(is0[0] == rt);
                            assert(a.spec_parent(rt as int) is None);
                        } else {
                            assert(a.spec_parent((is0[j]) as int) == Option::Some(is0[j - 1]));
                            assert(is0[j - 1] == ci);
                            assert(stack_has(is0, ci as int));
                            assert(pushed.contains(ci as int));
                        }
                    }
                }
            }
        }
    }
}

#[verifier::rlimit(100)]
#[verifier::spinoff_prover]
proof fn lemma_layout_step_child(
    a: Surface,
    s_head: Surface,
    s_mid: Surface,
    is0: Seq<usize>,
    cs0: Seq<Constraint>,
    rs0: Seq<Size>,
    ds: Set<int>,
    cm: Map<int, Constraint>,
    pushed: Set<int>,
    rt: usize,
    idx: usize,
    c: Constraint,
    req: Option<Size>,
    e_pre: Element,
    e_post: Element,
    ci: usize,
    cc: Constraint,
)
    requires
        layout_inv(a, s_head, is0, cs0, rs0, ds, cm, pushed, rt),
        is0.len() > 0,
        idx == is0.last(),
        c == cs0.last(),
        req == (if rs0.len() == 1 {
            Option::Some(rs0[0])
        } else {
            Option::<Size>::None
        }),
        e_pre == s_head.spec_element(idx as int),
        element_step(
            e_pre,
            c,
            a.spec_kids(idx as int),
            req,
            s_head.layout_context@,
            e_post,
            s_mid.layout_context@,
            LayoutResult::LayoutChild(ci, cc),
        ),
        step_frame(s_head, s_mid, idx as int, e_post),
        vstd::set_lib::set_int_range(0, a.node_count()).finite(),
        vstd::set_lib::set_int_range(0, a.node_count()).len() == a.node_count(),
    ensures
        layout_inv(
            a,
            s_mid,
            is0.push(ci),
            cs0.push(cc),
            Seq::<Size>::empty(),
            ds,
            cm.insert(ci as int, cc),
            pushed.insert(ci as int),
            rt,
        ),
        !pushed.contains(ci as int),
        pushed.insert(ci as int).len() == pushed.len() + 1,
        pushed.insert(ci as int).len() <= a.node_count(),
{
    lemma_layout_child_core(
        a,
        s_head,
        s_mid,
        is0,
        cs0,
        rs0,
        ds,
        cm,
        pushed,
        rt,
        idx,
        c,
        req,
        e_pre,
        e_post,
        ci,
        cc,
    );
    reveal(layout_inv);
    let n = a.node_count();
    let m = is0.len() as int;
    let kids = a.spec_kids(idx as int);
    let nk = kids.len() as int;
    let is1 = is0.push(ci);
    let cs1 = cs0.push(cc);
    let cm1 = cm.insert(ci as int, cc);
    let pushed1 = pushed.insert(ci as int);
    assert(a.live(idx as int) && cm[idx as int] == c && c.valid());
    assert forall|i: int| 0 <= i < n implies (#[trigger] s_mid.spec_rect(i)) == s_head.spec_rect(
        i,
    ) by {}
    // the invariant, clause by clause
    assert forall|i: int| 0 <= i < n implies #[trigger] links_unchanged(a, s_mid, i) by {
        assert(links_unchanged(a, s_head, i) && links_unchanged(s_head, s_mid, i));
    }
    assert forall|i: int| 0 <= i < n implies (#[trigger] s_mid.spec_style(i)) == a.spec_style(
        i,
    ) by {
        assert(links_unchanged(a, s_head, i));
        assert(s_head.spec_style(i) == a.spec_style(i) && s_mid.spec_style(i) == s_head.spec_style(
            i,
        ));
    }
    assert forall|i: int| 0 <= i < n implies same_shape(
        a.spec_element(i),
        #[trigger] s_mid.spec_element(i),
    ) by {
        if i == idx as int {
            assert(same_shape(a.spec_element(i), e_pre));
            assert(same_shape(s_head.spec_element(i), e_post));
            assert(same_shape(a.spec_element(i), e_post)) by {
                match a.spec_element(i) {
                    Element::Flex(x) => {},
                    _ => {},
                }
            }
        } else {
            assert(s_mid.spec_element(i) == s_head.spec_element(i));
            assert(same_shape(a.spec_element(i), s_head.spec_element(i)));
        }
    }
    assert forall|x: int| #[trigger] pushed1.contains(x) implies a.live(x) by {
        if x != ci as int {
            assert(pushed.contains(x));
        }
    }
    assert forall|j: int|
        0 <= j < is1.len() as int implies a.live((#[trigger] is1[j]) as int) && pushed1.contains(
        is1[j] as int,
    ) && !ds.contains(is1[j] as int) && cs1[j].valid() && cm1.contains_key(is1[j] as int)
        && cm1[is1[j] as int] == cs1[j] by {
        if j < m {
            assert(is1[j] == is0[j] && cs1[j] == cs0[j]);
            assert(is0[j] as int != ci as int) by {
                assert(pushed.contains(is0[j] as int));
            }
        } else {
            assert(is1[j] == ci && cs1[j] == cc);
            assert(!ds.contains(ci as int)) by {
                if ds.contains(ci as int) {
                    assert(pushed.contains(ci as int));
                }
            }
        }
    }
    assert forall|j1: int, j2: int| 0 <= j1 < j2 < is1.len() as int implies is1[j1] != is1[j2] by {
        if j2 < m {
            assert(is1[j1] == is0[j1] && is1[j2] == is0[j2]);
        } else {
            assert(is1[j2] == ci);
            assert(is1[j1] == is0[j1]);
            assert(pushed.contains(is0[j1] as int));
        }
    }
    assert forall|j: int|
        1 <= j < is1.len() as int implies a.spec_parent((#[trigger] is1[j]) as int) == Option::Some(
        is1[j - 1],
    ) by {
        if j < m {
            assert(is1[j] == is0[j] && is1[j - 1] == is0[j - 1]);
        } else {
            assert(is1[j] == ci && is1[j - 1] == is0[m - 1]);
        }
    }
    assert forall|j: int|
        0 <= j < is1.len() as int - 1 implies node_waiting(
        a,
        s_mid,
        (#[trigger] is1[j]) as int,
        cs1[j],
        ds,
        pushed1,
        cm1,
    ) && is1[j + 1] == issued_of(a, s_mid, is1[j] as int) by {
        if j < m - 1 {
            assert(is1[j] == is0[j] && cs1[j] == cs0[j] && is1[j + 1] == is0[j + 1]);
            assert(node_waiting(a, s_head, is0[j] as int, cs0[j], ds, pushed, cm));
            assert(is0[j] != idx) by {
                if j < m - 1 {
                    assert(is0[j] != is0[m - 1]);
                }
            }
            assert(s_mid.spec_element(is0[j] as int) == s_head.spec_element(is0[j] as int));
            // a new child elsewhere cannot be this node's pending child
            assert(node_waiting(a, s_mid, is0[j] as int, cs0[j], ds, pushed1, cm1)) by {
                let y = is0[j] as int;
                match s_mid.spec_element(y) {
                    Element::Flex(st) => {
                        assert forall|k: int|
                            (st.ix as int) < k < a.spec_kids(y).len() implies !pushed1.contains(
                            (#[trigger] a.spec_kids(y)[k]) as int,
                        ) by {
                            assert(!pushed.contains((a.spec_kids(y)[k]) as int));
                            assert(a.spec_kids(y)[k] != ci) by {
                                if a.spec_kids(y)[k] == ci {
                                    assert(a.spec_parent(ci as int) == Option::Some(is0[j]));
                                }
                            }
                        }
                        assert forall|k: int|
                            0 <= k <= st.ix as int implies pushed1.contains(
                            (#[trigger] a.spec_kids(y)[k]) as int,
                        ) && cm1.contains_key(a.spec_kids(y)[k] as int) && cm1[a.spec_kids(
                            y,
                        )[k] as int] == child_constraint_of(
                            a.spec_element(y),
                            cs0[j],
                            a.spec_kids(y).len() as int,
                        ) by {
                            assert(pushed.contains((a.spec_kids(y)[k]) as int));
                            assert(a.spec_kids(y)[k] != ci);
                        }
                    },
                    _ => {
                        assert(pushed.contains((a.spec_kids(y)[0]) as int));
                        assert(a.spec_kids(y)[0] != ci);
                    },
                }
            }
            assert(issued_of(a, s_mid, is0[j] as int) == issued_of(a, s_head, is0[j] as int));
        } else {
            assert(is1[j] == idx && cs1[j] == c && is1[j + 1] == ci);
        }
    }
    assert forall|x: int| #[trigger] pushed1.contains(x) implies (ds.contains(x) || stack_has(
        is1,
        x,
    )) by {
        if x == ci as int {
            assert(is1[m] as int == x);
            assert(stack_has(is1, x));
        } else {
            assert(pushed.contains(x));
            if stack_has(is0, x) {
                let j = choose|j: int| 0 <= j < is0.len() && (#[trigger] is0[j]) as int == x;
                assert(is1[j] as int == x);
                assert(stack_has(is1, x));
            }
        }
    }
    assert forall|x: int| (ds.contains(x) || stack_has(is1, x)) implies #[trigger] pushed1.contains(
        x,
    ) by {
        if stack_has(is1, x) {
            let j = choose|j: int| 0 <= j < is1.len() && (#[trigger] is1[j]) as int == x;
            if j < m {
                assert(is0[j] as int == x);
                assert(stack_has(is0, x));
            } else {
                assert(is1[j] == ci);
            }
        }
    }
    assert forall|x: int|
        #[trigger] ds.contains(x) && x != rt as int implies (a.spec_parent(
        x,
    ) matches Option::Some(p) && pushed1.contains(p as int)) by {
        assert(a.spec_parent(x) matches Option::Some(p) && pushed.contains(p as int));
    }
    assert(cm1.contains_key(rt as int) && cm1[rt as int] == root_constraint(a.spec_size())) by {
        assert(pushed.contains(rt as int));
        assert(ci as int != rt as int);
    }
    assert forall|x: int, k: int|
        ds.contains(x) && 0 <= k < a.spec_kids(x).len() implies ds.contains(
        (#[trigger] a.spec_kids(x)[k]) as int,
    ) && cm1.contains_key(a.spec_kids(x)[k] as int) && cm1[a.spec_kids(x)[k] as int]
        == child_constraint_of(a.spec_element(x), cm1[x], a.spec_kids(x).len() as int) by {
        assert(ds.contains((a.spec_kids(x)[k]) as int));
        assert(a.spec_kids(x)[k] as int != ci as int) by {
            if a.spec_kids(x)[k] as int == ci as int {
                assert(pushed.contains(ci as int));
            }
        }
        assert(x != ci as int) by {
            if x == ci as int {
                assert(pushed.contains(ci as int));
            }
        }
    }
    assert forall|i: int|
        0 <= i < n && !pushed1.contains(i) implies (#[trigger] s_mid.spec_rect(i)) == a.spec_rect(
        i,
    ) by {
        assert(!pushed.contains(i));
        assert(s_head.spec_rect(i) == a.spec_rect(i));
    }
}

/// One `Done` step: the popped node's rectangle is recorded, it joins the
/// resolved set, and its size is handed to the node now on top.
#[verifier::rlimit(100)]
#[verifier::spinoff_prover]
proof fn lemma_layout_done_core(
    a: Surface,
    s_head: Surface,
    s_mid: Surface,
    s_post: Surface,
    is0: Seq<usize>,
    cs0: Seq<Constraint>,
    rs0: Seq<Size>,
    ds: Set<int>,
    cm: Map<int, Constraint>,
    pushed: Set<int>,
    rt: usize,
    idx: usize,
    c: Constraint,
    req: Option<Size>,
    e_pre: Element,
    e_post: Element,
    sz: Size,
)
    requires
        layout_inv(a, s_head, is0, cs0, rs0, ds, cm, pushed, rt),
        is0.len() > 0,
        idx == is0.last(),
        c == cs0.last(),
        req == (if rs0.len() == 1 {
            Option::Some(rs0[0])
        } else {
            Option::<Size>::None
        }),
        e_pre == s_head.spec_element(idx as int),
        element_step(
            e_pre,
            c,
            a.spec_kids(idx as int),
            req,
            s_head.layout_context@,
            e_post,
            s_mid.layout_context@,
            LayoutResult::Done(sz),
        ),
        step_frame(s_head, s_mid, idx as int, e_post),
        // s_post is s_mid with the popped node's extent recorded
        s_post.node_count() == s_mid.node_count(),
        s_post.tables_sized(),
        s_post.spec_size() == s_mid.spec_size(),
        s_post.spec_root() == s_mid.spec_root(),
        s_post.spec_free() == s_mid.spec_free(),
        s_post.pending_commands() == s_mid.pending_commands(),
        forall|i: int| 0 <= i < a.node_count() ==> #[trigger] links_unchanged(s_mid, s_post, i),
        forall|i: int|
            0 <= i < a.node_count() ==> (#[trigger] s_post.spec_style(i)) == s_mid.spec_style(i),
        forall|i: int|
            0 <= i < a.node_count() ==> (#[trigger] s_post.spec_element(i)) == s_mid.spec_element(i),
        forall|i: int|
            0 <= i < a.node_count() && i != idx as int ==> (#[trigger] s_post.spec_rect(i))
                == s_mid.spec_rect(i),
        s_post.spec_rect(idx as int) == (Rect {
            x: s_mid.spec_rect(idx as int).x,
            y: s_mid.spec_rect(idx as int).y,
            width: sz.width,
            height: sz.height,
        }),
    ensures
        s_head.layout_context@.len() == a.node_count(),
        s_mid.layout_context@.len() == a.node_count(),
        forall|i: int|
            0 <= i < a.node_count() ==> (#[trigger] s_mid.spec_rect(i)).width == s_head.spec_rect(
                i,
            ).width && s_mid.spec_rect(i).height == s_head.spec_rect(i).height && (
            !a.spec_kids(idx as int).contains(i as usize) ==> s_mid.spec_rect(i)
                == s_head.spec_rect(i)),
        sz.width <= c.max_width && sz.height <= c.max_height,
        forall|k: int|
            0 <= k < a.spec_kids(idx as int).len() ==> ds.contains(
                (#[trigger] a.spec_kids(idx as int)[k]) as int,
            ) && cm.contains_key(a.spec_kids(idx as int)[k] as int) && cm[a.spec_kids(
                idx as int,
            )[k] as int] == child_constraint_of(
                a.spec_element(idx as int),
                c,
                a.spec_kids(idx as int).len() as int,
            ),
        same_shape(s_head.spec_element(idx as int), e_post),
{
    reveal(layout_inv);
    let n = a.node_count();
    let m = is0.len() as int;
    let kids = a.spec_kids(idx as int);
    let nk = kids.len() as int;
    let is1 = is0.drop_last();
    let cs1 = cs0.drop_last();
    let ds1 = ds.insert(idx as int);
    assert(a.live(idx as int) && cm.contains_key(idx as int) && cm[idx as int] == c && c.valid());
    assert(same_shape(a.spec_element(idx as int), e_pre));
    assert(s_head.layout_context@.len() == n);
    assert(s_mid.layout_context@.len() == n) by {
        match e_pre {
            Element::Flex(x) => {
                if req is Some && x.ix as int + 1 >= nk {
                    lemma_flex_place_frame(
                        x.direction,
                        x.major_per_flex,
                        kids,
                        s_head.layout_context@,
                        0,
                    );
                } else {
                }
            },
            _ => {},
        }
    }
    // rectangle extents: only the children of idx may have moved, and only
    // their offsets; sizes are all as before the step
    assert forall|i: int|
        0 <= i < n implies (#[trigger] s_mid.spec_rect(i)).width == s_head.spec_rect(i).width
            && s_mid.spec_rect(i).height == s_head.spec_rect(i).height && (!kids.contains(i as usize)
            ==> s_mid.spec_rect(i) == s_head.spec_rect(i)) by {
        match e_pre {
            Element::Flex(x) => {
                if req is Some && x.ix as int + 1 >= nk {
                    lemma_flex_place_frame(
                        x.direction,
                        x.major_per_flex,
                        kids,
                        s_head.layout_context@,
                        0,
                    );
                } else {
                    assert(s_mid.layout_context@ == s_head.layout_context@);
                }
            },
            _ => {
                if nk == 1 && req is Some {
                    if i == kids[0] as int {
                        assert(kids.contains(i as usize)) by {
                            assert(kids[0] == i as usize);
                        }
                    } else {
                        assert(s_mid.layout_context@[i] == s_head.layout_context@[i]);
                    }
                } else {
                    assert(s_mid.layout_context@ == s_head.layout_context@);
                }
            },
        }
    }
    // the resolved size fits the constraint's maxima
    assert(sz.width <= c.max_width && sz.height <= c.max_height) by {
        match e_pre {
            Element::Flex(x) => {
                match req {
                    Option::Some(rsz) => {
                        assert(node_waiting(a, s_head, idx as int, c, ds, pushed, cm));
                        let prev = issued_of(a, s_head, idx as int);
                        assert(prev == kids[x.ix as int]);
                        assert(ds.contains(prev as int));
                        assert(cm[prev as int] == child_constraint_of(
                            a.spec_element(idx as int),
                            c,
                            nk,
                        ));
                        assert(rect_fits_max(s_head.spec_rect(prev as int), cm[prev as int]));
                        assert(rsz.width == s_head.spec_rect(prev as int).width && rsz.height
                            == s_head.spec_rect(prev as int).height);
                        let minor2 = max_of(
                            x.minor as int,
                            x.direction.spec_minor(rsz.width as int, rsz.height as int),
                        );
                        assert(x.minor as int <= x.direction.spec_minor(
                            c.max_width as int,
                            c.max_height as int,
                        ));
                        assert(x.direction.spec_minor(rsz.width as int, rsz.height as int)
                            <= x.direction.spec_minor(c.max_width as int, c.max_height as int))
                            by {
                            match x.direction {
                                Axis::Horizontal => {},
                                Axis::Vertical => {},
                            }
                        }
                        assert(minor2 <= x.direction.spec_minor(
                            c.max_width as int,
                            c.max_height as int,
                        ));
                        match x.direction {
                            Axis::Horizontal => {},
                            Axis::Vertical => {},
                        }
                    },
                    Option::None => {
                        assert(nk == 0);
                        assert(sz == (Size { width: c.min_width, height: c.min_height }));
                    },
                }
            },
            Element::Fixed(f) => {},
            Element::Boxed(_) => {
                match req {
                    Option::Some(rsz) => {
                        assert(rs0.len() == 1);
                        assert(node_waiting(a, s_head, idx as int, c, ds, pushed, cm));
                        assert(nk == 1);
                        let prev = issued_of(a, s_head, idx as int);
                        assert(prev == kids[0]);
                        assert(ds.contains(prev as int));
                        assert(cm[prev as int] == child_constraint_of(
                            a.spec_element(idx as int),
                            c,
                            nk,
                        ));
                        assert(cm[prev as int] == box_child_constraint(c)) by {
                            assert(a.spec_element(idx as int) is Boxed);
                        }
                        assert(rect_fits_max(s_head.spec_rect(prev as int), cm[prev as int]));
                        assert(sz == rsz);
                        assert(rsz.width == s_head.spec_rect(prev as int).width && rsz.height
                            == s_head.spec_rect(prev as int).height);
                    },
                    Option::None => {
                        assert(nk == 0) by {
                            if nk == 1 {
                                assert(false);
                            }
                        }
                        assert(sz == (Size { width: c.min_width, height: c.min_height }));
                    },
                }
            },
        }
    }
    // every child of the resolved node is itself resolved, under the
    // constraint this shape dictates
    assert forall|k: int| 0 <= k < nk implies ds.contains((#[trigger] kids[k]) as int)
        && cm.contains_key(kids[k] as int) && cm[kids[k] as int] == child_constraint_of(
        a.spec_element(idx as int),
        c,
        nk,
    ) by {
        match e_pre {
            Element::Flex(x) => {
                assert(req is Some) by {
                    if req is None {
                        assert(nk == 0);
                    }
                }
                assert(node_waiting(a, s_head, idx as int, c, ds, pushed, cm));
                assert(x.ix as int + 1 >= nk);
                assert(x.ix as int == nk - 1);
                if k < x.ix as int {
                    assert(ds.contains((kids[k]) as int));
                } else {
                    assert(k == x.ix as int);
                    assert(ds.contains(issued_of(a, s_head, idx as int) as int));
                }
            },
            _ => {
                assert(req is Some) by {
                    if req is None {
                        assert(nk == 0);
                    }
                }
                assert(node_waiting(a, s_head, idx as int, c, ds, pushed, cm));
                assert(k == 0);
                assert(ds.contains(issued_of(a, s_head, idx as int) as int));
            },
        }
    }
}

#[verifier::rlimit(100)]
#[verifier::spinoff_prover]
proof fn lemma_layout_step_done(
    a: Surface,
    s_head: Surface,
    s_mid: Surface,
    s_post: Surface,
    is0: Seq<usize>,
    cs0: Seq<Constraint>,
    rs0: Seq<Size>,
    ds: Set<int>,
    cm: Map<int, Constraint>,
    pushed: Set<int>,
    rt: usize,
    idx: usize,
    c: Constraint,
    req: Option<Size>,
    e_pre: Element,
    e_post: Element,
    sz: Size,
)
    requires
        layout_inv(a, s_head, is0, cs0, rs0, ds, cm, pushed, rt),
        is0.len() > 0,
        idx == is0.last(),
        c == cs0.last(),
        req == (if rs0.len() == 1 {
            Option::Some(rs0[0])
        } else {
            Option::<Size>::None
        }),
        e_pre == s_head.spec_element(idx as int),
        element_step(
            e_pre,
            c,
            a.spec_kids(idx as int),
            req,
            s_head.layout_context@,
            e_post,
            s_mid.layout_context@,
            LayoutResult::Done(sz),
        ),
        step_frame(s_head, s_mid, idx as int, e_post),
        // s_post is s_mid with the popped node's extent recorded
        s_post.node_count() == s_mid.node_count(),
        s_post.tables_sized(),
        s_post.spec_size() == s_mid.spec_size(),
        s_post.spec_root() == s_mid.spec_root(),
        s_post.spec_free() == s_mid.spec_free(),
        s_post.pending_commands() == s_mid.pending_commands(),
        forall|i: int| 0 <= i < a.node_count() ==> #[trigger] links_unchanged(s_mid, s_post, i),
        forall|i: int|
            0 <= i < a.node_count() ==> (#[trigger] s_post.spec_style(i)) == s_mid.spec_style(i),
        forall|i: int|
            0 <= i < a.node_count() ==> (#[trigger] s_post.spec_element(i)) == s_mid.spec_element(i),
        forall|i: int|
            0 <= i < a.node_count() && i != idx as int ==> (#[trigger] s_post.spec_rect(i))
                == s_mid.spec_rect(i),
        s_post.spec_rect(idx as int) == (Rect {
            x: s_mid.spec_rect(idx as int).x,
            y: s_mid.spec_rect(idx as int).y,
            width: sz.width,
            height: sz.height,
        }),
    ensures
        layout_inv(
            a,
            s_post,
            is0.drop_last(),
            cs0.drop_last(),
            seq![sz],
            ds.insert(idx as int),
            cm,
            pushed,
            rt,
        ),
{
    lemma_layout_done_core(
        a,
        s_head,
        s_mid,
        s_post,
        is0,
        cs0,
        rs0,
        ds,
        cm,
        pushed,
        rt,
        idx,
        c,
        req,
        e_pre,
        e_post,
        sz,
    );
    reveal(layout_inv);
    let n = a.node_count();
    let m = is0.len() as int;
    let kids = a.spec_kids(idx as int);
    let nk = kids.len() as int;
    let is1 = is0.drop_last();
    let cs1 = cs0.drop_last();
    let ds1 = ds.insert(idx as int);
    assert(a.live(idx as int) && cm.contains_key(idx as int) && cm[idx as int] == c && c.valid());
    // the invariant for the shorter stacks
    assert forall|i: int| 0 <= i < n implies #[trigger] links_unchanged(a, s_post, i) by {
        assert(links_unchanged(a, s_head, i) && links_unchanged(s_head, s_mid, i)
            && links_unchanged(s_mid, s_post, i));
    }
    assert forall|i: int| 0 <= i < n implies (#[trigger] s_post.spec_style(i)) == a.spec_style(
        i,
    ) by {
        assert(links_unchanged(a, s_head, i));
        assert(s_post.spec_style(i) == s_mid.spec_style(i) && s_mid.spec_style(i)
            == s_head.spec_style(i) && s_head.spec_style(i) == a.spec_style(i));
    }
    assert forall|i: int| 0 <= i < n implies same_shape(
        a.spec_element(i),
        #[trigger] s_post.spec_element(i),
    ) by {
        if i == idx as int {
            assert(same_shape(a.spec_element(i), e_pre));
            assert(same_shape(s_head.spec_element(i), e_post));
            assert(same_shape(a.spec_element(i), e_post)) by {
                match a.spec_element(i) {
                    Element::Flex(x) => {},
                    _ => {},
                }
            }
            assert(s_post.spec_element(i) == e_post);
        } else {
            assert(s_post.spec_element(i) == s_head.spec_element(i));
            assert(same_shape(a.spec_element(i), s_head.spec_element(i)));
        }
    }
    assert forall|j: int|
        0 <= j < is1.len() as int implies a.live((#[trigger] is1[j]) as int) && pushed.contains(
        is1[j] as int,
    ) && !ds1.contains(is1[j] as int) && cs1[j].valid() && cm.contains_key(is1[j] as int)
        && cm[is1[j] as int] == cs1[j] by {
        assert(is1[j] == is0[j] && cs1[j] == cs0[j]);
        assert(is0[j] != idx);
    }
    assert forall|j1: int, j2: int| 0 <= j1 < j2 < is1.len() as int implies is1[j1] != is1[j2] by {
        assert(is1[j1] == is0[j1] && is1[j2] == is0[j2]);
    }
    assert forall|j: int|
        1 <= j < is1.len() as int implies a.spec_parent((#[trigger] is1[j]) as int) == Option::Some(
        is1[j - 1],
    ) by {
        assert(is1[j] == is0[j] && is1[j - 1] == is0[j - 1]);
    }
    // the node that is now on top is waiting on exactly this node
    if m >= 2 {
        let top = is0[m - 2] as int;
        assert(node_waiting(a, s_head, top, cs0[m - 2], ds, pushed, cm));
        assert(is0[m - 1] == issued_of(a, s_head, top));
        assert(top != idx as int);
        assert(s_post.spec_element(top) == s_head.spec_element(top));
        assert(node_waiting(a, s_post, top, cs1[m - 2], ds1, pushed, cm)) by {
            assert(cs1[m - 2] == cs0[m - 2]);
            match s_post.spec_element(top) {
                Element::Flex(st) => {},
                _ => {},
            }
        }
        assert(issued_of(a, s_post, top) == idx);
        assert(s_post.spec_rect(idx as int).width == sz.width && s_post.spec_rect(
            idx as int,
        ).height == sz.height);
        assert(ds1.contains(idx as int));
    }
    assert forall|j: int|
        0 <= j < is1.len() as int - 1 implies node_waiting(
        a,
        s_post,
        (#[trigger] is1[j]) as int,
        cs1[j],
        ds1,
        pushed,
        cm,
    ) && is1[j + 1] == issued_of(a, s_post, is1[j] as int) by {
        assert(is1[j] == is0[j] && cs1[j] == cs0[j] && is1[j + 1] == is0[j + 1]);
        assert(node_waiting(a, s_head, is0[j] as int, cs0[j], ds, pushed, cm));
        assert(is0[j] != idx);
        assert(s_post.spec_element(is0[j] as int) == s_head.spec_element(is0[j] as int));
        assert(node_waiting(a, s_post, is0[j] as int, cs0[j], ds1, pushed, cm)) by {
            match s_post.spec_element(is0[j] as int) {
                Element::Flex(st) => {},
                _ => {},
            }
        }
        assert(issued_of(a, s_post, is0[j] as int) == issued_of(a, s_head, is0[j] as int));
    }
    assert forall|x: int| #[trigger] pushed.contains(x) implies (ds1.contains(x) || stack_has(
        is1,
        x,
    )) by {
        if x == idx as int {
        } else {
            if stack_has(is0, x) {
                let j = choose|j: int| 0 <= j < is0.len() && (#[trigger] is0[j]) as int == x;
                assert(j < m - 1) by {
                    if j == m - 1 {
                        assert(is0[j] == idx);
                    }
                }
                assert(is1[j] as int == x);
                assert(stack_has(is1, x));
            }
        }
    }
    assert forall|x: int| (ds1.contains(x) || stack_has(is1, x)) implies #[trigger] pushed.contains(
        x,
    ) by {
        if x == idx as int {
            assert(pushed.contains(idx as int));
        } else if stack_has(is1, x) {
            let j = choose|j: int| 0 <= j < is1.len() && (#[trigger] is1[j]) as int == x;
            assert(is0[j] as int == x);
            assert(stack_has(is0, x));
        }
    }
    // the resolved set's own clauses
    assert forall|x: int|
        #[trigger] ds1.contains(x) implies a.live(x) && cm.contains_key(x) && cm[x].valid()
            && rect_fits_max(s_post.spec_rect(x), cm[x]) by {
        if x == idx as int {
        } else {
            assert(ds.contains(x));
            assert(rect_fits_max(s_head.spec_rect(x), cm[x]));
            assert(x != idx as int);
            assert(s_post.spec_rect(x).width == s_mid.spec_rect(x).width && s_post.spec_rect(
                x,
            ).height == s_mid.spec_rect(x).height);
        }
    }
    assert forall|x: int, k: int|
        ds1.contains(x) && 0 <= k < a.spec_kids(x).len() implies ds1.contains(
        (#[trigger] a.spec_kids(x)[k]) as int,
    ) && cm.contains_key(a.spec_kids(x)[k] as int) && cm[a.spec_kids(x)[k] as int]
        == child_constraint_of(a.spec_element(x), cm[x], a.spec_kids(x).len() as int) by {
        if x == idx as int {
        } else {
            assert(ds.contains(x));
            assert(ds.contains((a.spec_kids(x)[k]) as int));
        }
    }
    assert forall|x: int|
        #[trigger] ds1.contains(x) && x != rt as int implies (a.spec_parent(
        x,
    ) matches Option::Some(p) && pushed.contains(p as int)) by {
        if x == idx as int {
            assert(m >= 2) by {
                if m == 1 {
                    assert(is0[0] == rt);
                    assert(idx == rt);
                }
            }
            assert(a.spec_parent(idx as int) == Option::Some(is0[m - 2]));
            assert(pushed.contains(is0[m - 2] as int));
        } else {
            assert(ds.contains(x));
        }
    }
    assert forall|i: int|
        0 <= i < n && !pushed.contains(i) implies (#[trigger] s_post.spec_rect(i)) == a.spec_rect(
        i,
    ) by {
        assert(s_head.spec_rect(i) == a.spec_rect(i));
        assert(i != idx as int);
        assert(!kids.contains(i as usize)) by {
            if kids.contains(i as usize) {
                let k = choose|k: int| 0 <= k < kids.len() && kids[k] == i as usize;
                assert(ds.contains((kids[k]) as int));
                assert(pushed.contains(i));
            }
        }
    }
    assert(s_post.spec_rect(rt as int).x == 0 && s_post.spec_rect(rt as int).y == 0) by {
        if rt == idx {
        } else {
            assert(!kids.contains(rt)) by {
                if kids.contains(rt) {
                    let k = choose|k: int| 0 <= k < kids.len() && kids[k] == rt;
                    assert(a.spec_parent(rt as int) == Option::Some(idx));
                    assert(a.spec_parent(rt as int) is None);
                }
            }
            assert(s_mid.spec_rect(rt as int) == s_head.spec_rect(rt as int));
        }
    }
    if is1.len() == 0 {
        assert(idx == rt) by {
            assert(is0[0] == rt && m == 1);
        }
        assert(ds1.contains(rt as int));
    }
}

impl Surface {
    /// Recomputes every node's rectangle top-down from the root under the
    /// constraint protocol, with an explicit triple of work stacks instead
    /// of recursion: a paused parent is re-pushed beneath the child it
    /// asked about, so the child's whole subtree resolves before the
    /// parent resumes. A graph without a root is left untouched.
    #[verifier::rlimit(100)]
    pub fn layout(&mut self)
        requires
            old(self).wf(),
            layout_ready(*old(self)),
        ensures
            final(self).wf(),
            old(self).spec_root() is None ==> *final(self) == *old(self),
            old(self).spec_root() is Some ==> exists|ds: Set<int>, cm: Map<int, Constraint>|
                #[trigger] layout_post(*old(self), *final(self), ds, cm),
    {
        let ghost a = *old(self);
        let root = self.root_index;
        match root {
            None => {},
            Some(rt) => {
                let size = self.size;
                let mut index_stack: Vec<usize> = Vec::new();
                let mut constraint_stack: Vec<Constraint> = Vec::new();
                let mut result_stack: Vec<Size> = Vec::new();
                index_stack.push(rt);
                proof {
                    assert(a.live(rt as int));
                    assert(a.node_count() >= 1);
                }
                self.layout_context.set_size(rt, size.width, size.height);
                self.layout_context.position_child(rt, 0, 0);
                constraint_stack.push(Constraint::fixed(size.width, size.height));
                let ghost mut ds: Set<int> = Set::empty();
                let ghost mut cm: Map<int, Constraint> = Map::empty().insert(
                    rt as int,
                    root_constraint(size),
                );
                let ghost mut pushed: Set<int> = Set::empty().insert(rt as int);
                proof {
                    assert(pushed.len() == 1) by {
                        assert(Set::<int>::empty().len() == 0);
                    }
                    assert(layout_inv(
                        a,
                        *self,
                        index_stack@,
                        constraint_stack@,
                        result_stack@,
                        ds,
                        cm,
                        pushed,
                        rt,
                    )) by {
                        reveal(layout_inv);
                        assert(index_stack@[0] == rt);
                        assert(root_constraint(size) == (Constraint {
                            min_width: size.width,
                            max_width: size.width,
                            min_height: size.height,
                            max_height: size.height,
                        }));
                        assert forall|x: int| #[trigger] pushed.contains(x) implies (ds.contains(x)
                            || stack_has(index_stack@, x)) by {
                            assert(index_stack@[0] == rt);
                        }
                        assert forall|i: int|
                            0 <= i < a.node_count() implies #[trigger] links_unchanged(a, *self, i)
                                && (#[trigger] a.spec_style(i)) == self.spec_style(i) && same_shape(
                                a.spec_element(i),
                                self.spec_element(i),
                            ) by {
                            assert(self.spec_element(i) == a.spec_element(i));
                            lemma_same_shape_refl(a.spec_element(i));
                        }
                        assert forall|i: int|
                            0 <= i < a.node_count() && !pushed.contains(i) implies (
                        #[trigger] self.spec_rect(i)) == a.spec_rect(i) by {
                            assert(i != rt as int);
                        }
                    }
                }
                while index_stack.len() > 0
                    invariant
                        a == *old(self),
                        a.spec_root() == Option::Some(rt),
                        layout_inv(
                            a,
                            *self,
                            index_stack@,
                            constraint_stack@,
                            result_stack@,
                            ds,
                            cm,
                            pushed,
                            rt,
                        ),
                    decreases 2 * (a.node_count() - pushed.len()) + index_stack@.len(),
                {
                    let ghost s_head = *self;
                    let ghost is0 = index_stack@;
                    let ghost cs0 = constraint_stack@;
                    let ghost rs0 = result_stack@;
                    let ghost pushed0 = pushed;
                    proof {
                        lemma_layout_pop_facts(a, s_head, is0, cs0, rs0, ds, cm, pushed, rt);
                    }
                    let idx = index_stack.pop().unwrap();
                    let constraint = constraint_stack.pop().unwrap();
                    let size_opt = result_stack.pop();
                    proof {
                        assert(is0.last() == idx && cs0.last() == constraint);
                        assert(size_opt == (if rs0.len() == 1 {
                            Option::Some(rs0[0])
                        } else {
                            Option::<Size>::None
                        }));
                        assert(a.live(idx as int));
                        assert(idx < self.node_count());
                        lemma_layout_req(
                            a,
                            s_head,
                            is0,
                            cs0,
                            rs0,
                            ds,
                            cm,
                            pushed,
                            rt,
                            self.layout_context@,
                        );
                        assert(self.spec_kids(idx as int) == a.spec_kids(idx as int)) by {
                            assert(links_unchanged(a, s_head, idx as int));
                        }
                    }
                    let mut e = self.elements[idx];
                    let ghost e_pre = e;
                    let r = e.layout(
                        constraint,
                        &mut self.layout_context,
                        &self.children[idx],
                        size_opt,
                    );
                    self.elements.set(idx, e);
                    proof {
                        assert(element_step(
                            e_pre,
                            constraint,
                            a.spec_kids(idx as int),
                            size_opt,
                            s_head.layout_context@,
                            e,
                            self.layout_context@,
                            r,
                        ));
                        assert(step_frame(s_head, *self, idx as int, e)) by {
                            assert forall|i: int|
                                0 <= i < s_head.node_count() implies #[trigger] links_unchanged(
                                s_head,
                                *self,
                                i,
                            ) by {}
                            assert forall|i: int|
                                0 <= i < s_head.node_count() implies (#[trigger] self.spec_style(i))
                                    == s_head.spec_style(i) by {}
                            assert forall|i: int|
                                0 <= i < s_head.node_count() && i != idx as int implies (
                            #[trigger] self.spec_element(i)) == s_head.spec_element(i) by {}
                            assert(self.spec_element(idx as int) == e);
                            assert(self.layout_context@.len() == s_head.layout_context@.len())
                                by {
                                assert forall|t: int|
                                    0 <= t < a.spec_kids(idx as int).len() implies (
                                #[trigger] a.spec_kids(idx as int)[t])
                                    < s_head.layout_context@.len() by {
                                    assert(a.live((a.spec_kids(idx as int)[t]) as int));
                                }
                                match e_pre {
                                    Element::Flex(x) => {
                                        if size_opt is Some && x.ix as int + 1 >= a.spec_kids(
                                            idx as int,
                                        ).len() {
                                            lemma_flex_place_frame(
                                                x.direction,
                                                x.major_per_flex,
                                                a.spec_kids(idx as int),
                                                s_head.layout_context@,
                                                0,
                                            );
                                        }
                                    },
                                    _ => {},
                                }
                            }
                            assert(self.tables_sized());
                        }
                    }
                    match r {
                        LayoutResult::LayoutChild(child_index, child_constraint) => {
                            index_stack.push(idx);
                            constraint_stack.push(constraint);
                            index_stack.push(child_index);
                            constraint_stack.push(child_constraint);
                            proof {
                                vstd::set_lib::lemma_int_range(0, a.node_count());
                                lemma_layout_step_child(
                                    a,
                                    s_head,
                                    *self,
                                    is0,
                                    cs0,
                                    rs0,
                                    ds,
                                    cm,
                                    pushed,
                                    rt,
                                    idx,
                                    constraint,
                                    size_opt,
                                    e_pre,
                                    e,
                                    child_index,
                                    child_constraint,
                                );
                                pushed = pushed.insert(child_index as int);
                                cm = cm.insert(child_index as int, child_constraint);
                                assert(index_stack@ =~= is0.push(child_index));
                                assert(constraint_stack@ =~= cs0.push(child_constraint));
                                assert(result_stack@ =~= Seq::<Size>::empty());
                            }
                        },
                        LayoutResult::Done(result_size) => {
                            let ghost s_mid = *self;
                            self.layout_context.set_size(
                                idx,
                                result_size.width,
                                result_size.height,
                            );
                            result_stack.push(result_size);
                            proof {
                                lemma_layout_step_done(
                                    a,
                                    s_head,
                                    s_mid,
                                    *self,
                                    is0,
                                    cs0,
                                    rs0,
                                    ds,
                                    cm,
                                    pushed,
                                    rt,
                                    idx,
                                    constraint,
                                    size_opt,
                                    e_pre,
                                    e,
                                    result_size,
                                );
                                ds = ds.insert(idx as int);
                                assert(index_stack@ =~= is0.drop_last());
                                assert(constraint_stack@ =~= cs0.drop_last());
                                assert(result_stack@ =~= seq![result_size]);
                            }
                        },
                    }
                }
                proof {
                    reveal(layout_inv);
                    let b = *self;
                    assert(layout_post(a, b, ds, cm)) by {
                        assert(ds.contains(rt as int));
                        assert forall|i: int|
                            0 <= i < a.node_count() && !ds.contains(i) implies (
                        #[trigger] b.spec_rect(i)) == a.spec_rect(i) by {
                            if pushed.contains(i) {
                                assert(ds.contains(i) || stack_has(index_stack@, i));
                                if stack_has(index_stack@, i) {
                                    let j = choose|j: int|
                                        0 <= j < index_stack@.len() && (#[trigger] index_stack@[j]) as int
                                            == i;
                                }
                            }
                        }
                    }
                    assert(exists|ds2: Set<int>, cm2: Map<int, Constraint>|
                        #[trigger] layout_post(a, *self, ds2, cm2)) by {
                        assert(layout_post(a, *self, ds, cm));
                    }
                    assert forall|t: int|
                        0 <= t < a.node_count() implies #[trigger] links_unchanged(a, *self, t) by {}
                    assert(self.live(rt as int));
                    assert(self.spec_parent(rt as int) is None) by {
                        assert(links_unchanged(a, *self, rt as int));
                        assert(a.spec_parent(rt as int) is None);
                    }
                    lemma_wf_preserved(a, *self);
                }
            },
        }
    }
}

/// Inserting a node and immediately removing the returned index, with no
/// structural change in between, leaves the set of live indices exactly as
/// it was; and when the insertion recycled a free slot, the free list
/// itself is restored verbatim.
pub proof fn lemma_insert_remove_round_trip(
    pre: Surface,
    mid: Surface,
    post: Surface,
    element: Element,
    idx: usize,
)
    requires
        pre.wf(),
        insert_post(pre, element, mid, idx),
        remove_post(mid, post, idx),
    ensures
        forall|i: int| 0 <= i < pre.node_count() ==> ((#[trigger] post.live(i)) <==> pre.live(i)),
        pre.spec_free().len() > 0 ==> post.spec_free() == pre.spec_free(),
{
    assert(mid.spec_kids(idx as int).len() == 0);
    assert(post.spec_free() == mid.spec_free().push(idx));
    if pre.spec_free().len() > 0 {
        assert(idx == pre.spec_free().last());
        assert(mid.spec_free() == pre.spec_free().drop_last());
        assert(post.spec_free() =~= pre.spec_free());
    }
    assert forall|i: int|
        0 <= i < pre.node_count() implies ((#[trigger] post.live(i)) <==> pre.live(i)) by {
        assert(post.node_count() == mid.node_count());
        if pre.spec_free().len() > 0 {
            assert(mid.node_count() == pre.node_count());
        } else {
            assert(mid.node_count() == pre.node_count() + 1);
            assert(mid.spec_free() == pre.spec_free());
            assert(i != idx as int);
            if post.spec_free().contains(i as usize) {
                let k = choose|k: int|
                    0 <= k < post.spec_free().len() && post.spec_free()[k] == i as usize;
                if k < mid.spec_free().len() {
                    assert(pre.spec_free()[k] == i as usize);
                } else {
                    assert(post.spec_free()[k] == idx);
                }
            }
            if pre.spec_free().contains(i as usize) {
                let k = choose|k: int|
                    0 <= k < pre.spec_free().len() && pre.spec_free()[k] == i as usize;
                assert(post.spec_free()[k] == i as usize);
            }
        }
    }
}

/// Painting a graph whose single live branch is a childless root yields
/// exactly that root's commands: one filled rectangle when it has a solid
/// background, nothing otherwise.
pub proof fn lemma_paint_single(pre: Surface, vs: Seq<int>, r: usize)
    requires
        pre.wf(),
        pre.spec_root() == Option::<usize>::Some(r),
        pre.spec_kids(r as int).len() == 0,
        paint_traversal(pre, vs),
    ensures
        paint_concat(pre, vs) == node_paint_commands(pre.spec_style(r as int), pre.spec_rect(r as int)),
{
    assert(vs[0] == r as int);
    assert(vs.len() == 1) by {
        if vs.len() >= 2 {
            let j2 = choose|j2: int|
                0 <= j2 < 1 && pre.spec_parent(vs[1]) == Option::Some((#[trigger] vs[j2]) as usize);
            assert(pre.spec_parent(vs[1]) == Option::Some(r));
            assert(pre.live(vs[1]));
            assert(pre.spec_kids(r as int).contains(vs[1] as usize));
        }
    }
    assert(vs.drop_first() =~= Seq::<int>::empty());
    assert(paint_concat(pre, vs.drop_first()) == Seq::<Command>::empty());
    assert(node_paint_commands(pre.spec_style(r as int), pre.spec_rect(r as int))
        + Seq::<Command>::empty() =~= node_paint_commands(
        pre.spec_style(r as int),
        pre.spec_rect(r as int),
    ));
}

/// After a layout pass, every node the pass resolved has a rectangle that
/// fits the maxima of the constraint it was resolved under (a well-formed
/// range), and its extent is the one its shape dictates.
pub proof fn lemma_layout_fits(
    pre: Surface,
    post: Surface,
    ds: Set<int>,
    cm: Map<int, Constraint>,
    i: int,
)
    requires
        layout_post(pre, post, ds, cm),
        ds.contains(i),
    ensures
        rect_fits_max(post.spec_rect(i), cm[i]),
        cm[i].valid(),
        pre.live(i),
        resolved_extent_ok(pre, post, i, cm[i]),
{
}

} // verus!
