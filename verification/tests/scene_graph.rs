use hydron_ui::color::Rgba;
use hydron_ui::command::Command;
use hydron_ui::element::{Axis, BoxElement, Element, FixedElement, FlexElement};
use hydron_ui::geometry::{Rect, Size};
use hydron_ui::style::{Background, Border, Style, TRBL};
use hydron_ui::surface::Surface;

fn no_border() -> TRBL<Border> {
    TRBL::new(Border::Empty, Border::Empty, Border::Empty, Border::Empty)
}

fn solid(r: u16, g: u16, b: u16) -> Style {
    Style::new(Background::Color(Rgba::new(r, g, b, u16::MAX)), no_border())
}

#[test]
fn surface_size_round_trip() {
    let mut surface = Surface::new(Size::new(1024, 768));
    assert_eq!(surface.get_size(), Size::new(1024, 768));
    surface.resize(Size::new(800, 600));
    assert_eq!(surface.get_size(), Size::new(800, 600));
}

#[test]
fn style_round_trip() {
    let mut surface = Surface::new(Size::new(100, 100));
    let i = surface.insert(Element::Fixed(FixedElement::new(10, 10)));
    assert_eq!(surface.get_style(i), Style::empty());
    let s = Style::new(
        Background::Color(Rgba::new(1, 2, 3, 4)),
        TRBL::new(
            Border::Color(Rgba::new(9, 9, 9, 9)),
            Border::Empty,
            Border::Empty,
            Border::Empty,
        ),
    );
    surface.set_style(i, s);
    assert_eq!(surface.get_style(i), s);
}

#[test]
fn paint_without_root_is_empty() {
    let mut surface = Surface::new(Size::new(100, 100));
    let commands = surface.paint();
    assert!(commands.is_empty());
}

#[test]
fn layout_without_root_is_a_no_op() {
    let mut surface = Surface::new(Size::new(100, 100));
    let i = surface.insert(Element::Fixed(FixedElement::new(10, 10)));
    surface.layout();
    assert_eq!(surface.get_rect(i), Rect::new(0, 0, 0, 0));
}

#[test]
fn paint_single_solid_root() {
    let mut surface = Surface::new(Size::new(300, 200));
    let root = surface.insert(Element::Fixed(FixedElement::new(120, 80)));
    surface.set_root(root);
    let color = Rgba::new(u16::MAX, 0, 0, u16::MAX);
    surface.set_style(root, Style::new(Background::Color(color), no_border()));
    surface.layout();
    let commands = surface.paint();
    assert_eq!(commands.len(), 1);
    assert_eq!(commands[0], Command::DrawRect(Rect::new(0, 0, 120, 80), color));
}

#[test]
fn fixed_root_clamps_to_surface() {
    let mut surface = Surface::new(Size::new(100, 50));
    let root = surface.insert(Element::Fixed(FixedElement::new(200, 300)));
    surface.set_root(root);
    surface.layout();
    assert_eq!(surface.get_rect(root), Rect::new(0, 0, 100, 50));
}

#[test]
fn box_root_adopts_child_size() {
    let mut surface = Surface::new(Size::new(500, 500));
    let root = surface.insert(Element::Boxed(BoxElement::new()));
    surface.set_root(root);
    let child = surface.insert(Element::Fixed(FixedElement::new(200, 100)));
    surface.set_parent(child, root);
    surface.layout();
    assert_eq!(surface.get_rect(child), Rect::new(0, 0, 200, 100));
    assert_eq!(surface.get_rect(root), Rect::new(0, 0, 200, 100));
}

#[test]
fn horizontal_flex_distributes_slots_and_centers() {
    // A flex(Horizontal) root sized 1024x100 with four fixed children of
    // widths 200 and heights 100,200,300,400: each slot is 1024/4 = 256,
    // widths stay 200, heights clamp to 100, and the x offsets are the
    // slot starts 0,256,512,768 plus centering padding (256-200)/2 = 28.
    let mut surface = Surface::new(Size::new(1024, 100));
    let root = surface.insert(Element::Flex(FlexElement::new(Axis::Horizontal)));
    surface.set_root(root);
    let heights = [100, 200, 300, 400];
    let mut kids = Vec::new();
    for h in heights {
        let k = surface.insert(Element::Fixed(FixedElement::new(200, h)));
        surface.set_parent(k, root);
        kids.push(k);
    }
    surface.layout();
    assert_eq!(surface.get_rect(root), Rect::new(0, 0, 1024, 100));
    assert_eq!(surface.get_rect(kids[0]), Rect::new(28, 0, 200, 100));
    assert_eq!(surface.get_rect(kids[1]), Rect::new(284, 0, 200, 100));
    assert_eq!(surface.get_rect(kids[2]), Rect::new(540, 0, 200, 100));
    assert_eq!(surface.get_rect(kids[3]), Rect::new(796, 0, 200, 100));
}

#[test]
fn vertical_flex_distributes_slots() {
    let mut surface = Surface::new(Size::new(100, 900));
    let root = surface.insert(Element::Flex(FlexElement::new(Axis::Vertical)));
    surface.set_root(root);
    let a = surface.insert(Element::Fixed(FixedElement::new(40, 100)));
    let b = surface.insert(Element::Fixed(FixedElement::new(60, 100)));
    surface.set_parent(a, root);
    surface.set_parent(b, root);
    surface.layout();
    // slots of 900/2 = 450, children capped at their intrinsic sizes,
    // centered in their slots vertically: (450-100)/2 = 175.
    assert_eq!(surface.get_rect(a), Rect::new(0, 175, 40, 100));
    assert_eq!(surface.get_rect(b), Rect::new(0, 625, 60, 100));
    // the container spans the full major budget; its minor extent is the
    // constraint's minor minimum (100), which no child exceeded
    assert_eq!(surface.get_rect(root), Rect::new(0, 0, 100, 900));
}

#[test]
fn flex_slot_leftover_stays_unused() {
    // 1000/3 = 333 with remainder 1: slots start at 0,333,666 and the
    // trailing pixel is never handed to any child.
    let mut surface = Surface::new(Size::new(1000, 10));
    let root = surface.insert(Element::Flex(FlexElement::new(Axis::Horizontal)));
    surface.set_root(root);
    let mut kids = Vec::new();
    for _ in 0..3 {
        let k = surface.insert(Element::Fixed(FixedElement::new(333, 10)));
        surface.set_parent(k, root);
        kids.push(k);
    }
    surface.layout();
    assert_eq!(surface.get_rect(kids[0]), Rect::new(0, 0, 333, 10));
    assert_eq!(surface.get_rect(kids[1]), Rect::new(333, 0, 333, 10));
    assert_eq!(surface.get_rect(kids[2]), Rect::new(666, 0, 333, 10));
}

#[test]
fn insert_reuses_most_recently_freed_index() {
    let mut surface = Surface::new(Size::new(100, 100));
    let first = surface.insert(Element::Fixed(FixedElement::new(1, 1)));
    surface.remove(first);
    let second = surface.insert(Element::Fixed(FixedElement::new(2, 2)));
    assert_eq!(second, first);
    // insert followed immediately by remove restores the free list: the
    // next insert hands out the same slot again
    surface.remove(second);
    let third = surface.insert(Element::Fixed(FixedElement::new(3, 3)));
    assert_eq!(third, first);
}

#[test]
fn insert_resets_recycled_slot() {
    let mut surface = Surface::new(Size::new(100, 100));
    let i = surface.insert(Element::Fixed(FixedElement::new(50, 50)));
    surface.set_root(i);
    surface.set_style(i, solid(1, 1, 1));
    surface.layout();
    assert_eq!(surface.get_rect(i), Rect::new(0, 0, 50, 50));
    surface.remove(i);
    let j = surface.insert(Element::Fixed(FixedElement::new(7, 7)));
    assert_eq!(j, i);
    assert_eq!(surface.get_style(j), Style::empty());
    assert_eq!(surface.get_rect(j), Rect::new(0, 0, 0, 0));
}

#[test]
fn removing_root_clears_it_and_recycles_subtree() {
    let mut surface = Surface::new(Size::new(100, 100));
    let root = surface.insert(Element::Boxed(BoxElement::new()));
    surface.set_root(root);
    let child = surface.insert(Element::Fixed(FixedElement::new(10, 10)));
    surface.set_parent(child, root);
    assert_eq!(surface.get_root(), Some(root));
    surface.remove(root);
    assert_eq!(surface.get_root(), None);
    // a subsequent layout is a no-op and paint yields nothing
    surface.layout();
    assert!(surface.paint().is_empty());
    // both indices are available again, in some order
    let a = surface.insert(Element::Fixed(FixedElement::new(1, 1)));
    let b = surface.insert(Element::Fixed(FixedElement::new(2, 2)));
    let mut freed = [a, b];
    freed.sort();
    let mut expected = [root, child];
    expected.sort();
    assert_eq!(freed, expected);
}

#[test]
fn remove_detaches_from_parent_list() {
    let mut surface = Surface::new(Size::new(600, 10));
    let root = surface.insert(Element::Flex(FlexElement::new(Axis::Horizontal)));
    surface.set_root(root);
    let a = surface.insert(Element::Fixed(FixedElement::new(10, 10)));
    let b = surface.insert(Element::Fixed(FixedElement::new(20, 10)));
    surface.set_parent(a, root);
    surface.set_parent(b, root);
    surface.remove(a);
    surface.layout();
    // only one child remains: it gets the whole 600-wide budget as slot
    assert_eq!(surface.get_rect(b), Rect::new(290, 0, 20, 10));
}

#[test]
fn paint_emits_parent_before_descendants() {
    let mut surface = Surface::new(Size::new(400, 100));
    let root = surface.insert(Element::Flex(FlexElement::new(Axis::Horizontal)));
    surface.set_root(root);
    let root_color = Rgba::new(1, 0, 0, u16::MAX);
    surface.set_style(root, Style::new(Background::Color(root_color), no_border()));
    let a = surface.insert(Element::Fixed(FixedElement::new(100, 100)));
    let b = surface.insert(Element::Fixed(FixedElement::new(100, 100)));
    surface.set_parent(a, root);
    surface.set_parent(b, root);
    let ca = Rgba::new(0, 1, 0, u16::MAX);
    let cb = Rgba::new(0, 0, 1, u16::MAX);
    surface.set_style(a, Style::new(Background::Color(ca), no_border()));
    surface.set_style(b, Style::new(Background::Color(cb), no_border()));
    surface.layout();
    let commands = surface.paint();
    assert_eq!(commands.len(), 3);
    assert_eq!(commands[0], Command::DrawRect(Rect::new(0, 0, 400, 100), root_color));
    // siblings come after the root (popped LIFO, so in reverse list order)
    assert_eq!(commands[1], Command::DrawRect(surface.get_rect(b), cb));
    assert_eq!(commands[2], Command::DrawRect(surface.get_rect(a), ca));
}

#[test]
fn nodes_without_background_paint_nothing() {
    let mut surface = Surface::new(Size::new(100, 100));
    let root = surface.insert(Element::Fixed(FixedElement::new(50, 50)));
    surface.set_root(root);
    surface.layout();
    assert!(surface.paint().is_empty());
}
