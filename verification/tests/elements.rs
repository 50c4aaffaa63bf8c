use hydron_ui::constraint::Constraint;
use hydron_ui::element::{Axis, BoxElement, FixedElement, FlexElement, LayoutResult};
use hydron_ui::geometry::Size;
use hydron_ui::surface::LayoutContext;

#[test]
fn axis_major_minor_pack() {
    assert_eq!(Axis::Horizontal.major((3, 7)), 3);
    assert_eq!(Axis::Horizontal.minor((3, 7)), 7);
    assert_eq!(Axis::Vertical.major((3, 7)), 7);
    assert_eq!(Axis::Vertical.minor((3, 7)), 3);
    assert_eq!(Axis::Horizontal.pack(10, 20), (10, 20));
    assert_eq!(Axis::Vertical.pack(10, 20), (20, 10));
}

#[test]
fn constraint_fixed_and_is_fixed() {
    let c = Constraint::fixed(640, 480);
    assert!(c.is_fixed());
    assert_eq!(c.min_width, 640);
    assert_eq!(c.max_width, 640);
    assert_eq!(c.min_height, 480);
    assert_eq!(c.max_height, 480);
    let loose = Constraint::new(0, 640, 0, 480);
    assert!(!loose.is_fixed());
}

#[test]
fn fixed_element_resolves_to_intrinsic_when_roomy() {
    let f = FixedElement::new(200, 100);
    let mut ctx = LayoutContext::new();
    let kids: Vec<usize> = Vec::new();
    let r = f.layout(Constraint::new(0, 1000, 0, 1000), &mut ctx, &kids, None);
    assert_eq!(r, LayoutResult::Done(Size::new(200, 100)));
}

#[test]
fn fixed_element_clamps_to_constraint_maxima() {
    let f = FixedElement::new(200, 100);
    let mut ctx = LayoutContext::new();
    let kids: Vec<usize> = Vec::new();
    let r = f.layout(Constraint::new(0, 150, 0, 60), &mut ctx, &kids, None);
    assert_eq!(r, LayoutResult::Done(Size::new(150, 60)));
}

#[test]
fn box_element_without_children_takes_constraint_minimum() {
    let b = BoxElement::new();
    let mut ctx = LayoutContext::new();
    let kids: Vec<usize> = Vec::new();
    let r = b.layout(Constraint::new(30, 1000, 40, 1000), &mut ctx, &kids, None);
    assert_eq!(r, LayoutResult::Done(Size::new(30, 40)));
}

#[test]
fn flex_element_without_children_takes_constraint_minimum() {
    let mut x = FlexElement::new(Axis::Horizontal);
    let mut ctx = LayoutContext::new();
    let kids: Vec<usize> = Vec::new();
    let r = x.layout(Constraint::new(5, 1000, 6, 1000), &mut ctx, &kids, None);
    assert_eq!(r, LayoutResult::Done(Size::new(5, 6)));
}
