use moonlight::element::{
    Alignment, Alignments, Axis, Colour, Dimension, Dimensions, Direction, Element, PointerCoordinate, Position, Size,
    SizeError, TextBox, TextPlacement,
};
use moonlight::internal_loop::{recalculate_layout, screen_root, UpdateResponse};
use moonlight::renderer::ElementRectangle;

fn grow() -> Size {
    Size::Grow { minimum: None, maximum: None }
}

fn fixed_leaf(width: u64, height: u64) -> Element<u32> {
    Element::new(Direction::Horizontal, Size::Fixed(width), Size::Fixed(height), Colour::blue(), Vec::new())
}

fn rectangles(root: &Element<u32>) -> Vec<ElementRectangle> {
    let mut rectangles = Vec::new();
    root.to_rectangles(&mut rectangles);
    rectangles
}

fn size_of(r: &ElementRectangle) -> (u64, u64) {
    (r.size.width, r.size.height)
}

fn position_of(r: &ElementRectangle) -> (u64, u64) {
    (r.position.x.unwrap(), r.position.y.unwrap())
}

/// Lays the tree out on a screen of the given size, as the application does.
fn lay_out(user_root: Element<u32>, width: u64, height: u64) -> (Element<u32>, Result<(), SizeError>) {
    let mut root = screen_root(width, height, user_root);
    let r = recalculate_layout(&mut root, &UpdateResponse::recalculate());
    (root, r)
}

#[test]
fn fit_size_adds_children_gaps_and_indentation() {
    let mut e = Element::new(
        Direction::Horizontal,
        Size::Fit { minimum: None, maximum: None },
        Size::Fit { minimum: None, maximum: None },
        Colour::red(),
        vec![fixed_leaf(100, 50), fixed_leaf(50, 70)],
    )
    .child_gaps(5)
    .indentation(1, 2, 3, 4);
    assert_eq!(e.calculate_fit_size(Dimension::Width), 100 + 50 + 5 + 2 + 4);
    assert_eq!(e.calculate_fit_size(Dimension::Height), 70 + 1 + 3);
}

#[test]
fn fit_size_respects_minimum_and_maximum() {
    let mut small = Element::<u32>::new(
        Direction::Horizontal,
        Size::Fit { minimum: Some(40), maximum: None },
        Size::Grow { minimum: None, maximum: Some(3) },
        Colour::red(),
        vec![fixed_leaf(10, 10)],
    );
    assert_eq!(small.calculate_fit_size(Dimension::Width), 40);
    assert_eq!(small.calculate_fit_size(Dimension::Height), 3);
}

#[test]
fn fit_text_width_uses_ideal_width() {
    let mut e = Element::<u32>::new(
        Direction::Horizontal,
        Size::FitText { minimum: None, maximum: None },
        Size::FitText { minimum: None, maximum: None },
        Colour::blue(),
        Vec::new(),
    )
    .text(TextBox { key: 3, ideal_width: 80, height: 20 })
    .indentation(2, 5, 2, 5);
    e.calculate_text_data();
    assert_eq!(e.calculate_fit_size(Dimension::Width), 90);
    assert_eq!(e.calculate_fit_size(Dimension::Height), 24);
}

#[test]
fn growable_children_share_the_space() {
    let user = Element::new(Direction::Horizontal, grow(), grow(), Colour::red(), vec![
        Element::new(Direction::Horizontal, grow(), Size::Fixed(10), Colour::green(), Vec::new()),
        Element::new(Direction::Horizontal, grow(), Size::Fixed(10), Colour::green(), Vec::new()),
        fixed_leaf(50, 10),
    ])
    .child_gaps(5);
    let (root, r) = lay_out(user, 300, 100);
    assert_eq!(r, Ok(()));
    let rs = rectangles(&root);
    assert_eq!(rs.len(), 5);
    assert_eq!(size_of(&rs[0]), (300, 100));
    assert_eq!(size_of(&rs[1]), (300, 100));
    assert_eq!(size_of(&rs[2]), (120, 10));
    assert_eq!(size_of(&rs[3]), (120, 10));
    assert_eq!(size_of(&rs[4]), (50, 10));
    assert_eq!(position_of(&rs[2]), (0, 0));
    assert_eq!(position_of(&rs[3]), (125, 0));
    assert_eq!(position_of(&rs[4]), (250, 0));
}

#[test]
fn grow_remainder_goes_to_the_first_children() {
    let user = Element::new(Direction::Horizontal, grow(), grow(), Colour::red(), vec![
        Element::new(Direction::Horizontal, grow(), Size::Fixed(10), Colour::green(), Vec::new()),
        Element::new(Direction::Horizontal, grow(), Size::Fixed(10), Colour::green(), Vec::new()),
        Element::new(Direction::Horizontal, grow(), Size::Fixed(10), Colour::green(), Vec::new()),
    ]);
    let (root, r) = lay_out(user, 302, 10);
    assert_eq!(r, Ok(()));
    let rs = rectangles(&root);
    assert_eq!(size_of(&rs[2]).0, 101);
    assert_eq!(size_of(&rs[3]).0, 101);
    assert_eq!(size_of(&rs[4]).0, 100);
}

#[test]
fn growth_stops_at_the_maximum() {
    let user = Element::new(Direction::Horizontal, grow(), grow(), Colour::red(), vec![
        Element::new(Direction::Horizontal, Size::Grow { minimum: None, maximum: Some(50) }, Size::Fixed(10), Colour::green(), Vec::new()),
        Element::new(Direction::Horizontal, grow(), Size::Fixed(10), Colour::green(), Vec::new()),
    ]);
    let (root, r) = lay_out(user, 240, 10);
    assert_eq!(r, Ok(()));
    let rs = rectangles(&root);
    assert_eq!(size_of(&rs[2]).0, 50);
    assert_eq!(size_of(&rs[3]).0, 190);
}

fn text_leaf(key: u64, ideal: u64) -> Element<u32> {
    Element::new(
        Direction::Horizontal,
        Size::FitText { minimum: None, maximum: None },
        Size::FitText { minimum: None, maximum: None },
        Colour::blue(),
        Vec::new(),
    )
    .text(TextBox { key, ideal_width: ideal, height: 20 })
}

#[test]
fn text_children_shrink_to_fit() {
    let (root, r) = lay_out(
        Element::new(Direction::Horizontal, Size::Fixed(100), grow(), Colour::red(), vec![text_leaf(1, 80), text_leaf(2, 80)]),
        300,
        40,
    );
    assert_eq!(r, Ok(()));
    let rs = rectangles(&root);
    assert_eq!(size_of(&rs[2]), (50, 20));
    assert_eq!(size_of(&rs[3]), (50, 20));
}

#[test]
fn shrinking_takes_from_the_largest_child_first() {
    let (root, r) = lay_out(
        Element::new(Direction::Horizontal, Size::Fixed(100), grow(), Colour::red(), vec![text_leaf(1, 80), text_leaf(2, 70)]),
        300,
        40,
    );
    assert_eq!(r, Ok(()));
    let rs = rectangles(&root);
    assert_eq!(size_of(&rs[2]).0, 50);
    assert_eq!(size_of(&rs[3]).0, 50);
}

#[test]
fn fixed_children_that_do_not_fit_fail() {
    let (_, r) = lay_out(
        Element::new(Direction::Horizontal, grow(), grow(), Colour::red(), vec![fixed_leaf(80, 10), fixed_leaf(80, 10)]),
        100,
        40,
    );
    assert_eq!(r, Err(SizeError::CantShrinkChildren(1)));
}

#[test]
fn fixed_child_too_tall_fails_across() {
    let (_, r) = lay_out(
        Element::new(Direction::Horizontal, grow(), Size::Fixed(40), Colour::red(), vec![fixed_leaf(10, 80)]),
        100,
        100,
    );
    assert_eq!(r, Err(SizeError::CantShrinkChildren(2)));
}

#[test]
fn growable_child_fills_the_space_across() {
    let user = Element::new(Direction::Vertical, Size::Fixed(200), Size::Fixed(100), Colour::red(), vec![
        Element::new(Direction::Horizontal, grow(), Size::Fixed(10), Colour::green(), Vec::new()),
    ])
    .indentation(1, 7, 1, 3);
    let (root, r) = lay_out(user, 300, 300);
    assert_eq!(r, Ok(()));
    let rs = rectangles(&root);
    assert_eq!(size_of(&rs[2]), (190, 10));
    assert_eq!(position_of(&rs[2]), (7, 1));
}

#[test]
fn children_are_placed_one_after_the_other() {
    let user = Element::new(Direction::Horizontal, grow(), grow(), Colour::red(), vec![fixed_leaf(100, 50), fixed_leaf(100, 30)])
        .child_gaps(5)
        .indentation(5, 5, 5, 5);
    let (root, r) = lay_out(user, 400, 200);
    assert_eq!(r, Ok(()));
    let rs = rectangles(&root);
    assert_eq!(position_of(&rs[1]), (0, 0));
    assert_eq!(position_of(&rs[2]), (5, 5));
    assert_eq!(position_of(&rs[3]), (110, 5));
}

#[test]
fn centred_children_share_the_free_space() {
    let user = Element::new(Direction::Vertical, grow(), grow(), Colour::red(), vec![fixed_leaf(100, 50)])
        .alignment(Alignment { x: Alignments::Centre, y: Alignments::End });
    let (root, r) = lay_out(user, 300, 200);
    assert_eq!(r, Ok(()));
    let rs = rectangles(&root);
    assert_eq!(position_of(&rs[2]), (100, 150));
}

#[test]
fn text_boxes_are_placed_from_the_bottom() {
    let user = Element::new(Direction::Horizontal, grow(), grow(), Colour::red(), vec![text_leaf(9, 40).indentation(1, 2, 3, 4)]);
    let (root, r) = lay_out(user, 200, 100);
    assert_eq!(r, Ok(()));
    let texts = root.collect_text_boxes(Dimensions { width: 200, height: 100 });
    assert_eq!(texts, vec![TextPlacement { key: 9, x: 4, y: 100 - 0 - 24 + 3 }]);
}

#[test]
fn click_finds_the_deepest_covering_message() {
    let user = Element::new(Direction::Horizontal, grow(), grow(), Colour::red(), vec![
        fixed_leaf(100, 50).on_click(7),
        fixed_leaf(100, 50),
    ])
    .on_click(1);
    let (root, r) = lay_out(user, 300, 100);
    assert_eq!(r, Ok(()));
    let at = |v: i64| PointerCoordinate { floor: v, ceil: v };
    assert_eq!(root.get_on_click(at(10), at(10)), Some(7));
    assert_eq!(root.get_on_click(at(150), at(10)), Some(1));
    assert_eq!(root.get_on_click(PointerCoordinate { floor: 100, ceil: 101 }, at(10)), Some(1));
    assert_eq!(root.get_on_click(at(250), at(90)), Some(1));
}

#[test]
fn small_types_behave() {
    assert_eq!(Dimension::Width.opposite(), Dimension::Height);
    assert_eq!(Dimension::Height.opposite(), Dimension::Width);
    assert_eq!(Dimension::from(Direction::Vertical), Dimension::Height);
    assert_eq!(Axis::from(Dimension::Width), Axis::X);
    let a = Alignment { x: Alignments::End, y: Alignments::Centre };
    assert_eq!(a.get(Axis::X), Alignments::End);
    assert_eq!(a.get(Axis::Y), Alignments::Centre);
    let none = Dimensions::<Option<u64>>::none();
    assert!(none.width.is_none() && none.height.is_none());
    let d = Dimensions { width: Some(3u64), height: Some(4u64) }.unwrap_contents();
    assert_eq!((d.width, d.height), (3, 4));
    assert_eq!(Colour::red(), Colour { r: 1.0f32.to_bits(), g: 0, b: 0 });
    assert_eq!(Colour::black(), Colour { r: 0, g: 0, b: 0 });
    let _ = Position { x: None, y: None };
}
