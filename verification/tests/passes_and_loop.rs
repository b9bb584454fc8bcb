use moonlight::element::{
    Colour, Dimension, Dimensions, Direction, Element, PointerCoordinate, Position, Size, SizeError, TextBox,
};
use moonlight::internal_loop::{
    next_action, recalculate_layout, screen_root, scroll_distance, LoopAction, MessageKind, NoKeyboardInput,
    ScrollType, UpdateResponse,
};
use moonlight::renderer::{ElementRectangle, ScreenRectangle};

fn grow() -> Size {
    Size::Grow { minimum: None, maximum: None }
}

fn fit() -> Size {
    Size::Fit { minimum: None, maximum: None }
}

fn fixed_leaf(width: u64, height: u64) -> Element<u32> {
    Element::new(Direction::Horizontal, Size::Fixed(width), Size::Fixed(height), Colour::green(), Vec::new())
}

fn rectangles(root: &Element<u32>) -> Vec<(u64, u64, u64, u64)> {
    let mut rs = Vec::new();
    root.to_rectangles(&mut rs);
    rs.iter()
        .map(|r| (r.position.x.unwrap_or(u64::MAX), r.position.y.unwrap_or(u64::MAX), r.size.width, r.size.height))
        .collect()
}

fn lay_out(user_root: Element<u32>, width: u64, height: u64) -> (Element<u32>, Result<(), SizeError>) {
    let mut root = screen_root(width, height, user_root);
    let r = recalculate_layout(&mut root, &UpdateResponse::recalculate());
    (root, r)
}

fn nested_tree() -> Element<u32> {
    Element::new(Direction::Vertical, grow(), grow(), Colour::red(), vec![
        Element::new(Direction::Horizontal, fit(), fit(), Colour::blue(), vec![fixed_leaf(30, 10), fixed_leaf(20, 15)])
            .child_gaps(4),
        Element::new(Direction::Horizontal, grow(), Size::Fixed(25), Colour::green(), Vec::new()),
        fixed_leaf(60, 5),
    ])
    .child_gaps(2)
    .indentation(3, 3, 3, 3)
}

#[test]
fn fit_size_is_the_same_when_asked_twice() {
    let mut e = nested_tree();
    let first = e.calculate_fit_size(Dimension::Width);
    let second = e.calculate_fit_size(Dimension::Width);
    assert_eq!(first, second);
    // the widest child is 60 wide; 3 and 3 of indentation
    assert_eq!(first, 66);
    let height = e.calculate_fit_size(Dimension::Height);
    // 15 + 25 + 5, two gaps of 2, and 3 above and below
    assert_eq!(height, 15 + 25 + 5 + 2 * 2 + 3 + 3);
}

#[test]
fn text_data_is_the_same_when_computed_twice() {
    let mut e = Element::<u32>::new(
        Direction::Horizontal,
        Size::FitText { minimum: None, maximum: None },
        Size::FitText { minimum: None, maximum: None },
        Colour::blue(),
        Vec::new(),
    )
    .text(TextBox { key: 1, ideal_width: 70, height: 12 });
    e.calculate_text_data();
    let once = (e.calculate_fit_size(Dimension::Width), e.calculate_fit_size(Dimension::Height));
    e.calculate_text_data();
    let twice = (e.calculate_fit_size(Dimension::Width), e.calculate_fit_size(Dimension::Height));
    assert_eq!(once, twice);
    assert_eq!(once, (70, 12));
}

#[test]
fn placing_twice_places_the_same() {
    let (mut root, r) = lay_out(nested_tree(), 200, 120);
    assert_eq!(r, Ok(()));
    let first = rectangles(&root);
    root.calculate_children_position(Position { x: Some(0), y: Some(0) });
    assert_eq!(rectangles(&root), first);
}

#[test]
fn one_rectangle_for_each_element() {
    let (root, r) = lay_out(nested_tree(), 200, 120);
    assert_eq!(r, Ok(()));
    // screen root, user root, its three children, and the two leaves of the first
    assert_eq!(rectangles(&root).len(), 7);
}

#[test]
fn nested_tree_is_laid_out_exactly() {
    let (root, r) = lay_out(nested_tree(), 200, 120);
    assert_eq!(r, Ok(()));
    let rs = rectangles(&root);
    assert_eq!(rs[0], (0, 0, 200, 120));
    assert_eq!(rs[1], (0, 0, 200, 120));
    // first child: fits 30 + 4 + 20 by 15
    assert_eq!(rs[2], (3, 3, 54, 15));
    assert_eq!(rs[3], (3, 3, 30, 10));
    assert_eq!(rs[4], (37, 3, 20, 15));
    // second child grows across to the inner width
    assert_eq!(rs[5], (3, 20, 194, 25));
    assert_eq!(rs[6], (3, 47, 60, 5));
}

#[test]
fn the_screen_root_keeps_the_screen_size() {
    let (root, r) = lay_out(fixed_leaf(10, 10), 640, 480);
    assert_eq!(r, Ok(()));
    assert_eq!(rectangles(&root)[0], (0, 0, 640, 480));
}

#[test]
fn click_without_a_message_gives_nothing() {
    let (root, r) = lay_out(fixed_leaf(10, 10), 100, 100);
    assert_eq!(r, Ok(()));
    let at = |v: i64| PointerCoordinate { floor: v, ceil: v };
    assert_eq!(root.get_on_click(at(5), at(5)), None);
    assert_eq!(root.get_on_click(at(50), at(50)), None);
}

#[test]
fn click_outside_the_children_gives_the_element_message() {
    let user = Element::new(Direction::Horizontal, grow(), grow(), Colour::red(), vec![fixed_leaf(10, 10).on_click(3)])
        .on_click(8);
    let (root, r) = lay_out(user, 100, 100);
    assert_eq!(r, Ok(()));
    let at = |v: i64| PointerCoordinate { floor: v, ceil: v };
    assert_eq!(root.get_on_click(at(50), at(50)), Some(8));
    assert_eq!(root.get_on_click(at(5), at(5)), Some(3));
}

#[test]
fn growable_child_with_too_large_minimum_fails_across() {
    let child = Element::new(
        Direction::Horizontal,
        Size::Fixed(10),
        Size::Grow { minimum: Some(80), maximum: None },
        Colour::green(),
        Vec::new(),
    );
    let (_, r) = lay_out(Element::new(Direction::Horizontal, grow(), Size::Fixed(40), Colour::red(), vec![child]), 100, 100);
    assert_eq!(r, Err(SizeError::CantShrinkChildren(3)));
}

#[test]
fn fit_child_with_too_large_minimum_fails_across() {
    let child = Element::new(
        Direction::Horizontal,
        Size::Fixed(10),
        Size::Fit { minimum: Some(60), maximum: None },
        Colour::green(),
        Vec::new(),
    );
    let (_, r) = lay_out(Element::new(Direction::Horizontal, grow(), Size::Fixed(40), Colour::red(), vec![child]), 100, 100);
    assert_eq!(r, Err(SizeError::CantShrinkChildren(4)));
}

#[test]
fn fit_child_taller_than_the_space_shrinks_across() {
    let child = Element::new(Direction::Vertical, Size::Fixed(10), fit(), Colour::green(), vec![fixed_leaf(5, 20), fixed_leaf(5, 30)]);
    let parent = Element::new(Direction::Horizontal, grow(), Size::Fixed(40), Colour::red(), vec![child]);
    let (root, r) = lay_out(parent, 100, 100);
    // the child fits to 50 high, is shrunk to 40, and then cannot shrink its fixed children
    assert_eq!(r, Err(SizeError::CantShrinkChildren(1)));
    let _ = root;
}

#[test]
fn text_child_with_too_large_minimum_fails_across() {
    let child = Element::new(
        Direction::Horizontal,
        Size::Fixed(10),
        Size::FitText { minimum: Some(60), maximum: None },
        Colour::green(),
        Vec::new(),
    )
    .text(TextBox { key: 1, ideal_width: 10, height: 10 });
    let (_, r) = lay_out(Element::new(Direction::Horizontal, grow(), Size::Fixed(40), Colour::red(), vec![child]), 100, 100);
    assert_eq!(r, Err(SizeError::CantShrinkChildren(5)));
}

#[test]
fn each_message_has_its_action() {
    assert_eq!(next_action(MessageKind::Window), LoopAction::Unexpected);
    assert_eq!(next_action(MessageKind::Resumed), LoopAction::Unexpected);
    assert_eq!(next_action(MessageKind::Resized), LoopAction::Resize);
    assert_eq!(next_action(MessageKind::RedrawRequested), LoopAction::Redraw);
    assert_eq!(next_action(MessageKind::Close), LoopAction::Close);
    assert_eq!(next_action(MessageKind::KeyPressed), LoopAction::Keyboard);
    assert_eq!(next_action(MessageKind::MouseEvent { left_pressed: true }), LoopAction::Click);
    assert_eq!(next_action(MessageKind::MouseEvent { left_pressed: false }), LoopAction::Ignore);
    assert_eq!(next_action(MessageKind::Scroll), LoopAction::Scroll);
}

#[test]
fn scroll_distance_counts_lines() {
    assert_eq!(scroll_distance(3, ScrollType::Line, 30), 90);
    assert_eq!(scroll_distance(-2, ScrollType::Line, 30), -60);
    assert_eq!(scroll_distance(7, ScrollType::Pixel, 30), 7);
}

#[test]
fn update_responses_say_what_to_redo() {
    let c = UpdateResponse::close();
    assert!(c.close && !c.render && !c.reassemble && !c.recalculate_size);
    let r = UpdateResponse::recalculate();
    assert!(r.reassemble && r.recalculate_size && r.recalculate_position && r.update_render_state && r.render && !r.close);
    let n = UpdateResponse::nothing();
    assert!(!n.reassemble && !n.recalculate_size && !n.recalculate_position && !n.update_render_state && !n.render && !n.close);
    let p = UpdateResponse::reposition();
    assert!(!p.reassemble && !p.recalculate_size && p.recalculate_position && p.update_render_state && p.render && !p.close);
}

#[test]
fn nothing_to_recalculate_leaves_the_tree() {
    let (mut root, r) = lay_out(nested_tree(), 200, 120);
    assert_eq!(r, Ok(()));
    let before = rectangles(&root);
    assert_eq!(recalculate_layout(&mut root, &UpdateResponse::nothing()), Ok(()));
    assert_eq!(rectangles(&root), before);
}

#[test]
fn no_keyboard_input_has_no_message() {
    let m: Option<u32> = NoKeyboardInput.keyboard_input('a');
    assert_eq!(m, None);
}

#[test]
fn rectangles_turn_upside_down_on_the_screen() {
    let r = ElementRectangle {
        position: Position { x: Some(10), y: Some(20) },
        size: Dimensions { width: 30, height: 40 },
        colour: Colour::red(),
    };
    assert_eq!(r.to_screen(100), ScreenRectangle { x: 10, y: 40, width: 30, height: 40 });
}

#[test]
fn placing_elsewhere_moves_every_element_alike() {
    let (mut root, r) = lay_out(nested_tree(), 200, 120);
    assert_eq!(r, Ok(()));
    let at_origin = rectangles(&root);
    root.calculate_children_position(Position { x: Some(10), y: Some(25) });
    let moved = rectangles(&root);
    assert_eq!(moved.len(), at_origin.len());
    for (m, o) in moved.iter().zip(at_origin.iter()) {
        assert_eq!(*m, (o.0 + 10, o.1 + 25, o.2, o.3));
    }
}

#[test]
fn shrinking_evens_out_children_of_different_widths() {
    let text = |key: u64, ideal: u64| {
        Element::<u32>::new(
            Direction::Horizontal,
            Size::FitText { minimum: None, maximum: None },
            Size::FitText { minimum: None, maximum: None },
            Colour::blue(),
            Vec::new(),
        )
        .text(TextBox { key, ideal_width: ideal, height: 10 })
    };
    let parent = Element::new(Direction::Horizontal, Size::Fixed(120), grow(), Colour::red(), vec![
        text(1, 90),
        text(2, 60),
        text(3, 50),
    ]);
    let (root, r) = lay_out(parent, 300, 50);
    assert_eq!(r, Ok(()));
    let rs = rectangles(&root);
    assert_eq!((rs[2].2, rs[3].2, rs[4].2), (40, 40, 40));
}
