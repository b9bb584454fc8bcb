//! The decisions of the application's event loop: what each message from the
//! window asks for, what an update asks to redo, and the layout passes.
use vstd::prelude::*;

use crate::element::{Colour, Dimension, Direction, Element, Position, Size, SizeError};
use crate::model::ElementModel;

verus! {

/// How a scroll distance is measured.
#[derive(Clone, Copy, Debug, PartialEq, Eq, Structural)]
pub enum ScrollType {
    Pixel,
    Line,
}

/// A keyboard handler that never has a message.
pub struct NoKeyboardInput;

impl NoKeyboardInput {
    /// No message, whatever the key.
    pub fn keyboard_input<Key, UserMessage>(&self, _key: Key) -> (message: Option<UserMessage>)
        ensures
            message is None,
    {
        None
    }
}

/// What the application has to redo after the user's state changed.
#[derive(Clone, Copy, Debug, PartialEq, Eq, Structural)]
pub struct UpdateResponse {
    pub reassemble: bool,
    pub recalculate_size: bool,
    pub recalculate_position: bool,
    pub update_render_state: bool,
    pub render: bool,
    pub close: bool,
}

impl UpdateResponse {
    /// Close the application and redo nothing.
    pub fn close() -> (r: UpdateResponse)
        ensures
            r == (UpdateResponse {
                reassemble: false,
                recalculate_size: false,
                recalculate_position: false,
                update_render_state: false,
                render: false,
                close: true,
            }),
    {
        UpdateResponse {
            reassemble: false,
            recalculate_size: false,
            recalculate_position: false,
            update_render_state: false,
            render: false,
            close: true,
        }
    }

    /// Redo everything: assemble the tree again, size it, place it, and draw it.
    pub fn recalculate() -> (r: UpdateResponse)
        ensures
            r == (UpdateResponse {
                reassemble: true,
                recalculate_size: true,
                recalculate_position: true,
                update_render_state: true,
                render: true,
                close: false,
            }),
    {
        UpdateResponse {
            reassemble: true,
            recalculate_size: true,
            recalculate_position: true,
            update_render_state: true,
            render: true,
            close: false,
        }
    }

    /// Redo nothing.
    pub fn nothing() -> (r: UpdateResponse)
        ensures
            r == (UpdateResponse {
                reassemble: false,
                recalculate_size: false,
                recalculate_position: false,
                update_render_state: false,
                render: false,
                close: false,
            }),
    {
        UpdateResponse {
            reassemble: false,
            recalculate_size: false,
            recalculate_position: false,
            update_render_state: false,
            render: false,
            close: false,
        }
    }

    /// Place the tree again and draw it, keeping the sizes.
    pub fn reposition() -> (r: UpdateResponse)
        ensures
            r == (UpdateResponse {
                reassemble: false,
                recalculate_size: false,
                recalculate_position: true,
                update_render_state: true,
                render: true,
                close: false,
            }),
    {
        UpdateResponse {
            reassemble: false,
            recalculate_size: false,
            recalculate_position: true,
            update_render_state: true,
            render: true,
            close: false,
        }
    }
}

/// What a message from the window is.
#[derive(Clone, Copy, Debug, PartialEq, Eq, Structural)]
pub enum MessageKind {
    Window,
    Resumed,
    Resized,
    RedrawRequested,
    Close,
    KeyPressed,
    MouseEvent { left_pressed: bool },
    Scroll,
}

/// What the event loop does for a message.
#[derive(Clone, Copy, Debug, PartialEq, Eq, Structural)]
pub enum LoopAction {
    /// The message only comes once, before the loop starts; the loop cannot go on.
    Unexpected,
    /// Resize the surface, then recalculate and draw everything.
    Resize,
    /// Draw; where the surface was lost or is out of date, resize it to the window.
    Redraw,
    /// Close the window and leave the loop.
    Close,
    /// Ask the keyboard handler for a message and, if there is one, update.
    Keyboard,
    /// Look for the click message at the pointer and, if there is one, update.
    Click,
    /// Look for a scroll handler at the pointer and, if there is one, update.
    Scroll,
    /// Nothing to do.
    Ignore,
}

/// What the event loop does for a message of kind `message`.
pub open spec fn action_for(message: MessageKind) -> LoopAction {
    match message {
        MessageKind::Window => LoopAction::Unexpected,
        MessageKind::Resumed => LoopAction::Unexpected,
        MessageKind::Resized => LoopAction::Resize,
        MessageKind::RedrawRequested => LoopAction::Redraw,
        MessageKind::Close => LoopAction::Close,
        MessageKind::KeyPressed => LoopAction::Keyboard,
        MessageKind::MouseEvent { left_pressed } => if left_pressed {
            LoopAction::Click
        } else {
            LoopAction::Ignore
        },
        MessageKind::Scroll => LoopAction::Scroll,
    }
}

/// What the event loop does for a message of kind `message`.
pub fn next_action(message: MessageKind) -> (action: LoopAction)
    ensures
        action == action_for(message),
{
    match message {
        MessageKind::Window => LoopAction::Unexpected,
        MessageKind::Resumed => LoopAction::Unexpected,
        MessageKind::Resized => LoopAction::Resize,
        MessageKind::RedrawRequested => LoopAction::Redraw,
        MessageKind::Close => LoopAction::Close,
        MessageKind::KeyPressed => LoopAction::Keyboard,
        MessageKind::MouseEvent { left_pressed } => if left_pressed {
            LoopAction::Click
        } else {
            LoopAction::Ignore
        },
        MessageKind::Scroll => LoopAction::Scroll,
    }
}

/// The distance of a scroll in pixels: as given for a pixel scroll, times the
/// line distance for a line scroll.
pub fn scroll_distance(distance: i32, scroll_type: ScrollType, line_scroll_distance: i32) -> (pixels: i32)
    requires
        scroll_type == ScrollType::Line ==> i32::MIN <= distance * line_scroll_distance <= i32::MAX,
    ensures
        pixels == match scroll_type {
            ScrollType::Line => distance * line_scroll_distance,
            ScrollType::Pixel => distance as int,
        },
{
    match scroll_type {
        ScrollType::Line => distance * line_scroll_distance,
        ScrollType::Pixel => distance,
    }
}

/// The root the application lays out: a horizontal element of exactly the
/// screen's size, black, holding the user's tree.
pub fn screen_root<UserMessage: Clone>(width: u64, height: u64, user_root: Element<UserMessage>) -> (root: Element<UserMessage>)
    ensures
        root@ == (ElementModel {
            direction: Direction::Horizontal,
            size: crate::element::Dimensions { width: Size::Fixed(width), height: Size::Fixed(height) },
            colour: Colour { r: 0, g: 0, b: 0 },
            children: seq![user_root@],
            text: None,
            on_click: None,
            child_gaps: 0,
            indentation: (0, 0, 0, 0),
            alignment: crate::element::Alignment { x: crate::element::Alignments::Start, y: crate::element::Alignments::Start },
            id: None,
            calculated_fit_size: crate::element::Dimensions { width: None, height: None },
            assigned_size: crate::element::Dimensions { width: None, height: None },
            position: Position { x: None, y: None },
            text_minimum: None,
            text_ideal: None,
        }),
{
    let children = vec![user_root];
    let root = Element::new(Direction::Horizontal, Size::Fixed(width), Size::Fixed(height), Colour::black(), children);
    assert(children@.map_values(|c: Element<UserMessage>| c@) =~= seq![user_root@]);
    root
}

/// Sizes the tree: records the text measures, then measures and finally
/// sizes the width, then the height. The first failure stops it.
pub open spec fn sized<M>(root: ElementModel<M>) -> (ElementModel<M>, Result<(), SizeError>) {
    let wide = root.with_text_data().fitted(Dimension::Width);
    let (wide_final, r) = wide.finalized(Dimension::Width);
    if r is Err {
        (wide_final, r)
    } else {
        wide_final.fitted(Dimension::Height).finalized(Dimension::Height)
    }
}

/// Whether sizing the tree can run: each pass is ready for the tree it gets.
pub open spec fn size_ready<M>(root: ElementModel<M>) -> bool {
    let texts = root.with_text_data();
    let wide = texts.fitted(Dimension::Width);
    let (wide_final, r) = wide.finalized(Dimension::Width);
    &&& root.text_data_ok()
    &&& texts.fit_ok(Dimension::Width)
    &&& wide.final_ready(Dimension::Width)
    &&& r is Ok ==> {
        &&& wide_final.fit_ok(Dimension::Height)
        &&& wide_final.fitted(Dimension::Height).final_ready(Dimension::Height)
    }
}

/// The top left corner of the screen.
pub open spec fn origin() -> Position {
    Position { x: Some(0), y: Some(0) }
}

/// The tree after the layout passes that `response` asks for: sizing, then
/// placing at the origin (where sizing succeeded or was not asked for).
pub open spec fn laid_out<M>(root: ElementModel<M>, response: UpdateResponse) -> (ElementModel<M>, Result<(), SizeError>) {
    let (after_size, r) = if response.recalculate_size {
        sized(root)
    } else {
        (root, Ok(()))
    };
    if r is Err {
        (after_size, r)
    } else if response.recalculate_position {
        (after_size.placed(origin()), Ok(()))
    } else {
        (after_size, Ok(()))
    }
}

/// Whether the layout passes that `response` asks for can run on the tree.
pub open spec fn layout_ready<M>(root: ElementModel<M>, response: UpdateResponse) -> bool {
    let (after_size, r) = if response.recalculate_size {
        sized(root)
    } else {
        (root, Ok(()))
    };
    &&& response.recalculate_size ==> size_ready(root)
    &&& (r is Ok && response.recalculate_position) ==> after_size.place_ok(origin())
}

/// Runs the layout passes that `update_response` asks for on the tree.
pub fn recalculate_layout<UserMessage: Clone>(root: &mut Element<UserMessage>, update_response: &UpdateResponse) -> (r: Result<(), SizeError>)
    requires
        layout_ready(old(root)@, *update_response),
    ensures
        (final(root)@, r) == laid_out(old(root)@, *update_response),
{
    if update_response.recalculate_size {
        root.calculate_text_data();
        root.calculate_fit_size(Dimension::Width);
        let width = root.calculate_final_size(Dimension::Width);
        if let Err(e) = width {
            return Err(e);
        }
        root.calculate_fit_size(Dimension::Height);
        let height = root.calculate_final_size(Dimension::Height);
        if let Err(e) = height {
            return Err(e);
        }
    }
    if update_response.recalculate_position {
        root.calculate_children_position(Position { x: Some(0), y: Some(0) });
    }
    Ok(())
}

} // verus!
