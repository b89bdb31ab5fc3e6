//! Items that look and behave as the widgets of the platform do.
//!
//! The style of the platform draws a widget, says how much room it needs
//! and which of its parts is under the mouse. Whoever has the style asks it;
//! the items here say what it is asked and what follows from its answers.
//! Where no style is at hand an item shows nothing and takes any size.

use vstd::prelude::*;
use crate::eval::{add_numbers, div_numbers, mul_numbers, quotient, saturate, sub_numbers};
use crate::items::{
    any_size, HighLevelRenderingPrimitive, ImageSource, ImageSourceView, InputEventResult,
    LayoutInfo, MouseEvent, MouseEventType, PrimitiveView, Rect, RenderingVariable,
};

verus! {

/// The part of a spin box that raises its value, as the style numbers the
/// parts of a widget.
pub const SPIN_BOX_UP: u32 = 1;

/// The part of a spin box that lowers its value.
pub const SPIN_BOX_DOWN: u32 = 2;

/// The room that the style says a widget needs.
#[derive(Clone, Copy, Debug, PartialEq, Eq, Structural)]
pub struct StyleSize {
    pub width: i64,
    pub height: i64,
}

/// What the style drew: the rows from the top, four bytes for each point.
#[derive(Debug)]
pub struct StyleImage {
    pub width: u32,
    pub height: u32,
    pub data: Vec<u8>,
}

/// What the style is told of a widget, besides its extent.
#[derive(Debug)]
pub enum StyleOption {
    Button { text: String, down: bool },
    CheckBox { text: String, checked: bool },
    SpinBox { value: i32, active_controls: u32, pressed: bool },
    Slider { value: i32, minimum: i32, maximum: i32, active_controls: u32, pressed: bool },
}

/// The content of a [`StyleOption`].
pub enum StyleOptionView {
    Button { text: Seq<char>, down: bool },
    CheckBox { text: Seq<char>, checked: bool },
    SpinBox { value: i32, active_controls: u32, pressed: bool },
    Slider { value: i32, minimum: i32, maximum: i32, active_controls: u32, pressed: bool },
}

impl View for StyleOption {
    type V = StyleOptionView;

    open spec fn view(&self) -> StyleOptionView {
        match *self {
            StyleOption::Button { text, down } => StyleOptionView::Button { text: text@, down },
            StyleOption::CheckBox { text, checked } => StyleOptionView::CheckBox {
                text: text@,
                checked,
            },
            StyleOption::SpinBox { value, active_controls, pressed } => StyleOptionView::SpinBox {
                value,
                active_controls,
                pressed,
            },
            StyleOption::Slider {
                value,
                minimum,
                maximum,
                active_controls,
                pressed,
            } => StyleOptionView::Slider { value, minimum, maximum, active_controls, pressed },
        }
    }
}

/// The nearest number that the style can take.
pub open spec fn narrowed(x: i64) -> i32 {
    if x < i32::MIN {
        i32::MIN
    } else if x > i32::MAX {
        i32::MAX
    } else {
        x as i32
    }
}

/// The nearest number that the style can take.
pub fn narrow(x: i64) -> (r: i32)
    ensures
        r == narrowed(x),
{
    if x < -2147483648 {
        -2147483648
    } else if x > 2147483647 {
        2147483647
    } else {
        x as i32
    }
}

/// The picture that the style drew, as the source of an image.
pub fn to_resource(image: StyleImage) -> (source: ImageSource)
    ensures
        source@ == (ImageSourceView::EmbeddedRgbaImage {
            width: image.width,
            height: image.height,
            data: image.data@,
        }),
{
    ImageSource::EmbeddedRgbaImage { width: image.width, height: image.height, data: image.data }
}

/// What a widget shows: what the style drew of it, and nothing where no
/// style is at hand.
pub open spec fn shown(drawn: Option<StyleImage>) -> PrimitiveView {
    match drawn {
        Some(image) => PrimitiveView::Image {
            source: ImageSourceView::EmbeddedRgbaImage {
                width: image.width,
                height: image.height,
                data: image.data@,
            },
        },
        None => PrimitiveView::NoContents,
    }
}

/// What a widget shows.
pub fn primitive_of(drawn: Option<StyleImage>) -> (p: HighLevelRenderingPrimitive)
    ensures
        p@ == shown(drawn),
{
    match drawn {
        Some(image) => HighLevelRenderingPrimitive::Image { source: to_resource(image) },
        None => HighLevelRenderingPrimitive::NoContents,
    }
}

/// How small and how large a widget may be made: not smaller than the style
/// says it needs, and, where its height is fixed, not higher either.
/// Without a style it does not care.
pub open spec fn hinted(hint: Option<StyleSize>, fixed_height: bool) -> LayoutInfo {
    match hint {
        Some(size) => LayoutInfo {
            min_width: size.width,
            min_height: size.height,
            max_height: if fixed_height {
                size.height
            } else {
                any_size().max_height
            },
            ..any_size()
        },
        None => any_size(),
    }
}

/// How small and how large a widget may be made.
pub fn layout_of(hint: Option<StyleSize>, fixed_height: bool) -> (info: LayoutInfo)
    ensures
        info == hinted(hint, fixed_height),
{
    let any = LayoutInfo::default();
    match hint {
        Some(size) => LayoutInfo {
            min_width: size.width,
            max_width: any.max_width,
            min_height: size.height,
            max_height: if fixed_height {
                size.height
            } else {
                any.max_height
            },
        },
        None => any,
    }
}

/// A button.
#[derive(Debug)]
pub struct QtStyleButton {
    pub x: i64,
    pub y: i64,
    pub width: i64,
    pub height: i64,
    pub text: String,
    pub pressed: bool,
}

/// What a button makes of what the mouse did: whether it is pressed
/// afterwards, its answer, and whether it was clicked. A press presses it
/// and grabs the mouse. A release ends the press and is a click. When the
/// mouse leaves, the press ends. A move changes nothing: the button keeps
/// the mouse while it is pressed.
pub open spec fn button_reaction(pressed: bool, what: MouseEventType) -> (
    bool,
    InputEventResult,
    bool,
) {
    match what {
        MouseEventType::MousePressed => (true, InputEventResult::GrabMouse, false),
        MouseEventType::MouseReleased => (false, InputEventResult::EventAccepted, true),
        MouseEventType::MouseExit => (false, InputEventResult::GrabMouse, false),
        MouseEventType::MouseMoved => (
            pressed,
            if pressed {
                InputEventResult::GrabMouse
            } else {
                InputEventResult::EventIgnored
            },
            false,
        ),
    }
}

impl QtStyleButton {
    /// Where the item stands.
    pub fn geometry(&self) -> (r: Rect)
        ensures
            r == (Rect { x: self.x, y: self.y, width: self.width, height: self.height }),
    {
        Rect { x: self.x, y: self.y, width: self.width, height: self.height }
    }

    /// What the style is told of the button: its text, and whether it is
    /// held down.
    pub fn style_option(&self) -> (option: StyleOption)
        ensures
            option@ == (StyleOptionView::Button { text: self.text@, down: self.pressed }),
    {
        StyleOption::Button { text: self.text.clone(), down: self.pressed }
    }

    /// The extent that the style is to draw.
    pub fn style_extent(&self) -> (extent: (i32, i32))
        ensures
            extent == (narrowed(self.width), narrowed(self.height)),
    {
        (narrow(self.width), narrow(self.height))
    }

    /// What is to be drawn: what the style drew of the button.
    pub fn rendering_primitive(&self, drawn: Option<StyleImage>) -> (p: HighLevelRenderingPrimitive)
        ensures
            p@ == shown(drawn),
    {
        primitive_of(drawn)
    }

    /// What the renderer needs besides: nothing.
    pub fn rendering_variables(&self) -> (v: Vec<RenderingVariable>)
        ensures
            v@ == Seq::<RenderingVariable>::empty(),
    {
        Vec::new()
    }

    /// How small and how large the button may be: not smaller than the
    /// style says.
    pub fn layouting_info(&self, hint: Option<StyleSize>) -> (info: LayoutInfo)
        ensures
            info == hinted(hint, false),
    {
        layout_of(hint, false)
    }

    /// Takes what the mouse did. The second part of the result says whether
    /// the button was clicked.
    pub fn input_event(&mut self, event: MouseEvent) -> (out: (InputEventResult, bool))
        ensures
            (final(self).pressed, out.0, out.1) == button_reaction(old(self).pressed, event.what),
            *final(self) == (QtStyleButton { pressed: final(self).pressed, ..*old(self) }),
    {
        match event.what {
            MouseEventType::MousePressed => {
                self.pressed = true;
                (InputEventResult::GrabMouse, false)
            },
            MouseEventType::MouseReleased => {
                self.pressed = false;
                (InputEventResult::EventAccepted, true)
            },
            MouseEventType::MouseExit => {
                self.pressed = false;
                (InputEventResult::GrabMouse, false)
            },
            MouseEventType::MouseMoved => {
                if self.pressed {
                    (InputEventResult::GrabMouse, false)
                } else {
                    (InputEventResult::EventIgnored, false)
                }
            },
        }
    }
}

/// A box that is checked or not.
#[derive(Debug)]
pub struct QtStyleCheckBox {
    pub x: i64,
    pub y: i64,
    pub width: i64,
    pub height: i64,
    pub text: String,
    pub checked: bool,
}

impl QtStyleCheckBox {
    /// Where the item stands.
    pub fn geometry(&self) -> (r: Rect)
        ensures
            r == (Rect { x: self.x, y: self.y, width: self.width, height: self.height }),
    {
        Rect { x: self.x, y: self.y, width: self.width, height: self.height }
    }

    /// What the style is told of the box: its text, and whether it is
    /// checked.
    pub fn style_option(&self) -> (option: StyleOption)
        ensures
            option@ == (StyleOptionView::CheckBox { text: self.text@, checked: self.checked }),
    {
        StyleOption::CheckBox { text: self.text.clone(), checked: self.checked }
    }

    /// The extent that the style is to draw.
    pub fn style_extent(&self) -> (extent: (i32, i32))
        ensures
            extent == (narrowed(self.width), narrowed(self.height)),
    {
        (narrow(self.width), narrow(self.height))
    }

    /// What is to be drawn: what the style drew of the box.
    pub fn rendering_primitive(&self, drawn: Option<StyleImage>) -> (p: HighLevelRenderingPrimitive)
        ensures
            p@ == shown(drawn),
    {
        primitive_of(drawn)
    }

    /// What the renderer needs besides: nothing.
    pub fn rendering_variables(&self) -> (v: Vec<RenderingVariable>)
        ensures
            v@ == Seq::<RenderingVariable>::empty(),
    {
        Vec::new()
    }

    /// How small and how large the box may be: as high as the style says,
    /// and not narrower than it says.
    pub fn layouting_info(&self, hint: Option<StyleSize>) -> (info: LayoutInfo)
        ensures
            info == hinted(hint, true),
    {
        layout_of(hint, true)
    }

    /// Takes what the mouse did: a release turns the box over. Every event
    /// is accepted. The second part of the result says whether the box was
    /// turned over.
    pub fn input_event(&mut self, event: MouseEvent) -> (out: (InputEventResult, bool))
        ensures
            out.0 == InputEventResult::EventAccepted,
            out.1 == (event.what == MouseEventType::MouseReleased),
            final(self).checked == (old(self).checked != out.1),
            *final(self) == (QtStyleCheckBox { checked: final(self).checked, ..*old(self) }),
    {
        match event.what {
            MouseEventType::MouseReleased => {
                self.checked = !self.checked;
                (InputEventResult::EventAccepted, true)
            },
            _ => (InputEventResult::EventAccepted, false),
        }
    }
}

/// A number with two buttons that raise and lower it.
#[derive(Clone, Copy, Debug, PartialEq, Eq, Structural)]
pub struct QtStyleSpinBox {
    pub x: i64,
    pub y: i64,
    pub width: i64,
    pub height: i64,
    pub value: i32,
    /// The part that the mouse was over at the last event.
    pub active_controls: u32,
    pub pressed: bool,
}

/// The value of a spin box after a click on one of its parts: one more for
/// the part that raises it, one less for the part that lowers it, and
/// never past the largest or the smallest number.
pub open spec fn stepped(value: i32, control: u32) -> i32 {
    if control == SPIN_BOX_UP && value < i32::MAX {
        (value + 1) as i32
    } else if control == SPIN_BOX_DOWN && value > i32::MIN {
        (value - 1) as i32
    } else {
        value
    }
}

/// What a spin box makes of what the mouse did over the part `hit`, and
/// whether anything of it changed. When the mouse has come to another
/// part, the box takes note of that part and of nothing else. Else a press
/// presses it, and a release, or the mouse leaving, ends the press and
/// steps the value. Without a style nothing happens.
pub open spec fn spin_box_reaction(item: QtStyleSpinBox, what: MouseEventType, hit: Option<u32>) -> (
    QtStyleSpinBox,
    bool,
) {
    match hit {
        None => (item, false),
        Some(control) => if control != item.active_controls {
            (QtStyleSpinBox { active_controls: control, ..item }, true)
        } else {
            match what {
                MouseEventType::MousePressed => (QtStyleSpinBox { pressed: true, ..item }, true),
                MouseEventType::MouseMoved => (item, false),
                _ => (
                    QtStyleSpinBox { pressed: false, value: stepped(item.value, control), ..item },
                    true,
                ),
            }
        },
    }
}

impl QtStyleSpinBox {
    /// Where the item stands.
    pub fn geometry(&self) -> (r: Rect)
        ensures
            r == (Rect { x: self.x, y: self.y, width: self.width, height: self.height }),
    {
        Rect { x: self.x, y: self.y, width: self.width, height: self.height }
    }

    /// What the style is told of the box: its value, the part under the
    /// mouse, and whether it is pressed.
    pub fn style_option(&self) -> (option: StyleOption)
        ensures
            option@ == (StyleOptionView::SpinBox {
                value: self.value,
                active_controls: self.active_controls,
                pressed: self.pressed,
            }),
    {
        StyleOption::SpinBox {
            value: self.value,
            active_controls: self.active_controls,
            pressed: self.pressed,
        }
    }

    /// The extent that the style is to draw.
    pub fn style_extent(&self) -> (extent: (i32, i32))
        ensures
            extent == (narrowed(self.width), narrowed(self.height)),
    {
        (narrow(self.width), narrow(self.height))
    }

    /// What is to be drawn: what the style drew of the box.
    pub fn rendering_primitive(&self, drawn: Option<StyleImage>) -> (p: HighLevelRenderingPrimitive)
        ensures
            p@ == shown(drawn),
    {
        primitive_of(drawn)
    }

    /// What the renderer needs besides: nothing.
    pub fn rendering_variables(&self) -> (v: Vec<RenderingVariable>)
        ensures
            v@ == Seq::<RenderingVariable>::empty(),
    {
        Vec::new()
    }

    /// How small and how large the box may be: as high as the style says,
    /// and not narrower than it says.
    pub fn layouting_info(&self, hint: Option<StyleSize>) -> (info: LayoutInfo)
        ensures
            info == hinted(hint, true),
    {
        layout_of(hint, true)
    }

    /// Takes what the mouse did over the part `hit`, which the style found
    /// under the mouse. Every event is accepted. The second part of the
    /// result says whether anything of the box changed.
    pub fn input_event(&mut self, event: MouseEvent, hit: Option<u32>) -> (out: (
        InputEventResult,
        bool,
    ))
        ensures
            out.0 == InputEventResult::EventAccepted,
            (*final(self), out.1) == spin_box_reaction(*old(self), event.what, hit),
    {
        let changed = match hit {
            None => false,
            Some(control) => {
                let changed = if control != self.active_controls {
                    true
                } else {
                    match event.what {
                        MouseEventType::MousePressed => {
                            self.pressed = true;
                            true
                        },
                        MouseEventType::MouseMoved => false,
                        _ => {
                            self.pressed = false;
                            if control == SPIN_BOX_UP && self.value < i32::MAX {
                                self.value = self.value + 1;
                            } else if control == SPIN_BOX_DOWN && self.value > i32::MIN {
                                self.value = self.value - 1;
                            }
                            true
                        },
                    }
                };
                self.active_controls = control;
                changed
            },
        };
        (InputEventResult::EventAccepted, changed)
    }
}

/// A handle that is dragged between a smallest and a largest value.
#[derive(Clone, Copy, Debug, PartialEq, Eq)]
pub struct QtStyleSlider {
    pub x: i64,
    pub y: i64,
    pub width: i64,
    pub height: i64,
    pub value: i64,
    pub min: i64,
    pub max: i64,
    /// The part that the mouse was over at the last event.
    pub active_controls: u32,
    /// Where the mouse was pressed, while it is.
    pub pressed_position: Option<(i64, i64)>,
    /// The value that the slider had when the mouse was pressed.
    pub pressed_val: i64,
}

/// The number between `low` and `high` that is nearest to `v`; `high` where
/// `high` is the smaller.
pub open spec fn clamped(v: int, low: int, high: int) -> int {
    let raised = if v < low {
        low
    } else {
        v
    };
    if raised > high {
        high
    } else {
        raised
    }
}

/// The value of a slider that was pressed at `pressed_x` with the value
/// `pressed_val` when the mouse has come to `x`: the way of the mouse is
/// to the width of the slider as the way of the value is to the whole
/// range. The arithmetic is that of the numbers of the language: it
/// saturates, rounds towards zero, and a division by zero gives zero.
pub open spec fn slid(pressed_val: i64, x: i64, pressed_x: i64, min: i64, max: i64, width: i32) -> int {
    let way = saturate(x - pressed_x);
    let range = saturate(max - min);
    let moved = saturate(quotient(saturate(way * range), width as int));
    clamped(saturate(pressed_val + moved), min as int, max as int)
}

/// What a slider makes of what the mouse did over the part `hit`. A press
/// keeps where it was and the value of that moment, and grabs the mouse.
/// A release, or the mouse leaving, ends the press. A move while the mouse
/// is pressed drags the value along. The slider takes note of the part
/// under the mouse. Without a style nothing happens.
pub open spec fn slider_reaction(item: QtStyleSlider, event: MouseEvent, hit: Option<u32>) -> (
    QtStyleSlider,
    InputEventResult,
) {
    match hit {
        None => (item, InputEventResult::EventIgnored),
        Some(control) => {
            let noted = QtStyleSlider { active_controls: control, ..item };
            match event.what {
                MouseEventType::MousePressed => (
                    QtStyleSlider {
                        pressed_position: Some((event.x, event.y)),
                        pressed_val: item.value,
                        ..noted
                    },
                    InputEventResult::GrabMouse,
                ),
                MouseEventType::MouseMoved => match item.pressed_position {
                    Some(position) => (
                        QtStyleSlider {
                            value: slid(
                                item.pressed_val,
                                event.x,
                                position.0,
                                item.min,
                                item.max,
                                narrowed(item.width),
                            ) as i64,
                            ..noted
                        },
                        InputEventResult::GrabMouse,
                    ),
                    None => (noted, InputEventResult::EventIgnored),
                },
                _ => (
                    QtStyleSlider { pressed_position: None, ..noted },
                    InputEventResult::EventAccepted,
                ),
            }
        },
    }
}

/// A dragged slider stays between its smallest and its largest value.
pub proof fn lemma_slid_in_range(
    pressed_val: i64,
    x: i64,
    pressed_x: i64,
    min: i64,
    max: i64,
    width: i32,
)
    requires
        min <= max,
    ensures
        min <= slid(pressed_val, x, pressed_x, min, max, width) <= max,
{
}

impl QtStyleSlider {
    /// Where the item stands.
    pub fn geometry(&self) -> (r: Rect)
        ensures
            r == (Rect { x: self.x, y: self.y, width: self.width, height: self.height }),
    {
        Rect { x: self.x, y: self.y, width: self.width, height: self.height }
    }

    /// What the style is told of the slider: its value and its limits, the
    /// part under the mouse, and whether the mouse is pressed.
    pub fn style_option(&self) -> (option: StyleOption)
        ensures
            option@ == (StyleOptionView::Slider {
                value: narrowed(self.value),
                minimum: narrowed(self.min),
                maximum: narrowed(self.max),
                active_controls: self.active_controls,
                pressed: self.pressed_position.is_some(),
            }),
    {
        StyleOption::Slider {
            value: narrow(self.value),
            minimum: narrow(self.min),
            maximum: narrow(self.max),
            active_controls: self.active_controls,
            pressed: self.pressed_position.is_some(),
        }
    }

    /// The extent that the style is to draw.
    pub fn style_extent(&self) -> (extent: (i32, i32))
        ensures
            extent == (narrowed(self.width), narrowed(self.height)),
    {
        (narrow(self.width), narrow(self.height))
    }

    /// What is to be drawn: what the style drew of the slider.
    pub fn rendering_primitive(&self, drawn: Option<StyleImage>) -> (p: HighLevelRenderingPrimitive)
        ensures
            p@ == shown(drawn),
    {
        primitive_of(drawn)
    }

    /// What the renderer needs besides: nothing.
    pub fn rendering_variables(&self) -> (v: Vec<RenderingVariable>)
        ensures
            v@ == Seq::<RenderingVariable>::empty(),
    {
        Vec::new()
    }

    /// How small and how large the slider may be: as high as the style
    /// says, and not narrower than it says.
    pub fn layouting_info(&self, hint: Option<StyleSize>) -> (info: LayoutInfo)
        ensures
            info == hinted(hint, true),
    {
        layout_of(hint, true)
    }

    /// Takes what the mouse did over the part `hit`, which the style found
    /// under the mouse.
    pub fn input_event(&mut self, event: MouseEvent, hit: Option<u32>) -> (result: InputEventResult)
        ensures
            (*final(self), result) == slider_reaction(*old(self), event, hit),
    {
        match hit {
            None => InputEventResult::EventIgnored,
            Some(control) => {
                self.active_controls = control;
                match event.what {
                    MouseEventType::MousePressed => {
                        self.pressed_position = Some((event.x, event.y));
                        self.pressed_val = self.value;
                        InputEventResult::GrabMouse
                    },
                    MouseEventType::MouseMoved => match self.pressed_position {
                        Some(position) => {
                            let way = sub_numbers(event.x, position.0);
                            let range = sub_numbers(self.max, self.min);
                            let width = narrow(self.width);
                            let moved = div_numbers(mul_numbers(way, range), width as i64);
                            let target = add_numbers(self.pressed_val, moved);
                            let raised = if target < self.min {
                                self.min
                            } else {
                                target
                            };
                            self.value = if raised > self.max {
                                self.max
                            } else {
                                raised
                            };
                            InputEventResult::GrabMouse
                        },
                        None => InputEventResult::EventIgnored,
                    },
                    _ => {
                        self.pressed_position = None;
                        InputEventResult::EventAccepted
                    },
                }
            },
        }
    }
}

} // verus!
