//! The built-in items: what each kind of item shows, how it takes part in
//! layout and how it answers the mouse.
//!
//! An item is looked at through a record of the values that its properties
//! have at the moment. The record is made from the values of the cells of
//! the item, in the order of the properties of its kind; a cell whose value
//! is not of the expected sort counts as the default of that sort. Lengths
//! and positions are whole numbers.

use vstd::prelude::*;
use crate::eval::{div_numbers, quotient, saturate, sub_numbers, Value, ValueModel};
use crate::names::same_text;

verus! {

/// How the progress of an animation follows the time.
#[derive(Clone, Copy, Debug, PartialEq, Eq, Structural)]
pub enum EasingCurve {
    /// The value moves at a constant speed.
    Linear,
    /// The value starts slowly: it follows the square of the time.
    EaseIn,
    /// The value ends slowly.
    EaseOut,
}

/// How a property moves to a new value: over `duration` milliseconds,
/// `loop_count` times, along `easing`.
#[derive(Clone, Copy, Debug, PartialEq, Eq, Structural)]
pub struct PropertyAnimation {
    pub duration: i32,
    pub loop_count: i32,
    pub easing: EasingCurve,
}

/// A rectangle: where it starts and how far it reaches.
#[derive(Clone, Copy, Debug, PartialEq, Eq, Structural)]
pub struct Rect {
    pub x: i64,
    pub y: i64,
    pub width: i64,
    pub height: i64,
}

/// Where the picture of an image item comes from.
#[derive(Debug)]
pub enum ImageSource {
    /// The item has no picture.
    Nothing,
    /// A file, by its location.
    File(String),
    /// A record of the document, by its number.
    Embedded(usize),
    /// A picture that is at hand: its rows from the top, four bytes for each
    /// point, red first.
    EmbeddedRgbaImage { width: u32, height: u32, data: Vec<u8> },
}

/// The content of an [`ImageSource`].
pub enum ImageSourceView {
    Nothing,
    File(Seq<char>),
    Embedded(usize),
    EmbeddedRgbaImage { width: u32, height: u32, data: Seq<u8> },
}

impl View for ImageSource {
    type V = ImageSourceView;

    open spec fn view(&self) -> ImageSourceView {
        match *self {
            ImageSource::Nothing => ImageSourceView::Nothing,
            ImageSource::File(s) => ImageSourceView::File(s@),
            ImageSource::Embedded(i) => ImageSourceView::Embedded(i),
            ImageSource::EmbeddedRgbaImage { width, height, data } => {
                ImageSourceView::EmbeddedRgbaImage { width, height, data: data@ }
            },
        }
    }
}

/// What a renderer has to draw for an item. It changes seldom, so that a
/// renderer can keep what it made of it.
#[derive(Debug)]
pub enum HighLevelRenderingPrimitive {
    NoContents,
    Rectangle { width: i64, height: i64 },
    BorderRectangle { width: i64, height: i64, border_width: i64, border_radius: i64 },
    Image { source: ImageSource },
    Text { text: String, font_family: String, font_size: i64, color: u32 },
    Path { width: i64, height: i64, stroke_width: i64 },
}

/// The content of a [`HighLevelRenderingPrimitive`].
pub enum PrimitiveView {
    NoContents,
    Rectangle { width: i64, height: i64 },
    BorderRectangle { width: i64, height: i64, border_width: i64, border_radius: i64 },
    Image { source: ImageSourceView },
    Text { text: Seq<char>, font_family: Seq<char>, font_size: i64, color: u32 },
    Path { width: i64, height: i64, stroke_width: i64 },
}

impl View for HighLevelRenderingPrimitive {
    type V = PrimitiveView;

    open spec fn view(&self) -> PrimitiveView {
        match *self {
            HighLevelRenderingPrimitive::NoContents => PrimitiveView::NoContents,
            HighLevelRenderingPrimitive::Rectangle { width, height } => PrimitiveView::Rectangle {
                width,
                height,
            },
            HighLevelRenderingPrimitive::BorderRectangle {
                width,
                height,
                border_width,
                border_radius,
            } => PrimitiveView::BorderRectangle { width, height, border_width, border_radius },
            HighLevelRenderingPrimitive::Image { source } => PrimitiveView::Image {
                source: source@,
            },
            HighLevelRenderingPrimitive::Text {
                text,
                font_family,
                font_size,
                color,
            } => PrimitiveView::Text {
                text: text@,
                font_family: font_family@,
                font_size,
                color,
            },
            HighLevelRenderingPrimitive::Path { width, height, stroke_width } => PrimitiveView::Path {
                width,
                height,
                stroke_width,
            },
        }
    }
}

/// What a renderer needs besides the primitive: what may change from frame
/// to frame without anything having to be made anew.
#[derive(Clone, Copy, Debug, PartialEq, Eq, Structural)]
pub enum RenderingVariable {
    Translate(i64, i64),
    Color(u32),
    ScaledWidth(i64),
    ScaledHeight(i64),
}

/// How small and how large an item may be made by a layout.
#[derive(Clone, Copy, Debug, PartialEq, Eq, Structural)]
pub struct LayoutInfo {
    pub min_width: i64,
    pub max_width: i64,
    pub min_height: i64,
    pub max_height: i64,
}

/// The sizes of an item that does not care: from nothing to anything.
pub open spec fn any_size() -> LayoutInfo {
    LayoutInfo { min_width: 0, max_width: i64::MAX, min_height: 0, max_height: i64::MAX }
}

impl Default for LayoutInfo {
    fn default() -> (info: Self)
        ensures
            info == any_size(),
    {
        LayoutInfo { min_width: 0, max_width: i64::MAX, min_height: 0, max_height: i64::MAX }
    }
}

/// What the mouse did.
#[derive(Clone, Copy, Debug, PartialEq, Eq, Structural)]
pub enum MouseEventType {
    MousePressed,
    MouseReleased,
    MouseMoved,
    MouseExit,
}

/// What the mouse did, and where.
#[derive(Clone, Copy, Debug, PartialEq, Eq, Structural)]
pub struct MouseEvent {
    pub x: i64,
    pub y: i64,
    pub what: MouseEventType,
}

/// What an item made of a mouse event.
#[derive(Clone, Copy, Debug, PartialEq, Eq, Structural)]
pub enum InputEventResult {
    EventIgnored,
    EventAccepted,
    /// The item wants the events that follow, wherever the mouse goes.
    GrabMouse,
}

/// What a text takes on the screen, measured in the font of the item by
/// whoever has the fonts.
#[derive(Clone, Copy, Debug, PartialEq, Eq, Structural)]
pub struct FontMetrics {
    pub text_width: i64,
    pub font_height: i64,
}

/// Where a text stands between the left and the right edge of its item.
#[derive(Clone, Copy, Debug, PartialEq, Eq, Structural)]
#[allow(non_camel_case_types)]
pub enum TextHorizontalAlignment {
    align_left,
    align_center,
    align_right,
}

/// Where a text stands between the top and the bottom edge of its item.
#[derive(Clone, Copy, Debug, PartialEq, Eq, Structural)]
#[allow(non_camel_case_types)]
pub enum TextVerticalAlignment {
    align_top,
    align_center,
    align_bottom,
}

impl Default for TextHorizontalAlignment {
    fn default() -> (a: Self)
        ensures
            a == TextHorizontalAlignment::align_left,
    {
        TextHorizontalAlignment::align_left
    }
}

impl Default for TextVerticalAlignment {
    fn default() -> (a: Self)
        ensures
            a == TextVerticalAlignment::align_top,
    {
        TextVerticalAlignment::align_top
    }
}

/// The alignment that a name stands for.
pub open spec fn horizontal_named(name: Seq<char>) -> Option<TextHorizontalAlignment> {
    if name == "align_left"@ {
        Some(TextHorizontalAlignment::align_left)
    } else if name == "align_center"@ {
        Some(TextHorizontalAlignment::align_center)
    } else if name == "align_right"@ {
        Some(TextHorizontalAlignment::align_right)
    } else {
        None
    }
}

/// The alignment that a name stands for.
pub open spec fn vertical_named(name: Seq<char>) -> Option<TextVerticalAlignment> {
    if name == "align_top"@ {
        Some(TextVerticalAlignment::align_top)
    } else if name == "align_center"@ {
        Some(TextVerticalAlignment::align_center)
    } else if name == "align_bottom"@ {
        Some(TextVerticalAlignment::align_bottom)
    } else {
        None
    }
}

impl TextHorizontalAlignment {
    /// The alignment that the name stands for, if it stands for one.
    pub fn from_name(name: &str) -> (a: Option<Self>)
        ensures
            a == horizontal_named(name@),
    {
        if same_text(name, "align_left") {
            Some(TextHorizontalAlignment::align_left)
        } else if same_text(name, "align_center") {
            Some(TextHorizontalAlignment::align_center)
        } else if same_text(name, "align_right") {
            Some(TextHorizontalAlignment::align_right)
        } else {
            None
        }
    }

    /// The name of the alignment.
    pub fn name(&self) -> (name: &'static str)
        ensures
            name@ == match *self {
                TextHorizontalAlignment::align_left => "align_left"@,
                TextHorizontalAlignment::align_center => "align_center"@,
                TextHorizontalAlignment::align_right => "align_right"@,
            },
    {
        match self {
            TextHorizontalAlignment::align_left => "align_left",
            TextHorizontalAlignment::align_center => "align_center",
            TextHorizontalAlignment::align_right => "align_right",
        }
    }
}

impl TextVerticalAlignment {
    /// The alignment that the name stands for, if it stands for one.
    pub fn from_name(name: &str) -> (a: Option<Self>)
        ensures
            a == vertical_named(name@),
    {
        if same_text(name, "align_top") {
            Some(TextVerticalAlignment::align_top)
        } else if same_text(name, "align_center") {
            Some(TextVerticalAlignment::align_center)
        } else if same_text(name, "align_bottom") {
            Some(TextVerticalAlignment::align_bottom)
        } else {
            None
        }
    }

    /// The name of the alignment.
    pub fn name(&self) -> (name: &'static str)
        ensures
            name@ == match *self {
                TextVerticalAlignment::align_top => "align_top"@,
                TextVerticalAlignment::align_center => "align_center"@,
                TextVerticalAlignment::align_bottom => "align_bottom"@,
            },
    {
        match self {
            TextVerticalAlignment::align_top => "align_top",
            TextVerticalAlignment::align_center => "align_center",
            TextVerticalAlignment::align_bottom => "align_bottom",
        }
    }
}

/// The number that a value stands for: nothing for what is no number.
pub open spec fn number_of(v: ValueModel) -> i64 {
    match v {
        ValueModel::Number(n) => if i64::MIN <= n <= i64::MAX {
            n as i64
        } else {
            0
        },
        _ => 0,
    }
}

/// The colour that a value stands for: none for what is no colour.
pub open spec fn color_of(v: ValueModel) -> u32 {
    match v {
        ValueModel::Color(c) => c,
        _ => 0,
    }
}

/// The truth that a value stands for: `false` for what is no truth value.
pub open spec fn bool_of(v: ValueModel) -> bool {
    v == ValueModel::Bool(true)
}

/// The text that a value stands for: the empty text for what is no text.
pub open spec fn text_of(v: ValueModel) -> Seq<char> {
    match v {
        ValueModel::String(s) => s,
        _ => Seq::empty(),
    }
}

/// The value at position `k`, `Void` beyond the end.
pub open spec fn at(values: Seq<ValueModel>, k: int) -> ValueModel {
    if 0 <= k < values.len() {
        values[k]
    } else {
        ValueModel::Void
    }
}

/// The views of the values.
pub open spec fn models(values: Seq<Value>) -> Seq<ValueModel> {
    Seq::new(values.len(), |k: int| values[k]@)
}

/// The number at position `k` of the values.
pub fn number_at(values: &Vec<Value>, k: usize) -> (n: i64)
    ensures
        n == number_of(at(models(values@), k as int)),
{
    if k < values.len() {
        match &values[k] {
            Value::Number(n) => *n,
            _ => 0,
        }
    } else {
        0
    }
}

/// The colour at position `k` of the values.
pub fn color_at(values: &Vec<Value>, k: usize) -> (c: u32)
    ensures
        c == color_of(at(models(values@), k as int)),
{
    if k < values.len() {
        match &values[k] {
            Value::Color(c) => *c,
            _ => 0,
        }
    } else {
        0
    }
}

/// The truth value at position `k` of the values.
pub fn bool_at(values: &Vec<Value>, k: usize) -> (b: bool)
    ensures
        b == bool_of(at(models(values@), k as int)),
{
    if k < values.len() {
        match &values[k] {
            Value::Bool(b) => *b,
            _ => false,
        }
    } else {
        false
    }
}

/// The text at position `k` of the values.
pub fn text_at(values: &Vec<Value>, k: usize) -> (s: String)
    ensures
        s@ == text_of(at(models(values@), k as int)),
{
    if k < values.len() {
        match &values[k] {
            Value::String(s) => s.clone(),
            _ => String::new(),
        }
    } else {
        String::new()
    }
}

/// What every item can be asked.
pub trait Item: Sized {
    /// Where the item stands, seen from the item that holds it.
    spec fn place(&self) -> Rect;

    /// What is to be drawn for the item.
    spec fn primitive(&self) -> PrimitiveView;

    /// What the renderer needs besides.
    spec fn variables(&self, font: FontMetrics) -> Seq<RenderingVariable>;

    /// How small and how large the item may be.
    spec fn sizes(&self, font: FontMetrics) -> LayoutInfo;

    /// What a mouse event comes to: the item afterwards, what the item made
    /// of the event, and whether the item emits its signal.
    spec fn reaction(&self, event: MouseEvent) -> (Self, InputEventResult, bool);

    /// Where the item stands, seen from the item that holds it.
    fn geometry(&self) -> (r: Rect)
        ensures
            r == self.place(),
    ;

    /// What is to be drawn for the item.
    fn rendering_primitive(&self) -> (p: HighLevelRenderingPrimitive)
        ensures
            p@ == self.primitive(),
    ;

    /// What the renderer needs besides the primitive.
    fn rendering_variables(&self, font: FontMetrics) -> (v: Vec<RenderingVariable>)
        ensures
            v@ == self.variables(font),
    ;

    /// How small and how large the item may be.
    fn layouting_info(&self, font: FontMetrics) -> (info: LayoutInfo)
        ensures
            info == self.sizes(font),
    ;

    /// Lets the item answer a mouse event. Says what the item made of the
    /// event and whether the item emits its signal.
    fn input_event(&mut self, event: MouseEvent) -> (out: (InputEventResult, bool))
        ensures
            (*final(self), out.0, out.1) == old(self).reaction(event),
    ;
}

/// A filled rectangle.
#[derive(Clone, Copy, Debug, PartialEq, Eq, Structural)]
pub struct Rectangle {
    pub x: i64,
    pub y: i64,
    pub width: i64,
    pub height: i64,
    pub color: u32,
}

impl Rectangle {
    /// The rectangle that the values of the cells of the item stand for.
    pub open spec fn of(values: Seq<ValueModel>) -> Rectangle {
        Rectangle {
            x: number_of(at(values, 0)),
            y: number_of(at(values, 1)),
            width: number_of(at(values, 2)),
            height: number_of(at(values, 3)),
            color: color_of(at(values, 4)),
        }
    }

    /// The record of a rectangle item with the given values in its cells.
    pub fn from_values(values: &Vec<Value>) -> (item: Self)
        ensures
            item == Self::of(models(values@)),
    {
        Rectangle {
            x: number_at(values, 0),
            y: number_at(values, 1),
            width: number_at(values, 2),
            height: number_at(values, 3),
            color: color_at(values, 4),
        }
    }
}

impl Item for Rectangle {
    open spec fn place(&self) -> Rect {
        Rect { x: self.x, y: self.y, width: self.width, height: self.height }
    }

    open spec fn primitive(&self) -> PrimitiveView {
        if self.width > 0 && self.height > 0 {
            PrimitiveView::Rectangle { width: self.width, height: self.height }
        } else {
            PrimitiveView::NoContents
        }
    }

    open spec fn variables(&self, font: FontMetrics) -> Seq<RenderingVariable> {
        seq![RenderingVariable::Color(self.color)]
    }

    open spec fn sizes(&self, font: FontMetrics) -> LayoutInfo {
        any_size()
    }

    open spec fn reaction(&self, event: MouseEvent) -> (Self, InputEventResult, bool) {
        (*self, InputEventResult::EventIgnored, false)
    }

    fn geometry(&self) -> (r: Rect) {
        Rect { x: self.x, y: self.y, width: self.width, height: self.height }
    }

    fn rendering_primitive(&self) -> (p: HighLevelRenderingPrimitive) {
        if self.width > 0 && self.height > 0 {
            HighLevelRenderingPrimitive::Rectangle { width: self.width, height: self.height }
        } else {
            HighLevelRenderingPrimitive::NoContents
        }
    }

    fn rendering_variables(&self, font: FontMetrics) -> (v: Vec<RenderingVariable>) {
        let mut v: Vec<RenderingVariable> = Vec::new();
        v.push(RenderingVariable::Color(self.color));
        assert(v@ =~= seq![RenderingVariable::Color(self.color)]);
        v
    }

    fn layouting_info(&self, font: FontMetrics) -> (info: LayoutInfo) {
        LayoutInfo::default()
    }

    fn input_event(&mut self, event: MouseEvent) -> (out: (InputEventResult, bool)) {
        (InputEventResult::EventIgnored, false)
    }
}

/// A rectangle with a border.
#[derive(Clone, Copy, Debug, PartialEq, Eq, Structural)]
pub struct BorderRectangle {
    pub x: i64,
    pub y: i64,
    pub width: i64,
    pub height: i64,
    pub color: u32,
    pub border_width: i64,
    pub border_radius: i64,
    pub border_color: u32,
}

impl BorderRectangle {
    /// The item that the values of its cells stand for.
    pub open spec fn of(values: Seq<ValueModel>) -> BorderRectangle {
        BorderRectangle {
            x: number_of(at(values, 0)),
            y: number_of(at(values, 1)),
            width: number_of(at(values, 2)),
            height: number_of(at(values, 3)),
            color: color_of(at(values, 4)),
            border_width: number_of(at(values, 5)),
            border_radius: number_of(at(values, 6)),
            border_color: color_of(at(values, 7)),
        }
    }

    /// The record of an item with the given values in its cells.
    pub fn from_values(values: &Vec<Value>) -> (item: Self)
        ensures
            item == Self::of(models(values@)),
    {
        BorderRectangle {
            x: number_at(values, 0),
            y: number_at(values, 1),
            width: number_at(values, 2),
            height: number_at(values, 3),
            color: color_at(values, 4),
            border_width: number_at(values, 5),
            border_radius: number_at(values, 6),
            border_color: color_at(values, 7),
        }
    }
}

impl Item for BorderRectangle {
    open spec fn place(&self) -> Rect {
        Rect { x: self.x, y: self.y, width: self.width, height: self.height }
    }

    open spec fn primitive(&self) -> PrimitiveView {
        if self.width > 0 && self.height > 0 {
            PrimitiveView::BorderRectangle {
                width: self.width,
                height: self.height,
                border_width: self.border_width,
                border_radius: self.border_radius,
            }
        } else {
            PrimitiveView::NoContents
        }
    }

    open spec fn variables(&self, font: FontMetrics) -> Seq<RenderingVariable> {
        seq![RenderingVariable::Color(self.color), RenderingVariable::Color(self.border_color)]
    }

    open spec fn sizes(&self, font: FontMetrics) -> LayoutInfo {
        any_size()
    }

    open spec fn reaction(&self, event: MouseEvent) -> (Self, InputEventResult, bool) {
        (*self, InputEventResult::EventIgnored, false)
    }

    fn geometry(&self) -> (r: Rect) {
        Rect { x: self.x, y: self.y, width: self.width, height: self.height }
    }

    fn rendering_primitive(&self) -> (p: HighLevelRenderingPrimitive) {
        if self.width > 0 && self.height > 0 {
            HighLevelRenderingPrimitive::BorderRectangle {
                width: self.width,
                height: self.height,
                border_width: self.border_width,
                border_radius: self.border_radius,
            }
        } else {
            HighLevelRenderingPrimitive::NoContents
        }
    }

    fn rendering_variables(&self, font: FontMetrics) -> (v: Vec<RenderingVariable>) {
        let mut v: Vec<RenderingVariable> = Vec::new();
        v.push(RenderingVariable::Color(self.color));
        v.push(RenderingVariable::Color(self.border_color));
        assert(v@ =~= seq![
            RenderingVariable::Color(self.color),
            RenderingVariable::Color(self.border_color),
        ]);
        v
    }

    fn layouting_info(&self, font: FontMetrics) -> (info: LayoutInfo) {
        LayoutInfo::default()
    }

    fn input_event(&mut self, event: MouseEvent) -> (out: (InputEventResult, bool)) {
        (InputEventResult::EventIgnored, false)
    }
}

/// A picture.
#[derive(Debug)]
pub struct Image {
    pub x: i64,
    pub y: i64,
    pub width: i64,
    pub height: i64,
    pub source: ImageSource,
}

/// The source that a value stands for.
pub open spec fn source_of(v: ValueModel) -> ImageSourceView {
    match v {
        ValueModel::Resource(location) => ImageSourceView::File(location),
        ValueModel::EmbeddedResource(i) => ImageSourceView::Embedded(i),
        _ => ImageSourceView::Nothing,
    }
}

/// What an image item is, with the views of what it holds.
pub struct ImageView {
    pub x: i64,
    pub y: i64,
    pub width: i64,
    pub height: i64,
    pub source: ImageSourceView,
}

impl View for Image {
    type V = ImageView;

    open spec fn view(&self) -> ImageView {
        ImageView {
            x: self.x,
            y: self.y,
            width: self.width,
            height: self.height,
            source: self.source@,
        }
    }
}

/// The scale factors of an image: one for each extent that is given.
pub open spec fn scale_variables(width: i64, height: i64) -> Seq<RenderingVariable> {
    (if width > 0 {
        seq![RenderingVariable::ScaledWidth(width)]
    } else {
        Seq::empty()
    }) + (if height > 0 {
        seq![RenderingVariable::ScaledHeight(height)]
    } else {
        Seq::empty()
    })
}

impl Image {
    /// The item that the values of its cells stand for.
    pub open spec fn of(values: Seq<ValueModel>) -> ImageView {
        ImageView {
            x: number_of(at(values, 0)),
            y: number_of(at(values, 1)),
            width: number_of(at(values, 2)),
            height: number_of(at(values, 3)),
            source: source_of(at(values, 4)),
        }
    }

    /// The record of an item with the given values in its cells.
    pub fn from_values(values: &Vec<Value>) -> (item: Self)
        ensures
            item@ == Self::of(models(values@)),
    {
        let source = if 4 < values.len() {
            match &values[4] {
                Value::Resource(location) => ImageSource::File(location.clone()),
                Value::EmbeddedResource(i) => ImageSource::Embedded(*i),
                _ => ImageSource::Nothing,
            }
        } else {
            ImageSource::Nothing
        };
        Image {
            x: number_at(values, 0),
            y: number_at(values, 1),
            width: number_at(values, 2),
            height: number_at(values, 3),
            source,
        }
    }

    /// Where the item stands.
    pub fn geometry(&self) -> (r: Rect)
        ensures
            r == (Rect { x: self.x, y: self.y, width: self.width, height: self.height }),
    {
        Rect { x: self.x, y: self.y, width: self.width, height: self.height }
    }

    /// What is to be drawn: the picture.
    pub fn rendering_primitive(&self) -> (p: HighLevelRenderingPrimitive)
        ensures
            p@ == (PrimitiveView::Image { source: self.source@ }),
    {
        let source = match &self.source {
            ImageSource::Nothing => ImageSource::Nothing,
            ImageSource::File(location) => ImageSource::File(location.clone()),
            ImageSource::Embedded(i) => ImageSource::Embedded(*i),
            ImageSource::EmbeddedRgbaImage { width, height, data } => {
                let copy = data.clone();
                assert(copy@ =~= data@);
                ImageSource::EmbeddedRgbaImage { width: *width, height: *height, data: copy }
            },
        };
        HighLevelRenderingPrimitive::Image { source }
    }

    /// What the renderer needs besides: the extents to which the picture is
    /// scaled, as far as they are given.
    pub fn rendering_variables(&self) -> (v: Vec<RenderingVariable>)
        ensures
            v@ == scale_variables(self.width, self.height),
    {
        let mut v: Vec<RenderingVariable> = Vec::new();
        if self.width > 0 {
            v.push(RenderingVariable::ScaledWidth(self.width));
        }
        if self.height > 0 {
            v.push(RenderingVariable::ScaledHeight(self.height));
        }
        assert(v@ =~= scale_variables(self.width, self.height));
        v
    }

    /// How small and how large the item may be: it does not care.
    pub fn layouting_info(&self) -> (info: LayoutInfo)
        ensures
            info == any_size(),
    {
        LayoutInfo::default()
    }

    /// An image does not answer the mouse.
    pub fn input_event(&self, event: MouseEvent) -> (r: InputEventResult)
        ensures
            r == InputEventResult::EventIgnored,
    {
        InputEventResult::EventIgnored
    }
}

/// A text.
#[derive(Debug)]
pub struct Text {
    pub x: i64,
    pub y: i64,
    pub width: i64,
    pub height: i64,
    pub text: String,
    pub font_family: String,
    pub font_size: i64,
    pub color: u32,
    pub horizontal_alignment: TextHorizontalAlignment,
    pub vertical_alignment: TextVerticalAlignment,
}

/// What a text item is, with the views of what it holds.
pub struct TextView {
    pub x: i64,
    pub y: i64,
    pub width: i64,
    pub height: i64,
    pub text: Seq<char>,
    pub font_family: Seq<char>,
    pub font_size: i64,
    pub color: u32,
    pub horizontal_alignment: TextHorizontalAlignment,
    pub vertical_alignment: TextVerticalAlignment,
}

impl View for Text {
    type V = TextView;

    open spec fn view(&self) -> TextView {
        TextView {
            x: self.x,
            y: self.y,
            width: self.width,
            height: self.height,
            text: self.text@,
            font_family: self.font_family@,
            font_size: self.font_size,
            color: self.color,
            horizontal_alignment: self.horizontal_alignment,
            vertical_alignment: self.vertical_alignment,
        }
    }
}

/// How far a text is moved so that it stands as its alignment says: not at
/// all at the start, by half of what is left over in the middle, by all of
/// it at the end.
pub open spec fn aligned(extent: i64, taken: i64, position: int) -> int {
    if position == 0 {
        0
    } else if position == 1 {
        saturate(saturate(quotient(extent as int, 2)) - saturate(quotient(taken as int, 2)))
    } else {
        saturate(extent - taken)
    }
}

/// The place of a horizontal alignment: start, middle or end.
pub open spec fn horizontal_position(a: TextHorizontalAlignment) -> int {
    match a {
        TextHorizontalAlignment::align_left => 0,
        TextHorizontalAlignment::align_center => 1,
        TextHorizontalAlignment::align_right => 2,
    }
}

/// The place of a vertical alignment: start, middle or end.
pub open spec fn vertical_position(a: TextVerticalAlignment) -> int {
    match a {
        TextVerticalAlignment::align_top => 0,
        TextVerticalAlignment::align_center => 1,
        TextVerticalAlignment::align_bottom => 2,
    }
}

/// The sizes of a text: it is at least as wide as it is written and
/// exactly as high as its font.
pub open spec fn text_sizes(font: FontMetrics) -> LayoutInfo {
    LayoutInfo {
        min_width: font.text_width,
        max_width: i64::MAX,
        min_height: font.font_height,
        max_height: font.font_height,
    }
}

/// How far a text is moved along one direction.
fn align(extent: i64, taken: i64, position: u8) -> (moved: i64)
    ensures
        moved == aligned(extent, taken, position as int),
{
    if position == 0 {
        0
    } else if position == 1 {
        sub_numbers(div_numbers(extent, 2), div_numbers(taken, 2))
    } else {
        sub_numbers(extent, taken)
    }
}

impl Text {
    /// The item that the values of its cells stand for. An alignment that
    /// is not named correctly counts as the first.
    pub open spec fn of(values: Seq<ValueModel>) -> TextView {
        TextView {
            x: number_of(at(values, 0)),
            y: number_of(at(values, 1)),
            width: number_of(at(values, 2)),
            height: number_of(at(values, 3)),
            text: text_of(at(values, 4)),
            font_family: text_of(at(values, 5)),
            font_size: number_of(at(values, 6)),
            color: color_of(at(values, 7)),
            horizontal_alignment: match horizontal_named(text_of(at(values, 8))) {
                Some(a) => a,
                None => TextHorizontalAlignment::align_left,
            },
            vertical_alignment: match vertical_named(text_of(at(values, 9))) {
                Some(a) => a,
                None => TextVerticalAlignment::align_top,
            },
        }
    }

    /// The record of an item with the given values in its cells.
    pub fn from_values(values: &Vec<Value>) -> (item: Self)
        ensures
            item@ == Self::of(models(values@)),
    {
        let horizontal = text_at(values, 8);
        let vertical = text_at(values, 9);
        Text {
            x: number_at(values, 0),
            y: number_at(values, 1),
            width: number_at(values, 2),
            height: number_at(values, 3),
            text: text_at(values, 4),
            font_family: text_at(values, 5),
            font_size: number_at(values, 6),
            color: color_at(values, 7),
            horizontal_alignment: match TextHorizontalAlignment::from_name(horizontal.as_str()) {
                Some(a) => a,
                None => TextHorizontalAlignment::align_left,
            },
            vertical_alignment: match TextVerticalAlignment::from_name(vertical.as_str()) {
                Some(a) => a,
                None => TextVerticalAlignment::align_top,
            },
        }
    }

    /// Where the item stands.
    pub fn geometry(&self) -> (r: Rect)
        ensures
            r == (Rect { x: self.x, y: self.y, width: self.width, height: self.height }),
    {
        Rect { x: self.x, y: self.y, width: self.width, height: self.height }
    }

    /// What is to be drawn: the text in its font and colour.
    pub fn rendering_primitive(&self) -> (p: HighLevelRenderingPrimitive)
        ensures
            p@ == (PrimitiveView::Text {
                text: self.text@,
                font_family: self.font_family@,
                font_size: self.font_size,
                color: self.color,
            }),
    {
        HighLevelRenderingPrimitive::Text {
            text: self.text.clone(),
            font_family: self.font_family.clone(),
            font_size: self.font_size,
            color: self.color,
        }
    }

    /// How small and how large the item may be, given what its text takes.
    pub fn layouting_info(&self, font: FontMetrics) -> (info: LayoutInfo)
        ensures
            info == text_sizes(font),
    {
        LayoutInfo {
            min_width: font.text_width,
            max_width: i64::MAX,
            min_height: font.font_height,
            max_height: font.font_height,
        }
    }

    /// What the renderer needs besides: how far the text is moved inside
    /// the item so that it is aligned.
    pub fn rendering_variables(&self, font: FontMetrics) -> (v: Vec<RenderingVariable>)
        ensures
            v@ == seq![
                RenderingVariable::Translate(
                    aligned(
                        self.width,
                        font.text_width,
                        horizontal_position(self.horizontal_alignment),
                    ) as i64,
                    aligned(
                        self.height,
                        font.font_height,
                        vertical_position(self.vertical_alignment),
                    ) as i64,
                ),
            ],
    {
        let info = self.layouting_info(font);
        let horizontal: u8 = match self.horizontal_alignment {
            TextHorizontalAlignment::align_left => 0,
            TextHorizontalAlignment::align_center => 1,
            TextHorizontalAlignment::align_right => 2,
        };
        let vertical: u8 = match self.vertical_alignment {
            TextVerticalAlignment::align_top => 0,
            TextVerticalAlignment::align_center => 1,
            TextVerticalAlignment::align_bottom => 2,
        };
        let x = align(self.width, info.min_width, horizontal);
        let y = align(self.height, info.min_height, vertical);
        let mut v: Vec<RenderingVariable> = Vec::new();
        v.push(RenderingVariable::Translate(x, y));
        assert(v@ =~= seq![RenderingVariable::Translate(x, y)]);
        v
    }

    /// A text does not answer the mouse.
    pub fn input_event(&self, event: MouseEvent) -> (r: InputEventResult)
        ensures
            r == InputEventResult::EventIgnored,
    {
        InputEventResult::EventIgnored
    }
}

/// An area that answers the mouse.
#[derive(Clone, Copy, Debug, PartialEq, Eq, Structural)]
pub struct TouchArea {
    pub x: i64,
    pub y: i64,
    pub width: i64,
    pub height: i64,
    pub pressed: bool,
    pub pressed_x: i64,
    pub pressed_y: i64,
    pub mouse_x: i64,
    pub mouse_y: i64,
}

impl TouchArea {
    /// The item that the values of its cells stand for.
    pub open spec fn of(values: Seq<ValueModel>) -> TouchArea {
        TouchArea {
            x: number_of(at(values, 0)),
            y: number_of(at(values, 1)),
            width: number_of(at(values, 2)),
            height: number_of(at(values, 3)),
            pressed: bool_of(at(values, 4)),
            pressed_x: number_of(at(values, 5)),
            pressed_y: number_of(at(values, 6)),
            mouse_x: number_of(at(values, 7)),
            mouse_y: number_of(at(values, 8)),
        }
    }

    /// The record of an item with the given values in its cells.
    pub fn from_values(values: &Vec<Value>) -> (item: Self)
        ensures
            item == Self::of(models(values@)),
    {
        TouchArea {
            x: number_at(values, 0),
            y: number_at(values, 1),
            width: number_at(values, 2),
            height: number_at(values, 3),
            pressed: bool_at(values, 4),
            pressed_x: number_at(values, 5),
            pressed_y: number_at(values, 6),
            mouse_x: number_at(values, 7),
            mouse_y: number_at(values, 8),
        }
    }
}

impl Item for TouchArea {
    open spec fn place(&self) -> Rect {
        Rect { x: self.x, y: self.y, width: self.width, height: self.height }
    }

    open spec fn primitive(&self) -> PrimitiveView {
        PrimitiveView::NoContents
    }

    open spec fn variables(&self, font: FontMetrics) -> Seq<RenderingVariable> {
        Seq::empty()
    }

    open spec fn sizes(&self, font: FontMetrics) -> LayoutInfo {
        any_size()
    }

    /// The area keeps where the mouse is. A press makes it pressed, keeps
    /// where it was pressed and grabs the mouse. A release ends the press
    /// and is a click: the area accepts the event and emits its signal.
    /// When the mouse leaves, the press ends. A move changes nothing; the
    /// area keeps the mouse while it is pressed and ignores the move
    /// otherwise.
    open spec fn reaction(&self, event: MouseEvent) -> (Self, InputEventResult, bool) {
        let moved = TouchArea { mouse_x: event.x, mouse_y: event.y, ..*self };
        match event.what {
            MouseEventType::MousePressed => (
                TouchArea { pressed: true, pressed_x: event.x, pressed_y: event.y, ..moved },
                InputEventResult::GrabMouse,
                false,
            ),
            MouseEventType::MouseReleased => (
                TouchArea { pressed: false, ..moved },
                InputEventResult::EventAccepted,
                true,
            ),
            MouseEventType::MouseExit => (
                TouchArea { pressed: false, ..moved },
                InputEventResult::GrabMouse,
                false,
            ),
            MouseEventType::MouseMoved => (
                moved,
                if self.pressed {
                    InputEventResult::GrabMouse
                } else {
                    InputEventResult::EventIgnored
                },
                false,
            ),
        }
    }

    fn geometry(&self) -> (r: Rect) {
        Rect { x: self.x, y: self.y, width: self.width, height: self.height }
    }

    fn rendering_primitive(&self) -> (p: HighLevelRenderingPrimitive) {
        HighLevelRenderingPrimitive::NoContents
    }

    fn rendering_variables(&self, font: FontMetrics) -> (v: Vec<RenderingVariable>) {
        Vec::new()
    }

    fn layouting_info(&self, font: FontMetrics) -> (info: LayoutInfo) {
        LayoutInfo::default()
    }

    fn input_event(&mut self, event: MouseEvent) -> (out: (InputEventResult, bool)) {
        self.mouse_x = event.x;
        self.mouse_y = event.y;
        let (result, clicked) = match event.what {
            MouseEventType::MouseReleased => (InputEventResult::EventAccepted, true),
            _ => (InputEventResult::GrabMouse, false),
        };
        match event.what {
            MouseEventType::MousePressed => {
                self.pressed_x = event.x;
                self.pressed_y = event.y;
                self.pressed = true;
            },
            MouseEventType::MouseExit => {
                self.pressed = false;
            },
            MouseEventType::MouseReleased => {
                self.pressed = false;
            },
            MouseEventType::MouseMoved => {
                return if self.pressed {
                    (InputEventResult::GrabMouse, false)
                } else {
                    (InputEventResult::EventIgnored, false)
                };
            },
        }
        (result, clicked)
    }
}

/// A drawn path.
#[derive(Clone, Copy, Debug, PartialEq, Eq, Structural)]
pub struct Path {
    pub x: i64,
    pub y: i64,
    pub width: i64,
    pub height: i64,
    pub fill_color: u32,
    pub stroke_color: u32,
    pub stroke_width: i64,
}

impl Path {
    /// The item that the values of its cells stand for.
    pub open spec fn of(values: Seq<ValueModel>) -> Path {
        Path {
            x: number_of(at(values, 0)),
            y: number_of(at(values, 1)),
            width: number_of(at(values, 2)),
            height: number_of(at(values, 3)),
            fill_color: color_of(at(values, 4)),
            stroke_color: color_of(at(values, 5)),
            stroke_width: number_of(at(values, 6)),
        }
    }

    /// The record of an item with the given values in its cells.
    pub fn from_values(values: &Vec<Value>) -> (item: Self)
        ensures
            item == Self::of(models(values@)),
    {
        Path {
            x: number_at(values, 0),
            y: number_at(values, 1),
            width: number_at(values, 2),
            height: number_at(values, 3),
            fill_color: color_at(values, 4),
            stroke_color: color_at(values, 5),
            stroke_width: number_at(values, 6),
        }
    }
}

impl Item for Path {
    /// A path has a position and no extent of its own.
    open spec fn place(&self) -> Rect {
        Rect { x: self.x, y: self.y, width: 0, height: 0 }
    }

    open spec fn primitive(&self) -> PrimitiveView {
        PrimitiveView::Path {
            width: self.width,
            height: self.height,
            stroke_width: self.stroke_width,
        }
    }

    open spec fn variables(&self, font: FontMetrics) -> Seq<RenderingVariable> {
        seq![RenderingVariable::Color(self.fill_color), RenderingVariable::Color(self.stroke_color)]
    }

    open spec fn sizes(&self, font: FontMetrics) -> LayoutInfo {
        any_size()
    }

    open spec fn reaction(&self, event: MouseEvent) -> (Self, InputEventResult, bool) {
        (*self, InputEventResult::EventIgnored, false)
    }

    fn geometry(&self) -> (r: Rect) {
        Rect { x: self.x, y: self.y, width: 0, height: 0 }
    }

    fn rendering_primitive(&self) -> (p: HighLevelRenderingPrimitive) {
        HighLevelRenderingPrimitive::Path {
            width: self.width,
            height: self.height,
            stroke_width: self.stroke_width,
        }
    }

    fn rendering_variables(&self, font: FontMetrics) -> (v: Vec<RenderingVariable>) {
        let mut v: Vec<RenderingVariable> = Vec::new();
        v.push(RenderingVariable::Color(self.fill_color));
        v.push(RenderingVariable::Color(self.stroke_color));
        assert(v@ =~= seq![
            RenderingVariable::Color(self.fill_color),
            RenderingVariable::Color(self.stroke_color),
        ]);
        v
    }

    fn layouting_info(&self, font: FontMetrics) -> (info: LayoutInfo) {
        LayoutInfo::default()
    }

    fn input_event(&mut self, event: MouseEvent) -> (out: (InputEventResult, bool)) {
        (InputEventResult::EventIgnored, false)
    }
}

/// A window onto a larger area that can be moved under it.
#[derive(Clone, Copy, Debug, PartialEq, Eq, Structural)]
pub struct Flickable {
    pub x: i64,
    pub y: i64,
    pub width: i64,
    pub height: i64,
    /// The area that is looked at.
    pub viewport: Rect,
}

impl Flickable {
    /// The item that the values of its cells stand for.
    pub open spec fn of(values: Seq<ValueModel>) -> Flickable {
        Flickable {
            x: number_of(at(values, 0)),
            y: number_of(at(values, 1)),
            width: number_of(at(values, 2)),
            height: number_of(at(values, 3)),
            viewport: Rect {
                x: number_of(at(values, 4)),
                y: number_of(at(values, 5)),
                width: number_of(at(values, 6)),
                height: number_of(at(values, 7)),
            },
        }
    }

    /// The record of an item with the given values in its cells.
    pub fn from_values(values: &Vec<Value>) -> (item: Self)
        ensures
            item == Self::of(models(values@)),
    {
        Flickable {
            x: number_at(values, 0),
            y: number_at(values, 1),
            width: number_at(values, 2),
            height: number_at(values, 3),
            viewport: Rect {
                x: number_at(values, 4),
                y: number_at(values, 5),
                width: number_at(values, 6),
                height: number_at(values, 7),
            },
        }
    }
}

impl Item for Flickable {
    open spec fn place(&self) -> Rect {
        Rect { x: self.x, y: self.y, width: self.width, height: self.height }
    }

    open spec fn primitive(&self) -> PrimitiveView {
        PrimitiveView::NoContents
    }

    open spec fn variables(&self, font: FontMetrics) -> Seq<RenderingVariable> {
        Seq::empty()
    }

    open spec fn sizes(&self, font: FontMetrics) -> LayoutInfo {
        any_size()
    }

    /// A flickable takes every mouse event for itself.
    open spec fn reaction(&self, event: MouseEvent) -> (Self, InputEventResult, bool) {
        (*self, InputEventResult::EventAccepted, false)
    }

    fn geometry(&self) -> (r: Rect) {
        Rect { x: self.x, y: self.y, width: self.width, height: self.height }
    }

    fn rendering_primitive(&self) -> (p: HighLevelRenderingPrimitive) {
        HighLevelRenderingPrimitive::NoContents
    }

    fn rendering_variables(&self, font: FontMetrics) -> (v: Vec<RenderingVariable>) {
        Vec::new()
    }

    fn layouting_info(&self, font: FontMetrics) -> (info: LayoutInfo) {
        LayoutInfo::default()
    }

    fn input_event(&mut self, event: MouseEvent) -> (out: (InputEventResult, bool)) {
        (InputEventResult::EventAccepted, false)
    }
}

/// The window that holds everything.
#[derive(Clone, Copy, Debug, PartialEq, Eq, Structural)]
pub struct Window {
    pub width: i64,
    pub height: i64,
}

impl Window {
    /// The item that the values of its cells stand for.
    pub open spec fn of(values: Seq<ValueModel>) -> Window {
        Window { width: number_of(at(values, 2)), height: number_of(at(values, 3)) }
    }

    /// The record of an item with the given values in its cells.
    pub fn from_values(values: &Vec<Value>) -> (item: Self)
        ensures
            item == Self::of(models(values@)),
    {
        Window { width: number_at(values, 2), height: number_at(values, 3) }
    }
}

impl Item for Window {
    /// A window starts where everything starts.
    open spec fn place(&self) -> Rect {
        Rect { x: 0, y: 0, width: self.width, height: self.height }
    }

    open spec fn primitive(&self) -> PrimitiveView {
        PrimitiveView::NoContents
    }

    open spec fn variables(&self, font: FontMetrics) -> Seq<RenderingVariable> {
        Seq::empty()
    }

    open spec fn sizes(&self, font: FontMetrics) -> LayoutInfo {
        any_size()
    }

    open spec fn reaction(&self, event: MouseEvent) -> (Self, InputEventResult, bool) {
        (*self, InputEventResult::EventIgnored, false)
    }

    fn geometry(&self) -> (r: Rect) {
        Rect { x: 0, y: 0, width: self.width, height: self.height }
    }

    fn rendering_primitive(&self) -> (p: HighLevelRenderingPrimitive) {
        HighLevelRenderingPrimitive::NoContents
    }

    fn rendering_variables(&self, font: FontMetrics) -> (v: Vec<RenderingVariable>) {
        Vec::new()
    }

    fn layouting_info(&self, font: FontMetrics) -> (info: LayoutInfo) {
        LayoutInfo::default()
    }

    fn input_event(&mut self, event: MouseEvent) -> (out: (InputEventResult, bool)) {
        (InputEventResult::EventIgnored, false)
    }
}

} // verus!
