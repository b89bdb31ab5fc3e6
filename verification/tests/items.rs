use sixtyfps_interpreter::eval::Value;
use sixtyfps_interpreter::items::{
    BorderRectangle, Flickable, FontMetrics, HighLevelRenderingPrimitive, Image, ImageSource,
    InputEventResult, Item, LayoutInfo, MouseEvent, MouseEventType, Path, Rect, Rectangle,
    RenderingVariable, Text, TextHorizontalAlignment, TextVerticalAlignment, TouchArea, Window,
};

fn numbers(values: &[i64]) -> Vec<Value> {
    values.iter().map(|n| Value::Number(*n)).collect()
}

fn font() -> FontMetrics {
    FontMetrics { text_width: 41, font_height: 13 }
}

fn anything() -> LayoutInfo {
    LayoutInfo { min_width: 0, max_width: i64::MAX, min_height: 0, max_height: i64::MAX }
}

#[test]
fn rectangle_shows_itself_when_it_has_an_extent() {
    let mut values = numbers(&[1, 2, 30, 40]);
    values.push(Value::Color(0xff00ff00));
    let mut item = Rectangle::from_values(&values);
    assert_eq!(item.geometry(), Rect { x: 1, y: 2, width: 30, height: 40 });
    assert!(matches!(
        item.rendering_primitive(),
        HighLevelRenderingPrimitive::Rectangle { width: 30, height: 40 }
    ));
    assert_eq!(item.rendering_variables(font()), vec![RenderingVariable::Color(0xff00ff00)]);
    assert_eq!(item.layouting_info(font()), anything());
    let event = MouseEvent { x: 1, y: 1, what: MouseEventType::MousePressed };
    assert_eq!(item.input_event(event), (InputEventResult::EventIgnored, false));
    for (width, height) in [(0, 40), (30, 0), (-1, 5)] {
        let flat = Rectangle { width, height, ..item };
        assert!(matches!(flat.rendering_primitive(), HighLevelRenderingPrimitive::NoContents));
    }
    // What is missing or of the wrong sort counts as nothing.
    let sparse = Rectangle::from_values(&vec![Value::Bool(true), Value::Number(7)]);
    assert_eq!(sparse, Rectangle { x: 0, y: 7, width: 0, height: 0, color: 0 });
}

#[test]
fn border_rectangle_has_two_colours() {
    let mut values = numbers(&[0, 0, 10, 10]);
    values.extend([Value::Color(1), Value::Number(2), Value::Number(3), Value::Color(4)]);
    let item = BorderRectangle::from_values(&values);
    assert!(matches!(
        item.rendering_primitive(),
        HighLevelRenderingPrimitive::BorderRectangle {
            width: 10,
            height: 10,
            border_width: 2,
            border_radius: 3
        }
    ));
    assert_eq!(
        item.rendering_variables(font()),
        vec![RenderingVariable::Color(1), RenderingVariable::Color(4)]
    );
    let flat = BorderRectangle { height: 0, ..item };
    assert!(matches!(flat.rendering_primitive(), HighLevelRenderingPrimitive::NoContents));
}

#[test]
fn image_is_scaled_to_the_extents_that_are_given() {
    let mut values = numbers(&[0, 0, 64, 0]);
    values.push(Value::Resource("logo.png".to_string()));
    let item = Image::from_values(&values);
    match item.rendering_primitive() {
        HighLevelRenderingPrimitive::Image { source: ImageSource::File(location) } => {
            assert_eq!(location, "logo.png")
        }
        other => panic!("not an image: {:?}", other),
    }
    assert_eq!(item.rendering_variables(), vec![RenderingVariable::ScaledWidth(64)]);
    assert_eq!(Image { height: 8, ..item }.rendering_variables().len(), 2);
    let mut embedded = numbers(&[0, 0, 0, 0]);
    embedded.push(Value::EmbeddedResource(3));
    let item = Image::from_values(&embedded);
    assert!(matches!(item.source, ImageSource::Embedded(3)));
    assert!(item.rendering_variables().is_empty());
    assert!(matches!(Image::from_values(&numbers(&[0; 5])).source, ImageSource::Nothing));
    assert_eq!(item.layouting_info(), anything());
}

#[test]
fn text_is_moved_to_where_it_is_aligned() {
    let mut values = numbers(&[0, 0, 100, 50]);
    values.extend([
        Value::String("hello".to_string()),
        Value::String("serif".to_string()),
        Value::Number(12),
        Value::Color(9),
        Value::String("align_center".to_string()),
        Value::String("align_bottom".to_string()),
    ]);
    let item = Text::from_values(&values);
    assert_eq!(item.horizontal_alignment, TextHorizontalAlignment::align_center);
    assert_eq!(item.vertical_alignment, TextVerticalAlignment::align_bottom);
    // Half of 100 less half of 41, each rounded towards zero; 50 less 13.
    assert_eq!(item.rendering_variables(font()), vec![RenderingVariable::Translate(30, 37)]);
    assert_eq!(
        item.layouting_info(font()),
        LayoutInfo { min_width: 41, max_width: i64::MAX, min_height: 13, max_height: 13 }
    );
    match item.rendering_primitive() {
        HighLevelRenderingPrimitive::Text { text, font_family, font_size, color } => {
            assert_eq!((text.as_str(), font_family.as_str(), font_size, color), ("hello", "serif", 12, 9))
        }
        other => panic!("not a text: {:?}", other),
    }
    let right = Text {
        horizontal_alignment: TextHorizontalAlignment::align_right,
        vertical_alignment: TextVerticalAlignment::align_center,
        ..Text::from_values(&values)
    };
    assert_eq!(right.rendering_variables(font()), vec![RenderingVariable::Translate(59, 19)]);
    let plain = Text::from_values(&numbers(&[0, 0, 100, 50]));
    assert_eq!(plain.horizontal_alignment, TextHorizontalAlignment::default());
    assert_eq!(plain.vertical_alignment, TextVerticalAlignment::default());
    assert_eq!(plain.rendering_variables(font()), vec![RenderingVariable::Translate(0, 0)]);
}

#[test]
fn alignments_have_names() {
    for a in [
        TextHorizontalAlignment::align_left,
        TextHorizontalAlignment::align_center,
        TextHorizontalAlignment::align_right,
    ] {
        assert_eq!(TextHorizontalAlignment::from_name(a.name()), Some(a));
    }
    for a in [
        TextVerticalAlignment::align_top,
        TextVerticalAlignment::align_center,
        TextVerticalAlignment::align_bottom,
    ] {
        assert_eq!(TextVerticalAlignment::from_name(a.name()), Some(a));
    }
    assert_eq!(TextHorizontalAlignment::align_right.name(), "align_right");
    assert_eq!(TextHorizontalAlignment::from_name("align_top"), None);
    assert_eq!(TextVerticalAlignment::from_name("left"), None);
}

#[test]
fn touch_area_follows_the_mouse() {
    let start = TouchArea::from_values(&numbers(&[0, 0, 10, 10]));
    let event = |what, x| MouseEvent { x, y: x + 1, what };
    let mut area = start;
    assert_eq!(
        area.input_event(event(MouseEventType::MouseMoved, 3)),
        (InputEventResult::EventIgnored, false)
    );
    assert_eq!(area, TouchArea { mouse_x: 3, mouse_y: 4, ..start });
    assert_eq!(
        area.input_event(event(MouseEventType::MousePressed, 5)),
        (InputEventResult::GrabMouse, false)
    );
    assert_eq!(
        area,
        TouchArea { pressed: true, pressed_x: 5, pressed_y: 6, mouse_x: 5, mouse_y: 6, ..start }
    );
    assert_eq!(
        area.input_event(event(MouseEventType::MouseMoved, 8)),
        (InputEventResult::GrabMouse, false)
    );
    assert_eq!((area.pressed, area.pressed_x, area.mouse_x), (true, 5, 8));
    assert_eq!(
        area.input_event(event(MouseEventType::MouseReleased, 9)),
        (InputEventResult::EventAccepted, true)
    );
    assert_eq!((area.pressed, area.pressed_x, area.mouse_x), (false, 5, 9));
    let mut pressed = TouchArea { pressed: true, ..start };
    assert_eq!(
        pressed.input_event(event(MouseEventType::MouseExit, 1)),
        (InputEventResult::GrabMouse, false)
    );
    assert!(!pressed.pressed);
    assert!(matches!(area.rendering_primitive(), HighLevelRenderingPrimitive::NoContents));
    assert!(area.rendering_variables(font()).is_empty());
}

#[test]
fn path_window_and_flickable() {
    let mut values = numbers(&[3, 4, 50, 60]);
    values.extend([Value::Color(1), Value::Color(2), Value::Number(5)]);
    let mut path = Path::from_values(&values);
    assert_eq!(path.geometry(), Rect { x: 3, y: 4, width: 0, height: 0 });
    assert!(matches!(
        path.rendering_primitive(),
        HighLevelRenderingPrimitive::Path { width: 50, height: 60, stroke_width: 5 }
    ));
    assert_eq!(
        path.rendering_variables(font()),
        vec![RenderingVariable::Color(1), RenderingVariable::Color(2)]
    );
    let event = MouseEvent { x: 0, y: 0, what: MouseEventType::MouseReleased };
    assert_eq!(path.input_event(event), (InputEventResult::EventIgnored, false));

    let mut window = Window::from_values(&numbers(&[9, 9, 640, 480]));
    assert_eq!(window.geometry(), Rect { x: 0, y: 0, width: 640, height: 480 });
    assert_eq!(window.input_event(event), (InputEventResult::EventIgnored, false));

    let mut flickable = Flickable::from_values(&numbers(&[1, 2, 3, 4, 5, 6, 7, 8]));
    assert_eq!(flickable.geometry(), Rect { x: 1, y: 2, width: 3, height: 4 });
    assert_eq!(flickable.viewport, Rect { x: 5, y: 6, width: 7, height: 8 });
    assert_eq!(flickable.input_event(event), (InputEventResult::EventAccepted, false));
    assert_eq!(flickable.layouting_info(font()), LayoutInfo::default());
}
