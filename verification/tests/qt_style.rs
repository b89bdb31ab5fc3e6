use sixtyfps_interpreter::items::{
    HighLevelRenderingPrimitive, ImageSource, InputEventResult, LayoutInfo, MouseEvent,
    MouseEventType, Rect,
};
use sixtyfps_interpreter::qt_style::{
    narrow, to_resource, QtStyleButton, QtStyleCheckBox, QtStyleSlider, QtStyleSpinBox,
    StyleImage, StyleOption, StyleSize, SPIN_BOX_DOWN, SPIN_BOX_UP,
};

fn mouse(what: MouseEventType, x: i64) -> MouseEvent {
    MouseEvent { x, y: 3, what }
}

fn drawn() -> StyleImage {
    StyleImage { width: 2, height: 1, data: vec![1, 2, 3, 4, 5, 6, 7, 8] }
}

#[test]
fn button_is_clicked_when_the_mouse_is_released() {
    let mut button =
        QtStyleButton { x: 1, y: 2, width: 80, height: 24, text: "Go".to_string(), pressed: false };
    assert_eq!(button.geometry(), Rect { x: 1, y: 2, width: 80, height: 24 });
    assert_eq!(
        button.input_event(mouse(MouseEventType::MouseMoved, 0)),
        (InputEventResult::EventIgnored, false)
    );
    assert_eq!(
        button.input_event(mouse(MouseEventType::MousePressed, 0)),
        (InputEventResult::GrabMouse, false)
    );
    assert!(button.pressed);
    match button.style_option() {
        StyleOption::Button { text, down } => assert_eq!((text.as_str(), down), ("Go", true)),
        other => panic!("not a button: {:?}", other),
    }
    assert_eq!(
        button.input_event(mouse(MouseEventType::MouseMoved, 0)),
        (InputEventResult::GrabMouse, false)
    );
    assert_eq!(
        button.input_event(mouse(MouseEventType::MouseReleased, 0)),
        (InputEventResult::EventAccepted, true)
    );
    assert!(!button.pressed);
    button.pressed = true;
    assert_eq!(
        button.input_event(mouse(MouseEventType::MouseExit, 0)),
        (InputEventResult::GrabMouse, false)
    );
    assert!(!button.pressed);
    assert_eq!((button.text.as_str(), button.width), ("Go", 80));
    assert_eq!(button.style_extent(), (80, 24));
    assert!(button.rendering_variables().is_empty());
}

#[test]
fn check_box_turns_over_on_release() {
    let mut check = QtStyleCheckBox {
        x: 0,
        y: 0,
        width: 10,
        height: 10,
        text: "on".to_string(),
        checked: false,
    };
    for what in [MouseEventType::MousePressed, MouseEventType::MouseMoved, MouseEventType::MouseExit] {
        assert_eq!(check.input_event(mouse(what, 1)), (InputEventResult::EventAccepted, false));
        assert!(!check.checked);
    }
    assert_eq!(
        check.input_event(mouse(MouseEventType::MouseReleased, 1)),
        (InputEventResult::EventAccepted, true)
    );
    assert!(check.checked);
    match check.style_option() {
        StyleOption::CheckBox { text, checked } => assert_eq!((text.as_str(), checked), ("on", true)),
        other => panic!("not a check box: {:?}", other),
    }
    assert_eq!(
        check.input_event(mouse(MouseEventType::MouseReleased, 1)),
        (InputEventResult::EventAccepted, true)
    );
    assert!(!check.checked);
}

#[test]
fn spin_box_steps_when_a_button_of_it_is_released() {
    let start = QtStyleSpinBox {
        x: 0,
        y: 0,
        width: 60,
        height: 20,
        value: 7,
        active_controls: 0,
        pressed: false,
    };
    let mut spin = start;
    // Without a style nothing happens.
    assert_eq!(
        spin.input_event(mouse(MouseEventType::MouseReleased, 1), None),
        (InputEventResult::EventAccepted, false)
    );
    assert_eq!(spin, start);
    // The mouse comes to the upper button: the box takes note of it and of nothing else.
    assert_eq!(
        spin.input_event(mouse(MouseEventType::MousePressed, 1), Some(SPIN_BOX_UP)),
        (InputEventResult::EventAccepted, true)
    );
    assert_eq!(spin, QtStyleSpinBox { active_controls: SPIN_BOX_UP, ..start });
    assert_eq!(
        spin.input_event(mouse(MouseEventType::MouseMoved, 1), Some(SPIN_BOX_UP)),
        (InputEventResult::EventAccepted, false)
    );
    assert_eq!(
        spin.input_event(mouse(MouseEventType::MousePressed, 1), Some(SPIN_BOX_UP)),
        (InputEventResult::EventAccepted, true)
    );
    assert!(spin.pressed);
    assert_eq!(
        spin.input_event(mouse(MouseEventType::MouseReleased, 1), Some(SPIN_BOX_UP)),
        (InputEventResult::EventAccepted, true)
    );
    assert_eq!(spin, QtStyleSpinBox { active_controls: SPIN_BOX_UP, value: 8, ..start });
    spin.input_event(mouse(MouseEventType::MouseMoved, 1), Some(SPIN_BOX_DOWN));
    assert_eq!(spin.value, 8);
    spin.input_event(mouse(MouseEventType::MouseReleased, 1), Some(SPIN_BOX_DOWN));
    spin.input_event(mouse(MouseEventType::MouseExit, 1), Some(SPIN_BOX_DOWN));
    assert_eq!(spin.value, 6);
    // The other parts of the box leave the value alone.
    spin.input_event(mouse(MouseEventType::MouseMoved, 1), Some(8));
    assert_eq!(
        spin.input_event(mouse(MouseEventType::MouseReleased, 1), Some(8)),
        (InputEventResult::EventAccepted, true)
    );
    assert_eq!(spin.value, 6);
    let mut full = QtStyleSpinBox { value: i32::MAX, active_controls: SPIN_BOX_UP, ..start };
    full.input_event(mouse(MouseEventType::MouseReleased, 1), Some(SPIN_BOX_UP));
    assert_eq!(full.value, i32::MAX);
    let mut empty = QtStyleSpinBox { value: i32::MIN, active_controls: SPIN_BOX_DOWN, ..start };
    empty.input_event(mouse(MouseEventType::MouseReleased, 1), Some(SPIN_BOX_DOWN));
    assert_eq!(empty.value, i32::MIN);
    assert!(matches!(
        spin.style_option(),
        StyleOption::SpinBox { value: 6, active_controls: 8, pressed: false }
    ));
}

#[test]
fn slider_follows_the_mouse_between_its_limits() {
    let start = QtStyleSlider {
        x: 0,
        y: 0,
        width: 200,
        height: 20,
        value: 20,
        min: 0,
        max: 100,
        active_controls: 0,
        pressed_position: None,
        pressed_val: 0,
    };
    let mut slider = start;
    assert_eq!(
        slider.input_event(mouse(MouseEventType::MousePressed, 10), None),
        InputEventResult::EventIgnored
    );
    assert_eq!(slider, start);
    assert_eq!(
        slider.input_event(mouse(MouseEventType::MouseMoved, 60), Some(1)),
        InputEventResult::EventIgnored
    );
    assert_eq!(slider, QtStyleSlider { active_controls: 1, ..start });
    assert_eq!(
        slider.input_event(mouse(MouseEventType::MousePressed, 10), Some(2)),
        InputEventResult::GrabMouse
    );
    assert_eq!(
        slider,
        QtStyleSlider {
            active_controls: 2,
            pressed_position: Some((10, 3)),
            pressed_val: 20,
            ..start
        }
    );
    // Fifty of two hundred points are a quarter of the range.
    for (x, value) in [(60, 45), (7, 19), (13, 21), (10, 20), (1000, 100), (-1000, 0), (170, 100)] {
        assert_eq!(
            slider.input_event(mouse(MouseEventType::MouseMoved, x), Some(2)),
            InputEventResult::GrabMouse
        );
        assert_eq!(slider.value, value);
        assert_eq!(slider.pressed_val, 20);
    }
    assert!(matches!(
        slider.style_option(),
        StyleOption::Slider { value: 100, minimum: 0, maximum: 100, active_controls: 2, pressed: true }
    ));
    assert_eq!(
        slider.input_event(mouse(MouseEventType::MouseReleased, 170), Some(1)),
        InputEventResult::EventAccepted
    );
    assert_eq!(slider.pressed_position, None);
    assert_eq!(slider.value, 100);
    assert_eq!(
        slider.input_event(mouse(MouseEventType::MouseExit, 170), Some(0)),
        InputEventResult::EventAccepted
    );
    // Without a width the mouse moves nothing; limits the wrong way round give the upper one.
    let mut flat = QtStyleSlider { width: 0, pressed_position: Some((0, 0)), pressed_val: 30, ..start };
    flat.input_event(mouse(MouseEventType::MouseMoved, 500), Some(2));
    assert_eq!(flat.value, 30);
    let mut crossed = QtStyleSlider { min: 50, max: 40, pressed_position: Some((0, 0)), ..start };
    crossed.input_event(mouse(MouseEventType::MouseMoved, 0), Some(2));
    assert_eq!(crossed.value, 40);
    let mut wide = QtStyleSlider {
        min: i64::MIN,
        max: i64::MAX,
        width: i64::MAX,
        pressed_position: Some((i64::MIN, 0)),
        pressed_val: 0,
        ..start
    };
    wide.input_event(mouse(MouseEventType::MouseMoved, i64::MAX), Some(2));
    assert_eq!(wide.value, i64::MAX / i64::from(i32::MAX));
    assert_eq!(wide.style_extent(), (i32::MAX, 20));
}

#[test]
fn widgets_show_what_the_style_drew() {
    let button =
        QtStyleButton { x: 0, y: 0, width: 2, height: 1, text: String::new(), pressed: false };
    assert!(matches!(button.rendering_primitive(None), HighLevelRenderingPrimitive::NoContents));
    match button.rendering_primitive(Some(drawn())) {
        HighLevelRenderingPrimitive::Image {
            source: ImageSource::EmbeddedRgbaImage { width, height, data },
        } => assert_eq!((width, height, data), (2, 1, vec![1, 2, 3, 4, 5, 6, 7, 8])),
        other => panic!("not a picture: {:?}", other),
    }
    assert!(matches!(
        to_resource(drawn()),
        ImageSource::EmbeddedRgbaImage { width: 2, height: 1, .. }
    ));
    let hint = Some(StyleSize { width: 70, height: 22 });
    assert_eq!(button.layouting_info(None), LayoutInfo::default());
    assert_eq!(
        button.layouting_info(hint),
        LayoutInfo { min_width: 70, max_width: i64::MAX, min_height: 22, max_height: i64::MAX }
    );
    let fixed = LayoutInfo { min_width: 70, max_width: i64::MAX, min_height: 22, max_height: 22 };
    let check =
        QtStyleCheckBox { x: 0, y: 0, width: 2, height: 1, text: String::new(), checked: true };
    assert_eq!(check.layouting_info(hint), fixed);
    assert!(matches!(check.rendering_primitive(None), HighLevelRenderingPrimitive::NoContents));
    let spin = QtStyleSpinBox {
        x: 0,
        y: 0,
        width: -5,
        height: i64::MIN,
        value: 0,
        active_controls: 0,
        pressed: false,
    };
    assert_eq!(spin.layouting_info(hint), fixed);
    assert_eq!(spin.layouting_info(None), LayoutInfo::default());
    assert_eq!(spin.style_extent(), (-5, i32::MIN));
    assert_eq!((narrow(i64::MAX), narrow(-1), narrow(1 << 31)), (i32::MAX, -1, i32::MAX));
}
