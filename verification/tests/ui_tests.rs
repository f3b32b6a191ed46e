use hyprly::capture::{
    active_window_geometry, overlay_system_message, region_from_arrays, screen_text_prefix,
    window_geometry,
};
use hyprly::ui::{anchors_for_position, Anchors};

#[test]
fn anchors_follow_position() {
    assert_eq!(
        anchors_for_position("right"),
        Anchors { top: true, right: true, bottom: true, left: false }
    );
    assert_eq!(
        anchors_for_position("bottom"),
        Anchors { top: false, right: true, bottom: true, left: true }
    );
    assert_eq!(
        anchors_for_position("diagonal"),
        Anchors { top: false, right: false, bottom: false, left: false }
    );
}

#[test]
fn geometry_string() {
    assert_eq!(window_geometry(10, -20, 800, 600), "10,-20 800x600");
    assert_eq!(window_geometry(0, 0, 0, 0), "0,0 0x0");
    assert_eq!(
        window_geometry(i64::MIN, i64::MAX, 1, 9),
        "-9223372036854775808,9223372036854775807 1x9"
    );
}

#[test]
fn active_window_region_from_hyprctl() {
    let json = "{\"at\": [10, 20], \"size\": [800, 600], \"title\": \"x\"}";
    assert_eq!(active_window_geometry(json), Some("10,20 800x600".to_string()));
    assert_eq!(
        active_window_geometry("{\"at\": [\"a\", -5, 9], \"size\": [1.5, 7]}"),
        Some("0,-5 0x7".to_string())
    );
    assert_eq!(active_window_geometry("{\"at\": [1], \"size\": [2, 3]}"), None);
    assert_eq!(active_window_geometry("{\"size\": [2, 3]}"), None);
    assert_eq!(active_window_geometry("not json"), None);
}

#[test]
fn region_from_parsed_arrays() {
    assert_eq!(
        region_from_arrays(&Some(vec![Some(3), None]), &Some(vec![Some(40), Some(50), Some(9)])),
        Some("3,0 40x50".to_string())
    );
    assert_eq!(region_from_arrays(&Some(vec![Some(3)]), &Some(vec![Some(4), Some(5)])), None);
    assert_eq!(region_from_arrays(&None, &Some(vec![Some(4), Some(5)])), None);
}

#[test]
fn screen_text_is_cut_at_a_character_boundary() {
    let short = "hello";
    assert_eq!(screen_text_prefix(short), short);
    let ascii: String = std::iter::repeat('a').take(2500).collect();
    assert_eq!(screen_text_prefix(&ascii).len(), 2000);
    let wide: String = std::iter::repeat('é').take(1500).collect();
    let odd = format!("a{}", wide);
    let cut = screen_text_prefix(&odd);
    assert_eq!(cut.len(), 1999);
    assert!(odd.starts_with(&cut));
}

#[test]
fn overlay_message_adds_screen_text() {
    assert_eq!(overlay_system_message("CTX", "  \n "), "CTX");
    assert_eq!(overlay_system_message("CTX", " shown \n"), "CTX\n\nText on screen:\nshown");
    assert_eq!(overlay_system_message("", "shown"), "Text on screen:\nshown");
}
