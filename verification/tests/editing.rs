//! Tests of insertion, selection removal, normalization, and the caret
//! synchronization in both directions.

use compose_area::{CaretPosition, ComposeArea, Node, Position};

fn units(s: &str) -> Vec<u16> {
    s.encode_utf16().collect()
}

fn text(s: &str) -> Node {
    Node::Text { data: units(s) }
}

fn element(markup: &str) -> Node {
    Node::Element { markup: units(markup) }
}

fn area_with(nodes: Vec<Node>) -> ComposeArea {
    let mut ca = ComposeArea::new();
    for n in nodes {
        ca.insert_node(n);
    }
    ca
}

fn caret(ca: &ComposeArea) -> (usize, usize) {
    let pos = ca.get_caret_position();
    (pos.start, pos.end)
}

fn img_markup(src: &str, alt: &str, cls: &str) -> String {
    format!("<img src=\"{}\" alt=\"{}\" class=\"{}\">", src, alt, cls)
}

#[test]
fn caret_starts_at_origin() {
    let ca = ComposeArea::new();
    let pos = ca.get_caret_position();
    assert_eq!((pos.start, pos.end, pos.success), (0, 0, true));
    assert!(ca.children().is_empty());
}

#[test]
fn set_and_get_caret() {
    let mut ca = area_with(vec![text("hello")]);
    ca.set_caret_position(2, 4);
    assert_eq!(caret(&ca), (2, 4));
}

#[test]
fn update_caret_from_environment_reading() {
    let mut ca = area_with(vec![text("hello")]);
    ca.set_caret_position(2, 4);
    ca.update_caret_position_from_dom(CaretPosition { start: 1, end: 3, success: true });
    assert_eq!(caret(&ca), (1, 3));
    // An unsuccessful reading preserves the stale caret.
    ca.update_caret_position_from_dom(CaretPosition { start: 0, end: 0, success: false });
    assert_eq!(caret(&ca), (1, 3));
}

#[test]
fn insert_text_at_end() {
    let mut ca = area_with(vec![text("hello ")]);
    ca.set_caret_position(6, 6);
    ca.insert_text("world");
    assert_eq!(*ca.children(), vec![text("hello world")]);
    assert_eq!(caret(&ca), (11, 11));
}

#[test]
fn insert_text_in_the_middle() {
    let mut ca = area_with(vec![text("ab")]);
    ca.set_caret_position(1, 1);
    ca.insert_text("XY");
    assert_eq!(*ca.children(), vec![text("aXYb")]);
    assert_eq!(caret(&ca), (3, 3));
}

#[test]
fn insert_text_replaces_selected_image() {
    // Content "ab" followed by an image; the selection spans "b" and all of
    // the image, so inserting deletes both and leaves "az".
    let mut ca = area_with(vec![text("ab")]);
    ca.insert_image("img.jpg", "😀", "em");
    let h = units(&img_markup("img.jpg", "😀", "em")).len();
    ca.set_caret_position(1, 1 + h);
    ca.insert_text("z");
    assert_eq!(*ca.children(), vec![text("az")]);
    assert_eq!(caret(&ca), (2, 2));
}

#[test]
fn insert_image_at_end() {
    let mut ca = area_with(vec![text("hi ")]);
    ca.set_caret_position(3, 3);
    ca.insert_image("img.jpg", "😀", "em");
    let markup = img_markup("img.jpg", "😀", "em");
    let h = units(&markup).len();
    assert_eq!(*ca.children(), vec![text("hi "), element(&markup)]);
    assert_eq!(caret(&ca), (3 + h, 3 + h));
}

#[test]
fn insert_image_splits_text() {
    let mut ca = area_with(vec![text("bonjour")]);
    ca.set_caret_position(3, 3);
    ca.insert_image("img.jpg", "😀", "em");
    let markup = img_markup("img.jpg", "😀", "em");
    let h = units(&markup).len();
    assert_eq!(
        *ca.children(),
        vec![text("bon"), element(&markup), text("jour")]
    );
    assert_eq!(caret(&ca), (3 + h, 3 + h));
}

#[test]
fn insert_image_between_nodes() {
    let mut ca = area_with(vec![text("a"), element("<br>"), text("b")]);
    ca.set_caret_position(1, 1);
    ca.insert_image("img.jpg", "😀", "em");
    let markup = img_markup("img.jpg", "😀", "em");
    let h = units(&markup).len();
    assert_eq!(
        *ca.children(),
        vec![text("a"), element(&markup), element("<br>"), text("b")]
    );
    assert_eq!(caret(&ca), (1 + h, 1 + h));
}

#[test]
fn insert_inside_atomic_node_goes_after_it() {
    let mut ca = area_with(vec![element("<br>")]);
    ca.set_caret_position(2, 2);
    ca.insert_node(text("x"));
    assert_eq!(*ca.children(), vec![element("<br>"), text("x")]);
    assert_eq!(caret(&ca), (3, 3));
}

#[test]
fn insert_zero_size_node_keeps_caret() {
    let mut ca = area_with(vec![text("ab")]);
    ca.set_caret_position(2, 2);
    ca.insert_node(Node::Other);
    assert_eq!(*ca.children(), vec![text("ab"), Node::Other]);
    assert_eq!(caret(&ca), (2, 2));
}

#[test]
fn remove_nothing() {
    let mut ca = area_with(vec![text("ab")]);
    ca.set_caret_position(1, 1);
    assert!(!ca.remove_selection());
    assert_eq!(*ca.children(), vec![text("ab")]);
    assert_eq!(caret(&ca), (1, 1));
}

#[test]
fn remove_entire_text_node() {
    let mut ca = area_with(vec![text("ab")]);
    ca.set_caret_position(0, 2);
    assert!(ca.remove_selection());
    assert!(ca.children().is_empty());
    assert_eq!(caret(&ca), (0, 0));
}

#[test]
fn remove_partial_text_node_middle() {
    let mut ca = area_with(vec![text("abcde")]);
    ca.set_caret_position(1, 3);
    assert!(ca.remove_selection());
    assert_eq!(*ca.children(), vec![text("ade")]);
    assert_eq!(caret(&ca), (1, 1));
}

#[test]
fn remove_partial_text_node_to_end() {
    let mut ca = area_with(vec![text("abcde"), text("f")]);
    ca.set_caret_position(1, 5);
    assert!(ca.remove_selection());
    assert_eq!(*ca.children(), vec![text("af")]);
    assert_eq!(caret(&ca), (1, 1));
}

#[test]
fn remove_partial_text_node_past_end() {
    let mut ca = area_with(vec![text("abcde"), text("fgh")]);
    ca.set_caret_position(1, 7);
    assert!(ca.remove_selection());
    assert_eq!(*ca.children(), vec![text("ah")]);
    assert_eq!(caret(&ca), (1, 1));
}

#[test]
fn remove_entire_image_node() {
    let mut ca = area_with(vec![text("a")]);
    ca.insert_image("img.jpg", "😀", "em");
    let h = units(&img_markup("img.jpg", "😀", "em")).len();
    ca.insert_node(text("b"));
    ca.set_caret_position(1, 1 + h);
    assert!(ca.remove_selection());
    assert_eq!(*ca.children(), vec![text("ab")]);
    assert_eq!(caret(&ca), (1, 1));
}

#[test]
fn remove_partial_image_node() {
    // A selection ending inside an atomic node removes the node whole.
    let mut ca = ComposeArea::new();
    ca.insert_image("img.jpg", "😀", "em");
    let h = units(&img_markup("img.jpg", "😀", "em")).len();
    ca.insert_node(text("a"));
    ca.set_caret_position(0, h - 5);
    assert!(ca.remove_selection());
    assert_eq!(*ca.children(), vec![text("a")]);
    assert_eq!(caret(&ca), (0, 0));
}

#[test]
fn normalize_merges_and_drops_empty() {
    let mut ca = area_with(vec![text("a"), text(""), text("b"), element("<br>"), text("c")]);
    ca.normalize();
    assert_eq!(*ca.children(), vec![text("ab"), element("<br>"), text("c")]);
}

#[test]
fn normalize_twice_is_normalize_once() {
    let mut ca = area_with(vec![text("a"), text(""), text("b")]);
    ca.normalize();
    let once: Vec<u16> = match &ca.children()[0] {
        Node::Text { data } => data.clone(),
        _ => panic!("expected a text run"),
    };
    assert_eq!(ca.children().len(), 1);
    ca.normalize();
    assert_eq!(*ca.children(), vec![Node::Text { data: once }]);
}

#[test]
fn normalize_preserves_total_size() {
    let mut ca = area_with(vec![text("a"), text(""), text("b"), element("<br>")]);
    let total_before: usize = ca.children().iter().map(|n| n.html_size()).sum();
    ca.normalize();
    let total_after: usize = ca.children().iter().map(|n| n.html_size()).sum();
    assert_eq!(total_before, total_after);
    assert_eq!(total_after, 6);
}

#[test]
fn project_empty_tree_is_fatal() {
    let ca = ComposeArea::new();
    assert_eq!(ca.set_dom_caret_position_from_state(), None);
}

#[test]
fn project_collapsed_caret() {
    let mut ca = area_with(vec![text("ab")]);
    ca.set_caret_position(1, 1);
    assert_eq!(
        ca.set_dom_caret_position_from_state(),
        Some((Position::Offset { index: 0, offset: 1 }, None))
    );
}

#[test]
fn project_selection() {
    let mut ca = area_with(vec![text("ab")]);
    ca.set_caret_position(0, 2);
    assert_eq!(
        ca.set_dom_caret_position_from_state(),
        Some((
            Position::Offset { index: 0, offset: 0 },
            Some(Position::Offset { index: 0, offset: 2 })
        ))
    );
}

#[test]
fn project_caret_past_content_anchors_after_last_child() {
    let mut ca = area_with(vec![text("ab")]);
    ca.set_caret_position(2, 2);
    assert_eq!(
        ca.set_dom_caret_position_from_state(),
        Some((Position::After { index: 0 }, None))
    );
}

#[test]
fn project_then_read_back_reproduces_caret() {
    let mut ca = area_with(vec![text("ab"), element("<br>"), text("cd")]);
    ca.set_caret_position(1, 7);
    let (start_pos, end_pos) = ca.set_dom_caret_position_from_state().unwrap();
    let (si, so) = match start_pos {
        Position::Offset { index, offset } => (index, offset),
        Position::After { .. } => panic!("expected an in-node position"),
    };
    let (ei, eo) = match end_pos.unwrap() {
        Position::Offset { index, offset } => (index, offset),
        Position::After { .. } => panic!("expected an in-node position"),
    };
    let start = ca.offset_of_position(si, so).unwrap();
    let end = ca.offset_of_position(ei, eo).unwrap();
    ca.update_caret_position_from_dom(CaretPosition { start, end, success: true });
    assert_eq!((start, end), (1, 7));
    let pos = ca.get_caret_position();
    assert_eq!((pos.start, pos.end), (1, 7));
}
