//! Tests of the node locator and the offset model.

use compose_area::{ComposeArea, Direction, Node, NodeIndexOffset};

fn units(s: &str) -> Vec<u16> {
    s.encode_utf16().collect()
}

fn text(s: &str) -> Node {
    Node::Text { data: units(s) }
}

fn element(markup: &str) -> Node {
    Node::Element { markup: units(markup) }
}

/// Append the nodes one after another, leaving the caret collapsed at the
/// very end of the content.
fn area_with(nodes: Vec<Node>) -> ComposeArea {
    let mut ca = ComposeArea::new();
    for n in nodes {
        ca.insert_node(n);
    }
    ca
}

#[test]
fn empty() {
    let ca = ComposeArea::new();
    assert_eq!(ca.find_node_at(0, Direction::Before), None);
    assert_eq!(ca.find_node_at(0, Direction::After), None);
}

#[test]
fn before_first() {
    let ca = area_with(vec![text("ab")]);
    assert_eq!(ca.find_node_at(0, Direction::Before), None);
    assert_eq!(
        ca.find_node_at(0, Direction::After),
        Some(NodeIndexOffset { index: 0, offset: 0 })
    );
}

#[test]
fn in_text() {
    let ca = area_with(vec![text("ab")]);
    assert_eq!(
        ca.find_node_at(1, Direction::Before),
        Some(NodeIndexOffset { index: 0, offset: 1 })
    );
    assert_eq!(
        ca.find_node_at(1, Direction::After),
        Some(NodeIndexOffset { index: 0, offset: 1 })
    );
}

#[test]
fn at_end() {
    let ca = area_with(vec![text("ab")]);
    assert_eq!(
        ca.find_node_at(2, Direction::Before),
        Some(NodeIndexOffset { index: 0, offset: 2 })
    );
    assert_eq!(ca.find_node_at(2, Direction::After), None);
}

#[test]
fn between_two() {
    let ca = area_with(vec![text("ab"), element("<br>")]);
    assert_eq!(
        ca.find_node_at(2, Direction::Before),
        Some(NodeIndexOffset { index: 0, offset: 2 })
    );
    assert_eq!(
        ca.find_node_at(2, Direction::After),
        Some(NodeIndexOffset { index: 1, offset: 0 })
    );
}

#[test]
fn outofbounds() {
    // The caret cannot be negative, but it can lie past the end of the
    // content: one position after the end here.
    let ca = area_with(vec![text("ab"), text("cde")]);
    assert_eq!(
        ca.find_node_at(6, Direction::Before),
        Some(NodeIndexOffset { index: 1, offset: 3 })
    );
    assert_eq!(ca.find_node_at(6, Direction::After), None);
}

#[test]
fn zero_size_trailing_node() {
    let ca = area_with(vec![text("ab"), Node::Other]);
    assert_eq!(
        ca.find_node_at(2, Direction::After),
        Some(NodeIndexOffset { index: 1, offset: 0 })
    );
}

#[test]
fn html_size_by_kind() {
    assert_eq!(text("ab").html_size(), 2);
    assert_eq!(element("<br>").html_size(), 4);
    assert_eq!(Node::Other.html_size(), 0);
}

#[test]
fn html_size_counts_utf16_units() {
    // A character outside the basic plane takes two code units.
    assert_eq!(text("🍻").html_size(), 2);
    assert_eq!(text("a🍻b").html_size(), 4);
}

#[test]
fn html_size_with_emoji() {
    let mut ca = ComposeArea::new();
    ca.insert_image("test.jpg", "🍻", "umläöüt");
    assert_eq!(ca.children().len(), 1);
    assert_eq!(ca.children()[0].html_size(), 45);
}

#[test]
fn encode_utf16_matches_std() {
    assert_eq!(compose_area::text::encode_utf16("ab"), units("ab"));
    assert_eq!(compose_area::text::encode_utf16("🍻"), vec![0xD83C, 0xDF7B]);
    assert_eq!(compose_area::text::encode_utf16(""), Vec::<u16>::new());
    assert_eq!(compose_area::text::encode_utf16("umläöüt"), units("umläöüt"));
}

#[test]
fn located_offsets_sum_back_to_the_request() {
    // For every offset within the content, a successful locate must satisfy
    // sum(sizes of children before it) + local offset == requested offset.
    let ca = area_with(vec![text("ab"), element("<br>"), text("cde")]);
    let sizes = [2usize, 4, 3];
    let total: usize = sizes.iter().sum();
    for o in 0..=total {
        for dir in [Direction::Before, Direction::After] {
            if let Some(NodeIndexOffset { index, offset }) = ca.find_node_at(o, dir) {
                assert!(index < sizes.len());
                assert!(offset <= sizes[index]);
                let prefix: usize = sizes[..index].iter().sum();
                assert_eq!(prefix + offset, o, "offset {} direction {:?}", o, dir);
            }
        }
    }
}

#[test]
fn offset_of_position_sums_sizes() {
    let ca = area_with(vec![text("ab"), element("<br>"), text("cd")]);
    assert_eq!(ca.offset_of_position(0, 1), Some(1));
    assert_eq!(ca.offset_of_position(1, 0), Some(2));
    assert_eq!(ca.offset_of_position(2, 2), Some(8));
    assert_eq!(ca.offset_of_position(3, 0), Some(8));
}
