//! The compose area: caret state over the child sequence, insertion of text
//! and atomic elements, selection removal, and projection of the caret to
//! and from the host environment's native selection form.
//!
//! The environment (the host document and its live selection) is not part of
//! this module: readings of it are taken as arguments, and selections to be
//! applied to it are returned as plain positions.

use vstd::prelude::*;

use crate::locate::{
    lemma_locate_from_sound, lemma_locate_offset_sum, locate_spec, prefix_size, total_size,
};
use crate::node::{node_size, views_of, Direction, Node, NodeIndexOffset, NodeView};
use crate::text::{encode_utf16, utf16_encode};
use crate::tree::{
    cut_units, normalize_children, normalize_spec, remove_range, remove_range_spec,
};

verus! {

/// A caret selection in the linear offset space, as read back from the host
/// environment; `success` is false when the environment could not resolve a
/// selection within the bound container.
#[derive(Debug, PartialEq, Eq, Structural, Copy, Clone)]
pub struct CaretPosition {
    pub start: usize,
    pub end: usize,
    pub success: bool,
}

/// A position in the host environment's selection form: a spot inside a
/// child, or the spot immediately after a child.
#[derive(Debug, PartialEq, Eq, Structural, Copy, Clone)]
pub enum Position {
    /// The position `offset` code units into the child at `index`.
    Offset { index: usize, offset: usize },
    /// The position immediately after the child at `index`.
    After { index: usize },
}

/// The model of the compose area: the children and the caret pair.
#[verifier::ext_equal]
pub struct ComposeAreaView {
    pub children: Seq<NodeView>,
    pub caret_start: nat,
    pub caret_end: nat,
}

/// The compose area: an ordered sequence of children and a caret selection
/// `(caret_start, caret_end)` in the linear offset space. The caret is held
/// only here; it is synchronized with the host environment explicitly.
pub struct ComposeArea {
    children: Vec<Node>,
    caret_start: usize,
    caret_end: usize,
}

impl View for ComposeArea {
    type V = ComposeAreaView;

    closed spec fn view(&self) -> ComposeAreaView {
        ComposeAreaView {
            children: views_of(self.children@),
            caret_start: self.caret_start as nat,
            caret_end: self.caret_end as nat,
        }
    }
}

/// What removing the active selection does to the model: a collapsed
/// selection changes nothing; otherwise the covered range is removed from
/// the children, the children are normalized, and the caret collapses to the
/// selection start.
pub open spec fn remove_selection_spec(v: ComposeAreaView) -> ComposeAreaView {
    if v.caret_start == v.caret_end {
        v
    } else {
        ComposeAreaView {
            children: normalize_spec(
                remove_range_spec(v.children, v.caret_start as int, v.caret_end as int),
            ),
            caret_start: v.caret_start,
            caret_end: v.caret_start,
        }
    }
}

/// Where a new node lands when inserted at linear offset `at`: appended when
/// no node follows `at`; immediately before the located child at a boundary;
/// between the two halves of a split text run when the point lies inside
/// one; immediately after the located child when the point lies inside an
/// atomic node.
pub open spec fn insert_spec(cs: Seq<NodeView>, at: nat, n: NodeView) -> Seq<NodeView> {
    match locate_spec(cs, at, Direction::After) {
        Option::None => cs.push(n),
        Option::Some(loc) => {
            let i = loc.0 as int;
            let off = loc.1 as int;
            if off == 0 {
                cs.insert(i, n)
            } else {
                match cs[i] {
                    NodeView::Text { data } => cs.take(i) + seq![
                        NodeView::Text { data: data.take(off) },
                        n,
                        NodeView::Text { data: data.skip(off) },
                    ] + cs.skip(i + 1),
                    _ => cs.insert(i + 1, n),
                }
            }
        },
    }
}

/// The host-environment selection that renders a caret state: the start
/// resolved with the `After` tie-break; the end, when the selection is not
/// collapsed, with the `Before` tie-break. A start beyond all content yields
/// the position after the last child; on an empty tree there is no such
/// child and no selection can be produced.
pub open spec fn project_spec(v: ComposeAreaView) -> Option<(Position, Option<Position>)> {
    let start_loc = locate_spec(v.children, v.caret_start, Direction::After);
    let end_loc = if v.caret_end > v.caret_start {
        locate_spec(v.children, v.caret_end, Direction::Before)
    } else {
        Option::<(nat, nat)>::None
    };
    match start_loc {
        Option::Some(sl) => {
            let start_pos = Position::Offset { index: sl.0 as usize, offset: sl.1 as usize };
            match end_loc {
                Option::Some(el) => Option::Some(
                    (
                        start_pos,
                        Option::Some(
                            Position::Offset { index: el.0 as usize, offset: el.1 as usize },
                        ),
                    ),
                ),
                Option::None => Option::Some((start_pos, Option::None)),
            }
        },
        Option::None => {
            if v.children.len() > 0 {
                Option::Some(
                    (Position::After { index: (v.children.len() - 1) as usize }, Option::None),
                )
            } else {
                Option::None
            }
        },
    }
}

impl ComposeArea {
    /// The caret invariant: the selection start never exceeds its end.
    pub open spec fn wf(&self) -> bool {
        self@.caret_start <= self@.caret_end
    }

    /// A new, empty compose area with a collapsed caret at the origin.
    pub fn new() -> (r: ComposeArea)
        ensures
            r.wf(),
            r@.children == Seq::<NodeView>::empty(),
            r@.caret_start == 0,
            r@.caret_end == 0,
    {
        let children: Vec<Node> = Vec::new();
        proof {
            assert(views_of(children@) =~= Seq::<NodeView>::empty());
        }
        ComposeArea { children, caret_start: 0, caret_end: 0 }
    }

    /// The children, in order.
    pub fn children(&self) -> (r: &Vec<Node>)
        ensures
            views_of(r@) == self@.children,
    {
        &self.children
    }

    /// The current caret selection. This reads the held state only; the host
    /// environment is not consulted.
    pub fn get_caret_position(&self) -> (r: CaretPosition)
        ensures
            r.start == self@.caret_start,
            r.end == self@.caret_end,
            r.success,
    {
        CaretPosition { start: self.caret_start, end: self.caret_end, success: true }
    }

    /// Set the caret selection. Only the held state changes; the host
    /// environment's selection is not touched.
    pub fn set_caret_position(&mut self, start: usize, end: usize)
        requires
            start <= end,
        ensures
            final(self)@.children == old(self)@.children,
            final(self)@.caret_start == start,
            final(self)@.caret_end == end,
            final(self).wf(),
    {
        self.caret_start = start;
        self.caret_end = end;
    }

    /// Overwrite the caret selection with a reading of the host
    /// environment's live selection; an unsuccessful reading leaves the
    /// state unchanged, preserving the stale caret rather than zeroing it.
    pub fn update_caret_position_from_dom(&mut self, pos: CaretPosition)
        requires
            pos.success ==> pos.start <= pos.end,
        ensures
            final(self)@.children == old(self)@.children,
            pos.success ==> final(self)@.caret_start == pos.start && final(self)@.caret_end
                == pos.end,
            !pos.success ==> final(self)@ == old(self)@,
            pos.success ==> final(self).wf(),
            old(self).wf() ==> final(self).wf(),
    {
        if pos.success {
            self.caret_start = pos.start;
            self.caret_end = pos.end;
        }
    }

    /// Resolve the linear offset `offset` to the child it falls in and the
    /// residual offset from that child's start, with `direction` breaking
    /// the tie at boundaries.
    pub fn find_node_at(&self, offset: usize, direction: Direction) -> (r: Option<
        NodeIndexOffset,
    >)
        ensures
            match r {
                Option::Some(nio) => locate_spec(self@.children, offset as nat, direction)
                    == Option::Some(((nio.index as nat), (nio.offset as nat))),
                Option::None => locate_spec(self@.children, offset as nat, direction) is None,
            },
    {
        crate::locate::find_node_at(&self.children, offset, direction)
    }

    /// The linear offset of the environment position `local` code units into
    /// the child at `index`: the sizes of the children before that child
    /// plus `local`. `None` when the sum does not fit the machine word.
    pub fn offset_of_position(&self, index: usize, local: usize) -> (r: Option<usize>)
        requires
            index <= self@.children.len(),
        ensures
            match r {
                Option::Some(o) => o == prefix_size(self@.children, index as int) + local,
                Option::None => prefix_size(self@.children, index as int) + local > usize::MAX,
            },
    {
        let ghost cs = self@.children;
        let mut sum: usize = local;
        let mut i: usize = 0;
        while i < index
            invariant
                i <= index <= cs.len(),
                cs == self@.children,
                sum == local + prefix_size(cs, i as int),
            decreases index - i,
        {
            let sz = self.children[i].html_size();
            match sum.checked_add(sz) {
                Option::Some(s) => {
                    sum = s;
                },
                Option::None => {
                    proof {
                        crate::locate::lemma_prefix_size_monotone(cs, i as int + 1, index as int);
                    }
                    return Option::None;
                },
            }
            i = i + 1;
        }
        Option::Some(sum)
    }

    /// Normalize the children: drop empty text runs and merge adjacent text
    /// runs into one. The caret does not move, and normalizing preserves the
    /// total size, so the caret keeps its meaning in the offset space.
    pub fn normalize(&mut self)
        ensures
            final(self)@.children == normalize_spec(old(self)@.children),
            final(self)@.caret_start == old(self)@.caret_start,
            final(self)@.caret_end == old(self)@.caret_end,
            total_size(final(self)@.children) == total_size(old(self)@.children),
    {
        normalize_children(&mut self.children);
        proof {
            crate::tree::lemma_normalize_preserves_total_size(old(self)@.children);
        }
    }

    /// If the selection is not collapsed, remove its contents, collapse the
    /// caret to the selection start, normalize the children, and report that
    /// content was deleted; a collapsed selection changes nothing.
    pub fn remove_selection(&mut self) -> (removed: bool)
        requires
            old(self).wf(),
        ensures
            final(self)@ == remove_selection_spec(old(self)@),
            removed == (old(self)@.caret_start != old(self)@.caret_end),
            final(self).wf(),
            final(self)@.caret_start == old(self)@.caret_start,
    {
        if self.caret_start == self.caret_end {
            return false;
        }
        remove_range(&mut self.children, self.caret_start, self.caret_end);
        normalize_children(&mut self.children);
        self.caret_end = self.caret_start;
        true
    }

    /// Insert `node` at the caret: an active selection is removed first, the
    /// insertion point is located with the `After` tie-break, a text run is
    /// split when the point lies inside one, and the caret advances past the
    /// new node and collapses. A caret lying beyond all content appends the
    /// node after the last child.
    pub fn insert_node(&mut self, node: Node)
        requires
            old(self).wf(),
            old(self)@.caret_start + node_size(node@) <= usize::MAX,
        ensures
            final(self)@.children == insert_spec(
                remove_selection_spec(old(self)@).children,
                old(self)@.caret_start,
                node@,
            ),
            final(self)@.caret_start == old(self)@.caret_start + node_size(node@),
            final(self)@.caret_end == final(self)@.caret_start,
            final(self).wf(),
    {
        self.remove_selection();
        let ghost mid = self@.children;
        let ghost nv = node@;
        let sz = node.html_size();
        let found = crate::locate::find_node_at(&self.children, self.caret_start, Direction::After);
        match found {
            Option::Some(current) => {
                proof {
                    lemma_locate_from_sound(mid, self.caret_start as nat, 0, Direction::After);
                    assert(mid.len() == self.children@.len());
                    assert((current.index as nat) < mid.len());
                }
                if current.offset == 0 {
                    self.children.insert(current.index, node);
                    proof {
                        assert(views_of(self.children@) =~= mid.insert(current.index as int, nv));
                    }
                } else {
                    let is_text = matches!(&self.children[current.index], Node::Text { .. });
                    if is_text {
                        let reference = self.children.remove(current.index);
                        match reference {
                            Node::Text { data } => {
                                let left = cut_units(&data, current.offset, data.len());
                                let right = cut_units(&data, 0, current.offset);
                                proof {
                                    assert(data@.take(current.offset as int) + data@.skip(
                                        data@.len() as int,
                                    ) =~= data@.take(current.offset as int));
                                    assert(data@.take(0) + data@.skip(current.offset as int)
                                        =~= data@.skip(current.offset as int));
                                }
                                let right_node = Node::Text { data: right };
                                self.children.insert(current.index, right_node);
                                self.children.insert(current.index, node);
                                let left_node = Node::Text { data: left };
                                self.children.insert(current.index, left_node);
                                proof {
                                    assert(views_of(self.children@) =~= mid.take(
                                        current.index as int,
                                    ) + seq![
                                        NodeView::Text {
                                            data: crate::tree::text_data(mid[current.index as int]).take(
                                                current.offset as int,
                                            ),
                                        },
                                        nv,
                                        NodeView::Text {
                                            data: crate::tree::text_data(mid[current.index as int]).skip(
                                                current.offset as int,
                                            ),
                                        },
                                    ] + mid.skip(current.index as int + 1));
                                }
                            },
                            _ => {
                                proof {
                                    assert(false);
                                }
                            },
                        }
                    } else {
                        let count = self.children.len();
                        assert(current.index < count);
                        self.children.insert(current.index + 1, node);
                        proof {
                            assert(views_of(self.children@) =~= mid.insert(
                                current.index as int + 1,
                                nv,
                            ));
                        }
                    }
                }
            },
            Option::None => {
                self.children.push(node);
                proof {
                    assert(views_of(self.children@) =~= mid.push(nv));
                }
            },
        }
        self.caret_start = self.caret_start + sz;
        self.caret_end = self.caret_start;
    }

    /// Insert a text run holding `text` at the caret, then normalize; the
    /// caret advances past the inserted content and collapses.
    pub fn insert_text(&mut self, text: &str)
        requires
            old(self).wf(),
            old(self)@.caret_start + utf16_encode(text@).len() <= usize::MAX,
        ensures
            final(self)@.children == normalize_spec(
                insert_spec(
                    remove_selection_spec(old(self)@).children,
                    old(self)@.caret_start,
                    NodeView::Text { data: utf16_encode(text@) },
                ),
            ),
            final(self)@.caret_start == old(self)@.caret_start + utf16_encode(text@).len(),
            final(self)@.caret_end == final(self)@.caret_start,
            final(self).wf(),
    {
        let data = encode_utf16(text);
        let node = Node::Text { data };
        self.insert_node(node);
        normalize_children(&mut self.children);
    }

    /// Insert an image element with the given source, alternative text and
    /// class at the caret, then normalize; the caret advances past the
    /// element's serialized markup and collapses.
    pub fn insert_image(&mut self, src: &str, alt: &str, cls: &str)
        requires
            old(self).wf(),
            old(self)@.caret_start + img_markup(src@, alt@, cls@).len() <= usize::MAX,
        ensures
            final(self)@.children == normalize_spec(
                insert_spec(
                    remove_selection_spec(old(self)@).children,
                    old(self)@.caret_start,
                    NodeView::Element { markup: img_markup(src@, alt@, cls@) },
                ),
            ),
            final(self)@.caret_start == old(self)@.caret_start + img_markup(
                src@,
                alt@,
                cls@,
            ).len(),
            final(self)@.caret_end == final(self)@.caret_start,
            final(self).wf(),
    {
        let mut markup = encode_utf16("<img src=\"");
        let mut part = encode_utf16(src);
        markup.append(&mut part);
        let mut part = encode_utf16("\" alt=\"");
        markup.append(&mut part);
        let mut part = encode_utf16(alt);
        markup.append(&mut part);
        let mut part = encode_utf16("\" class=\"");
        markup.append(&mut part);
        let mut part = encode_utf16(cls);
        markup.append(&mut part);
        let mut part = encode_utf16("\">");
        markup.append(&mut part);
        proof {
            assert(markup@ =~= img_markup(src@, alt@, cls@));
        }
        let node = Node::Element { markup };
        self.insert_node(node);
        normalize_children(&mut self.children);
    }

    /// Compute the host-environment selection that renders the caret state.
    /// `None` is returned only when the caret lies beyond all content and
    /// the tree has no last child to anchor it to: an invariant violation
    /// the caller must treat as fatal.
    pub fn set_dom_caret_position_from_state(&self) -> (r: Option<(Position, Option<Position>)>)
        ensures
            r == project_spec(self@),
    {
        let start_opt = crate::locate::find_node_at(
            &self.children,
            self.caret_start,
            Direction::After,
        );
        let end_opt = if self.caret_end > self.caret_start {
            crate::locate::find_node_at(&self.children, self.caret_end, Direction::Before)
        } else {
            Option::None
        };
        match start_opt {
            Option::Some(start) => {
                let start_pos = Position::Offset { index: start.index, offset: start.offset };
                match end_opt {
                    Option::Some(end) => Option::Some(
                        (
                            start_pos,
                            Option::Some(
                                Position::Offset { index: end.index, offset: end.offset },
                            ),
                        ),
                    ),
                    Option::None => Option::Some((start_pos, Option::None)),
                }
            },
            Option::None => {
                let count = self.children.len();
                if count > 0 {
                    Option::Some((Position::After { index: count - 1 }, Option::None))
                } else {
                    Option::None
                }
            },
        }
    }
}

/// The serialized markup of an image element with source `src`, alternative
/// text `alt` and class `cls`, as UTF-16 code units.
pub open spec fn img_markup(src: Seq<char>, alt: Seq<char>, cls: Seq<char>) -> Seq<u16> {
    utf16_encode("<img src=\""@) + utf16_encode(src) + utf16_encode("\" alt=\""@) + utf16_encode(
        alt,
    ) + utf16_encode("\" class=\""@) + utf16_encode(cls) + utf16_encode("\">"@)
}

/// Inserting at a located boundary (a resolved location with local offset
/// zero) never splits a node: the new children are exactly the old ones with
/// the new node placed at the located index, every old node kept whole.
pub proof fn lemma_insert_at_boundary_never_splits(
    cs: Seq<NodeView>,
    at: nat,
    n: NodeView,
    i: nat,
)
    requires
        locate_spec(cs, at, Direction::After) == Option::Some((i, 0nat)),
    ensures
        insert_spec(cs, at, n) == cs.insert(i as int, n),
        insert_spec(cs, at, n).len() == cs.len() + 1,
        forall|k: int| 0 <= k < i ==> insert_spec(cs, at, n)[k] == cs[k],
        forall|k: int| i < k < cs.len() + 1 ==> insert_spec(cs, at, n)[k] == cs[k - 1],
{
    lemma_locate_from_sound(cs, at, 0, Direction::After);
}

/// Projecting the caret to the environment and reading it back reproduces
/// the caret state whenever both locator calls resolve: converting each
/// located position back to a linear offset (the sizes of the children
/// before it plus its local offset) yields exactly the original start and
/// end.
pub proof fn lemma_project_read_round_trip(v: ComposeAreaView)
    requires
        v.caret_start <= v.caret_end,
        v.caret_end <= total_size(v.children),
    ensures
        match locate_spec(v.children, v.caret_start, Direction::After) {
            Option::Some(sl) => prefix_size(v.children, sl.0 as int) + sl.1 == v.caret_start,
            Option::None => true,
        },
        v.caret_end > v.caret_start ==> match locate_spec(
            v.children,
            v.caret_end,
            Direction::Before,
        ) {
            Option::Some(el) => prefix_size(v.children, el.0 as int) + el.1 == v.caret_end,
            Option::None => true,
        },
{
    lemma_locate_offset_sum(v.children, v.caret_start, Direction::After);
    lemma_locate_offset_sum(v.children, v.caret_end, Direction::Before);
}

} // verus!
