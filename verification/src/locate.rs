//! The node locator: resolving a linear offset to a (child index, local
//! offset) location.
//!
//! The locator walks the children in order, consuming the requested offset.
//! When the offset falls exactly on a boundary between two nodes, the
//! [`Direction`] tie-break decides which neighbour owns it; past the end of
//! all content, `Before` clamps to the end of the last child and `After`
//! reports that no node follows.

use vstd::prelude::*;

use crate::node::{node_size, views_of, Direction, Node, NodeIndexOffset, NodeView};

verus! {

/// The sum of the sizes of the children before index `i`.
pub open spec fn prefix_size(cs: Seq<NodeView>, i: int) -> nat
    decreases i,
{
    if i <= 0 {
        0
    } else {
        prefix_size(cs, i - 1) + node_size(cs[i - 1])
    }
}

/// The total size of the child sequence in the linear offset space.
pub open spec fn total_size(cs: Seq<NodeView>) -> nat {
    prefix_size(cs, cs.len() as int)
}

/// The locator's walk from child `i` onward, with `rem` of the requested
/// offset still to consume.
///
/// At each child: a residue of zero is a boundary, resolved by the
/// tie-break; a residue inside the child resolves there; a residue exactly
/// at the child's end stays on the child for `Before` and moves past it for
/// `After`; a larger residue is carried on. An exhausted walk yields `None`
/// for `After`, and for `Before` clamps to the end of the last child.
pub open spec fn locate_from(cs: Seq<NodeView>, rem: nat, i: nat, dir: Direction) -> Option<
    (nat, nat),
>
    decreases cs.len() - i,
{
    if i >= cs.len() {
        match dir {
            Direction::Before => if cs.len() == 0 {
                None
            } else {
                Some(((cs.len() - 1) as nat, node_size(cs[cs.len() - 1])))
            },
            Direction::After => None,
        }
    } else if rem == 0 {
        match dir {
            Direction::Before => if i == 0 {
                None
            } else {
                Some(((i - 1) as nat, node_size(cs[i - 1])))
            },
            Direction::After => Some((i, 0)),
        }
    } else {
        let sz = node_size(cs[i as int]);
        if rem < sz {
            Some((i, rem))
        } else if rem == sz && dir == Direction::Before {
            Some((i, rem))
        } else {
            locate_from(cs, (rem - sz) as nat, (i + 1) as nat, dir)
        }
    }
}

/// What the locator returns for offset `o` with tie-break `dir`.
pub open spec fn locate_spec(cs: Seq<NodeView>, o: nat, dir: Direction) -> Option<(nat, nat)> {
    locate_from(cs, o, 0, dir)
}

/// Prefix sizes are monotone in the index.
pub proof fn lemma_prefix_size_monotone(cs: Seq<NodeView>, i: int, j: int)
    requires
        0 <= i <= j,
    ensures
        prefix_size(cs, i) <= prefix_size(cs, j),
    decreases j,
{
    if i < j {
        lemma_prefix_size_monotone(cs, i, j - 1);
    }
}

/// Soundness of the locator's walk: a located child lies in the sequence,
/// its local offset does not exceed its size, and its absolute position is
/// the remaining offset measured from child `i`, clamped to the total size
/// for the `Before` direction; `After` never clamps, and fails only past the
/// end of all content.
pub proof fn lemma_locate_from_sound(cs: Seq<NodeView>, rem: nat, i: nat, dir: Direction)
    requires
        i <= cs.len(),
    ensures
        match locate_from(cs, rem, i, dir) {
            Some(loc) => loc.0 < cs.len() && loc.1 <= node_size(cs[loc.0 as int]) && (
            if dir == Direction::After {
                prefix_size(cs, loc.0 as int) + loc.1 == prefix_size(cs, i as int) + rem
            } else {
                prefix_size(cs, loc.0 as int) + loc.1 == vstd::math::min(
                    prefix_size(cs, i as int) + rem as int,
                    total_size(cs) as int,
                )
            }),
            None => dir == Direction::After ==> prefix_size(cs, i as int) + rem
                >= total_size(cs),
        },
    decreases cs.len() - i,
{
    lemma_prefix_size_monotone(cs, i as int, cs.len() as int);
    if i >= cs.len() {
        if dir == Direction::Before && cs.len() > 0 {
            assert(prefix_size(cs, cs.len() - 1) + node_size(cs[cs.len() - 1]) == total_size(cs));
        }
    } else if rem == 0 {
        lemma_prefix_size_monotone(cs, i as int + 1, cs.len() as int);
    } else {
        let sz = node_size(cs[i as int]);
        lemma_prefix_size_monotone(cs, i as int + 1, cs.len() as int);
        if rem < sz {
        } else if rem == sz && dir == Direction::Before {
        } else {
            lemma_locate_from_sound(cs, (rem - sz) as nat, (i + 1) as nat, dir);
        }
    }
}

/// For every tree and every offset `o` within the total content size: if the
/// locator resolves `o` to a child and a local offset, then the sizes of the
/// children before that child plus the local offset sum to exactly `o`.
pub proof fn lemma_locate_offset_sum(cs: Seq<NodeView>, o: nat, dir: Direction)
    requires
        o <= total_size(cs),
    ensures
        match locate_spec(cs, o, dir) {
            Some(loc) => loc.0 < cs.len() && loc.1 <= node_size(cs[loc.0 as int])
                && prefix_size(cs, loc.0 as int) + loc.1 == o,
            None => true,
        },
{
    lemma_locate_from_sound(cs, o, 0, dir);
}

/// On an empty child sequence the locator returns `None` at offset zero, for
/// both directions.
pub proof fn lemma_locate_empty(dir: Direction)
    ensures
        locate_spec(Seq::<NodeView>::empty(), 0, dir) is None,
{
}

/// Resolve the linear offset `offset` to the child it falls in and the
/// residual offset from that child's start, with `direction` breaking the
/// tie at boundaries.
pub fn find_node_at(children: &Vec<Node>, offset: usize, direction: Direction) -> (r: Option<
    NodeIndexOffset,
>)
    ensures
        match r {
            Some(nio) => locate_spec(views_of(children@), offset as nat, direction) == Some(
                ((nio.index as nat), (nio.offset as nat)),
            ),
            None => locate_spec(views_of(children@), offset as nat, direction) is None,
        },
{
    let ghost cs = views_of(children@);
    let node_count = children.len();
    if node_count == 0 {
        return None;
    }
    let mut rem = offset;
    let mut index: usize = 0;
    while index < node_count
        invariant
            node_count == children.len(),
            node_count > 0,
            cs == views_of(children@),
            cs.len() == node_count,
            index <= node_count,
            locate_from(cs, rem as nat, index as nat, direction) == locate_spec(
                cs,
                offset as nat,
                direction,
            ),
        decreases node_count - index,
    {
        if rem == 0 {
            match direction {
                Direction::Before => {
                    if index == 0 {
                        return None;
                    }
                    let prev_size = children[index - 1].html_size();
                    return Some(NodeIndexOffset { index: index - 1, offset: prev_size });
                },
                Direction::After => {
                    return Some(NodeIndexOffset { index, offset: 0 });
                },
            }
        }
        let sz = children[index].html_size();
        if rem < sz {
            return Some(NodeIndexOffset { index, offset: rem });
        }
        if rem == sz && direction == Direction::Before {
            return Some(NodeIndexOffset { index, offset: rem });
        }
        rem = rem - sz;
        index = index + 1;
    }
    match direction {
        Direction::Before => {
            let last_size = children[node_count - 1].html_size();
            Some(NodeIndexOffset { index: node_count - 1, offset: last_size })
        },
        Direction::After => None,
    }
}

} // verus!
