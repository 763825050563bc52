//! Tree editing: removing a linear range of content, and normalizing the
//! children by dropping empty text runs and merging adjacent ones.

use vstd::prelude::*;

use crate::locate::{prefix_size, total_size};
use crate::node::{node_size, views_of, Node, NodeView};

verus! {

/// The character data of a text run; the empty sequence for other nodes.
pub open spec fn text_data(n: NodeView) -> Seq<u16> {
    match n {
        NodeView::Text { data } => data,
        _ => Seq::empty(),
    }
}

/// What removing the linear range `[start, end)` leaves of the children.
///
/// A text run loses the code units the range covers; an element or unknown
/// node whose interior the range touches is removed whole; a node the range
/// misses is kept. The bounds are measured from the front of the sequence
/// and may lie outside it.
pub open spec fn remove_range_spec(cs: Seq<NodeView>, start: int, end: int) -> Seq<NodeView>
    decreases cs.len(),
{
    if cs.len() == 0 {
        cs
    } else {
        let n = cs[0];
        let sz = node_size(n) as int;
        let rest = remove_range_spec(cs.skip(1), start - sz, end - sz);
        let a = if start >= 0 {
            start
        } else {
            0
        };
        let b = if end <= sz {
            end
        } else {
            sz
        };
        if a >= b {
            seq![n] + rest
        } else {
            match n {
                NodeView::Text { data } => seq![
                    NodeView::Text { data: data.take(a) + data.skip(b) },
                ] + rest,
                _ => rest,
            }
        }
    }
}

/// Negative range bounds may be clamped to zero without changing the result.
proof fn lemma_remove_range_clamp(cs: Seq<NodeView>, start: int, end: int)
    ensures
        remove_range_spec(cs, start, end) == remove_range_spec(
            cs,
            if start >= 0 {
                start
            } else {
                0
            },
            if end >= 0 {
                end
            } else {
                0
            },
        ),
    decreases cs.len(),
{
    if cs.len() > 0 {
        let sz = node_size(cs[0]) as int;
        lemma_remove_range_clamp(cs.skip(1), start - sz, end - sz);
        let s1 = if start >= 0 {
            start
        } else {
            0
        };
        let e1 = if end >= 0 {
            end
        } else {
            0
        };
        lemma_remove_range_clamp(cs.skip(1), s1 - sz, e1 - sz);
    }
}

/// Whether the children are in normalized form: no empty text runs and no
/// two adjacent text runs.
pub open spec fn is_normalized(cs: Seq<NodeView>) -> bool {
    (forall|i: int| 0 <= i < cs.len() ==> ((#[trigger] cs[i]) is Text ==> text_data(cs[i]).len()
        > 0)) && (forall|i: int|
        0 <= i && i + 1 < cs.len() ==> !((#[trigger] cs[i]) is Text && cs[i + 1] is Text))
}

/// The normalized form of the children: empty text runs are dropped and
/// adjacent text runs are merged into one, leaving everything else as it is.
pub open spec fn normalize_spec(cs: Seq<NodeView>) -> Seq<NodeView>
    decreases cs.len(),
{
    if cs.len() == 0 {
        cs
    } else {
        let rest = normalize_spec(cs.skip(1));
        match cs[0] {
            NodeView::Text { data } => {
                if data.len() == 0 {
                    rest
                } else if rest.len() > 0 && rest[0] is Text {
                    seq![NodeView::Text { data: data + text_data(rest[0]) }] + rest.skip(1)
                } else {
                    seq![cs[0]] + rest
                }
            },
            _ => seq![cs[0]] + rest,
        }
    }
}

/// The result of normalizing is in normalized form.
pub proof fn lemma_normalize_normalizes(cs: Seq<NodeView>)
    ensures
        is_normalized(normalize_spec(cs)),
    decreases cs.len(),
{
    if cs.len() > 0 {
        lemma_normalize_normalizes(cs.skip(1));
        let rest = normalize_spec(cs.skip(1));
        match cs[0] {
            NodeView::Text { data } => {
                if data.len() == 0 {
                } else if rest.len() > 0 && rest[0] is Text {
                    let merged = NodeView::Text { data: data + text_data(rest[0]) };
                    let r = seq![merged] + rest.skip(1);
                    assert forall|i: int| 0 <= i && i + 1 < r.len() implies !((#[trigger] r[i])
                        is Text && r[i + 1] is Text) by {
                        if i == 0 {
                            assert(r[1] == rest[1]);
                        } else {
                            assert(r[i] == rest[i] && r[i + 1] == rest[i + 1]);
                        }
                    }
                    assert forall|i: int| 0 <= i < r.len() && (#[trigger] r[i]) is Text implies text_data(
                        r[i],
                    ).len() > 0 by {
                        if i > 0 {
                            assert(r[i] == rest[i]);
                        }
                    }
                } else {
                    let r = seq![cs[0]] + rest;
                    assert forall|i: int| 0 <= i && i + 1 < r.len() implies !((#[trigger] r[i])
                        is Text && r[i + 1] is Text) by {
                        if i == 0 {
                            assert(r[1] == rest[0]);
                        } else {
                            assert(r[i] == rest[i - 1] && r[i + 1] == rest[i]);
                        }
                    }
                    assert forall|i: int| 0 <= i < r.len() && (#[trigger] r[i]) is Text implies text_data(
                        r[i],
                    ).len() > 0 by {
                        if i > 0 {
                            assert(r[i] == rest[i - 1]);
                        }
                    }
                }
            },
            _ => {
                let r = seq![cs[0]] + rest;
                assert forall|i: int| 0 <= i && i + 1 < r.len() implies !((#[trigger] r[i])
                    is Text && r[i + 1] is Text) by {
                    if i == 0 {
                        assert(r[1] == rest[0]);
                    } else {
                        assert(r[i] == rest[i - 1] && r[i + 1] == rest[i]);
                    }
                }
                assert forall|i: int| 0 <= i < r.len() && (#[trigger] r[i]) is Text implies text_data(
                    r[i],
                ).len() > 0 by {
                    if i > 0 {
                        assert(r[i] == rest[i - 1]);
                    }
                }
            },
        }
    }
}

/// Normalizing leaves an already-normalized sequence unchanged.
pub proof fn lemma_normalize_fixed(cs: Seq<NodeView>)
    requires
        is_normalized(cs),
    ensures
        normalize_spec(cs) == cs,
    decreases cs.len(),
{
    if cs.len() > 0 {
        assert forall|i: int|
            0 <= i < cs.skip(1).len() && (#[trigger] cs.skip(1)[i]) is Text implies text_data(
            cs.skip(1)[i],
        ).len() > 0 by {
            assert(cs.skip(1)[i] == cs[i + 1]);
        }
        assert forall|i: int| 0 <= i && i + 1 < cs.skip(1).len() implies !((#[trigger] cs.skip(
            1,
        )[i]) is Text && cs.skip(1)[i + 1] is Text) by {
            assert(cs.skip(1)[i] == cs[i + 1] && cs.skip(1)[i + 1] == cs[i + 2]);
        }
        lemma_normalize_fixed(cs.skip(1));
        match cs[0] {
            NodeView::Text { data } => {
                assert(data.len() > 0);
                if cs.len() > 1 {
                    assert(!(cs[1] is Text));
                    assert(cs.skip(1)[0] == cs[1]);
                }
                assert(seq![cs[0]] + cs.skip(1) =~= cs);
            },
            _ => {
                assert(seq![cs[0]] + cs.skip(1) =~= cs);
            },
        }
    }
}

/// Normalize is idempotent: applying it twice yields the same tree as
/// applying it once.
pub proof fn lemma_normalize_idempotent(cs: Seq<NodeView>)
    ensures
        normalize_spec(normalize_spec(cs)) == normalize_spec(cs),
{
    lemma_normalize_normalizes(cs);
    lemma_normalize_fixed(normalize_spec(cs));
}

/// Prefix sums measured after prepending one node.
proof fn lemma_prefix_size_cons(n: NodeView, s: Seq<NodeView>, i: int)
    requires
        0 <= i <= s.len(),
    ensures
        prefix_size(seq![n] + s, i + 1) == node_size(n) + prefix_size(s, i),
    decreases i,
{
    let c = seq![n] + s;
    assert(prefix_size(c, i + 1) == prefix_size(c, i) + node_size(c[i]));
    if i > 0 {
        lemma_prefix_size_cons(n, s, i - 1);
        assert(c[i] == s[i - 1]);
        assert(prefix_size(s, i) == prefix_size(s, i - 1) + node_size(s[i - 1]));
    } else {
        assert(c[0] == n);
        assert(prefix_size(c, 0) == 0);
        assert(prefix_size(s, 0) == 0);
    }
}

/// The total size of a sequence with one node in front.
proof fn lemma_total_size_cons(n: NodeView, s: Seq<NodeView>)
    ensures
        total_size(seq![n] + s) == node_size(n) + total_size(s),
{
    lemma_prefix_size_cons(n, s, s.len() as int);
    assert((seq![n] + s).len() == s.len() + 1);
}

/// Normalizing preserves the total size of the children: dropping empty text
/// runs and merging adjacent ones leaves the linear offset space unchanged,
/// so a caret position stays meaningful across a normalize.
pub proof fn lemma_normalize_preserves_total_size(cs: Seq<NodeView>)
    ensures
        total_size(normalize_spec(cs)) == total_size(cs),
    decreases cs.len(),
{
    if cs.len() > 0 {
        lemma_normalize_preserves_total_size(cs.skip(1));
        let rest = normalize_spec(cs.skip(1));
        assert(seq![cs[0]] + cs.skip(1) =~= cs);
        lemma_total_size_cons(cs[0], cs.skip(1));
        match cs[0] {
            NodeView::Text { data } => {
                if data.len() == 0 {
                } else if rest.len() > 0 && rest[0] is Text {
                    let merged = NodeView::Text { data: data + text_data(rest[0]) };
                    lemma_total_size_cons(merged, rest.skip(1));
                    assert(seq![rest[0]] + rest.skip(1) =~= rest);
                    lemma_total_size_cons(rest[0], rest.skip(1));
                } else {
                    lemma_total_size_cons(cs[0], rest);
                }
            },
            _ => {
                lemma_total_size_cons(cs[0], rest);
            },
        }
    }
}

/// The models of a pushed sequence are the models with the new model pushed.
proof fn lemma_views_of_push(s: Seq<Node>, n: Node)
    ensures
        views_of(s.push(n)) == views_of(s).push(n@),
{
    assert(views_of(s.push(n)) =~= views_of(s).push(n@));
}

/// Taking models commutes with dropping the first child.
proof fn lemma_views_of_skip1(s: Seq<Node>)
    requires
        s.len() > 0,
    ensures
        views_of(s.remove(0)) == views_of(s).skip(1),
        views_of(s)[0] == s[0]@,
{
    assert(views_of(s.remove(0)) =~= views_of(s).skip(1));
}

/// `data` with the code units in `[a, b)` removed.
pub(crate) fn cut_units(data: &Vec<u16>, a: usize, b: usize) -> (r: Vec<u16>)
    requires
        a <= b <= data@.len(),
    ensures
        r@ == data@.take(a as int) + data@.skip(b as int),
{
    let mut r: Vec<u16> = Vec::new();
    let mut i: usize = 0;
    while i < a
        invariant
            i <= a <= b <= data@.len(),
            r@ == data@.take(i as int),
        decreases a - i,
    {
        r.push(data[i]);
        assert(data@.take(i + 1) =~= data@.take(i as int).push(data@[i as int]));
        i = i + 1;
    }
    let mut j: usize = b;
    while j < data.len()
        invariant
            a <= b <= j <= data@.len(),
            r@ == data@.take(a as int) + data@.subrange(b as int, j as int),
        decreases data@.len() - j,
    {
        r.push(data[j]);
        assert(data@.subrange(b as int, j + 1) =~= data@.subrange(b as int, j as int).push(
            data@[j as int],
        ));
        j = j + 1;
    }
    assert(data@.subrange(b as int, data@.len() as int) =~= data@.skip(b as int));
    r
}

/// Remove the linear range `[start, end)` from the children: text runs lose
/// the covered code units, and any element or unknown node the range touches
/// is removed whole.
pub fn remove_range(children: &mut Vec<Node>, start: usize, end: usize)
    ensures
        views_of(final(children)@) == remove_range_spec(
            views_of(old(children)@),
            start as int,
            end as int,
        ),
{
    let ghost orig = views_of(children@);
    let mut out: Vec<Node> = Vec::new();
    let mut rs = start;
    let mut re = end;
    while children.len() > 0
        invariant
            remove_range_spec(orig, start as int, end as int) == views_of(out@)
                + remove_range_spec(views_of(children@), rs as int, re as int),
        decreases children.len(),
    {
        let ghost cs = views_of(children@);
        let ghost pre_children = children@;
        let n = children.remove(0);
        proof {
            lemma_views_of_skip1(pre_children);
        }
        let ghost rest_spec = remove_range_spec(
            cs.skip(1),
            rs - node_size(n@),
            re - node_size(n@),
        );
        let sz = n.html_size();
        let b = if re > sz {
            sz
        } else {
            re
        };
        if rs >= b {
            let ghost pre_out = out@;
            out.push(n);
            proof {
                lemma_views_of_push(pre_out, n);
                assert(views_of(out@) + rest_spec =~= views_of(pre_out) + (seq![n@] + rest_spec));
            }
        } else {
            match n {
                Node::Text { data } => {
                    let kept = cut_units(&data, rs, b);
                    let cut_node = Node::Text { data: kept };
                    let ghost pre_out = out@;
                    out.push(cut_node);
                    proof {
                        lemma_views_of_push(pre_out, cut_node);
                        assert(views_of(out@) + rest_spec =~= views_of(pre_out) + (seq![cut_node@]
                            + rest_spec));
                    }
                },
                _ => {},
            }
        }
        proof {
            lemma_remove_range_clamp(cs.skip(1), rs - sz, re - sz);
        }
        rs = if rs > sz {
            rs - sz
        } else {
            0
        };
        re = if re > sz {
            re - sz
        } else {
            0
        };
    }
    assert(views_of(out@) + remove_range_spec(views_of(children@), rs as int, re as int)
        =~= views_of(out@));
    *children = out;
}

/// Concatenation of two child runs, merging a text run that would become
/// adjacent at the seam.
spec fn glue(x: Seq<NodeView>, y: Seq<NodeView>) -> Seq<NodeView> {
    if x.len() > 0 && x.last() is Text && y.len() > 0 && y[0] is Text {
        x.drop_last() + seq![NodeView::Text { data: text_data(x.last()) + text_data(y[0]) }]
            + y.skip(1)
    } else {
        x + y
    }
}

/// One unfolding of `normalize_spec` on a non-empty sequence.
spec fn norm_cons(h: NodeView, rest: Seq<NodeView>) -> Seq<NodeView> {
    match h {
        NodeView::Text { data } => {
            if data.len() == 0 {
                rest
            } else if rest.len() > 0 && rest[0] is Text {
                seq![NodeView::Text { data: data + text_data(rest[0]) }] + rest.skip(1)
            } else {
                seq![h] + rest
            }
        },
        _ => seq![h] + rest,
    }
}

proof fn lemma_normalize_unfold(cs: Seq<NodeView>)
    requires
        cs.len() > 0,
    ensures
        normalize_spec(cs) == norm_cons(cs[0], normalize_spec(cs.skip(1))),
{
}

/// Gluing the empty run on the right is the identity.
proof fn lemma_glue_empty(x: Seq<NodeView>)
    ensures
        glue(x, Seq::<NodeView>::empty()) == x,
{
    assert(x + Seq::<NodeView>::empty() =~= x);
}

/// Absorbing a text run into a trailing text run commutes with gluing.
proof fn lemma_glue_absorb(x: Seq<NodeView>, d: Seq<u16>, rest: Seq<NodeView>)
    requires
        x.len() > 0,
        x.last() is Text,
        d.len() > 0,
    ensures
        glue(
            x.drop_last().push(NodeView::Text { data: text_data(x.last()) + d }),
            rest,
        ) == glue(x, norm_cons(NodeView::Text { data: d }, rest)),
{
    let e = text_data(x.last());
    let xm = x.drop_last().push(NodeView::Text { data: e + d });
    assert(xm.drop_last() =~= x.drop_last());
    if rest.len() > 0 && rest[0] is Text {
        let f = text_data(rest[0]);
        let y = seq![NodeView::Text { data: d + f }] + rest.skip(1);
        assert(y[0] is Text);
        assert(y.skip(1) =~= rest.skip(1));
        assert(e + (d + f) =~= (e + d) + f);
        assert(glue(xm, rest) =~= glue(x, y));
    } else {
        let y = seq![NodeView::Text { data: d }] + rest;
        assert(y[0] is Text);
        assert(y.skip(1) =~= rest);
        assert(glue(xm, rest) =~= glue(x, y));
    }
}

/// Appending a text run after a run that does not end in text commutes with
/// gluing.
proof fn lemma_glue_push_text(x: Seq<NodeView>, d: Seq<u16>, rest: Seq<NodeView>)
    requires
        x.len() == 0 || !(x.last() is Text),
        d.len() > 0,
    ensures
        glue(x.push(NodeView::Text { data: d }), rest) == glue(
            x,
            norm_cons(NodeView::Text { data: d }, rest),
        ),
{
    let xp = x.push(NodeView::Text { data: d });
    assert(xp.last() == NodeView::Text { data: d });
    assert(xp.drop_last() =~= x);
    if rest.len() > 0 && rest[0] is Text {
        let f = text_data(rest[0]);
        let y = seq![NodeView::Text { data: d + f }] + rest.skip(1);
        assert(y[0] is Text);
        assert(glue(xp, rest) =~= glue(x, y));
    } else {
        let y = seq![NodeView::Text { data: d }] + rest;
        assert(y[0] is Text);
        assert(glue(xp, rest) =~= glue(x, y));
    }
}

/// Appending a node that is not a text run commutes with gluing.
proof fn lemma_glue_push_solid(x: Seq<NodeView>, nv: NodeView, rest: Seq<NodeView>)
    requires
        !(nv is Text),
    ensures
        glue(x.push(nv), rest) == glue(x, seq![nv] + rest),
{
    let y = seq![nv] + rest;
    assert(!(y[0] is Text));
    let xp = x.push(nv);
    assert(xp.last() == nv);
    if rest.len() > 0 && rest[0] is Text {
        assert(glue(xp, rest) =~= glue(x, y));
    } else {
        assert(glue(xp, rest) =~= glue(x, y));
    }
}

/// A normalized run stays normalized when its trailing text run grows.
proof fn lemma_normalized_grow_last(x: Seq<NodeView>, d: Seq<u16>)
    requires
        is_normalized(x),
        x.len() > 0,
        x.last() is Text,
        d.len() > 0,
    ensures
        is_normalized(x.drop_last().push(NodeView::Text { data: text_data(x.last()) + d })),
{
    let r = x.drop_last().push(NodeView::Text { data: text_data(x.last()) + d });
    assert(text_data(x.last()).len() > 0);
    assert forall|i: int| 0 <= i < r.len() && (#[trigger] r[i]) is Text implies text_data(
        r[i],
    ).len() > 0 by {
        if i < r.len() - 1 {
            assert(r[i] == x[i]);
        }
    }
    assert forall|i: int| 0 <= i && i + 1 < r.len() implies !((#[trigger] r[i]) is Text && r[i
        + 1] is Text) by {
        assert(r[i] == x[i]);
        if i + 1 < r.len() - 1 {
            assert(r[i + 1] == x[i + 1]);
        } else {
            assert(x[i] == r[i] && x[i + 1] == x.last() && x.last() is Text);
        }
    }
}

/// A normalized run stays normalized when a non-empty text run is appended
/// after a node that is not a text run.
proof fn lemma_normalized_push_text(x: Seq<NodeView>, d: Seq<u16>)
    requires
        is_normalized(x),
        x.len() == 0 || !(x.last() is Text),
        d.len() > 0,
    ensures
        is_normalized(x.push(NodeView::Text { data: d })),
{
    let r = x.push(NodeView::Text { data: d });
    assert forall|i: int| 0 <= i < r.len() && (#[trigger] r[i]) is Text implies text_data(
        r[i],
    ).len() > 0 by {
        if i < r.len() - 1 {
            assert(r[i] == x[i]);
        }
    }
    assert forall|i: int| 0 <= i && i + 1 < r.len() implies !((#[trigger] r[i]) is Text && r[i
        + 1] is Text) by {
        assert(r[i] == x[i]);
        if i + 1 < r.len() - 1 {
            assert(r[i + 1] == x[i + 1]);
        }
    }
}

/// A normalized run stays normalized when a node that is not a text run is
/// appended.
proof fn lemma_normalized_push_solid(x: Seq<NodeView>, nv: NodeView)
    requires
        is_normalized(x),
        !(nv is Text),
    ensures
        is_normalized(x.push(nv)),
{
    let r = x.push(nv);
    assert forall|i: int| 0 <= i < r.len() && (#[trigger] r[i]) is Text implies text_data(
        r[i],
    ).len() > 0 by {
        if i < r.len() - 1 {
            assert(r[i] == x[i]);
        }
    }
    assert forall|i: int| 0 <= i && i + 1 < r.len() implies !((#[trigger] r[i]) is Text && r[i
        + 1] is Text) by {
        assert(r[i] == x[i]);
        if i + 1 < r.len() - 1 {
            assert(r[i + 1] == x[i + 1]);
        }
    }
}

/// Normalize the children: drop empty text runs and merge adjacent text runs
/// into one.
pub fn normalize_children(children: &mut Vec<Node>)
    ensures
        views_of(final(children)@) == normalize_spec(views_of(old(children)@)),
{
    let ghost orig = views_of(children@);
    let mut out: Vec<Node> = Vec::new();
    while children.len() > 0
        invariant
            is_normalized(views_of(out@)),
            normalize_spec(orig) == glue(views_of(out@), normalize_spec(views_of(children@))),
        decreases children.len(),
    {
        let ghost cs = views_of(children@);
        let ghost pre_children = children@;
        let n = children.remove(0);
        proof {
            lemma_views_of_skip1(pre_children);
            lemma_normalize_unfold(cs);
        }
        let ghost rest = normalize_spec(cs.skip(1));
        match n {
            Node::Text { data } => {
                if data.len() == 0 {
                } else {
                    let ghost dv = data@;
                    let ghost outv = views_of(out@);
                    let last_is_text = if out.len() > 0 {
                        matches!(&out[out.len() - 1], Node::Text { .. })
                    } else {
                        false
                    };
                    if last_is_text {
                        let ghost pre_pop = out@;
                        let last = out.pop().unwrap();
                        proof {
                            assert(outv.last() == pre_pop[pre_pop.len() - 1]@);
                        }
                        match last {
                            Node::Text { data: prev } => {
                                let mut merged = prev;
                                let mut tail = data;
                                merged.append(&mut tail);
                                let merged_node = Node::Text { data: merged };
                                let ghost popped = out@;
                                out.push(merged_node);
                                proof {
                                    assert(views_of(popped) =~= outv.drop_last());
                                    lemma_views_of_push(popped, merged_node);
                                    assert(merged_node@ == NodeView::Text {
                                        data: text_data(outv.last()) + dv,
                                    });
                                    lemma_glue_absorb(outv, dv, rest);
                                    lemma_normalized_grow_last(outv, dv);
                                }
                            },
                            _ => {
                                proof {
                                    assert(false);
                                }
                            },
                        }
                    } else {
                        let text_node = Node::Text { data };
                        let ghost pre_out = out@;
                        out.push(text_node);
                        proof {
                            if outv.len() > 0 {
                                assert(outv.last() == pre_out[pre_out.len() - 1]@);
                            }
                            lemma_views_of_push(pre_out, text_node);
                            lemma_glue_push_text(outv, dv, rest);
                            lemma_normalized_push_text(outv, dv);
                        }
                    }
                }
            },
            other => {
                let ghost outv = views_of(out@);
                let ghost nv = other@;
                let ghost pre_out = out@;
                out.push(other);
                proof {
                    lemma_views_of_push(pre_out, other);
                    lemma_glue_push_solid(outv, nv, rest);
                    assert(norm_cons(cs[0], rest) == seq![nv] + rest);
                    lemma_normalized_push_solid(outv, nv);
                }
            },
        }
    }
    proof {
        lemma_glue_empty(views_of(out@));
    }
    *children = out;
}

} // verus!
