use vstd::prelude::*;
use crate::node::{AttrsView, JsonValue, NodeView};
use crate::text::{collapse_spaces, no_double_space};
use crate::heading::{
    first_key, keys_distinct, level_key, level_of, clamp_level, normalized_heading_attrs,
};
use crate::format::{
    process_node, process_list, format_view, valid_node, text_tag, heading_tag,
    paragraph_tag, image_tag,
};

verus! {

/// A non-empty string keeps its last character, so it never collapses to nothing.
pub proof fn lemma_collapse_keeps_last(s: Seq<char>)
    requires
        s.len() > 0,
    ensures
        collapse_spaces(s).len() > 0,
        collapse_spaces(s).last() == s.last(),
    decreases s.len(),
{
    if s.len() >= 2 && s.last() == ' ' && s[s.len() - 2] == ' ' {
        lemma_collapse_keeps_last(s.drop_last());
    }
}

/// The collapsed string has no two neighbouring spaces.
pub proof fn lemma_collapse_no_double(s: Seq<char>)
    ensures
        no_double_space(collapse_spaces(s)),
    decreases s.len(),
{
    if s.len() > 0 {
        let p = collapse_spaces(s.drop_last());
        lemma_collapse_no_double(s.drop_last());
        if !(s.len() >= 2 && s.last() == ' ' && s[s.len() - 2] == ' ') {
            if s.len() >= 2 {
                lemma_collapse_keeps_last(s.drop_last());
            }
            let r = p.push(s.last());
            assert forall|i: int| 0 <= i < r.len() - 1 implies !(#[trigger] r[i] == ' ' && r[i
                + 1] == ' ') by {
                if i < p.len() - 1 {
                    assert(r[i] == p[i] && r[i + 1] == p[i + 1]);
                }
            }
        }
    }
}

/// A string with no two consecutive spaces is left unchanged.
pub proof fn lemma_collapse_identity(s: Seq<char>)
    requires
        no_double_space(s),
    ensures
        collapse_spaces(s) == s,
    decreases s.len(),
{
    if s.len() > 0 {
        let d = s.drop_last();
        assert(no_double_space(d)) by {
            assert forall|i: int| 0 <= i < d.len() - 1 implies !(#[trigger] d[i] == ' ' && d[i
                + 1] == ' ') by {
                assert(d[i] == s[i] && d[i + 1] == s[i + 1]);
            }
        }
        lemma_collapse_identity(d);
        if s.len() >= 2 {
            assert(!(s[s.len() - 2] == ' ' && s[s.len() - 1] == ' '));
        }
        assert(d.push(s.last()) =~= s);
    }
}

/// Collapsing twice gives what collapsing once gave.
pub proof fn lemma_collapse_idempotent(s: Seq<char>)
    ensures
        collapse_spaces(collapse_spaces(s)) == collapse_spaces(s),
{
    lemma_collapse_no_double(s);
    lemma_collapse_identity(collapse_spaces(s));
}

/// A string of two or more spaces and nothing else collapses to one space.
pub proof fn lemma_all_spaces(s: Seq<char>)
    requires
        s.len() >= 2,
        forall|i: int| 0 <= i < s.len() ==> s[i] == ' ',
    ensures
        collapse_spaces(s) == seq![' '],
    decreases s.len(),
{
    let d = s.drop_last();
    if s.len() > 2 {
        lemma_all_spaces(d);
    } else {
        assert(d.drop_last().len() == 0);
        assert(collapse_spaces(d) == collapse_spaces(d.drop_last()).push(d.last()));
        assert(collapse_spaces(d) =~= seq![' ']);
    }
}

proof fn lemma_first_key_unique(e: Seq<(Seq<char>, JsonValue)>, k: Seq<char>, i: int, j: int)
    requires
        first_key(e, k, i),
        first_key(e, k, j),
    ensures
        i == j,
{
    if i < j {
        assert(e[i].0 != k);
    } else if j < i {
        assert(e[j].0 != k);
    }
}

proof fn lemma_first_key_exists(e: Seq<(Seq<char>, JsonValue)>, k: Seq<char>, j: int)
    requires
        0 <= j < e.len(),
        e[j].0 == k,
    ensures
        exists|i: int| first_key(e, k, i),
    decreases j,
{
    if forall|m: int| 0 <= m < j ==> e[m].0 != k {
        assert(first_key(e, k, j));
    } else {
        let m = choose|m: int| 0 <= m < j && e[m].0 == k;
        lemma_first_key_exists(e, k, m);
    }
}

proof fn lemma_level_update_stable(e: Seq<(Seq<char>, JsonValue)>, i: int)
    requires
        first_key(e, level_key(), i),
        e[i].1 == JsonValue::Int(clamp_level(level_of(e[i].1)) as i64),
    ensures
        normalized_heading_attrs(Some(AttrsView::Object(e))) == AttrsView::Object(e),
{
    let l = level_key();
    let i2 = choose|i2: int| first_key(e, l, i2);
    lemma_first_key_unique(e, l, i, i2);
    assert(e.update(i, (l, JsonValue::Int(clamp_level(level_of(e[i].1)) as i64))) =~= e);
}

/// Normalizing a heading's attributes a second time changes nothing.
pub proof fn lemma_heading_attrs_idempotent(a: Option<AttrsView>)
    ensures
        normalized_heading_attrs(Some(normalized_heading_attrs(a))) == normalized_heading_attrs(a),
{
    let l = level_key();
    match a {
        None => {
            let e = seq![(l, JsonValue::Int(2))];
            assert(first_key(e, l, 0));
            lemma_level_update_stable(e, 0);
        },
        Some(AttrsView::Object(e)) => {
            if exists|i: int| first_key(e, l, i) {
                let i = choose|i: int| first_key(e, l, i);
                let c = clamp_level(level_of(e[i].1)) as i64;
                let e2 = e.update(i, (l, JsonValue::Int(c)));
                assert(first_key(e2, l, i));
                lemma_level_update_stable(e2, i);
            } else {
                let e2 = e.push((l, JsonValue::Int(2)));
                let n = e.len() as int;
                assert forall|j: int| 0 <= j < n implies e2[j].0 != l by {
                    if e2[j].0 == l {
                        lemma_first_key_exists(e, l, j);
                    }
                }
                assert(first_key(e2, l, n));
                lemma_level_update_stable(e2, n);
            }
        },
        Some(AttrsView::Other(v)) => {},
    }
}

/// Normalizing a heading's attributes never makes a key occur twice.
pub proof fn lemma_heading_attrs_keys_distinct(a: Option<AttrsView>)
    requires
        a matches Some(AttrsView::Object(e)) ==> keys_distinct(e),
    ensures
        normalized_heading_attrs(a) matches AttrsView::Object(e2) ==> keys_distinct(e2),
{
    let l = level_key();
    if let Some(AttrsView::Object(e)) = a {
        if exists|i: int| first_key(e, l, i) {
            let i = choose|i: int| first_key(e, l, i);
            let e2 = e.update(i, (l, JsonValue::Int(clamp_level(level_of(e[i].1)) as i64)));
            assert forall|p: int, q: int| 0 <= p < q < e2.len() implies #[trigger] e2[p].0
                != #[trigger] e2[q].0 by {
                assert(e2[p].0 == e[p].0 && e2[q].0 == e[q].0);
            }
        } else {
            let e2 = e.push((l, JsonValue::Int(2)));
            assert forall|p: int, q: int| 0 <= p < q < e2.len() implies #[trigger] e2[p].0
                != #[trigger] e2[q].0 by {
                if q == e.len() && e2[p].0 == l {
                    lemma_first_key_exists(e, l, p);
                }
            }
        }
    }
}

/// A node that survives one pass comes out of a second pass unchanged.
pub proof fn lemma_node_stable(n: NodeView)
    ensures
        process_node(n) matches Some(m) ==> process_node(m) == Some(m),
    decreases n, 1nat,
{
    if n.node_type == text_tag() {
        if let Some(t) = n.text {
            lemma_collapse_idempotent(t);
        }
    } else {
        if let Some(c) = n.content {
            lemma_list_stable(c);
        }
        lemma_heading_attrs_idempotent(n.attrs);
    }
}

/// Processing the survivors of a sibling sequence again changes nothing.
pub proof fn lemma_list_stable(s: Seq<NodeView>)
    ensures
        process_list(process_list(s)) == process_list(s),
    decreases s, 0nat,
{
    if s.len() > 0 {
        let p = process_list(s.drop_last());
        lemma_list_stable(s.drop_last());
        lemma_node_stable(s.last());
        if let Some(m) = process_node(s.last()) {
            assert(p.push(m).drop_last() =~= p);
        }
    }
}

/// Formatting is idempotent: formatting a formatted document gives it back.
pub proof fn lemma_format_idempotent(d: NodeView)
    ensures
        format_view(format_view(d)) == format_view(d),
{
    if let Some(c) = d.content {
        lemma_list_stable(c);
    }
}

/// A text node whose text normalizes to the empty string is removed.
pub proof fn lemma_empty_text_dropped(n: NodeView)
    requires
        n.node_type == text_tag(),
        n.text is None || collapse_spaces(n.text->Some_0).len() == 0,
    ensures
        process_node(n) is None,
{
}

/// A node whose only child is a text node that normalizes to nothing loses
/// that child; only its own kind decides whether it then survives: a heading
/// is dropped, a paragraph stays with empty content.
pub proof fn lemma_empty_text_cascade(parent: NodeView, t: NodeView)
    requires
        parent.content == Some(seq![t]),
        t.node_type == text_tag(),
        t.text is None || collapse_spaces(t.text->Some_0).len() == 0,
    ensures
        parent.node_type == heading_tag() ==> process_node(parent) is None,
        parent.node_type == paragraph_tag() ==> process_node(parent) == Some(
            (NodeView { content: Some(Seq::empty()), ..parent }),
        ),
{
    let c = seq![t];
    let e = Seq::<NodeView>::empty();
    assert(c.drop_last() =~= e);
    assert(c.last() == t);
    assert(process_list(e) == e);
    assert(process_node(t) is None);
    assert(process_list(c) == process_list(e));
    assert(paragraph_tag().len() != text_tag().len());
    assert(paragraph_tag().len() != heading_tag().len());
    assert(heading_tag().len() != text_tag().len());
}

/// A paragraph with no content, or empty content, survives unchanged.
pub proof fn lemma_paragraph_kept(n: NodeView)
    requires
        n.node_type == paragraph_tag(),
        n.content is None || n.content == Some(Seq::<NodeView>::empty()),
    ensures
        process_node(n) == Some(n),
{
    assert(paragraph_tag().len() != text_tag().len());
    assert(paragraph_tag().len() != heading_tag().len());
    if n.content is Some {
        assert(process_list(Seq::<NodeView>::empty()) =~= Seq::<NodeView>::empty());
    }
}

/// An image survives exactly when it has attributes, whatever they hold.
pub proof fn lemma_image_rule(n: NodeView)
    requires
        n.node_type == image_tag(),
    ensures
        process_node(n) is Some <==> n.attrs is Some,
{
    assert(image_tag().len() != text_tag().len());
    assert(image_tag().len() != heading_tag().len());
    assert(image_tag().len() != paragraph_tag().len());
}

/// Dropping the middle of three siblings leaves the other two, normalized,
/// in the order they came in.
pub proof fn lemma_order_preserved(a: NodeView, b: NodeView, c: NodeView)
    requires
        process_node(a) is Some,
        process_node(b) is None,
        process_node(c) is Some,
    ensures
        process_list(seq![a, b, c]) == seq![process_node(a)->Some_0, process_node(c)->Some_0],
{
    let e = Seq::<NodeView>::empty();
    let s1 = seq![a];
    let s2 = seq![a, b];
    let s3 = seq![a, b, c];
    assert(s3.drop_last() =~= s2 && s3.last() == c);
    assert(s2.drop_last() =~= s1 && s2.last() == b);
    assert(s1.drop_last() =~= e && s1.last() == a);
    assert(process_list(e) == e);
    assert(process_list(s1) == e.push(process_node(a)->Some_0));
    assert(process_list(s2) == process_list(s1));
    assert(process_list(s3) == process_list(s2).push(process_node(c)->Some_0));
    assert(process_list(s3) =~= seq![process_node(a)->Some_0, process_node(c)->Some_0]);
}

/// Processing is a stable filter: two sibling runs processed together give
/// the first run's survivors followed by the second's.
pub proof fn lemma_process_concat(s: Seq<NodeView>, t: Seq<NodeView>)
    ensures
        process_list(s + t) == process_list(s) + process_list(t),
    decreases t.len(),
{
    if t.len() == 0 {
        assert(s + t =~= s);
        assert(process_list(s) + process_list(t) =~= process_list(s));
    } else {
        let u = s + t;
        assert(u.drop_last() =~= s + t.drop_last());
        assert(u.last() == t.last());
        lemma_process_concat(s, t.drop_last());
        let p = process_list(s);
        let q = process_list(t.drop_last());
        if let Some(m) = process_node(t.last()) {
            assert((p + q).push(m) =~= p + q.push(m));
        }
    }
}

} // verus!
