//! From the XML tree to the shape of the KDL document.
use vstd::prelude::*;

use super::types::{
    copy_node, lemma_nodes_view, lemma_nodes_view_eq, node_view, nodes_view, Content,
    ContentType, XNode, XmlNode,
};
use crate::text::{
    blank, chars_of, is_blank, is_name_char, is_name_start, is_white_space, name_char, name_start,
    push_char, string_from_chars, trim, trimmed, white_space,
};
use vstd::utf8::encode_utf8;
use super::kdl_out::{entries_view, lemma_out_nodes_view, new_format, onode, ONode, OutEntry, OutNode, out_nodes_view};
use super::types::attrs_view;
use crate::constants::{COMMENT_NODE_NAME, DOCTYPE_NODE_NAME, PI_PREFIX, TEXT_NODE_NAME};
use crate::text::{all_white, join_spaces, lemma_trim_exact, str_eq};
use super::parser::decl_content;
use crate::kdl_to_xml::render::lemma_encode_concat;

verus! {

broadcast use vstd::string::group_string_axioms;

// ---------------------------------------------------------------------------
// Whitespace filtering
// ---------------------------------------------------------------------------

/// Whether some node of `s` is an element.
pub open spec fn has_element(s: Seq<XNode>) -> bool {
    exists|i: int| 0 <= i < s.len() && #[trigger] s[i] is Element
}

/// Whether some node of `s` is a comment or a processing instruction.
pub open spec fn has_comment_or_pi(s: Seq<XNode>) -> bool {
    exists|i: int|
        0 <= i < s.len() && (#[trigger] s[i] is Comment || s[i] is ProcessingInstruction)
}

/// Whether a child stays when whitespace is not preserved: text stays when
/// there is no element beside it, or when it is not all white space.
pub open spec fn kept(n: XNode, with_elements: bool) -> bool {
    match n {
        XNode::Text(t) => !with_elements || !is_blank(t),
        _ => true,
    }
}

/// The children of `s` that stay, in order.
pub open spec fn keep_children(s: Seq<XNode>, with_elements: bool) -> Seq<XNode>
    decreases s.len(),
{
    if s.len() == 0 {
        Seq::empty()
    } else {
        keep_children(s.drop_last(), with_elements) + if kept(s.last(), with_elements) {
            seq![s.last()]
        } else {
            Seq::empty()
        }
    }
}

/// The significant children: all of them when whitespace is preserved, else
/// those that [`kept`] keeps.
pub open spec fn significant_children(s: Seq<XNode>, preserve: bool) -> Seq<XNode> {
    if preserve {
        s
    } else {
        keep_children(s, has_element(s))
    }
}

proof fn lemma_keep_children_without_elements(s: Seq<XNode>)
    ensures
        keep_children(s, false) == s,
    decreases s.len(),
{
    if s.len() > 0 {
        lemma_keep_children_without_elements(s.drop_last());
        assert(s.drop_last().push(s.last()) == s);
    }
}

/// Only text that stands beside an element can be dropped as white space:
/// children among which there is no element are all significant, and with
/// whitespace preserved every child is.
pub proof fn lemma_significant_children_kept(s: Seq<XNode>, preserve: bool)
    ensures
        !has_element(s) ==> significant_children(s, preserve) == s,
        significant_children(s, true) == s,
{
    lemma_keep_children_without_elements(s);
}

proof fn lemma_keep_children_facts(s: Seq<XNode>, w: bool)
    ensures
        has_element(keep_children(s, w)) == has_element(s),
        forall|i: int| 0 <= i < keep_children(s, w).len() ==> kept(#[trigger] keep_children(s, w)[i], w),
    decreases s.len(),
{
    if s.len() > 0 {
        let front = s.drop_last();
        lemma_keep_children_facts(front, w);
        let k = keep_children(front, w);
        let r = keep_children(s, w);
        if kept(s.last(), w) {
            assert(r == k + seq![s.last()]);
            assert forall|i: int| 0 <= i < r.len() implies kept(#[trigger] r[i], w) by {
                if i < k.len() {
                    assert(r[i] == k[i]);
                }
            }
            if has_element(s) {
                let i = choose|i: int| 0 <= i < s.len() && #[trigger] s[i] is Element;
                if i < s.len() - 1 {
                    assert(front[i] == s[i]);
                    let j = choose|j: int| 0 <= j < k.len() && #[trigger] k[j] is Element;
                    assert(r[j] == k[j]);
                } else {
                    assert(r[r.len() - 1] == s.last());
                }
            }
            if has_element(r) {
                let j = choose|j: int| 0 <= j < r.len() && #[trigger] r[j] is Element;
                if j < k.len() {
                    assert(r[j] == k[j]);
                    let i = choose|i: int| 0 <= i < front.len() && #[trigger] front[i] is Element;
                    assert(s[i] == front[i]);
                } else {
                    assert(s[s.len() - 1] == s.last());
                }
            }
        } else {
            assert(r == k + Seq::<XNode>::empty());
            assert(r == k);
            assert(!(s.last() is Element));
            if has_element(s) {
                let i = choose|i: int| 0 <= i < s.len() && #[trigger] s[i] is Element;
                assert(i < s.len() - 1);
                assert(front[i] == s[i]);
            }
            if has_element(front) {
                let i = choose|i: int| 0 <= i < front.len() && #[trigger] front[i] is Element;
                assert(s[i] == front[i]);
            }
        }
    }
}

proof fn lemma_keep_children_all_kept(s: Seq<XNode>, w: bool)
    requires
        forall|i: int| 0 <= i < s.len() ==> kept(#[trigger] s[i], w),
    ensures
        keep_children(s, w) == s,
    decreases s.len(),
{
    if s.len() > 0 {
        let front = s.drop_last();
        assert forall|i: int| 0 <= i < front.len() implies kept(#[trigger] front[i], w) by {
            assert(front[i] == s[i]);
        }
        lemma_keep_children_all_kept(front, w);
        assert(kept(s[s.len() - 1], w));
        assert(front.push(s.last()) == s);
    }
}

/// Filtering children twice gives what filtering once gives.
pub proof fn lemma_significant_children_idempotent(s: Seq<XNode>, preserve: bool)
    ensures
        significant_children(significant_children(s, preserve), preserve) == significant_children(s, preserve),
{
    if !preserve {
        let w = has_element(s);
        lemma_keep_children_facts(s, w);
        let k = keep_children(s, w);
        lemma_keep_children_all_kept(k, w);
    }
}

fn any_element(children: &[XmlNode]) -> (b: bool)
    ensures
        b == has_element(nodes_view(children@)),
{
    proof { lemma_nodes_view(children@); }
    let mut i: usize = 0;
    while i < children.len()
        invariant
            i <= children.len(),
            nodes_view(children@).len() == children@.len(),
            forall|j: int| 0 <= j < children@.len() ==> #[trigger] nodes_view(children@)[j] == node_view(children@[j]),
            forall|j: int| 0 <= j < i ==> !(#[trigger] nodes_view(children@)[j] is Element),
        decreases children.len() - i,
    {
        if let XmlNode::Element { .. } = &children[i] {
            assert(nodes_view(children@)[i as int] is Element);
            return true;
        }
        i = i + 1;
    }
    false
}

/// The children that matter for the output: with `preserve_whitespace`
/// all of them; otherwise, where an element is among them, text that is
/// all white space is dropped.
pub fn filter_children_with_preserve(children: &[XmlNode], preserve_whitespace: bool) -> (r: Vec<XmlNode>)
    ensures
        nodes_view(r@) == significant_children(nodes_view(children@), preserve_whitespace),
{
    let ghost s = nodes_view(children@);
    proof { lemma_nodes_view(children@); }
    let mut r: Vec<XmlNode> = Vec::new();
    if preserve_whitespace {
        let mut i: usize = 0;
        while i < children.len()
            invariant
                i <= children.len(),
                r@.len() == i,
                forall|j: int| 0 <= j < i ==> node_view(#[trigger] r@[j]) == node_view(children@[j]),
            decreases children.len() - i,
        {
            r.push(copy_node(&children[i]));
            i = i + 1;
        }
        proof { lemma_nodes_view_eq(r@, s); }
        return r;
    }
    let has_elements = any_element(children);
    let mut i: usize = 0;
    assert(s.take(0) == Seq::<XNode>::empty());
    while i < children.len()
        invariant
            i <= children.len(),
            s == nodes_view(children@),
            s.len() == children@.len(),
            forall|j: int| 0 <= j < children@.len() ==> #[trigger] s[j] == node_view(children@[j]),
            has_elements == has_element(s),
            nodes_view(r@) == keep_children(s.take(i as int), has_elements),
        decreases children.len() - i,
    {
        assert(s.take(i + 1).drop_last() == s.take(i as int));
        assert(s.take(i + 1).last() == s[i as int]);
        let keep = match &children[i] {
            XmlNode::Text(t) => !has_elements || !blank(t.as_str()),
            _ => true,
        };
        assert(keep == kept(s[i as int], has_elements));
        if keep {
            let ghost before = r@;
            r.push(copy_node(&children[i]));
            proof {
                lemma_nodes_view(before);
                lemma_nodes_view(r@);
                assert(r@.drop_last() == before);
                assert(nodes_view(r@) =~= nodes_view(before) + seq![s[i as int]]);
            }
        }
        i = i + 1;
    }
    assert(s.take(children.len() as int) == s);
    r
}

// ---------------------------------------------------------------------------
// Content analysis
// ---------------------------------------------------------------------------

/// The contents of the text nodes of `s`, in order.
pub open spec fn texts(s: Seq<XNode>) -> Seq<Seq<char>>
    decreases s.len(),
{
    if s.len() == 0 {
        Seq::empty()
    } else {
        texts(s.drop_last()) + match s.last() {
            XNode::Text(t) => seq![t],
            _ => Seq::empty(),
        }
    }
}

/// The strings of `ts` one after the other.
pub open spec fn concat_all(ts: Seq<Seq<char>>) -> Seq<char>
    decreases ts.len(),
{
    if ts.len() == 0 {
        Seq::empty()
    } else {
        concat_all(ts.drop_last()) + ts.last()
    }
}

/// How children are laid out: nothing; one string when there is only text
/// (several text nodes joined); a children block otherwise, `Mixed` when
/// text stands beside elements, comments or processing instructions.
pub open spec fn analyze(s: Seq<XNode>) -> Content {
    if s.len() == 0 {
        Content::Empty
    } else if !has_element(s) && !has_comment_or_pi(s) {
        let ts = texts(s);
        if ts.len() == 1 {
            Content::PureText(ts[0])
        } else if ts.len() > 0 {
            Content::PureText(concat_all(ts))
        } else {
            Content::Empty
        }
    } else if has_comment_or_pi(s) && !has_element(s) && texts(s).len() > 0 {
        Content::Mixed(s)
    } else if has_element(s) && texts(s).len() > 0 {
        Content::Mixed(s)
    } else {
        Content::ElementsOnly(s)
    }
}

/// Classifies the children of an element.
pub fn analyze_content(children: &[XmlNode]) -> (c: ContentType)
    ensures
        c@ == analyze(nodes_view(children@)),
{
    let ghost s = nodes_view(children@);
    proof { lemma_nodes_view(children@); }
    if children.len() == 0 {
        return ContentType::Empty;
    }
    let mut has_elements = false;
    let mut has_comments_or_pis = false;
    let mut text_count: usize = 0;
    let mut first_text: usize = 0;
    let mut combined = String::new();
    let mut i: usize = 0;
    assert(s.take(0) == Seq::<XNode>::empty());
    while i < children.len()
        invariant
            i <= children.len(),
            s == nodes_view(children@),
            s.len() == children@.len(),
            forall|j: int| 0 <= j < children@.len() ==> #[trigger] s[j] == node_view(children@[j]),
            has_elements == has_element(s.take(i as int)),
            has_comments_or_pis == has_comment_or_pi(s.take(i as int)),
            text_count == texts(s.take(i as int)).len(),
            text_count <= i,
            combined@ == concat_all(texts(s.take(i as int))),
            text_count > 0 ==> first_text < i && children@[first_text as int] is Text
                && texts(s.take(i as int))[0] == node_view(children@[first_text as int])->Text_0,
        decreases children.len() - i,
    {
        let ghost p = s.take(i as int);
        let ghost q = s.take(i + 1);
        assert(q.drop_last() == p);
        assert(q.last() == s[i as int]);
        assert forall|j: int| 0 <= j < i implies #[trigger] q[j] == p[j] by {}
        match &children[i] {
            XmlNode::Element { .. } => {
                has_elements = true;
                assert(q[i as int] is Element);
            },
            XmlNode::Comment(_) => {
                has_comments_or_pis = true;
                assert(q[i as int] is Comment);
            },
            XmlNode::ProcessingInstruction { .. } => {
                has_comments_or_pis = true;
                assert(q[i as int] is ProcessingInstruction);
            },
            XmlNode::Text(t) => {
                if text_count == 0 {
                    first_text = i;
                }
                text_count = text_count + 1;
                combined.append(t.as_str());
                assert(texts(q) == texts(p) + seq![t@]);
                assert(texts(q).drop_last() =~= texts(p));
            },
            XmlNode::DocType(_) => {},
        }
        assert(has_elements == has_element(q)) by {
            if has_element(p) {
                let j = choose|j: int| 0 <= j < p.len() && #[trigger] p[j] is Element;
                assert(q[j] is Element);
            }
            if has_element(q) {
                let j = choose|j: int| 0 <= j < q.len() && #[trigger] q[j] is Element;
                if j < i {
                    assert(p[j] is Element);
                }
            }
        }
        assert(has_comments_or_pis == has_comment_or_pi(q)) by {
            if has_comment_or_pi(p) {
                let j = choose|j: int|
                    0 <= j < p.len() && (#[trigger] p[j] is Comment || p[j] is ProcessingInstruction);
                assert(q[j] is Comment || q[j] is ProcessingInstruction);
            }
            if has_comment_or_pi(q) {
                let j = choose|j: int|
                    0 <= j < q.len() && (#[trigger] q[j] is Comment || q[j] is ProcessingInstruction);
                if j < i {
                    assert(p[j] is Comment || p[j] is ProcessingInstruction);
                }
            }
        }
        i = i + 1;
    }
    assert(s.take(children.len() as int) == s);
    if !has_elements && !has_comments_or_pis {
        if text_count == 1 {
            if let XmlNode::Text(t) = &children[first_text] {
                return ContentType::PureText(t.clone());
            }
            return ContentType::Empty;
        } else if text_count > 0 {
            return ContentType::PureText(combined);
        }
        return ContentType::Empty;
    }
    let all = copy_nodes_slice(children);
    if has_comments_or_pis && !has_elements && text_count > 0 {
        return ContentType::Mixed(all);
    }
    if has_elements && text_count > 0 {
        ContentType::Mixed(all)
    } else {
        ContentType::ElementsOnly(all)
    }
}

/// A copy of a slice of nodes.
fn copy_nodes_slice(v: &[XmlNode]) -> (r: Vec<XmlNode>)
    ensures
        nodes_view(r@) == nodes_view(v@),
{
    let mut r: Vec<XmlNode> = Vec::new();
    let mut i: usize = 0;
    while i < v.len()
        invariant
            i <= v.len(),
            r@.len() == i,
            forall|j: int| 0 <= j < i ==> node_view(#[trigger] r@[j]) == node_view(v@[j]),
        decreases v.len() - i,
    {
        r.push(copy_node(&v[i]));
        i = i + 1;
    }
    proof {
        lemma_nodes_view(v@);
        lemma_nodes_view_eq(r@, nodes_view(v@));
    }
    r
}

// ---------------------------------------------------------------------------
// Processing-instruction content as attributes
// ---------------------------------------------------------------------------

/// The first position at or after `i` that is not white space.
pub open spec fn skip_ws(s: Seq<char>, i: int) -> int
    decreases s.len() - i,
{
    if 0 <= i < s.len() && is_white_space(s[i]) {
        skip_ws(s, i + 1)
    } else {
        i
    }
}

/// The first position at or after `i` that cannot continue a name.
pub open spec fn name_end(s: Seq<char>, i: int) -> int
    decreases s.len() - i,
{
    if 0 <= i < s.len() && is_name_char(s[i]) {
        name_end(s, i + 1)
    } else {
        i
    }
}

/// The value quoted by `q` that starts at `i`, with `\x` standing for `x`,
/// and the position after the closing quote (or the end of `s`).
pub open spec fn quoted_value(s: Seq<char>, i: int, q: char) -> (Seq<char>, int)
    decreases s.len() - i,
{
    if i < 0 || i >= s.len() {
        (Seq::empty(), i)
    } else if s[i] == '\\' && i + 1 < s.len() {
        let r = quoted_value(s, i + 2, q);
        (seq![s[i + 1]] + r.0, r.1)
    } else if s[i] == q {
        (Seq::empty(), i + 1)
    } else {
        let r = quoted_value(s, i + 1, q);
        (seq![s[i]] + r.0, r.1)
    }
}

pub proof fn lemma_skip_ws(s: Seq<char>, i: int)
    requires
        0 <= i,
    ensures
        i <= skip_ws(s, i),
        i <= s.len() ==> skip_ws(s, i) <= s.len(),
        forall|j: int| i <= j < skip_ws(s, i) ==> is_white_space(#[trigger] s[j]),
        skip_ws(s, i) < s.len() ==> !is_white_space(s[skip_ws(s, i)]),
    decreases s.len() - i,
{
    if 0 <= i < s.len() && is_white_space(s[i]) {
        lemma_skip_ws(s, i + 1);
    }
}

pub proof fn lemma_name_end(s: Seq<char>, i: int)
    requires
        0 <= i,
    ensures
        i <= name_end(s, i),
        i <= s.len() ==> name_end(s, i) <= s.len(),
        forall|j: int| i <= j < name_end(s, i) ==> is_name_char(#[trigger] s[j]),
        name_end(s, i) < s.len() ==> !is_name_char(s[name_end(s, i)]),
    decreases s.len() - i,
{
    if 0 <= i < s.len() && is_name_char(s[i]) {
        lemma_name_end(s, i + 1);
    }
}

pub proof fn lemma_quoted_value(s: Seq<char>, i: int, q: char)
    requires
        0 <= i,
    ensures
        i <= quoted_value(s, i, q).1,
        i <= s.len() ==> quoted_value(s, i, q).1 <= s.len(),
    decreases s.len() - i,
{
    if 0 <= i < s.len() {
        if s[i] == '\\' && i + 1 < s.len() {
            lemma_quoted_value(s, i + 2, q);
        } else if s[i] != q {
            lemma_quoted_value(s, i + 1, q);
        }
    }
}

/// The `key="value"` / `key='value'` pairs that open `s` from position `i`
/// on; the scan stops at the first thing that is not such a pair.
pub open spec fn pi_attrs_from(s: Seq<char>, i: int) -> Seq<(Seq<char>, Seq<char>)>
    decreases s.len() - i,
{
    if i < 0 || i > s.len() {
        Seq::empty()
    } else {
        let a = skip_ws(s, i);
        if a >= s.len() || !is_name_start(s[a]) {
            Seq::empty()
        } else {
            let b = name_end(s, a);
            let c = skip_ws(s, b);
            if c >= s.len() || s[c] != '=' {
                Seq::empty()
            } else {
                let d = skip_ws(s, c + 1);
                if d >= s.len() || (s[d] != '"' && s[d] != '\'') {
                    Seq::empty()
                } else {
                    let r = quoted_value(s, d + 1, s[d]);
                    proof {
                        lemma_skip_ws(s, i);
                        lemma_name_end(s, a);
                        lemma_skip_ws(s, b);
                        lemma_skip_ws(s, c + 1);
                        lemma_quoted_value(s, d + 1, s[d]);
                    }
                    seq![(s.subrange(a, b), r.0)] + pi_attrs_from(s, r.1)
                }
            }
        }
    }
}

proof fn lemma_skip_ws_at(s: Seq<char>, i: int, j: int)
    requires
        0 <= i <= j <= s.len(),
        forall|m: int| i <= m < j ==> is_white_space(#[trigger] s[m]),
        j == s.len() || !is_white_space(s[j]),
    ensures
        skip_ws(s, i) == j,
    decreases j - i,
{
    if i < j {
        lemma_skip_ws_at(s, i + 1, j);
    }
}

proof fn lemma_name_end_at(s: Seq<char>, i: int, j: int)
    requires
        0 <= i <= j <= s.len(),
        forall|m: int| i <= m < j ==> is_name_char(#[trigger] s[m]),
        j == s.len() || !is_name_char(s[j]),
    ensures
        name_end(s, i) == j,
    decreases j - i,
{
    if i < j {
        lemma_name_end_at(s, i + 1, j);
    }
}

proof fn lemma_quoted_value_at(s: Seq<char>, i: int, e: int, q: char)
    requires
        0 <= i <= e < s.len(),
        s[e] == q,
        q != '\\',
        forall|m: int| i <= m < e ==> #[trigger] s[m] != q && s[m] != '\\',
    ensures
        quoted_value(s, i, q) == (s.subrange(i, e), e + 1),
    decreases e - i,
{
    if i < e {
        assert(s[i] != q && s[i] != '\\');
        lemma_quoted_value_at(s, i + 1, e, q);
        assert(s.subrange(i, e) == seq![s[i]] + s.subrange(i + 1, e));
    } else {
        assert(s.subrange(i, e) == Seq::<char>::empty());
    }
}

proof fn lemma_skip_ws_shift(x: Seq<char>, t: Seq<char>, j: int)
    requires
        0 <= j,
    ensures
        skip_ws(x + t, x.len() + j) == x.len() + skip_ws(t, j),
    decreases t.len() - j,
{
    if j < t.len() {
        assert((x + t)[x.len() + j] == t[j]);
        if is_white_space(t[j]) {
            lemma_skip_ws_shift(x, t, j + 1);
        }
    }
}

proof fn lemma_name_end_shift(x: Seq<char>, t: Seq<char>, j: int)
    requires
        0 <= j,
    ensures
        name_end(x + t, x.len() + j) == x.len() + name_end(t, j),
    decreases t.len() - j,
{
    if j < t.len() {
        assert((x + t)[x.len() + j] == t[j]);
        if is_name_char(t[j]) {
            lemma_name_end_shift(x, t, j + 1);
        }
    }
}

proof fn lemma_quoted_value_shift(x: Seq<char>, t: Seq<char>, j: int, q: char)
    requires
        0 <= j,
    ensures
        quoted_value(x + t, x.len() + j, q) == (quoted_value(t, j, q).0, x.len() + quoted_value(t, j, q).1),
    decreases t.len() - j,
{
    if j < t.len() {
        assert((x + t)[x.len() + j] == t[j]);
        if t[j] == '\\' && j + 1 < t.len() {
            assert((x + t)[x.len() + j + 1] == t[j + 1]);
            lemma_quoted_value_shift(x, t, j + 2, q);
        } else if t[j] != q {
            lemma_quoted_value_shift(x, t, j + 1, q);
        }
    }
}

/// Reading pairs after a prefix is reading them in what follows it.
proof fn lemma_pi_attrs_shift(x: Seq<char>, t: Seq<char>, j: int)
    requires
        0 <= j,
    ensures
        pi_attrs_from(x + t, x.len() + j) == pi_attrs_from(t, j),
    decreases t.len() - j,
{
    let s = x + t;
    if j <= t.len() {
        let k = x.len();
        lemma_skip_ws_shift(x, t, j);
        lemma_skip_ws(t, j);
        let a = skip_ws(t, j);
        if a < t.len() && is_name_start(t[a]) {
            assert(s[k + a] == t[a]);
            lemma_name_end_shift(x, t, a);
            lemma_name_end(t, a);
            let b = name_end(t, a);
            lemma_skip_ws_shift(x, t, b);
            lemma_skip_ws(t, b);
            let c = skip_ws(t, b);
            if c < t.len() && t[c] == '=' {
                assert(s[k + c] == t[c]);
                lemma_skip_ws_shift(x, t, c + 1);
                lemma_skip_ws(t, c + 1);
                let d = skip_ws(t, c + 1);
                if d < t.len() && (t[d] == '"' || t[d] == '\'') {
                    assert(s[k + d] == t[d]);
                    lemma_quoted_value_shift(x, t, d + 1, t[d]);
                    lemma_quoted_value(t, d + 1, t[d]);
                    let r = quoted_value(t, d + 1, t[d]);
                    assert(s.subrange(k + a, k + b) == t.subrange(a, b));
                    lemma_pi_attrs_shift(x, t, r.1);
                } else if d < t.len() {
                    assert(s[k + d] == t[d]);
                }
            } else if c < t.len() {
                assert(s[k + c] == t[c]);
            }
        } else if a < t.len() {
            assert(s[k + a] == t[a]);
        }
    }
}

/// White space before the pairs does not change them.
proof fn lemma_pi_attrs_white_prefix(w: Seq<char>, r: Seq<char>)
    requires
        all_white(w),
        r.len() == 0 || !is_white_space(r[0]),
    ensures
        pi_attrs_from(w + r, 0) == pi_attrs_from(r, 0),
{
    let s = w + r;
    assert forall|m: int| 0 <= m < w.len() implies is_white_space(#[trigger] s[m]) by {
        assert(s[m] == w[m]);
    }
    if r.len() > 0 {
        assert(s[w.len() as int] == r[0]);
    }
    lemma_skip_ws_at(s, 0, w.len() as int);
    lemma_skip_ws_at(s, w.len() as int, w.len() as int);
    assert(pi_attrs_from(s, 0) == pi_attrs_from(s, w.len() as int));
    lemma_pi_attrs_shift(w, r, 0);
}

/// One `key="value"` pair, with any white space around `=`, then the rest `t`.
proof fn lemma_pi_pair(k: Seq<char>, w1: Seq<char>, w2: Seq<char>, q: char, v: Seq<char>, t: Seq<char>)
    requires
        k.len() > 0,
        is_name_start(k[0]),
        forall|m: int| 0 <= m < k.len() ==> is_name_char(#[trigger] k[m]),
        all_white(w1),
        all_white(w2),
        q == '"' || q == '\'',
        forall|m: int| 0 <= m < v.len() ==> #[trigger] v[m] != q && v[m] != '\\',
    ensures
        pi_attrs_from(k + w1 + seq!['='] + w2 + seq![q] + v + seq![q] + t, 0) == seq![(k, v)] + pi_attrs_from(t, 0),
{
    let x = k + w1 + seq!['='] + w2 + seq![q] + v + seq![q];
    let s = x + t;
    assert(k + w1 + seq!['='] + w2 + seq![q] + v + seq![q] + t == s);
    let kk = k.len() as int;
    let c = kk + w1.len();
    let d = c + 1 + w2.len();
    let e = d + 1 + v.len();
    assert(s[0] == k[0]);
    lemma_skip_ws_at(s, 0, 0);
    assert forall|m: int| 0 <= m < kk implies is_name_char(#[trigger] s[m]) by {
        assert(s[m] == k[m]);
    }
    if w1.len() > 0 {
        assert(s[kk] == w1[0]);
    } else {
        assert(s[kk] == '=');
    }
    lemma_name_end_at(s, 0, kk);
    assert forall|m: int| kk <= m < c implies is_white_space(#[trigger] s[m]) by {
        assert(s[m] == w1[m - kk]);
    }
    assert(s[c] == '=');
    lemma_skip_ws_at(s, kk, c);
    assert forall|m: int| c + 1 <= m < d implies is_white_space(#[trigger] s[m]) by {
        assert(s[m] == w2[m - c - 1]);
    }
    assert(s[d] == q);
    lemma_skip_ws_at(s, c + 1, d);
    assert forall|m: int| d + 1 <= m < e implies #[trigger] s[m] != q && s[m] != '\\' by {
        assert(s[m] == v[m - d - 1]);
    }
    assert(s[e] == q);
    lemma_quoted_value_at(s, d + 1, e, q);
    assert(s.subrange(d + 1, e) == v);
    assert(s.subrange(0, kk) == k);
    assert(x.len() == e + 1);
    lemma_pi_attrs_shift(x, t, 0);
}

/// White space around `=` in processing-instruction content changes nothing:
/// content that opens with white space and a pair `key="value"` or
/// `key='value'`, with any white space before and after `=`, reads as that
/// pair followed by the pairs of the rest.
pub proof fn lemma_pi_pair_white_space(
    w0: Seq<char>,
    k: Seq<char>,
    w1: Seq<char>,
    w2: Seq<char>,
    q: char,
    v: Seq<char>,
    t: Seq<char>,
)
    requires
        all_white(w0),
        k.len() > 0,
        is_name_start(k[0]),
        forall|m: int| 0 <= m < k.len() ==> is_name_char(#[trigger] k[m]),
        all_white(w1),
        all_white(w2),
        q == '"' || q == '\'',
        forall|m: int| 0 <= m < v.len() ==> #[trigger] v[m] != q && v[m] != '\\',
    ensures
        pi_attrs_from(w0 + k + w1 + seq!['='] + w2 + seq![q] + v + seq![q] + t, 0) == seq![(k, v)]
            + pi_attrs_from(t, 0),
{
    let r = k + w1 + seq!['='] + w2 + seq![q] + v + seq![q] + t;
    assert(r[0] == k[0]);
    lemma_pi_attrs_white_prefix(w0, r);
    assert(w0 + k + w1 + seq!['='] + w2 + seq![q] + v + seq![q] + t == w0 + r);
    lemma_pi_pair(k, w1, w2, q, v, t);
}

fn skip_white(v: &Vec<char>, i: usize) -> (r: usize)
    requires
        i <= v.len(),
    ensures
        r == skip_ws(v@, i as int),
        i <= r <= v.len(),
{
    proof { lemma_skip_ws(v@, i as int); }
    let mut k = i;
    while k < v.len() && white_space(v[k])
        invariant
            i <= k <= v.len(),
            skip_ws(v@, i as int) == skip_ws(v@, k as int),
        decreases v.len() - k,
    {
        k = k + 1;
    }
    k
}

/// The next pair from position `i`, with the position after it.
fn next_pi_attr(v: &Vec<char>, i: usize) -> (r: Option<(String, String, usize)>)
    requires
        i <= v.len(),
    ensures
        match r {
            None => pi_attrs_from(v@, i as int) == Seq::<(Seq<char>, Seq<char>)>::empty(),
            Some((k, val, e)) => i < e <= v.len() && pi_attrs_from(v@, i as int) == seq![(k@, val@)]
                + pi_attrs_from(v@, e as int),
        },
{
    let ghost s = v@;
    let a = skip_white(v, i);
    if a >= v.len() || !name_start(v[a]) {
        return None;
    }
    let mut b = a;
    proof { lemma_name_end(s, a as int); }
    while b < v.len() && name_char(v[b])
        invariant
            s == v@,
            a <= b <= v.len(),
            name_end(s, a as int) == name_end(s, b as int),
        decreases v.len() - b,
    {
        b = b + 1;
    }
    let key = string_from_chars(v, a, b);
    let c = skip_white(v, b);
    if c >= v.len() || v[c] != '=' {
        return None;
    }
    let d = skip_white(v, c + 1);
    if d >= v.len() || (v[d] != '"' && v[d] != '\'') {
        return None;
    }
    let q = v[d];
    let mut val = String::new();
    let mut k = d + 1;
    proof { lemma_quoted_value(s, (d + 1) as int, q); }
    loop
        invariant_except_break
            s == v@,
            d < v.len(),
            q == s[d as int],
            d + 1 <= k <= v.len(),
            quoted_value(s, (d + 1) as int, q) == (val@ + quoted_value(s, k as int, q).0,
                quoted_value(s, k as int, q).1),
        ensures
            d + 1 <= k <= v.len(),
            quoted_value(s, (d + 1) as int, q) == (val@, k as int),
        decreases v.len() - k,
    {
        if k >= v.len() {
            assert(val@ + Seq::<char>::empty() == val@);
            break;
        }
        if v[k] == '\\' && k + 1 < v.len() {
            let ghost before = val@;
            push_char(&mut val, v[k + 1]);
            assert(before + (seq![s[k + 1]] + quoted_value(s, k + 2, q).0) == val@
                + quoted_value(s, k + 2, q).0);
            k = k + 2;
        } else if v[k] == q {
            assert(val@ + Seq::<char>::empty() == val@);
            k = k + 1;
            break;
        } else {
            let ghost before = val@;
            push_char(&mut val, v[k]);
            assert(before + (seq![s[k as int]] + quoted_value(s, k + 1, q).0) == val@
                + quoted_value(s, k + 1, q).0);
            k = k + 1;
        }
    }
    Some((key, val, k))
}

/// Reads processing-instruction content as `key="value"` pairs (single or
/// double quotes, `\\x` standing for `x`), stopping at the first thing that
/// is not such a pair.
pub fn parse_pi_attributes(content: &str) -> (r: Vec<(String, String)>)
    ensures
        super::types::attrs_view(r@) == pi_attrs_from(content@, 0),
{
    let v = chars_of(content);
    let mut attrs: Vec<(String, String)> = Vec::new();
    let mut i: usize = 0;
    assert(super::types::attrs_view(attrs@) + pi_attrs_from(content@, 0) == pi_attrs_from(content@, 0));
    loop
        invariant_except_break
            v@ == content@,
            i <= v.len(),
            pi_attrs_from(content@, 0) == super::types::attrs_view(attrs@) + pi_attrs_from(content@, i as int),
        ensures
            pi_attrs_from(content@, 0) == super::types::attrs_view(attrs@),
        decreases v.len() - i,
    {
        match next_pi_attr(&v, i) {
            None => {
                assert(super::types::attrs_view(attrs@) + Seq::<(Seq<char>, Seq<char>)>::empty()
                    == super::types::attrs_view(attrs@));
                break;
            },
            Some((k, val, e)) => {
                let ghost before = attrs@;
                attrs.push((k, val));
                assert(super::types::attrs_view(attrs@) == super::types::attrs_view(before).push((k@, val@)));
                assert(super::types::attrs_view(before) + (seq![(k@, val@)] + pi_attrs_from(content@, e as int))
                    == super::types::attrs_view(attrs@) + pi_attrs_from(content@, e as int));
                i = e;
            },
        }
    }
    attrs
}

/// The length in UTF-8 bytes of `key="value" ` for each pair, summed.
pub open spec fn reconstructed_len(attrs: Seq<(Seq<char>, Seq<char>)>) -> nat
    decreases attrs.len(),
{
    if attrs.len() == 0 {
        0
    } else {
        reconstructed_len(attrs.drop_last()) + encode_utf8(attrs.last().0).len() + 2
            + encode_utf8(attrs.last().1).len() + 1
    }
}

/// Whether processing-instruction content reads as attributes: trimmed, it
/// starts like a name, holds at least one pair, and the pairs written back
/// as `key="value" ` take at least half its length in bytes.
pub open spec fn looks_like_attrs(content: Seq<char>) -> bool {
    let t = trim(content);
    &&& t.len() > 0
    &&& is_name_start(t[0])
    &&& pi_attrs_from(t, 0).len() > 0
    &&& reconstructed_len(pi_attrs_from(t, 0)) >= encode_utf8(t).len() / 2
}

/// Whether processing-instruction content is structured as attributes.
pub fn looks_like_attributes(content: &str) -> (b: bool)
    ensures
        b == looks_like_attrs(content@),
{
    let t = trimmed(content);
    let tv = chars_of(t.as_str());
    if tv.len() == 0 {
        return false;
    }
    if !name_start(tv[0]) {
        return false;
    }
    let attrs = parse_pi_attributes(t.as_str());
    if attrs.len() == 0 {
        return false;
    }
    let ghost a = super::types::attrs_view(attrs@);
    let mut total: usize = 0;
    let mut i: usize = 0;
    assert(a.take(0) == Seq::<(Seq<char>, Seq<char>)>::empty());
    while i < attrs.len()
        invariant
            i <= attrs.len(),
            a == super::types::attrs_view(attrs@),
            reconstructed_len(a.take(i as int)) < usize::MAX ==> total == reconstructed_len(a.take(i as int)),
            reconstructed_len(a.take(i as int)) >= usize::MAX ==> total == usize::MAX,
        decreases attrs.len() - i,
    {
        assert(a.take(i + 1).drop_last() == a.take(i as int));
        let k = attrs[i].0.as_str().as_bytes().len();
        let w = attrs[i].1.as_str().as_bytes().len();
        assert(a.take(i + 1).last() == a[i as int]);
        assert(a[i as int] == (attrs@[i as int].0@, attrs@[i as int].1@));
        let ghost r0 = reconstructed_len(a.take(i as int));
        let t1 = total.saturating_add(k);
        assert(r0 + k >= usize::MAX ==> t1 == usize::MAX);
        assert(r0 + k < usize::MAX ==> t1 == r0 + k);
        let t2 = t1.saturating_add(2);
        assert(r0 + k + 2 >= usize::MAX ==> t2 == usize::MAX);
        assert(r0 + k + 2 < usize::MAX ==> t2 == r0 + k + 2);
        let t3 = t2.saturating_add(w);
        assert(r0 + k + 2 + w >= usize::MAX ==> t3 == usize::MAX);
        assert(r0 + k + 2 + w < usize::MAX ==> t3 == r0 + k + 2 + w);
        total = t3.saturating_add(1);
        assert(reconstructed_len(a.take(i + 1)) == r0 + k + 2 + w + 1);
        i = i + 1;
    }
    assert(a.take(attrs.len() as int) == a);
    total >= t.as_str().as_bytes().len() / 2
}

// ---------------------------------------------------------------------------
// XML nodes as KDL nodes
// ---------------------------------------------------------------------------

/// Whether whitespace is preserved inside an element: decided by its first
/// `xml:space` attribute (`preserve` or not), inherited when there is none.
pub open spec fn space_preserve(attrs: Seq<(Seq<char>, Seq<char>)>, inherit: bool) -> bool
    decreases attrs.len(),
{
    if attrs.len() == 0 {
        inherit
    } else if attrs[0].0 == "xml:space"@ {
        attrs[0].1 == "preserve"@
    } else {
        space_preserve(attrs.drop_first(), inherit)
    }
}

/// Attributes as KDL properties, in order.
pub open spec fn props(attrs: Seq<(Seq<char>, Seq<char>)>) -> Seq<(Option<Seq<char>>, Seq<char>)> {
    attrs.map_values(|p: (Seq<char>, Seq<char>)| (Some(p.0), p.1))
}

/// The `-` node that carries text in mixed content.
pub open spec fn text_node(t: Seq<char>) -> ONode {
    onode("-"@, seq![(None, t)], None)
}

/// The KDL node for an XML node (none for bare text, which its parent places).
/// - an element keeps its name, its attributes become properties; text-only
///   content becomes one argument; other content a children block;
/// - a comment becomes `! "text"`, a DOCTYPE `!doctype "content"`;
/// - a processing instruction becomes `?target`, with properties when its
///   content reads as attributes, else with the content as one argument.
pub open spec fn to_kdl(n: XNode, inherit: bool) -> Option<ONode>
    decreases n,
{
    match n {
        XNode::Element { name, attributes, children } => {
            let preserve = space_preserve(attributes, inherit);
            match analyze(significant_children(children, preserve)) {
                Content::Empty => Some(onode(name, props(attributes), None)),
                Content::PureText(t) => Some(onode(name, props(attributes).push((None, t)), None)),
                _ => Some(
                    onode(
                        name,
                        props(attributes),
                        Some(kdl_children(children, preserve, has_element(children))),
                    ),
                ),
            }
        },
        XNode::Comment(t) => Some(onode("!"@, seq![(None, t)], None)),
        XNode::ProcessingInstruction { target, content } => Some(
            onode(
                seq!['?'] + target,
                match content {
                    Some(c) => if looks_like_attrs(c) {
                        props(pi_attrs_from(c, 0))
                    } else {
                        seq![(None, c)]
                    },
                    None => Seq::empty(),
                },
                None,
            ),
        ),
        XNode::DocType(c) => Some(onode("!doctype"@, seq![(None, c)], None)),
        XNode::Text(_) => None,
    }
}

/// The children block of an element: each child that stays (all of them
/// when `preserve`), text as a `-` node and anything else converted.
pub open spec fn kdl_children(s: Seq<XNode>, preserve: bool, with_elements: bool) -> Seq<ONode>
    decreases s,
{
    if s.len() == 0 {
        Seq::empty()
    } else {
        let last = s[s.len() - 1];
        kdl_children(s.subrange(0, s.len() - 1), preserve, with_elements) + if preserve || kept(
            last,
            with_elements,
        ) {
            match last {
                XNode::Text(t) => seq![text_node(t)],
                _ => match to_kdl(last, preserve) {
                    Some(o) => seq![o],
                    None => Seq::empty(),
                },
            }
        } else {
            Seq::empty()
        }
    }
}

fn out_node(name: String, entries: Vec<OutEntry>, children: Option<Vec<OutNode>>) -> (o: OutNode)
    ensures
        o@ == onode(name@, entries_view(entries@), match children {
            Some(v) => Some(out_nodes_view(v@)),
            None => None,
        }),
{
    OutNode { name, entries, children, format: new_format(), children_format: None }
}

fn arg_entry(value: String) -> (e: OutEntry)
    ensures
        e.key is None,
        e.value@ == value@,
{
    OutEntry { key: None, value }
}

/// Attributes as property entries.
fn prop_entries(attrs: &Vec<(String, String)>) -> (r: Vec<OutEntry>)
    ensures
        entries_view(r@) == props(attrs_view(attrs@)),
{
    let mut r: Vec<OutEntry> = Vec::new();
    let mut i: usize = 0;
    while i < attrs.len()
        invariant
            i <= attrs.len(),
            r@.len() == i,
            forall|j: int| 0 <= j < i ==> #[trigger] super::kdl_out::entry_view(r@[j]) == (
                Some(attrs@[j].0@), attrs@[j].1@),
        decreases attrs.len() - i,
    {
        r.push(OutEntry { key: Some(attrs[i].0.clone()), value: attrs[i].1.clone() });
        i = i + 1;
    }
    assert(entries_view(r@) =~= props(attrs_view(attrs@)));
    r
}

fn find_space_preserve(attrs: &Vec<(String, String)>, inherit: bool) -> (b: bool)
    ensures
        b == space_preserve(attrs_view(attrs@), inherit),
{
    let ghost a = attrs_view(attrs@);
    let mut i: usize = 0;
    assert(a.skip(0) == a);
    while i < attrs.len()
        invariant
            i <= attrs.len(),
            a == attrs_view(attrs@),
            space_preserve(a, inherit) == space_preserve(a.skip(i as int), inherit),
        decreases attrs.len() - i,
    {
        assert(a.skip(i as int)[0] == (attrs@[i as int].0@, attrs@[i as int].1@));
        if str_eq(attrs[i].0.as_str(), "xml:space") {
            return str_eq(attrs[i].1.as_str(), "preserve");
        }
        assert(a.skip(i as int).drop_first() == a.skip(i + 1));
        i = i + 1;
    }
    inherit
}

/// The KDL node (as plain values) for an XML node; `None` for bare text.
pub fn xml_node_to_model(node: &XmlNode, inherit_preserve: bool) -> (r: Option<OutNode>)
    ensures
        match r {
            Some(o) => to_kdl(node@, inherit_preserve) == Some(o@),
            None => to_kdl(node@, inherit_preserve) is None,
        },
    decreases node,
{
    match node {
        XmlNode::Element { name, attributes, children } => {
            let preserve = find_space_preserve(attributes, inherit_preserve);
            let entries = prop_entries(attributes);
            let significant = filter_children_with_preserve(children.as_slice(), preserve);
            match analyze_content(significant.as_slice()) {
                ContentType::Empty => Some(out_node(name.clone(), entries, None)),
                ContentType::PureText(text) => {
                    let mut entries = entries;
                    let ghost before = entries@;
                    entries.push(arg_entry(text));
                    assert(entries_view(entries@) =~= entries_view(before).push((None, text@)));
                    Some(out_node(name.clone(), entries, None))
                },
                _ => {
                    let kids = model_children(children, preserve);
                    Some(out_node(name.clone(), entries, Some(kids)))
                },
            }
        },
        XmlNode::Comment(text) => {
            let mut entries: Vec<OutEntry> = Vec::new();
            entries.push(arg_entry(text.clone()));
            assert(entries_view(entries@) =~= seq![(None, text@)]);
            Some(out_node(COMMENT_NODE_NAME.to_string(), entries, None))
        },
        XmlNode::ProcessingInstruction { target, content } => {
            let mut name = String::new();
            push_char(&mut name, PI_PREFIX);
            name.append(target.as_str());
            let mut entries: Vec<OutEntry> = Vec::new();
            match content {
                Some(c) => {
                    if looks_like_attributes(c.as_str()) {
                        let attrs = parse_pi_attributes(c.as_str());
                        entries = prop_entries(&attrs);
                    } else {
                        entries.push(arg_entry(c.clone()));
                        assert(entries_view(entries@) =~= seq![(None, c@)]);
                    }
                },
                None => {
                    assert(entries_view(entries@) =~= Seq::empty());
                },
            }
            assert(name@ =~= seq!['?'] + target@);
            Some(out_node(name, entries, None))
        },
        XmlNode::DocType(c) => {
            let mut entries: Vec<OutEntry> = Vec::new();
            entries.push(arg_entry(c.clone()));
            assert(entries_view(entries@) =~= seq![(None, c@)]);
            Some(out_node(DOCTYPE_NODE_NAME.to_string(), entries, None))
        },
        XmlNode::Text(_) => None,
    }
}

/// The children block for the children of an element.
fn model_children(children: &Vec<XmlNode>, preserve: bool) -> (r: Vec<OutNode>)
    ensures
        out_nodes_view(r@) == kdl_children(nodes_view(children@), preserve, has_element(nodes_view(children@))),
    decreases children,
{
    let ghost s = nodes_view(children@);
    proof { lemma_nodes_view(children@); }
    let has_elements = any_element(children.as_slice());
    let mut r: Vec<OutNode> = Vec::new();
    let mut i: usize = 0;
    assert(s.subrange(0, 0) == Seq::<XNode>::empty());
    proof { lemma_out_nodes_view(r@); }
    while i < children.len()
        invariant
            i <= children.len(),
            s == nodes_view(children@),
            s.len() == children@.len(),
            forall|j: int| 0 <= j < children@.len() ==> #[trigger] s[j] == node_view(children@[j]),
            has_elements == has_element(s),
            out_nodes_view(r@) == kdl_children(s.subrange(0, i as int), preserve, has_elements),
        decreases children.len() - i,
    {
        let ghost p = s.subrange(0, i + 1);
        assert(p.subrange(0, i as int) == s.subrange(0, i as int));
        assert(p[i as int] == s[i as int]);
        let keep = preserve || match &children[i] {
            XmlNode::Text(t) => !has_elements || !blank(t.as_str()),
            _ => true,
        };
        assert(keep == (preserve || kept(s[i as int], has_elements)));
        let ghost before = r@;
        if keep {
            match &children[i] {
                XmlNode::Text(t) => {
                    let mut entries: Vec<OutEntry> = Vec::new();
                    entries.push(arg_entry(t.clone()));
                    assert(entries_view(entries@) =~= seq![(None, t@)]);
                    r.push(out_node(TEXT_NODE_NAME.to_string(), entries, None));
                },
                _ => {
                    if let Some(o) = xml_node_to_model(&children[i], preserve) {
                        r.push(o);
                    }
                },
            }
        }
        proof {
            lemma_out_nodes_view(before);
            lemma_out_nodes_view(r@);
            assert(out_nodes_view(r@) =~= kdl_children(p, preserve, has_elements));
        }
        i = i + 1;
    }
    assert(s.subrange(0, children.len() as int) == s);
    r
}

// ---------------------------------------------------------------------------
// XML declarations as properties
// ---------------------------------------------------------------------------

/// The pair `(key, v)` when `v` is present.
pub open spec fn opt_pair(key: Seq<char>, v: Option<Seq<char>>) -> Seq<(Seq<char>, Seq<char>)> {
    match v {
        Some(x) => seq![(key, x)],
        None => Seq::empty(),
    }
}

/// The pairs that an XML declaration holds, in order: `version`, `encoding`
/// and `standalone`, each when present.
pub open spec fn decl_pairs(
    version: Option<Seq<char>>,
    encoding: Option<Seq<char>>,
    standalone: Option<Seq<char>>,
) -> Seq<(Seq<char>, Seq<char>)> {
    opt_pair("version"@, version) + opt_pair("encoding"@, encoding) + opt_pair(
        "standalone"@,
        standalone,
    )
}

/// A value that reads back as it is between double quotes.
pub open spec fn plain_value(v: Seq<char>) -> bool {
    forall|m: int| 0 <= m < v.len() ==> #[trigger] v[m] != '"' && v[m] != '\\'
}

/// A pair written `key="value"`.
pub open spec fn pair_text(p: (Seq<char>, Seq<char>)) -> Seq<char> {
    p.0 + seq!['=', '"'] + p.1 + seq!['"']
}

pub open spec fn pairs_text(ps: Seq<(Seq<char>, Seq<char>)>) -> Seq<char> {
    join_spaces(ps.map_values(|p: (Seq<char>, Seq<char>)| pair_text(p)))
}

/// Pairs whose keys are names and whose values are plain.
pub open spec fn readable_pairs(ps: Seq<(Seq<char>, Seq<char>)>) -> bool {
    forall|i: int| 0 <= i < ps.len() ==> {
        let p = #[trigger] ps[i];
        &&& p.0.len() > 0
        &&& is_name_start(p.0[0])
        &&& forall|m: int| 0 <= m < p.0.len() ==> is_name_char(#[trigger] p.0[m])
        &&& plain_value(p.1)
    }
}

proof fn lemma_join_front(parts: Seq<Seq<char>>)
    requires
        parts.len() >= 2,
    ensures
        join_spaces(parts) == parts[0] + seq![' '] + join_spaces(parts.drop_first()),
    decreases parts.len(),
{
    reveal_strlit(" ");
    assert(" "@ =~= seq![' ']);
    let a = parts.drop_first();
    if parts.len() > 2 {
        lemma_join_front(parts.drop_last());
        assert(parts.drop_last().drop_first() =~= a.drop_last());
        assert(a.last() == parts.last());
        assert(join_spaces(a) == join_spaces(a.drop_last()) + " "@ + a.last());
        assert(join_spaces(parts) =~= parts[0] + seq![' '] + join_spaces(a));
    } else {
        assert(a.len() == 1);
        assert(join_spaces(a) == a[0]);
        assert(parts.drop_last().len() == 1);
        assert(join_spaces(parts.drop_last()) == parts[0]);
        assert(join_spaces(parts) =~= parts[0] + seq![' '] + join_spaces(a));
    }
}

/// A declaration part is its pair written out.
proof fn lemma_decl_part_text(key: Seq<char>, v: Option<Seq<char>>)
    ensures
        crate::xml_to_kdl::parser::decl_part(key, v) =~= opt_pair(key, v).map_values(
            |p: (Seq<char>, Seq<char>)| pair_text(p),
        ),
{
    reveal_strlit("=\"");
    reveal_strlit("\"");
    assert("=\""@ =~= seq!['=', '"']);
    assert("\""@ =~= seq!['"']);
    match v {
        Some(x) => {
            assert(key + "=\""@ + x + "\""@ == pair_text((key, x)));
        },
        None => {},
    }
}

/// Pairs written out and joined by spaces read back as the same pairs.
proof fn lemma_pairs_read_back(ps: Seq<(Seq<char>, Seq<char>)>)
    requires
        ps.len() > 0,
        readable_pairs(ps),
    ensures
        pi_attrs_from(pairs_text(ps), 0) == ps,
    decreases ps.len(),
{
    let parts = ps.map_values(|p: (Seq<char>, Seq<char>)| pair_text(p));
    let p = ps[0];
    assert(readable_pairs(ps) ==> p.0.len() > 0);
    assert(all_white(Seq::<char>::empty()));
    assert(parts[0] == pair_text(p));
    assert(p.0 + Seq::<char>::empty() + seq!['='] + Seq::<char>::empty() + seq!['"'] + p.1 + seq!['"']
        =~= pair_text(p));
    if ps.len() == 1 {
        lemma_pi_pair(p.0, Seq::empty(), Seq::empty(), '"', p.1, Seq::empty());
        assert(pair_text(p) + Seq::<char>::empty() == pair_text(p));
        assert(pi_attrs_from(Seq::<char>::empty(), 0) == Seq::<(Seq<char>, Seq<char>)>::empty());
        assert(seq![(p.0, p.1)] + Seq::<(Seq<char>, Seq<char>)>::empty() =~= ps);
    } else {
        let rest = ps.drop_first();
        assert(readable_pairs(rest)) by {
            assert forall|i: int| 0 <= i < rest.len() implies {
                let q = #[trigger] rest[i];
                &&& q.0.len() > 0
                &&& is_name_start(q.0[0])
                &&& forall|m: int| 0 <= m < q.0.len() ==> is_name_char(#[trigger] q.0[m])
                &&& plain_value(q.1)
            } by {
                assert(rest[i] == ps[i + 1]);
            }
        }
        lemma_pairs_read_back(rest);
        lemma_join_front(parts);
        assert(parts.drop_first() =~= rest.map_values(|p: (Seq<char>, Seq<char>)| pair_text(p)));
        let rt = pairs_text(rest);
        let t = seq![' '] + rt;
        lemma_pi_pair(p.0, Seq::empty(), Seq::empty(), '"', p.1, t);
        assert(pairs_text(ps) == pair_text(p) + t);
        // The rest starts with a key.
        let parts2 = rest.map_values(|p: (Seq<char>, Seq<char>)| pair_text(p));
        assert(rest[0].0.len() > 0 && is_name_start(rest[0].0[0]));
        lemma_join_first(parts2);
        assert(parts2[0] == pair_text(rest[0]));
        assert(rt[0] == rest[0].0[0]);
        assert(all_white(seq![' ']));
        lemma_pi_attrs_white_prefix(seq![' '], rt);
        assert(seq![(p.0, p.1)] + rest =~= ps);
    }
}

/// Joined parts start as their first part does.
proof fn lemma_join_first(parts: Seq<Seq<char>>)
    requires
        parts.len() > 0,
        parts[0].len() > 0,
    ensures
        join_spaces(parts).len() > 0,
        join_spaces(parts)[0] == parts[0][0],
    decreases parts.len(),
{
    if parts.len() > 1 {
        lemma_join_first(parts.drop_last());
    }
}

/// The UTF-8 length of pairs written out: what [`reconstructed_len`]
/// counts, and one byte for each space between pairs.
proof fn lemma_pairs_text_len(ps: Seq<(Seq<char>, Seq<char>)>)
    requires
        ps.len() > 0,
    ensures
        encode_utf8(pairs_text(ps)).len() == reconstructed_len(ps) + ps.len() - 1,
        reconstructed_len(ps) >= 3 * ps.len(),
    decreases ps.len(),
{
    reveal_strlit(" ");
    let parts = ps.map_values(|p: (Seq<char>, Seq<char>)| pair_text(p));
    let last = ps.last();
    assert(encode_utf8(seq!['=', '"']).len() == 2) by {
        reveal_with_fuel(encode_utf8, 3);
    }
    assert(encode_utf8(seq!['"']).len() == 1) by {
        reveal_with_fuel(encode_utf8, 2);
    }
    assert(encode_utf8(seq![' ']).len() == 1) by {
        reveal_with_fuel(encode_utf8, 2);
    }
    lemma_encode_concat(last.0, seq!['=', '"']);
    lemma_encode_concat(last.0 + seq!['=', '"'], last.1);
    lemma_encode_concat(last.0 + seq!['=', '"'] + last.1, seq!['"']);
    assert(parts.last() == pair_text(last));
    if ps.len() == 1 {
        assert(pairs_text(ps) == pair_text(last));
        assert(ps.drop_last().len() == 0);
    } else {
        let front = ps.drop_last();
        lemma_pairs_text_len(front);
        assert(parts.drop_last() =~= front.map_values(|p: (Seq<char>, Seq<char>)| pair_text(p)));
        assert(" "@ == seq![' ']);
        assert(pairs_text(ps) == pairs_text(front) + seq![' '] + pair_text(last));
        lemma_encode_concat(pairs_text(front), seq![' ']);
        lemma_encode_concat(pairs_text(front) + seq![' '], pair_text(last));
    }
}

/// The parts of an XML declaration become the properties of its `?xml`
/// node: for a declaration with at least one of `version`, `encoding` and
/// `standalone`, whose values hold no `"` or `\`, the node built from the
/// declaration has exactly those parts as properties, in that order.
pub proof fn lemma_xml_declaration_parts_kept(
    version: Option<Seq<char>>,
    encoding: Option<Seq<char>>,
    standalone: Option<Seq<char>>,
    inherit: bool,
)
    requires
        version is Some || encoding is Some || standalone is Some,
        version matches Some(v) ==> plain_value(v),
        encoding matches Some(v) ==> plain_value(v),
        standalone matches Some(v) ==> plain_value(v),
    ensures
        decl_content(version, encoding, standalone) matches Some(c) && to_kdl(
            XNode::ProcessingInstruction { target: "xml"@, content: Some(c) },
            inherit,
        ) == Some(onode("?xml"@, props(decl_pairs(version, encoding, standalone)), None)),
{
    reveal_strlit("version");
    reveal_strlit("encoding");
    reveal_strlit("standalone");
    reveal_strlit("xml");
    reveal_strlit("?xml");
    reveal_strlit("=\"");
    reveal_strlit("\"");
    let ps = decl_pairs(version, encoding, standalone);
    assert(ps.len() > 0);
    // The declaration's parts are the pairs written out.
    let dp = crate::xml_to_kdl::parser::decl_part("version"@, version) + crate::xml_to_kdl::parser::decl_part(
        "encoding"@,
        encoding,
    ) + crate::xml_to_kdl::parser::decl_part("standalone"@, standalone);
    lemma_decl_part_text("version"@, version);
    lemma_decl_part_text("encoding"@, encoding);
    lemma_decl_part_text("standalone"@, standalone);
    assert(dp =~= ps.map_values(|p: (Seq<char>, Seq<char>)| pair_text(p)));
    let c = pairs_text(ps);
    assert(decl_content(version, encoding, standalone) == Some(c));
    // The pairs read back.
    assert(readable_pairs(ps)) by {
        assert forall|i: int| 0 <= i < ps.len() implies {
            let p = #[trigger] ps[i];
            &&& p.0.len() > 0
            &&& is_name_start(p.0[0])
            &&& forall|m: int| 0 <= m < p.0.len() ==> is_name_char(#[trigger] p.0[m])
            &&& plain_value(p.1)
        } by {
            let p = ps[i];
            assert(p.0 == "version"@ || p.0 == "encoding"@ || p.0 == "standalone"@);
        }
    }
    lemma_pairs_read_back(ps);
    // The content reads as attributes.
    let parts = ps.map_values(|p: (Seq<char>, Seq<char>)| pair_text(p));
    assert(parts[0] == pair_text(ps[0]));
    lemma_join_first(parts);
    assert(c[0] == ps[0].0[0]);
    assert(c.last() == '"') by {
        assert(parts.last() == pair_text(ps.last()));
        if parts.len() > 1 {
            assert(c == join_spaces(parts.drop_last()) + " "@ + parts.last());
        }
    }
    lemma_trim_exact(Seq::empty(), c, Seq::empty());
    assert(Seq::<char>::empty() + c + Seq::<char>::empty() == c);
    lemma_pairs_text_len(ps);
    assert(looks_like_attrs(c));
    assert(seq!['?'] + "xml"@ =~= "?xml"@);
}

} // verus!
