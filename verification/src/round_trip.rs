//! The two directions fit together: an element tree that XML to KDL turns
//! into nodes comes back, through KDL to XML, as the XML of that tree.
use vstd::prelude::*;

use crate::kdl_to_xml::model::{KE, KN, KV};
use crate::kdl_to_xml::node_types::{
    first_unnamed, has_child_nodes, is_comment_name, is_doctype_name, is_pi_name, is_text_name,
    lemma_first_unnamed, };
use crate::kdl_to_xml::writers::{children_xml, element_attrs, node_xml, unnamed_count, XO};
use crate::validation::{is_xml_name, lemma_name_error_iff, name_error};
use crate::xml_to_kdl::kdl_out::ONode;
use crate::xml_to_kdl::transformer::{
    analyze, concat_all, has_comment_or_pi, has_element, kdl_children, keep_children, kept, props,
    significant_children, space_preserve, text_node, texts, to_kdl,
};
use crate::xml_to_kdl::types::{Content, XNode};
use crate::xml_to_kdl::compact::{
    compact, lemma_compact_keeps_content, same_content, same_contents,
};
use crate::xml_to_kdl::{document_model, layout, root_models, CompactMode, XmlToKdlConverter};
use crate::kdl_to_xml::{document_xml, kdl_root_error, kdl_root_scan};

verus! {

broadcast use vstd::string::group_string_axioms;

// ---------------------------------------------------------------------------
// Element trees
// ---------------------------------------------------------------------------

/// Whether every attribute name is an XML name.
pub open spec fn attr_names_valid(attrs: Seq<(Seq<char>, Seq<char>)>) -> bool {
    forall|i: int| 0 <= i < attrs.len() ==> is_xml_name(#[trigger] attrs[i].0)
}

/// An element tree: an element whose name and attribute names are XML
/// names and whose children are text and element trees; or text.
pub open spec fn plain_node(n: XNode) -> bool
    decreases n,
{
    match n {
        XNode::Text(_) => true,
        XNode::Element { name, attributes, children } => is_xml_name(name) && attr_names_valid(
            attributes,
        ) && plain_nodes(children),
        _ => false,
    }
}

/// [`plain_node`] for every node of `s`.
pub open spec fn plain_nodes(s: Seq<XNode>) -> bool
    decreases s,
{
    s.len() > 0 ==> plain_nodes(s.subrange(0, s.len() - 1)) && plain_node(s[s.len() - 1])
}

/// The XML of a tree, as the events that write it: an element whose
/// significant children (see [`significant_children`]) are none is an
/// empty-element tag; one whose significant children are all text is a
/// start tag, their text joined, and an end tag; any other is a start tag,
/// what its significant children write, and an end tag. Text writes itself.
pub open spec fn tree_xml(n: XNode, inherit: bool) -> Seq<XO>
    decreases n,
{
    match n {
        XNode::Element { name, attributes, children } => {
            let preserve = space_preserve(attributes, inherit);
            let s = significant_children(children, preserve);
            if s.len() == 0 {
                seq![XO::Empty(name, attributes)]
            } else if !has_element(s) {
                seq![XO::Start(name, attributes), XO::Text(concat_all(texts(s))), XO::End(name)]
            } else {
                seq![XO::Start(name, attributes)] + children_tree_xml(
                    children,
                    preserve,
                    has_element(children),
                ) + seq![XO::End(name)]
            }
        },
        XNode::Text(t) => seq![XO::Text(t)],
        _ => Seq::empty(),
    }
}

/// What the children `s` of an element write: each one that stays (all of
/// them when `preserve`; see [`kept`]), in order.
pub open spec fn children_tree_xml(s: Seq<XNode>, preserve: bool, with_elements: bool) -> Seq<XO>
    decreases s,
{
    if s.len() == 0 {
        Seq::empty()
    } else {
        let k = s.len() - 1;
        children_tree_xml(s.subrange(0, k), preserve, with_elements) + if preserve || kept(
            s[k],
            with_elements,
        ) {
            tree_xml(s[k], preserve)
        } else {
            Seq::empty()
        }
    }
}

// ---------------------------------------------------------------------------
// The nodes as KDL to XML reads them
// ---------------------------------------------------------------------------

/// An entry built by XML to KDL as KDL to XML reads it: a property keeps its
/// name, an argument has none; values are strings.
pub open spec fn entry_read(e: (Option<Seq<char>>, Seq<char>)) -> KE {
    KE { name: e.0, key: e.0, value: KV::Str(e.1) }
}

/// A node built by XML to KDL as KDL to XML reads it.
pub open spec fn node_read(o: ONode) -> KN
    decreases o,
{
    KN {
        name: o.name,
        entries: o.entries.map_values(|e: (Option<Seq<char>>, Seq<char>)| entry_read(e)),
        children: match o.children {
            Some(cs) => Some(nodes_read(cs)),
            None => None,
        },
    }
}

/// [`node_read`] for every node of `s`.
pub open spec fn nodes_read(s: Seq<ONode>) -> Seq<KN>
    decreases s,
{
    if s.len() == 0 {
        Seq::empty()
    } else {
        nodes_read(s.subrange(0, s.len() - 1)).push(node_read(s[s.len() - 1]))
    }
}

// ---------------------------------------------------------------------------
// Lemmas
// ---------------------------------------------------------------------------

proof fn lemma_plain_nodes(s: Seq<XNode>)
    requires
        plain_nodes(s),
    ensures
        forall|i: int| 0 <= i < s.len() ==> plain_node(#[trigger] s[i]),
    decreases s.len(),
{
    if s.len() > 0 {
        let k = s.len() - 1;
        lemma_plain_nodes(s.subrange(0, k));
        assert forall|i: int| 0 <= i < s.len() implies plain_node(#[trigger] s[i]) by {
            if i < k {
                assert(s.subrange(0, k)[i] == s[i]);
            }
        }
    }
}

proof fn lemma_keep_children_plain(s: Seq<XNode>, w: bool)
    requires
        plain_nodes(s),
    ensures
        plain_nodes(keep_children(s, w)),
    decreases s.len(),
{
    if s.len() > 0 {
        let k = s.len() - 1;
        assert(s.drop_last() == s.subrange(0, k));
        lemma_keep_children_plain(s.drop_last(), w);
        let front = keep_children(s.drop_last(), w);
        assert(plain_node(s.last()));
        if kept(s.last(), w) {
            let r = front + seq![s.last()];
            assert(keep_children(s, w) == r);
            assert(r.subrange(0, r.len() - 1) == front);
            assert(r[r.len() - 1] == s.last());
        } else {
            assert(keep_children(s, w) == front);
        }
    }
}

proof fn lemma_nodes_read_len(s: Seq<ONode>)
    ensures
        nodes_read(s).len() == s.len(),
    decreases s.len(),
{
    if s.len() > 0 {
        lemma_nodes_read_len(s.subrange(0, s.len() - 1));
    }
}

proof fn lemma_nodes_read_push(s: Seq<ONode>, o: ONode)
    ensures
        nodes_read(s.push(o)) == nodes_read(s).push(node_read(o)),
{
    assert(s.push(o).subrange(0, s.len() as int) == s);
}

proof fn lemma_children_xml_push(cs: Seq<KN>, n: KN, pretty: bool)
    ensures
        children_xml(cs.push(n), pretty) == match children_xml(cs, pretty) {
            Err(m) => Err(m),
            Ok(evs) => match node_xml(n, pretty) {
                Err(m) => Err(m),
                Ok(more) => Ok(evs + more),
            },
        },
{
    assert(cs.push(n).subrange(0, cs.len() as int) == cs);
}

/// The length of the children block that XML to KDL builds: one node for
/// each child that stays.
proof fn lemma_kdl_children_len(s: Seq<XNode>, preserve: bool, w: bool)
    ensures
        kdl_children(s, preserve, w).len() == (if preserve {
            s
        } else {
            keep_children(s, w)
        }).len(),
    decreases s.len(),
{
    if s.len() > 0 {
        let k = s.len() - 1;
        assert(s.drop_last() == s.subrange(0, k));
        lemma_kdl_children_len(s.subrange(0, k), preserve, w);
        if !(s[k] is Text) {
            assert(to_kdl(s[k], preserve) is Some);
        }
    }
}

proof fn lemma_texts_all(s: Seq<XNode>)
    requires
        forall|i: int| 0 <= i < s.len() ==> #[trigger] s[i] is Text,
    ensures
        texts(s).len() == s.len(),
    decreases s.len(),
{
    if s.len() > 0 {
        lemma_texts_all(s.drop_last());
    }
}

/// A name that is an XML name is none of the names with a special meaning.
proof fn lemma_xml_name_not_special(name: Seq<char>)
    requires
        is_xml_name(name),
    ensures
        !is_doctype_name(name),
        !is_pi_name(name),
        !is_comment_name(name),
        !is_text_name(name),
{
    reveal_strlit("!doctype");
    reveal_strlit("!");
    reveal_strlit("-");
    if name == "!doctype"@ {
        assert(name[0] == '!');
    }
    if name == "!"@ {
        assert(name[0] == '!');
    }
    if name == "-"@ {
        assert(name[0] == '-');
    }
}

/// The entries of an element's properties, as KDL to XML reads them.
pub open spec fn attr_entries(attrs: Seq<(Seq<char>, Seq<char>)>) -> Seq<KE> {
    props(attrs).map_values(|e: (Option<Seq<char>>, Seq<char>)| entry_read(e))
}

proof fn lemma_attr_entries(attrs: Seq<(Seq<char>, Seq<char>)>, elem: Seq<char>)
    requires
        attr_names_valid(attrs),
    ensures
        attr_entries(attrs).len() == attrs.len(),
        forall|i: int| 0 <= i < attrs.len() ==> (#[trigger] attr_entries(attrs)[i]).name is Some,
        unnamed_count(attr_entries(attrs)) == 0,
        element_attrs(attr_entries(attrs), elem) == Ok::<Seq<(Seq<char>, Seq<char>)>, Seq<char>>(attrs),
    decreases attrs.len(),
{
    let es = attr_entries(attrs);
    assert forall|i: int| 0 <= i < attrs.len() implies (#[trigger] es[i]).name is Some by {
        assert(es[i] == entry_read(props(attrs)[i]));
    }
    if attrs.len() > 0 {
        let front = attrs.drop_last();
        assert(attr_names_valid(front)) by {
            assert forall|i: int| 0 <= i < front.len() implies is_xml_name(#[trigger] front[i].0) by {
                assert(front[i] == attrs[i]);
            }
        }
        lemma_attr_entries(front, elem);
        assert(es.drop_last() =~= attr_entries(front));
        let last = attrs.last();
        assert(es.last() == entry_read((Some(last.0), last.1)));
        assert(is_xml_name(last.0)) by {
            assert(last == attrs[attrs.len() - 1]);
        }
        lemma_name_error_iff(last.0, "attribute"@);
        assert(name_error(last.0, "attribute"@) is None);
        assert(es.last().name == Some(last.0));
        assert(es.last().value == KV::Str(last.1));
        assert(front.push((last.0, last.1)) =~= attrs);
        assert(element_attrs(es, elem) == Ok::<Seq<(Seq<char>, Seq<char>)>, Seq<char>>(
            front.push((last.0, last.1)),
        ));
    } else {
        assert(attrs =~= Seq::<(Seq<char>, Seq<char>)>::empty());
    }
}

/// The entries of a text-only element: its properties, then its text.
proof fn lemma_attr_entries_with_text(attrs: Seq<(Seq<char>, Seq<char>)>, t: Seq<char>, elem: Seq<char>)
    requires
        attr_names_valid(attrs),
    ensures
        props(attrs).push((None, t)).map_values(|e: (Option<Seq<char>>, Seq<char>)| entry_read(e))
            == attr_entries(attrs).push(KE { name: None, key: None, value: KV::Str(t) }),
        unnamed_count(attr_entries(attrs).push(KE { name: None, key: None, value: KV::Str(t) })) == 1,
        element_attrs(attr_entries(attrs).push(KE { name: None, key: None, value: KV::Str(t) }), elem)
            == Ok::<Seq<(Seq<char>, Seq<char>)>, Seq<char>>(attrs),
        first_unnamed(attr_entries(attrs).push(KE { name: None, key: None, value: KV::Str(t) }), 0)
            == Some(attrs.len() as int),
{
    lemma_attr_entries(attrs, elem);
    let es = attr_entries(attrs).push(KE { name: None, key: None, value: KV::Str(t) });
    assert(props(attrs).push((None, t)).map_values(|e: (Option<Seq<char>>, Seq<char>)| entry_read(e))
        =~= es);
    assert(es.drop_last() == attr_entries(attrs));
    lemma_first_unnamed(es, 0);
    assert forall|j: int| 0 <= j < attrs.len() implies (#[trigger] es[j]).name is Some by {
        assert(es[j] == attr_entries(attrs)[j]);
    }
    if first_unnamed(es, 0) is None {
        assert(es[attrs.len() as int].name is None);
    }
}

proof fn lemma_text_node_read(t: Seq<char>)
    ensures
        node_xml(node_read(text_node(t)), false) == Ok::<Seq<XO>, Seq<char>>(seq![XO::Text(t)]),
{
    reveal_strlit("-");
    reveal_strlit("!doctype");
    reveal_strlit("!");
    let k = node_read(text_node(t));
    assert(k.name == "-"@);
    assert(k.name != "!doctype"@) by {
        assert(k.name.len() != "!doctype"@.len());
    }
    assert(k.name != "!"@) by {
        assert(k.name[0] != "!"@[0]);
    }
    assert(k.entries[0].name is None);
    lemma_first_unnamed(k.entries, 0);
}

/// Round trip of a tree: an element tree that XML to KDL turns into a node,
/// read as KDL to XML reads nodes (see [`node_read`]), is written back by
/// KDL to XML, without pretty-printing, as the XML of the tree (see
/// [`tree_xml`]).
pub proof fn lemma_tree_round_trip(n: XNode, inherit: bool)
    requires
        plain_node(n),
        n is Element,
    ensures
        to_kdl(n, inherit) matches Some(o) && node_xml(node_read(o), false) == Ok::<Seq<XO>, Seq<char>>(
            tree_xml(n, inherit),
        ),
    decreases n, 1nat,
{
    match n {
        XNode::Element { name, attributes, children } => {
            let preserve = space_preserve(attributes, inherit);
            let f = significant_children(children, preserve);
            let he = has_element(children);
            if !preserve {
                lemma_keep_children_plain(children, he);
            }
            lemma_plain_nodes(f);
            assert(!has_comment_or_pi(f));
            lemma_xml_name_not_special(name);
            lemma_name_error_iff(name, "element"@);
            lemma_attr_entries(attributes, name);
            let o = to_kdl(n, inherit)->0;
            let k = node_read(o);
            if f.len() == 0 {
                assert(analyze(f) == Content::Empty);
                assert(k.entries == attr_entries(attributes));
                lemma_first_unnamed(k.entries, 0);
            } else if !has_element(f) {
                assert forall|i: int| 0 <= i < f.len() implies #[trigger] f[i] is Text by {
                    assert(plain_node(f[i]));
                    assert(!(f[i] is Element));
                }
                lemma_texts_all(f);
                let ts = texts(f);
                if ts.len() == 1 {
                    assert(ts.drop_last() =~= Seq::<Seq<char>>::empty());
                    assert(concat_all(ts.drop_last()) == Seq::<char>::empty());
                    assert(Seq::<char>::empty() + ts.last() =~= ts[0]);
                    assert(concat_all(ts) == ts[0]);
                }
                let t = concat_all(ts);
                assert(analyze(f) == Content::PureText(t));
                lemma_attr_entries_with_text(attributes, t, name);
                assert(k.entries == attr_entries(attributes).push(KE { name: None, key: None, value: KV::Str(t) }));
                assert(seq![XO::Start(name, attributes)] + seq![XO::Text(t)] + seq![XO::End(name)]
                    =~= seq![XO::Start(name, attributes), XO::Text(t), XO::End(name)]);
            } else {
                let kc = kdl_children(children, preserve, he);
                assert(o.children == Some(kc));
                assert(k.entries == attr_entries(attributes));
                lemma_kdl_children_len(children, preserve, he);
                lemma_nodes_read_len(kc);
                assert(has_child_nodes(k));
                lemma_children_round_trip(children, preserve, he);
                let inner = children_tree_xml(children, preserve, he);
                assert(seq![XO::Start(name, attributes)] + Seq::<XO>::empty() + inner + seq![XO::End(name)]
                    =~= seq![XO::Start(name, attributes)] + inner + seq![XO::End(name)]);
            }
        },
        _ => {},
    }
}

/// What KDL to XML writes of the children block that XML to KDL built.
proof fn lemma_children_round_trip(s: Seq<XNode>, preserve: bool, w: bool)
    requires
        plain_nodes(s),
    ensures
        children_xml(nodes_read(kdl_children(s, preserve, w)), false) == Ok::<Seq<XO>, Seq<char>>(
            children_tree_xml(s, preserve, w),
        ),
    decreases s, 0nat,
{
    if s.len() > 0 {
        let k = s.len() - 1;
        let front = s.subrange(0, k);
        lemma_children_round_trip(front, preserve, w);
        let a = kdl_children(front, preserve, w);
        assert(s.subrange(0, s.len() - 1) == front);
        if preserve || kept(s[k], w) {
            assert(children_tree_xml(s, preserve, w) == children_tree_xml(front, preserve, w) + tree_xml(
                s[k],
                preserve,
            ));
            match s[k] {
                XNode::Text(t) => {
                    assert(kdl_children(s, preserve, w) == a + seq![text_node(t)]);
                    assert(a + seq![text_node(t)] =~= a.push(text_node(t)));
                    lemma_nodes_read_push(a, text_node(t));
                    lemma_children_xml_push(nodes_read(a), node_read(text_node(t)), false);
                    lemma_text_node_read(t);
                },
                _ => {
                    assert(plain_node(s[k]));
                    lemma_tree_round_trip(s[k], preserve);
                    let o = to_kdl(s[k], preserve)->0;
                    assert(kdl_children(s, preserve, w) == a + seq![o]);
                    assert(a + seq![o] =~= a.push(o));
                    lemma_nodes_read_push(a, o);
                    lemma_children_xml_push(nodes_read(a), node_read(o), false);
                },
            }
        } else {
            assert(kdl_children(s, preserve, w) == a + Seq::<ONode>::empty());
            assert(a + Seq::<ONode>::empty() =~= a);
            assert(children_tree_xml(s, preserve, w) == children_tree_xml(front, preserve, w) + Seq::<XO>::empty());
            assert(children_tree_xml(front, preserve, w) + Seq::<XO>::empty() =~= children_tree_xml(front, preserve, w));
        }
    }
}

/// Nodes that say the same thing read the same.
proof fn lemma_same_content_read(a: ONode, b: ONode)
    requires
        same_content(a, b),
    ensures
        node_read(a) == node_read(b),
    decreases a, 1nat,
{
    match a.children {
        Some(x) => {
            let y = b.children->0;
            lemma_same_contents_read(x, y);
        },
        None => {},
    }
}

proof fn lemma_same_contents_read(x: Seq<ONode>, y: Seq<ONode>)
    requires
        same_contents(x, y),
    ensures
        nodes_read(x) == nodes_read(y),
    decreases x, 0nat,
{
    if x.len() > 0 {
        let k = x.len() - 1;
        lemma_same_contents_read(x.subrange(0, k), y.subrange(0, k));
        lemma_same_content_read(x[k], y[k]);
    }
}

/// Round trip of a document: a document made of one element tree, turned
/// into KDL in any compact mode, with or without whitespace preserved, is
/// written back by KDL to XML, without pretty-printing, as the XML of the
/// tree. The KDL nodes are read as [`node_read`] says.
pub proof fn lemma_document_round_trip(root: XNode, c: XmlToKdlConverter)
    requires
        plain_node(root),
        root is Element,
    ensures
        document_xml(nodes_read(document_model(seq![root], c)), false) == Ok::<Seq<XO>, Seq<char>>(
            tree_xml(root, c.preserve_whitespace),
        ),
{
    let p = c.preserve_whitespace;
    lemma_tree_round_trip(root, p);
    let o = to_kdl(root, p)->0;
    assert(seq![root].drop_last() =~= Seq::<XNode>::empty());
    assert(seq![root].last() == root);
    assert(root_models(Seq::<XNode>::empty(), p) == Seq::<ONode>::empty());
    assert(root_models(seq![root], p) == Seq::<ONode>::empty() + seq![o]);
    assert(root_models(seq![root], p) =~= seq![o]);
    let m = match c.compact_mode {
        CompactMode::Off => o,
        CompactMode::All => compact(o, o.format, false, Seq::empty()),
        CompactMode::Leaf => compact(o, o.format, true, Seq::empty()),
    };
    assert(layout(seq![o], c.compact_mode) =~= seq![m]);
    match c.compact_mode {
        CompactMode::Off => {},
        CompactMode::All => {
            lemma_compact_keeps_content(o, o.format, false, Seq::empty());
            lemma_same_content_read(m, o);
        },
        CompactMode::Leaf => {
            lemma_compact_keeps_content(o, o.format, true, Seq::empty());
            lemma_same_content_read(m, o);
        },
    }
    assert(seq![m].subrange(0, 0) =~= Seq::<ONode>::empty());
    let ks = nodes_read(seq![m]);
    assert(nodes_read(Seq::<ONode>::empty()) == Seq::<KN>::empty());
    assert(seq![m][0] == m);
    assert(ks == Seq::<KN>::empty().push(node_read(m)));
    assert(ks =~= seq![node_read(o)]);
    match root {
        XNode::Element { name, .. } => {
            lemma_xml_name_not_special(name);
            assert(ks.drop_last() =~= Seq::<KN>::empty());
            assert(kdl_root_scan(Seq::<KN>::empty()) == Ok::<(nat, nat, bool), Seq<char>>((0, 0, false)));
            assert(ks.last() == node_read(o));
            assert(node_read(o).name == name);
            assert(kdl_root_scan(ks) == Ok::<(nat, nat, bool), Seq<char>>((1, 0, true)));
            assert(kdl_root_error(ks) is None);
            lemma_children_xml_push(Seq::<KN>::empty(), node_read(o), false);
            assert(Seq::<KN>::empty().push(node_read(o)) == ks);
            assert(Seq::<XO>::empty() + tree_xml(root, p) =~= tree_xml(root, p));
        },
        _ => {},
    }
}

} // verus!
