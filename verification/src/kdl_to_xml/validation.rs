//! Checks on DOCTYPE content, so that what is written stays one declaration.
use vstd::prelude::*;

use crate::error::Kdl2XmlError;
use crate::text::{
    all_white, chars_of, is_name_char, is_white_space, lemma_trim_exact, string_from_chars, trim,
    trim_bounds, white_space,
};
use crate::validation::{is_xml_name, lemma_name_error_iff, name_error, validate_xml_name};

verus! {

broadcast use vstd::string::group_string_axioms;

/// The leading run of `s` up to the first white space.
pub open spec fn first_word(s: Seq<char>) -> Seq<char>
    decreases s.len(),
{
    if s.len() == 0 || is_white_space(s[0]) {
        Seq::empty()
    } else {
        seq![s[0]] + first_word(s.drop_first())
    }
}

/// The state of the scan over DOCTYPE content: inside single quotes,
/// inside double quotes, and how many internal-subset brackets are open.
pub struct ScanState {
    pub in_single: bool,
    pub in_double: bool,
    pub depth: nat,
}

/// One step of the scan; `None` when an unquoted `>` appears outside brackets.
pub open spec fn scan_step(st: ScanState, c: char) -> Option<ScanState> {
    if c == '"' && !st.in_single {
        Some(ScanState { in_double: !st.in_double, ..st })
    } else if c == '\'' && !st.in_double {
        Some(ScanState { in_single: !st.in_single, ..st })
    } else if c == '[' && !st.in_single && !st.in_double {
        Some(ScanState { depth: st.depth + 1, ..st })
    } else if c == ']' && !st.in_single && !st.in_double {
        Some(ScanState { depth: if st.depth > 0 { (st.depth - 1) as nat } else { 0 }, ..st })
    } else if c == '>' && !st.in_single && !st.in_double && st.depth == 0 {
        None
    } else {
        Some(st)
    }
}

/// The scan over all of `s`, from the state outside any quote or bracket.
pub open spec fn scan(s: Seq<char>) -> Option<ScanState>
    decreases s.len(),
{
    if s.len() == 0 {
        Some(ScanState { in_single: false, in_double: false, depth: 0 })
    } else {
        match scan(s.drop_last()) {
            Some(st) => scan_step(st, s.last()),
            None => None,
        }
    }
}

/// The message with which DOCTYPE content is refused, or `None`.
pub open spec fn doctype_error(content: Seq<char>) -> Option<Seq<char>> {
    let t = trim(content);
    if t.len() == 0 {
        Some("DOCTYPE content cannot be empty"@)
    } else {
        match name_error(first_word(t), "DOCTYPE root element"@) {
            Some(m) => Some(m),
            None => match scan(t) {
                None => Some("DOCTYPE content contains unquoted '>' which would produce invalid XML"@),
                Some(st) => if st.in_single || st.in_double {
                    Some("DOCTYPE content has unclosed quote"@)
                } else if st.depth != 0 {
                    Some("DOCTYPE content has unclosed internal subset bracket"@)
                } else {
                    None
                },
            },
        }
    }
}

/// The scan over `s` from the state `st` (`None` once it has failed).
pub open spec fn scan_from(st: Option<ScanState>, s: Seq<char>) -> Option<ScanState>
    decreases s.len(),
{
    if s.len() == 0 {
        st
    } else {
        match scan_from(st, s.drop_last()) {
            Some(x) => scan_step(x, s.last()),
            None => None,
        }
    }
}

proof fn lemma_scan_from_concat(st: Option<ScanState>, a: Seq<char>, b: Seq<char>)
    ensures
        scan_from(st, a + b) == scan_from(scan_from(st, a), b),
    decreases b.len(),
{
    if b.len() == 0 {
        assert(a + b == a);
    } else {
        lemma_scan_from_concat(st, a, b.drop_last());
        assert((a + b).drop_last() == a + b.drop_last());
        assert((a + b).last() == b.last());
    }
}

proof fn lemma_scan_is_scan_from(s: Seq<char>)
    ensures
        scan(s) == scan_from(Some(ScanState { in_single: false, in_double: false, depth: 0 }), s),
    decreases s.len(),
{
    if s.len() > 0 {
        lemma_scan_is_scan_from(s.drop_last());
    }
}

/// Inside a double-quoted literal only `"` counts.
proof fn lemma_scan_inside_double(st: ScanState, lit: Seq<char>)
    requires
        st.in_double,
        !st.in_single,
        forall|i: int| 0 <= i < lit.len() ==> #[trigger] lit[i] != '"',
    ensures
        scan_from(Some(st), lit) == Some(st),
    decreases lit.len(),
{
    if lit.len() > 0 {
        assert forall|i: int| 0 <= i < lit.drop_last().len() implies #[trigger] lit.drop_last()[i] != '"' by {
            assert(lit.drop_last()[i] == lit[i]);
        }
        lemma_scan_inside_double(st, lit.drop_last());
        assert(lit.last() == lit[lit.len() - 1]);
    }
}

/// Characters that are neither quotes, brackets nor `>` leave the scan as it is.
proof fn lemma_scan_plain(st: ScanState, s: Seq<char>)
    requires
        forall|i: int| 0 <= i < s.len() ==> {
            let c = #[trigger] s[i];
            c != '"' && c != '\'' && c != '[' && c != ']' && c != '>'
        },
    ensures
        scan_from(Some(st), s) == Some(st),
    decreases s.len(),
{
    if s.len() > 0 {
        assert forall|i: int| 0 <= i < s.drop_last().len() implies {
            let c = #[trigger] s.drop_last()[i];
            c != '"' && c != '\'' && c != '[' && c != ']' && c != '>'
        } by {
            assert(s.drop_last()[i] == s[i]);
        }
        lemma_scan_plain(st, s.drop_last());
        assert(s.last() == s[s.len() - 1]);
    }
}

/// A closed double-quoted literal leaves the scan where it was, whatever it
/// holds (single quotes, brackets and `>` among them).
pub proof fn lemma_double_quoted_literal_is_inert(st: ScanState, lit: Seq<char>)
    requires
        !st.in_single,
        !st.in_double,
        forall|i: int| 0 <= i < lit.len() ==> #[trigger] lit[i] != '"',
    ensures
        scan_from(Some(st), seq!['"'] + lit + seq!['"']) == Some(st),
{
    let open = ScanState { in_double: true, ..st };
    let q = seq!['"'];
    assert(q.drop_last() =~= Seq::<char>::empty());
    assert(q.last() == '"');
    assert(scan_from(Some(st), q.drop_last()) == Some(st));
    assert(scan_from(Some(open), q.drop_last()) == Some(open));
    assert(scan_step(st, '"') == Some(open));
    assert(scan_step(open, '"') == Some(st));
    assert(scan_from(Some(st), q) == Some(open));
    lemma_scan_inside_double(open, lit);
    lemma_scan_from_concat(Some(st), seq!['"'], lit);
    lemma_scan_from_concat(Some(st), seq!['"'] + lit, seq!['"']);
    assert(scan_from(Some(open), q) == Some(st));
}

/// A DOCTYPE of a root name and one double-quoted literal is accepted,
/// whatever the literal holds.
pub proof fn lemma_doctype_with_literal_accepted(root: Seq<char>, lit: Seq<char>)
    requires
        is_xml_name(root),
        forall|i: int| 0 <= i < lit.len() ==> #[trigger] lit[i] != '"',
    ensures
        doctype_error(root + seq![' ', '"'] + lit + seq!['"']) is None,
{
    let content = root + seq![' ', '"'] + lit + seq!['"'];
    let init = ScanState { in_single: false, in_double: false, depth: 0 };
    // Trimming changes nothing.
    assert(!is_white_space(content[0])) by {
        assert(content[0] == root[0]);
    }
    assert(content.last() == '"');
    assert(all_white(Seq::<char>::empty()));
    lemma_trim_exact(Seq::empty(), content, Seq::empty());
    assert(Seq::<char>::empty() + content + Seq::<char>::empty() == content);
    // The first word is the root name.
    assert forall|j: int| 0 <= j < root.len() implies !is_white_space(#[trigger] content[j]) by {
        assert(content[j] == root[j]);
        if j > 0 {
            assert(is_name_char(root[j]));
        }
    }
    assert(content[root.len() as int] == ' ');
    lemma_first_word_bound(content, root.len() as int);
    assert(content.subrange(0, root.len() as int) == root);
    lemma_name_error_iff(root, "DOCTYPE root element"@);
    // The scan ends where it started.
    lemma_scan_is_scan_from(content);
    assert forall|i: int| 0 <= i < (root + seq![' ']).len() implies {
        let c = #[trigger] (root + seq![' '])[i];
        c != '"' && c != '\'' && c != '[' && c != ']' && c != '>'
    } by {
        if i < root.len() {
            assert((root + seq![' '])[i] == root[i]);
            if i > 0 {
                assert(is_name_char(root[i]));
            }
        }
    }
    lemma_scan_plain(init, root + seq![' ']);
    lemma_double_quoted_literal_is_inert(init, lit);
    assert(content == (root + seq![' ']) + (seq!['"'] + lit + seq!['"']));
    lemma_scan_from_concat(Some(init), root + seq![' '], seq!['"'] + lit + seq!['"']);
}

proof fn lemma_first_word_bound(s: Seq<char>, i: int)
    requires
        0 <= i <= s.len(),
        forall|j: int| 0 <= j < i ==> !is_white_space(#[trigger] s[j]),
        i == s.len() || is_white_space(s[i]),
    ensures
        first_word(s) == s.subrange(0, i),
    decreases i,
{
    if i > 0 {
        lemma_first_word_bound(s.drop_first(), i - 1);
        assert(s.subrange(0, i) == seq![s[0]] + s.drop_first().subrange(0, i - 1));
    } else {
        assert(s.subrange(0, 0) == Seq::<char>::empty());
    }
}

/// Validates DOCTYPE content: `NAME (PUBLIC|SYSTEM)? quoted-strings? ("[" internal-subset "]")?`.
/// The content, trimmed, must be non-empty, start with an XML name, hold no
/// `>` outside quotes and brackets, and close every quote and bracket.
pub fn validate_doctype_content(content: &str) -> (res: core::result::Result<(), Kdl2XmlError>)
    ensures
        match doctype_error(content@) {
            None => res is Ok,
            Some(m) => res matches Err(Kdl2XmlError::InvalidStructure(e)) && e@ == m,
        },
{
    let all = chars_of(content);
    let (lo, hi) = trim_bounds(&all);
    let t = string_from_chars(&all, lo, hi);
    let v = chars_of(&t);
    if v.len() == 0 {
        return Err(Kdl2XmlError::InvalidStructure("DOCTYPE content cannot be empty".to_string()));
    }
    let mut k: usize = 0;
    while k < v.len() && !white_space(v[k])
        invariant
            k <= v.len(),
            forall|j: int| 0 <= j < k ==> !is_white_space(#[trigger] v@[j]),
        decreases v.len() - k,
    {
        k = k + 1;
    }
    proof { lemma_first_word_bound(v@, k as int); }
    let root_name = string_from_chars(&v, 0, k);
    validate_xml_name(&root_name, "DOCTYPE root element")?;

    let mut in_single = false;
    let mut in_double = false;
    let mut depth: usize = 0;
    let mut i: usize = 0;
    assert(v@.subrange(0, 0) == Seq::<char>::empty());
    while i < v.len()
        invariant
            v@ == t@,
            t@ == trim(content@),
            v@.len() > 0,
            name_error(first_word(v@), "DOCTYPE root element"@) is None,
            i <= v.len(),
            depth <= i,
            scan(v@.subrange(0, i as int)) == Some(
                ScanState { in_single, in_double, depth: depth as nat },
            ),
        decreases v.len() - i,
    {
        let c = v[i];
        assert(v@.subrange(0, i + 1).drop_last() == v@.subrange(0, i as int));
        if c == '"' && !in_single {
            in_double = !in_double;
        } else if c == '\'' && !in_double {
            in_single = !in_single;
        } else if c == '[' && !in_single && !in_double {
            depth = depth + 1;
        } else if c == ']' && !in_single && !in_double {
            if depth > 0 {
                depth = depth - 1;
            }
        } else if c == '>' && !in_single && !in_double && depth == 0 {
            assert(v@.subrange(0, i + 1).last() == c);
            assert(scan(v@.subrange(0, i + 1)) is None);
            proof { lemma_scan_none_extends(v@, i as int + 1); }
            return Err(Kdl2XmlError::InvalidStructure(
                "DOCTYPE content contains unquoted '>' which would produce invalid XML".to_string(),
            ));
        }
        i = i + 1;
    }
    assert(v@.subrange(0, v@.len() as int) == v@);
    if in_single || in_double {
        return Err(Kdl2XmlError::InvalidStructure("DOCTYPE content has unclosed quote".to_string()));
    }
    if depth != 0 {
        return Err(Kdl2XmlError::InvalidStructure(
            "DOCTYPE content has unclosed internal subset bracket".to_string(),
        ));
    }
    Ok(())
}

/// Once the scan has met an unquoted `>`, it stays refused.
proof fn lemma_scan_none_extends(s: Seq<char>, i: int)
    requires
        0 <= i <= s.len(),
        scan(s.subrange(0, i)) is None,
    ensures
        scan(s) is None,
    decreases s.len() - i,
{
    if i < s.len() {
        assert(s.subrange(0, i + 1).drop_last() == s.subrange(0, i));
        lemma_scan_none_extends(s, i + 1);
    } else {
        assert(s.subrange(0, i) == s);
    }
}

} // verus!
