//! XML name validation shared by both directions.
use vstd::prelude::*;

use crate::error::Kdl2XmlError;
use crate::text::{chars_of, concat2, concat3, is_name_char, is_name_start, name_char, name_start, push_char};

verus! {

broadcast use vstd::string::group_string_axioms;

/// Whether `s` is an XML name in the sense of this library: non-empty,
/// starting with a letter, `_` or `:`, and going on with letters, digits,
/// `-`, `_`, `.` and `:` only.
pub open spec fn is_xml_name(s: Seq<char>) -> bool {
    &&& s.len() > 0
    &&& is_name_start(s[0])
    &&& forall|i: int| 1 <= i < s.len() ==> is_name_char(#[trigger] s[i])
}

/// The index of the first character at or after `i` that may not continue a name.
pub open spec fn first_bad_from(s: Seq<char>, i: int) -> Option<int>
    decreases s.len() - i,
{
    if i < 0 || i >= s.len() {
        None
    } else if !is_name_char(s[i]) {
        Some(i)
    } else {
        first_bad_from(s, i + 1)
    }
}

/// The message with which a name is refused, or `None` when it is accepted.
pub open spec fn name_error(s: Seq<char>, context: Seq<char>) -> Option<Seq<char>> {
    if s.len() == 0 {
        Some(context + " name cannot be empty"@)
    } else if !is_name_start(s[0]) {
        Some("Invalid "@ + context + " name '"@ + s
            + "': must start with a letter, underscore, or colon"@)
    } else {
        match first_bad_from(s, 1) {
            Some(k) => Some("Invalid "@ + context + " name '"@ + s
                + "': contains invalid character '"@ + seq![s[k]] + "'"@),
            None => None,
        }
    }
}

pub proof fn lemma_first_bad_from(s: Seq<char>, i: int)
    requires
        0 <= i,
    ensures
        match first_bad_from(s, i) {
            Some(k) => i <= k < s.len() && !is_name_char(s[k])
                && forall|j: int| i <= j < k ==> is_name_char(#[trigger] s[j]),
            None => forall|j: int| i <= j < s.len() ==> is_name_char(#[trigger] s[j]),
        },
    decreases s.len() - i,
{
    if i < s.len() && is_name_char(s[i]) {
        lemma_first_bad_from(s, i + 1);
    }
}

/// A name is refused exactly when it is not an XML name.
pub proof fn lemma_name_error_iff(s: Seq<char>, context: Seq<char>)
    ensures
        name_error(s, context) is None <==> is_xml_name(s),
{
    lemma_first_bad_from(s, 1);
}

/// Validates that `name` is an XML name; `context` names what is checked
/// (element, attribute, ...) in the error message.
pub fn validate_xml_name(name: &str, context: &str) -> (res: core::result::Result<(), Kdl2XmlError>)
    ensures
        res is Ok <==> is_xml_name(name@),
        match name_error(name@, context@) {
            None => res is Ok,
            Some(m) => res matches Err(Kdl2XmlError::InvalidStructure(e)) && e@ == m,
        },
{
    proof { lemma_name_error_iff(name@, context@); }
    let v = chars_of(name);
    if v.len() == 0 {
        return Err(Kdl2XmlError::InvalidStructure(concat2(context, " name cannot be empty")));
    }
    if !name_start(v[0]) {
        let mut m = concat3("Invalid ", context, " name '");
        m.append(name);
        m.append("': must start with a letter, underscore, or colon");
        return Err(Kdl2XmlError::InvalidStructure(m));
    }
    let mut i: usize = 1;
    while i < v.len()
        invariant
            v@ == name@,
            1 <= i <= v.len(),
            is_name_start(name@[0]),
            first_bad_from(name@, 1) == first_bad_from(name@, i as int),
        decreases v.len() - i,
    {
        if !name_char(v[i]) {
            let mut m = concat3("Invalid ", context, " name '");
            m.append(name);
            m.append("': contains invalid character '");
            push_char(&mut m, v[i]);
            m.append("'");
            assert(first_bad_from(name@, i as int) == Some(i as int));
            assert(m@ =~= "Invalid "@ + context@ + " name '"@ + name@
                + "': contains invalid character '"@ + seq![name@[i as int]] + "'"@);
            assert(name_error(name@, context@) == Some(m@));
            return Err(Kdl2XmlError::InvalidStructure(m));
        }
        i = i + 1;
    }
    Ok(())
}

} // verus!
