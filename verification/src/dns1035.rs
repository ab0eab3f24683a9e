//! Names in the form of a DNS-1035 label: lower case, a letter first, a
//! letter or a digit last, and nothing but letters, digits and hyphens.

use vstd::prelude::*;
use vstd::utf8::is_ascii_chars;
use crate::text::push_char;

verus! {

/// The pattern that a name has to match, as it is reported with a name that
/// does not.
pub const DNS1035_PATTERN: &'static str = "^[a-z][a-z0-9-]*[a-z0-9]$";

/// A name that cannot be made a DNS-1035 label.
#[derive(Debug)]
pub struct InvalidName {
    /// The name in lower case, as it was checked.
    pub name: String,
    /// The pattern that the name has to match.
    pub pattern: &'static str,
}

/// `c` is one of `a` to `z`.
pub open spec fn is_lower_letter(c: char) -> bool {
    'a' <= c <= 'z'
}

/// `c` is one of `0` to `9`.
pub open spec fn is_digit(c: char) -> bool {
    '0' <= c <= '9'
}

/// `c` may stand in a label: a lower-case letter, a digit or a hyphen.
pub open spec fn is_label_char(c: char) -> bool {
    is_lower_letter(c) || is_digit(c) || c == '-'
}

/// `name` begins with a lower-case letter and ends with a lower-case letter
/// or a digit.
pub open spec fn has_valid_ends(name: Seq<char>) -> bool {
    &&& name.len() > 0
    &&& is_lower_letter(name.first())
    &&& (is_lower_letter(name.last()) || is_digit(name.last()))
}

/// `name` is a DNS-1035 label.
pub open spec fn is_label(name: Seq<char>) -> bool {
    &&& has_valid_ends(name)
    &&& forall|i: int| 0 <= i < name.len() ==> is_label_char(#[trigger] name[i])
}

/// `c` if it may stand in a label, a hyphen in its place if not.
pub open spec fn label_char(c: char) -> char {
    if is_label_char(c) {
        c
    } else {
        '-'
    }
}

/// `name` with a hyphen in place of every character that may not stand in a
/// label.
pub open spec fn hyphenated(name: Seq<char>) -> Seq<char> {
    name.map_values(|c: char| label_char(c))
}

/// `c` in lower case, for a character of ASCII.
pub open spec fn ascii_lower(c: char) -> char {
    if 'A' <= c <= 'Z' {
        ((c as u8) + 32) as char
    } else {
        c
    }
}

/// What `str::to_lowercase` returns for `text`.
pub uninterp spec fn unicode_lowercase(text: Seq<char>) -> Seq<char>;

/// `text` in lower case. ASCII is lowered letter by letter; text that holds
/// anything else is lowered as Unicode has it.
pub open spec fn lowercase_of(text: Seq<char>) -> Seq<char> {
    if is_ascii_chars(text) {
        text.map_values(|c: char| ascii_lower(c))
    } else {
        unicode_lowercase(text)
    }
}

/// The label made of a name that is in lower case already, where one can be
/// made: only the first and the last character decide that.
pub open spec fn label_of_lowercase(lower: Seq<char>) -> Option<Seq<char>> {
    if has_valid_ends(lower) {
        Some(hyphenated(lower))
    } else {
        None
    }
}

/// The label made of `name`, where one can be made.
pub open spec fn label_of(name: Seq<char>) -> Option<Seq<char>> {
    label_of_lowercase(lowercase_of(name))
}

/// Whatever is made of a name in lower case is a label.
pub proof fn lemma_label_of_lowercase_is_label(lower: Seq<char>)
    requires
        has_valid_ends(lower),
    ensures
        is_label(hyphenated(lower)),
{
}

/// Lowering leaves a label as it is.
pub proof fn lemma_label_is_lowercase(label: Seq<char>)
    requires
        is_label(label),
    ensures
        lowercase_of(label) == label,
{
    assert(is_ascii_chars(label)) by {
        assert forall|i: int| 0 <= i < label.len() implies '\0' <= #[trigger] label[i]
            <= '\u{7f}' by {
            assert(is_label_char(label[i]));
        }
    }
    assert(lowercase_of(label) =~= label) by {
        assert forall|i: int| 0 <= i < label.len() implies ascii_lower(#[trigger] label[i])
            == label[i] by {
            assert(is_label_char(label[i]));
        }
    }
}

/// A label is the label of itself.
pub proof fn lemma_label_is_fixed(label: Seq<char>)
    requires
        is_label(label),
    ensures
        label_of(label) == Some(label),
{
    lemma_label_is_lowercase(label);
    assert(hyphenated(label) =~= label);
}

/// Making a label of a label that was made of a name changes nothing.
pub proof fn lemma_label_of_is_idempotent(name: Seq<char>)
    requires
        label_of(name) is Some,
    ensures
        is_label(label_of(name)->0),
        label_of(label_of(name)->0) == label_of(name),
{
    lemma_label_of_lowercase_is_label(lowercase_of(name));
    lemma_label_is_fixed(label_of(name)->0);
}

/// Calls `str::to_lowercase`. The contract names the result; that the same
/// text is lowered to the same text every time is what std documents of it.
#[verifier::external_body]
fn unicode_lowercase_call(text: &str) -> (lower: String)
    ensures
        lower@ == unicode_lowercase(text@),
{
    text.to_lowercase()
}

/// `text` in lower case. ASCII is lowered here, letter by letter; text that
/// holds anything else is handed to std.
pub fn lowercase(text: &str) -> (lower: String)
    ensures
        lower@ == lowercase_of(text@),
{
    if text.is_ascii() {
        let mut lower = String::new();
        for c in it: text.chars()
            invariant
                it.seq() == text@,
                is_ascii_chars(text@),
                lower@ == text@.take(it.index() as int).map_values(|c: char| ascii_lower(c)),
        {
            let low = if 'A' <= c && c <= 'Z' {
                ((c as u8) + 32) as char
            } else {
                c
            };
            push_char(&mut lower, low);
            assert(lower@ =~= text@.take(it.index() + 1).map_values(|c: char| ascii_lower(c)));
        }
        assert(text@.take(text@.len() as int) =~= text@);
        lower
    } else {
        unicode_lowercase_call(text)
    }
}

/// Makes a DNS-1035 label of a name that is in lower case already. The name
/// has to begin with a letter and end with a letter or a digit; every
/// character in it that a label cannot hold becomes a hyphen.
pub fn label_from_lowercase(lower: &str) -> (made: Result<String, InvalidName>)
    ensures
        match made {
            Ok(label) => label_of_lowercase(lower@) == Some(label@) && is_label(label@),
            Err(invalid) => label_of_lowercase(lower@) is None && invalid.name@ == lower@
                && invalid.pattern@ == DNS1035_PATTERN@,
        },
{
    let n = lower.unicode_len();
    let valid = if n == 0 {
        false
    } else {
        let first = lower.get_char(0);
        let last = lower.get_char(n - 1);
        ('a' <= first && first <= 'z') && (('a' <= last && last <= 'z') || ('0' <= last && last
            <= '9'))
    };
    if !valid {
        return Err(InvalidName { name: lower.to_owned(), pattern: DNS1035_PATTERN });
    }
    let mut label = String::new();
    for c in it: lower.chars()
        invariant
            it.seq() == lower@,
            label@ == hyphenated(lower@.take(it.index() as int)),
    {
        let kept = ('a' <= c && c <= 'z') || ('0' <= c && c <= '9') || c == '-';
        push_char(&mut label, if kept { c } else { '-' });
        assert(label@ =~= hyphenated(lower@.take(it.index() + 1)));
    }
    assert(lower@.take(lower@.len() as int) =~= lower@);
    Ok(label)
}

/// Enforce DNS1035 format for a string: the string in lower case, with a
/// hyphen for every character that is not a lower-case letter, a digit or a
/// hyphen. A string that, in lower case, does not begin with a letter or does
/// not end with a letter or a digit is refused.
pub fn enforce_dns1035_format(name: &str) -> (made: Result<String, InvalidName>)
    ensures
        match made {
            Ok(label) => label_of(name@) == Some(label@) && is_label(label@),
            Err(invalid) => label_of(name@) is None && invalid.name@ == lowercase_of(name@)
                && invalid.pattern@ == DNS1035_PATTERN@,
        },
        is_label(name@) ==> made is Ok && made->Ok_0@ == name@,
{
    let lower = lowercase(name);
    proof {
        if is_label(name@) {
            lemma_label_is_fixed(name@);
        }
    }
    label_from_lowercase(lower.as_str())
}

} // verus!
