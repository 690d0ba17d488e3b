use vstd::prelude::*;
use vstd::utf8::{decode_utf8, valid_utf8};

verus! {

/// What gettext-utils' `try_format` makes of a template with one positional
/// argument: the filled-in text, or `None` where the template does not fit.
pub uninterp spec fn formatted(template: Seq<char>, arg: Seq<char>) -> Option<Seq<char>>;

/// Text without curly brackets.
pub open spec fn brace_free(s: Seq<char>) -> bool {
    forall|i: int| 0 <= i < s.len() ==> s[i] != '{' && s[i] != '}'
}

/// A template with one empty slot between `a` and `b`.
pub open spec fn one_slot(a: Seq<char>, b: Seq<char>) -> Seq<char> {
    a + seq!['{', '}'] + b
}

/// Relies on gettext_utils::try_format, called with `arg` as the one
/// positional argument; its error is dropped to `None`.
#[verifier::external_body]
pub(crate) fn fill(template: &str, arg: &str) -> (r: Option<String>)
    ensures
        r is Some <==> formatted(template@, arg@) is Some,
        r matches Some(t) ==> formatted(template@, arg@) == Some(t@),
        forall|a: Seq<char>, b: Seq<char>| #![trigger one_slot(a, b)] (template@ == one_slot(a, b) && brace_free(a) && brace_free(b)) ==> (r is Some && r->0@ == a + arg@ + b),
{
    let argv: [Box<dyn std::fmt::Display + '_>; 1] = [Box::new(arg)];
    gettext_utils::try_format(template, &argv).ok()
}

/// Relies on String::from_utf8: the text that the bytes encode, if they are
/// valid UTF-8.
#[verifier::external_body]
pub(crate) fn utf8_text(bytes: &[u8]) -> (r: Option<String>)
    ensures
        r is Some <==> valid_utf8(bytes@),
        r matches Some(t) ==> t@ == decode_utf8(bytes@),
{
    String::from_utf8(bytes.to_vec()).ok()
}

} // verus!
