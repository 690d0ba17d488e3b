use gettext::Catalog;
use vstd::prelude::*;

verus! {

#[verifier::external_type_specification]
#[verifier::external_body]
pub struct ExCatalog(Catalog);

/// What a catalog holds: each message id that has a singular translation,
/// mapped to that translation.
pub uninterp spec fn catalog_messages(c: Catalog) -> Map<Seq<char>, Seq<char>>;

/// The translation of `msg_id` in `c`, or `msg_id` itself where `c` has none.
pub open spec fn translate(c: Catalog, msg_id: Seq<char>) -> Seq<char> {
    if catalog_messages(c).contains_key(msg_id) {
        catalog_messages(c)[msg_id]
    } else {
        msg_id
    }
}

/// Relies on Catalog::empty: a catalog with no messages.
#[verifier::external_body]
pub(crate) fn empty_catalog() -> (r: Catalog)
    ensures
        forall|k: Seq<char>| !#[trigger] catalog_messages(r).contains_key(k),
{
    Catalog::empty()
}

/// Relies on Catalog::gettext: the singular translation, or the id.
#[verifier::external_body]
pub(crate) fn lookup<'a>(c: &'a Catalog, msg_id: &'a str) -> (r: &'a str)
    ensures
        r@ == translate(*c, msg_id@),
{
    c.gettext(msg_id)
}

/// What a compiled (MO) catalog holds: its messages, as `catalog_messages`
/// gives them, or `None` where gettext refuses the bytes.
pub uninterp spec fn mo_catalog(mo: Seq<u8>) -> Option<Map<Seq<char>, Seq<char>>>;

/// The plural rule given to the MO reader: the library reads only singular
/// translations, so every count selects the first form.
fn singular_form(_n: u64) -> (r: usize)
    ensures
        r == 0,
{
    0
}

/// Relies on gettext::ParseOptions::parse with `force_plural` set, which
/// reads a compiled (MO) catalog from its bytes without parsing the
/// catalog's own plural expression; `None` where gettext refuses the bytes.
#[verifier::external_body]
pub(crate) fn parse_compiled(mo: &[u8]) -> (r: Option<Catalog>)
    ensures
        r is Some <==> mo_catalog(mo@) is Some,
        r matches Some(c) ==> mo_catalog(mo@) == Some(catalog_messages(c)),
{
    gettext::ParseOptions::new().force_plural(singular_form).parse(mo).ok()
}

} // verus!
