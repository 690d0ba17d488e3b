use gettext::Catalog;
use vstd::prelude::*;
use vstd::utf8::encode_utf8;

use crate::catalog::{catalog_messages, empty_catalog, mo_catalog, parse_compiled};
use crate::language::{byte_views, candidates, parse_accept_language};

verus! {

/// The first position of `x` in `s`, or -1 where `s` does not hold it.
pub open spec fn first_index<A>(s: Seq<A>, x: A) -> int {
    if exists|i: int| is_first(s, x, i) {
        choose|i: int| is_first(s, x, i)
    } else {
        -1
    }
}

pub open spec fn is_first<A>(s: Seq<A>, x: A, i: int) -> bool {
    &&& 0 <= i < s.len()
    &&& s[i] == x
    &&& forall|j: int| 0 <= j < i ==> s[j] != x
}

pub proof fn lemma_first_index<A>(s: Seq<A>, x: A, i: int)
    requires
        is_first(s, x, i),
    ensures
        first_index(s, x) == i,
{
    let k = choose|k: int| is_first(s, x, k);
    if k < i {
        assert(s[k] != x);
    } else if i < k {
        assert(s[i] != x);
    }
}

pub proof fn lemma_first_index_absent<A>(s: Seq<A>, x: A)
    requires
        forall|j: int| 0 <= j < s.len() ==> s[j] != x,
    ensures
        first_index(s, x) == -1,
{
}

/// The primary language of a tag: what stands before its first `-`.
pub open spec fn primary(c: Seq<u8>) -> Seq<u8> {
    if first_index(c, 45u8) >= 0 {
        c.take(first_index(c, 45u8))
    } else {
        c
    }
}

/// The locale that a candidate selects: an exact match first, then a match
/// of its primary language; -1 where neither is there.
pub open spec fn resolve(tags: Seq<Seq<u8>>, c: Seq<u8>) -> int {
    if c.len() == 0 {
        -1
    } else if first_index(tags, c) >= 0 {
        first_index(tags, c)
    } else if primary(c).len() > 0 {
        first_index(tags, primary(c))
    } else {
        -1
    }
}

/// The locale chosen for a list of candidates: that of the first candidate
/// that selects one, else the default locale at position 0.
pub open spec fn choose_locale(tags: Seq<Seq<u8>>, cands: Seq<Seq<u8>>) -> int
    decreases cands.len(),
{
    if cands.len() == 0 {
        0
    } else if resolve(tags, cands[0]) >= 0 {
        resolve(tags, cands[0])
    } else {
        choose_locale(tags, cands.skip(1))
    }
}

pub fn same_bytes(a: &[u8], b: &[u8]) -> (r: bool)
    ensures
        r == (a@ == b@),
{
    if a.len() != b.len() {
        return false;
    }
    let mut i: usize = 0;
    while i < a.len()
        invariant
            a@.len() == b@.len(),
            i <= a@.len(),
            forall|j: int| 0 <= j < i ==> a@[j] == b@[j],
        decreases a@.len() - i,
    {
        if a[i] != b[i] {
            return false;
        }
        i = i + 1;
    }
    assert(a@ =~= b@);
    true
}

fn primary_of(c: &[u8]) -> (r: &[u8])
    ensures
        r@ == primary(c@),
{
    let mut i: usize = 0;
    while i < c.len()
        invariant
            i <= c@.len(),
            forall|j: int| 0 <= j < i ==> c@[j] != 45u8,
        decreases c@.len() - i,
    {
        if c[i] == 45u8 {
            proof {
                lemma_first_index(c@, 45u8, i as int);
            }
            return slice_prefix(c, i);
        }
        i = i + 1;
    }
    proof {
        lemma_first_index_absent(c@, 45u8);
    }
    c
}

fn slice_prefix(c: &[u8], n: usize) -> (r: &[u8])
    requires
        n <= c@.len(),
    ensures
        r@ == c@.take(n as int),
{
    let (a, _b) = c.split_at(n);
    assert(a@ =~= c@.take(n as int));
    a
}

/// A supported locale: its tag and its catalog.
pub struct Locale {
    pub tag: String,
    pub catalog: Catalog,
}

/// The supported locales in their order; the first is the default.
pub struct Registry {
    locales: Vec<Locale>,
}

impl View for Registry {
    type V = Seq<(Seq<u8>, Catalog)>;

    closed spec fn view(&self) -> Seq<(Seq<u8>, Catalog)> {
        self.locales@.map_values(|l: Locale| (encode_utf8(l.tag@), l.catalog))
    }
}

impl Registry {
    /// A registry is well formed when it has a default locale.
    pub open spec fn wf(self) -> bool {
        self@.len() > 0
    }

    /// The tags, as UTF-8 bytes, in order.
    pub open spec fn tags(self) -> Seq<Seq<u8>> {
        self@.map_values(|e: (Seq<u8>, Catalog)| e.0)
    }

    /// The locale that an `Accept-Language` value selects.
    pub open spec fn negotiated(self, h: Seq<u8>) -> int {
        choose_locale(self.tags(), candidates(h))
    }

    /// A registry whose only, and default, locale is `tag`.
    pub fn new(tag: String, catalog: Catalog) -> (r: Registry)
        ensures
            r.wf(),
            r@ == seq![(encode_utf8(tag@), catalog)],
    {
        let ghost t = tag@;
        let ghost c = catalog;
        let r = Registry { locales: vec![Locale { tag, catalog }] };
        assert(r@ =~= seq![(encode_utf8(t), c)]);
        r
    }

    /// A registry whose only, and default, locale is the source language
    /// `tag`: its catalog holds no messages, so each message stays as written.
    pub fn with_source_locale(tag: String) -> (r: Registry)
        ensures
            r.wf(),
            r@.len() == 1,
            r@[0].0 == encode_utf8(tag@),
            forall|k: Seq<char>| !#[trigger] catalog_messages(r@[0].1).contains_key(k),
    {
        Registry::new(tag, empty_catalog())
    }

    /// Appends a supported locale after the present ones.
    pub fn add(&mut self, tag: String, catalog: Catalog)
        ensures
            old(self).wf() ==> final(self).wf(),
            final(self)@ == old(self)@.push((encode_utf8(tag@), catalog)),
    {
        let ghost t = tag@;
        let ghost c = catalog;
        let ghost v0 = self@;
        self.locales.push(Locale { tag, catalog });
        assert(self@ =~= v0.push((encode_utf8(t), c)));
    }

    /// Appends a locale whose catalog is read from compiled (MO) bytes;
    /// `false`, and no change, where those bytes are refused.
    pub fn add_compiled(&mut self, tag: String, mo: &[u8]) -> (r: bool)
        ensures
            r == mo_catalog(mo@) is Some,
            r ==> final(self)@.len() == old(self)@.len() + 1 && final(self)@.take(old(self)@.len() as int) == old(self)@
                && final(self)@.last().0 == encode_utf8(tag@)
                && mo_catalog(mo@) == Some(catalog_messages(final(self)@.last().1)),
            !r ==> final(self)@ == old(self)@,
            old(self).wf() ==> final(self).wf(),
    {
        match parse_compiled(mo) {
            Some(catalog) => {
                let ghost v0 = self@;
                self.add(tag, catalog);
                assert(self@.take(v0.len() as int) =~= v0);
                true
            },
            None => false,
        }
    }

    /// The supported locales: the source language `en`, which is the
    /// default, then `fr` with its catalog read from compiled (MO) bytes;
    /// `None` where those bytes are refused.
    pub fn supported(fr_mo: &[u8]) -> (r: Option<Registry>)
        ensures
            r is Some <==> mo_catalog(fr_mo@) is Some,
            r matches Some(g) ==> {
                &&& g.wf()
                &&& g.tags() == seq![encode_utf8(seq!['e', 'n']), encode_utf8(seq!['f', 'r'])]
                &&& forall|k: Seq<char>| !#[trigger] catalog_messages(g@[0].1).contains_key(k)
                &&& mo_catalog(fr_mo@) == Some(catalog_messages(g@[1].1))
            },
    {
        let en = "en";
        let fr = "fr";
        proof {
            reveal_strlit("en");
            reveal_strlit("fr");
            assert(en@ =~= seq!['e', 'n']);
            assert(fr@ =~= seq!['f', 'r']);
        }
        let mut g = Registry::with_source_locale(en.to_owned());
        if g.add_compiled(fr.to_owned(), fr_mo) {
            assert(g.tags() =~= seq![encode_utf8(seq!['e', 'n']), encode_utf8(seq!['f', 'r'])]);
            Some(g)
        } else {
            None
        }
    }

    pub fn len(&self) -> (r: usize)
        ensures
            r == self@.len(),
    {
        self.locales.len()
    }

    /// The default locale's catalog.
    pub fn default(&self) -> (r: &Catalog)
        requires
            self.wf(),
        ensures
            *r == self@[0].1,
    {
        &self.locales[0].catalog
    }

    /// The position of `tag` among the supported locales, if it is one.
    pub fn position(&self, tag: &[u8]) -> (r: Option<usize>)
        ensures
            r is None <==> first_index(self.tags(), tag@) == -1,
            r matches Some(i) ==> i as int == first_index(self.tags(), tag@),
    {
        let mut i: usize = 0;
        while i < self.locales.len()
            invariant
                i <= self@.len(),
                self.tags().len() == self@.len(),
                forall|j: int| 0 <= j < i ==> self.tags()[j] != tag@,
            decreases self@.len() - i,
        {
            if same_bytes(self.locales[i].tag.as_str().as_bytes(), tag) {
                proof {
                    lemma_first_index(self.tags(), tag@, i as int);
                }
                return Some(i);
            }
            i = i + 1;
        }
        proof {
            lemma_first_index_absent(self.tags(), tag@);
        }
        None
    }

    /// The catalog of `tag`, if it is a supported locale.
    pub fn for_locale(&self, tag: &[u8]) -> (r: Option<&Catalog>)
        ensures
            r is None <==> first_index(self.tags(), tag@) == -1,
            r matches Some(c) ==> *c == self@[first_index(self.tags(), tag@)].1,
    {
        match self.position(tag) {
            Some(i) => Some(&self.locales[i].catalog),
            None => None,
        }
    }

    /// The catalog at position `i`.
    pub fn catalog_at(&self, i: usize) -> (r: &Catalog)
        requires
            i < self@.len(),
        ensures
            *r == self@[i as int].1,
    {
        &self.locales[i].catalog
    }

    fn resolve_one(&self, c: &[u8]) -> (r: Option<usize>)
        ensures
            r is None <==> resolve(self.tags(), c@) < 0,
            r matches Some(i) ==> i as int == resolve(self.tags(), c@) && i < self@.len(),
    {
        if c.len() == 0 {
            return None;
        }
        match self.position(c) {
            Some(i) => Some(i),
            None => {
                let p = primary_of(c);
                if p.len() == 0 {
                    None
                } else {
                    self.position(p)
                }
            },
        }
    }

    /// The position of the locale that an `Accept-Language` value selects:
    /// the first candidate with an exact match, or else a match of its
    /// primary language; the default (0) where no candidate matches.
    pub fn negotiate(&self, accept_language: &[u8]) -> (r: usize)
        requires
            self.wf(),
        ensures
            r as int == self.negotiated(accept_language@),
            r < self@.len(),
    {
        let cands = parse_accept_language(accept_language);
        let ghost cs = candidates(accept_language@);
        let mut k: usize = 0;
        assert(cs.skip(0) =~= cs);
        while k < cands.len()
            invariant
                byte_views(cands@) == cs,
                cs == candidates(accept_language@),
                k <= cs.len(),
                self@.len() > 0,
                choose_locale(self.tags(), cs) == choose_locale(self.tags(), cs.skip(k as int)),
            decreases cs.len() - k,
        {
            assert(cs.skip(k as int)[0] == cands@[k as int]@);
            assert(cs.skip(k as int).skip(1) =~= cs.skip(k + 1));
            let c = cands[k].as_slice();
            assert(c@ == cs.skip(k as int)[0]);
            match self.resolve_one(c) {
                Some(i) => {
                    assert(cs.skip(k as int).len() > 0);
                    assert(choose_locale(self.tags(), cs.skip(k as int)) == i as int);
                    return i;
                },
                None => {},
            }
            k = k + 1;
        }
        0
    }

    /// The catalog that an `Accept-Language` value selects.
    pub fn catalog_for(&self, accept_language: &[u8]) -> (r: &Catalog)
        requires
            self.wf(),
        ensures
            *r == self@[self.negotiated(accept_language@)].1,
    {
        let i = self.negotiate(accept_language);
        &self.locales[i].catalog
    }
}

} // verus!
