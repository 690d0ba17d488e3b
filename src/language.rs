use vstd::prelude::*;

verus! {

pub open spec fn is_blank(b: u8) -> bool {
    b == 32u8 || b == 9u8
}

pub open spec fn lower(b: u8) -> u8 {
    if 65u8 <= b && b <= 90u8 {
        (b + 32) as u8
    } else {
        b
    }
}

/// The header read byte by byte: the items closed by a comma so far, the
/// lowercased item being read, and whether a `;` has begun its quality suffix.
pub open spec fn scan(h: Seq<u8>) -> (Seq<Seq<u8>>, Seq<u8>, bool)
    decreases h.len(),
{
    if h.len() == 0 {
        (Seq::empty(), Seq::empty(), false)
    } else {
        let (done, cur, quality) = scan(h.drop_last());
        let b = h.last();
        if b == 44u8 {
            (done.push(cur), Seq::empty(), false)
        } else if quality || b == 59u8 {
            (done, cur, true)
        } else {
            (done, cur.push(lower(b)), false)
        }
    }
}

/// The comma-separated items of the header, lowercased, quality suffix dropped.
pub open spec fn raw_items(h: Seq<u8>) -> Seq<Seq<u8>> {
    scan(h).0.push(scan(h).1)
}

pub open spec fn trim_start(s: Seq<u8>) -> Seq<u8>
    decreases s.len(),
{
    if s.len() > 0 && is_blank(s[0]) {
        trim_start(s.skip(1))
    } else {
        s
    }
}

pub open spec fn trim_end(s: Seq<u8>) -> Seq<u8>
    decreases s.len(),
{
    if s.len() > 0 && is_blank(s.last()) {
        trim_end(s.drop_last())
    } else {
        s
    }
}

pub open spec fn trim(s: Seq<u8>) -> Seq<u8> {
    trim_end(trim_start(s))
}

/// The byte contents of each vector.
pub open spec fn byte_views(v: Seq<Vec<u8>>) -> Seq<Seq<u8>> {
    v.map_values(|x: Vec<u8>| x@)
}

/// The language candidates of an `Accept-Language` value, in the client's order.
pub open spec fn candidates(h: Seq<u8>) -> Seq<Seq<u8>> {
    raw_items(h).map_values(|s: Seq<u8>| trim(s))
}

fn trimmed(s: &Vec<u8>) -> (r: Vec<u8>)
    ensures
        r@ == trim(s@),
{
    let n = s.len();
    let mut i: usize = 0;
    assert(s@.subrange(0, n as int) =~= s@);
    while i < n && (s[i] == 32u8 || s[i] == 9u8)
        invariant
            n == s@.len(),
            i <= n,
            trim_start(s@) == trim_start(s@.subrange(i as int, n as int)),
        decreases n - i,
    {
        assert(s@.subrange(i as int, n as int).skip(1) =~= s@.subrange(i + 1, n as int));
        i = i + 1;
    }
    assert(trim_start(s@) == s@.subrange(i as int, n as int));
    let mut j: usize = n;
    while j > i && (s[j - 1] == 32u8 || s[j - 1] == 9u8)
        invariant
            i <= j <= n,
            n == s@.len(),
            trim(s@) == trim_end(s@.subrange(i as int, j as int)),
        decreases j,
    {
        assert(s@.subrange(i as int, j as int).drop_last() =~= s@.subrange(i as int, j - 1));
        j = j - 1;
    }
    let mut r: Vec<u8> = Vec::new();
    let mut k: usize = i;
    while k < j
        invariant
            i <= k <= j <= n,
            n == s@.len(),
            r@ == s@.subrange(i as int, k as int),
        decreases j - k,
    {
        r.push(s[k]);
        assert(r@ =~= s@.subrange(i as int, k + 1));
        k = k + 1;
    }
    r
}

/// Splits an `Accept-Language` value into its candidates: split on commas,
/// drop each quality suffix, trim blanks, lowercase ASCII letters.
pub fn parse_accept_language(h: &[u8]) -> (r: Vec<Vec<u8>>)
    ensures
        byte_views(r@) == candidates(h@),
{
    let n = h.len();
    let mut done: Vec<Vec<u8>> = Vec::new();
    let mut cur: Vec<u8> = Vec::new();
    let mut quality = false;
    let mut i: usize = 0;
    while i < n
        invariant
            n == h@.len(),
            i <= n,
            scan(h@.take(i as int)) == (byte_views(done@), cur@, quality),
        decreases n - i,
    {
        let b = h[i];
        assert(h@.take(i + 1).drop_last() =~= h@.take(i as int));
        if b == 44u8 {
            let ghost d0 = byte_views(done@);
            let ghost c0 = cur@;
            done.push(cur);
            cur = Vec::new();
            assert(byte_views(done@) =~= d0.push(c0));
            quality = false;
        } else if quality || b == 59u8 {
            quality = true;
        } else {
            let l = if 65u8 <= b && b <= 90u8 { b + 32 } else { b };
            cur.push(l);
        }
        i = i + 1;
    }
    assert(h@.take(n as int) =~= h@);
    let ghost d1 = byte_views(done@);
    done.push(cur);
    assert(byte_views(done@) =~= raw_items(h@));
    let mut out: Vec<Vec<u8>> = Vec::new();
    let mut k: usize = 0;
    while k < done.len()
        invariant
            k <= done@.len(),
            byte_views(done@) == raw_items(h@),
            byte_views(out@) =~= raw_items(h@).take(k as int).map_values(|s: Seq<u8>| trim(s)),
        decreases done@.len() - k,
    {
        let t = trimmed(&done[k]);
        let ghost o0 = byte_views(out@);
        out.push(t);
        assert(byte_views(out@) =~= o0.push(trim(done@[k as int]@)));
        assert(raw_items(h@).take(k + 1).map_values(|s: Seq<u8>| trim(s))
            =~= raw_items(h@).take(k as int).map_values(|s: Seq<u8>| trim(s)).push(trim(done@[k as int]@)));
        k = k + 1;
    }
    assert(raw_items(h@).take(k as int) =~= raw_items(h@));
    out
}

/// A single language token as a client writes it: non-empty, lowercase,
/// without commas, semicolons or blanks.
pub open spec fn plain_token(l: Seq<u8>) -> bool {
    &&& l.len() > 0
    &&& forall|i: int| 0 <= i < l.len() ==> l[i] != 44u8 && l[i] != 59u8 && !is_blank(l[i]) && !(65u8 <= l[i] && l[i] <= 90u8)
}

proof fn lemma_scan_token(l: Seq<u8>)
    requires
        forall|i: int| 0 <= i < l.len() ==> l[i] != 44u8 && l[i] != 59u8 && !(65u8 <= l[i] && l[i] <= 90u8),
    ensures
        scan(l) == (Seq::<Seq<u8>>::empty(), l, false),
    decreases l.len(),
{
    if l.len() == 0 {
        assert(l =~= Seq::<u8>::empty());
    } else {
        lemma_scan_token(l.drop_last());
        assert(l[l.len() - 1] != 44u8 && l[l.len() - 1] != 59u8);
        assert(l.drop_last().push(l.last()) =~= l);
    }
}

/// A plain token is its own single candidate.
pub proof fn lemma_candidates_token(l: Seq<u8>)
    requires
        plain_token(l),
    ensures
        candidates(l) == seq![l],
{
    lemma_scan_token(l);
    assert(!is_blank(l[0]));
    assert(!is_blank(l[l.len() - 1]));
    assert(trim_start(l) == l);
    assert(trim(l) == l);
    assert(candidates(l) =~= seq![l]);
}

/// An absent or empty header gives one empty candidate.
pub proof fn lemma_candidates_empty()
    ensures
        candidates(Seq::empty()) == seq![Seq::<u8>::empty()],
{
    let e = Seq::<u8>::empty();
    assert(trim_start(e) == e);
    assert(trim(e) == e);
    assert(candidates(e) =~= seq![e]);
}

} // verus!
