use vstd::prelude::*;

verus! {

/// The view of an optional string: `Some` of its character sequence.
pub open spec fn opt_view(o: Option<String>) -> Option<Seq<char>> {
    match o {
        Some(s) => Some(s@),
        None => None,
    }
}

/// String equality over views, usable on borrowed slices.
pub fn str_eq(a: &str, b: &str) -> (r: bool)
    ensures
        r == (a@ == b@),
{
    let sa: String = a.to_owned();
    let sb: String = b.to_owned();
    sa == sb
}

/// Clones an optional string, preserving its view.
pub fn clone_opt(o: &Option<String>) -> (r: Option<String>)
    ensures
        opt_view(r) == opt_view(*o),
{
    match o {
        Some(s) => Some(s.clone()),
        None => None,
    }
}

/// Whether an optional string is `Some` of exactly the given slice.
pub fn opt_is(o: &Option<String>, s: &str) -> (r: bool)
    ensures
        r == (opt_view(*o) == Some(s@)),
{
    match o {
        Some(x) => {
            let e = str_eq(x.as_str(), s);
            proof {
                if e {
                    assert(opt_view(*o) == Some(s@));
                }
            }
            e
        },
        None => false,
    }
}

/// The view of an optional borrowed string.
pub open spec fn opt_ref_view(o: Option<&str>) -> Option<Seq<char>> {
    match o {
        Some(s) => Some(s@),
        None => None,
    }
}

/// Lexicographic order on character sequences, by code point: the
/// order in which the store's text timestamps compare.
pub open spec fn lex_le(a: Seq<char>, b: Seq<char>) -> bool
    decreases a.len(),
{
    if a.len() == 0 {
        true
    } else if b.len() == 0 {
        false
    } else if (a.first() as u32) < (b.first() as u32) {
        true
    } else if (a.first() as u32) > (b.first() as u32) {
        false
    } else {
        lex_le(a.drop_first(), b.drop_first())
    }
}

/// When two sequences agree on their first `i` characters, their order
/// is decided by what follows.
proof fn lemma_lex_le_skip(a: Seq<char>, b: Seq<char>, i: int)
    requires
        0 <= i <= a.len(),
        i <= b.len(),
        forall|j: int| 0 <= j < i ==> a[j] == b[j],
    ensures
        lex_le(a, b) == lex_le(a.skip(i), b.skip(i)),
    decreases i,
{
    if i > 0 {
        assert(a.first() == b.first());
        let a1 = a.drop_first();
        let b1 = b.drop_first();
        assert forall|j: int| 0 <= j < i - 1 implies a1[j] == b1[j] by {
            assert(a[j + 1] == b[j + 1]);
        }
        lemma_lex_le_skip(a1, b1, i - 1);
        assert(a1.skip(i - 1) =~= a.skip(i));
        assert(b1.skip(i - 1) =~= b.skip(i));
    } else {
        assert(a.skip(0) =~= a);
        assert(b.skip(0) =~= b);
    }
}

/// Lexicographic comparison of two strings over their views.
pub fn str_le(a: &str, b: &str) -> (r: bool)
    ensures
        r == lex_le(a@, b@),
{
    let alen = a.unicode_len();
    let blen = b.unicode_len();
    let mut i: usize = 0;
    while i < alen && i < blen
        invariant
            i <= alen,
            i <= blen,
            alen == a@.len(),
            blen == b@.len(),
            forall|j: int| 0 <= j < i ==> a@[j] == b@[j],
        decreases alen - i,
    {
        let ca = a.get_char(i);
        let cb = b.get_char(i);
        if (ca as u32) < (cb as u32) {
            proof {
                lemma_lex_le_skip(a@, b@, i as int);
                assert(a@.skip(i as int).first() == a@[i as int]);
                assert(b@.skip(i as int).first() == b@[i as int]);
            }
            return true;
        }
        if (ca as u32) > (cb as u32) {
            proof {
                lemma_lex_le_skip(a@, b@, i as int);
                assert(a@.skip(i as int).first() == a@[i as int]);
                assert(b@.skip(i as int).first() == b@[i as int]);
            }
            return false;
        }
        proof {
            assert(a@[i as int] == b@[i as int]);
        }
        i = i + 1;
    }
    proof {
        lemma_lex_le_skip(a@, b@, i as int);
        if i == alen {
            assert(a@.skip(i as int).len() == 0);
        } else {
            assert(b@.skip(i as int).len() == 0);
            assert(a@.skip(i as int).len() > 0);
        }
    }
    alen <= blen
}

/// The order is total: of any two sequences, one is at most the other.
pub proof fn lemma_lex_le_total(a: Seq<char>, b: Seq<char>)
    ensures
        lex_le(a, b) || lex_le(b, a),
    decreases a.len(),
{
    if a.len() > 0 && b.len() > 0 {
        if (a.first() as u32) == (b.first() as u32) {
            lemma_lex_le_total(a.drop_first(), b.drop_first());
        }
    }
}

/// The order is transitive.
pub proof fn lemma_lex_le_trans(a: Seq<char>, b: Seq<char>, c: Seq<char>)
    requires
        lex_le(a, b),
        lex_le(b, c),
    ensures
        lex_le(a, c),
    decreases a.len(),
{
    if a.len() > 0 {
        if b.len() > 0 && c.len() > 0 {
            if (a.first() as u32) == (b.first() as u32) && (b.first() as u32) == (
            c.first() as u32) {
                lemma_lex_le_trans(a.drop_first(), b.drop_first(), c.drop_first());
            }
        }
    }
}

/// Whether `needle` occurs contiguously inside `hay`.
pub open spec fn is_substring(needle: Seq<char>, hay: Seq<char>) -> bool {
    exists|k: int|
        0 <= k <= hay.len() - needle.len() && #[trigger] hay.subrange(k, k + needle.len())
            == needle
}

/// Whether `needle` occurs at position `k` of `hay`.
fn match_at(hay: &str, needle: &str, k: usize, n: usize, h: usize) -> (r: bool)
    requires
        n == needle@.len(),
        h == hay@.len(),
        k + n <= h,
    ensures
        r == (hay@.subrange(k as int, k as int + needle@.len() as int) == needle@),
{
    let mut j: usize = 0;
    while j < n
        invariant
            j <= n,
            n == needle@.len(),
            h == hay@.len(),
            k + n <= h,
            forall|j2: int| 0 <= j2 < j ==> hay@[k + j2] == needle@[j2],
        decreases n - j,
    {
        let ca = hay.get_char(k + j);
        let cb = needle.get_char(j);
        if ca != cb {
            proof {
                assert(hay@.subrange(k as int, k as int + n as int)[j as int] == hay@[k + j]);
            }
            return false;
        }
        j = j + 1;
    }
    proof {
        assert(hay@.subrange(k as int, k as int + n as int) =~= needle@);
    }
    true
}

/// Substring search over views: the `LIKE '%needle%'` shape of a query,
/// with the pattern taken literally.
pub fn str_contains(hay: &str, needle: &str) -> (r: bool)
    ensures
        r == is_substring(needle@, hay@),
{
    let n = needle.unicode_len();
    let h = hay.unicode_len();
    if n > h {
        return false;
    }
    if n == 0 {
        proof {
            assert(hay@.subrange(0, 0 + needle@.len() as int) =~= needle@);
        }
        return true;
    }
    let mut k: usize = 0;
    while k <= h - n
        invariant
            1 <= n <= h,
            h == hay@.len(),
            n == needle@.len(),
            k <= h - n + 1,
            forall|k2: int| 0 <= k2 < k ==> #[trigger] hay@.subrange(k2, k2 + n) != needle@,
        decreases h - n + 1 - k,
    {
        if match_at(hay, needle, k, n, h) {
            assert(is_substring(needle@, hay@));
            return true;
        }
        k = k + 1;
    }
    proof {
        if is_substring(needle@, hay@) {
            let k2 = choose|k2: int|
                0 <= k2 <= hay@.len() - needle@.len() && #[trigger] hay@.subrange(
                    k2,
                    k2 + needle@.len(),
                ) == needle@;
            assert(hay@.subrange(k2, k2 + n) != needle@);
        }
    }
    false
}

/// The set of views of a list of id strings.
pub open spec fn id_set(v: Seq<String>) -> Set<Seq<char>> {
    Set::new(|x: Seq<char>| exists|k: int| 0 <= k < v.len() && (#[trigger] v[k])@ == x)
}

/// Appending an id to the list inserts its view into the set.
pub proof fn lemma_id_set_push(v: Seq<String>, x: String)
    ensures
        id_set(v.push(x)) =~= id_set(v).insert(x@),
{
    assert forall|y: Seq<char>| id_set(v.push(x)).contains(y) implies id_set(v).insert(
        x@,
    ).contains(y) by {
        let k = choose|k: int| 0 <= k < v.push(x).len() && (#[trigger] v.push(x)[k])@ == y;
        if k < v.len() {
            assert(v[k]@ == y);
        }
    }
    assert forall|y: Seq<char>| id_set(v).insert(x@).contains(y) implies id_set(
        v.push(x),
    ).contains(y) by {
        if y == x@ {
            assert(v.push(x)[v.len() as int]@ == y);
        } else {
            let k = choose|k: int| 0 <= k < v.len() && (#[trigger] v[k])@ == y;
            assert(v.push(x)[k]@ == y);
        }
    }
}

/// Whether the first `upto` ids of the list hold the given one.
pub fn contains_id_upto(v: &Vec<String>, upto: usize, s: &str) -> (r: bool)
    requires
        upto <= v@.len(),
    ensures
        r == id_set(v@.take(upto as int)).contains(s@),
{
    let mut j: usize = 0;
    while j < upto
        invariant
            j <= upto <= v@.len(),
            forall|k: int| 0 <= k < j ==> (#[trigger] v@[k])@ != s@,
        decreases upto - j,
    {
        if str_eq(v[j].as_str(), s) {
            proof {
                assert(v@.take(upto as int)[j as int]@ == s@);
            }
            return true;
        }
        j = j + 1;
    }
    proof {
        if id_set(v@.take(upto as int)).contains(s@) {
            let k = choose|k: int|
                0 <= k < v@.take(upto as int).len() && (#[trigger] v@.take(upto as int)[k])@ == s@;
            assert(v@[k]@ == s@);
        }
    }
    false
}

/// Whether the list of ids holds the given one.
pub fn contains_id(v: &Vec<String>, s: &str) -> (r: bool)
    ensures
        r == id_set(v@).contains(s@),
{
    let n = v.len();
    let r = contains_id_upto(v, n, s);
    proof {
        assert(v@.take(n as int) =~= v@);
    }
    r
}

/// Clones an optional borrowed string into an owned optional string.
pub fn own_opt(o: &Option<&str>) -> (r: Option<String>)
    ensures
        opt_view(r) == opt_ref_view(*o),
{
    match o {
        Some(s) => Some((*s).to_owned()),
        None => None,
    }
}

} // verus!
