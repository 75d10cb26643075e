//! Sets of URLs kept in ascending order of their serialization, the way the
//! crawler deduplicates the links of a page (an ordered set collected from a
//! sequence): of the URLs with a given serialization, the last one is kept.

use vstd::prelude::*;
use vstd::utf8::*;
use crate::address::{WebUrl, UrlView};

verus! {

/// Lexicographic order on byte strings (the order of `[u8]`, and so of
/// `str`, in Rust).
pub open spec fn bytes_lt(a: Seq<u8>, b: Seq<u8>) -> bool
    decreases a.len(),
{
    if a.len() == 0 {
        b.len() > 0
    } else if b.len() == 0 {
        false
    } else if a[0] != b[0] {
        a[0] < b[0]
    } else {
        bytes_lt(a.drop_first(), b.drop_first())
    }
}

/// The order of two serializations: that of their UTF-8 bytes.
pub open spec fn href_lt(a: Seq<char>, b: Seq<char>) -> bool {
    bytes_lt(encode_utf8(a), encode_utf8(b))
}

/// The serializations of a sequence of URLs.
pub open spec fn hrefs(s: Seq<UrlView>) -> Seq<Seq<char>> {
    s.map_values(|u: UrlView| u.href)
}

/// The URLs of `s` that are the last with their serialization, in order.
pub open spec fn last_occurrences(s: Seq<UrlView>) -> Seq<UrlView>
    decreases s.len(),
{
    if s.len() == 0 {
        Seq::empty()
    } else if hrefs(s.drop_first()).contains(s[0].href) {
        last_occurrences(s.drop_first())
    } else {
        seq![s[0]] + last_occurrences(s.drop_first())
    }
}

/// Strictly ascending by serialization.
pub open spec fn ascending(s: Seq<UrlView>) -> bool {
    forall|i: int, j: int| 0 <= i < j < s.len() ==> href_lt(#[trigger] s[i].href, #[trigger] s[j].href)
}

/// Whether `t` holds the last occurrences of `s`, in ascending order.
pub open spec fn is_link_set_of(t: Seq<UrlView>, s: Seq<UrlView>) -> bool {
    ascending(t) && t.to_set() == last_occurrences(s).to_set()
}

/// The last occurrences of `s`, in ascending order of serialization.
pub open spec fn link_set(s: Seq<UrlView>) -> Seq<UrlView> {
    choose|t: Seq<UrlView>| is_link_set_of(t, s)
}

/// No byte string precedes itself.
pub proof fn lemma_bytes_lt_irreflexive(a: Seq<u8>)
    ensures
        !bytes_lt(a, a),
    decreases a.len(),
{
    if a.len() > 0 {
        lemma_bytes_lt_irreflexive(a.drop_first());
    }
}

/// The order of byte strings is transitive.
pub proof fn lemma_bytes_lt_transitive(a: Seq<u8>, b: Seq<u8>, c: Seq<u8>)
    requires
        bytes_lt(a, b),
        bytes_lt(b, c),
    ensures
        bytes_lt(a, c),
    decreases a.len(),
{
    if a.len() > 0 && b.len() > 0 && c.len() > 0 && a[0] == b[0] && b[0] == c[0] {
        lemma_bytes_lt_transitive(a.drop_first(), b.drop_first(), c.drop_first());
    }
}

/// Of two different byte strings, one precedes the other.
pub proof fn lemma_bytes_lt_total(a: Seq<u8>, b: Seq<u8>)
    requires
        a != b,
    ensures
        bytes_lt(a, b) || bytes_lt(b, a),
    decreases a.len(),
{
    if a.len() == 0 && b.len() == 0 {
        assert(a =~= b);
    }
    if a.len() > 0 && b.len() > 0 && a[0] == b[0] {
        if a.drop_first() == b.drop_first() {
            assert(a =~= seq![a[0]] + a.drop_first());
            assert(b =~= seq![b[0]] + b.drop_first());
        }
        lemma_bytes_lt_total(a.drop_first(), b.drop_first());
    }
}

/// No serialization precedes itself.
pub proof fn lemma_href_lt_irreflexive(a: Seq<char>)
    ensures
        !href_lt(a, a),
{
    lemma_bytes_lt_irreflexive(encode_utf8(a));
}

/// The order of serializations is transitive.
pub proof fn lemma_href_lt_transitive(a: Seq<char>, b: Seq<char>, c: Seq<char>)
    requires
        href_lt(a, b),
        href_lt(b, c),
    ensures
        href_lt(a, c),
{
    lemma_bytes_lt_transitive(encode_utf8(a), encode_utf8(b), encode_utf8(c));
}

/// Of two different serializations, one precedes the other.
pub proof fn lemma_href_lt_total(a: Seq<char>, b: Seq<char>)
    requires
        a != b,
    ensures
        href_lt(a, b) || href_lt(b, a),
{
    broadcast use encode_utf8_decode_utf8;

    if encode_utf8(a) == encode_utf8(b) {
        assert(decode_utf8(encode_utf8(a)) == decode_utf8(encode_utf8(b)));
    }
    lemma_bytes_lt_total(encode_utf8(a), encode_utf8(b));
}

/// An ascending sequence is determined by the set of its elements.
pub proof fn lemma_ascending_unique(a: Seq<UrlView>, b: Seq<UrlView>)
    requires
        ascending(a),
        ascending(b),
        a.to_set() == b.to_set(),
    ensures
        a == b,
    decreases a.len(),
{
    if a.len() == 0 || b.len() == 0 {
        if a.len() > 0 {
            assert(a.to_set().contains(a[0]));
        }
        if b.len() > 0 {
            assert(b.to_set().contains(b[0]));
        }
        assert(a =~= b);
    } else {
        assert(a.to_set().contains(a[0]));
        assert(b.to_set().contains(b[0]));
        let k = choose|k: int| 0 <= k < b.len() && b[k] == a[0];
        let m = choose|m: int| 0 <= m < a.len() && a[m] == b[0];
        if k > 0 {
            assert(href_lt(b[0].href, b[k].href));
            if m > 0 {
                assert(href_lt(a[0].href, a[m].href));
                lemma_href_lt_transitive(a[0].href, b[0].href, a[0].href);
            }
            lemma_href_lt_irreflexive(a[0].href);
        }
        assert(a[0] == b[0]);
        let a1 = a.drop_first();
        let b1 = b.drop_first();
        assert(ascending(a1)) by {
            assert forall|i: int, j: int| 0 <= i < j < a1.len() implies href_lt(
                #[trigger] a1[i].href,
                #[trigger] a1[j].href,
            ) by {
                assert(a1[i] == a[i + 1] && a1[j] == a[j + 1]);
            }
        }
        assert(ascending(b1)) by {
            assert forall|i: int, j: int| 0 <= i < j < b1.len() implies href_lt(
                #[trigger] b1[i].href,
                #[trigger] b1[j].href,
            ) by {
                assert(b1[i] == b[i + 1] && b1[j] == b[j + 1]);
            }
        }
        assert(a1.to_set() =~= b1.to_set()) by {
            assert forall|x: UrlView| a1.to_set().contains(x) implies b1.to_set().contains(x) by {
                let i = choose|i: int| 0 <= i < a1.len() && a1[i] == x;
                assert(a[i + 1] == x);
                assert(a.to_set().contains(x));
                let j = choose|j: int| 0 <= j < b.len() && b[j] == x;
                if j == 0 {
                    assert(href_lt(a[0].href, a[i + 1].href));
                    lemma_href_lt_irreflexive(x.href);
                }
                assert(b1[j - 1] == x);
            }
            assert forall|x: UrlView| b1.to_set().contains(x) implies a1.to_set().contains(x) by {
                let i = choose|i: int| 0 <= i < b1.len() && b1[i] == x;
                assert(b[i + 1] == x);
                assert(b.to_set().contains(x));
                let j = choose|j: int| 0 <= j < a.len() && a[j] == x;
                if j == 0 {
                    assert(href_lt(b[0].href, b[i + 1].href));
                    lemma_href_lt_irreflexive(x.href);
                }
                assert(a1[j - 1] == x);
            }
        }
        lemma_ascending_unique(a1, b1);
        assert(a =~= seq![a[0]] + a1);
        assert(b =~= seq![b[0]] + b1);
    }
}

/// `x` inserted into `t` before the first element that does not precede it.
pub open spec fn insert_ascending(t: Seq<UrlView>, x: UrlView) -> Seq<UrlView>
    decreases t.len(),
{
    if t.len() == 0 {
        seq![x]
    } else if href_lt(t[0].href, x.href) {
        seq![t[0]] + insert_ascending(t.drop_first(), x)
    } else {
        seq![x] + t
    }
}

proof fn lemma_insert_ascending(t: Seq<UrlView>, x: UrlView)
    requires
        ascending(t),
        !hrefs(t).contains(x.href),
    ensures
        ascending(insert_ascending(t, x)),
        insert_ascending(t, x).to_set() == t.to_set().insert(x),
        insert_ascending(t, x).len() > 0,
        insert_ascending(t, x)[0] == x || (t.len() > 0 && insert_ascending(t, x)[0] == t[0]),
    decreases t.len(),
{
    let r = insert_ascending(t, x);
    if t.len() == 0 {
        assert(r.to_set() =~= t.to_set().insert(x)) by {
            assert(r[0] == x);
        }
    } else if href_lt(t[0].href, x.href) {
        let t1 = t.drop_first();
        assert(ascending(t1)) by {
            assert forall|i: int, j: int| 0 <= i < j < t1.len() implies href_lt(
                #[trigger] t1[i].href,
                #[trigger] t1[j].href,
            ) by {
                assert(t1[i] == t[i + 1] && t1[j] == t[j + 1]);
            }
        }
        assert(!hrefs(t1).contains(x.href)) by {
            if hrefs(t1).contains(x.href) {
                let k = choose|k: int| 0 <= k < hrefs(t1).len() && hrefs(t1)[k] == x.href;
                assert(hrefs(t)[k + 1] == x.href);
            }
        }
        lemma_insert_ascending(t1, x);
        let r1 = insert_ascending(t1, x);
        assert(r =~= seq![t[0]] + r1);
        assert(ascending(r)) by {
            assert forall|i: int, j: int| 0 <= i < j < r.len() implies href_lt(
                #[trigger] r[i].href,
                #[trigger] r[j].href,
            ) by {
                if i == 0 {
                    assert(r1.to_set().contains(r1[j - 1]));
                    assert(t1.to_set().insert(x).contains(r1[j - 1]));
                    if r1[j - 1] != x {
                        let k = choose|k: int| 0 <= k < t1.len() && t1[k] == r1[j - 1];
                        assert(t[k + 1] == r1[j - 1]);
                    }
                } else {
                    assert(r[i] == r1[i - 1] && r[j] == r1[j - 1]);
                }
            }
        }
        assert(r.to_set() =~= t.to_set().insert(x)) by {
            assert forall|y: UrlView| r.to_set().contains(y) implies t.to_set().insert(x).contains(y) by {
                let k = choose|k: int| 0 <= k < r.len() && r[k] == y;
                if k == 0 {
                    assert(t[0] == y);
                } else {
                    assert(r1.to_set().contains(y));
                    if y != x {
                        let m = choose|m: int| 0 <= m < t1.len() && t1[m] == y;
                        assert(t[m + 1] == y);
                    }
                }
            }
            assert forall|y: UrlView| t.to_set().insert(x).contains(y) implies r.to_set().contains(y) by {
                if y == t[0] {
                    assert(r[0] == y);
                } else {
                    if y != x {
                        let m = choose|m: int| 0 <= m < t.len() && t[m] == y;
                        assert(m > 0);
                        assert(t1[m - 1] == y);
                        assert(t1.to_set().contains(y));
                    }
                    assert(r1.to_set().contains(y));
                    let k = choose|k: int| 0 <= k < r1.len() && r1[k] == y;
                    assert(r[k + 1] == y);
                }
            }
        }
    } else {
        assert(x.href != t[0].href) by {
            assert(hrefs(t)[0] == t[0].href);
        }
        lemma_href_lt_total(t[0].href, x.href);
        assert(ascending(r)) by {
            assert forall|i: int, j: int| 0 <= i < j < r.len() implies href_lt(
                #[trigger] r[i].href,
                #[trigger] r[j].href,
            ) by {
                if i == 0 {
                    if j > 1 {
                        lemma_href_lt_transitive(x.href, t[0].href, t[j - 1].href);
                    }
                } else {
                    assert(r[i] == t[i - 1] && r[j] == t[j - 1]);
                }
            }
        }
        assert(r.to_set() =~= t.to_set().insert(x)) by {
            assert forall|y: UrlView| r.to_set().contains(y) implies t.to_set().insert(x).contains(y) by {
                let k = choose|k: int| 0 <= k < r.len() && r[k] == y;
                if k > 0 {
                    assert(t[k - 1] == y);
                }
            }
            assert forall|y: UrlView| t.to_set().insert(x).contains(y) implies r.to_set().contains(y) by {
                if y == x {
                    assert(r[0] == y);
                } else {
                    let m = choose|m: int| 0 <= m < t.len() && t[m] == y;
                    assert(r[m + 1] == y);
                }
            }
        }
    }
}

/// The serializations of the last occurrences are those of the whole
/// sequence, and each last occurrence is an element of the sequence.
pub proof fn lemma_last_occurrences_hrefs(s: Seq<UrlView>)
    ensures
        forall|h: Seq<char>| #[trigger] hrefs(last_occurrences(s)).contains(h) <==> hrefs(s).contains(h),
        forall|x: UrlView| #[trigger] last_occurrences(s).contains(x) ==> s.contains(x),
    decreases s.len(),
{
    if s.len() > 0 {
        let rest = s.drop_first();
        lemma_last_occurrences_hrefs(rest);
        let f = last_occurrences(rest);
        let l = last_occurrences(s);
        assert(hrefs(s) =~= seq![s[0].href] + hrefs(rest));
        assert forall|h: Seq<char>| #[trigger] hrefs(l).contains(h) <==> hrefs(s).contains(h) by {
            if hrefs(s).contains(h) {
                let k = choose|k: int| 0 <= k < hrefs(s).len() && hrefs(s)[k] == h;
                if k > 0 {
                    assert(hrefs(rest)[k - 1] == h);
                }
            }
            if hrefs(rest).contains(h) {
                let k = choose|k: int| 0 <= k < hrefs(rest).len() && hrefs(rest)[k] == h;
                assert(hrefs(s)[k + 1] == h);
            }
            if !hrefs(rest).contains(s[0].href) {
                assert(hrefs(l) =~= seq![s[0].href] + hrefs(f));
                if hrefs(f).contains(h) {
                    let k = choose|k: int| 0 <= k < hrefs(f).len() && hrefs(f)[k] == h;
                    assert(hrefs(l)[k + 1] == h);
                }
                if hrefs(l).contains(h) {
                    let k = choose|k: int| 0 <= k < hrefs(l).len() && hrefs(l)[k] == h;
                    if k > 0 {
                        assert(hrefs(f)[k - 1] == h);
                    }
                }
                if h == s[0].href {
                    assert(hrefs(l)[0] == h);
                    assert(hrefs(s)[0] == h);
                }
            } else {
                if h == s[0].href {
                    assert(hrefs(s)[0] == h);
                }
            }
        }
        assert forall|x: UrlView| #[trigger] l.contains(x) implies s.contains(x) by {
            let k = choose|k: int| 0 <= k < l.len() && l[k] == x;
            if hrefs(rest).contains(s[0].href) || k > 0 {
                let kk = if hrefs(rest).contains(s[0].href) {
                    k
                } else {
                    k - 1
                };
                assert(f[kk] == x);
                assert(f.contains(x));
                let m = choose|m: int| 0 <= m < rest.len() && rest[m] == x;
                assert(s[m + 1] == x);
            } else {
                assert(s[0] == x);
            }
        }
    }
}

proof fn lemma_prepend_to_set(x: UrlView, t: Seq<UrlView>)
    ensures
        (seq![x] + t).to_set() == t.to_set().insert(x),
{
    let r = seq![x] + t;
    assert(r.to_set() =~= t.to_set().insert(x)) by {
        assert forall|y: UrlView| r.to_set().contains(y) implies t.to_set().insert(x).contains(y) by {
            let k = choose|k: int| 0 <= k < r.len() && r[k] == y;
            if k > 0 {
                assert(t[k - 1] == y);
            }
        }
        assert forall|y: UrlView| t.to_set().insert(x).contains(y) implies r.to_set().contains(y) by {
            if y == x {
                assert(r[0] == y);
            } else {
                let m = choose|m: int| 0 <= m < t.len() && t[m] == y;
                assert(r[m + 1] == y);
            }
        }
    }
}

/// Every sequence of URLs has a set of links: its last occurrences, in
/// ascending order of serialization.
pub proof fn lemma_link_set_exists(s: Seq<UrlView>)
    ensures
        is_link_set_of(link_set(s), s),
    decreases s.len(),
{
    if s.len() == 0 {
        assert(is_link_set_of(Seq::<UrlView>::empty(), s)) by {
            assert(Seq::<UrlView>::empty().to_set() =~= last_occurrences(s).to_set());
        }
    } else {
        let rest = s.drop_first();
        lemma_link_set_exists(rest);
        lemma_last_occurrences_hrefs(rest);
        let t = link_set(rest);
        let x = s[0];
        if hrefs(rest).contains(x.href) {
            assert(is_link_set_of(t, s));
        } else {
            assert(!hrefs(t).contains(x.href)) by {
                if hrefs(t).contains(x.href) {
                    let k = choose|k: int| 0 <= k < hrefs(t).len() && hrefs(t)[k] == x.href;
                    assert(t.to_set().contains(t[k]));
                    assert(last_occurrences(rest).to_set().contains(t[k]));
                    let m = choose|m: int|
                        0 <= m < last_occurrences(rest).len() && last_occurrences(rest)[m] == t[k];
                    assert(hrefs(last_occurrences(rest))[m] == x.href);
                    assert(hrefs(last_occurrences(rest)).contains(x.href));
                }
            }
            lemma_insert_ascending(t, x);
            lemma_prepend_to_set(x, last_occurrences(rest));
            assert(is_link_set_of(insert_ascending(t, x), s));
        }
    }
}

/// What the set of links of a sequence holds: each serialization of the
/// sequence once, in ascending order, each with the last URL that has it.
pub proof fn lemma_link_set_properties(s: Seq<UrlView>)
    ensures
        ascending(link_set(s)),
        forall|h: Seq<char>| #[trigger] hrefs(link_set(s)).contains(h) <==> hrefs(s).contains(h),
        forall|i: int|
            0 <= i < link_set(s).len() ==> exists|j: int|
                0 <= j < s.len() && s[j] == #[trigger] link_set(s)[i] && forall|k: int|
                    j < k < s.len() ==> s[k].href != s[j].href,
{
    lemma_link_set_exists(s);
    let t = link_set(s);
    let f = last_occurrences(s);
    lemma_last_occurrences_hrefs(s);
    assert forall|h: Seq<char>| #[trigger] hrefs(t).contains(h) <==> hrefs(s).contains(h) by {
        if hrefs(t).contains(h) {
            let k = choose|k: int| 0 <= k < hrefs(t).len() && hrefs(t)[k] == h;
            assert(t.to_set().contains(t[k]));
            assert(f.to_set().contains(t[k]));
            let m = choose|m: int| 0 <= m < f.len() && f[m] == t[k];
            assert(hrefs(f)[m] == h);
        }
        if hrefs(f).contains(h) {
            let m = choose|m: int| 0 <= m < hrefs(f).len() && hrefs(f)[m] == h;
            assert(f.to_set().contains(f[m]));
            assert(t.to_set().contains(f[m]));
            let k = choose|k: int| 0 <= k < t.len() && t[k] == f[m];
            assert(hrefs(t)[k] == h);
        }
    }
    assert forall|i: int| 0 <= i < t.len() implies exists|j: int|
        0 <= j < s.len() && s[j] == #[trigger] t[i] && forall|k: int|
            j < k < s.len() ==> s[k].href != s[j].href by {
        assert(t.to_set().contains(t[i]));
        assert(f.to_set().contains(t[i]));
        lemma_last_occurrence_is_last(s, t[i]);
    }
}

/// An element of the last occurrences is the last with its serialization.
proof fn lemma_last_occurrence_is_last(s: Seq<UrlView>, x: UrlView)
    requires
        last_occurrences(s).contains(x),
    ensures
        exists|j: int| 0 <= j < s.len() && s[j] == x && forall|k: int| j < k < s.len() ==> s[k].href != s[j].href,
    decreases s.len(),
{
    let rest = s.drop_first();
    let f = last_occurrences(rest);
    if f.contains(x) {
        lemma_last_occurrence_is_last(rest, x);
        let j = choose|j: int|
            0 <= j < rest.len() && rest[j] == x && forall|k: int| j < k < rest.len() ==> rest[k].href != rest[j].href;
        let jj = j + 1;
        assert(s[jj] == x);
        assert forall|k: int| jj < k < s.len() implies #[trigger] s[k].href != s[jj].href by {
            assert(s[k] == rest[k - 1]);
        }
    } else {
        let l = last_occurrences(s);
        let k0 = choose|k: int| 0 <= k < l.len() && l[k] == x;
        if hrefs(rest).contains(s[0].href) {
            assert(false);
        }
        assert(l == seq![s[0]] + f);
        if k0 > 0 {
            assert(f[k0 - 1] == x);
            assert(false);
        }
        assert(x == s[0]);
        assert forall|k: int| 0 < k < s.len() implies #[trigger] s[k].href != s[0].href by {
            assert(hrefs(rest)[k - 1] == s[k].href);
        }
    }
}

/// Compares two byte strings in lexicographic order.
pub fn bytes_less(a: &[u8], b: &[u8]) -> (r: bool)
    ensures
        r == bytes_lt(a@, b@),
{
    let n = if a.len() < b.len() {
        a.len()
    } else {
        b.len()
    };
    let mut i: usize = 0;
    assert(a@.skip(0) =~= a@);
    assert(b@.skip(0) =~= b@);
    while i < n
        invariant
            n <= a@.len(),
            n <= b@.len(),
            n == a@.len() || n == b@.len(),
            i <= n,
            bytes_lt(a@, b@) == bytes_lt(a@.skip(i as int), b@.skip(i as int)),
        decreases n - i,
    {
        assert(a@.skip(i as int)[0] == a@[i as int]);
        assert(b@.skip(i as int)[0] == b@[i as int]);
        if a[i] != b[i] {
            return a[i] < b[i];
        }
        assert(a@.skip(i as int).drop_first() =~= a@.skip(i + 1));
        assert(b@.skip(i as int).drop_first() =~= b@.skip(i + 1));
        i = i + 1;
    }
    a.len() < b.len()
}


/// Adds `u` to an ascending set of URLs, unless a URL with the same
/// serialization is already there.
pub fn insert_link(set: &mut Vec<WebUrl>, u: WebUrl)
    requires
        ascending(old(set).deep_view()),
    ensures
        ascending(final(set).deep_view()),
        hrefs(old(set).deep_view()).contains(u@.href) ==> final(set).deep_view() == old(
            set,
        ).deep_view(),
        !hrefs(old(set).deep_view()).contains(u@.href) ==> final(set).deep_view().to_set()
            == old(set).deep_view().to_set().insert(u@),
        forall|h: Seq<char>|
            #[trigger] hrefs(final(set).deep_view()).contains(h) <==> (hrefs(
                old(set).deep_view(),
            ).contains(h) || h == u@.href),
{
    let ghost old_set = set.deep_view();
    let n = set.len();
    let mut i: usize = 0;
    while i < n && bytes_less(set[i].href.as_str().as_bytes(), u.href.as_str().as_bytes())
        invariant
            n == set@.len(),
            old_set == set.deep_view(),
            i <= n,
            forall|k: int| 0 <= k < i ==> href_lt(#[trigger] old_set[k].href, u@.href),
        decreases n - i,
    {
        assert(old_set[i as int] == set@[i as int]@);
        i = i + 1;
    }
    if i < n && set[i].href == u.href {
        assert(hrefs(old_set)[i as int] == u@.href);
        return;
    }
    proof {
        assert forall|k: int| i <= k < n implies href_lt(u@.href, #[trigger] old_set[k].href) by {
            assert(old_set[i as int] == set@[i as int]@);
            assert(!href_lt(old_set[i as int].href, u@.href));
            lemma_href_lt_total(old_set[i as int].href, u@.href);
            if k > i {
                lemma_href_lt_transitive(u@.href, old_set[i as int].href, old_set[k].href);
            }
        }
        assert forall|k: int| 0 <= k < n implies #[trigger] hrefs(old_set)[k] != u@.href by {
            if k < i {
                assert(href_lt(old_set[k].href, u@.href));
            } else {
                assert(href_lt(u@.href, old_set[k].href));
            }
            lemma_href_lt_irreflexive(u@.href);
        }
    }
    let ghost uv = u@;
    set.insert(i, u);
    proof {
        let new_set = set.deep_view();
        assert(new_set =~= old_set.insert(i as int, uv));
        assert(ascending(new_set)) by {
            assert forall|a: int, b: int| 0 <= a < b < new_set.len() implies href_lt(
                #[trigger] new_set[a].href,
                #[trigger] new_set[b].href,
            ) by {
                if b < i {
                } else if b == i {
                } else if a < i {
                    lemma_href_lt_transitive(old_set[a].href, uv.href, old_set[b - 1].href);
                } else if a == i {
                } else {
                }
            }
        }
        assert(new_set.to_set() =~= old_set.to_set().insert(uv)) by {
            assert forall|x: UrlView| #[trigger] new_set.to_set().contains(x) implies old_set.to_set().insert(
                uv,
            ).contains(x) by {
                let j = choose|j: int| 0 <= j < new_set.len() && new_set[j] == x;
                if j < i {
                    assert(old_set[j] == x);
                } else if j > i {
                    assert(old_set[j - 1] == x);
                }
            }
            assert forall|x: UrlView| #[trigger] old_set.to_set().insert(uv).contains(x) implies new_set.to_set().contains(
                x,
            ) by {
                if x == uv {
                    assert(new_set[i as int] == x);
                } else {
                    let j = choose|j: int| 0 <= j < old_set.len() && old_set[j] == x;
                    if j < i {
                        assert(new_set[j] == x);
                    } else {
                        assert(new_set[j + 1] == x);
                    }
                }
            }
        }
        assert forall|h: Seq<char>| #[trigger] hrefs(new_set).contains(h) <==> (hrefs(
            old_set,
        ).contains(h) || h == uv.href) by {
            if hrefs(new_set).contains(h) {
                let j = choose|j: int| 0 <= j < new_set.len() && hrefs(new_set)[j] == h;
                if j < i {
                    assert(hrefs(old_set)[j] == h);
                } else if j > i {
                    assert(hrefs(old_set)[j - 1] == h);
                }
            }
            if hrefs(old_set).contains(h) {
                let j = choose|j: int| 0 <= j < old_set.len() && hrefs(old_set)[j] == h;
                if j < i {
                    assert(hrefs(new_set)[j] == h);
                } else {
                    assert(hrefs(new_set)[j + 1] == h);
                }
            }
            if h == uv.href {
                assert(hrefs(new_set)[i as int] == h);
            }
        }
    }
}


/// The last URL of each serialization in `links`, in ascending order of
/// serialization.
pub fn link_set_of(links: &Vec<WebUrl>) -> (r: Vec<WebUrl>)
    ensures
        is_link_set_of(r.deep_view(), links.deep_view()),
        r.deep_view() == link_set(links.deep_view()),
{
    let ghost s = links.deep_view();
    let mut out: Vec<WebUrl> = Vec::new();
    let n = links.len();
    let mut i: usize = n;
    proof {
        assert(s.skip(n as int) =~= Seq::<UrlView>::empty());
        assert(out.deep_view().to_set() =~= last_occurrences(s.skip(n as int)).to_set());
    }
    while i > 0
        invariant
            n == links@.len(),
            s == links.deep_view(),
            i <= n,
            ascending(out.deep_view()),
            out.deep_view().to_set() == last_occurrences(s.skip(i as int)).to_set(),
            forall|h: Seq<char>|
                #[trigger] hrefs(out.deep_view()).contains(h) <==> hrefs(s.skip(i as int)).contains(
                    h,
                ),
        decreases i,
    {
        i = i - 1;
        let u = links[i].duplicate();
        insert_link(&mut out, u);
        proof {
            let t = s.skip(i as int);
            let rest = s.skip(i + 1);
            assert(t.drop_first() =~= rest);
            assert(t[0] == s[i as int]);
            assert(s[i as int] == u@);
            if hrefs(rest).contains(u@.href) {
                assert(last_occurrences(t) == last_occurrences(rest));
            } else {
                assert(last_occurrences(t) == seq![u@] + last_occurrences(rest));
                lemma_prepend_to_set(u@, last_occurrences(rest));
            }
            assert(hrefs(t) =~= seq![u@.href] + hrefs(rest));
            assert forall|h: Seq<char>| #[trigger] hrefs(out.deep_view()).contains(h) <==> hrefs(
                t,
            ).contains(h) by {
                if hrefs(t).contains(h) {
                    let j = choose|j: int| 0 <= j < hrefs(t).len() && hrefs(t)[j] == h;
                    if j > 0 {
                        assert(hrefs(rest)[j - 1] == h);
                    }
                }
                if hrefs(rest).contains(h) {
                    let j = choose|j: int| 0 <= j < hrefs(rest).len() && hrefs(rest)[j] == h;
                    assert(hrefs(t)[j + 1] == h);
                }
                if h == u@.href {
                    assert(hrefs(t)[0] == h);
                }
            }
        }
    }
    proof {
        assert(s.skip(0) =~= s);
        assert(is_link_set_of(out.deep_view(), s));
        lemma_link_set_exists(s);
        lemma_ascending_unique(out.deep_view(), link_set(s));
    }
    out
}

} // verus!
