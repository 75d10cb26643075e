//! Character-level text work: removing every occurrence of a pattern, the
//! clean-up applied to each block of page text, and the joining of blocks.

use vstd::prelude::*;
use vstd::string::StrSliceExecFns;
use vstd::utf8::*;

verus! {

broadcast use vstd::string::group_string_axioms;

/// `s` with every occurrence of `pat` removed, scanning from the left and
/// resuming after each match (what `str::replace(pat, "")` computes). An empty
/// pattern leaves `s` unchanged.
pub open spec fn remove_all(s: Seq<char>, pat: Seq<char>) -> Seq<char>
    decreases s.len(),
{
    if pat.len() == 0 || s.len() < pat.len() {
        s
    } else if s.take(pat.len() as int) == pat {
        remove_all(s.skip(pat.len() as int), pat)
    } else {
        seq![s[0]] + remove_all(s.skip(1), pat)
    }
}

/// The characters of a string, in order.
pub fn chars_of(s: &str) -> (r: Vec<char>)
    ensures
        r@ == s@,
{
    let mut v: Vec<char> = Vec::new();
    for c in it: s.chars()
        invariant
            it.seq() == s@,
            v@ == it.seq().take(it.index()),
    {
        v.push(c);
    }
    v
}


/// Whether `pat` occurs in `s` at position `i`.
fn occurs_at(s: &Vec<char>, pat: &Vec<char>, i: usize) -> (r: bool)
    requires
        i + pat@.len() <= s@.len(),
    ensures
        r == (s@.subrange(i as int, i + pat@.len()) == pat@),
{
    let n = s.len();
    let mut k: usize = 0;
    while k < pat.len()
        invariant
            n == s@.len(),
            i + pat@.len() <= s@.len(),
            k <= pat@.len(),
            forall|j: int| 0 <= j < k ==> s@[i + j] == pat@[j],
        decreases pat@.len() - k,
    {
        if s[i + k] != pat[k] {
            assert(s@.subrange(i as int, i + pat@.len())[k as int] != pat@[k as int]);
            return false;
        }
        k = k + 1;
    }
    assert(s@.subrange(i as int, i + pat@.len()) =~= pat@);
    true
}

/// Removes every occurrence of `pat` from `s`, as `str::replace(pat, "")`
/// does.
pub fn remove_pattern(s: &Vec<char>, pat: &Vec<char>) -> (r: Vec<char>)
    ensures
        r@ == remove_all(s@, pat@),
{
    let n = s.len();
    let m = pat.len();
    let mut out: Vec<char> = Vec::new();
    if m == 0 {
        assert(out@ + s@ =~= s@);
        let mut i: usize = 0;
        while i < n
            invariant
                n == s@.len(),
                i <= n,
                out@ =~= s@.take(i as int),
            decreases n - i,
        {
            out.push(s[i]);
            i = i + 1;
        }
        assert(s@.take(n as int) =~= s@);
        return out;
    }
    let mut i: usize = 0;
    assert(s@.skip(0) =~= s@);
    while i < n && m <= n - i
        invariant
            n == s@.len(),
            m == pat@.len(),
            m > 0,
            i <= n,
            out@ + remove_all(s@.skip(i as int), pat@) == remove_all(s@, pat@),
        decreases n - i,
    {
        let ghost rest = s@.skip(i as int);
        assert(rest.take(m as int) =~= s@.subrange(i as int, i + m));
        if occurs_at(s, pat, i) {
            assert(rest.skip(m as int) =~= s@.skip(i + m));
            i = i + m;
        } else {
            assert(rest.skip(1) =~= s@.skip(i + 1));
            assert(out@.push(s@[i as int]) + remove_all(s@.skip(i + 1), pat@) =~= out@ + (seq![rest[0]] + remove_all(rest.skip(1), pat@)));
            out.push(s[i]);
            i = i + 1;
        }
    }
    let ghost mid = out@;
    let ghost start = i as int;
    assert(remove_all(s@.skip(start), pat@) == s@.skip(start));
    while i < n
        invariant
            n == s@.len(),
            0 <= start <= i <= n,
            mid + s@.skip(start) == remove_all(s@, pat@),
            out@ =~= mid + s@.subrange(start, i as int),
        decreases n - i,
    {
        assert(s@.subrange(start, i + 1) =~= s@.subrange(start, i as int).push(s@[i as int]));
        out.push(s[i]);
        i = i + 1;
    }
    assert(s@.subrange(start, n as int) =~= s@.skip(start));
    out
}


/// Builds a `String` from characters with `Iterator::collect` (std's
/// `FromIterator<char>` for `String`): the string holds exactly these
/// characters, in order.
#[verifier::external_body]
pub(crate) fn string_from_chars(chars: &Vec<char>) -> (r: String)
    ensures
        r@ == chars@,
{
    chars.iter().collect()
}

/// A block of page text after the clean-up: line feeds, tabs, runs of five
/// spaces, `<b>` and `</b>` removed, in that order.
pub open spec fn cleaned_block(s: Seq<char>) -> Seq<char> {
    let s1 = remove_all(s, seq!['\n']);
    let s2 = remove_all(s1, seq!['\t']);
    let s3 = remove_all(s2, seq![' ', ' ', ' ', ' ', ' ']);
    let s4 = remove_all(s3, seq!['<', 'b', '>']);
    remove_all(s4, seq!['<', '/', 'b', '>'])
}

/// The text of a page: each cleaned block preceded by one space.
pub open spec fn page_text(blocks: Seq<Seq<char>>) -> Seq<char>
    decreases blocks.len(),
{
    if blocks.len() == 0 {
        Seq::empty()
    } else {
        page_text(blocks.drop_last()) + seq![' '] + cleaned_block(blocks.last())
    }
}

fn cleaned_chars(block: &str) -> (r: Vec<char>)
    ensures
        r@ == cleaned_block(block@),
{
    let p1 = vec!['\n'];
    let p2 = vec!['\t'];
    let p3 = vec![' ', ' ', ' ', ' ', ' '];
    let p4 = vec!['<', 'b', '>'];
    let p5 = vec!['<', '/', 'b', '>'];
    assert(p1@ =~= seq!['\n']);
    assert(p2@ =~= seq!['\t']);
    assert(p3@ =~= seq![' ', ' ', ' ', ' ', ' ']);
    assert(p4@ =~= seq!['<', 'b', '>']);
    assert(p5@ =~= seq!['<', '/', 'b', '>']);
    let s0 = chars_of(block);
    let s1 = remove_pattern(&s0, &p1);
    let s2 = remove_pattern(&s1, &p2);
    let s3 = remove_pattern(&s2, &p3);
    let s4 = remove_pattern(&s3, &p4);
    let s5 = remove_pattern(&s4, &p5);
    s5
}

/// Cleans one block of page text.
pub fn clean_block(block: &str) -> (r: String)
    ensures
        r@ == cleaned_block(block@),
{
    string_from_chars(&cleaned_chars(block))
}

/// Joins the blocks of a page into its text, each cleaned block preceded by
/// one space.
pub fn join_blocks(blocks: &Vec<String>) -> (r: String)
    ensures
        r@ == page_text(blocks.deep_view()),
{
    let mut out: Vec<char> = Vec::new();
    let n = blocks.len();
    for i in 0..n
        invariant
            n == blocks@.len(),
            out@ == page_text(blocks.deep_view().take(i as int)),
    {
        let mut cleaned = cleaned_chars(blocks[i].as_str());
        let ghost before = out@;
        out.push(' ');
        out.append(&mut cleaned);
        proof {
            let bs = blocks.deep_view().take(i + 1);
            assert(bs.drop_last() =~= blocks.deep_view().take(i as int));
            assert(bs.last() == blocks@[i as int]@);
            assert(out@ =~= before + seq![' '] + cleaned_block(blocks@[i as int]@));
        }
    }
    assert(blocks.deep_view().take(n as int) =~= blocks.deep_view());
    string_from_chars(&out)
}


/// The most characters of page text that are stored for a page.
pub const STORED_TEXT_CHARS: usize = 10000;

/// Where the stored text is cut: the number of characters of the page text,
/// but at most [`STORED_TEXT_CHARS`]. The cut is applied to the UTF-8 bytes of
/// the text.
pub open spec fn stored_cut(text: Seq<char>) -> int {
    if text.len() < STORED_TEXT_CHARS {
        text.len() as int
    } else {
        STORED_TEXT_CHARS as int
    }
}

/// The characters whose UTF-8 encoding is the first `n` bytes of that of
/// `text`.
pub open spec fn utf8_prefix(text: Seq<char>, n: int) -> Seq<char> {
    decode_utf8(encode_utf8(text).take(n))
}

/// Whether the stored text of a page can be cut out of its text: the cut
/// falls on a character boundary of its UTF-8.
pub open spec fn cut_on_boundary(text: Seq<char>) -> bool {
    is_char_boundary(encode_utf8(text), stored_cut(text))
}

/// The text stored for a page: the page text cut at [`stored_cut`] bytes, a
/// space, and the page's URL.
pub open spec fn stored_text(text: Seq<char>, href: Seq<char>) -> Seq<char> {
    utf8_prefix(text, stored_cut(text)) + seq![' '] + href
}

/// Builds the text stored for a page from its text and its URL; `None` where
/// the cut would fall inside a character.
pub fn text_for_index(text: &str, href: &str) -> (r: Option<String>)
    ensures
        r is Some <==> cut_on_boundary(text@),
        r matches Some(t) ==> t@ == stored_text(text@, href@),
{
    broadcast use encode_utf8_valid_utf8, encode_utf8_decode_utf8;

    let count = text.unicode_len();
    let cut = if count < STORED_TEXT_CHARS {
        count
    } else {
        STORED_TEXT_CHARS
    };
    if !text.is_char_boundary(cut) {
        return None;
    }
    let (head, _tail) = text.split_at(cut);
    assert(head@ == decode_utf8(encode_utf8(head@)));
    assert(encode_utf8(text@).subrange(0, cut as int) =~= encode_utf8(text@).take(cut as int));
    let mut chars = chars_of(head);
    chars.push(' ');
    let mut tail_chars = chars_of(href);
    chars.append(&mut tail_chars);
    Some(string_from_chars(&chars))
}


/// Removing a pattern only drops characters: every character of the result is
/// a character of the input.
pub proof fn lemma_remove_all_keeps_only(s: Seq<char>, pat: Seq<char>)
    ensures
        forall|c: char| #[trigger] remove_all(s, pat).contains(c) ==> s.contains(c),
        remove_all(s, pat).len() <= s.len(),
    decreases s.len(),
{
    if pat.len() == 0 || s.len() < pat.len() {
    } else if s.take(pat.len() as int) == pat {
        lemma_remove_all_keeps_only(s.skip(pat.len() as int), pat);
        assert forall|c: char| #[trigger] remove_all(s, pat).contains(c) implies s.contains(c) by {
            let k = choose|k: int| 0 <= k < remove_all(s, pat).len() && remove_all(s, pat)[k] == c;
            assert(s.skip(pat.len() as int).contains(c));
            let m = choose|m: int| 0 <= m < s.skip(pat.len() as int).len() && s.skip(pat.len() as int)[m] == c;
            assert(s[m + pat.len()] == c);
        }
    } else {
        lemma_remove_all_keeps_only(s.skip(1), pat);
        let r = remove_all(s, pat);
        assert forall|c: char| #[trigger] r.contains(c) implies s.contains(c) by {
            let k = choose|k: int| 0 <= k < r.len() && r[k] == c;
            if k == 0 {
                assert(s[0] == c);
            } else {
                assert(remove_all(s.skip(1), pat)[k - 1] == c);
                assert(remove_all(s.skip(1), pat).contains(c));
                let m = choose|m: int| 0 <= m < s.skip(1).len() && s.skip(1)[m] == c;
                assert(s[m + 1] == c);
            }
        }
    }
}

/// Removing a one-character pattern leaves no occurrence of that character.
pub proof fn lemma_remove_char(s: Seq<char>, c: char)
    ensures
        !remove_all(s, seq![c]).contains(c),
    decreases s.len(),
{
    if s.len() >= 1 {
        if s.take(1) == seq![c] {
            lemma_remove_char(s.skip(1), c);
        } else {
            lemma_remove_char(s.skip(1), c);
            assert(s[0] != c) by {
                if s[0] == c {
                    assert(s.take(1) =~= seq![c]);
                }
            }
            let r = remove_all(s, seq![c]);
            if r.contains(c) {
                let k = choose|k: int| 0 <= k < r.len() && r[k] == c;
                assert(remove_all(s.skip(1), seq![c])[k - 1] == c);
            }
        }
    }
}

/// A cleaned block of page text holds no line feed and no tab.
pub proof fn lemma_cleaned_block_has_no_breaks(s: Seq<char>)
    ensures
        !cleaned_block(s).contains('\n'),
        !cleaned_block(s).contains('\t'),
{
    let s1 = remove_all(s, seq!['\n']);
    let s2 = remove_all(s1, seq!['\t']);
    let s3 = remove_all(s2, seq![' ', ' ', ' ', ' ', ' ']);
    let s4 = remove_all(s3, seq!['<', 'b', '>']);
    lemma_remove_char(s, '\n');
    lemma_remove_all_keeps_only(s1, seq!['\t']);
    lemma_remove_char(s1, '\t');
    lemma_remove_all_keeps_only(s2, seq![' ', ' ', ' ', ' ', ' ']);
    lemma_remove_all_keeps_only(s3, seq!['<', 'b', '>']);
    lemma_remove_all_keeps_only(s4, seq!['<', '/', 'b', '>']);
}

/// The text of a page holds no line feed and no tab.
pub proof fn lemma_page_text_has_no_breaks(blocks: Seq<Seq<char>>)
    ensures
        !page_text(blocks).contains('\n'),
        !page_text(blocks).contains('\t'),
    decreases blocks.len(),
{
    if blocks.len() > 0 {
        lemma_page_text_has_no_breaks(blocks.drop_last());
        lemma_cleaned_block_has_no_breaks(blocks.last());
        let a = page_text(blocks.drop_last());
        let b = cleaned_block(blocks.last());
        let t = page_text(blocks);
        assert forall|c: char| c == '\n' || c == '\t' implies !t.contains(c) by {
            if t.contains(c) {
                let k = choose|k: int| 0 <= k < t.len() && t[k] == c;
                if k < a.len() {
                    assert(a[k] == c);
                } else if k > a.len() {
                    assert(b[k - a.len() - 1] == c);
                }
            }
        }
    }
}

proof fn lemma_encode_utf8_len(chars: Seq<char>)
    ensures
        encode_utf8(chars).len() >= chars.len(),
    decreases chars.len(),
{
    if chars.len() > 0 {
        lemma_encode_utf8_len(chars.drop_first());
    }
}

/// The text stored for a page is a prefix of the page text, of at most
/// [`STORED_TEXT_CHARS`] characters, then a space and the page's URL.
pub proof fn lemma_stored_text_is_prefix(text: Seq<char>, href: Seq<char>)
    requires
        cut_on_boundary(text),
    ensures
        exists|k: int|
            0 <= k <= text.len() && k <= STORED_TEXT_CHARS && stored_text(text, href) == text.take(k)
                + seq![' '] + href,
{
    broadcast use encode_utf8_valid_utf8, encode_utf8_decode_utf8, decode_utf8_encode_utf8;

    let bytes = encode_utf8(text);
    let n = stored_cut(text);
    lemma_encode_utf8_len(text);
    decode_utf8_split(bytes, n);
    valid_utf8_split(bytes, n);
    let head = decode_utf8(bytes.subrange(0, n));
    let tail = decode_utf8(bytes.subrange(n, bytes.len() as int));
    assert(text == head + tail);
    assert(bytes.take(n) =~= bytes.subrange(0, n));
    assert(encode_utf8(head) == bytes.subrange(0, n));
    lemma_encode_utf8_len(head);
    assert(head =~= text.take(head.len() as int));
}

} // verus!
