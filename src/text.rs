use vstd::prelude::*;

verus! {

/// What `char::is_alphanumeric` answers for `c`: the Unicode Alphabetic or Numeric property.
pub uninterp spec fn alphanumeric(c: char) -> bool;

/// Relies on char::is_alphanumeric: true exactly for characters with the Alphabetic or
/// Numeric property, which among ASCII characters are the letters and the digits.
#[verifier::external_body]
fn char_is_alphanumeric(c: char) -> (r: bool)
    ensures
        r == alphanumeric(c),
        (c as u32) < 128 ==> (r <==> is_ascii_alphanumeric(c)),
{
    c.is_alphanumeric()
}

/// Relies on String::push: appends one character.
#[verifier::external_body]
pub(crate) fn push_char(s: &mut String, c: char)
    ensures
        final(s)@ == old(s)@.push(c),
{
    s.push(c)
}

/// An ASCII letter or digit.
pub open spec fn is_ascii_alphanumeric(c: char) -> bool {
    ||| (48 <= c as u32 && c as u32 <= 57)
    ||| (65 <= c as u32 && c as u32 <= 90)
    ||| (97 <= c as u32 && c as u32 <= 122)
}

/// A character that may stand in a word: a letter, a digit or an underscore.
pub open spec fn is_word_char(c: char) -> bool {
    ||| c == '_'
    ||| ((c as u32) < 128 && is_ascii_alphanumeric(c))
    ||| ((c as u32) >= 128 && alphanumeric(c))
}

/// A character that may join two parts of a word (`don't`, `word’s`).
pub open spec fn is_apostrophe(c: char) -> bool {
    c == '\'' || c == '\u{2019}'
}

/// How many UTF-16 code units encode `c`.
pub open spec fn utf16_width(c: char) -> nat {
    if c as u32 >= 0x10000 {
        2
    } else {
        1
    }
}

/// How many UTF-16 code units encode `s`.
pub open spec fn utf16_len(s: Seq<char>) -> nat
    decreases s.len(),
{
    if s.len() == 0 {
        0
    } else {
        utf16_len(s.drop_last()) + utf16_width(s.last())
    }
}

/// Where the word that goes on at `i` ends: runs of word characters, each joined to the
/// next by one apostrophe.
pub open spec fn word_end_from(s: Seq<char>, i: int) -> int
    decreases s.len() - i,
{
    if i < 0 || i >= s.len() {
        i
    } else if is_word_char(s[i]) {
        word_end_from(s, i + 1)
    } else if is_apostrophe(s[i]) && i + 1 < s.len() && is_word_char(s[i + 1]) {
        word_end_from(s, i + 2)
    } else {
        i
    }
}

/// The words of `s` from position `i` on, as `(start, end)` character positions, scanned
/// from left to right, each as long as it can be.
pub open spec fn words_from(s: Seq<char>, i: int) -> Seq<(int, int)>
    decreases s.len() - i,
    via words_from_decreases
{
    if i < 0 || i >= s.len() {
        seq![]
    } else if is_word_char(s[i]) {
        seq![(i, word_end_from(s, i + 1))] + words_from(s, word_end_from(s, i + 1))
    } else {
        words_from(s, i + 1)
    }
}

#[via_fn]
proof fn words_from_decreases(s: Seq<char>, i: int) {
    if 0 <= i < s.len() && is_word_char(s[i]) {
        lemma_word_end_from_bounds(s, i + 1);
    }
}

/// The words of `s`, left to right.
pub open spec fn words_of(s: Seq<char>) -> Seq<(int, int)> {
    words_from(s, 0)
}

/// A word found in a text, placed in UTF-16 code units.
#[derive(Debug)]
pub struct WordSpan {
    pub word: String,
    pub start: usize,
    pub length: usize,
}

/// `w` is the word at character positions `(a, b)` of `s`, placed in UTF-16 code units.
pub open spec fn places(w: WordSpan, s: Seq<char>, ab: (int, int)) -> bool {
    &&& 0 <= ab.0 <= ab.1 <= s.len()
    &&& w.word@ == s.subrange(ab.0, ab.1)
    &&& w.start == utf16_len(s.take(ab.0))
    &&& w.length == utf16_len(s.subrange(ab.0, ab.1))
}

/// The spans `r` are, one for one and in order, the words `ws` of `s`.
pub open spec fn spans_place(r: Seq<WordSpan>, s: Seq<char>, ws: Seq<(int, int)>) -> bool {
    &&& r.len() == ws.len()
    &&& forall|k: int| 0 <= k < r.len() ==> places(#[trigger] r[k], s, ws[k])
}

pub proof fn lemma_word_end_from_bounds(s: Seq<char>, i: int)
    ensures
        i <= word_end_from(s, i),
        0 <= i <= s.len() ==> word_end_from(s, i) <= s.len(),
    decreases s.len() - i,
{
    if 0 <= i < s.len() {
        if is_word_char(s[i]) {
            lemma_word_end_from_bounds(s, i + 1);
        } else if is_apostrophe(s[i]) && i + 1 < s.len() && is_word_char(s[i + 1]) {
            lemma_word_end_from_bounds(s, i + 2);
        }
    }
}

/// The words from position `i` on lie within `s`, after `i`, each non-empty, and each ends
/// before the next begins.
pub proof fn lemma_words_from_ordered(s: Seq<char>, i: int)
    requires
        0 <= i,
    ensures
        forall|k: int|
            0 <= k < words_from(s, i).len() ==> i <= #[trigger] words_from(s, i)[k].0 < words_from(s, i)[k].1 <= s.len(),
        forall|k: int, m: int|
            0 <= k < m < words_from(s, i).len() ==> #[trigger] words_from(s, i)[k].1 <= #[trigger] words_from(s, i)[m].0,
    decreases s.len() - i,
{
    if i < s.len() {
        if is_word_char(s[i]) {
            let e = word_end_from(s, i + 1);
            lemma_word_end_from_bounds(s, i + 1);
            lemma_words_from_ordered(s, e);
            let w = words_from(s, i);
            let rest = words_from(s, e);
            assert(w == seq![(i, e)] + rest);
            assert forall|k: int| 0 <= k < w.len() implies i <= #[trigger] w[k].0 < w[k].1 <= s.len() by {
                if k > 0 {
                    assert(w[k] == rest[k - 1]);
                }
            }
            assert forall|k: int, m: int| 0 <= k < m < w.len() implies #[trigger] w[k].1 <= #[trigger] w[m].0 by {
                assert(w[m] == rest[m - 1]);
                if k > 0 {
                    assert(w[k] == rest[k - 1]);
                }
            }
        } else {
            lemma_words_from_ordered(s, i + 1);
            assert(words_from(s, i) == words_from(s, i + 1));
        }
    } else {
        assert(words_from(s, i).len() == 0);
    }
}

/// Code units add up: those of the first `b` characters are those of the first `a` and
/// those from `a` to `b`.
pub proof fn lemma_utf16_split(s: Seq<char>, a: int, b: int)
    requires
        0 <= a <= b <= s.len(),
    ensures
        utf16_len(s.take(b)) == utf16_len(s.take(a)) + utf16_len(s.subrange(a, b)),
    decreases b - a,
{
    if b == a {
        assert(s.subrange(a, b) =~= Seq::<char>::empty());
        assert(s.take(b) =~= s.take(a));
    } else {
        lemma_utf16_split(s, a, b - 1);
        assert(s.take(b).drop_last() =~= s.take(b - 1));
        assert(s.subrange(a, b).drop_last() =~= s.subrange(a, b - 1));
    }
}

/// The spans `r` come in text order, none overlapping the next ones.
pub open spec fn in_text_order(r: Seq<WordSpan>) -> bool {
    forall|k: int, m: int|
        0 <= k < m < r.len() ==> #[trigger] r[k].start + r[k].length <= #[trigger] r[m].start
}

/// The words of a text, placed in UTF-16 code units, come in text order without overlap.
pub proof fn lemma_word_spans_ordered(r: Seq<WordSpan>, s: Seq<char>)
    requires
        spans_place(r, s, words_of(s)),
    ensures
        in_text_order(r),
{
    let w = words_of(s);
    lemma_words_from_ordered(s, 0);
    assert forall|k: int, m: int| 0 <= k < m < r.len() implies #[trigger] r[k].start + r[k].length <= #[trigger] r[m].start by {
        assert(places(r[k], s, w[k]));
        assert(places(r[m], s, w[m]));
        assert(w[k].1 <= w[m].0);
        lemma_utf16_split(s, w[k].0, w[k].1);
        lemma_utf16_split(s, w[k].1, w[m].0);
    }
}

/// The characters of `text`, in order.
pub fn chars_of(text: &str) -> (r: Vec<char>)
    ensures
        r@ == text@,
{
    let mut r: Vec<char> = Vec::new();
    for c in it: text.chars()
        invariant
            r@ == it.seq().take(it.index() as int),
    {
        r.push(c);
        proof {
            assert(r@ =~= it.seq().take(it.index() as int + 1));
        }
    }
    assert(r@ =~= text@);
    r
}

/// Whether `c` may stand in a word.
pub fn word_char(c: char) -> (r: bool)
    ensures
        r == is_word_char(c),
{
    c == '_' || char_is_alphanumeric(c)
}

/// Whether `c` may join two parts of a word.
pub fn apostrophe(c: char) -> (r: bool)
    ensures
        r == is_apostrophe(c),
{
    c == '\'' || c == '\u{2019}'
}

/// How many UTF-16 code units encode `c`.
pub fn char_utf16_width(c: char) -> (r: usize)
    ensures
        r == utf16_width(c),
{
    if c as u32 >= 0x10000 {
        2
    } else {
        1
    }
}

/// The words of `text`, left to right, each with its place counted in UTF-16 code units
/// (the unit in which an editor front end indexes strings). A character takes at most two
/// code units, so the bound on the length keeps every place within `usize`.
pub fn find_words(text: &str) -> (r: Vec<WordSpan>)
    requires
        text@.len() <= usize::MAX / 2,
    ensures
        spans_place(r@, text@, words_of(text@)),
{
    let cs = chars_of(text);
    let n = cs.len();
    let ghost s = cs@;
    let mut r: Vec<WordSpan> = Vec::new();
    let ghost mut done: Seq<(int, int)> = seq![];
    let mut i: usize = 0;
    let mut pos16: usize = 0;
    while i < n
        invariant
            s == text@,
            n == s.len(),
            n <= usize::MAX / 2,
            cs@ == s,
            i <= n,
            pos16 == utf16_len(s.take(i as int)),
            pos16 <= 2 * i,
            done + words_from(s, i as int) == words_of(s),
            spans_place(r@, s, done),
        decreases n - i,
    {
        let c = cs[i];
        if word_char(c) {
            let start = i;
            let start16 = pos16;
            let mut word = String::new();
            let mut len16: usize = 0;
            let mut j: usize = i;
            proof {
                assert(s.subrange(start as int, j as int) =~= Seq::<char>::empty());
                assert(utf16_len(s.subrange(start as int, j as int)) == 0);
            }
            push_char(&mut word, c);
            let w = char_utf16_width(c);
            proof {
                assert(s.take(j + 1).drop_last() =~= s.take(j as int));
                assert(s.subrange(start as int, j + 1).drop_last() =~= s.subrange(start as int, j as int));
                assert(s.subrange(start as int, j + 1) =~= s.subrange(start as int, j as int).push(c));
                assert(utf16_len(s.subrange(start as int, j + 1)) == utf16_width(c));
            }
            pos16 = pos16 + w;
            len16 = len16 + w;
            j = j + 1;
            loop
                invariant
                    s == text@,
                    n == s.len(),
                    n <= usize::MAX / 2,
                    cs@ == s,
                    start < j <= n,
                    is_word_char(s[start as int]),
                    word_end_from(s, j as int) == word_end_from(s, start + 1),
                    word@ == s.subrange(start as int, j as int),
                    pos16 == utf16_len(s.take(j as int)),
                    pos16 <= 2 * j,
                    start16 == utf16_len(s.take(start as int)),
                    len16 == utf16_len(s.subrange(start as int, j as int)),
                    start16 + len16 == pos16,
                ensures
                    word_end_from(s, j as int) == j,
                decreases n - j,
            {
                let mut step: usize = 0;
                if j < n && word_char(cs[j]) {
                    step = 1;
                } else if j + 1 < n && apostrophe(cs[j]) && word_char(cs[j + 1]) {
                    step = 2;
                }
                if step == 0 {
                    break;
                }
                let ghost j0 = j;
                let mut k: usize = 0;
                while k < step
                    invariant
                        s == text@,
                        n == s.len(),
                        n <= usize::MAX / 2,
                        cs@ == s,
                        start < j0,
                        j0 + step <= n,
                        j == j0 + k,
                        k <= step,
                        word@ == s.subrange(start as int, j as int),
                        pos16 == utf16_len(s.take(j as int)),
                        pos16 <= 2 * j,
                        start16 == utf16_len(s.take(start as int)),
                        len16 == utf16_len(s.subrange(start as int, j as int)),
                        start16 + len16 == pos16,
                    decreases step - k,
                {
                    let d = cs[j];
                    push_char(&mut word, d);
                    let w = char_utf16_width(d);
                    proof {
                        assert(s.take(j + 1).drop_last() =~= s.take(j as int));
                        assert(s.subrange(start as int, j + 1).drop_last() =~= s.subrange(start as int, j as int));
                        assert(s.subrange(start as int, j + 1) =~= s.subrange(start as int, j as int).push(d));
                    }
                    pos16 = pos16 + w;
                    len16 = len16 + w;
                    j = j + 1;
                    k = k + 1;
                }
            }
            let ghost ab = (start as int, j as int);
            proof {
                assert(word_end_from(s, j as int) == j);
                assert(words_from(s, start as int) == seq![ab] + words_from(s, j as int));
                assert(done.push(ab) + words_from(s, j as int) =~= done + words_from(s, start as int));
                done = done.push(ab);
            }
            r.push(WordSpan { word, start: start16, length: len16 });
            i = j;
        } else {
            let w = char_utf16_width(c);
            proof {
                assert(s.take(i + 1).drop_last() =~= s.take(i as int));
            }
            pos16 = pos16 + w;
            i = i + 1;
        }
    }
    r
}

} // verus!
