use vstd::prelude::*;

use crate::text::{
    in_text_order, lemma_word_spans_ordered, push_char, places, spans_place, words_of, WordSpan,
};

verus! {

/// The words of a word list, as character sequences.
pub open spec fn views(v: Seq<String>) -> Seq<Seq<char>> {
    v.map_values(|w: String| w@)
}

/// `c` with a right single quotation mark read as a straight apostrophe.
pub open spec fn straight_quote(c: char) -> char {
    if c == '\u{2019}' {
        '\''
    } else {
        c
    }
}

/// `w` with every right single quotation mark made a straight apostrophe.
pub open spec fn normalized(w: Seq<char>) -> Seq<char> {
    w.map_values(|c: char| straight_quote(c))
}

/// A word is reported when it is not a custom word and the checker accepted neither its
/// own spelling nor its normalized one.
pub open spec fn is_reported(w: Seq<char>, custom: Seq<Seq<char>>, raw_ok: bool, normalized_ok: bool) -> bool {
    !custom.contains(w) && !raw_ok && !normalized_ok
}

/// The spans among `spans` that are reported, in their order.
pub open spec fn reported(
    spans: Seq<WordSpan>,
    custom: Seq<Seq<char>>,
    raw_ok: Seq<bool>,
    normalized_ok: Seq<bool>,
) -> Seq<WordSpan>
    decreases spans.len(),
{
    if spans.len() == 0 {
        seq![]
    } else {
        let k = spans.len() - 1;
        let before = reported(spans.drop_last(), custom, raw_ok.take(k), normalized_ok.take(k));
        if is_reported(spans[k].word@, custom, raw_ok[k], normalized_ok[k]) {
            before.push(spans[k])
        } else {
            before
        }
    }
}

/// Whether `word` is one of `custom`, compared exactly.
pub fn is_custom_word(custom: &Vec<String>, word: &String) -> (r: bool)
    ensures
        r == views(custom@).contains(word@),
{
    let mut k: usize = 0;
    while k < custom.len()
        invariant
            k <= custom.len(),
            forall|m: int| 0 <= m < k ==> custom@[m]@ != word@,
        decreases custom.len() - k,
    {
        if custom[k] == *word {
            proof {
                assert(views(custom@)[k as int] == word@);
            }
            return true;
        }
        k = k + 1;
    }
    proof {
        if views(custom@).contains(word@) {
            let m = choose|m: int| 0 <= m < views(custom@).len() && views(custom@)[m] == word@;
            assert(custom@[m]@ == word@);
        }
    }
    false
}

/// `word` with every right single quotation mark made a straight apostrophe, the second
/// spelling under which a word is looked up.
pub fn normalize_apostrophes(word: &str) -> (r: String)
    ensures
        r@ == normalized(word@),
{
    let mut r = String::new();
    let ghost s = word@;
    for c in it: word.chars()
        invariant
            s == word@,
            it.seq() == s,
            r@ == normalized(s.take(it.index() as int)),
    {
        let d = if c == '\u{2019}' {
            '\''
        } else {
            c
        };
        push_char(&mut r, d);
        proof {
            assert(normalized(s.take(it.index() as int + 1)) =~= normalized(
                s.take(it.index() as int),
            ).push(d));
        }
    }
    proof {
        assert(s.take(s.len() as int) =~= s);
    }
    r
}

/// The spans to report: those whose word is not among `custom` and for which the checker
/// accepted neither the word (`raw_ok`) nor its normalized spelling (`normalized_ok`).
pub fn select_errors(
    spans: &Vec<WordSpan>,
    custom: &Vec<String>,
    raw_ok: &Vec<bool>,
    normalized_ok: &Vec<bool>,
) -> (r: Vec<WordSpan>)
    requires
        raw_ok.len() == spans.len(),
        normalized_ok.len() == spans.len(),
    ensures
        r@ == reported(spans@, views(custom@), raw_ok@, normalized_ok@),
{
    let mut r: Vec<WordSpan> = Vec::new();
    let mut k: usize = 0;
    while k < spans.len()
        invariant
            k <= spans.len(),
            raw_ok.len() == spans.len(),
            normalized_ok.len() == spans.len(),
            r@ == reported(spans@.take(k as int), views(custom@), raw_ok@.take(k as int), normalized_ok@.take(k as int)),
        decreases spans.len() - k,
    {
        let sp = &spans[k];
        let custom_word = is_custom_word(custom, &sp.word);
        proof {
            let t = spans@.take(k + 1);
            assert(t.drop_last() =~= spans@.take(k as int));
            assert(raw_ok@.take(k + 1).take(k as int) =~= raw_ok@.take(k as int));
            assert(normalized_ok@.take(k + 1).take(k as int) =~= normalized_ok@.take(k as int));
        }
        if !custom_word && !raw_ok[k] && !normalized_ok[k] {
            r.push(WordSpan { word: sp.word.clone(), start: sp.start, length: sp.length });
        }
        k = k + 1;
    }
    proof {
        assert(spans@.take(spans.len() as int) =~= spans@);
        assert(raw_ok@.take(spans.len() as int) =~= raw_ok@);
        assert(normalized_ok@.take(spans.len() as int) =~= normalized_ok@);
    }
    r
}

/// Spans whose words are all custom words leave nothing to report.
pub proof fn lemma_custom_spans_not_reported(
    spans: Seq<WordSpan>,
    custom: Seq<Seq<char>>,
    raw_ok: Seq<bool>,
    normalized_ok: Seq<bool>,
)
    requires
        forall|k: int| 0 <= k < spans.len() ==> custom.contains(#[trigger] spans[k].word@),
    ensures
        reported(spans, custom, raw_ok, normalized_ok) == Seq::<WordSpan>::empty(),
    decreases spans.len(),
{
    if spans.len() > 0 {
        let k = spans.len() - 1;
        let d = spans.drop_last();
        assert forall|m: int| 0 <= m < d.len() implies custom.contains(#[trigger] d[m].word@) by {
            assert(d[m] == spans[m]);
        }
        lemma_custom_spans_not_reported(d, custom, raw_ok.take(k), normalized_ok.take(k));
        assert(custom.contains(spans[k].word@));
    }
}

/// Checking a text whose every word is a custom word reports nothing, whatever the checker
/// answers: custom words are never reported, even where no dictionary has them.
pub proof fn lemma_custom_text_has_no_errors(
    text: Seq<char>,
    spans: Seq<WordSpan>,
    custom: Seq<Seq<char>>,
    raw_ok: Seq<bool>,
    normalized_ok: Seq<bool>,
)
    requires
        spans_place(spans, text, words_of(text)),
        forall|k: int|
            0 <= k < words_of(text).len() ==> custom.contains(
                text.subrange(#[trigger] words_of(text)[k].0, words_of(text)[k].1),
            ),
    ensures
        reported(spans, custom, raw_ok, normalized_ok) == Seq::<WordSpan>::empty(),
{
    assert forall|k: int| 0 <= k < spans.len() implies custom.contains(#[trigger] spans[k].word@) by {
        assert(places(spans[k], text, words_of(text)[k]));
    }
    lemma_custom_spans_not_reported(spans, custom, raw_ok, normalized_ok);
}

/// Each reported span is one of the spans checked.
proof fn lemma_reported_among(
    spans: Seq<WordSpan>,
    custom: Seq<Seq<char>>,
    raw_ok: Seq<bool>,
    normalized_ok: Seq<bool>,
)
    ensures
        forall|i: int|
            0 <= i < reported(spans, custom, raw_ok, normalized_ok).len() ==> exists|j: int|
                0 <= j < spans.len() && #[trigger] reported(spans, custom, raw_ok, normalized_ok)[i]
                    == spans[j],
    decreases spans.len(),
{
    if spans.len() > 0 {
        let k = spans.len() - 1;
        let d = spans.drop_last();
        let before = reported(d, custom, raw_ok.take(k), normalized_ok.take(k));
        let r = reported(spans, custom, raw_ok, normalized_ok);
        lemma_reported_among(d, custom, raw_ok.take(k), normalized_ok.take(k));
        assert forall|i: int| 0 <= i < r.len() implies exists|j: int| 0 <= j < spans.len() && #[trigger] r[i] == spans[j] by {
            if i < before.len() {
                assert(r[i] == before[i]);
                let j = choose|j: int| 0 <= j < d.len() && before[i] == d[j];
                assert(r[i] == spans[j]);
            } else {
                assert(r[i] == spans[k]);
            }
        }
    }
}

/// Reporting keeps text order: spans in text order leave reported spans in text order,
/// none overlapping.
pub proof fn lemma_reported_in_text_order(
    spans: Seq<WordSpan>,
    custom: Seq<Seq<char>>,
    raw_ok: Seq<bool>,
    normalized_ok: Seq<bool>,
)
    requires
        in_text_order(spans),
    ensures
        in_text_order(reported(spans, custom, raw_ok, normalized_ok)),
    decreases spans.len(),
{
    if spans.len() > 0 {
        let k = spans.len() - 1;
        let d = spans.drop_last();
        let before = reported(d, custom, raw_ok.take(k), normalized_ok.take(k));
        let r = reported(spans, custom, raw_ok, normalized_ok);
        assert(in_text_order(d)) by {
            assert forall|a: int, b: int| 0 <= a < b < d.len() implies #[trigger] d[a].start + d[a].length <= #[trigger] d[b].start by {
                assert(d[a] == spans[a] && d[b] == spans[b]);
            }
        }
        lemma_reported_in_text_order(d, custom, raw_ok.take(k), normalized_ok.take(k));
        lemma_reported_among(d, custom, raw_ok.take(k), normalized_ok.take(k));
        assert forall|a: int, b: int| 0 <= a < b < r.len() implies #[trigger] r[a].start + r[a].length <= #[trigger] r[b].start by {
            assert(r[a] == before[a]);
            if b < before.len() {
                assert(r[b] == before[b]);
            } else {
                assert(r[b] == spans[k]);
                let j = choose|j: int| 0 <= j < d.len() && before[a] == d[j];
                assert(before[a] == spans[j]);
            }
        }
    }
}

/// What is reported for a text comes in text order, no span overlapping another.
pub proof fn lemma_text_errors_in_order(
    text: Seq<char>,
    spans: Seq<WordSpan>,
    custom: Seq<Seq<char>>,
    raw_ok: Seq<bool>,
    normalized_ok: Seq<bool>,
)
    requires
        spans_place(spans, text, words_of(text)),
    ensures
        in_text_order(reported(spans, custom, raw_ok, normalized_ok)),
{
    lemma_word_spans_ordered(spans, text);
    lemma_reported_in_text_order(spans, custom, raw_ok, normalized_ok);
}

} // verus!
