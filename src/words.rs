use vstd::prelude::*;

use vstd::string::StringExecFns;

use crate::check::{is_custom_word, views};
use crate::text::push_char;

verus! {

/// What `str::trim` leaves of `s`: `s` without its leading and trailing white space.
pub uninterp spec fn trimmed(s: Seq<char>) -> Seq<char>;

/// Relies on str::trim: the slice of `s` without leading and trailing white space.
#[verifier::external_body]
fn trim(s: &str) -> (r: String)
    ensures
        r@ == trimmed(s@),
{
    s.trim().to_string()
}

/// The lines of `s`, split at each line feed; a text without one is a single line.
pub open spec fn split_lines(s: Seq<char>) -> Seq<Seq<char>>
    decreases s.len(),
{
    if s.len() == 0 {
        seq![seq![]]
    } else {
        let ls = split_lines(s.drop_last());
        if s.last() == '\n' {
            ls.push(seq![])
        } else {
            ls.update(ls.len() - 1, ls.last().push(s.last()))
        }
    }
}

/// The words that `lines` hold: each line trimmed, the lines that are empty or blank left out.
pub open spec fn kept_words(lines: Seq<Seq<char>>) -> Seq<Seq<char>>
    decreases lines.len(),
{
    if lines.len() == 0 {
        seq![]
    } else if lines.last().len() > 0 && trimmed(lines.last()).len() > 0 {
        kept_words(lines.drop_last()).push(trimmed(lines.last()))
    } else {
        kept_words(lines.drop_last())
    }
}

/// The words of a custom dictionary file: one word per line.
pub open spec fn word_list(content: Seq<char>) -> Seq<Seq<char>> {
    kept_words(split_lines(content))
}

proof fn lemma_split_lines_nonempty(s: Seq<char>)
    ensures
        split_lines(s).len() >= 1,
    decreases s.len(),
{
    if s.len() > 0 {
        lemma_split_lines_nonempty(s.drop_last());
    }
}

/// A text that ends a line, or holds nothing yet.
pub open spec fn ends_line(c: Seq<char>) -> bool {
    c.len() == 0 || c.last() == '\n'
}

/// What one line holding `w` adds to the word list.
pub open spec fn line_words(w: Seq<char>) -> Seq<Seq<char>> {
    if w.len() > 0 && trimmed(w).len() > 0 {
        seq![trimmed(w)]
    } else {
        seq![]
    }
}

/// The line that records `word` in a custom dictionary file.
pub fn custom_word_line(word: &str) -> (r: String)
    ensures
        r@ == word@ + seq!['\n'],
{
    let mut r = String::from_str(word);
    push_char(&mut r, '\n');
    r
}

proof fn lemma_split_lines_extend(c: Seq<char>, w: Seq<char>)
    requires
        forall|i: int| 0 <= i < w.len() ==> w[i] != '\n',
    ensures
        split_lines(c + w) == split_lines(c).update(
            split_lines(c).len() - 1,
            split_lines(c).last() + w,
        ),
    decreases w.len(),
{
    lemma_split_lines_nonempty(c);
    if w.len() == 0 {
        assert(c + w =~= c);
        assert(split_lines(c).last() + w =~= split_lines(c).last());
        assert(split_lines(c).update(split_lines(c).len() - 1, split_lines(c).last())
            =~= split_lines(c));
    } else {
        let v = w.drop_last();
        lemma_split_lines_extend(c, v);
        assert((c + w).drop_last() =~= c + v);
        assert((c + w).last() == w.last());
        lemma_split_lines_nonempty(c + v);
        assert(w[w.len() - 1] != '\n');
        let ls = split_lines(c);
        let lv = split_lines(c + v);
        assert(lv.len() == ls.len());
        assert(lv.last() == ls.last() + v);
        assert((ls.last() + v).push(w.last()) =~= ls.last() + w);
        assert(split_lines(c + w) == lv.update(lv.len() - 1, lv.last().push(w.last())));
        assert(split_lines(c + w) =~= split_lines(c).update(
            split_lines(c).len() - 1,
            split_lines(c).last() + w,
        ));
    }
}

/// Appending the line of a word to a custom dictionary file whose text ends a line adds that
/// word, trimmed, to the end of the file's word list and changes nothing before it.
pub proof fn lemma_append_line(content: Seq<char>, word: Seq<char>)
    requires
        ends_line(content),
        forall|i: int| 0 <= i < word.len() ==> word[i] != '\n',
    ensures
        word_list(content + (word + seq!['\n'])) == word_list(content) + line_words(word),
{
    let ls = split_lines(content);
    lemma_split_lines_nonempty(content);
    assert(ls.last() == Seq::<char>::empty()) by {
        if content.len() > 0 {
            assert(ls == split_lines(content.drop_last()).push(seq![]));
        }
    }
    lemma_split_lines_extend(content, word);
    let t = content + word + seq!['\n'];
    assert(content + (word + seq!['\n']) =~= t);
    assert(t.drop_last() =~= content + word);
    let lw = ls.update(ls.len() - 1, ls.last() + word);
    assert(ls.last() + word =~= word);
    assert(split_lines(t) == lw.push(seq![]));
    assert(lw.push(seq![]).drop_last() =~= lw);
    assert(lw.drop_last() =~= ls.drop_last());
    assert(kept_words(lw.push(seq![])) == kept_words(lw));
    assert(kept_words(ls) == kept_words(ls.drop_last()));
    if word.len() > 0 && trimmed(word).len() > 0 {
        assert(kept_words(lw) == kept_words(ls.drop_last()).push(trimmed(word)));
        assert(kept_words(ls.drop_last()).push(trimmed(word)) =~= kept_words(ls.drop_last()) + line_words(word));
    } else {
        assert(kept_words(ls.drop_last()) + line_words(word) =~= kept_words(ls.drop_last()));
    }
}

/// The text of a custom dictionary file that lists `words`: one line for each.
pub open spec fn word_list_text(words: Seq<Seq<char>>) -> Seq<char>
    decreases words.len(),
{
    if words.len() == 0 {
        seq![]
    } else {
        word_list_text(words.drop_last()) + (words.last() + seq!['\n'])
    }
}

/// A word that a custom dictionary file keeps as it is: not empty, without line feed, and
/// left unchanged by trimming.
pub open spec fn storable(w: Seq<char>) -> bool {
    &&& w.len() > 0
    &&& trimmed(w) == w
    &&& forall|i: int| 0 <= i < w.len() ==> w[i] != '\n'
}

/// The text of a custom dictionary file that lists `words`, one per line.
pub fn format_word_list(words: &Vec<String>) -> (r: String)
    ensures
        r@ == word_list_text(views(words@)),
{
    let mut r = String::new();
    let mut k: usize = 0;
    while k < words.len()
        invariant
            k <= words.len(),
            r@ == word_list_text(views(words@).take(k as int)),
        decreases words.len() - k,
    {
        let line = custom_word_line(words[k].as_str());
        r.append(line.as_str());
        proof {
            let t = views(words@).take(k + 1);
            assert(t.drop_last() =~= views(words@).take(k as int));
            assert(t.last() == words@[k as int]@);
        }
        k = k + 1;
    }
    proof {
        assert(views(words@).take(words.len() as int) =~= views(words@));
    }
    r
}

/// Reading back the text written for a list of storable words gives that list.
pub proof fn lemma_word_list_round_trip(words: Seq<Seq<char>>)
    requires
        forall|k: int| 0 <= k < words.len() ==> storable(#[trigger] words[k]),
    ensures
        word_list(word_list_text(words)) == words,
        ends_line(word_list_text(words)),
    decreases words.len(),
{
    if words.len() == 0 {
        let one: Seq<Seq<char>> = seq![Seq::<char>::empty()];
        assert(word_list_text(words) =~= Seq::<char>::empty());
        assert(split_lines(Seq::<char>::empty()) == one);
        assert(one.drop_last() =~= Seq::<Seq<char>>::empty());
        assert(kept_words(one) == kept_words(one.drop_last()));
        assert(word_list(word_list_text(words)) =~= words);
    } else {
        let d = words.drop_last();
        let w = words.last();
        assert forall|k: int| 0 <= k < d.len() implies storable(#[trigger] d[k]) by {
            assert(d[k] == words[k]);
        }
        lemma_word_list_round_trip(d);
        assert(storable(words[words.len() - 1]));
        lemma_append_line(word_list_text(d), w);
        assert(line_words(w) == seq![w]);
        assert(d + seq![w] =~= words);
        let t = word_list_text(words);
        assert(t.last() == '\n');
    }
}

/// Reads the words of a custom dictionary file: each line trimmed, empty lines skipped.
pub fn parse_word_list(content: &str) -> (r: Vec<String>)
    ensures
        views(r@) == word_list(content@),
{
    let mut r: Vec<String> = Vec::new();
    let mut line = String::new();
    let ghost s = content@;
    proof {
        assert(s.take(0) =~= Seq::<char>::empty());
        assert(split_lines(s.take(0)).drop_last() =~= Seq::<Seq<char>>::empty());
        assert(views(r@) =~= Seq::<Seq<char>>::empty());
    }
    for c in it: content.chars()
        invariant
            s == content@,
            it.seq() == s,
            line@ == split_lines(s.take(it.index() as int)).last(),
            views(r@) == kept_words(split_lines(s.take(it.index() as int)).drop_last()),
    {
        let ghost i = it.index() as int;
        let ghost ls = split_lines(s.take(i));
        proof {
            lemma_split_lines_nonempty(s.take(i));
            assert(s.take(i + 1).drop_last() =~= s.take(i));
            assert(s.take(i + 1).last() == c);
        }
        if c == '\n' {
            let ghost before = r@;
            if !line.as_str().is_empty() {
                let t = trim(line.as_str());
                if !t.as_str().is_empty() {
                    r.push(t);
                    proof {
                        assert(views(r@) =~= views(before).push(trimmed(ls.last())));
                    }
                }
            }
            proof {
                assert(split_lines(s.take(i + 1)).drop_last() =~= ls);
                assert(ls =~= ls.drop_last().push(ls.last()));
            }
            line = String::new();
            proof {
                assert(line@ =~= split_lines(s.take(i + 1)).last());
            }
        } else {
            push_char(&mut line, c);
            proof {
                assert(split_lines(s.take(i + 1)).drop_last() =~= ls.drop_last());
            }
        }
    }
    proof {
        let ls = split_lines(s);
        lemma_split_lines_nonempty(s);
        assert(s.take(s.len() as int) =~= s);
        assert(ls =~= ls.drop_last().push(ls.last()));
    }
    if !line.as_str().is_empty() {
        let t = trim(line.as_str());
        if !t.as_str().is_empty() {
            r.push(t);
            proof {
                assert(views(r@) =~= views(r@.drop_last()).push(trimmed(split_lines(s).last())));
            }
        }
    }
    r
}

/// The words of `supplied` that `known` lacks, in the order of `supplied`, each taken once.
pub open spec fn fresh(known: Seq<Seq<char>>, supplied: Seq<Seq<char>>) -> Seq<Seq<char>>
    decreases supplied.len(),
{
    if supplied.len() == 0 {
        seq![]
    } else if known.contains(supplied[0]) {
        fresh(known, supplied.skip(1))
    } else {
        seq![supplied[0]] + fresh(known.push(supplied[0]), supplied.skip(1))
    }
}

/// The custom word list after `persisted` has been merged with `supplied`.
pub open spec fn merged(persisted: Seq<Seq<char>>, supplied: Seq<Seq<char>>) -> Seq<Seq<char>> {
    persisted + fresh(persisted, supplied)
}

/// The persisted word list followed by each supplied word that it does not hold yet, in
/// the order given.
pub fn merge_custom_words(persisted: &Vec<String>, supplied: &Vec<String>) -> (r: Vec<String>)
    ensures
        views(r@) == merged(views(persisted@), views(supplied@)),
{
    let mut r: Vec<String> = Vec::new();
    let mut k: usize = 0;
    while k < persisted.len()
        invariant
            k <= persisted.len(),
            views(r@) == views(persisted@).take(k as int),
        decreases persisted.len() - k,
    {
        let w = persisted[k].clone();
        let ghost before = r@;
        r.push(w);
        proof {
            assert(w@ == persisted@[k as int]@);
            assert(r@ == before.push(w));
            assert(views(before).len() == k);
            assert(before.len() == k);
            assert(r@.len() == k + 1);
            assert(views(r@).len() == k + 1);
            assert forall|j: int| 0 <= j < k + 1 implies #[trigger] views(r@)[j] == views(persisted@).take(k + 1)[j] by {
                if j < k {
                    assert(views(before)[j] == views(persisted@).take(k as int)[j]);
                }
            }
            assert(views(r@) =~= views(persisted@).take(k + 1));
        }
        k = k + 1;
    }
    proof {
        assert(views(r@) =~= views(persisted@));
        assert(supplied@.skip(0) =~= supplied@);
        assert(views(supplied@).skip(0) =~= views(supplied@));
    }
    let mut i: usize = 0;
    while i < supplied.len()
        invariant
            i <= supplied.len(),
            views(r@) + fresh(views(r@), views(supplied@).skip(i as int)) == merged(
                views(persisted@),
                views(supplied@),
            ),
        decreases supplied.len() - i,
    {
        let ghost rest = views(supplied@).skip(i as int);
        let ghost before = views(r@);
        proof {
            assert(rest[0] == supplied@[i as int]@);
            assert(rest.skip(1) =~= views(supplied@).skip(i + 1));
        }
        if !is_custom_word(&r, &supplied[i]) {
            r.push(supplied[i].clone());
            proof {
                assert(views(r@) =~= before.push(rest[0]));
                assert(before + (seq![rest[0]] + fresh(before.push(rest[0]), rest.skip(1)))
                    =~= views(r@) + fresh(views(r@), rest.skip(1)));
            }
        }
        i = i + 1;
    }
    proof {
        assert(views(supplied@).skip(supplied.len() as int) =~= Seq::<Seq<char>>::empty());
        assert(views(r@) + Seq::<Seq<char>>::empty() =~= views(r@));
    }
    r
}

/// `a` is `b` with some elements left out: `idx` says where each element of `a` stands in `b`.
pub open spec fn picks(a: Seq<Seq<char>>, b: Seq<Seq<char>>, idx: Seq<int>) -> bool {
    &&& idx.len() == a.len()
    &&& forall|i: int| 0 <= i < idx.len() ==> 0 <= #[trigger] idx[i] < b.len() && b[idx[i]] == a[i]
    &&& forall|i: int, j: int| 0 <= i < j < idx.len() ==> idx[i] < idx[j]
}

proof fn lemma_fresh(known: Seq<Seq<char>>, supplied: Seq<Seq<char>>) -> (idx: Seq<int>)
    ensures
        forall|x: Seq<char>| #[trigger] fresh(known, supplied).contains(x)
            <==> (supplied.contains(x) && !known.contains(x)),
        fresh(known, supplied).no_duplicates(),
        picks(fresh(known, supplied), supplied, idx),
    decreases supplied.len(),
{
    let f = fresh(known, supplied);
    if supplied.len() == 0 {
        seq![]
    } else {
        let rest = supplied.skip(1);
        assert forall|x: Seq<char>| #[trigger] supplied.contains(x) <==> (x == supplied[0] || rest.contains(x)) by {
            if supplied.contains(x) && x != supplied[0] {
                let m = choose|m: int| 0 <= m < supplied.len() && supplied[m] == x;
                assert(rest[m - 1] == x);
            }
            if rest.contains(x) {
                let m = choose|m: int| 0 <= m < rest.len() && rest[m] == x;
                assert(supplied[m + 1] == x);
            }
        }
        if known.contains(supplied[0]) {
            let idx0 = lemma_fresh(known, rest);
            let idx = idx0.map_values(|i: int| i + 1);
            assert(picks(f, supplied, idx)) by {
                assert forall|i: int| 0 <= i < idx.len() implies 0 <= #[trigger] idx[i] < supplied.len() && supplied[idx[i]] == f[i] by {
                    assert(idx[i] == idx0[i] + 1);
                }
            }
            idx
        } else {
            let k2 = known.push(supplied[0]);
            let idx0 = lemma_fresh(k2, rest);
            let f0 = fresh(k2, rest);
            assert(f == seq![supplied[0]] + f0);
            assert forall|x: Seq<char>| #[trigger] k2.contains(x) <==> (known.contains(x) || x == supplied[0]) by {
                if k2.contains(x) && x != supplied[0] {
                    let m = choose|m: int| 0 <= m < k2.len() && k2[m] == x;
                    assert(known[m] == x);
                }
                if known.contains(x) {
                    let m = choose|m: int| 0 <= m < known.len() && known[m] == x;
                    assert(k2[m] == x);
                }
                if x == supplied[0] {
                    assert(k2[known.len() as int] == x);
                }
            }
            assert forall|x: Seq<char>| #[trigger] f.contains(x) <==> (x == supplied[0] || f0.contains(x)) by {
                if f.contains(x) && x != supplied[0] {
                    let m = choose|m: int| 0 <= m < f.len() && f[m] == x;
                    assert(f0[m - 1] == x);
                }
                if f0.contains(x) {
                    let m = choose|m: int| 0 <= m < f0.len() && f0[m] == x;
                    assert(f[m + 1] == x);
                }
                if x == supplied[0] {
                    assert(f[0] == x);
                }
            }
            assert forall|i: int, j: int| 0 <= i < f.len() && 0 <= j < f.len() && i != j implies f[i] != f[j] by {
                if i > 0 && j > 0 {
                    assert(f[i] == f0[i - 1] && f[j] == f0[j - 1]);
                } else if i == 0 {
                    assert(f[j] == f0[j - 1]);
                    assert(f0.contains(f0[j - 1]));
                } else {
                    assert(f[i] == f0[i - 1]);
                    assert(f0.contains(f0[i - 1]));
                }
            }
            let idx = seq![0int] + idx0.map_values(|i: int| i + 1);
            assert(picks(f, supplied, idx)) by {
                assert forall|i: int| 0 <= i < idx.len() implies 0 <= #[trigger] idx[i] < supplied.len() && supplied[idx[i]] == f[i] by {
                    if i > 0 {
                        assert(idx[i] == idx0[i - 1] + 1);
                        assert(f[i] == f0[i - 1]);
                    }
                }
                assert forall|i: int, j: int| 0 <= i < j < idx.len() implies idx[i] < idx[j] by {
                    assert(idx[j] == idx0[j - 1] + 1);
                    if i > 0 {
                        assert(idx[i] == idx0[i - 1] + 1);
                    }
                }
            }
            idx
        }
    }
}

/// Merging a persisted word list with supplied words gives the persisted list unchanged,
/// followed by exactly the supplied words that it lacks, in the order supplied, each once;
/// where the persisted list holds no word twice, neither does the result.
pub proof fn lemma_merge_law(persisted: Seq<Seq<char>>, supplied: Seq<Seq<char>>)
    ensures
        merged(persisted, supplied).take(persisted.len() as int) == persisted,
        forall|x: Seq<char>| #[trigger] merged(persisted, supplied).contains(x)
            <==> (persisted.contains(x) || supplied.contains(x)),
        forall|i: int|
            persisted.len() <= i < merged(persisted, supplied).len() ==> !persisted.contains(
                #[trigger] merged(persisted, supplied)[i],
            ),
        fresh(persisted, supplied).no_duplicates(),
        exists|idx: Seq<int>| picks(fresh(persisted, supplied), supplied, idx),
        persisted.no_duplicates() ==> merged(persisted, supplied).no_duplicates(),
{
    let f = fresh(persisted, supplied);
    let m = merged(persisted, supplied);
    let idx = lemma_fresh(persisted, supplied);
    assert(m.take(persisted.len() as int) =~= persisted);
    assert forall|x: Seq<char>| #[trigger] m.contains(x) <==> (persisted.contains(x) || f.contains(x)) by {
        if m.contains(x) {
            let i = choose|i: int| 0 <= i < m.len() && m[i] == x;
            if i >= persisted.len() {
                assert(f[i - persisted.len()] == x);
            }
        }
        if f.contains(x) {
            let i = choose|i: int| 0 <= i < f.len() && f[i] == x;
            assert(m[i + persisted.len()] == x);
        }
        if persisted.contains(x) {
            let i = choose|i: int| 0 <= i < persisted.len() && persisted[i] == x;
            assert(m[i] == x);
        }
    }
    assert forall|i: int| persisted.len() <= i < m.len() implies !persisted.contains(#[trigger] m[i]) by {
        assert(m[i] == f[i - persisted.len()]);
        assert(f.contains(f[i - persisted.len()]));
    }
    if persisted.no_duplicates() {
        assert forall|i: int, j: int| 0 <= i < m.len() && 0 <= j < m.len() && i != j implies m[i] != m[j] by {
            if i >= persisted.len() && j >= persisted.len() {
                assert(m[i] == f[i - persisted.len()] && m[j] == f[j - persisted.len()]);
            } else if i >= persisted.len() {
                assert(persisted.contains(m[j]));
            } else if j >= persisted.len() {
                assert(persisted.contains(m[i]));
            }
        }
    }
}

} // verus!
