use vstd::prelude::*;

use crate::check::{is_custom_word, views};
use crate::words::{ends_line, lemma_append_line, line_words, trimmed, word_list};

verus! {

/// Why a spell-check operation failed.
#[derive(Debug)]
pub enum SpellError {
    /// Checking or suggesting was asked for before initialization succeeded.
    NotInitialized,
    /// No affix/dictionary file pair exists for the language.
    DictionaryNotFound(String),
    /// A file or directory could not be read, written or created.
    Io(String),
    /// The session state could not be locked.
    Lock(String),
}

/// `words` after `w` has been added: unchanged when it holds `w`, else `w` comes last.
pub open spec fn with_word(words: Seq<Seq<char>>, w: Seq<char>) -> Seq<Seq<char>> {
    if words.contains(w) {
        words
    } else {
        words.push(w)
    }
}

/// The state of spell checking: the language in use once initialized, and the custom words
/// in the order they were taken in.
#[derive(Debug)]
pub struct SpellSession {
    pub language: Option<String>,
    pub custom_words: Vec<String>,
}

impl SpellSession {
    /// A session that is not initialized yet.
    pub fn new() -> (r: SpellSession)
        ensures
            r.language is None,
            r.custom_words@.len() == 0,
    {
        SpellSession { language: None, custom_words: Vec::new() }
    }

    /// Whether initialization has succeeded.
    pub fn is_initialized(&self) -> (r: bool)
        ensures
            r == self.language is Some,
    {
        self.language.is_some()
    }

    /// Succeeds when the session is initialized, else fails with `NotInitialized`.
    pub fn require_initialized(&self) -> (r: Result<(), SpellError>)
        ensures
            r is Ok <==> self.language is Some,
            r is Err ==> r->Err_0 is NotInitialized,
    {
        if self.language.is_some() {
            Ok(())
        } else {
            Err(SpellError::NotInitialized)
        }
    }

    /// Enters the initialized state with `language` and the merged custom word list,
    /// replacing whatever was there.
    pub fn initialize(&mut self, language: String, words: Vec<String>)
        ensures
            final(self).language == Some(language),
            final(self).custom_words == words,
    {
        self.language = Some(language);
        self.custom_words = words;
    }

    /// Adds `word` to the custom words unless it is there already; answers whether it was
    /// added, that is whether a line for it is still to be appended to the custom
    /// dictionary file.
    pub fn add_custom_word(&mut self, word: String) -> (added: bool)
        ensures
            added == !views(old(self).custom_words@).contains(word@),
            views(final(self).custom_words@) == with_word(views(old(self).custom_words@), word@),
            final(self).language == old(self).language,
    {
        if is_custom_word(&self.custom_words, &word) {
            false
        } else {
            let ghost before = self.custom_words@;
            let ghost w = word@;
            self.custom_words.push(word);
            proof {
                assert(views(self.custom_words@) =~= views(before).push(w));
            }
            true
        }
    }
}

/// Whether the merged custom word list is to be written back: when the file did not exist
/// yet, or when the merge added a word to what it held.
pub fn should_persist(file_existed: bool, persisted: &Vec<String>, merged: &Vec<String>) -> (r: bool)
    ensures
        r == (!file_existed || merged@.len() != persisted@.len()),
{
    !file_existed || merged.len() != persisted.len()
}

/// A word just added is among the custom words; where they held no word twice, they still
/// hold none twice, so the word stands there once.
pub proof fn lemma_added_word_present_once(words: Seq<Seq<char>>, w: Seq<char>)
    ensures
        with_word(words, w).contains(w),
        words.no_duplicates() ==> with_word(words, w).no_duplicates(),
        words.no_duplicates() ==> with_word(words, w).filter(|x: Seq<char>| x == w).len() == 1,
{
    let r = with_word(words, w);
    if !words.contains(w) {
        assert(r[words.len() as int] == w);
    }
    if words.no_duplicates() {
        if !words.contains(w) {
            assert forall|i: int, j: int| 0 <= i < r.len() && 0 <= j < r.len() && i != j implies r[i] != r[j] by {
                if i == words.len() {
                    assert(words.contains(r[j]));
                } else if j == words.len() {
                    assert(words.contains(r[i]));
                }
            }
        }
        lemma_unique_filter_one(r, w);
    }
}

proof fn lemma_unique_filter_one(s: Seq<Seq<char>>, w: Seq<char>)
    requires
        s.no_duplicates(),
        s.contains(w),
    ensures
        s.filter(|x: Seq<char>| x == w).len() == 1,
    decreases s.len(),
{
    let f = |x: Seq<char>| x == w;
    reveal(Seq::filter);
    let d = s.drop_last();
    if s.last() == w {
        assert(!d.contains(w)) by {
            if d.contains(w) {
                let i = choose|i: int| 0 <= i < d.len() && d[i] == w;
                assert(s[i] == s[s.len() - 1]);
            }
        }
        lemma_absent_filter_empty(d, w);
        assert(s.filter(f) == d.filter(f).push(w));
    } else {
        let i = choose|i: int| 0 <= i < s.len() && s[i] == w;
        assert(d[i] == w);
        assert(d.no_duplicates()) by {
            assert forall|a: int, b: int| 0 <= a < d.len() && 0 <= b < d.len() && a != b implies d[a] != d[b] by {
                assert(d[a] == s[a] && d[b] == s[b]);
            }
        }
        lemma_unique_filter_one(d, w);
    }
}

proof fn lemma_absent_filter_empty(s: Seq<Seq<char>>, w: Seq<char>)
    requires
        !s.contains(w),
    ensures
        s.filter(|x: Seq<char>| x == w).len() == 0,
    decreases s.len(),
{
    reveal(Seq::filter);
    if s.len() > 0 {
        let d = s.drop_last();
        assert(!d.contains(w)) by {
            if d.contains(w) {
                let i = choose|i: int| 0 <= i < d.len() && d[i] == w;
                assert(s[i] == w);
            }
        }
        lemma_absent_filter_empty(d, w);
        assert(s[s.len() - 1] != w);
    }
}

/// When the custom dictionary file lists the custom words, each once, adding a word that
/// is new, and that trimming leaves as it is, puts it in the list and, through its appended
/// line, in the file: once in each, and the file still lists the custom words.
pub proof fn lemma_added_word_recorded_once(content: Seq<char>, words: Seq<Seq<char>>, w: Seq<char>)
    requires
        ends_line(content),
        word_list(content) == words,
        words.no_duplicates(),
        !words.contains(w),
        w.len() > 0,
        trimmed(w) == w,
        forall|i: int| 0 <= i < w.len() ==> w[i] != '\n',
    ensures
        word_list(content + (w + seq!['\n'])) == with_word(words, w),
        with_word(words, w).filter(|x: Seq<char>| x == w).len() == 1,
{
    lemma_append_line(content, w);
    assert(line_words(w) == seq![w]);
    assert(words + seq![w] =~= words.push(w));
    lemma_added_word_present_once(words, w);
}

} // verus!
