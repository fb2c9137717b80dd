use vstd::prelude::*;
use vstd::string::StringExecFns;

use crate::session::SpellError;
use crate::text::{chars_of, push_char};

verus! {

/// The language assumed when none can be told from the affix file's name.
pub open spec fn default_language() -> Seq<char> {
    seq!['e', 'n', '_', 'U', 'S']
}

/// A character that separates the parts of a path.
pub open spec fn is_separator(c: char) -> bool {
    c == '/' || c == '\\'
}

/// Where the last part of path `p` starts: just after its last separator, or 0.
pub open spec fn name_start(p: Seq<char>) -> int
    decreases p.len(),
{
    if p.len() == 0 {
        0
    } else if is_separator(p.last()) {
        p.len() as int
    } else {
        name_start(p.drop_last())
    }
}

/// Where the last dot of `b` stands, or -1.
pub open spec fn last_dot(b: Seq<char>) -> int
    decreases b.len(),
{
    if b.len() == 0 {
        -1
    } else if b.last() == '.' {
        b.len() - 1
    } else {
        last_dot(b.drop_last())
    }
}

/// The file name in path `p` without its extension; a leading dot starts no extension.
pub open spec fn stem(p: Seq<char>) -> Seq<char> {
    let b = p.subrange(name_start(p), p.len() as int);
    if last_dot(b) > 0 {
        b.take(last_dot(b))
    } else {
        b
    }
}

/// The language code of an affix file: its name without extension, or `en_US` when that
/// is empty.
pub open spec fn language_of(affix_path: Seq<char>) -> Seq<char> {
    if stem(affix_path).len() == 0 {
        default_language()
    } else {
        stem(affix_path)
    }
}

proof fn lemma_name_start_bounds(p: Seq<char>)
    ensures
        0 <= name_start(p) <= p.len(),
    decreases p.len(),
{
    if p.len() > 0 {
        lemma_name_start_bounds(p.drop_last());
    }
}

proof fn lemma_last_dot_bounds(b: Seq<char>)
    ensures
        -1 <= last_dot(b) < b.len(),
    decreases b.len(),
{
    if b.len() > 0 {
        lemma_last_dot_bounds(b.drop_last());
    }
}

/// The language code that the affix file at `affix_path` stands for.
pub fn language_code(affix_path: &str) -> (r: String)
    ensures
        r@ == language_of(affix_path@),
{
    let cs = chars_of(affix_path);
    let ghost p = cs@;
    let mut start: usize = 0;
    let mut i: usize = 0;
    proof {
        assert(p.take(0) =~= Seq::<char>::empty());
    }
    while i < cs.len()
        invariant
            p == cs@,
            p == affix_path@,
            i <= cs.len(),
            start as int == name_start(p.take(i as int)),
        decreases cs.len() - i,
    {
        proof {
            assert(p.take(i + 1).drop_last() =~= p.take(i as int));
        }
        if cs[i] == '/' || cs[i] == '\\' {
            start = i + 1;
        }
        i = i + 1;
    }
    proof {
        assert(p.take(p.len() as int) =~= p);
        lemma_name_start_bounds(p);
    }
    let ghost b = p.subrange(start as int, p.len() as int);
    let mut dot: usize = 0;
    let mut found = false;
    let mut j: usize = start;
    proof {
        assert(b.take(0) =~= Seq::<char>::empty());
    }
    while j < cs.len()
        invariant
            p == cs@,
            start <= j <= cs.len(),
            b == p.subrange(start as int, p.len() as int),
            found ==> start <= dot < j && last_dot(b.take(j - start)) == dot - start,
            !found ==> last_dot(b.take(j - start)) == -1,
        decreases cs.len() - j,
    {
        proof {
            assert(b.take(j - start + 1).drop_last() =~= b.take(j - start));
            assert(b.take(j - start + 1).last() == cs@[j as int]);
        }
        if cs[j] == '.' {
            dot = j;
            found = true;
        }
        j = j + 1;
    }
    proof {
        assert(b.take(b.len() as int) =~= b);
    }
    let end: usize = if found && dot > start {
        dot
    } else {
        cs.len()
    };
    proof {
        lemma_last_dot_bounds(b);
        if found && dot > start {
            assert(p.subrange(start as int, end as int) =~= b.take(last_dot(b)));
        } else {
            assert(p.subrange(start as int, end as int) =~= b);
        }
    }
    if end == start {
        proof {
            reveal_strlit("en_US");
            assert("en_US"@ =~= default_language());
        }
        return String::from_str("en_US");
    }
    let mut r = String::new();
    let mut k: usize = start;
    while k < end
        invariant
            p == cs@,
            start <= k <= end <= cs.len(),
            r@ == p.subrange(start as int, k as int),
        decreases end - k,
    {
        push_char(&mut r, cs[k]);
        proof {
            assert(r@ =~= p.subrange(start as int, k + 1));
        }
        k = k + 1;
    }
    r
}

/// A pair of an affix file and a dictionary file.
#[derive(Debug)]
pub struct DictionaryPair {
    pub affix: String,
    pub dictionary: String,
}

impl View for DictionaryPair {
    type V = (Seq<char>, Seq<char>);

    open spec fn view(&self) -> (Seq<char>, Seq<char>) {
        (self.affix@, self.dictionary@)
    }
}

/// The directories searched for a language's files when the paths given do not exist,
/// in order.
pub open spec fn fallback_dirs() -> Seq<Seq<char>> {
    seq![
        "dictionaries/"@,
        "../dictionaries/"@,
        "src-tauri/dictionaries/"@,
        "resources/dictionaries/"@,
    ]
}

/// The pair that directory `dir` holds for `language`.
pub open spec fn pair_in(dir: Seq<char>, language: Seq<char>) -> (Seq<char>, Seq<char>) {
    (dir + language + ".aff"@, dir + language + ".dic"@)
}

/// The pairs to try, in order: the paths given, then each fallback directory.
pub open spec fn candidates(affix: Seq<char>, dictionary: Seq<char>, language: Seq<char>) -> Seq<(Seq<char>, Seq<char>)> {
    seq![(affix, dictionary)] + fallback_dirs().map_values(|d: Seq<char>| pair_in(d, language))
}

fn pair_under(dir: &str, language: &str) -> (r: DictionaryPair)
    ensures
        r@ == pair_in(dir@, language@),
{
    let mut affix = String::from_str(dir);
    affix.append(language);
    affix.append(".aff");
    let mut dictionary = String::from_str(dir);
    dictionary.append(language);
    dictionary.append(".dic");
    DictionaryPair { affix, dictionary }
}

/// The affix/dictionary pairs to look for, in the order they are tried.
pub fn candidate_pairs(affix_path: &str, dictionary_path: &str, language: &str) -> (r: Vec<DictionaryPair>)
    ensures
        r@.map_values(|q: DictionaryPair| q@) == candidates(affix_path@, dictionary_path@, language@),
{
    let mut r: Vec<DictionaryPair> = Vec::new();
    r.push(DictionaryPair { affix: String::from_str(affix_path), dictionary: String::from_str(dictionary_path) });
    r.push(pair_under("dictionaries/", language));
    r.push(pair_under("../dictionaries/", language));
    r.push(pair_under("src-tauri/dictionaries/", language));
    r.push(pair_under("resources/dictionaries/", language));
    assert(r@.map_values(|q: DictionaryPair| q@) =~= candidates(affix_path@, dictionary_path@, language@));
    r
}

/// The first candidate pair whose two files both exist (`present`), or `DictionaryNotFound`
/// for `language` when there is none.
pub fn resolve_dictionary_pair(candidates: &Vec<DictionaryPair>, present: &Vec<bool>, language: &String) -> (r: Result<DictionaryPair, SpellError>)
    requires
        present.len() == candidates.len(),
    ensures
        r is Ok <==> exists|i: int| 0 <= i < present.len() && present[i],
        r is Ok ==> exists|i: int|
            0 <= i < present.len() && present[i] && (forall|j: int| 0 <= j < i ==> !present[j])
                && r->Ok_0@ == candidates[i]@,
        r is Err ==> r->Err_0 is DictionaryNotFound && r->Err_0->DictionaryNotFound_0@ == language@,
{
    let mut i: usize = 0;
    while i < candidates.len()
        invariant
            i <= candidates.len(),
            present.len() == candidates.len(),
            forall|j: int| 0 <= j < i ==> !present[j],
        decreases candidates.len() - i,
    {
        if present[i] {
            let q = &candidates[i];
            return Ok(DictionaryPair { affix: q.affix.clone(), dictionary: q.dictionary.clone() });
        }
        i = i + 1;
    }
    Err(SpellError::DictionaryNotFound(language.clone()))
}

/// The language codes offered for checking.
pub open spec fn offered_languages() -> Seq<Seq<char>> {
    seq!["en_US"@, "en_GB"@, "de_DE"@, "fr_FR"@, "es_ES"@]
}

/// The language codes offered for checking; a fixed list.
pub fn available_languages() -> (r: Vec<String>)
    ensures
        r@.map_values(|l: String| l@) == offered_languages(),
{
    let mut r: Vec<String> = Vec::new();
    r.push(String::from_str("en_US"));
    r.push(String::from_str("en_GB"));
    r.push(String::from_str("de_DE"));
    r.push(String::from_str("fr_FR"));
    r.push(String::from_str("es_ES"));
    assert(r@.map_values(|l: String| l@) =~= offered_languages());
    r
}

} // verus!
