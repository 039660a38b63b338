//! The per-file processing pass: classify each candidate token by character
//! set, drop excluded tokens, and accumulate the rest, stemmed, into the
//! language bucket's dictionary, recording a first-seen surface form for
//! every new stem.

use vstd::prelude::*;
use vstd::utf8::is_ascii_chars;
use crate::assoc::views_of;
use crate::dict::Dict;
use crate::dict::EntryModel;
use crate::dict::spec_add;
use crate::stemmer::LangStemmer;
use crate::stemmer::excluded;
use crate::stemmer::stem_and_compare;
use crate::stemmer::stem_of;
use crate::unstemmed::Unstemmed;

verus! {

/// A token belongs to a pass over one bucket when its character set matches
/// the bucket (all-ASCII tokens are English-class, the rest Russian-class)
/// and its stem is not excluded under that bucket's stemmer.
pub open spec fn token_selected(w: Seq<char>, english: bool, excl: Seq<Seq<char>>) -> bool {
    is_ascii_chars(w) == english && !excluded(english, w, excl)
}

/// The dictionary model after one pass of the token sequence over one
/// bucket: every selected token adds one occurrence of its stem from the
/// given file.
pub open spec fn dict_after_pass(
    m: Map<Seq<char>, EntryModel>,
    tokens: Seq<Seq<char>>,
    english: bool,
    file: Seq<char>,
    excl: Seq<Seq<char>>,
) -> Map<Seq<char>, EntryModel>
    decreases tokens.len(),
{
    if tokens.len() == 0 {
        m
    } else {
        let prev = dict_after_pass(m, tokens.drop_last(), english, file, excl);
        if token_selected(tokens.last(), english, excl) {
            spec_add(prev, stem_of(english, tokens.last()), file)
        } else {
            prev
        }
    }
}

/// The surface-form map after one pass: each selected token whose stem is
/// still unknown records itself as the stem's representative; first writer
/// wins.
pub open spec fn unstemmed_after_pass(
    u: Map<Seq<char>, Seq<char>>,
    tokens: Seq<Seq<char>>,
    english: bool,
    excl: Seq<Seq<char>>,
) -> Map<Seq<char>, Seq<char>>
    decreases tokens.len(),
{
    if tokens.len() == 0 {
        u
    } else {
        let prev = unstemmed_after_pass(u, tokens.drop_last(), english, excl);
        let w = tokens.last();
        if token_selected(w, english, excl) && !prev.contains_key(stem_of(english, w)) {
            prev.insert(stem_of(english, w), w)
        } else {
            prev
        }
    }
}

/// Run one bucket's pass over the tokens of a file.
pub fn run_pass(
    dict: &mut Dict,
    unstemmed: &mut Unstemmed,
    stemmer: &LangStemmer,
    tokens: &Vec<String>,
    fname: &String,
    exclude: &Vec<String>,
    english: bool,
)
    requires
        old(dict).wf(),
        old(unstemmed).wf(),
        stemmer.english() == english,
        forall|k: Seq<char>|
            #[trigger] old(dict)@.contains_key(k) ==> old(dict)@[k].amount + tokens@.len()
                <= usize::MAX,
    ensures
        final(dict).wf(),
        final(unstemmed).wf(),
        final(dict)@ == dict_after_pass(
            old(dict)@,
            views_of(tokens@),
            english,
            fname@,
            views_of(exclude@),
        ),
        final(unstemmed)@ == unstemmed_after_pass(
            old(unstemmed)@,
            views_of(tokens@),
            english,
            views_of(exclude@),
        ),
{
    let ghost m0 = old(dict)@;
    let ghost u0 = old(unstemmed)@;
    let ghost toks = views_of(tokens@);
    let ghost excl = views_of(exclude@);
    let len = tokens.len();
    let mut i: usize = 0;
    while i < len
        invariant
            dict.wf(),
            unstemmed.wf(),
            stemmer.english() == english,
            m0 == old(dict)@,
            u0 == old(unstemmed)@,
            toks == views_of(tokens@),
            excl == views_of(exclude@),
            len == tokens@.len(),
            0 <= i <= len,
            dict@ == dict_after_pass(m0, toks.subrange(0, i as int), english, fname@, excl),
            unstemmed@ == unstemmed_after_pass(u0, toks.subrange(0, i as int), english, excl),
            forall|k: Seq<char>|
                #[trigger] dict@.contains_key(k) ==> dict@[k].amount + (len - i) <= usize::MAX,
        decreases len - i,
    {
        let ghost processed = toks.subrange(0, i as int);
        let ghost processed1 = toks.subrange(0, i + 1 as int);
        proof {
            assert(processed1.drop_last() =~= processed);
            assert(processed1.last() == toks[i as int]);
        }
        let ghost dict_pre = dict@;
        let w = &tokens[i];
        let ascii = w.as_str().is_ascii();
        if ascii == english {
            let stem = stemmer.stem(w.as_str());
            if !stem_and_compare(stemmer, w.as_str(), exclude) {
                proof {
                    assert(token_selected(toks[i as int], english, excl));
                }
                let stem_for_dict = stem.clone();
                dict.add(stem_for_dict, fname.clone());
                proof {
                    assert(dict@ == spec_add(dict_pre, stem_of(english, toks[i as int]), fname@));
                    assert forall|k: Seq<char>| #[trigger] dict@.contains_key(k) implies dict@[
                        k
                    ].amount + (len - (i + 1)) <= usize::MAX by {
                        if k != stem@ {
                            assert(dict_pre.contains_key(k) && dict@[k] == dict_pre[k]);
                        }
                    }
                }
                if !unstemmed.contains_key(&stem) {
                    unstemmed.insert(stem, w.clone());
                }
            } else {
                proof {
                    assert(!token_selected(toks[i as int], english, excl));
                }
            }
        } else {
            proof {
                assert(is_ascii_chars(toks[i as int]) != english);
                assert(!token_selected(toks[i as int], english, excl));
            }
        }
        i = i + 1;
    }
    proof {
        assert(toks.subrange(0, len as int) =~= toks);
    }
}

/// Process one file's candidate tokens into both language buckets, as the
/// main pass does: first every Russian-class token, then every
/// English-class token, sharing one surface-form map.
pub fn process_tokens(
    ru_dict: &mut Dict,
    en_dict: &mut Dict,
    unstemmed: &mut Unstemmed,
    ru_stemmer: &LangStemmer,
    en_stemmer: &LangStemmer,
    tokens: &Vec<String>,
    fname: &String,
    exclude: &Vec<String>,
)
    requires
        old(ru_dict).wf(),
        old(en_dict).wf(),
        old(unstemmed).wf(),
        !ru_stemmer.english(),
        en_stemmer.english(),
        forall|k: Seq<char>|
            #[trigger] old(ru_dict)@.contains_key(k) ==> old(ru_dict)@[k].amount + tokens@.len()
                <= usize::MAX,
        forall|k: Seq<char>|
            #[trigger] old(en_dict)@.contains_key(k) ==> old(en_dict)@[k].amount + tokens@.len()
                <= usize::MAX,
    ensures
        final(ru_dict).wf(),
        final(en_dict).wf(),
        final(unstemmed).wf(),
        final(ru_dict)@ == dict_after_pass(
            old(ru_dict)@,
            views_of(tokens@),
            false,
            fname@,
            views_of(exclude@),
        ),
        final(en_dict)@ == dict_after_pass(
            old(en_dict)@,
            views_of(tokens@),
            true,
            fname@,
            views_of(exclude@),
        ),
        final(unstemmed)@ == unstemmed_after_pass(
            unstemmed_after_pass(old(unstemmed)@, views_of(tokens@), false, views_of(exclude@)),
            views_of(tokens@),
            true,
            views_of(exclude@),
        ),
{
    run_pass(ru_dict, unstemmed, ru_stemmer, tokens, fname, exclude, false);
    run_pass(en_dict, unstemmed, en_stemmer, tokens, fname, exclude, true);
}

/// Law: a token whose stem is excluded under its bucket's stemmer
/// contributes to no dictionary entry — removing it from the token
/// sequence leaves the bucket's dictionary unchanged.
pub proof fn lemma_excluded_token_no_effect(
    m: Map<Seq<char>, EntryModel>,
    tokens: Seq<Seq<char>>,
    i: int,
    english: bool,
    file: Seq<char>,
    excl: Seq<Seq<char>>,
)
    requires
        0 <= i < tokens.len(),
        excluded(english, tokens[i], excl),
    ensures
        dict_after_pass(m, tokens, english, file, excl) == dict_after_pass(
            m,
            tokens.remove(i),
            english,
            file,
            excl,
        ),
    decreases tokens.len(),
{
    if i == tokens.len() - 1 {
        assert(tokens.remove(i) =~= tokens.drop_last());
        assert(!token_selected(tokens.last(), english, excl));
    } else {
        let shorter = tokens.drop_last();
        let removed = tokens.remove(i);
        assert(shorter[i] == tokens[i]);
        lemma_excluded_token_no_effect(m, shorter, i, english, file, excl);
        assert(removed.drop_last() =~= shorter.remove(i));
        assert(removed.last() == tokens.last());
    }
}

} // verus!
