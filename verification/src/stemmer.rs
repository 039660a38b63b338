//! Stemmer adapter: two fixed Snowball stemming algorithms (Russian and
//! English), each a pure, deterministic function from a word to its root
//! string, consumed here as an external capability.

use vstd::prelude::*;
use crate::assoc::views_of;

verus! {

#[verifier::external_type_specification]
#[verifier::external_body]
pub struct ExStemmer(rust_stemmers::Stemmer);

/// The root string that the fixed stemming algorithm for the given bucket
/// (English when `english`, Russian otherwise) assigns to a word. The
/// algorithms are deterministic functions of the word alone, so their
/// results can be named; nothing further is assumed about them.
pub uninterp spec fn stem_of(english: bool, w: Seq<char>) -> Seq<char>;

/// A stemmer for one language bucket.
pub struct LangStemmer {
    english: bool,
    inner: rust_stemmers::Stemmer,
}

impl LangStemmer {
    /// Which bucket this stemmer serves: English when true, Russian otherwise.
    pub closed spec fn english(&self) -> bool {
        self.english
    }

    /// Relies on rust_stemmers::Stemmer::create: builds the Snowball stemmer
    /// for the requested algorithm.
    #[verifier::external_body]
    pub fn new(english: bool) -> (st: Self)
        ensures
            st.english() == english,
    {
        let alg = if english {
            rust_stemmers::Algorithm::English
        } else {
            rust_stemmers::Algorithm::Russian
        };
        LangStemmer { english, inner: rust_stemmers::Stemmer::create(alg) }
    }

    /// Relies on rust_stemmers::Stemmer::stem: the root of the word under
    /// this stemmer's algorithm, a deterministic function of the word.
    #[verifier::external_body]
    pub fn stem(&self, w: &str) -> (r: String)
        ensures
            r@ == stem_of(self.english(), w@),
    {
        self.inner.stem(w).into_owned()
    }
}

/// A word is excluded when its stem, under the bucket's stemmer, equals the
/// stem of some word of the exclusion list under that same stemmer.
pub open spec fn excluded(english: bool, w: Seq<char>, excl: Seq<Seq<char>>) -> bool {
    exists|i: int| 0 <= i < excl.len() && stem_of(english, excl[i]) == stem_of(english, w)
}

/// Decide whether `word` is excluded: stem every entry of `excl` with the
/// given stemmer and compare against the stem of `word`.
pub fn stem_and_compare(stemmer: &LangStemmer, word: &str, excl: &Vec<String>) -> (b: bool)
    ensures
        b == excluded(stemmer.english(), word@, views_of(excl@)),
{
    let target = stemmer.stem(word);
    let n = excl.len();
    let mut i: usize = 0;
    while i < n
        invariant
            n == excl@.len(),
            0 <= i <= n,
            forall|j: int| 0 <= j < i
                ==> stem_of(stemmer.english(), #[trigger] views_of(excl@)[j])
                    != stem_of(stemmer.english(), word@),
            target@ == stem_of(stemmer.english(), word@),
        decreases n - i,
    {
        let candidate = stemmer.stem(excl[i].as_str());
        if candidate == target {
            assert(views_of(excl@)[i as int] == excl@[i as int]@);
            return true;
        }
        i = i + 1;
    }
    false
}

} // verus!
