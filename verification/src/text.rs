//! Tokenizer: lower-case the raw text, keep only alphabetic characters and
//! non-newline whitespace, then split the result on the space character.
//! The stripping happens before the split, so tabs and newlines never act
//! as separators: adjacent words on different lines merge unless a space
//! stands between them, and runs of spaces yield empty candidate tokens.

use vstd::prelude::*;
use vstd::string::StrSliceExecFns;
use crate::assoc::views_of;

verus! {

/// The lower-cased form of a character sequence, as Unicode case mapping
/// defines it. A deterministic function of the text alone; an empty text
/// stays empty.
pub uninterp spec fn lower_of(s: Seq<char>) -> Seq<char>;

/// Relies on str::to_lowercase: the Unicode lowercase mapping of the text,
/// a deterministic function of the characters alone.
#[verifier::external_body]
fn to_lower(s: &str) -> (r: String)
    ensures
        r@ == lower_of(s@),
{
    s.to_lowercase()
}

/// Whether a character has the Unicode `Alphabetic` property.
pub uninterp spec fn is_alpha(c: char) -> bool;

/// Relies on char::is_alphabetic: true exactly for characters with the
/// Unicode `Alphabetic` property.
#[verifier::external_body]
fn char_alphabetic(c: char) -> (r: bool)
    ensures
        r == is_alpha(c),
{
    c.is_alphabetic()
}

/// Whether a character has the Unicode `White_Space` property.
pub uninterp spec fn is_white(c: char) -> bool;

/// Relies on char::is_whitespace: true exactly for characters with the
/// Unicode `White_Space` property.
#[verifier::external_body]
fn char_whitespace(c: char) -> (r: bool)
    ensures
        r == is_white(c),
{
    c.is_whitespace()
}

/// Relies on String::push: appends the character to the end of the string.
#[verifier::external_body]
fn push_char(s: &mut String, c: char)
    ensures
        final(s)@ == old(s)@.push(c),
{
    s.push(c);
}

/// A character survives the stripping pass when it is alphabetic, or is
/// whitespace other than the newline.
pub open spec fn keep_char(c: char) -> bool {
    is_alpha(c) || (is_white(c) && c != '\n')
}

/// The text after the stripping pass: the subsequence of characters that
/// `keep_char` admits, in order.
pub open spec fn filter_keep(s: Seq<char>) -> Seq<char>
    decreases s.len(),
{
    if s.len() == 0 {
        Seq::empty()
    } else if keep_char(s.last()) {
        filter_keep(s.drop_last()).push(s.last())
    } else {
        filter_keep(s.drop_last())
    }
}

/// The pieces of a character sequence split on the space character. An
/// empty sequence yields one empty piece; every space ends the current
/// piece and opens a new one, so runs of spaces yield empty pieces.
pub open spec fn split_spaces(s: Seq<char>) -> Seq<Seq<char>>
    decreases s.len(),
{
    if s.len() == 0 {
        seq![Seq::<char>::empty()]
    } else if s.last() == ' ' {
        split_spaces(s.drop_last()).push(Seq::empty())
    } else {
        let prev = split_spaces(s.drop_last());
        prev.update(prev.len() - 1, prev.last().push(s.last()))
    }
}

/// Splitting always yields at least one piece.
pub proof fn lemma_split_spaces_len(s: Seq<char>)
    ensures
        split_spaces(s).len() >= 1,
    decreases s.len(),
{
    if s.len() > 0 {
        lemma_split_spaces_len(s.drop_last());
    }
}

/// The candidate tokens of a raw text: lower-case, strip, split on spaces.
pub open spec fn token_seq(text: Seq<char>) -> Seq<Seq<char>> {
    split_spaces(filter_keep(lower_of(text)))
}

/// Turn raw file text into its ordered sequence of candidate tokens.
pub fn tokenize(text: &str) -> (tokens: Vec<String>)
    ensures
        views_of(tokens@) == token_seq(text@),
{
    let lowered = to_lower(text);
    let lowered_str = lowered.as_str();
    let n = lowered_str.unicode_len();
    let mut filtered = String::new();
    let mut i: usize = 0;
    while i < n
        invariant
            n == lowered_str@.len(),
            lowered_str@ == lower_of(text@),
            0 <= i <= n,
            filtered@ == filter_keep(lower_of(text@).subrange(0, i as int)),
        decreases n - i,
    {
        let c = lowered_str.get_char(i);
        proof {
            let pre = lower_of(text@).subrange(0, i as int);
            let post = lower_of(text@).subrange(0, i + 1 as int);
            assert(post.drop_last() =~= pre);
            assert(post.last() == lower_of(text@)[i as int]);
        }
        if char_alphabetic(c) || (char_whitespace(c) && c != '\n') {
            push_char(&mut filtered, c);
        }
        i = i + 1;
    }
    proof {
        assert(lower_of(text@).subrange(0, n as int) =~= lower_of(text@));
    }
    let filtered_str = filtered.as_str();
    let m = filtered_str.unicode_len();
    let mut tokens: Vec<String> = Vec::new();
    let mut cur = String::new();
    let mut j: usize = 0;
    proof {
        assert(views_of(tokens@).push(cur@) =~= split_spaces(
            filter_keep(lower_of(text@)).subrange(0, 0),
        ));
    }
    while j < m
        invariant
            m == filtered_str@.len(),
            filtered_str@ == filter_keep(lower_of(text@)),
            0 <= j <= m,
            views_of(tokens@).push(cur@) == split_spaces(filtered_str@.subrange(0, j as int)),
        decreases m - j,
    {
        let c = filtered_str.get_char(j);
        proof {
            let pre = filtered_str@.subrange(0, j as int);
            let post = filtered_str@.subrange(0, j + 1 as int);
            assert(post.drop_last() =~= pre);
            assert(post.last() == filtered_str@[j as int]);
            lemma_split_spaces_len(pre);
        }
        let ghost old_tokens = tokens@;
        let ghost old_cur = cur@;
        if c == ' ' {
            tokens.push(cur);
            cur = String::new();
            proof {
                assert(views_of(tokens@) =~= views_of(old_tokens).push(old_cur));
                assert(views_of(tokens@).push(cur@) =~= split_spaces(
                    filtered_str@.subrange(0, j + 1 as int),
                ));
            }
        } else {
            push_char(&mut cur, c);
            proof {
                let prev = split_spaces(filtered_str@.subrange(0, j as int));
                assert(prev.last() == old_cur);
                assert(views_of(tokens@).push(cur@) =~= prev.update(
                    prev.len() - 1,
                    prev.last().push(c),
                ));
            }
        }
        j = j + 1;
    }
    proof {
        assert(filtered_str@.subrange(0, m as int) =~= filtered_str@);
    }
    let ghost old_tokens = tokens@;
    let ghost old_cur = cur@;
    tokens.push(cur);
    proof {
        assert(views_of(tokens@) =~= views_of(old_tokens).push(old_cur));
    }
    tokens
}

} // verus!
