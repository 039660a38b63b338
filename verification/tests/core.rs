use stemcount::dict::Dict;
use stemcount::pipeline::process_tokens;
use stemcount::stemmer::stem_and_compare;
use stemcount::stemmer::LangStemmer;
use stemcount::text::tokenize;
use stemcount::unstemmed::Unstemmed;

fn views(v: &[&str]) -> Vec<String> {
    v.iter().map(|s| s.to_string()).collect()
}

#[test]
fn add_counts_occurrences_and_files() {
    let mut d = Dict::new();
    assert_eq!(d.add("foo".to_string(), "a.txt".to_string()), 1);
    assert_eq!(d.add("foo".to_string(), "a.txt".to_string()), 2);
    assert_eq!(d.add("foo".to_string(), "b.txt".to_string()), 3);
    assert_eq!(d.add("bar".to_string(), "a.txt".to_string()), 1);
    let rows = d.sort(1, 0, 0);
    assert_eq!(rows.len(), 2);
    assert_eq!(rows[0].0, "foo");
    assert_eq!(rows[0].1, 3);
    assert_eq!(rows[0].2.len(), 2);
    assert!(rows[0].2.contains(&"a.txt".to_string()));
    assert!(rows[0].2.contains(&"b.txt".to_string()));
    assert_eq!(rows[1].0, "bar");
    assert_eq!(rows[1].1, 1);
    assert_eq!(rows[1].2, vec!["a.txt".to_string()]);
}

#[test]
fn repeated_file_grows_amount_not_spread() {
    let mut d = Dict::new();
    d.add("w".to_string(), "a.txt".to_string());
    d.add("w".to_string(), "a.txt".to_string());
    let rows = d.sort(1, 0, 0);
    assert_eq!(rows.len(), 1);
    assert_eq!(rows[0].1, 2);
    assert_eq!(rows[0].2, vec!["a.txt".to_string()]);
}

#[test]
fn example_scenario_book_car() {
    let mut d = Dict::new();
    d.add("book".to_string(), "a.txt".to_string());
    d.add("book".to_string(), "b.txt".to_string());
    d.add("book".to_string(), "a.txt".to_string());
    d.add("car".to_string(), "a.txt".to_string());
    let rows = d.sort(2, 1, 2);
    assert_eq!(rows.len(), 1);
    assert_eq!(rows[0].0, "book");
    assert_eq!(rows[0].1, 3);
    assert_eq!(rows[0].2.len(), 2);
    assert!(rows[0].2.contains(&"a.txt".to_string()));
    assert!(rows[0].2.contains(&"b.txt".to_string()));
}

#[test]
fn filter_thresholds_are_strict_where_documented() {
    let mut d = Dict::new();
    // "gerbil" is in exactly two files, with three occurrences.
    d.add("gerbil".to_string(), "a.txt".to_string());
    d.add("gerbil".to_string(), "b.txt".to_string());
    d.add("gerbil".to_string(), "b.txt".to_string());
    // filenum is a strict bound: 2 files must beat it.
    assert_eq!(d.sort(2, 2, 2).len(), 0);
    let mut d = Dict::new();
    d.add("gerbil".to_string(), "a.txt".to_string());
    d.add("gerbil".to_string(), "b.txt".to_string());
    d.add("gerbil".to_string(), "b.txt".to_string());
    assert_eq!(d.sort(3, 1, 5).len(), 1);
    // length is strict too: a six-grapheme stem fails a bound of 6.
    let mut d = Dict::new();
    d.add("gerbil".to_string(), "a.txt".to_string());
    d.add("gerbil".to_string(), "b.txt".to_string());
    assert_eq!(d.sort(1, 1, 6).len(), 0);
}

#[test]
fn sort_is_non_increasing_by_amount() {
    let mut d = Dict::new();
    for _ in 0..2 {
        d.add("aa".to_string(), "f".to_string());
    }
    for _ in 0..5 {
        d.add("bb".to_string(), "f".to_string());
    }
    for _ in 0..3 {
        d.add("cc".to_string(), "f".to_string());
    }
    let rows = d.sort(1, 0, 1);
    let amounts: Vec<usize> = rows.iter().map(|r| r.1).collect();
    assert_eq!(amounts, vec![5, 3, 2]);
    assert_eq!(rows[0].0, "bb");
    assert_eq!(rows[1].0, "cc");
    assert_eq!(rows[2].0, "aa");
}

#[test]
fn tokenize_lowercases_and_splits_on_spaces() {
    let toks = tokenize("Hello World");
    assert_eq!(toks, views(&["hello", "world"]));
}

#[test]
fn tokenize_strips_punctuation_and_digits() {
    let toks = tokenize("ab1c, def!");
    assert_eq!(toks, views(&["abc", "def"]));
}

#[test]
fn tokenize_strips_newlines_but_keeps_other_whitespace() {
    // Newlines are stripped before splitting, so adjacent words on
    // different lines merge; a tab is whitespace other than newline and
    // survives inside its token, since only spaces separate tokens.
    let toks = tokenize("one\ntwo\tthree four");
    assert_eq!(toks, views(&["onetwo\tthree", "four"]));
}

#[test]
fn tokenize_keeps_empty_pieces_between_spaces() {
    let toks = tokenize("a  b");
    assert_eq!(toks, views(&["a", "", "b"]));
    assert_eq!(tokenize(""), views(&[""]));
}

#[test]
fn stemmer_maps_inflected_forms_together() {
    let en = LangStemmer::new(true);
    assert_eq!(en.stem("books"), en.stem("book"));
    assert_ne!(en.stem("books"), en.stem("car"));
}

#[test]
fn exclusion_matches_by_stem_not_literally() {
    let en = LangStemmer::new(true);
    let excl = views(&["book"]);
    assert!(stem_and_compare(&en, "books", &excl));
    assert!(!stem_and_compare(&en, "cars", &excl));
    let empty: Vec<String> = Vec::new();
    assert!(!stem_and_compare(&en, "books", &empty));
}

#[test]
fn process_tokens_aggregates_stems() {
    let ru = LangStemmer::new(false);
    let en = LangStemmer::new(true);
    let mut ru_dict = Dict::new();
    let mut en_dict = Dict::new();
    let mut unstemmed = Unstemmed::new();
    let exclude: Vec<String> = Vec::new();
    let tokens = tokenize("Books book booked");
    assert!(ru_dict.can_take(tokens.len()) && en_dict.can_take(tokens.len()));
    process_tokens(
        &mut ru_dict,
        &mut en_dict,
        &mut unstemmed,
        &ru,
        &en,
        &tokens,
        &"a.txt".to_string(),
        &exclude,
    );
    let rows = en_dict.sort(1, 0, 0);
    assert_eq!(rows.len(), 1);
    assert_eq!(rows[0].1, 3);
    // The representative surface form is the first-seen (lower-cased) word.
    let rep = unstemmed.get(&rows[0].0);
    assert_eq!(rep, Some(&"books".to_string()));
    assert!(ru_dict.sort(1, 0, 0).is_empty());
}

#[test]
fn process_tokens_routes_non_ascii_to_russian_bucket() {
    let ru = LangStemmer::new(false);
    let en = LangStemmer::new(true);
    let mut ru_dict = Dict::new();
    let mut en_dict = Dict::new();
    let mut unstemmed = Unstemmed::new();
    let exclude: Vec<String> = Vec::new();
    let tokens = tokenize("Привет привет hello");
    process_tokens(
        &mut ru_dict,
        &mut en_dict,
        &mut unstemmed,
        &ru,
        &en,
        &tokens,
        &"ru.txt".to_string(),
        &exclude,
    );
    let ru_rows = ru_dict.sort(1, 0, 0);
    assert_eq!(ru_rows.len(), 1);
    assert_eq!(ru_rows[0].1, 2);
    assert_eq!(unstemmed.get(&ru_rows[0].0), Some(&"привет".to_string()));
    let en_rows = en_dict.sort(1, 0, 0);
    assert_eq!(en_rows.len(), 1);
    assert_eq!(en_rows[0].1, 1);
    assert_eq!(unstemmed.get(&en_rows[0].0), Some(&"hello".to_string()));
}

#[test]
fn excluded_words_reach_no_dictionary() {
    let ru = LangStemmer::new(false);
    let en = LangStemmer::new(true);
    let mut ru_dict = Dict::new();
    let mut en_dict = Dict::new();
    let mut unstemmed = Unstemmed::new();
    // The exclusion entry is inflected differently from the token; both
    // stem to the same root, so the token is dropped.
    let exclude = views(&["booking"]);
    let tokens = tokenize("books car");
    process_tokens(
        &mut ru_dict,
        &mut en_dict,
        &mut unstemmed,
        &ru,
        &en,
        &tokens,
        &"a.txt".to_string(),
        &exclude,
    );
    let rows = en_dict.sort(1, 0, 0);
    assert_eq!(rows.len(), 1);
    assert_eq!(unstemmed.get(&rows[0].0), Some(&"car".to_string()));
}

#[test]
fn multiple_files_accumulate() {
    let ru = LangStemmer::new(false);
    let en = LangStemmer::new(true);
    let mut ru_dict = Dict::new();
    let mut en_dict = Dict::new();
    let mut unstemmed = Unstemmed::new();
    let exclude: Vec<String> = Vec::new();
    for fname in ["a.txt", "b.txt", "c.txt"] {
        let tokens = tokenize("wombat wombats");
        process_tokens(
            &mut ru_dict,
            &mut en_dict,
            &mut unstemmed,
            &ru,
            &en,
            &tokens,
            &fname.to_string(),
            &exclude,
        );
    }
    // filenum = 2 demands strictly more than two files; three qualify.
    let rows = en_dict.sort(2, 2, 5);
    assert_eq!(rows.len(), 1);
    assert_eq!(rows[0].1, 6);
    assert_eq!(rows[0].2.len(), 3);
}

#[test]
fn can_take_reports_headroom() {
    let mut d = Dict::new();
    assert!(d.can_take(usize::MAX));
    d.add("w".to_string(), "a".to_string());
    assert!(d.can_take(usize::MAX - 1));
    assert!(!d.can_take(usize::MAX));
}
