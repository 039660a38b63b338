//! The frequency dictionary: per-stem statistics (occurrence count and the
//! set of files the stem occurred in), accumulated by `add` and consumed by
//! `sort`, which yields the filtered report rows ranked by count.

use vstd::prelude::*;
use unicode_segmentation::UnicodeSegmentation;
use crate::assoc::assoc_at;
use crate::assoc::assoc_has;
use crate::assoc::assoc_map;
use crate::assoc::keys_distinct;
use crate::assoc::lemma_assoc_at_unique;
use crate::assoc::lemma_assoc_push_new;
use crate::assoc::lemma_assoc_update;
use crate::assoc::views_of;

verus! {

/// The number of extended grapheme clusters of a character sequence, as
/// Unicode text segmentation defines them. A deterministic function of the
/// characters alone.
pub uninterp spec fn grapheme_count(s: Seq<char>) -> nat;

/// Relies on unicode_segmentation's `graphemes`: iterates the extended
/// grapheme clusters of the string; counting them is a deterministic
/// function of the characters.
#[verifier::external_body]
pub fn grapheme_len(s: &str) -> (n: usize)
    ensures
        n == grapheme_count(s@),
{
    s.graphemes(true).count()
}

/// The mathematical content of one dictionary entry.
#[verifier::ext_equal]
pub struct EntryModel {
    /// Total occurrences of the stem across all processed tokens.
    pub amount: nat,
    /// The files in which the stem occurred at least once.
    pub files: Set<Seq<char>>,
}

/// Per-stem statistics: occurrence count and the files containing the stem.
pub struct Entry {
    pub amount: usize,
    pub contained_in: Vec<String>,
}

impl Entry {
    /// Counts are positive, the file list has no duplicates, and a stem
    /// cannot be in more files than it has occurrences.
    pub open spec fn wf(&self) -> bool {
        &&& self.amount >= 1
        &&& self.contained_in@.len() >= 1
        &&& self.amount >= self.contained_in@.len()
        &&& views_of(self.contained_in@).no_duplicates()
    }
}

impl View for Entry {
    type V = EntryModel;

    open spec fn view(&self) -> EntryModel {
        EntryModel {
            amount: self.amount as nat,
            files: views_of(self.contained_in@).to_set(),
        }
    }
}

/// One `add` step on the dictionary model: a known stem has its count
/// raised by one and the file joined to its set; a fresh stem starts at
/// count one with that single file.
pub open spec fn spec_add(
    m: Map<Seq<char>, EntryModel>,
    k: Seq<char>,
    f: Seq<char>,
) -> Map<Seq<char>, EntryModel> {
    if m.contains_key(k) {
        m.insert(k, EntryModel { amount: m[k].amount + 1, files: m[k].files.insert(f) })
    } else {
        m.insert(k, EntryModel { amount: 1, files: Set::empty().insert(f) })
    }
}

/// The frequency dictionary for one language bucket.
pub struct Dict {
    entries: Vec<(String, Entry)>,
}

impl View for Dict {
    type V = Map<Seq<char>, EntryModel>;

    closed spec fn view(&self) -> Map<Seq<char>, EntryModel> {
        assoc_map(self.pairs())
    }
}

impl Dict {
    /// The stored entries, read as key/model pairs.
    pub closed spec fn pairs(&self) -> Seq<(Seq<char>, EntryModel)> {
        self.entries@.map_values(|p: (String, Entry)| (p.0@, p.1@))
    }

    /// Stems are unique and every entry is well formed.
    pub closed spec fn wf(&self) -> bool {
        &&& keys_distinct(self.pairs())
        &&& forall|i: int| 0 <= i < self.entries@.len() ==> (#[trigger] self.entries@[i].1).wf()
    }

    /// A fresh, empty dictionary.
    pub fn new() -> (d: Self)
        ensures
            d.wf(),
            d@ == Map::<Seq<char>, EntryModel>::empty(),
    {
        let d = Dict { entries: Vec::new() };
        proof {
            assert(d.pairs() =~= Seq::<(Seq<char>, EntryModel)>::empty());
            assert(d@ =~= Map::<Seq<char>, EntryModel>::empty());
        }
        d
    }

    /// The index of the pair holding `word`, if the stem is present.
    fn find_key(&self, word: &String) -> (r: Option<usize>)
        requires
            self.wf(),
        ensures
            match r {
                Some(i) => 0 <= i < self.pairs().len() && self.pairs()[i as int].0 == word@,
                None => !assoc_has(self.pairs(), word@),
            },
    {
        let len = self.entries.len();
        let mut i: usize = 0;
        while i < len
            invariant
                len == self.entries@.len(),
                0 <= i <= len,
                forall|j: int| 0 <= j < i ==> (#[trigger] self.pairs()[j]).0 != word@,
            decreases len - i,
        {
            if self.entries[i].0 == *word {
                return Some(i);
            }
            i = i + 1;
        }
        None
    }

    /// Record one occurrence of `word` coming from the file `fname` and
    /// return the updated occurrence count for that stem.
    pub fn add(&mut self, word: String, fname: String) -> (n: usize)
        requires
            old(self).wf(),
            old(self)@.contains_key(word@) ==> old(self)@[word@].amount < usize::MAX,
        ensures
            final(self).wf(),
            final(self)@ == spec_add(old(self)@, word@, fname@),
            final(self)@.contains_key(word@),
            n == final(self)@[word@].amount,
    {
        match self.find_key(&word) {
            Some(i) => {
                let ghost op = old(self).pairs();
                let ghost oe = old(self).entries@;
                proof {
                    lemma_assoc_at_unique(op, i as int);
                }
                let mut pair = self.entries.remove(i);
                pair.1.amount = pair.1.amount + 1;
                let present = crate::assoc::contains_string(&pair.1.contained_in, &fname);
                let ghost mid_files = views_of(pair.1.contained_in@);
                let ghost fview = fname@;
                if !present {
                    pair.1.contained_in.push(fname);
                    proof {
                        assert(views_of(pair.1.contained_in@) =~= mid_files.push(fview));
                        crate::assoc::lemma_to_set_push(mid_files, fview);
                        assert(views_of(pair.1.contained_in@).no_duplicates());
                    }
                } else {
                    proof {
                        assert(views_of(pair.1.contained_in@).to_set() =~= mid_files.to_set(
                        ).insert(fview));
                    }
                }
                let n = pair.1.amount;
                let ghost newp = pair;
                self.entries.insert(i, pair);
                proof {
                    assert(self.entries@ =~= oe.update(i as int, newp));
                    assert(self.pairs() =~= op.update(i as int, (op[i as int].0, newp.1@)));
                    lemma_assoc_update(op, i as int, newp.1@);
                    assert(newp.1@.files == old(self)@[word@].files.insert(fview));
                    assert(newp.1@ =~= EntryModel {
                        amount: old(self)@[word@].amount + 1,
                        files: old(self)@[word@].files.insert(fview),
                    });
                    assert(self@ =~= spec_add(old(self)@, word@, fview));
                    assert(forall|j: int|
                        0 <= j < self.entries@.len() ==> (#[trigger] self.entries@[j].1).wf());
                }
                n
            },
            None => {
                let ghost old_pairs = self.pairs();
                let ghost fview = fname@;
                let ghost wview = word@;
                let mut files: Vec<String> = Vec::new();
                files.push(fname);
                let ghost fseq = views_of(files@);
                let entry = Entry { amount: 1, contained_in: files };
                let ghost model = entry@;
                self.entries.push((word, entry));
                proof {
                    assert(fseq =~= Seq::<Seq<char>>::empty().push(fview));
                    crate::assoc::lemma_to_set_empty::<Seq<char>>();
                    crate::assoc::lemma_to_set_push(Seq::<Seq<char>>::empty(), fview);
                    assert(model.files =~= Set::empty().insert(fview));
                    assert(self.pairs() =~= old_pairs.push((wview, model)));
                    lemma_assoc_push_new(old_pairs, wview, model);
                    assert(self@ == spec_add(old(self)@, wview, fview));
                    lemma_assoc_at_unique(self.pairs(), self.pairs().len() - 1);
                    assert(forall|j: int|
                        0 <= j < self.entries@.len() ==> (#[trigger] self.entries@[j].1).wf());
                }
                1
            },
        }
    }
    /// Whether every stored count can still grow `n` more times without
    /// overflowing its machine word.
    pub fn can_take(&self, n: usize) -> (b: bool)
        requires
            self.wf(),
        ensures
            b == forall|k: Seq<char>|
                #[trigger] self@.contains_key(k) ==> self@[k].amount + n <= usize::MAX,
    {
        let len = self.entries.len();
        let mut i: usize = 0;
        while i < len
            invariant
                self.wf(),
                len == self.entries@.len(),
                0 <= i <= len,
                forall|j: int|
                    0 <= j < i ==> (#[trigger] self.pairs()[j]).1.amount + n <= usize::MAX,
            decreases len - i,
        {
            if self.entries[i].1.amount > usize::MAX - n {
                proof {
                    lemma_assoc_at_unique(self.pairs(), i as int);
                    assert(self@.contains_key(self.pairs()[i as int].0) && self@[self.pairs()[
                        i as int
                    ].0].amount + n > usize::MAX);
                }
                return false;
            }
            i = i + 1;
        }
        proof {
            assert forall|k: Seq<char>| #[trigger] self@.contains_key(k) implies self@[k].amount
                + n <= usize::MAX by {
                let j = assoc_at(self.pairs(), k);
                assert(0 <= j < self.pairs().len() && self.pairs()[j].0 == k);
                lemma_assoc_at_unique(self.pairs(), j);
            }
        }
        true
    }

    /// Every entry that clears all three thresholds, as one report row,
    /// ranked by descending occurrence count. Ties keep no particular
    /// relative order.
    pub fn sort(self, words: usize, filenum: usize, length: usize) -> (rows: Vec<
        (String, usize, Vec<String>),
    >)
        requires
            self.wf(),
        ensures
            forall|r: int|
                0 <= r < rows@.len() ==> row_ok(
                    self@,
                    #[trigger] rows@[r],
                    words as nat,
                    filenum as nat,
                    length as nat,
                ),
            forall|k: Seq<char>|
                #[trigger] self@.contains_key(k) && qualifies(
                    self@[k],
                    k,
                    words as nat,
                    filenum as nat,
                    length as nat,
                ) ==> exists|r: int| 0 <= r < rows@.len() && #[trigger] rows@[r].0@ == k,
            forall|r1: int, r2: int|
                0 <= r1 < r2 < rows@.len() ==> rows@[r1].0@ != rows@[r2].0@,
            forall|r1: int, r2: int| 0 <= r1 < r2 < rows@.len() ==> rows@[r1].1 >= rows@[r2].1,
    {
        let ghost m = self@;
        let ghost gw = words as nat;
        let ghost gf = filenum as nat;
        let ghost gl = length as nat;
        let len = self.entries.len();
        let mut pending: Vec<(String, usize, Vec<String>)> = Vec::new();
        let mut idx: usize = 0;
        while idx < len
            invariant
                self.wf(),
                m == self@,
                gw == words as nat,
                gf == filenum as nat,
                gl == length as nat,
                len == self.entries@.len(),
                0 <= idx <= len,
                forall|r: int|
                    0 <= r < pending@.len() ==> row_ok(m, #[trigger] pending@[r], gw, gf, gl),
                forall|r: int|
                    0 <= r < pending@.len() ==> exists|j: int|
                        0 <= j < idx && #[trigger] pending@[r].0@ == self.pairs()[j].0,
                forall|j: int|
                    0 <= j < idx && qualifies(
                        (#[trigger] self.pairs()[j]).1,
                        self.pairs()[j].0,
                        gw,
                        gf,
                        gl,
                    ) ==> exists|r: int|
                        0 <= r < pending@.len() && #[trigger] pending@[r].0@ == self.pairs()[j].0,
                forall|r1: int, r2: int|
                    0 <= r1 < r2 < pending@.len() ==> pending@[r1].0@ != pending@[r2].0@,
            decreases len - idx,
        {
            let e_amount = self.entries[idx].1.amount;
            let e_files = self.entries[idx].1.contained_in.len();
            let glen = grapheme_len(self.entries[idx].0.as_str());
            proof {
                lemma_assoc_at_unique(self.pairs(), idx as int);
                views_of(self.entries@[idx as int].1.contained_in@).unique_seq_to_set();
            }
            if e_amount >= words && e_files > filenum && glen > length {
                let stem = self.entries[idx].0.clone();
                let fvec = crate::assoc::clone_string_vec(&self.entries[idx].1.contained_in);
                let ghost p0 = pending@;
                pending.push((stem, e_amount, fvec));
                proof {
                    let k = self.pairs()[idx as int].0;
                    let row = pending@[p0.len() as int];
                    assert(row.0@ == k);
                    assert(m.contains_key(k));
                    assert(m[k] == self.pairs()[idx as int].1);
                    assert(m[k].amount == e_amount as nat);
                    assert(views_of(row.2@) == views_of(
                        self.entries@[idx as int].1.contained_in@,
                    ));
                    assert(m[k].files.len() == e_files as nat);
                    assert(grapheme_count(k) == glen as nat);
                    assert(row_ok(m, row, gw, gf, gl));
                    assert(forall|r: int| 0 <= r < p0.len() ==> #[trigger] pending@[r] == p0[r]);
                    assert forall|r1: int, r2: int|
                        0 <= r1 < r2 < pending@.len() implies pending@[r1].0@
                        != pending@[r2].0@ by {
                        if r2 == p0.len() {
                            let j = choose|j: int|
                                0 <= j < idx && #[trigger] p0[r1].0@ == self.pairs()[j].0;
                            assert(self.pairs()[j].0 != self.pairs()[idx as int].0);
                        }
                    }
                    assert forall|j: int|
                        0 <= j < idx + 1 && qualifies(
                            (#[trigger] self.pairs()[j]).1,
                            self.pairs()[j].0,
                            gw,
                            gf,
                            gl,
                        ) implies exists|r: int|
                        0 <= r < pending@.len() && #[trigger] pending@[r].0@
                            == self.pairs()[j].0 by {
                        if j == idx {
                            assert(pending@[p0.len() as int].0@ == self.pairs()[j].0);
                        } else {
                            let r = choose|r: int|
                                0 <= r < p0.len() && #[trigger] p0[r].0@ == self.pairs()[j].0;
                            assert(pending@[r].0@ == self.pairs()[j].0);
                        }
                    }
                }
            } else {
                proof {
                    let k = self.pairs()[idx as int].0;
                    assert(m[k] == self.pairs()[idx as int].1);
                    assert(m[k].amount == e_amount as nat);
                    assert(m[k].files.len() == e_files as nat);
                    assert(grapheme_count(k) == glen as nat);
                    assert(!qualifies(self.pairs()[idx as int].1, k, gw, gf, gl));
                }
            }
            idx = idx + 1;
        }
        proof {
            assert forall|k: Seq<char>|
                #[trigger] m.contains_key(k) && qualifies(m[k], k, gw, gf, gl) implies exists|r: int|
                0 <= r < pending@.len() && #[trigger] pending@[r].0@ == k by {
                let j = assoc_at(self.pairs(), k);
                assert(0 <= j < self.pairs().len() && self.pairs()[j].0 == k);
                lemma_assoc_at_unique(self.pairs(), j);
            }
        }
        let mut rows: Vec<(String, usize, Vec<String>)> = Vec::new();
        while pending.len() > 0
            invariant
                forall|r: int|
                    0 <= r < pending@.len() ==> row_ok(m, #[trigger] pending@[r], gw, gf, gl),
                forall|r: int| 0 <= r < rows@.len() ==> row_ok(m, #[trigger] rows@[r], gw, gf, gl),
                forall|k: Seq<char>|
                    #[trigger] m.contains_key(k) && qualifies(m[k], k, gw, gf, gl) ==> (exists|r: int|
                        0 <= r < rows@.len() && #[trigger] rows@[r].0@ == k) || (exists|r: int|
                        0 <= r < pending@.len() && #[trigger] pending@[r].0@ == k),
                forall|r1: int, r2: int|
                    0 <= r1 < r2 < pending@.len() ==> pending@[r1].0@ != pending@[r2].0@,
                forall|r1: int, r2: int|
                    0 <= r1 < r2 < rows@.len() ==> rows@[r1].0@ != rows@[r2].0@,
                forall|r1: int, r2: int|
                    0 <= r1 < rows@.len() && 0 <= r2 < pending@.len() ==> rows@[r1].0@
                        != pending@[r2].0@,
                forall|r1: int, r2: int| 0 <= r1 < r2 < rows@.len() ==> rows@[r1].1 >= rows@[r2].1,
                forall|r1: int, r2: int|
                    0 <= r1 < rows@.len() && 0 <= r2 < pending@.len() ==> rows@[r1].1
                        >= pending@[r2].1,
            decreases pending@.len(),
        {
            let mut mi: usize = 0;
            let mut mj: usize = 1;
            while mj < pending.len()
                invariant
                    pending@.len() > 0,
                    0 <= mi < pending@.len(),
                    1 <= mj <= pending@.len(),
                    forall|t: int| 0 <= t < mj ==> pending@[mi as int].1 >= pending@[t].1,
                decreases pending@.len() - mj,
            {
                if pending[mj].1 > pending[mi].1 {
                    mi = mj;
                }
                mj = mj + 1;
            }
            let ghost p0 = pending@;
            let ghost r0 = rows@;
            let x = pending.remove(mi);
            let ghost xg = x;
            rows.push(x);
            proof {
                assert(pending@ == p0.remove(mi as int));
                assert(rows@ == r0.push(xg));
                assert(xg == p0[mi as int]);
                assert forall|j: int|
                    0 <= j < pending@.len() implies #[trigger] pending@[j] == (if j < mi {
                    p0[j]
                } else {
                    p0[j + 1]
                }) by {}
                assert forall|k: Seq<char>|
                    #[trigger] m.contains_key(k) && qualifies(m[k], k, gw, gf, gl) implies (exists|
                    r: int,
                |
                    0 <= r < rows@.len() && #[trigger] rows@[r].0@ == k) || (exists|r: int|
                    0 <= r < pending@.len() && #[trigger] pending@[r].0@ == k) by {
                    if exists|r: int| 0 <= r < r0.len() && #[trigger] r0[r].0@ == k {
                        let r = choose|r: int| 0 <= r < r0.len() && #[trigger] r0[r].0@ == k;
                        assert(rows@[r].0@ == k);
                    } else {
                        let t = choose|t: int| 0 <= t < p0.len() && #[trigger] p0[t].0@ == k;
                        if t == mi {
                            assert(rows@[r0.len() as int].0@ == k);
                        } else if t < mi {
                            assert(pending@[t].0@ == k);
                        } else {
                            assert(pending@[t - 1].0@ == k);
                        }
                    }
                }
            }
        }
        rows
    }
}

/// An entry clears the report thresholds when its file spread is strictly
/// above `filenum`, its count is at least `words`, and the stem's grapheme
/// length is strictly above `length`.
pub open spec fn qualifies(m: EntryModel, stem: Seq<char>, words: nat, filenum: nat, length: nat) -> bool {
    &&& m.files.len() > filenum
    &&& m.amount >= words
    &&& grapheme_count(stem) > length
}

/// The dictionary model that a sequence of `add` calls, each a stem/file
/// pair, builds from the empty dictionary.
pub open spec fn after_calls(calls: Seq<(Seq<char>, Seq<char>)>) -> Map<Seq<char>, EntryModel>
    decreases calls.len(),
{
    if calls.len() == 0 {
        Map::empty()
    } else {
        spec_add(after_calls(calls.drop_last()), calls.last().0, calls.last().1)
    }
}

/// How many of the calls carry the stem `k`.
pub open spec fn stem_call_count(calls: Seq<(Seq<char>, Seq<char>)>, k: Seq<char>) -> nat
    decreases calls.len(),
{
    if calls.len() == 0 {
        0
    } else {
        stem_call_count(calls.drop_last(), k) + if calls.last().0 == k {
            1nat
        } else {
            0nat
        }
    }
}

/// The distinct files passed in calls that carry the stem `k`.
pub open spec fn stem_call_files(calls: Seq<(Seq<char>, Seq<char>)>, k: Seq<char>) -> Set<
    Seq<char>,
> {
    Set::new(
        |f: Seq<char>|
            exists|i: int| 0 <= i < calls.len() && calls[i].0 == k && #[trigger] calls[i].1 == f,
    )
}

/// No call carries the stem `k` exactly when the count for `k` is zero.
pub proof fn lemma_stem_call_count_zero(calls: Seq<(Seq<char>, Seq<char>)>, k: Seq<char>)
    ensures
        stem_call_count(calls, k) == 0 <==> (forall|i: int|
            0 <= i < calls.len() ==> (#[trigger] calls[i]).0 != k),
    decreases calls.len(),
{
    if calls.len() > 0 {
        let prev = calls.drop_last();
        lemma_stem_call_count_zero(prev, k);
        assert(forall|i: int| 0 <= i < prev.len() ==> #[trigger] calls[i] == prev[i]);
        assert(calls[calls.len() - 1] == calls.last());
    }
}

/// Law: after any sequence of `add` calls on a fresh dictionary, a stem is
/// present exactly when some call carried it, its count equals the number
/// of calls that carried it, and its file set equals the set of distinct
/// files passed in those calls.
pub proof fn lemma_amount_counts_calls(calls: Seq<(Seq<char>, Seq<char>)>, k: Seq<char>)
    ensures
        after_calls(calls).contains_key(k) <==> stem_call_count(calls, k) > 0,
        after_calls(calls).contains_key(k) ==> after_calls(calls)[k].amount == stem_call_count(
            calls,
            k,
        ),
        after_calls(calls).contains_key(k) ==> after_calls(calls)[k].files == stem_call_files(
            calls,
            k,
        ),
    decreases calls.len(),
{
    if calls.len() == 0 {
    } else {
        let prev = calls.drop_last();
        let last = calls.last();
        lemma_amount_counts_calls(prev, k);
        assert(forall|i: int| 0 <= i < prev.len() ==> #[trigger] calls[i] == prev[i]);
        if last.0 == k {
            assert forall|f: Seq<char>| #[trigger] stem_call_files(calls, k).contains(
                f,
            ) == stem_call_files(prev, k).insert(last.1).contains(f) by {
                if stem_call_files(calls, k).contains(f) {
                    let i = choose|i: int|
                        0 <= i < calls.len() && calls[i].0 == k && #[trigger] calls[i].1 == f;
                    if i < prev.len() {
                        assert(prev[i].0 == k && prev[i].1 == f);
                        assert(stem_call_files(prev, k).contains(f));
                    }
                }
                if stem_call_files(prev, k).insert(last.1).contains(f) {
                    if stem_call_files(prev, k).contains(f) {
                        let i = choose|i: int|
                            0 <= i < prev.len() && prev[i].0 == k && #[trigger] prev[i].1 == f;
                        assert(calls[i].0 == k && calls[i].1 == f);
                    } else {
                        assert(calls[calls.len() - 1].0 == k && calls[calls.len() - 1].1 == f);
                    }
                }
            }
            assert(stem_call_files(calls, k) =~= stem_call_files(prev, k).insert(last.1));
            if !after_calls(prev).contains_key(k) {
                lemma_stem_call_count_zero(prev, k);
                assert(stem_call_files(prev, k) =~= Set::<Seq<char>>::empty());
                assert(stem_call_files(calls, k) =~= Set::empty().insert(last.1));
            }
        } else {
            assert forall|f: Seq<char>| #[trigger] stem_call_files(calls, k).contains(
                f,
            ) == stem_call_files(prev, k).contains(f) by {
                if stem_call_files(calls, k).contains(f) {
                    let i = choose|i: int|
                        0 <= i < calls.len() && calls[i].0 == k && #[trigger] calls[i].1 == f;
                    assert(i < prev.len());
                    assert(prev[i].0 == k && prev[i].1 == f);
                }
                if stem_call_files(prev, k).contains(f) {
                    let i = choose|i: int|
                        0 <= i < prev.len() && prev[i].0 == k && #[trigger] prev[i].1 == f;
                    assert(calls[i].0 == k && calls[i].1 == f);
                }
            }
            assert(stem_call_files(calls, k) =~= stem_call_files(prev, k));
        }
    }
}

/// Law: adding the same stem with the same file twice raises the count by
/// one each time but leaves the file set, and so the file spread, unchanged
/// the second time.
pub proof fn lemma_repeat_file(m: Map<Seq<char>, EntryModel>, k: Seq<char>, f: Seq<char>)
    ensures
        spec_add(spec_add(m, k, f), k, f)[k].amount == spec_add(m, k, f)[k].amount + 1,
        spec_add(spec_add(m, k, f), k, f)[k].files == spec_add(m, k, f)[k].files,
{
    let m1 = spec_add(m, k, f);
    assert(m1[k].files.contains(f));
    assert(spec_add(m1, k, f)[k].files =~= m1[k].files);
}

/// A report row faithfully reproduces a qualifying entry of the dictionary.
pub open spec fn row_ok(
    m: Map<Seq<char>, EntryModel>,
    row: (String, usize, Vec<String>),
    words: nat,
    filenum: nat,
    length: nat,
) -> bool {
    &&& m.contains_key(row.0@)
    &&& row.1 as nat == m[row.0@].amount
    &&& views_of(row.2@).no_duplicates()
    &&& views_of(row.2@).to_set() == m[row.0@].files
    &&& qualifies(m[row.0@], row.0@, words, filenum, length)
}

} // verus!
