//! A read snapshot of what the index holds for query compilation: the
//! length of each word's postings list and the synonym dictionary.
use vstd::prelude::*;
use crate::text::chars_of;

verus! {

/// The postings-list lengths and synonym expansions seen by one compilation.
pub struct IndexSnapshot {
    /// Words with the length of their postings list; a later entry for a word
    /// overrides an earlier one.
    pub postings: Vec<(Vec<char>, usize)>,
    /// Dictionary keys, in dictionary order, each with its expansions.
    pub synonyms: Vec<(Vec<char>, Vec<Vec<char>>)>,
}

pub open spec fn postings_view(p: Seq<(Vec<char>, usize)>) -> Seq<(Seq<char>, nat)> {
    p.map_values(|e: (Vec<char>, usize)| (e.0@, e.1 as nat))
}

/// The postings-list length of `w`: that of its last entry, zero if none.
pub open spec fn freq(p: Seq<(Seq<char>, nat)>, w: Seq<char>) -> nat
    decreases p.len(),
{
    if p.len() == 0 {
        0
    } else if p.last().0 == w {
        p.last().1
    } else {
        freq(p.drop_last(), w)
    }
}

/// The score of cutting `w` before its `i`-th character: the smaller of the
/// two halves' postings-list lengths.
pub open spec fn split_score(p: Seq<(Seq<char>, nat)>, w: Seq<char>, i: int) -> nat {
    let l = freq(p, w.subrange(0, i));
    let r = freq(p, w.subrange(i, w.len() as int));
    if l <= r {
        l
    } else {
        r
    }
}

/// `i` is the cut with the highest nonzero score, the earliest among equals.
pub open spec fn best_cut(p: Seq<(Seq<char>, nat)>, w: Seq<char>, i: int) -> bool {
    &&& 1 <= i < w.len()
    &&& split_score(p, w, i) > 0
    &&& forall|j: int| 1 <= j < w.len() ==> split_score(p, w, j) <= split_score(p, w, i)
    &&& forall|j: int| 1 <= j < i ==> split_score(p, w, j) < split_score(p, w, i)
}

pub fn same_chars(a: &Vec<char>, b: &Vec<char>) -> (r: bool)
    ensures
        r == (a@ == b@),
{
    if a.len() != b.len() {
        return false;
    }
    let mut i: usize = 0;
    while i < a.len()
        invariant
            a@.len() == b@.len(),
            0 <= i <= a@.len(),
            forall|k: int| 0 <= k < i ==> a@[k] == b@[k],
        decreases a@.len() - i,
    {
        if a[i] != b[i] {
            return false;
        }
        i += 1;
    }
    assert(a@ =~= b@);
    true
}

fn slice_of(w: &Vec<char>, from: usize, to: usize) -> (r: Vec<char>)
    requires
        from <= to <= w@.len(),
    ensures
        r@ == w@.subrange(from as int, to as int),
{
    let mut out: Vec<char> = Vec::new();
    let mut i: usize = from;
    while i < to
        invariant
            from <= i <= to <= w@.len(),
            out@ == w@.subrange(from as int, i as int),
        decreases to - i,
    {
        out.push(w[i]);
        i += 1;
    }
    out
}

impl IndexSnapshot {
    pub fn new() -> (r: IndexSnapshot)
        ensures
            r.postings@.len() == 0,
            r.synonyms@.len() == 0,
    {
        IndexSnapshot { postings: Vec::new(), synonyms: Vec::new() }
    }

    /// Records that the postings list of `word` has `len` entries.
    pub fn add_postings(&mut self, word: &str, len: usize)
        ensures
            postings_view(final(self).postings@) == postings_view(old(self).postings@).push(
                (word@, len as nat),
            ),
            final(self).synonyms@ == old(self).synonyms@,
    {
        let w = chars_of(word);
        let ghost before = self.postings@;
        self.postings.push((w, len));
        assert(postings_view(self.postings@) =~= postings_view(before).push((word@, len as nat)));
    }

    /// Appends a dictionary key with its expansions, each a space-separated
    /// phrase.
    pub fn add_synonyms(&mut self, key: &str, expansions: &Vec<String>)
        ensures
            final(self).postings@ == old(self).postings@,
            final(self).synonyms@.len() == old(self).synonyms@.len() + 1,
            final(self).synonyms@.subrange(0, old(self).synonyms@.len() as int)
                == old(self).synonyms@,
            final(self).synonyms@.last().0@ == key@,
            final(self).synonyms@.last().1@.len() == expansions@.len(),
            forall|k: int|
                0 <= k < expansions@.len() ==> (#[trigger] final(self).synonyms@.last().1@[k])@
                    == expansions@[k]@,
    {
        let mut exps: Vec<Vec<char>> = Vec::new();
        let mut i: usize = 0;
        while i < expansions.len()
            invariant
                0 <= i <= expansions@.len(),
                exps@.len() == i,
                forall|k: int| 0 <= k < i ==> (#[trigger] exps@[k])@ == expansions@[k]@,
            decreases expansions@.len() - i,
        {
            exps.push(chars_of(expansions[i].as_str()));
            i += 1;
        }
        let ghost before = self.synonyms@;
        self.synonyms.push((chars_of(key), exps));
        assert(self.synonyms@.subrange(0, before.len() as int) =~= before);
    }

    /// The postings-list length of `word`, zero where the index lacks it.
    pub fn frequency(&self, word: &Vec<char>) -> (r: usize)
        ensures
            r as nat == freq(postings_view(self.postings@), word@),
    {
        let mut res: usize = 0;
        let mut i: usize = 0;
        while i < self.postings.len()
            invariant
                0 <= i <= self.postings@.len(),
                res as nat == freq(postings_view(self.postings@.subrange(0, i as int)), word@),
            decreases self.postings@.len() - i,
        {
            proof {
                let a = postings_view(self.postings@.subrange(0, i + 1));
                assert(a.drop_last() =~= postings_view(self.postings@.subrange(0, i as int)));
            }
            if same_chars(&self.postings[i].0, word) {
                res = self.postings[i].1;
            }
            i += 1;
        }
        assert(self.postings@.subrange(0, i as int) =~= self.postings@);
        res
    }

    /// Cuts `word` in two non-empty halves where the rarer half is the most
    /// frequent in the index, the earliest such cut on ties; `None` where
    /// every cut leaves a half that the index lacks.
    pub fn split_best_frequency(&self, word: &Vec<char>) -> (r: Option<(Vec<char>, Vec<char>)>)
        ensures
            r is None <==> forall|j: int|
                1 <= j < word@.len() ==> split_score(postings_view(self.postings@), word@, j)
                    == 0,
            r matches Some((left, right)) ==> exists|i: int|
                best_cut(postings_view(self.postings@), word@, i) && left@ == word@.subrange(
                    0,
                    i,
                ) && right@ == word@.subrange(i, word@.len() as int),
    {
        let ghost p = postings_view(self.postings@);
        let mut best: Option<(usize, usize)> = None;
        let mut i: usize = 1;
        while i < word.len()
            invariant
                1 <= i,
                i <= word@.len() || word@.len() == 0,
                p == postings_view(self.postings@),
                best is None ==> forall|j: int| 1 <= j < i && j < word@.len() ==> split_score(p, word@, j) == 0,
                best matches Some((s, c)) ==> {
                    &&& 1 <= c < i && c < word@.len()
                    &&& s as nat == split_score(p, word@, c as int)
                    &&& s > 0
                    &&& forall|j: int| 1 <= j < i && j < word@.len() ==> split_score(p, word@, j) <= s
                    &&& forall|j: int| 1 <= j < c ==> split_score(p, word@, j) < s
                },
            decreases word@.len() - i,
        {
            let left = slice_of(word, 0, i);
            let right = slice_of(word, i, word.len());
            let lf = self.frequency(&left);
            let rf = self.frequency(&right);
            let m = if lf <= rf { lf } else { rf };
            let better = match best {
                None => true,
                Some((s, _)) => m > s,
            };
            if m != 0 && better {
                best = Some((m, i));
            }
            i += 1;
        }
        match best {
            None => None,
            Some((_, c)) => {
                let left = slice_of(word, 0, c);
                let right = slice_of(word, c, word.len());
                Some((left, right))
            },
        }
    }
}

} // verus!
