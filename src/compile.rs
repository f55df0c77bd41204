//! Query compilation: the automatons of the query words, of their synonyms,
//! of split and concatenated words, in the order they are to be tried.
use vstd::prelude::*;
use crate::automaton::{
    group_key_le, order_groups, sorted_by_priority, stable_placement, Automaton, AutomatonGroup,
    AutomatonProducer,
};
use crate::dfa::{build_matcher, typo_budget, within_typos};
use crate::enhancer::{
    lemma_numbered_resolution, numbered_from, ranges_for, Declaration, QueryEnhancer,
    QueryEnhancerBuilder,
};
use vstd::utf8::encode_utf8;
use crate::store::{best_cut, postings_view, split_score, IndexSnapshot};
use crate::text::{
    all_cjk, chars_of, concat_words, count_words, is_whitespace, join_words, lowercase,
    lowercase_of, normal_form, concatenated, joined, normalize_str, only_cjk, split_words, string_of, whitespace, word_count,
};

verus! {

/// The longest windows of query words looked at.
pub const NGRAMS: usize = 3;

/// The number of expansions in a synonym dictionary.
pub open spec fn expansion_total(s: Seq<(Vec<char>, Vec<Vec<char>>)>) -> nat
    decreases s.len(),
{
    if s.len() == 0 {
        0
    } else {
        expansion_total(s.drop_last()) + s.last().1@.len()
    }
}

/// An upper bound on the automatons of a query of `n` words against a
/// dictionary of `t` expansions.
pub open spec fn index_room(n: nat, t: nat) -> nat {
    n + 3 * n * (t + 2)
}

/// Whether the query ends with whitespace.
pub open spec fn ends_with_space(q: Seq<char>) -> bool {
    q.len() > 0 && whitespace(q.last())
}

/// The automaton of the `i`-th of the lowercase query words `w`: exact, and a
/// prefix automaton where it is the last word, the query does not end with
/// whitespace, and it is not all CJK.
pub open spec fn word_automaton(a: Automaton, i: int, w: Seq<Seq<char>>, trailing: bool) -> bool {
    &&& a.index == i
    &&& a.ngram == 1
    &&& a.query@ == w[i]
    &&& a.query_len == encode_utf8(w[i]).len() as usize
    &&& a.is_exact
    &&& a.is_prefix == (i == w.len() - 1 && !trailing && !all_cjk(w[i]))
}

pub open spec fn word_group(g: AutomatonGroup, w: Seq<Seq<char>>, trailing: bool) -> bool {
    &&& !g.is_phrase_query
    &&& g.automatons@.len() == w.len()
    &&& forall|i: int| 0 <= i < w.len() ==> word_automaton(#[trigger] g.automatons@[i], i, w, trailing)
}

/// The automaton `a` has the declaration of its own index, on a span of as many
/// query words as it stands for.
pub open spec fn anchored(a: Automaton, d: Seq<Declaration>, nwords: nat) -> bool {
    &&& nwords <= a.index < nwords + d.len()
    &&& d[a.index - nwords].end - d[a.index - nwords].start == a.ngram
}

/// Declarations numbered on from the query words, within them, and every
/// automaton after the first group anchored in them.
pub open spec fn in_step(g: Seq<AutomatonGroup>, d: Seq<Declaration>, nwords: nat) -> bool {
    &&& numbered_from(d, nwords)
    &&& forall|k: int| 0 <= k < d.len() ==> (#[trigger] d[k]).start < d[k].end <= nwords
    &&& forall|x: int| 1 <= x < g.len() ==> (#[trigger] g[x]).automatons@.len() > 0
    &&& forall|x: int, y: int|
        1 <= x < g.len() && 0 <= y < g[x].automatons@.len() ==> anchored(
            #[trigger] g[x].automatons@[y],
            d,
            nwords,
        )
    &&& forall|x: int| 1 <= x < g.len() ==> tail_shape(#[trigger] g[x])
    &&& forall|x: int, z: int|
        1 <= x < z < g.len() ==> (#[trigger] g[x]).automatons@[0].index < (
        #[trigger] g[z]).automatons@[0].index
    &&& forall|x: int, y: int, z: int|
        1 <= x < z < g.len() && 0 <= y < g[x].automatons@.len() ==> (#[trigger] g[x].automatons@[y]).index
            < (#[trigger] g[z]).automatons@[0].index
    &&& forall|k: int| 0 <= k < d.len() ==> #[trigger] declared_for_emitted(g, nwords + k)
    &&& forall|x: int, y: int|
        1 <= x < g.len() && 0 <= y < g[x].automatons@.len() ==> byte_length_kept(
            #[trigger] g[x].automatons@[y],
        )
}

/// The automaton's `query_len` is the UTF-8 length of its text.
pub open spec fn byte_length_kept(a: Automaton) -> bool {
    a.query_len == encode_utf8(a.query@).len() as usize
}

/// Some automaton after the first group has index `i`.
pub open spec fn declared_for_emitted(g: Seq<AutomatonGroup>, i: int) -> bool {
    exists|x: int, y: int|
        1 <= x < g.len() && 0 <= y < g[x].automatons@.len() && (#[trigger] g[x].automatons@[y]).index == i
}

/// Group `g` is owed to the window `j..j + m` of the query words `lw`: an
/// expansion of a dictionary key found for it, the best split of its single
/// word, or the concatenation of its words.
pub open spec fn owed_to(
    g: AutomatonGroup,
    syn: Seq<(Vec<char>, Vec<Vec<char>>)>,
    p: Seq<(Seq<char>, nat)>,
    lw: Seq<Seq<char>>,
    trailing: bool,
    j: int,
    m: int,
) -> bool {
    let w = normal_form(lw[j]);
    ||| !g.is_phrase_query && from_synonym(g, syn, window_pattern(lw, j, m), window_prefix(lw, j, m, trailing), m as nat)
    ||| m == 1 && g.is_phrase_query && g.automatons@.len() == 2 && exists|c: int|
        best_cut(p, w, c) && g.automatons@[0].query@ == w.subrange(0, c)
            && g.automatons@[1].query@ == #[trigger] w.subrange(c, w.len() as int)
    ||| m >= 2 && !g.is_phrase_query && g.automatons@.len() == 1
        && g.automatons@[0].query@ == normal_form(concatenated(lw.subrange(j, j + m)))
}

/// Every automaton of `g` is declared for the words `j..j + m`.
pub open spec fn spanned(g: AutomatonGroup, d: Seq<Declaration>, nwords: nat, j: int, m: int) -> bool {
    forall|y: int|
        0 <= y < g.automatons@.len() ==> {
            let a = #[trigger] g.automatons@[y];
            &&& nwords <= a.index < nwords + d.len()
            &&& d[a.index - nwords].start == j
            &&& d[a.index - nwords].end == j + m
        }
}

/// Group `g` is owed to some window of at most three query words, and each of
/// its automatons is declared for that window.
pub open spec fn provenance(
    g: AutomatonGroup,
    d: Seq<Declaration>,
    nwords: nat,
    syn: Seq<(Vec<char>, Vec<Vec<char>>)>,
    p: Seq<(Seq<char>, nat)>,
    lw: Seq<Seq<char>>,
    trailing: bool,
) -> bool {
    exists|j: int, m: int|
        1 <= m <= NGRAMS && 0 <= j && j + m <= lw.len() && #[trigger] owed_to(g, syn, p, lw, trailing, j, m)
            && spanned(g, d, nwords, j, m)
}

/// Group `g` is owed to some window of at most three query words, and each of
/// its automatons resolves to that window alone.
pub open spec fn attributed(
    g: AutomatonGroup,
    e: QueryEnhancer,
    syn: Seq<(Vec<char>, Vec<Vec<char>>)>,
    p: Seq<(Seq<char>, nat)>,
    lw: Seq<Seq<char>>,
    trailing: bool,
) -> bool {
    exists|j: int, m: int|
        1 <= m <= NGRAMS && 0 <= j && j + m <= lw.len() && #[trigger] owed_to(g, syn, p, lw, trailing, j, m)
            && forall|y: int|
            0 <= y < g.automatons@.len() ==> ranges_for(e.declarations@, (#[trigger] g.automatons@[y]).index)
                == seq![(j as usize, (j + m) as usize)]
}

proof fn lemma_spanned_persists(g: AutomatonGroup, d1: Seq<Declaration>, d2: Seq<Declaration>, nwords: nat, j: int, m: int)
    requires
        spanned(g, d1, nwords, j, m),
        d1.len() <= d2.len(),
        d2.subrange(0, d1.len() as int) == d1,
    ensures
        spanned(g, d2, nwords, j, m),
{
    assert forall|y: int| 0 <= y < g.automatons@.len() implies {
        let a = #[trigger] g.automatons@[y];
        &&& nwords <= a.index < nwords + d2.len()
        &&& d2[a.index - nwords].start == j
        &&& d2[a.index - nwords].end == j + m
    } by {
        let a = g.automatons@[y];
        assert(d2[a.index - nwords] == d1[a.index - nwords]);
    }
}

/// A group after the first is either one non-prefix automaton, or the phrase
/// query of a split word: two exact, non-prefix automatons on one query word,
/// with consecutive indices.
pub open spec fn tail_shape(g: AutomatonGroup) -> bool {
    let a = g.automatons@;
    if g.is_phrase_query {
        &&& a.len() == 2
        &&& a[0].is_exact && a[1].is_exact
        &&& !a[0].is_prefix && !a[1].is_prefix
        &&& a[0].ngram == 1 && a[1].ngram == 1
        &&& a[1].index == a[0].index + 1
    } else {
        a.len() == 1 && !a[0].is_prefix
    }
}

fn strings_of(ws: &Vec<Vec<char>>) -> (r: Vec<String>)
    ensures
        r@.len() == ws@.len(),
        forall|k: int| 0 <= k < ws@.len() ==> (#[trigger] r@[k])@ == ws@[k]@,
{
    let mut out: Vec<String> = Vec::new();
    let mut i: usize = 0;
    while i < ws.len()
        invariant
            0 <= i <= ws@.len(),
            out@.len() == i,
            forall|k: int| 0 <= k < i ==> (#[trigger] out@[k])@ == ws@[k]@,
        decreases ws@.len() - i,
    {
        out.push(string_of(&ws[i]));
        i += 1;
    }
    out
}

/// Declares automaton `*idx` for the words `start..end` and pushes it as a
/// group of its own.
fn push_declared(
    groups: &mut Vec<AutomatonGroup>,
    builder: &mut QueryEnhancerBuilder,
    idx: &mut usize,
    start: usize,
    end: usize,
    exact: bool,
    text: &Vec<char>,
    expansion: Vec<String>,
)
    requires
        start < end <= old(builder).query_len,
        old(groups)@.len() >= 1,
        *old(idx) == old(builder).query_len + old(builder).declarations@.len(),
        *old(idx) < usize::MAX,
        in_step(old(groups)@, old(builder).declarations@, old(builder).query_len as nat),
    ensures
        final(groups)@.len() == old(groups)@.len() + 1,
        final(groups)@.drop_last() == old(groups)@,
        final(builder).query_len == old(builder).query_len,
        *final(idx) == *old(idx) + 1,
        *final(idx) == final(builder).query_len + final(builder).declarations@.len(),
        in_step(final(groups)@, final(builder).declarations@, final(builder).query_len as nat),
        final(groups)@.last().automatons@.len() == 1,
        final(groups)@.last().automatons@[0].query@ == text@,
        final(groups)@.last().automatons@[0].index == *old(idx),
        final(groups)@.last().automatons@[0].is_exact == exact,
        final(groups)@.last().automatons@[0].ngram == end - start,
        !final(groups)@.last().automatons@[0].is_prefix,
        !final(groups)@.last().is_phrase_query,
        final(builder).declarations@.len() == old(builder).declarations@.len() + 1,
        final(builder).declarations@.drop_last() == old(builder).declarations@,
        final(builder).declarations@.last().start == start,
        final(builder).declarations@.last().end == end,
{
    let a = if exact {
        Automaton::exact(*idx, end - start, text)
    } else {
        Automaton::non_exact(*idx, end - start, text)
    };
    builder.declare(start, end, *idx, expansion);
    *idx = *idx + 1;
    let ghost before = groups@;
    let mut v: Vec<Automaton> = Vec::new();
    v.push(a);
    groups.push(AutomatonGroup::normal(v));
    proof {
        let g = groups@;
        let d = builder.declarations@;
        let nw = builder.query_len as nat;
        assert(g.drop_last() =~= before);
        assert forall|x: int, y: int|
            1 <= x < g.len() && 0 <= y < g[x].automatons@.len() implies anchored(
            #[trigger] g[x].automatons@[y],
            d,
            nw,
        ) by {
            if x < g.len() - 1 {
                assert(g[x] == before[x]);
                assert(anchored(before[x].automatons@[y], old(builder).declarations@, nw));
                assert(d[g[x].automatons@[y].index - nw] == old(builder).declarations@[g[x].automatons@[y].index - nw]);
            }
        }
        assert forall|x: int, z: int|
            1 <= x < z < g.len() implies (#[trigger] g[x]).automatons@[0].index < (
            #[trigger] g[z]).automatons@[0].index by {
            assert(g[x] == before[x]);
            assert(anchored(before[x].automatons@[0], old(builder).declarations@, nw));
            if z < g.len() - 1 {
                assert(g[z] == before[z]);
            }
        }
        assert forall|x: int, y: int, z: int|
            1 <= x < z < g.len() && 0 <= y < g[x].automatons@.len() implies (#[trigger] g[x].automatons@[y]).index
                < (#[trigger] g[z]).automatons@[0].index by {
            assert(g[x] == before[x]);
            assert(anchored(before[x].automatons@[y], old(builder).declarations@, nw));
            if z < g.len() - 1 {
                assert(g[z] == before[z]);
            }
        }
        assert forall|x: int| 1 <= x < g.len() implies tail_shape(#[trigger] g[x]) by {
            if x < g.len() - 1 {
                assert(g[x] == before[x]);
            }
        }
        assert forall|x: int, y: int|
            1 <= x < g.len() && 0 <= y < g[x].automatons@.len() implies byte_length_kept(
            #[trigger] g[x].automatons@[y],
        ) by {
            if x < g.len() - 1 {
                assert(g[x] == before[x]);
            }
        }
        assert forall|k: int| 0 <= k < d.len() implies #[trigger] declared_for_emitted(g, nw + k) by {
            if k < old(builder).declarations@.len() {
                assert(declared_for_emitted(before, nw + k));
                let (x, y) = choose|x: int, y: int|
                    1 <= x < before.len() && 0 <= y < before[x].automatons@.len()
                        && (#[trigger] before[x].automatons@[y]).index == nw + k;
                assert(g[x] == before[x]);
                assert(g[x].automatons@[y].index == nw + k);
            } else {
                let x = g.len() - 1;
                if k == old(builder).declarations@.len() {
                    assert(g[x].automatons@[0].index == nw + k);
                } else {
                    assert(g[x].automatons@[1].index == nw + k);
                }
            }
        }
    }
}

/// Pushes the two halves of a split word as one phrase group, each half
/// declared for the word `start` with its own text as expansion.
fn push_split(
    groups: &mut Vec<AutomatonGroup>,
    builder: &mut QueryEnhancerBuilder,
    idx: &mut usize,
    start: usize,
    left: &Vec<char>,
    right: &Vec<char>,
)
    requires
        start < old(builder).query_len,
        old(groups)@.len() >= 1,
        *old(idx) == old(builder).query_len + old(builder).declarations@.len(),
        *old(idx) + 1 < usize::MAX,
        in_step(old(groups)@, old(builder).declarations@, old(builder).query_len as nat),
    ensures
        final(groups)@.len() == old(groups)@.len() + 1,
        final(groups)@.drop_last() == old(groups)@,
        final(builder).query_len == old(builder).query_len,
        *final(idx) == *old(idx) + 2,
        *final(idx) == final(builder).query_len + final(builder).declarations@.len(),
        in_step(final(groups)@, final(builder).declarations@, final(builder).query_len as nat),
        final(builder).declarations@.subrange(0, old(builder).declarations@.len() as int)
            == old(builder).declarations@,
        final(builder).declarations@.len() == old(builder).declarations@.len() + 2,
        final(builder).declarations@[final(builder).declarations@.len() - 2].start == start,
        final(builder).declarations@[final(builder).declarations@.len() - 2].end == start + 1,
        final(builder).declarations@.last().start == start,
        final(builder).declarations@.last().end == start + 1,
        final(groups)@.last().is_phrase_query,
        final(groups)@.last().automatons@.len() == 2,
        final(groups)@.last().automatons@[0].query@ == left@,
        final(groups)@.last().automatons@[1].query@ == right@,
        final(groups)@.last().automatons@[0].index == *old(idx),
        final(groups)@.last().automatons@[1].index == *old(idx) + 1,
{
    let a = Automaton::exact(*idx, 1, left);
    let mut ea: Vec<String> = Vec::new();
    ea.push(string_of(left));
    builder.declare(start, start + 1, *idx, ea);
    *idx = *idx + 1;
    let b = Automaton::exact(*idx, 1, right);
    let mut eb: Vec<String> = Vec::new();
    eb.push(string_of(right));
    builder.declare(start, start + 1, *idx, eb);
    *idx = *idx + 1;
    let ghost before = groups@;
    let mut v: Vec<Automaton> = Vec::new();
    v.push(a);
    v.push(b);
    groups.push(AutomatonGroup::phrase_query(v));
    proof {
        assert(builder.declarations@.subrange(0, old(builder).declarations@.len() as int) =~= old(builder).declarations@);
        let g = groups@;
        let d = builder.declarations@;
        let nw = builder.query_len as nat;
        assert(g.drop_last() =~= before);
        assert forall|x: int, y: int|
            1 <= x < g.len() && 0 <= y < g[x].automatons@.len() implies anchored(
            #[trigger] g[x].automatons@[y],
            d,
            nw,
        ) by {
            if x < g.len() - 1 {
                assert(g[x] == before[x]);
                assert(anchored(before[x].automatons@[y], old(builder).declarations@, nw));
                assert(d[g[x].automatons@[y].index - nw] == old(builder).declarations@[g[x].automatons@[y].index - nw]);
            }
        }
        assert forall|x: int, z: int|
            1 <= x < z < g.len() implies (#[trigger] g[x]).automatons@[0].index < (
            #[trigger] g[z]).automatons@[0].index by {
            assert(g[x] == before[x]);
            assert(anchored(before[x].automatons@[0], old(builder).declarations@, nw));
            if z < g.len() - 1 {
                assert(g[z] == before[z]);
            }
        }
        assert forall|x: int, y: int, z: int|
            1 <= x < z < g.len() && 0 <= y < g[x].automatons@.len() implies (#[trigger] g[x].automatons@[y]).index
                < (#[trigger] g[z]).automatons@[0].index by {
            assert(g[x] == before[x]);
            assert(anchored(before[x].automatons@[y], old(builder).declarations@, nw));
            if z < g.len() - 1 {
                assert(g[z] == before[z]);
            }
        }
        assert forall|x: int| 1 <= x < g.len() implies tail_shape(#[trigger] g[x]) by {
            if x < g.len() - 1 {
                assert(g[x] == before[x]);
            }
        }
        assert forall|x: int, y: int|
            1 <= x < g.len() && 0 <= y < g[x].automatons@.len() implies byte_length_kept(
            #[trigger] g[x].automatons@[y],
        ) by {
            if x < g.len() - 1 {
                assert(g[x] == before[x]);
            }
        }
        assert forall|k: int| 0 <= k < d.len() implies #[trigger] declared_for_emitted(g, nw + k) by {
            if k < old(builder).declarations@.len() {
                assert(declared_for_emitted(before, nw + k));
                let (x, y) = choose|x: int, y: int|
                    1 <= x < before.len() && 0 <= y < before[x].automatons@.len()
                        && (#[trigger] before[x].automatons@[y]).index == nw + k;
                assert(g[x] == before[x]);
                assert(g[x].automatons@[y].index == nw + k);
            } else {
                let x = g.len() - 1;
                if k == old(builder).declarations@.len() {
                    assert(g[x].automatons@[0].index == nw + k);
                } else {
                    assert(g[x].automatons@[1].index == nw + k);
                }
            }
        }
    }
}

/// Some group after the first holds the one exact automaton of the
/// concatenated words `j..j + m` of `lw`, declared for those words.
pub open spec fn concat_present(
    g: Seq<AutomatonGroup>,
    d: Seq<Declaration>,
    nwords: nat,
    lw: Seq<Seq<char>>,
    j: int,
    m: int,
) -> bool {
    exists|x: int| 1 <= x < g.len() && concat_group(#[trigger] g[x], d, nwords, lw, j, m)
}

pub open spec fn concat_group(
    g: AutomatonGroup,
    d: Seq<Declaration>,
    nwords: nat,
    lw: Seq<Seq<char>>,
    j: int,
    m: int,
) -> bool {
    &&& g.automatons@.len() == 1
    &&& g.automatons@[0].query@ == normal_form(concatenated(lw.subrange(j, j + m)))
    &&& g.automatons@[0].is_exact
    &&& !g.automatons@[0].is_prefix
    &&& !g.is_phrase_query
    &&& g.automatons@[0].ngram == m
    &&& nwords <= g.automatons@[0].index < nwords + d.len()
    &&& d[g.automatons@[0].index - nwords].start == j
    &&& d[g.automatons@[0].index - nwords].end == j + m
}

proof fn lemma_concat_persists(
    g1: Seq<AutomatonGroup>,
    d1: Seq<Declaration>,
    g2: Seq<AutomatonGroup>,
    d2: Seq<Declaration>,
    nwords: nat,
    lw: Seq<Seq<char>>,
    j: int,
    m: int,
)
    requires
        g1.len() <= g2.len(),
        g2.subrange(0, g1.len() as int) == g1,
        d1.len() <= d2.len(),
        d2.subrange(0, d1.len() as int) == d1,
        concat_present(g1, d1, nwords, lw, j, m),
    ensures
        concat_present(g2, d2, nwords, lw, j, m),
{
    let x = choose|x: int| 1 <= x < g1.len() && concat_group(#[trigger] g1[x], d1, nwords, lw, j, m);
    assert(g2[x] == g1[x]);
    let a = g1[x].automatons@[0];
    assert(d2[a.index - nwords] == d1[a.index - nwords]);
    assert(concat_group(g2[x], d2, nwords, lw, j, m));
}

/// Some group after the first is the phrase query of the best cut of the
/// normalized query word `j`, each half declared for that word.
pub open spec fn split_present(
    g: Seq<AutomatonGroup>,
    d: Seq<Declaration>,
    nwords: nat,
    p: Seq<(Seq<char>, nat)>,
    lw: Seq<Seq<char>>,
    j: int,
) -> bool {
    exists|x: int| 1 <= x < g.len() && split_group(#[trigger] g[x], d, nwords, p, lw, j)
}

pub open spec fn split_group(
    g: AutomatonGroup,
    d: Seq<Declaration>,
    nwords: nat,
    p: Seq<(Seq<char>, nat)>,
    lw: Seq<Seq<char>>,
    j: int,
) -> bool {
    let w = normal_form(lw[j]);
    &&& g.is_phrase_query
    &&& g.automatons@.len() == 2
    &&& exists|c: int|
        best_cut(p, w, c) && g.automatons@[0].query@ == w.subrange(0, c)
            && g.automatons@[1].query@ == #[trigger] w.subrange(c, w.len() as int)
    &&& forall|y: int|
        0 <= y < 2 ==> {
            let a = #[trigger] g.automatons@[y];
            &&& nwords <= a.index < nwords + d.len()
            &&& d[a.index - nwords].start == j
            &&& d[a.index - nwords].end == j + 1
        }
}

/// Some cut of the normalized word `w` leaves two halves that the index knows.
pub open spec fn splittable(p: Seq<(Seq<char>, nat)>, w: Seq<char>) -> bool {
    exists|c: int| 1 <= c < w.len() && split_score(p, w, c) > 0
}

proof fn lemma_split_persists(
    g1: Seq<AutomatonGroup>,
    d1: Seq<Declaration>,
    g2: Seq<AutomatonGroup>,
    d2: Seq<Declaration>,
    nwords: nat,
    p: Seq<(Seq<char>, nat)>,
    lw: Seq<Seq<char>>,
    j: int,
)
    requires
        g1.len() <= g2.len(),
        g2.subrange(0, g1.len() as int) == g1,
        d1.len() <= d2.len(),
        d2.subrange(0, d1.len() as int) == d1,
        split_present(g1, d1, nwords, p, lw, j),
    ensures
        split_present(g2, d2, nwords, p, lw, j),
{
    let x = choose|x: int| 1 <= x < g1.len() && split_group(#[trigger] g1[x], d1, nwords, p, lw, j);
    assert(g2[x] == g1[x]);
    assert forall|y: int| 0 <= y < 2 implies {
        let a = #[trigger] g2[x].automatons@[y];
        d2[a.index - nwords] == d1[a.index - nwords]
    } by {
        let a = g1[x].automatons@[y];
        assert(split_group(g1[x], d1, nwords, p, lw, j));
        assert(nwords <= a.index < nwords + d1.len());
    }
    assert(split_group(g2[x], d2, nwords, p, lw, j));
}

/// Some group after the first holds the one automaton of expansion `text`,
/// exact where it is a single word, declared for the words `j..j + m`.
pub open spec fn synonym_present(
    g: Seq<AutomatonGroup>,
    d: Seq<Declaration>,
    nwords: nat,
    text: Seq<char>,
    j: int,
    m: int,
) -> bool {
    exists|x: int| 1 <= x < g.len() && synonym_group(#[trigger] g[x], d, nwords, text, j, m)
}

pub open spec fn synonym_group(
    g: AutomatonGroup,
    d: Seq<Declaration>,
    nwords: nat,
    text: Seq<char>,
    j: int,
    m: int,
) -> bool {
    &&& g.automatons@.len() == 1
    &&& g.automatons@[0].query@ == text
    &&& g.automatons@[0].is_exact == (word_count(text) == 1)
    &&& g.automatons@[0].ngram == m
    &&& nwords <= g.automatons@[0].index < nwords + d.len()
    &&& d[g.automatons@[0].index - nwords].start == j
    &&& d[g.automatons@[0].index - nwords].end == j + m
}

/// Expansion `e` of key `k` is owed to a window of `m` words searched with
/// `pattern`: the key has `m` words and is within the typo budget, and the
/// expansion has a word.
pub open spec fn synonym_due(
    syn: Seq<(Vec<char>, Vec<Vec<char>>)>,
    pattern: Seq<char>,
    prefix: bool,
    m: int,
    k: int,
    e: int,
) -> bool {
    &&& 0 <= k < syn.len()
    &&& 0 <= e < syn[k].1@.len()
    &&& word_count(syn[k].0@) == m
    &&& within_typos(pattern, typo_budget(pattern.len()), prefix, syn[k].0@)
    &&& word_count(syn[k].1@[e]@) > 0
}

proof fn lemma_synonym_persists(
    g1: Seq<AutomatonGroup>,
    d1: Seq<Declaration>,
    g2: Seq<AutomatonGroup>,
    d2: Seq<Declaration>,
    nwords: nat,
    text: Seq<char>,
    j: int,
    m: int,
)
    requires
        g1.len() <= g2.len(),
        g2.subrange(0, g1.len() as int) == g1,
        d1.len() <= d2.len(),
        d2.subrange(0, d1.len() as int) == d1,
        synonym_present(g1, d1, nwords, text, j, m),
    ensures
        synonym_present(g2, d2, nwords, text, j, m),
{
    let x = choose|x: int| 1 <= x < g1.len() && synonym_group(#[trigger] g1[x], d1, nwords, text, j, m);
    assert(g2[x] == g1[x]);
    let a = g1[x].automatons@[0];
    assert(d2[a.index - nwords] == d1[a.index - nwords]);
    assert(synonym_group(g2[x], d2, nwords, text, j, m));
}

/// Group `g` holds one automaton, on an expansion of a dictionary key of `n`
/// words that is within the typo budget of `pattern`.
pub open spec fn from_synonym(
    g: AutomatonGroup,
    syn: Seq<(Vec<char>, Vec<Vec<char>>)>,
    pattern: Seq<char>,
    prefix: bool,
    n: nat,
) -> bool {
    &&& g.automatons@.len() == 1
    &&& !g.is_phrase_query
    &&& exists|k: int, e: int|
        0 <= k < syn.len() && 0 <= e < syn[k].1@.len() && word_count(syn[k].0@) == n
            && within_typos(pattern, typo_budget(pattern.len()), prefix, syn[k].0@)
            && g.automatons@[0].query@ == #[trigger] syn[k].1@[e]@
}

/// Emits one automaton for each expansion of each dictionary key that is
/// within the typo budget of `normalized` and has `n` words, each declared
/// for the words `start..start + n`.
pub fn synonym_fan_out(
    snapshot: &IndexSnapshot,
    normalized: &Vec<char>,
    prefix: bool,
    n: usize,
    start: usize,
    groups: &mut Vec<AutomatonGroup>,
    builder: &mut QueryEnhancerBuilder,
    idx: &mut usize,
)
    requires
        0 < n,
        start + n <= old(builder).query_len,
        old(groups)@.len() >= 1,
        *old(idx) == old(builder).query_len + old(builder).declarations@.len(),
        *old(idx) + expansion_total(snapshot.synonyms@) < usize::MAX,
        in_step(old(groups)@, old(builder).declarations@, old(builder).query_len as nat),
    ensures
        final(groups)@.len() >= old(groups)@.len(),
        final(groups)@[0] == old(groups)@[0],
        final(builder).query_len == old(builder).query_len,
        *old(idx) <= *final(idx) <= *old(idx) + expansion_total(snapshot.synonyms@),
        *final(idx) == final(builder).query_len + final(builder).declarations@.len(),
        in_step(final(groups)@, final(builder).declarations@, final(builder).query_len as nat),
        final(groups)@.subrange(0, old(groups)@.len() as int) == old(groups)@,
        final(builder).declarations@.subrange(0, old(builder).declarations@.len() as int)
            == old(builder).declarations@,
        forall|x: int|
            old(groups)@.len() <= x < final(groups)@.len() ==> from_synonym(
                #[trigger] final(groups)@[x],
                snapshot.synonyms@,
                normalized@,
                prefix,
                n as nat,
            ),
        forall|x: int|
            old(groups)@.len() <= x < final(groups)@.len() ==> spanned(
                #[trigger] final(groups)@[x],
                final(builder).declarations@,
                final(builder).query_len as nat,
                start as int,
                n as int,
            ),
        forall|k: int, e: int|
            synonym_due(snapshot.synonyms@, normalized@, prefix, n as int, k, e) ==> #[trigger] synonym_present(
                final(groups)@,
                final(builder).declarations@,
                final(builder).query_len as nat,
                snapshot.synonyms@[k].1@[e]@,
                start as int,
                n as int,
            ),
{
    let ghost idx0 = *idx;
    let ghost g0 = groups@[0];
    let ghost syn = snapshot.synonyms@;
    let pattern = string_of(normalized);
    let matcher = build_matcher(pattern.as_str(), prefix);
    let mut k: usize = 0;
    while k < snapshot.synonyms.len()
        invariant
            0 <= k <= syn.len(),
            syn == snapshot.synonyms@,
            0 < n,
            start + n <= builder.query_len,
            groups@.len() >= 1,
            groups@[0] == g0,
            groups@.len() >= old(groups)@.len(),
            matcher.pattern() == normalized@,
            matcher.typos() == typo_budget(normalized@.len()),
            matcher.prefix() == prefix,
            builder.declarations@.subrange(0, old(builder).declarations@.len() as int)
                == old(builder).declarations@,
            builder.declarations@.len() >= old(builder).declarations@.len(),
            pattern@ == normalized@,
            groups@.subrange(0, old(groups)@.len() as int) == old(groups)@,
            forall|x: int|
                old(groups)@.len() <= x < groups@.len() ==> from_synonym(
                    #[trigger] groups@[x],
                    syn,
                    normalized@,
                    prefix,
                    n as nat,
                ),
            forall|x: int|
                old(groups)@.len() <= x < groups@.len() ==> spanned(
                    #[trigger] groups@[x],
                    builder.declarations@,
                    builder.query_len as nat,
                    start as int,
                    n as int,
                ),
            builder.query_len == old(builder).query_len,
            *idx == builder.query_len + builder.declarations@.len(),
            idx0 <= *idx <= idx0 + expansion_total(syn.subrange(0, k as int)),
            idx0 + expansion_total(syn) < usize::MAX,
            in_step(groups@, builder.declarations@, builder.query_len as nat),
            forall|k2: int, e2: int|
                k2 < k && synonym_due(syn, normalized@, prefix, n as int, k2, e2) ==> #[trigger] synonym_present(
                    groups@,
                    builder.declarations@,
                    builder.query_len as nat,
                    syn[k2].1@[e2]@,
                    start as int,
                    n as int,
                ),
        decreases syn.len() - k,
    {
        proof {
            assert(syn.subrange(0, k + 1).drop_last() =~= syn.subrange(0, k as int));
            lemma_total_prefix(syn, k + 1);
        }
        let key = &snapshot.synonyms[k].0;
        let exps = &snapshot.synonyms[k].1;
        let key_str = string_of(key);
        if matcher.accepts(key_str.as_str()) && count_words(key) == n {
            let mut e: usize = 0;
            let ghost idx1 = *idx;
            assert forall|k2: int, e2: int|
                (k2 < k || (k2 == k && e2 < e)) && synonym_due(syn, normalized@, prefix, n as int, k2, e2)
                    implies #[trigger] synonym_present(
                    groups@,
                    builder.declarations@,
                    builder.query_len as nat,
                    syn[k2].1@[e2]@,
                    start as int,
                    n as int,
                ) by {
                assert(k2 < k);
            }
            while e < exps.len()
                invariant
                    0 <= e <= exps@.len(),
                    exps@ == syn[k as int].1@,
                    k < syn.len(),
                    0 < n,
                    start + n <= builder.query_len,
                    groups@.len() >= 1,
                    groups@[0] == g0,
                    groups@.len() >= old(groups)@.len(),
                            word_count(syn[k as int].0@) == n,
                    builder.declarations@.subrange(0, old(builder).declarations@.len() as int)
                        == old(builder).declarations@,
                    builder.declarations@.len() >= old(builder).declarations@.len(),
                    within_typos(normalized@, typo_budget(normalized@.len()), prefix, syn[k as int].0@),
                    groups@.subrange(0, old(groups)@.len() as int) == old(groups)@,
                    forall|x: int|
                        old(groups)@.len() <= x < groups@.len() ==> from_synonym(
                            #[trigger] groups@[x],
                            syn,
                            normalized@,
                            prefix,
                            n as nat,
                        ),
                    forall|x: int|
                        old(groups)@.len() <= x < groups@.len() ==> spanned(
                            #[trigger] groups@[x],
                            builder.declarations@,
                            builder.query_len as nat,
                            start as int,
                            n as int,
                        ),
                    builder.query_len == old(builder).query_len,
                    *idx == builder.query_len + builder.declarations@.len(),
                    idx1 <= *idx <= idx1 + e,
                    idx1 + exps@.len() <= idx0 + expansion_total(syn.subrange(0, k + 1)),
                    idx0 + expansion_total(syn) < usize::MAX,
                    idx0 + expansion_total(syn.subrange(0, k + 1)) <= idx0 + expansion_total(syn),
                    in_step(groups@, builder.declarations@, builder.query_len as nat),
                    forall|k2: int, e2: int|
                        (k2 < k || (k2 == k && e2 < e)) && synonym_due(syn, normalized@, prefix, n as int, k2, e2)
                            ==> #[trigger] synonym_present(
                            groups@,
                            builder.declarations@,
                            builder.query_len as nat,
                            syn[k2].1@[e2]@,
                            start as int,
                            n as int,
                        ),
                decreases exps@.len() - e,
            {
                let words = split_words(&exps[e]);
                if words.len() > 0 {
                    let expansion = strings_of(&words);
                    let exact = words.len() == 1;
                    let ghost gb = groups@;
                    let ghost db = builder.declarations@;
                    push_declared(groups, builder, idx, start, start + n, exact, &exps[e], expansion);
                    proof {
                        assert(groups@.subrange(0, old(groups)@.len() as int) =~= gb.subrange(0, old(groups)@.len() as int));
                        assert(builder.declarations@.subrange(0, old(builder).declarations@.len() as int) =~= db.subrange(0, old(builder).declarations@.len() as int));
                        assert forall|x: int|
                            old(groups)@.len() <= x < groups@.len() implies from_synonym(
                                #[trigger] groups@[x],
                                syn,
                                normalized@,
                                prefix,
                                n as nat,
                            ) by {
                            if x < groups@.len() - 1 {
                                assert(groups@[x] == gb[x]);
                            } else {
                                assert(groups@[x].automatons@[0].query@ == syn[k as int].1@[e as int]@);
                            }
                        }
                        let g = groups@;
                        let d = builder.declarations@;
                        let nw = builder.query_len as nat;
                        assert(g.subrange(0, gb.len() as int) =~= gb);
                        assert(d.subrange(0, db.len() as int) =~= db);
                        assert forall|x: int|
                            old(groups)@.len() <= x < g.len() implies spanned(
                                #[trigger] g[x],
                                d,
                                nw,
                                start as int,
                                n as int,
                            ) by {
                            if x < g.len() - 1 {
                                assert(g[x] == gb[x]);
                                lemma_spanned_persists(gb[x], db, d, nw, start as int, n as int);
                            } else {
                                assert(g[x].automatons@[0].index == nw + db.len());
                            }
                        }
                        assert forall|k2: int, e2: int|
                            (k2 < k || (k2 == k && e2 < e + 1)) && synonym_due(syn, normalized@, prefix, n as int, k2, e2)
                                implies #[trigger] synonym_present(g, d, nw, syn[k2].1@[e2]@, start as int, n as int) by {
                            if k2 == k && e2 == e {
                                assert(synonym_group(g[g.len() - 1], d, nw, syn[k2].1@[e2]@, start as int, n as int));
                            } else {
                                lemma_synonym_persists(gb, db, g, d, nw, syn[k2].1@[e2]@, start as int, n as int);
                            }
                        }
                    }
                }
                e += 1;
            }
        }
        k += 1;
    }
    assert(syn.subrange(0, k as int) =~= syn);
    assert forall|k2: int, e2: int|
        synonym_due(snapshot.synonyms@, normalized@, prefix, n as int, k2, e2) implies #[trigger] synonym_present(
            groups@,
            builder.declarations@,
            builder.query_len as nat,
            snapshot.synonyms@[k2].1@[e2]@,
            start as int,
            n as int,
        ) by {
        assert(k2 < k);
    }
}

proof fn lemma_total_prefix(s: Seq<(Vec<char>, Vec<Vec<char>>)>, k: int)
    requires
        0 <= k <= s.len(),
    ensures
        expansion_total(s.subrange(0, k)) <= expansion_total(s),
    decreases s.len() - k,
{
    if k < s.len() {
        lemma_total_prefix(s, k + 1);
        assert(s.subrange(0, k + 1).drop_last() =~= s.subrange(0, k));
    } else {
        assert(s.subrange(0, k) =~= s);
    }
}

/// Automaton `a` resolves to one span alone: as many query words as it stands
/// for, within the `nwords` query words.
pub open spec fn resolves_to_own_span(e: QueryEnhancer, a: Automaton, nwords: nat) -> bool {
    let r = ranges_for(e.declarations@, a.index);
    &&& r.len() == 1
    &&& r[0].0 < r[0].1 <= nwords
    &&& r[0].1 - r[0].0 == a.ngram
}

/// Some group after the first holds the one exact automaton of the
/// normalized concatenation of the query words `j..j + m`, which resolves to
/// those words.
pub open spec fn concat_emitted(
    g: Seq<AutomatonGroup>,
    e: QueryEnhancer,
    lw: Seq<Seq<char>>,
    j: int,
    m: int,
) -> bool {
    exists|x: int|
        1 <= x < g.len() && {
            let a = (#[trigger] g[x]).automatons@[0];
            &&& g[x].automatons@.len() == 1
            &&& a.query@ == normal_form(concatenated(lw.subrange(j, j + m)))
            &&& a.is_exact
            &&& !a.is_prefix
            &&& !g[x].is_phrase_query
            &&& a.ngram == m
            &&& ranges_for(e.declarations@, a.index) == seq![(j as usize, (j + m) as usize)]
        }
}

/// Some group after the first is the phrase query of the best cut of the
/// normalized query word `j`, each half resolving to that word.
pub open spec fn split_emitted(
    g: Seq<AutomatonGroup>,
    e: QueryEnhancer,
    p: Seq<(Seq<char>, nat)>,
    lw: Seq<Seq<char>>,
    j: int,
) -> bool {
    let w = normal_form(lw[j]);
    exists|x: int|
        1 <= x < g.len() && {
            let h = #[trigger] g[x];
            &&& h.is_phrase_query
            &&& h.automatons@.len() == 2
            &&& exists|c: int|
                best_cut(p, w, c) && h.automatons@[0].query@ == w.subrange(0, c)
                    && h.automatons@[1].query@ == #[trigger] w.subrange(c, w.len() as int)
            &&& ranges_for(e.declarations@, h.automatons@[0].index) == seq![(j as usize, (j + 1) as usize)]
            &&& ranges_for(e.declarations@, h.automatons@[1].index) == seq![(j as usize, (j + 1) as usize)]
        }
}

/// The normalized text of the words `j..j + m` joined with spaces: what the
/// synonym dictionary is searched with.
pub open spec fn window_pattern(lw: Seq<Seq<char>>, j: int, m: int) -> Seq<char> {
    normal_form(joined(lw.subrange(j, j + m)))
}

/// Whether the window `j..j + m` is searched with a prefix automaton: it is
/// the last window, the query does not end with whitespace, and it is not all
/// CJK.
pub open spec fn window_prefix(lw: Seq<Seq<char>>, j: int, m: int, trailing: bool) -> bool {
    !(j + m < lw.len() || trailing || all_cjk(joined(lw.subrange(j, j + m))))
}

/// Some group after the first holds the one automaton of expansion `text`,
/// exact where it is a single word, resolving to the words `j..j + m`.
pub open spec fn synonym_emitted(
    g: Seq<AutomatonGroup>,
    e: QueryEnhancer,
    text: Seq<char>,
    j: int,
    m: int,
) -> bool {
    exists|x: int|
        1 <= x < g.len() && {
            let a = (#[trigger] g[x]).automatons@[0];
            &&& g[x].automatons@.len() == 1
            &&& a.query@ == text
            &&& a.is_exact == (word_count(text) == 1)
            &&& a.ngram == m
            &&& ranges_for(e.declarations@, a.index) == seq![(j as usize, (j + m) as usize)]
        }
}

pub open spec fn lowercase_words(words: Seq<String>) -> Seq<Seq<char>> {
    words.map_values(|w: String| lowercase_of(w@))
}

/// What a compiled query holds: the query words' own group first, the other
/// groups sorted by priority with equal priorities in emission order, each of
/// them owed to some window of words, resolving to that window, and shaped as
/// its kind asks; every automaton's `query_len` is its UTF-8 length; every
/// automaton owed to a window (its synonyms, its best split, its
/// concatenation) is there and resolves to that window alone; the indices
/// after the query words are distinct, and each declaration is numbered on
/// from the query words and belongs to an emitted automaton; the query words'
/// own automatons resolve to nothing.
pub open spec fn compiled(
    query: Seq<char>,
    words: Seq<String>,
    snapshot: IndexSnapshot,
    g: Seq<AutomatonGroup>,
    e: QueryEnhancer,
) -> bool {
    &&& g.len() >= 1
    &&& word_group(g[0], lowercase_words(words), ends_with_space(query))
    &&& sorted_by_priority(g.subrange(1, g.len() as int))
    &&& forall|x: int| 1 <= x < g.len() ==> (#[trigger] g[x]).automatons@.len() > 0
    &&& forall|x: int| 1 <= x < g.len() ==> tail_shape(#[trigger] g[x])
    &&& forall|x: int, y: int|
        0 <= x < g.len() && 0 <= y < g[x].automatons@.len() ==> byte_length_kept(
            #[trigger] g[x].automatons@[y],
        )
    &&& forall|x: int|
        1 <= x < g.len() ==> attributed(
            #[trigger] g[x],
            e,
            snapshot.synonyms@,
            postings_view(snapshot.postings@),
            lowercase_words(words),
            ends_with_space(query),
        )
    &&& forall|x: int, z: int|
        1 <= x < z < g.len() && group_key_le(#[trigger] g[z], #[trigger] g[x]) ==> g[x].automatons@[0].index
            < g[z].automatons@[0].index
    &&& forall|x: int, y: int|
        1 <= x < g.len() && 0 <= y < g[x].automatons@.len() ==> resolves_to_own_span(
            e,
            #[trigger] g[x].automatons@[y],
            words.len() as nat,
        )
    &&& forall|i: usize| i < words.len() ==> (#[trigger] ranges_for(e.declarations@, i)).len() == 0
    &&& forall|x1: int, y1: int, x2: int, y2: int|
        1 <= x1 < g.len() && 1 <= x2 < g.len() && 0 <= y1 < g[x1].automatons@.len() && 0 <= y2
            < g[x2].automatons@.len() && (x1 != x2 || y1 != y2) ==> (#[trigger] g[x1].automatons@[y1]).index
            != (#[trigger] g[x2].automatons@[y2]).index
    &&& forall|k: int|
        0 <= k < e.declarations@.len() ==> (#[trigger] e.declarations@[k]).index == words.len() + k
            && declared_for_emitted(g, words.len() + k)
    &&& forall|m: int, j: int|
        2 <= m <= NGRAMS && 0 <= j && j + m <= words.len() ==> #[trigger] concat_emitted(
            g,
            e,
            lowercase_words(words),
            j,
            m,
        )
    &&& forall|j: int|
        0 <= j < words.len() && splittable(
            postings_view(snapshot.postings@),
            normal_form(lowercase_words(words)[j]),
        ) ==> #[trigger] split_emitted(
            g,
            e,
            postings_view(snapshot.postings@),
            lowercase_words(words),
            j,
        )
    &&& forall|m: int, j: int, k: int, t: int|
        1 <= m <= NGRAMS && 0 <= j && j + m <= words.len() && synonym_due(
            snapshot.synonyms@,
            window_pattern(lowercase_words(words), j, m),
            window_prefix(lowercase_words(words), j, m, ends_with_space(query)),
            m,
            k,
            t,
        ) ==> #[trigger] synonym_emitted(g, e, snapshot.synonyms@[k].1@[t]@, j, m)
}

/// Compiles a query, given as its text and the words that the tokenizer found
/// in it, against a snapshot of the index: the groups of automatons in the
/// order they are to be tried, and the enhancer that maps each synthesized
/// automaton back to the query words it stands for.
#[verifier::rlimit(100)]
#[verifier::spinoff_prover]
pub fn generate_automatons(query: &str, words: &Vec<String>, snapshot: &IndexSnapshot) -> (r: (
    Vec<AutomatonGroup>,
    QueryEnhancer,
))
    requires
        index_room(words@.len() as nat, expansion_total(snapshot.synonyms@)) < usize::MAX,
    ensures
        compiled(query@, words@, *snapshot, r.0@, r.1),
{
    let qchars = chars_of(query);
    let has_end_whitespace = qchars.len() > 0 && is_whitespace(qchars[qchars.len() - 1]);
    let ghost trailing = ends_with_space(query@);
    let ghost lw = lowercase_words(words@);
    let mut lower: Vec<Vec<char>> = Vec::new();
    let mut i: usize = 0;
    while i < words.len()
        invariant
            0 <= i <= words@.len(),
            lower@.len() == i,
            lw == lowercase_words(words@),
            forall|k: int| 0 <= k < i ==> (#[trigger] lower@[k])@ == lw[k],
        decreases words@.len() - i,
    {
        let l = lowercase(words[i].as_str());
        lower.push(chars_of(l.as_str()));
        i += 1;
    }
    let nwords = lower.len();
    let mut own: Vec<Automaton> = Vec::new();
    let mut i: usize = 0;
    while i < nwords
        invariant
            0 <= i <= nwords,
            nwords == lower@.len(),
            nwords == lw.len(),
            has_end_whitespace == trailing,
            forall|k: int| 0 <= k < nwords ==> (#[trigger] lower@[k])@ == lw[k],
            own@.len() == i,
            forall|k: int| 0 <= k < i ==> word_automaton(#[trigger] own@[k], k, lw, trailing),
        decreases nwords - i,
    {
        let not_prefix = i + 1 < nwords || has_end_whitespace || only_cjk(&lower[i]);
        let a = if not_prefix {
            Automaton::exact(i, 1, &lower[i])
        } else {
            Automaton::prefix_exact(i, 1, &lower[i])
        };
        own.push(a);
        i += 1;
    }
    let mut groups: Vec<AutomatonGroup> = Vec::new();
    groups.push(AutomatonGroup::normal(own));
    let ghost g0 = groups@[0];
    let mut builder = QueryEnhancerBuilder::new(nwords);
    let mut idx: usize = nwords;
    let ghost t = expansion_total(snapshot.synonyms@);
    let ghost mut done: nat = 0;
    let ghost mut cap: nat = 0;
    let ghost pv = postings_view(snapshot.postings@);
    let mut n: usize = 1;
    while n <= NGRAMS
        invariant
            1 <= n <= 4,
            nwords == lower@.len(),
            nwords == words@.len(),
            groups@.len() >= 1,
            groups@[0] == g0,
            builder.query_len == nwords,
            idx == nwords + builder.declarations@.len(),
            n == 1 ==> cap == 0,
            n == 2 ==> cap == nwords,
            n == 3 ==> cap == 2 * nwords,
            n == 4 ==> cap == 3 * nwords,
            done <= cap,
            idx <= nwords + done * (t + 2),
            t == expansion_total(snapshot.synonyms@),
            index_room(nwords as nat, t) < usize::MAX,
            in_step(groups@, builder.declarations@, nwords as nat),
            lw == lowercase_words(words@),
            forall|k: int| 0 <= k < nwords ==> (#[trigger] lower@[k])@ == lw[k],
            forall|m: int, j: int|
                2 <= m < n && 0 <= j && j + m <= nwords ==> #[trigger] concat_present(
                    groups@,
                    builder.declarations@,
                    nwords as nat,
                    lw,
                    j,
                    m,
                ),
            forall|j: int|
                0 <= j < nwords && n > 1 && splittable(pv, normal_form(lw[j])) ==> #[trigger] split_present(
                    groups@,
                    builder.declarations@,
                    nwords as nat,
                    pv,
                    lw,
                    j,
                ),
            pv == postings_view(snapshot.postings@),
            forall|m: int, j: int, k: int, e: int|
                1 <= m < n && 0 <= j && j + m <= nwords && synonym_due(
                    snapshot.synonyms@,
                    window_pattern(lw, j, m),
                    window_prefix(lw, j, m, trailing),
                    m,
                    k,
                    e,
                ) ==> #[trigger] synonym_present(
                    groups@,
                    builder.declarations@,
                    nwords as nat,
                    snapshot.synonyms@[k].1@[e]@,
                    j,
                    m,
                ),
            forall|x: int|
                1 <= x < groups@.len() ==> provenance(#[trigger] groups@[x], builder.declarations@, nwords as nat, snapshot.synonyms@, pv, lw, trailing),
            has_end_whitespace == trailing,
        decreases 4 - n,
    {
        let mut i: usize = 0;
        while n <= nwords && i <= nwords - n
            invariant
                1 <= n <= 3,
                0 <= i <= nwords,
                nwords == lower@.len(),
                groups@.len() >= 1,
                groups@[0] == g0,
                builder.query_len == nwords,
                idx == nwords + builder.declarations@.len(),
                n == 1 ==> cap == 0,
                n == 2 ==> cap == nwords,
                n == 3 ==> cap == 2 * nwords,
                done <= cap + i,
                idx <= nwords + done * (t + 2),
                t == expansion_total(snapshot.synonyms@),
                index_room(nwords as nat, t) < usize::MAX,
                in_step(groups@, builder.declarations@, nwords as nat),
                lw == lowercase_words(words@),
                nwords == lw.len(),
                forall|k: int| 0 <= k < nwords ==> (#[trigger] lower@[k])@ == lw[k],
                forall|m: int, j: int|
                    2 <= m <= 3 && 0 <= j && j + m <= nwords && (m < n || (m == n && j < i))
                        ==> #[trigger] concat_present(
                        groups@,
                        builder.declarations@,
                        nwords as nat,
                        lw,
                        j,
                        m,
                    ),
                forall|j: int|
                    0 <= j < nwords && (n > 1 || j < i) && splittable(pv, normal_form(lw[j])) ==> #[trigger] split_present(
                        groups@,
                        builder.declarations@,
                        nwords as nat,
                        pv,
                        lw,
                        j,
                    ),
                pv == postings_view(snapshot.postings@),
                forall|m: int, j: int, k: int, e: int|
                    1 <= m <= 3 && (m < n || (m == n && j < i)) && 0 <= j && j + m <= nwords && synonym_due(
                        snapshot.synonyms@,
                        window_pattern(lw, j, m),
                        window_prefix(lw, j, m, trailing),
                        m,
                        k,
                        e,
                    ) ==> #[trigger] synonym_present(
                        groups@,
                        builder.declarations@,
                        nwords as nat,
                        snapshot.synonyms@[k].1@[e]@,
                        j,
                        m,
                    ),
                forall|x: int|
                    1 <= x < groups@.len() ==> provenance(#[trigger] groups@[x], builder.declarations@, nwords as nat, snapshot.synonyms@, pv, lw, trailing),
                has_end_whitespace == trailing,
            decreases nwords - i,
        {
            proof {
                assert(done + 1 <= 3 * nwords);
                assert((done + 1) * (t + 2) <= 3 * nwords * (t + 2)) by (nonlinear_arith)
                    requires
                        done + 1 <= 3 * nwords,
                ;
                assert((done + 1) * (t + 2) == done * (t + 2) + t + 2) by (nonlinear_arith);
            }
            let ghost g_s = groups@;
            let ghost d_s = builder.declarations@;
            let ngram = join_words(&lower, i, i + n);
            proof {
                assert(lower@.subrange(i as int, i + n).map_values(|w: Vec<char>| w@)
                    =~= lw.subrange(i as int, i + n));
            }
            let not_prefix = i + n < nwords || has_end_whitespace || only_cjk(&ngram);
            let normalized = chars_of(normalize_str(string_of(&ngram).as_str()).as_str());
            let ghost normalized_window = normalized@;
            proof {
                assert(normalized_window == window_pattern(lw, i as int, n as int));
                assert(!not_prefix == window_prefix(lw, i as int, n as int, trailing));
            }
            synonym_fan_out(
                snapshot,
                &normalized,
                !not_prefix,
                n,
                i,
                &mut groups,
                &mut builder,
                &mut idx,
            );
            let ghost g_f = groups@;
            let ghost d_f = builder.declarations@;
            if n == 1 {
                proof {
                    assert(lower@.subrange(i as int, i + 1).map_values(|w: Vec<char>| w@)
                        =~= seq![lw[i as int]]);
                    assert(normalized@ == normal_form(lw[i as int]));
                }
                match snapshot.split_best_frequency(&normalized) {
                    Some((left, right)) => {
                        push_split(&mut groups, &mut builder, &mut idx, i, &left, &right);
                        proof {
                            let g = groups@;
                            let d = builder.declarations@;
                            let w = normal_form(lw[i as int]);
                            let c = choose|c: int|
                                best_cut(pv, w, c) && left@ == w.subrange(0, c) && right@
                                    == w.subrange(c, w.len() as int);
                            assert(g[g.len() - 1].automatons@[1].query@ == w.subrange(c, w.len() as int));
                            assert(split_group(g[g.len() - 1], d, nwords as nat, pv, lw, i as int));
                            assert(owed_to(g[g.len() - 1], snapshot.synonyms@, pv, lw, trailing, i as int, 1));
                        }
                    },
                    None => {},
                }
            } else {
                let concat = concat_words(&lower, i, i + n);
                proof {
                    assert(lower@.subrange(i as int, i + n).map_values(|w: Vec<char>| w@)
                        =~= lw.subrange(i as int, i + n));
                }
                let normalized = chars_of(normalize_str(string_of(&concat).as_str()).as_str());
                let mut expansion: Vec<String> = Vec::new();
                expansion.push(string_of(&normalized));
                push_declared(
                    &mut groups,
                    &mut builder,
                    &mut idx,
                    i,
                    i + n,
                    true,
                    &normalized,
                    expansion,
                );
                proof {
                    let g = groups@;
                    assert(owed_to(g[g.len() - 1], snapshot.synonyms@, pv, lw, trailing, i as int, n as int));
                }
            }
            proof {
                done = (done + 1) as nat;
                let g = groups@;
                let d = builder.declarations@;
                assert(g.subrange(0, g_f.len() as int) =~= g_f);
                assert(d.subrange(0, d_f.len() as int) =~= d_f);
                assert(d.subrange(0, d_s.len() as int) =~= d_s);
                assert forall|x: int| 1 <= x < g.len() implies provenance(
                    #[trigger] g[x],
                    d,
                    nwords as nat,
                    snapshot.synonyms@,
                    pv,
                    lw,
                    trailing,
                ) by {
                    if x < g_s.len() {
                        assert(g[x] == g_s[x]);
                        let (j, m) = choose|j: int, m: int|
                            1 <= m <= NGRAMS && 0 <= j && j + m <= lw.len() && #[trigger] owed_to(
                                g_s[x], snapshot.synonyms@, pv, lw, trailing, j, m)
                                && spanned(g_s[x], d_s, nwords as nat, j, m);
                        lemma_spanned_persists(g_s[x], d_s, d, nwords as nat, j, m);
                        assert(owed_to(g[x], snapshot.synonyms@, pv, lw, trailing, j, m));
                    } else if x < g_f.len() {
                        assert(g[x] == g_f[x]);
                        assert(from_synonym(g_f[x], snapshot.synonyms@, normalized_window, !not_prefix, n as nat));
                        assert(owed_to(g[x], snapshot.synonyms@, pv, lw, trailing, i as int, n as int));
                        lemma_spanned_persists(g_f[x], d_f, d, nwords as nat, i as int, n as int);
                    } else {
                        assert(owed_to(g[x], snapshot.synonyms@, pv, lw, trailing, i as int, n as int));
                        assert(spanned(g[x], d, nwords as nat, i as int, n as int));
                    }
                }
                assert(g.subrange(0, g_f.len() as int) =~= g_f);
                assert(d.subrange(0, d_f.len() as int) =~= d_f);
                assert(g.subrange(0, g_s.len() as int) =~= g_s);
                assert(d.subrange(0, d_s.len() as int) =~= d_s);
                assert forall|j: int|
                    0 <= j < nwords && (n > 1 || j < i + 1) && splittable(pv, normal_form(lw[j]))
                        implies #[trigger] split_present(g, d, nwords as nat, pv, lw, j) by {
                    if n == 1 && j == i {
                        assert(split_group(g[g.len() - 1], d, nwords as nat, pv, lw, j));
                    } else {
                        lemma_split_persists(g_s, d_s, g, d, nwords as nat, pv, lw, j);
                    }
                }
                assert forall|m: int, j: int, k: int, e: int|
                    1 <= m <= 3 && (m < n || (m == n && j < i + 1)) && 0 <= j && j + m <= nwords
                        && synonym_due(
                        snapshot.synonyms@,
                        window_pattern(lw, j, m),
                        window_prefix(lw, j, m, trailing),
                        m,
                        k,
                        e,
                    ) implies #[trigger] synonym_present(
                        g,
                        d,
                        nwords as nat,
                        snapshot.synonyms@[k].1@[e]@,
                        j,
                        m,
                    ) by {
                    if m == n && j == i {
                        lemma_synonym_persists(g_f, d_f, g, d, nwords as nat, snapshot.synonyms@[k].1@[e]@, j, m);
                    } else {
                        lemma_synonym_persists(g_s, d_s, g, d, nwords as nat, snapshot.synonyms@[k].1@[e]@, j, m);
                    }
                }
                assert forall|m: int, j: int|
                    2 <= m <= 3 && 0 <= j && j + m <= nwords && (m < n || (m == n && j < i + 1))
                        implies #[trigger] concat_present(g, d, nwords as nat, lw, j, m) by {
                    if m == n && j == i {
                        assert(concat_group(g[g.len() - 1], d, nwords as nat, lw, j, m));
                    } else {
                        lemma_concat_persists(g_s, d_s, g, d, nwords as nat, lw, j, m);
                    }
                }
            }
            i += 1;
        }
        proof {
            cap = (cap + nwords) as nat;
        }
        n += 1;
    }
    let ghost before = groups@;
    let ghost decls = builder.declarations@;
    let ordered = order_groups(groups);
    let enhancer = builder.build();
    proof {
        let tail = ordered@.subrange(1, ordered@.len() as int);
        let pos = choose|pos: Seq<int>| stable_placement(tail, before, 1, pos);
        assert forall|x: int, z: int|
            1 <= x < z < ordered@.len() && group_key_le(#[trigger] ordered@[z], #[trigger] ordered@[x])
                implies ordered@[x].automatons@[0].index < ordered@[z].automatons@[0].index by {
            assert(tail[x - 1] == ordered@[x] && tail[z - 1] == ordered@[z]);
            assert(pos[x - 1] < pos[z - 1]);
            assert(before[pos[x - 1]] == ordered@[x]);
            assert(before[pos[z - 1]] == ordered@[z]);
            assert(1 <= pos[x - 1] && pos[z - 1] < before.len());
        }
        let otail = before.subrange(1, before.len() as int);
        assert forall|x: int| 1 <= x < ordered@.len() implies {
            &&& (#[trigger] ordered@[x]).automatons@.len() > 0
            &&& tail_shape(ordered@[x])
            &&& forall|y: int| 0 <= y < ordered@[x].automatons@.len() ==> byte_length_kept(
                #[trigger] ordered@[x].automatons@[y])
            &&& attributed(ordered@[x], enhancer, snapshot.synonyms@, pv, lw, trailing)
            &&& forall|y: int|
                0 <= y < ordered@[x].automatons@.len() ==> resolves_to_own_span(
                    enhancer,
                    #[trigger] ordered@[x].automatons@[y],
                    nwords as nat,
                )
        } by {
            let gx = ordered@[x];
            assert(tail[x - 1] == gx);
            vstd::seq_lib::to_multiset_contains(tail, gx);
            vstd::seq_lib::to_multiset_contains(otail, gx);
            assert(otail.contains(gx));
            let z = choose|z: int| 0 <= z < otail.len() && otail[z] == gx;
            assert(before[z + 1] == gx);
            assert(tail_shape(before[z + 1]));
            assert forall|y: int| 0 <= y < gx.automatons@.len() implies byte_length_kept(
                #[trigger] gx.automatons@[y]) by {
                assert(byte_length_kept(before[z + 1].automatons@[y]));
            }
            assert(provenance(before[z + 1], decls, nwords as nat, snapshot.synonyms@, pv, lw, trailing));
            let (j, m) = choose|j: int, m: int|
                1 <= m <= NGRAMS && 0 <= j && j + m <= lw.len() && #[trigger] owed_to(
                    gx, snapshot.synonyms@, pv, lw, trailing, j, m)
                    && spanned(gx, decls, nwords as nat, j, m);
            assert forall|y: int| 0 <= y < gx.automatons@.len() implies ranges_for(
                enhancer.declarations@,
                (#[trigger] gx.automatons@[y]).index,
            ) == seq![(j as usize, (j + m) as usize)] by {
                let a = gx.automatons@[y];
                lemma_numbered_resolution(decls, nwords as nat, a.index);
                assert(seq![(decls[a.index - nwords].start, decls[a.index - nwords].end)]
                    =~= seq![(j as usize, (j + m) as usize)]);
            }
            assert(owed_to(gx, snapshot.synonyms@, pv, lw, trailing, j, m));
            assert forall|y: int| 0 <= y < gx.automatons@.len() implies resolves_to_own_span(
                enhancer,
                #[trigger] gx.automatons@[y],
                nwords as nat,
            ) by {
                let a = gx.automatons@[y];
                assert(anchored(before[z + 1].automatons@[y], decls, nwords as nat));
                lemma_numbered_resolution(decls, nwords as nat, a.index);
            }
        }
        assert(forall|x: int| 1 <= x < ordered@.len() ==> tail_shape(#[trigger] ordered@[x]));
        assert forall|m: int, j: int|
            2 <= m <= NGRAMS && 0 <= j && j + m <= nwords implies #[trigger] concat_emitted(
            ordered@,
            enhancer,
            lw,
            j,
            m,
        ) by {
            assert(concat_present(before, decls, nwords as nat, lw, j, m));
            let z = choose|z: int|
                1 <= z < before.len() && concat_group(#[trigger] before[z], decls, nwords as nat, lw, j, m);
            let gz = before[z];
            assert(otail[z - 1] == gz);
            vstd::seq_lib::to_multiset_contains(otail, gz);
            vstd::seq_lib::to_multiset_contains(tail, gz);
            assert(tail.contains(gz));
            let x = choose|x: int| 0 <= x < tail.len() && tail[x] == gz;
            assert(ordered@[x + 1] == gz);
            lemma_numbered_resolution(decls, nwords as nat, gz.automatons@[0].index);
            assert(ranges_for(enhancer.declarations@, gz.automatons@[0].index) =~= seq![(j as usize, (j + m) as usize)]);
        }
        assert forall|j: int|
            0 <= j < nwords && splittable(pv, normal_form(lw[j])) implies #[trigger] split_emitted(
            ordered@,
            enhancer,
            pv,
            lw,
            j,
        ) by {
            assert(split_present(before, decls, nwords as nat, pv, lw, j));
            let z = choose|z: int|
                1 <= z < before.len() && split_group(#[trigger] before[z], decls, nwords as nat, pv, lw, j);
            let gz = before[z];
            assert(otail[z - 1] == gz);
            vstd::seq_lib::to_multiset_contains(otail, gz);
            vstd::seq_lib::to_multiset_contains(tail, gz);
            assert(tail.contains(gz));
            let x = choose|x: int| 0 <= x < tail.len() && tail[x] == gz;
            assert(ordered@[x + 1] == gz);
            let a0 = gz.automatons@[0];
            let a1 = gz.automatons@[1];
            assert(nwords <= a0.index < nwords + decls.len());
            assert(nwords <= a1.index < nwords + decls.len());
            lemma_numbered_resolution(decls, nwords as nat, a0.index);
            lemma_numbered_resolution(decls, nwords as nat, a1.index);
            assert(ranges_for(enhancer.declarations@, a0.index) =~= seq![(j as usize, (j + 1) as usize)]);
            assert(ranges_for(enhancer.declarations@, a1.index) =~= seq![(j as usize, (j + 1) as usize)]);
        }
        assert forall|m: int, j: int, k: int, e: int|
            1 <= m <= NGRAMS && 0 <= j && j + m <= nwords && synonym_due(
                snapshot.synonyms@,
                window_pattern(lw, j, m),
                window_prefix(lw, j, m, trailing),
                m,
                k,
                e,
            ) implies #[trigger] synonym_emitted(ordered@, enhancer, snapshot.synonyms@[k].1@[e]@, j, m) by {
            let text = snapshot.synonyms@[k].1@[e]@;
            assert(synonym_present(before, decls, nwords as nat, text, j, m));
            let z = choose|z: int|
                1 <= z < before.len() && synonym_group(#[trigger] before[z], decls, nwords as nat, text, j, m);
            let gz = before[z];
            assert(otail[z - 1] == gz);
            vstd::seq_lib::to_multiset_contains(otail, gz);
            vstd::seq_lib::to_multiset_contains(tail, gz);
            assert(tail.contains(gz));
            let x = choose|x: int| 0 <= x < tail.len() && tail[x] == gz;
            assert(ordered@[x + 1] == gz);
            lemma_numbered_resolution(decls, nwords as nat, gz.automatons@[0].index);
            assert(ranges_for(enhancer.declarations@, gz.automatons@[0].index) =~= seq![(j as usize, (j + m) as usize)]);
        }
        assert forall|x1: int, y1: int, x2: int, y2: int|
            1 <= x1 < ordered@.len() && 1 <= x2 < ordered@.len() && 0 <= y1 < ordered@[x1].automatons@.len()
                && 0 <= y2 < ordered@[x2].automatons@.len() && (x1 != x2 || y1 != y2) implies (
            #[trigger] ordered@[x1].automatons@[y1]).index != (
            #[trigger] ordered@[x2].automatons@[y2]).index by {
            let p1 = pos[x1 - 1];
            let p2 = pos[x2 - 1];
            assert(tail[x1 - 1] == ordered@[x1] && tail[x2 - 1] == ordered@[x2]);
            assert(before[p1] == ordered@[x1] && before[p2] == ordered@[x2]);
            assert(1 <= p1 < before.len() && 1 <= p2 < before.len());
            assert(tail_shape(before[p1]) && tail_shape(before[p2]));
            if x1 != x2 {
                assert(p1 != p2);
                if p1 < p2 {
                    assert(before[p1].automatons@[y1].index < before[p2].automatons@[0].index);
                } else {
                    assert(before[p2].automatons@[y2].index < before[p1].automatons@[0].index);
                }
            }
        }
        assert forall|k: int| 0 <= k < decls.len() implies (#[trigger] decls[k]).index == nwords + k
            && declared_for_emitted(ordered@, nwords + k) by {
            assert(declared_for_emitted(before, nwords + k));
            let (x, y) = choose|x: int, y: int|
                1 <= x < before.len() && 0 <= y < before[x].automatons@.len()
                    && (#[trigger] before[x].automatons@[y]).index == nwords + k;
            let gz = before[x];
            assert(otail[x - 1] == gz);
            vstd::seq_lib::to_multiset_contains(otail, gz);
            vstd::seq_lib::to_multiset_contains(tail, gz);
            assert(tail.contains(gz));
            let w = choose|w: int| 0 <= w < tail.len() && tail[w] == gz;
            assert(ordered@[w + 1] == gz);
            assert(ordered@[w + 1].automatons@[y].index == nwords + k);
        }
        assert forall|i: usize| i < nwords implies (#[trigger] ranges_for(
            enhancer.declarations@,
            i,
        )).len() == 0 by {
            lemma_numbered_resolution(decls, nwords as nat, i);
        }
    }
    (ordered, enhancer)
}

impl AutomatonProducer {
    /// Compiles a query; see `generate_automatons`.
    pub fn new(query: &str, words: &Vec<String>, snapshot: &IndexSnapshot) -> (r: (
        AutomatonProducer,
        QueryEnhancer,
    ))
        requires
            index_room(words@.len() as nat, expansion_total(snapshot.synonyms@)) < usize::MAX,
        ensures
            compiled(query@, words@, *snapshot, r.0.automatons@, r.1),
    {
        let (automatons, enhancer) = generate_automatons(query, words, snapshot);
        (AutomatonProducer { automatons }, enhancer)
    }
}

} // verus!
