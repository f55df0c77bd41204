//! The query enhancer: which span of query words each synthesized automaton
//! stands for.
use vstd::prelude::*;

verus! {

/// A span `start..end` of query words, represented by the automaton `index`
/// that stands for the words of `expansion`.
#[derive(Debug)]
pub struct Declaration {
    pub start: usize,
    pub end: usize,
    pub index: usize,
    pub expansion: Vec<String>,
}

/// Collects declarations while a query is compiled.
pub struct QueryEnhancerBuilder {
    pub query_len: usize,
    pub declarations: Vec<Declaration>,
}

/// The finished lookup, from automaton index to spans of query words.
#[derive(Debug)]
pub struct QueryEnhancer {
    pub declarations: Vec<Declaration>,
}

/// The spans declared for automaton `index`, in order of declaration.
pub open spec fn ranges_for(d: Seq<Declaration>, index: usize) -> Seq<(usize, usize)>
    decreases d.len(),
{
    if d.len() == 0 {
        Seq::empty()
    } else {
        let rest = ranges_for(d.drop_last(), index);
        if d.last().index == index {
            rest.push((d.last().start, d.last().end))
        } else {
            rest
        }
    }
}

/// Declarations whose indices run on from `base`, one by one.
pub open spec fn numbered_from(d: Seq<Declaration>, base: nat) -> bool {
    forall|k: int| 0 <= k < d.len() ==> (#[trigger] d[k]).index == base + k
}

impl QueryEnhancerBuilder {
    pub fn new(query_len: usize) -> (r: QueryEnhancerBuilder)
        ensures
            r.query_len == query_len,
            r.declarations@.len() == 0,
    {
        QueryEnhancerBuilder { query_len, declarations: Vec::new() }
    }

    /// Declares that automaton `index` stands for the query words
    /// `start..end`, replaced by `expansion`.
    pub fn declare(&mut self, start: usize, end: usize, index: usize, expansion: Vec<String>)
        requires
            start < end <= old(self).query_len,
        ensures
            final(self).query_len == old(self).query_len,
            final(self).declarations@ == old(self).declarations@.push(
                Declaration { start, end, index, expansion },
            ),
    {
        self.declarations.push(Declaration { start, end, index, expansion });
    }

    pub fn build(self) -> (r: QueryEnhancer)
        ensures
            r.declarations@ == self.declarations@,
    {
        QueryEnhancer { declarations: self.declarations }
    }
}

impl QueryEnhancer {
    /// The spans of query words that automaton `index` stands for.
    pub fn resolve(&self, index: usize) -> (r: Vec<(usize, usize)>)
        ensures
            r@ == ranges_for(self.declarations@, index),
    {
        let mut out: Vec<(usize, usize)> = Vec::new();
        let mut i: usize = 0;
        while i < self.declarations.len()
            invariant
                0 <= i <= self.declarations@.len(),
                out@ == ranges_for(self.declarations@.subrange(0, i as int), index),
            decreases self.declarations@.len() - i,
        {
            proof {
                let d = self.declarations@.subrange(0, i + 1);
                assert(d.drop_last() =~= self.declarations@.subrange(0, i as int));
            }
            let d = &self.declarations[i];
            if d.index == index {
                out.push((d.start, d.end));
            }
            i += 1;
        }
        assert(self.declarations@.subrange(0, i as int) =~= self.declarations@);
        out
    }
}

/// Where declarations are numbered one by one from `base`, an index below
/// `base` resolves to nothing and one of them to its own span alone.
pub proof fn lemma_numbered_resolution(d: Seq<Declaration>, base: nat, index: usize)
    requires
        numbered_from(d, base),
    ensures
        index < base ==> ranges_for(d, index).len() == 0,
        base <= index < base + d.len() ==> ranges_for(d, index) == seq![
            (d[index - base].start, d[index - base].end),
        ],
        index >= base + d.len() ==> ranges_for(d, index).len() == 0,
    decreases d.len(),
{
    if d.len() > 0 {
        let p = d.drop_last();
        assert forall|k: int| 0 <= k < p.len() implies (#[trigger] p[k]).index == base + k by {
            assert(p[k] == d[k]);
        }
        lemma_numbered_resolution(p, base, index);
        assert(d.last().index == base + d.len() - 1);
        if base <= index < base + p.len() {
            assert(p[index - base] == d[index - base]);
        }
        if index == base + p.len() {
            assert(ranges_for(p, index).len() == 0);
            assert(ranges_for(d, index) =~= seq![(d.last().start, d.last().end)]);
        }
    }
}

} // verus!
