//! Character-level helpers: conversion between `String` and `Vec<char>`,
//! CJK detection, word splitting and the normalizer.
use vstd::prelude::*;
use vstd::std_specs::iter::IteratorSpec;

verus! {

/// What `str::to_lowercase` makes of a text.
pub uninterp spec fn lowercase_of(s: Seq<char>) -> Seq<char>;

/// What `deunicode::deunicode_with_tofu(_, "")` makes of a text.
pub uninterp spec fn transliteration_of(s: Seq<char>) -> Seq<char>;

/// The characters with the Unicode `White_Space` property, which
/// `char::is_whitespace` tests.
pub open spec fn whitespace(c: char) -> bool {
    let u = c as u32;
    (0x9 <= u <= 0xd) || u == 0x20 || u == 0x85 || u == 0xa0 || u == 0x1680 || (0x2000 <= u
        <= 0x200a) || u == 0x2028 || u == 0x2029 || u == 0x202f || u == 0x205f || u == 0x3000
}

/// The characters of a text, in order.
pub fn chars_of(s: &str) -> (r: Vec<char>)
    ensures
        r@ == s@,
{
    broadcast use vstd::string::axiom_spec_iter, vstd::string::next_postcondition;

    let mut it = s.chars();
    let mut out: Vec<char> = Vec::new();
    loop
        invariant
            out@ + it.remaining() == s@,
            it.obeys_prophetic_iter_laws(),
            it.decrease() is Some,
        ensures
            out@ == s@,
        decreases it.decrease()->0,
    {
        match it.next() {
            Some(c) => {
                out.push(c);
            },
            None => {
                assert(it.remaining().len() == 0);
                assert(out@ + it.remaining() =~= out@);
                break;
            },
        }
    }
    out
}

/// Relies on `FromIterator<char>` for `String`: the text of those characters.
#[verifier::external_body]
pub(crate) fn string_of(v: &Vec<char>) -> (r: String)
    ensures
        r@ == v@,
{
    v.iter().collect()
}

/// Relies on `str::to_lowercase`: the result depends on the text alone, and an
/// empty text stays empty.
#[verifier::external_body]
pub(crate) fn lowercase(s: &str) -> (r: String)
    ensures
        r@ == lowercase_of(s@),
        s@.len() == 0 ==> r@.len() == 0,
{
    s.to_lowercase()
}

/// Relies on `deunicode::deunicode_with_tofu` with an empty placeholder: the
/// result depends on the text alone, is ASCII (as the crate documents), and a
/// text of characters below 0x7F is returned as it is (the function's fast
/// path).
#[verifier::external_body]
fn transliterate(s: &str) -> (r: String)
    ensures
        r@ == transliteration_of(s@),
        forall|i: int| 0 <= i < r@.len() ==> (#[trigger] r@[i] as u32) < 0x80,
        (forall|i: int| 0 <= i < s@.len() ==> (#[trigger] s@[i] as u32) < 0x7f) ==> r@ == s@,
{
    deunicode::deunicode_with_tofu(s, "")
}

/// Whether a character is whitespace, as `char::is_whitespace` decides.
pub fn is_whitespace(c: char) -> (r: bool)
    ensures
        r == whitespace(c),
{
    let u = c as u32;
    (0x9 <= u && u <= 0xd) || u == 0x20 || u == 0x85 || u == 0xa0 || u == 0x1680 || (0x2000 <= u
        && u <= 0x200a) || u == 0x2028 || u == 0x2029 || u == 0x202f || u == 0x205f || u == 0x3000
}

/// The Unicode blocks of Chinese, Japanese and Korean scripts.
pub open spec fn cjk(c: char) -> bool {
    let u = c as u32;
    (0x1100 <= u <= 0x11ff) || (0x2e80 <= u <= 0x2eff) || (0x2f00 <= u <= 0x2fdf) || (0x3000
        <= u <= 0x303f) || (0x3040 <= u <= 0x309f) || (0x30a0 <= u <= 0x30ff) || (0x3100 <= u
        <= 0x312f) || (0x3130 <= u <= 0x318f) || (0x3200 <= u <= 0x32ff) || (0x3400 <= u
        <= 0x4dbf) || (0x4e00 <= u <= 0x9fff) || (0xa960 <= u <= 0xa97f) || (0xac00 <= u
        <= 0xd7a3) || (0xd7b0 <= u <= 0xd7ff) || (0xf900 <= u <= 0xfaff) || (0xff00 <= u
        <= 0xffef)
}

pub open spec fn has_cjk(s: Seq<char>) -> bool {
    exists|i: int| 0 <= i < s.len() && cjk(#[trigger] s[i])
}

pub open spec fn all_cjk(s: Seq<char>) -> bool {
    forall|i: int| 0 <= i < s.len() ==> cjk(#[trigger] s[i])
}

/// The normal form of a text: lowercased, then transliterated to ASCII unless
/// it holds a CJK character.
pub open spec fn normal_form(s: Seq<char>) -> Seq<char> {
    let l = lowercase_of(s);
    if has_cjk(l) {
        l
    } else {
        transliteration_of(l)
    }
}

pub fn is_cjk(c: char) -> (r: bool)
    ensures
        r == cjk(c),
{
    let u = c as u32;
    (0x1100 <= u && u <= 0x11ff) || (0x2e80 <= u && u <= 0x2eff) || (0x2f00 <= u && u <= 0x2fdf)
        || (0x3000 <= u && u <= 0x303f) || (0x3040 <= u && u <= 0x309f) || (0x30a0 <= u && u
        <= 0x30ff) || (0x3100 <= u && u <= 0x312f) || (0x3130 <= u && u <= 0x318f) || (0x3200
        <= u && u <= 0x32ff) || (0x3400 <= u && u <= 0x4dbf) || (0x4e00 <= u && u <= 0x9fff)
        || (0xa960 <= u && u <= 0xa97f) || (0xac00 <= u && u <= 0xd7a3) || (0xd7b0 <= u && u
        <= 0xd7ff) || (0xf900 <= u && u <= 0xfaff) || (0xff00 <= u && u <= 0xffef)
}

pub fn contains_cjk(s: &Vec<char>) -> (r: bool)
    ensures
        r == has_cjk(s@),
{
    let mut i: usize = 0;
    while i < s.len()
        invariant
            0 <= i <= s@.len(),
            forall|k: int| 0 <= k < i ==> !cjk(#[trigger] s@[k]),
        decreases s@.len() - i,
    {
        if is_cjk(s[i]) {
            return true;
        }
        i += 1;
    }
    false
}

pub fn only_cjk(s: &Vec<char>) -> (r: bool)
    ensures
        r == all_cjk(s@),
{
    let mut i: usize = 0;
    while i < s.len()
        invariant
            0 <= i <= s@.len(),
            forall|k: int| 0 <= k < i ==> cjk(#[trigger] s@[k]),
        decreases s@.len() - i,
    {
        if !is_cjk(s[i]) {
            return false;
        }
        i += 1;
    }
    true
}

/// Lowercases a text and, unless it holds a CJK character, transliterates it
/// to ASCII, dropping the characters that have no transliteration.
pub fn normalize_str(string: &str) -> (r: String)
    ensures
        r@ == normal_form(string@),
        !has_cjk(lowercase_of(string@)) ==> forall|i: int| 0 <= i < r@.len() ==> (#[trigger] r@[i] as u32) < 0x80,
        (forall|i: int| 0 <= i < lowercase_of(string@).len() ==> (#[trigger] lowercase_of(string@)[i] as u32) < 0x7f)
            ==> r@ == lowercase_of(string@),
{
    let lower = lowercase(string);
    let chars = chars_of(lower.as_str());
    if contains_cjk(&chars) {
        lower
    } else {
        transliterate(lower.as_str())
    }
}

/// A normal form of a text that holds a CJK character once lowercased is that
/// lowercase text: transliteration leaves it alone.
pub proof fn lemma_cjk_text_not_transliterated(s: Seq<char>)
    requires
        has_cjk(lowercase_of(s)),
    ensures
        normal_form(s) == lowercase_of(s),
{
}

/// The number of maximal runs of non-space characters.
pub open spec fn word_count(s: Seq<char>) -> nat
    decreases s.len(),
{
    if s.len() == 0 {
        0
    } else {
        let starts = s.last() != ' ' && (s.len() == 1 || s[s.len() - 2] == ' ');
        word_count(s.drop_last()) + if starts {
            1nat
        } else {
            0nat
        }
    }
}

/// Words joined with a single space between two of them.
pub open spec fn joined(ws: Seq<Seq<char>>) -> Seq<char>
    decreases ws.len(),
{
    if ws.len() == 0 {
        Seq::empty()
    } else if ws.len() == 1 {
        ws[0]
    } else {
        joined(ws.drop_last()) + seq![' '] + ws.last()
    }
}

/// Words put end to end, with no separator.
pub open spec fn concatenated(ws: Seq<Seq<char>>) -> Seq<char>
    decreases ws.len(),
{
    if ws.len() == 0 {
        Seq::empty()
    } else {
        concatenated(ws.drop_last()) + ws.last()
    }
}

/// Splits a text at its spaces into its non-empty words, in order.
pub fn split_words(s: &Vec<char>) -> (r: Vec<Vec<char>>)
    ensures
        r@.len() == word_count(s@),
        forall|k: int|
            0 <= k < r@.len() ==> (#[trigger] r@[k])@.len() > 0 && !r@[k]@.contains(' '),
{
    let mut out: Vec<Vec<char>> = Vec::new();
    let mut cur: Vec<char> = Vec::new();
    let mut i: usize = 0;
    while i < s.len()
        invariant
            0 <= i <= s@.len(),
            out@.len() + (if cur@.len() > 0 { 1int } else { 0int }) == word_count(
                s@.subrange(0, i as int),
            ),
            cur@.len() > 0 <==> (i > 0 && s@[i - 1] != ' '),
            !cur@.contains(' '),
            forall|k: int|
                0 <= k < out@.len() ==> (#[trigger] out@[k])@.len() > 0 && !out@[k]@.contains(
                    ' ',
                ),
        decreases s@.len() - i,
    {
        let c = s[i];
        proof {
            let t = s@.subrange(0, i + 1);
            assert(t.drop_last() =~= s@.subrange(0, i as int));
            if i > 0 {
                assert(t[t.len() - 2] == s@[i - 1]);
            }
        }
        if c == ' ' {
            if cur.len() > 0 {
                out.push(cur);
                cur = Vec::new();
            }
        } else {
            cur.push(c);
        }
        i += 1;
    }
    assert(s@.subrange(0, s@.len() as int) =~= s@);
    if cur.len() > 0 {
        out.push(cur);
    }
    out
}

/// Counts the words of a text, as `split_words` finds them.
pub fn count_words(s: &Vec<char>) -> (r: usize)
    ensures
        r == word_count(s@),
{
    let words = split_words(s);
    words.len()
}

/// Joins words with a single space between two of them.
pub fn join_words(ws: &Vec<Vec<char>>, from: usize, to: usize) -> (r: Vec<char>)
    requires
        from <= to <= ws@.len(),
    ensures
        r@ == joined(ws@.subrange(from as int, to as int).map_values(|w: Vec<char>| w@)),
{
    let mut out: Vec<char> = Vec::new();
    let mut i: usize = from;
    while i < to
        invariant
            from <= i <= to <= ws@.len(),
            out@ == joined(ws@.subrange(from as int, i as int).map_values(|w: Vec<char>| w@)),
        decreases to - i,
    {
        let ghost before = ws@.subrange(from as int, i as int).map_values(|w: Vec<char>| w@);
        let ghost after = ws@.subrange(from as int, i + 1).map_values(|w: Vec<char>| w@);
        assert(after.drop_last() =~= before);
        if i > from {
            out.push(' ');
        }
        let mut j: usize = 0;
        let ghost base = out@;
        while j < ws[i].len()
            invariant
                from <= i < to <= ws@.len(),
                0 <= j <= ws@[i as int]@.len(),
                out@ == base + ws@[i as int]@.subrange(0, j as int),
            decreases ws@[i as int]@.len() - j,
        {
            out.push(ws[i][j]);
            j += 1;
        }
        assert(ws@[i as int]@.subrange(0, j as int) =~= ws@[i as int]@);
        assert(out@ =~= joined(after));
        i += 1;
    }
    out
}

/// Puts words end to end, with no separator.
pub fn concat_words(ws: &Vec<Vec<char>>, from: usize, to: usize) -> (r: Vec<char>)
    requires
        from <= to <= ws@.len(),
    ensures
        r@ == concatenated(ws@.subrange(from as int, to as int).map_values(|w: Vec<char>| w@)),
{
    let mut out: Vec<char> = Vec::new();
    let mut i: usize = from;
    while i < to
        invariant
            from <= i <= to <= ws@.len(),
            out@ == concatenated(ws@.subrange(from as int, i as int).map_values(|w: Vec<char>| w@)),
        decreases to - i,
    {
        let ghost before = ws@.subrange(from as int, i as int).map_values(|w: Vec<char>| w@);
        let ghost after = ws@.subrange(from as int, i + 1).map_values(|w: Vec<char>| w@);
        assert(after.drop_last() =~= before);
        let mut j: usize = 0;
        let ghost base = out@;
        while j < ws[i].len()
            invariant
                from <= i < to <= ws@.len(),
                0 <= j <= ws@[i as int]@.len(),
                out@ == base + ws@[i as int]@.subrange(0, j as int),
            decreases ws@[i as int]@.len() - j,
        {
            out.push(ws[i][j]);
            j += 1;
        }
        assert(ws@[i as int]@.subrange(0, j as int) =~= ws@[i as int]@);
        assert(out@ =~= concatenated(after));
        i += 1;
    }
    out
}

} // verus!
