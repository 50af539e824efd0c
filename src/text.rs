use vstd::prelude::*;

use crate::ast::string_of;
use crate::lexer::chars_of;

verus! {

/// What `str::to_lowercase` gives for these characters.
pub uninterp spec fn lower_of(s: Seq<char>) -> Seq<char>;

/// What `str::to_uppercase` gives for these characters.
pub uninterp spec fn upper_of(s: Seq<char>) -> Seq<char>;

/// What `str::trim` gives for these characters.
pub uninterp spec fn trim_of(s: Seq<char>) -> Seq<char>;

/// Relies on `str::to_lowercase`: the result depends on the characters alone,
/// and the empty string stays empty.
#[verifier::external_body]
pub(crate) fn lowercase(s: &str) -> (r: String)
    ensures
        r@ == lower_of(s@),
        s@.len() == 0 ==> r@.len() == 0,
{
    s.to_lowercase()
}

/// Relies on `str::to_uppercase`: the result depends on the characters alone,
/// and the empty string stays empty.
#[verifier::external_body]
pub(crate) fn uppercase(s: &str) -> (r: String)
    ensures
        r@ == upper_of(s@),
        s@.len() == 0 ==> r@.len() == 0,
{
    s.to_uppercase()
}

/// Relies on `str::trim`: the result depends on the characters alone, and
/// the empty string stays empty.
#[verifier::external_body]
pub(crate) fn trim(s: &str) -> (r: &str)
    ensures
        r@ == trim_of(s@),
        s@.len() == 0 ==> r@.len() == 0,
{
    s.trim()
}

/// The pieces of `s` between the occurrences of `sep`, in order; there is
/// always at least one.
pub open spec fn split_pieces(s: Seq<char>, sep: char) -> Seq<Seq<char>>
    decreases s.len(),
{
    if s.len() == 0 {
        seq![Seq::<char>::empty()]
    } else {
        let p = split_pieces(s.drop_last(), sep);
        if s.last() == sep {
            p.push(Seq::<char>::empty())
        } else {
            p.update(p.len() - 1, p.last().push(s.last()))
        }
    }
}

pub(crate) proof fn lemma_split_len(s: Seq<char>, sep: char)
    ensures
        split_pieces(s, sep).len() >= 1,
        s.len() > 0 && s.last() == sep ==> split_pieces(s, sep).len() == split_pieces(s.drop_last(), sep).len() + 1,
        s.len() > 0 && s.last() != sep ==> split_pieces(s, sep).len() == split_pieces(s.drop_last(), sep).len(),
{
    lemma_split_nonempty(s, sep);
    if s.len() > 0 {
        lemma_split_nonempty(s.drop_last(), sep);
    }
}

proof fn lemma_split_nonempty(s: Seq<char>, sep: char)
    ensures
        split_pieces(s, sep).len() >= 1,
    decreases s.len(),
{
    if s.len() > 0 {
        lemma_split_nonempty(s.drop_last(), sep);
    }
}

/// Splits `s` at every `sep`.
pub fn split(s: &str, sep: char) -> (r: Vec<String>)
    ensures
        r@.len() == split_pieces(s@, sep).len(),
        forall|k: int| 0 <= k < r@.len() ==> (#[trigger] r@[k])@ == split_pieces(s@, sep)[k],
{
    let chars = chars_of(s);
    let mut pieces: Vec<Vec<char>> = Vec::new();
    pieces.push(Vec::new());
    let mut i: usize = 0;
    while i < chars.len()
        invariant
            i <= chars@.len(),
            chars@ == s@,
            pieces@.len() == split_pieces(chars@.subrange(0, i as int), sep).len(),
            forall|k: int| 0 <= k < pieces@.len() ==> (#[trigger] pieces@[k])@ == split_pieces(chars@.subrange(0, i as int), sep)[k],
        decreases chars@.len() - i,
    {
        proof {
            let next = chars@.subrange(0, i + 1);
            assert(next.drop_last() =~= chars@.subrange(0, i as int));
            assert(next.last() == chars@[i as int]);
            lemma_split_nonempty(chars@.subrange(0, i as int), sep);
        }
        let c = chars[i];
        if c == sep {
            pieces.push(Vec::new());
        } else {
            let last = pieces.len() - 1;
            let mut piece = pieces.remove(last);
            piece.push(c);
            pieces.push(piece);
        }
        i = i + 1;
        proof {
            let cur = split_pieces(chars@.subrange(0, i as int), sep);
            assert forall|k: int| 0 <= k < pieces@.len() implies (#[trigger] pieces@[k])@ == cur[k] by {}
        }
    }
    proof {
        assert(chars@.subrange(0, chars@.len() as int) =~= chars@);
    }
    let mut r: Vec<String> = Vec::new();
    let mut k: usize = 0;
    while k < pieces.len()
        invariant
            k <= pieces@.len(),
            r@.len() == k,
            forall|j: int| 0 <= j < k ==> (#[trigger] r@[j])@ == pieces@[j]@,
        decreases pieces@.len() - k,
    {
        r.push(string_of(&pieces[k]));
        k = k + 1;
    }
    r
}

} // verus!
