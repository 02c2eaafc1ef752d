//! ASCII search words: runs of ASCII letters and digits, lowercased.
use vstd::prelude::*;

use crate::lexical::{lemma_pieces_nonempty, nonempty, pieces, string_views};
use crate::text::{ascii_lower, chars_of, is_ascii_alnum_char, string_of, to_ascii_lowercase};

verus! {

pub open spec fn not_ascii_alphanumeric() -> spec_fn(char) -> bool {
    |c: char| !is_ascii_alnum_char(c)
}

/// A text with its ASCII capitals made small.
pub open spec fn ascii_lower_text(t: Seq<char>) -> Seq<char> {
    t.map_values(|c: char| ascii_lower(c))
}

/// The maximal runs of ASCII letters and digits of a text, lowercased, in order.
pub open spec fn ascii_word_seq(t: Seq<char>) -> Seq<Seq<char>> {
    nonempty(pieces(t, not_ascii_alphanumeric())).map_values(|w: Seq<char>| ascii_lower_text(w))
}

fn is_ascii_alphanumeric(c: char) -> (r: bool)
    ensures
        r == is_ascii_alnum_char(c),
{
    ('0' <= c && c <= '9') || ('a' <= c && c <= 'z') || ('A' <= c && c <= 'Z')
}

proof fn lemma_nonempty_push_map(s: Seq<Seq<char>>, x: Seq<char>)
    ensures
        nonempty(s.push(x)).map_values(|w: Seq<char>| ascii_lower_text(w)) == (if x.len() == 0 {
            nonempty(s).map_values(|w: Seq<char>| ascii_lower_text(w))
        } else {
            nonempty(s).map_values(|w: Seq<char>| ascii_lower_text(w)).push(ascii_lower_text(x))
        }),
{
    assert(s.push(x).drop_last() =~= s);
    if x.len() > 0 {
        assert(nonempty(s).push(x).map_values(|w: Seq<char>| ascii_lower_text(w)) =~= nonempty(
            s,
        ).map_values(|w: Seq<char>| ascii_lower_text(w)).push(ascii_lower_text(x)));
    }
}

/// The ASCII words of a text, lowercased, in order.
pub fn ascii_words(text: &str) -> (words: Vec<String>)
    ensures
        string_views(words@) == ascii_word_seq(text@),
{
    let chars = chars_of(text);
    let mut words: Vec<String> = Vec::new();
    let mut current: Vec<char> = Vec::new();
    let mut i: usize = 0;
    proof {
        assert(chars@.subrange(0, 0) =~= Seq::<char>::empty());
        assert(pieces(Seq::<char>::empty(), not_ascii_alphanumeric()) == seq![
            Seq::<char>::empty(),
        ]);
        assert(seq![Seq::<char>::empty()].drop_last() =~= Seq::<Seq<char>>::empty());
        assert(string_views(words@) =~= Seq::<Seq<char>>::empty());
        assert(nonempty(Seq::<Seq<char>>::empty()).map_values(|w: Seq<char>| ascii_lower_text(w))
            =~= Seq::<Seq<char>>::empty());
        assert(current@ =~= ascii_lower_text(Seq::<char>::empty()));
    }
    while i < chars.len()
        invariant
            chars@ == text@,
            i <= chars@.len(),
            current@ == ascii_lower_text(
                pieces(chars@.subrange(0, i as int), not_ascii_alphanumeric()).last(),
            ),
            current@.len() == pieces(chars@.subrange(0, i as int), not_ascii_alphanumeric()).last().len(),
            string_views(words@) == nonempty(
                pieces(chars@.subrange(0, i as int), not_ascii_alphanumeric()).drop_last(),
            ).map_values(|w: Seq<char>| ascii_lower_text(w)),
        decreases chars@.len() - i,
    {
        let c = chars[i];
        let ghost prefix = chars@.subrange(0, i as int);
        let ghost next = chars@.subrange(0, i + 1);
        proof {
            assert(next.drop_last() =~= prefix);
            assert(next.last() == c);
            lemma_pieces_nonempty(prefix, not_ascii_alphanumeric());
        }
        if is_ascii_alphanumeric(c) {
            let lower = to_ascii_lowercase(c);
            current.push(lower);
            proof {
                let p = pieces(prefix, not_ascii_alphanumeric());
                assert(pieces(next, not_ascii_alphanumeric()) == p.drop_last().push(
                    p.last().push(c),
                ));
                assert(pieces(next, not_ascii_alphanumeric()).drop_last() =~= p.drop_last());
                assert(current@ =~= ascii_lower_text(p.last().push(c)));
            }
        } else {
            if current.len() > 0 {
                words.push(string_of(current.as_slice()));
            }
            proof {
                let p = pieces(prefix, not_ascii_alphanumeric());
                assert(pieces(next, not_ascii_alphanumeric()) == p.push(Seq::<char>::empty()));
                assert(pieces(next, not_ascii_alphanumeric()).drop_last() =~= p);
                assert(p =~= p.drop_last().push(p.last()));
                lemma_nonempty_push_map(p.drop_last(), p.last());
                assert(string_views(words@) =~= nonempty(p).map_values(
                    |w: Seq<char>| ascii_lower_text(w),
                ));
                assert(pieces(next, not_ascii_alphanumeric()).last() == Seq::<char>::empty());
            }
            current = Vec::new();
            proof {
                assert(current@ =~= ascii_lower_text(Seq::<char>::empty()));
            }
        }
        i += 1;
    }
    proof {
        assert(chars@.subrange(0, chars@.len() as int) =~= chars@);
        let p = pieces(chars@, not_ascii_alphanumeric());
        lemma_pieces_nonempty(chars@, not_ascii_alphanumeric());
        assert(p =~= p.drop_last().push(p.last()));
        lemma_nonempty_push_map(p.drop_last(), p.last());
    }
    if current.len() > 0 {
        words.push(string_of(current.as_slice()));
    }
    proof {
        assert(string_views(words@) =~= ascii_word_seq(text@));
    }
    words
}

} // verus!
