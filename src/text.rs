//! Splitting text into lines' words, as `str::split_whitespace` does.
use vstd::prelude::*;

verus! {

/// The Unicode `White_Space` characters, which `char::is_whitespace` accepts.
pub open spec fn is_space(c: char) -> bool {
    let u = c as u32;
    (0x09 <= u && u <= 0x0d) || u == 0x20 || u == 0x85 || u == 0xa0 || u == 0x1680 || (0x2000
        <= u && u <= 0x200a) || u == 0x2028 || u == 0x2029 || u == 0x202f || u == 0x205f || u
        == 0x3000
}

/// The maximal runs of non-space characters of `s`, in order.
pub open spec fn words(s: Seq<char>) -> Seq<Seq<char>>
    decreases s.len(),
{
    if s.len() == 0 {
        Seq::empty()
    } else {
        let w = words(s.drop_last());
        let c = s.last();
        if is_space(c) {
            w
        } else if s.len() >= 2 && !is_space(s[s.len() - 2]) {
            w.update(w.len() - 1, w.last().push(c))
        } else {
            w.push(seq![c])
        }
    }
}

/// A word that survives splitting unchanged: not empty, no space in it.
pub open spec fn is_word(t: Seq<char>) -> bool {
    t.len() > 0 && forall|i: int| 0 <= i < t.len() ==> !is_space(#[trigger] t[i])
}

pub fn is_space_char(c: char) -> (r: bool)
    ensures
        r == is_space(c),
{
    let u = c as u32;
    (0x09 <= u && u <= 0x0d) || u == 0x20 || u == 0x85 || u == 0xa0 || u == 0x1680 || (0x2000
        <= u && u <= 0x200a) || u == 0x2028 || u == 0x2029 || u == 0x202f || u == 0x205f || u
        == 0x3000
}

/// The words of `s`, separated by any run of white space.
pub fn split_words(s: &str) -> (r: Vec<String>)
    ensures
        r.deep_view() == words(s@),
{
    let n = s.unicode_len();
    let mut out: Vec<String> = Vec::new();
    let mut start: usize = 0;
    let mut in_word = false;
    let mut i: usize = 0;
    while i < n
        invariant
            n == s@.len(),
            start <= i <= n,
            in_word ==> start < i && !is_space(s@[i - 1]),
            !in_word ==> i == 0 || is_space(s@[i - 1]),
            words(s@.subrange(0, i as int)) == if in_word {
                out.deep_view().push(s@.subrange(start as int, i as int))
            } else {
                out.deep_view()
            },
        decreases n - i,
    {
        let c = s.get_char(i);
        let ghost pre = s@.subrange(0, i as int);
        assert(s@.subrange(0, i + 1).drop_last() =~= pre);
        if is_space_char(c) {
            if in_word {
                let w = String::from_str(s.substring_char(start, i));
                out.push(w);
                in_word = false;
                assert(out.deep_view() =~= words(pre));
            }
        } else {
            if !in_word {
                start = i;
                in_word = true;
                assert(s@.subrange(start as int, i + 1) =~= seq![c]);
            } else {
                assert(s@.subrange(start as int, i + 1) =~= s@.subrange(
                    start as int,
                    i as int,
                ).push(c));
            }
        }
        i = i + 1;
    }
    assert(s@.subrange(0, n as int) =~= s@);
    if in_word {
        let w = String::from_str(s.substring_char(start, n));
        out.push(w);
    }
    proof {
        if in_word {
            assert(out.deep_view() =~= words(s@));
        }
    }
    out
}

/// A trailing space adds no word.
pub proof fn lemma_words_space(x: Seq<char>, c: char)
    requires
        is_space(c),
    ensures
        words(x.push(c)) == words(x),
{
    assert(x.push(c).drop_last() =~= x);
}

/// A word written after nothing, or after a space, is the last word.
pub proof fn lemma_words_append_word(x: Seq<char>, t: Seq<char>)
    requires
        x.len() == 0 || is_space(x.last()),
        is_word(t),
    ensures
        words(x + t) == words(x).push(t),
    decreases t.len(),
{
    if t.len() == 1 {
        assert((x + t).drop_last() =~= x);
        assert(t =~= seq![t[0]]);
    } else {
        let u = t.drop_last();
        assert(is_word(u)) by {
            assert forall|i: int| 0 <= i < u.len() implies !is_space(#[trigger] u[i]) by {
                assert(u[i] == t[i]);
            }
        }
        lemma_words_append_word(x, u);
        assert((x + t).drop_last() =~= x + u);
        assert((x + t)[(x + t).len() - 2] == t[t.len() - 2]);
        assert(!is_space(t[t.len() - 2]));
        assert(!is_space(t.last()));
        assert(u.push(t.last()) =~= t);
    }
}

} // verus!
