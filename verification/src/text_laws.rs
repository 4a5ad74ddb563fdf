//! What holds of texts and their parts.
use crate::text::{
    before, find, first_at, is_space, lemma_find_is, lemma_find_none, lemma_nonempty_concat,
    lemma_nonempty_one, lemma_split_concat, lemma_split_single, lines, occurs_at, split,
    strip_prefix, tokens, trim, trim_end, words, Sep,
};
use vstd::prelude::*;

verus! {

/// White space, by code points.
pub proof fn law_white_space(c: char)
    ensures
        is_space(c) <==> {
            let n = c as int;
            9 <= n <= 13 || n == 32 || n == 0x85 || n == 0xa0 || n == 0x1680 || 0x2000 <= n
                <= 0x200a || n == 0x2028 || n == 0x2029 || n == 0x202f || n == 0x205f || n
                == 0x3000
        },
{
}

/// A given character separates where it stands; so does white space between words; entries of a
/// list are separated by commas and semicolons too.
pub proof fn law_separators(c: char, d: char)
    ensures
        Sep::Char(d).splits(c) <==> c == d,
        Sep::Space.splits(c) <==> is_space(c),
        Sep::List.splits(c) <==> c == ',' || c == ';' || is_space(c),
{
}

/// A separator parts the text, whatever stands on its two sides; a text without one is whole.
pub proof fn law_pieces(a: Seq<char>, c: char, b: Seq<char>, sep: Sep)
    ensures
        sep.splits(c) ==> split(a.push(c) + b, sep) == split(a, sep) + split(b, sep),
        (forall|i: int| 0 <= i < a.len() ==> !sep.splits(#[trigger] a[i])) ==> split(a, sep)
            == seq![a],
{
    if sep.splits(c) {
        lemma_split_concat(a, c, b, sep);
    }
    if forall|i: int| 0 <= i < a.len() ==> !sep.splits(#[trigger] a[i]) {
        lemma_split_single(a, sep);
    }
}

/// The runs on the two sides of a separator are the runs of the whole; a text without one is its
/// own only run, and the empty text has none.
pub proof fn law_tokens(a: Seq<char>, c: char, b: Seq<char>, sep: Sep)
    ensures
        sep.splits(c) ==> tokens(a.push(c) + b, sep) == tokens(a, sep) + tokens(b, sep),
        a.len() > 0 && (forall|i: int| 0 <= i < a.len() ==> !sep.splits(#[trigger] a[i]))
            ==> tokens(a, sep) == seq![a],
        tokens(Seq::empty(), sep) == Seq::<Seq<char>>::empty(),
{
    if sep.splits(c) {
        lemma_split_concat(a, c, b, sep);
        lemma_nonempty_concat(split(a, sep), split(b, sep));
    }
    if forall|i: int| 0 <= i < a.len() ==> !sep.splits(#[trigger] a[i]) {
        lemma_split_single(a, sep);
        lemma_nonempty_one(a);
    }
    lemma_nonempty_one(Seq::empty());
    assert(tokens(Seq::empty(), sep) =~= Seq::<Seq<char>>::empty());
}

/// The words on the two sides of white space are the words of the whole; a text without white
/// space is its own only word, and the empty text has none.
pub proof fn law_words(a: Seq<char>, c: char, b: Seq<char>)
    ensures
        is_space(c) ==> words(a.push(c) + b) == words(a) + words(b),
        a.len() > 0 && (forall|i: int| 0 <= i < a.len() ==> !is_space(#[trigger] a[i])) ==> words(a)
            == seq![a],
        words(Seq::empty()) == Seq::<Seq<char>>::empty(),
{
    law_tokens(a, c, b, Sep::Space);
    if a.len() > 0 && forall|i: int| 0 <= i < a.len() ==> !is_space(#[trigger] a[i]) {
        assert forall|i: int| 0 <= i < a.len() implies !Sep::Space.splits(#[trigger] a[i]) by {
            assert(!is_space(a[i]));
        }
    }
}

/// A line feed ends a line, and nothing else does.
pub proof fn law_lines(a: Seq<char>, b: Seq<char>)
    ensures
        lines(a.push('\n') + b) == lines(a) + lines(b),
        !a.contains('\n') ==> lines(a) == seq![a],
{
    lemma_split_concat(a, '\n', b, Sep::Char('\n'));
    if !a.contains('\n') {
        assert forall|i: int| 0 <= i < a.len() implies !Sep::Char('\n').splits(#[trigger] a[i]) by {
            assert(a.contains(a[i]));
        }
        lemma_split_single(a, Sep::Char('\n'));
    }
}

/// White space around a text is cut off, all of it, and nothing else is.
pub proof fn law_trim(left: Seq<char>, s: Seq<char>, right: Seq<char>)
    requires
        forall|i: int| 0 <= i < left.len() ==> is_space(#[trigger] left[i]),
        forall|i: int| 0 <= i < right.len() ==> is_space(#[trigger] right[i]),
        s.len() > 0 ==> !is_space(s.first()) && !is_space(s.last()),
    ensures
        trim(left + s + right) == s,
    decreases left.len() + right.len(),
{
    let t = left + s + right;
    if left.len() > 0 {
        assert(t.first() == left[0]);
        let less = left.drop_first();
        assert(t.drop_first() =~= less + s + right);
        assert forall|i: int| 0 <= i < less.len() implies is_space(#[trigger] less[i]) by {
            assert(less[i] == left[i + 1]);
        }
        law_trim(less, s, right);
    } else if right.len() > 0 {
        let less = right.drop_last();
        assert forall|i: int| 0 <= i < less.len() implies is_space(#[trigger] less[i]) by {
            assert(less[i] == right[i]);
        }
        if s.len() > 0 {
            assert(t.first() == s.first());
            assert(t.last() == right[right.len() - 1]);
            assert(t.drop_last() =~= left + s + less);
            law_trim(left, s, less);
        } else {
            let most = right.drop_first();
            assert forall|i: int| 0 <= i < most.len() implies is_space(#[trigger] most[i]) by {
                assert(most[i] == right[i + 1]);
            }
            assert(t.first() == right[0]);
            assert(t.drop_first() =~= left + s + most);
            law_trim(left, s, most);
        }
    } else {
        assert(t =~= s);
    }
}

/// The characters `c` at the end of a text are cut off, all of them, and nothing else is.
pub proof fn law_trim_end(s: Seq<char>, tail: Seq<char>, c: char)
    requires
        forall|i: int| 0 <= i < tail.len() ==> #[trigger] tail[i] == c,
        s.len() > 0 ==> s.last() != c,
    ensures
        trim_end(s + tail, c) == s,
    decreases tail.len(),
{
    let t = s + tail;
    if tail.len() > 0 {
        assert(t.last() == tail[tail.len() - 1]);
        assert(t.drop_last() =~= s + tail.drop_last());
        law_trim_end(s, tail.drop_last(), c);
    } else {
        assert(t =~= s);
    }
}

/// A search gives the first place where the pattern stands, and none exactly where it stands
/// nowhere.
pub proof fn law_find(s: Seq<char>, pat: Seq<char>, i: int)
    ensures
        find(s, pat) == Some(i) <==> 0 <= i <= s.len() - pat.len() && s.subrange(i, i + pat.len())
            == pat && forall|j: int|
            0 <= j < i ==> #[trigger] s.subrange(j, j + pat.len()) != pat,
        find(s, pat) is None <==> forall|j: int|
            0 <= j <= s.len() - pat.len() ==> #[trigger] s.subrange(j, j + pat.len()) != pat,
{
    lemma_find_none(s, pat);
    let first = 0 <= i <= s.len() - pat.len() && s.subrange(i, i + pat.len()) == pat && forall|
        j: int,
    |
        0 <= j < i ==> #[trigger] s.subrange(j, j + pat.len()) != pat;
    if first {
        assert forall|j: int| 0 <= j < i implies !occurs_at(s, pat, j) by {
            assert(s.subrange(j, j + pat.len()) != pat);
        }
        assert(first_at(s, pat, i));
        lemma_find_is(s, pat, i);
    }
    if find(s, pat) == Some(i) {
        assert(first_at(s, pat, i));
        assert forall|j: int| 0 <= j < i implies #[trigger] s.subrange(j, j + pat.len()) != pat by {
            assert(!occurs_at(s, pat, j));
        }
    }
    if find(s, pat) is None {
        assert forall|j: int| 0 <= j <= s.len() - pat.len() implies #[trigger] s.subrange(
            j,
            j + pat.len(),
        ) != pat by {
            assert(!occurs_at(s, pat, j));
        }
    }
    if forall|j: int|
        0 <= j <= s.len() - pat.len() ==> #[trigger] s.subrange(j, j + pat.len()) != pat {
        assert forall|j: int| !occurs_at(s, pat, j) by {
            if occurs_at(s, pat, j) {
                assert(s.subrange(j, j + pat.len()) == pat);
            }
        }
    }
}

/// Stripping gives what has to be put behind the prefix to get the text back.
pub proof fn law_strip_prefix(s: Seq<char>, pat: Seq<char>, rest: Seq<char>)
    ensures
        strip_prefix(s, pat) == Some(rest) <==> s == pat + rest,
{
    if strip_prefix(s, pat) == Some(rest) {
        assert(s.subrange(0, pat.len() as int) == pat);
        assert(s =~= s.subrange(0, pat.len() as int) + s.skip(pat.len() as int));
    }
    if s == pat + rest {
        assert(s.subrange(0, pat.len() as int) =~= pat);
        assert(s.skip(pat.len() as int) =~= rest);
    }
}

/// What stands before the first `c` holds no `c`, and with `c` and what follows it makes up the
/// text.
pub proof fn law_before(head: Seq<char>, c: char, tail: Seq<char>)
    requires
        !head.contains(c),
    ensures
        before(head.push(c) + tail, c) == head,
        before(head, c) == head,
        find(head.push(c) + tail, seq![c]) == Some(head.len() as int),
        find(head, seq![c]) is None,
{
    let s = head.push(c) + tail;
    let k = head.len() as int;
    let pat = seq![c];
    assert(s.subrange(k, k + 1) =~= pat);
    assert forall|j: int| 0 <= j < k implies !occurs_at(s, pat, j) by {
        if occurs_at(s, pat, j) {
            assert(s.subrange(j, j + 1)[0] == c);
            assert(head.contains(head[j]));
        }
    }
    assert(first_at(s, pat, k));
    lemma_find_is(s, pat, k);
    assert(s.take(k) =~= head);
    lemma_find_none(head, pat);
    assert forall|j: int| !occurs_at(head, pat, j) by {
        if occurs_at(head, pat, j) {
            assert(head.subrange(j, j + 1)[0] == c);
            assert(head.contains(head[j]));
        }
    }
}

} // verus!
