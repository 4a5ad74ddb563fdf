//! Text as sequences of characters: separators, words, prefixes and searches.
use vstd::prelude::*;
use vstd::slice::slice_subrange;

verus! {

/// The characters with Unicode's `White_Space` property.
pub open spec fn is_space(c: char) -> bool {
    ||| '\u{9}' <= c <= '\u{d}'
    ||| c == '\u{20}'
    ||| c == '\u{85}'
    ||| c == '\u{a0}'
    ||| c == '\u{1680}'
    ||| '\u{2000}' <= c <= '\u{200a}'
    ||| c == '\u{2028}'
    ||| c == '\u{2029}'
    ||| c == '\u{202f}'
    ||| c == '\u{205f}'
    ||| c == '\u{3000}'
}

/// Whether `c` is white space.
pub fn is_space_char(c: char) -> (b: bool)
    ensures
        b == is_space(c),
{
    ('\u{9}' <= c && c <= '\u{d}') || c == '\u{20}' || c == '\u{85}' || c == '\u{a0}' || c
        == '\u{1680}' || ('\u{2000}' <= c && c <= '\u{200a}') || c == '\u{2028}' || c == '\u{2029}'
        || c == '\u{202f}' || c == '\u{205f}' || c == '\u{3000}'
}

/// What separates the pieces of a text.
#[derive(Clone, Copy)]
pub enum Sep {
    /// One given character.
    Char(char),
    /// Any white space.
    Space,
    /// A comma, a semicolon or any white space.
    List,
}

impl Sep {
    /// Whether `c` is a separator of this kind.
    pub open spec fn splits(self, c: char) -> bool {
        match self {
            Sep::Char(d) => c == d,
            Sep::Space => is_space(c),
            Sep::List => c == ',' || c == ';' || is_space(c),
        }
    }

    fn splits_at(self, c: char) -> (b: bool)
        ensures
            b == self.splits(c),
    {
        match self {
            Sep::Char(d) => c == d,
            Sep::Space => is_space_char(c),
            Sep::List => c == ',' || c == ';' || is_space_char(c),
        }
    }
}

/// The pieces of `s` between separators: always one more than there are separators.
pub open spec fn split(s: Seq<char>, sep: Sep) -> Seq<Seq<char>>
    decreases s.len(),
{
    if s.len() == 0 {
        seq![Seq::<char>::empty()]
    } else {
        let front = split(s.drop_last(), sep);
        if sep.splits(s.last()) {
            front.push(Seq::<char>::empty())
        } else {
            front.drop_last().push(front.last().push(s.last()))
        }
    }
}

/// The sequences of `pieces` that are not empty, in order.
pub open spec fn nonempty(pieces: Seq<Seq<char>>) -> Seq<Seq<char>>
    decreases pieces.len(),
{
    if pieces.len() == 0 {
        Seq::empty()
    } else if pieces.last().len() == 0 {
        nonempty(pieces.drop_last())
    } else {
        nonempty(pieces.drop_last()).push(pieces.last())
    }
}

/// The maximal runs of `s` without separators.
pub open spec fn tokens(s: Seq<char>, sep: Sep) -> Seq<Seq<char>> {
    nonempty(split(s, sep))
}

/// The words of `s`: its maximal runs without white space.
pub open spec fn words(s: Seq<char>) -> Seq<Seq<char>> {
    tokens(s, Sep::Space)
}

/// The lines of `s`.
///
/// A carriage return before the line feed stays with its line, and a line feed at the very end
/// is followed by one more empty line: neither adds a word.
pub open spec fn lines(s: Seq<char>) -> Seq<Seq<char>> {
    split(s, Sep::Char('\n'))
}

/// The characters that each slice of `v` holds.
pub open spec fn views(v: Seq<&[char]>) -> Seq<Seq<char>> {
    v.map_values(|p: &[char]| p@)
}

/// Splitting around a separator splits each side on its own.
pub proof fn lemma_split_concat(a: Seq<char>, c: char, b: Seq<char>, sep: Sep)
    requires
        sep.splits(c),
    ensures
        split(a.push(c) + b, sep) == split(a, sep) + split(b, sep),
    decreases b.len(),
{
    lemma_split_nonempty(a, sep);
    lemma_split_nonempty(b, sep);
    let s = a.push(c) + b;
    if b.len() == 0 {
        assert(s =~= a.push(c));
        assert(s.drop_last() =~= a);
    } else {
        assert(s.drop_last() =~= a.push(c) + b.drop_last());
        assert(s.last() == b.last());
        lemma_split_concat(a, c, b.drop_last(), sep);
        lemma_split_nonempty(b.drop_last(), sep);
        let fa = split(a, sep);
        let fb = split(b.drop_last(), sep);
        if !sep.splits(b.last()) {
            assert((fa + fb).drop_last() =~= fa + fb.drop_last());
            assert((fa + fb).last() == fb.last());
        }
    }
}

/// There is always at least one piece.
pub proof fn lemma_split_nonempty(s: Seq<char>, sep: Sep)
    ensures
        split(s, sep).len() >= 1,
    decreases s.len(),
{
    if s.len() > 0 {
        lemma_split_nonempty(s.drop_last(), sep);
    }
}

/// What follows without a separator belongs to the last piece.
pub proof fn lemma_split_tail(a: Seq<char>, t: Seq<char>, sep: Sep)
    requires
        forall|i: int| 0 <= i < t.len() ==> !sep.splits(#[trigger] t[i]),
    ensures
        split(a + t, sep) == split(a, sep).drop_last().push(split(a, sep).last() + t),
    decreases t.len(),
{
    lemma_split_nonempty(a, sep);
    let front = split(a, sep).drop_last();
    let last = split(a, sep).last();
    if t.len() == 0 {
        assert(a + t =~= a);
        assert(last + t =~= last);
        assert(front.push(last) =~= split(a, sep));
    } else {
        let less = t.drop_last();
        assert forall|i: int| 0 <= i < less.len() implies !sep.splits(#[trigger] less[i]) by {
            assert(less[i] == t[i]);
        }
        lemma_split_tail(a, less, sep);
        assert((a + t).drop_last() =~= a + less);
        assert(t[t.len() - 1] == t.last());
        assert((a + t).last() == t.last());
        let was = split(a + less, sep);
        assert(was.drop_last() =~= front);
        assert(was.last().push(t.last()) =~= last + t);
    }
}

/// A text without separators is its own only piece.
pub proof fn lemma_split_single(s: Seq<char>, sep: Sep)
    requires
        forall|i: int| 0 <= i < s.len() ==> !sep.splits(#[trigger] s[i]),
    ensures
        split(s, sep) == seq![s],
    decreases s.len(),
{
    if s.len() == 0 {
        assert(s =~= Seq::<char>::empty());
    } else {
        assert forall|i: int| 0 <= i < s.drop_last().len() implies !sep.splits(
            #[trigger] s.drop_last()[i],
        ) by {
            assert(s.drop_last()[i] == s[i]);
        }
        lemma_split_single(s.drop_last(), sep);
        assert(s.drop_last().push(s.last()) =~= s);
        assert(split(s, sep) =~= seq![s]);
    }
}

/// The characters of `s`.
pub fn chars_of(s: &str) -> (v: Vec<char>)
    ensures
        v@ == s@,
{
    let mut v: Vec<char> = Vec::new();
    for c in it: s.chars()
        invariant
            v@ == s@.take(it.index() as int),
            it.seq() == s@,
    {
        v.push(c);
        assert(v@ =~= s@.take(it.index() + 1));
    }
    assert(v@ =~= s@);
    v
}

/// The pieces of `s` between separators, as slices of `s`.
pub fn split_slices<'a>(s: &'a [char], sep: Sep) -> (pieces: Vec<&'a [char]>)
    ensures
        views(pieces@) == split(s@, sep),
{
    let mut out: Vec<&'a [char]> = Vec::new();
    let mut from: usize = 0;
    let mut i: usize = 0;
    let n: usize = s.len();
    assert(s@.take(0) =~= Seq::<char>::empty());
    assert(views(out@).push(s@.subrange(0, 0)) =~= split(s@.take(0), sep));
    while i < n
        invariant
            n == s@.len(),
            from <= i <= n,
            views(out@).push(s@.subrange(from as int, i as int)) == split(s@.take(i as int), sep),
        decreases n - i,
    {
        let ghost front = s@.take(i as int);
        let ghost whole = s@.take(i + 1);
        assert(whole.drop_last() =~= front);
        assert(whole.last() == s@[i as int]);
        let ghost before = views(out@);
        if sep.splits_at(s[i]) {
            out.push(slice_subrange(s, from, i));
            assert(views(out@) =~= before.push(s@.subrange(from as int, i as int)));
            from = i + 1;
            assert(s@.subrange(from as int, i + 1) =~= Seq::<char>::empty());
        } else {
            assert(s@.subrange(from as int, i + 1) =~= s@.subrange(from as int, i as int).push(
                s@[i as int],
            ));
            assert(split(front, sep).drop_last() =~= before);
        }
        i += 1;
    }
    let ghost before = views(out@);
    out.push(slice_subrange(s, from, n));
    assert(views(out@) =~= before.push(s@.subrange(from as int, n as int)));
    assert(s@.take(n as int) =~= s@);
    out
}

/// `s` without the white space at its two ends.
pub open spec fn trim(s: Seq<char>) -> Seq<char>
    decreases s.len(),
{
    if s.len() == 0 {
        s
    } else if is_space(s.first()) {
        trim(s.drop_first())
    } else if is_space(s.last()) {
        trim(s.drop_last())
    } else {
        s
    }
}

/// `s` without the characters `c` at its end.
pub open spec fn trim_end(s: Seq<char>, c: char) -> Seq<char>
    decreases s.len(),
{
    if s.len() > 0 && s.last() == c {
        trim_end(s.drop_last(), c)
    } else {
        s
    }
}

/// Whether `pat` stands in `s` at position `i`.
pub open spec fn occurs_at(s: Seq<char>, pat: Seq<char>, i: int) -> bool {
    0 <= i <= s.len() - pat.len() && s.subrange(i, i + pat.len()) == pat
}

/// Whether `i` is the first position of `pat` in `s`.
pub open spec fn first_at(s: Seq<char>, pat: Seq<char>, i: int) -> bool {
    occurs_at(s, pat, i) && forall|j: int| 0 <= j < i ==> !occurs_at(s, pat, j)
}

/// The first position of `pat` in `s`, if it stands there at all.
pub open spec fn find(s: Seq<char>, pat: Seq<char>) -> Option<int> {
    if exists|i: int| first_at(s, pat, i) {
        Some(choose|i: int| first_at(s, pat, i))
    } else {
        None
    }
}

/// What follows `pat` in `s`, if `s` begins with `pat`.
pub open spec fn strip_prefix(s: Seq<char>, pat: Seq<char>) -> Option<Seq<char>> {
    if occurs_at(s, pat, 0) {
        Some(s.skip(pat.len() as int))
    } else {
        None
    }
}

/// The part of `s` before its first `c`; all of `s` where there is none.
pub open spec fn before(s: Seq<char>, c: char) -> Seq<char> {
    match find(s, seq![c]) {
        Some(i) => s.take(i),
        None => s,
    }
}

/// `find` gives the first position.
pub proof fn lemma_find_is(s: Seq<char>, pat: Seq<char>, i: int)
    requires
        first_at(s, pat, i),
    ensures
        find(s, pat) == Some(i),
{
    let k = choose|k: int| first_at(s, pat, k);
    assert(first_at(s, pat, k));
    if k < i {
        assert(!occurs_at(s, pat, k));
    } else if i < k {
        assert(!occurs_at(s, pat, i));
    }
}

/// `find` gives nothing exactly where `pat` does not occur.
pub proof fn lemma_find_none(s: Seq<char>, pat: Seq<char>)
    ensures
        find(s, pat) is None <==> forall|i: int| !occurs_at(s, pat, i),
        find(s, pat) matches Some(i) ==> first_at(s, pat, i),
{
    if find(s, pat) is None && exists|i: int| occurs_at(s, pat, i) {
        let i = choose|i: int| occurs_at(s, pat, i);
        lemma_first_exists(s, pat, i);
    }
}

proof fn lemma_first_exists(s: Seq<char>, pat: Seq<char>, i: int)
    requires
        occurs_at(s, pat, i),
    ensures
        exists|k: int| first_at(s, pat, k),
    decreases i,
{
    if forall|j: int| 0 <= j < i ==> !occurs_at(s, pat, j) {
        assert(first_at(s, pat, i));
    } else {
        let j = choose|j: int| 0 <= j < i && occurs_at(s, pat, j);
        lemma_first_exists(s, pat, j);
    }
}

/// The pieces that are not empty on both sides together.
pub proof fn lemma_nonempty_concat(a: Seq<Seq<char>>, b: Seq<Seq<char>>)
    ensures
        nonempty(a + b) == nonempty(a) + nonempty(b),
    decreases b.len(),
{
    if b.len() == 0 {
        assert(a + b =~= a);
        assert(nonempty(a) + nonempty(b) =~= nonempty(a));
    } else {
        assert((a + b).drop_last() =~= a + b.drop_last());
        lemma_nonempty_concat(a, b.drop_last());
        assert(nonempty(a + b) =~= nonempty(a) + nonempty(b));
    }
}

/// One piece is kept unless it is empty.
pub proof fn lemma_nonempty_one(s: Seq<char>)
    ensures
        s.len() > 0 ==> nonempty(seq![s]) == seq![s],
        s.len() == 0 ==> nonempty(seq![s]).len() == 0,
{
    let one = seq![s];
    assert(one.drop_last() =~= Seq::<Seq<char>>::empty());
    assert(nonempty(one.drop_last()) =~= Seq::<Seq<char>>::empty());
    assert(one.last() == s);
    if s.len() > 0 {
        assert(nonempty(one) =~= one);
    }
}

/// White space before the first word makes no difference.
pub proof fn lemma_leading_space(s: Seq<char>)
    requires
        s.len() > 0,
        is_space(s[0]),
    ensures
        words(s) == words(s.skip(1)),
{
    let none = Seq::<char>::empty();
    let rest = s.skip(1);
    assert(s =~= none.push(s[0]) + rest);
    lemma_split_concat(none, s[0], rest, Sep::Space);
    lemma_nonempty_concat(split(none, Sep::Space), split(rest, Sep::Space));
    lemma_nonempty_one(none);
    assert(words(s) =~= words(rest));
}

/// A text that begins with a word has it as its first word.
pub proof fn lemma_first_word(s: Seq<char>, n: int)
    requires
        0 < n <= s.len(),
        forall|i: int| 0 <= i < n ==> !is_space(#[trigger] s[i]),
        n < s.len() ==> is_space(s[n]),
    ensures
        words(s).len() > 0,
        words(s)[0] == s.take(n),
{
    let w = s.take(n);
    assert forall|i: int| 0 <= i < w.len() implies !Sep::Space.splits(#[trigger] w[i]) by {
        assert(w[i] == s[i]);
    }
    lemma_split_single(w, Sep::Space);
    lemma_nonempty_one(w);
    if n == s.len() {
        assert(w =~= s);
    } else {
        let rest = s.skip(n + 1);
        assert(s =~= w.push(s[n]) + rest);
        lemma_split_concat(w, s[n], rest, Sep::Space);
        lemma_nonempty_concat(seq![w], split(rest, Sep::Space));
    }
}

/// What is left after cutting at the end is the front of the text.
pub proof fn lemma_trim_end(s: Seq<char>, c: char)
    ensures
        trim_end(s, c).len() <= s.len(),
        trim_end(s, c) == s.take(trim_end(s, c).len() as int),
    decreases s.len(),
{
    if s.len() > 0 && s.last() == c {
        lemma_trim_end(s.drop_last(), c);
        let n = trim_end(s, c).len() as int;
        assert(s.drop_last().take(n) =~= s.take(n));
    } else {
        assert(s.take(s.len() as int) =~= s);
    }
}

/// What was trimmed stays as it is.
pub proof fn lemma_trim_twice(s: Seq<char>)
    ensures
        trim(trim(s)) == trim(s),
    decreases s.len(),
{
    if s.len() > 0 {
        if is_space(s.first()) {
            lemma_trim_twice(s.drop_first());
        } else if is_space(s.last()) {
            lemma_trim_twice(s.drop_last());
        }
    }
}

/// The maximal runs of `s` without separators, as slices of `s`.
pub fn token_slices<'a>(s: &'a [char], sep: Sep) -> (out: Vec<&'a [char]>)
    ensures
        views(out@) == tokens(s@, sep),
{
    let pieces = split_slices(s, sep);
    let mut out: Vec<&'a [char]> = Vec::new();
    let mut i: usize = 0;
    let n: usize = pieces.len();
    let ghost all = views(pieces@);
    assert(all.take(0) =~= Seq::<Seq<char>>::empty());
    assert(views(out@) =~= Seq::<Seq<char>>::empty());
    while i < n
        invariant
            n == pieces@.len(),
            i <= n,
            all == views(pieces@),
            views(out@) == nonempty(all.take(i as int)),
        decreases n - i,
    {
        let p = pieces[i];
        assert(all.take(i + 1).drop_last() =~= all.take(i as int));
        assert(all.take(i + 1).last() == p@);
        let ghost was = views(out@);
        if p.len() > 0 {
            out.push(p);
            assert(views(out@) =~= was.push(p@));
        }
        i += 1;
    }
    assert(all.take(n as int) =~= all);
    out
}

/// The words of `s`, as slices of `s`.
pub fn word_slices<'a>(s: &'a [char]) -> (out: Vec<&'a [char]>)
    ensures
        views(out@) == words(s@),
{
    token_slices(s, Sep::Space)
}

/// The lines of `s`, as slices of `s`.
pub fn line_slices<'a>(s: &'a [char]) -> (out: Vec<&'a [char]>)
    ensures
        views(out@) == lines(s@),
{
    split_slices(s, Sep::Char('\n'))
}

/// `s` without the white space at its two ends.
pub fn trim_slice<'a>(s: &'a [char]) -> (r: &'a [char])
    ensures
        r@ == trim(s@),
{
    let mut a: usize = 0;
    let mut b: usize = s.len();
    assert(s@.subrange(0, b as int) =~= s@);
    while a < b && is_space_char(s[a])
        invariant
            a <= b == s@.len(),
            trim(s@.subrange(a as int, b as int)) == trim(s@),
        decreases b - a,
    {
        assert(s@.subrange(a as int, b as int).drop_first() =~= s@.subrange(a + 1, b as int));
        a += 1;
    }
    while a < b && is_space_char(s[b - 1])
        invariant
            a <= b <= s@.len(),
            a < b ==> !is_space(s@[a as int]),
            trim(s@.subrange(a as int, b as int)) == trim(s@),
        decreases b - a,
    {
        assert(s@.subrange(a as int, b as int).drop_last() =~= s@.subrange(a as int, b - 1));
        b -= 1;
    }
    slice_subrange(s, a, b)
}

/// `s` without the characters `c` at its end.
pub fn trim_end_slice<'a>(s: &'a [char], c: char) -> (r: &'a [char])
    ensures
        r@ == trim_end(s@, c),
{
    let mut b: usize = s.len();
    assert(s@.take(b as int) =~= s@);
    while b > 0 && s[b - 1] == c
        invariant
            b <= s@.len(),
            trim_end(s@.take(b as int), c) == trim_end(s@, c),
        decreases b,
    {
        assert(s@.take(b as int).drop_last() =~= s@.take(b - 1));
        b -= 1;
    }
    assert(s@.subrange(0, b as int) =~= s@.take(b as int));
    slice_subrange(s, 0, b)
}

fn occurs_here(s: &[char], pat: &[char], at: usize) -> (b: bool)
    requires
        at + pat@.len() <= s@.len(),
    ensures
        b == occurs_at(s@, pat@, at as int),
{
    let mut k: usize = 0;
    while k < pat.len()
        invariant
            k <= pat@.len(),
            at + pat@.len() <= s.len(),
            forall|m: int| 0 <= m < k ==> s@[at + m] == pat@[m],
        decreases pat@.len() - k,
    {
        if s[at + k] != pat[k] {
            assert(s@.subrange(at as int, at + pat@.len())[k as int] != pat@[k as int]);
            return false;
        }
        k += 1;
    }
    assert(s@.subrange(at as int, at + pat@.len()) =~= pat@);
    true
}

/// The first position of `pat` in `s`.
pub fn find_slice(s: &[char], pat: &[char]) -> (r: Option<usize>)
    ensures
        match r {
            Some(i) => find(s@, pat@) == Some(i as int) && first_at(s@, pat@, i as int),
            None => find(s@, pat@) is None,
        },
{
    if pat.len() > s.len() {
        proof {
            lemma_find_none(s@, pat@);
        }
        return None;
    }
    let last: usize = s.len() - pat.len();
    let mut i: usize = 0;
    while i <= last
        invariant
            i <= last + 1,
            last == s@.len() - pat@.len(),
            forall|j: int| 0 <= j < i ==> !occurs_at(s@, pat@, j),
        decreases last + 1 - i,
    {
        if occurs_here(s, pat, i) {
            proof {
                lemma_find_is(s@, pat@, i as int);
            }
            return Some(i);
        }
        if i == last {
            proof {
                lemma_find_none(s@, pat@);
            }
            return None;
        }
        i += 1;
    }
    None
}

/// The first position of `c` in `s`.
pub fn find_char(s: &[char], c: char) -> (r: Option<usize>)
    ensures
        match r {
            Some(i) => find(s@, seq![c]) == Some(i as int) && i < s@.len(),
            None => find(s@, seq![c]) is None,
        },
{
    let pat: [char; 1] = [c];
    assert(pat@ =~= seq![c]);
    find_slice(s, &pat)
}

/// The first position of the text `pat` in `s`.
pub fn find_str(s: &[char], pat: &str) -> (r: Option<usize>)
    ensures
        match r {
            Some(i) => find(s@, pat@) == Some(i as int) && first_at(s@, pat@, i as int),
            None => find(s@, pat@) is None,
        },
{
    let p = chars_of(pat);
    find_slice(s, &p)
}

/// The part of `s` before its first `c`.
pub fn before_slice<'a>(s: &'a [char], c: char) -> (r: &'a [char])
    ensures
        r@ == before(s@, c),
{
    match find_char(s, c) {
        Some(i) => {
            assert(s@.subrange(0, i as int) =~= s@.take(i as int));
            slice_subrange(s, 0, i)
        },
        None => s,
    }
}

/// What follows the text `pat` in `s`, if `s` begins with it.
pub fn strip_prefix_str<'a>(s: &'a [char], pat: &str) -> (r: Option<&'a [char]>)
    ensures
        match r {
            Some(rest) => strip_prefix(s@, pat@) == Some(rest@),
            None => strip_prefix(s@, pat@) is None,
        },
{
    let p = chars_of(pat);
    if p.len() <= s.len() && occurs_here(s, &p, 0) {
        assert(s@.subrange(p@.len() as int, s@.len() as int) =~= s@.skip(p@.len() as int));
        Some(slice_subrange(s, p.len(), s.len()))
    } else {
        None
    }
}

/// Whether `s` is the text `t`.
pub fn is_text(s: &[char], t: &str) -> (b: bool)
    ensures
        b == (s@ == t@),
{
    let p = chars_of(t);
    if p.len() != s.len() {
        return false;
    }
    assert(s@.subrange(0, p@.len() as int) =~= s@);
    occurs_here(s, &p, 0)
}

/// `String::push` appends one character.
pub assume_specification[ String::push ](s: &mut String, c: char)
    ensures
        final(s)@ == old(s)@.push(c),
;

/// Appends the characters of `t` to `s`.
pub fn push_all(s: &mut String, t: &[char])
    ensures
        final(s)@ == old(s)@ + t@,
{
    let mut i: usize = 0;
    assert(t@.take(0) =~= Seq::<char>::empty());
    assert(s@ =~= old(s)@ + t@.take(0));
    while i < t.len()
        invariant
            i <= t@.len(),
            s@ == old(s)@ + t@.take(i as int),
        decreases t@.len() - i,
    {
        s.push(t[i]);
        assert(s@ =~= old(s)@ + t@.take(i + 1));
        i += 1;
    }
    assert(t@.take(i as int) =~= t@);
}

/// The text that the characters of `t` make.
pub fn string_of(t: &[char]) -> (s: String)
    ensures
        s@ == t@,
{
    let mut s = String::new();
    push_all(&mut s, t);
    assert(s@ =~= t@);
    s
}

} // verus!
