//! The list of networks whose addresses may get rules.
use crate::addr::IpAddr;
use crate::prefix::{all_wf, any_matches, lemma_any_push, net_prefix, parse_prefix, NetPrefix};
use crate::text::{
    before, before_slice, chars_of, find, first_at, lemma_find_is, lemma_find_none,
    lemma_split_concat, lemma_split_nonempty, lemma_split_tail, line_slices, lines, occurs_at,
    push_all, token_slices, tokens, views, Sep,
};
use vstd::prelude::*;
use vstd::string::*;

verus! {

/// The entries of one line: what stands before a `#`, cut at commas, semicolons and white space.
pub open spec fn line_entries(line: Seq<char>) -> Seq<Seq<char>> {
    tokens(before(line, '#'), Sep::List)
}

/// The entries of all lines, in order.
pub open spec fn entries(text_lines: Seq<Seq<char>>) -> Seq<Seq<char>>
    decreases text_lines.len(),
{
    if text_lines.len() == 0 {
        Seq::empty()
    } else {
        entries(text_lines.drop_last()) + line_entries(text_lines.last())
    }
}

/// `list` with `p` at its end, unless it is there already.
pub open spec fn add_new(list: Seq<NetPrefix>, p: NetPrefix) -> Seq<NetPrefix> {
    if list.contains(p) {
        list
    } else {
        list.push(p)
    }
}

/// The prefixes that the entries write, each of them once; or the first entry that writes none.
pub open spec fn read_entries(items: Seq<Seq<char>>) -> Result<Seq<NetPrefix>, Seq<char>>
    decreases items.len(),
{
    if items.len() == 0 {
        Ok(Seq::empty())
    } else {
        match read_entries(items.drop_last()) {
            Ok(list) => match net_prefix(items.last()) {
                Some(p) => Ok(add_new(list, p)),
                None => Err(items.last()),
            },
            Err(bad) => Err(bad),
        }
    }
}

/// The prefixes that a list in text form holds, or its first entry that is no prefix.
pub open spec fn whitelist(text: Seq<char>) -> Result<Seq<NetPrefix>, Seq<char>> {
    read_entries(entries(lines(text)))
}

/// How an entry that is no prefix is reported.
pub open spec fn bad_entry(entry: Seq<char>) -> Seq<char> {
    "whitelist 无效项: "@ + entry
}

fn has_prefix(list: &Vec<NetPrefix>, p: NetPrefix) -> (b: bool)
    ensures
        b == list@.contains(p),
{
    let mut i: usize = 0;
    while i < list.len()
        invariant
            i <= list@.len(),
            forall|k: int| 0 <= k < i ==> list@[k] != p,
        decreases list@.len() - i,
    {
        if list[i] == p {
            assert(list@[i as int] == p);
            return true;
        }
        i += 1;
    }
    false
}

/// Adds `p` at the end of `list`, unless it is there already.
pub fn push_new(list: &mut Vec<NetPrefix>, p: NetPrefix)
    ensures
        final(list)@ == add_new(old(list)@, p),
{
    if !has_prefix(list, p) {
        list.push(p);
    }
}

/// Once an entry is no prefix, no entry after it changes the answer.
proof fn lemma_bad_entry_stays(items: Seq<Seq<char>>, k: int)
    requires
        0 <= k <= items.len(),
        read_entries(items.take(k)) is Err,
    ensures
        read_entries(items) == read_entries(items.take(k)),
    decreases items.len(),
{
    if k < items.len() {
        assert(items.drop_last().take(k) =~= items.take(k));
        lemma_bad_entry_stays(items.drop_last(), k);
    } else {
        assert(items.take(k) =~= items);
    }
}

/// The entries of the first lines come first.
proof fn lemma_entries_prefix(text_lines: Seq<Seq<char>>, k: int)
    requires
        0 <= k <= text_lines.len(),
    ensures
        entries(text_lines.take(k)).len() <= entries(text_lines).len(),
        entries(text_lines).take(entries(text_lines.take(k)).len() as int) == entries(
            text_lines.take(k),
        ),
    decreases text_lines.len(),
{
    let n = entries(text_lines.take(k)).len() as int;
    if k < text_lines.len() {
        let front = text_lines.drop_last();
        assert(front.take(k) =~= text_lines.take(k));
        lemma_entries_prefix(front, k);
        assert(entries(text_lines).take(n) =~= entries(front).take(n));
    } else {
        assert(text_lines.take(k) =~= text_lines);
        assert(entries(text_lines).take(n) =~= entries(text_lines));
    }
}

/// Reads the entries of one more line into `list`.
fn read_line(line: &[char], list: &mut Vec<NetPrefix>, Ghost(read): Ghost<Seq<Seq<char>>>) -> (r:
    Result<(), String>)
    requires
        read_entries(read) == Ok::<Seq<NetPrefix>, Seq<char>>(old(list)@),
        all_wf(old(list)@),
    ensures
        match r {
            Ok(_) => read_entries(read + line_entries(line@)) == Ok::<Seq<NetPrefix>, Seq<char>>(
                final(list)@,
            ) && all_wf(final(list)@),
            Err(e) => read_entries(read + line_entries(line@)) matches Err(bad) && e@ == bad_entry(
                bad,
            ),
        },
{
    let items = token_slices(before_slice(line, '#'), Sep::List);
    let ghost all = views(items@);
    let mut i: usize = 0;
    assert(read + all.take(0) =~= read);
    while i < items.len()
        invariant
            i <= items@.len(),
            all == views(items@),
            all == line_entries(line@),
            all_wf(list@),
            read_entries(read + all.take(i as int)) == Ok::<Seq<NetPrefix>, Seq<char>>(list@),
        decreases items@.len() - i,
    {
        let ghost now = read + all.take(i + 1);
        assert(now.drop_last() =~= read + all.take(i as int));
        assert(now.last() == items@[i as int]@);
        match parse_prefix(items[i]) {
            Some(p) => {
                push_new(list, p);
            },
            None => {
                let mut e = String::new();
                e.append("whitelist 无效项: ");
                push_all(&mut e, items[i]);
                assert(e@ =~= bad_entry(items@[i as int]@));
                proof {
                    let whole = read + all;
                    assert(whole.take(now.len() as int) =~= now);
                    lemma_bad_entry_stays(whole, now.len() as int);
                }
                return Err(e);
            },
        }
        i += 1;
    }
    assert(all.take(i as int) =~= all);
    Ok(())
}

/// The prefixes that a list in text form holds, in order, each of them once; or a report of the
/// first entry that is no prefix.
pub fn parse_whitelist_text(text: &str) -> (r: Result<Vec<NetPrefix>, String>)
    ensures
        match r {
            Ok(list) => whitelist(text@) == Ok::<Seq<NetPrefix>, Seq<char>>(list@) && all_wf(list@),
            Err(e) => whitelist(text@) matches Err(bad) && e@ == bad_entry(bad),
        },
{
    let chars = chars_of(text);
    let rows = line_slices(&chars);
    let ghost all = views(rows@);
    let mut list: Vec<NetPrefix> = Vec::new();
    let mut i: usize = 0;
    assert(entries(all.take(0)) =~= Seq::<Seq<char>>::empty());
    while i < rows.len()
        invariant
            i <= rows@.len(),
            all == views(rows@),
            all == lines(text@),
            all_wf(list@),
            read_entries(entries(all.take(i as int))) == Ok::<Seq<NetPrefix>, Seq<char>>(list@),
        decreases rows@.len() - i,
    {
        assert(all.take(i + 1).drop_last() =~= all.take(i as int));
        assert(all.take(i + 1).last() == rows@[i as int]@);
        match read_line(rows[i], &mut list, Ghost(entries(all.take(i as int)))) {
            Ok(_) => {},
            Err(e) => {
                proof {
                    lemma_entries_prefix(all, i + 1);
                    lemma_bad_entry_stays(
                        entries(all),
                        entries(all.take(i + 1)).len() as int,
                    );
                }
                return Err(e);
            },
        }
        i += 1;
    }
    assert(all.take(i as int) =~= all);
    Ok(list)
}

/// A list is refused exactly where one of its entries is no prefix.
pub proof fn law_list_is_read_whole_or_refused(items: Seq<Seq<char>>)
    ensures
        read_entries(items) is Ok <==> forall|i: int|
            0 <= i < items.len() ==> net_prefix(#[trigger] items[i]) is Some,
    decreases items.len(),
{
    if items.len() > 0 {
        let front = items.drop_last();
        law_list_is_read_whole_or_refused(front);
        if read_entries(items) is Ok {
            assert forall|i: int| 0 <= i < items.len() implies net_prefix(
                #[trigger] items[i],
            ) is Some by {
                if i < front.len() {
                    assert(items[i] == front[i]);
                }
            }
        }
        if forall|i: int| 0 <= i < items.len() ==> net_prefix(#[trigger] items[i]) is Some {
            assert forall|i: int| 0 <= i < front.len() implies net_prefix(
                #[trigger] front[i],
            ) is Some by {
                assert(items[i] == front[i]);
            }
            assert(items[items.len() - 1] == items.last());
        }
    }
}

/// Whether an entry is a prefix that matches `ip`.
pub open spec fn entry_matches(entry: Seq<char>, ip: IpAddr) -> bool {
    match net_prefix(entry) {
        Some(p) => p.matches(ip),
        None => false,
    }
}

/// Whether one of the entries matches `ip`.
pub open spec fn any_entry_matches(items: Seq<Seq<char>>, ip: IpAddr) -> bool {
    exists|i: int| 0 <= i < items.len() && entry_matches(#[trigger] items[i], ip)
}

proof fn lemma_any_entry(items: Seq<Seq<char>>, ip: IpAddr)
    requires
        items.len() > 0,
    ensures
        any_entry_matches(items, ip) <==> any_entry_matches(items.drop_last(), ip)
            || entry_matches(items.last(), ip),
{
    let front = items.drop_last();
    if any_entry_matches(items, ip) {
        let i = choose|i: int| 0 <= i < items.len() && entry_matches(#[trigger] items[i], ip);
        if i < front.len() {
            assert(entry_matches(front[i], ip));
        }
    }
    if any_entry_matches(front, ip) {
        let i = choose|i: int| 0 <= i < front.len() && entry_matches(#[trigger] front[i], ip);
        assert(entry_matches(items[i], ip));
    }
    if entry_matches(items.last(), ip) {
        assert(entry_matches(items[items.len() - 1], ip));
    }
}

proof fn lemma_add_new(list: Seq<NetPrefix>, p: NetPrefix, ip: IpAddr)
    ensures
        any_matches(add_new(list, p), ip) <==> any_matches(list, ip) || p.matches(ip),
        list.no_duplicates() ==> add_new(list, p).no_duplicates(),
{
    lemma_any_push(list, p, ip);
    if list.contains(p) && p.matches(ip) {
        let k = choose|k: int| 0 <= k < list.len() && list[k] == p;
        assert(list[k].matches(ip));
    }
}

/// A list that is read matches exactly the addresses that one of its entries matches, and holds no
/// prefix twice.
pub proof fn law_list_matches_what_its_entries_match(items: Seq<Seq<char>>, ip: IpAddr)
    requires
        read_entries(items) is Ok,
    ensures
        read_entries(items)->Ok_0.no_duplicates(),
        any_matches(read_entries(items)->Ok_0, ip) <==> any_entry_matches(items, ip),
    decreases items.len(),
{
    if items.len() > 0 {
        let front = items.drop_last();
        law_list_matches_what_its_entries_match(front, ip);
        lemma_any_entry(items, ip);
        lemma_add_new(read_entries(front)->Ok_0, net_prefix(items.last())->0, ip);
    }
}

/// What follows a `#` on a line makes no difference.
pub proof fn law_comments_do_not_matter(line: Seq<char>, comment: Seq<char>)
    ensures
        line_entries(line.push('#') + comment) == line_entries(line),
{
    let whole = line.push('#') + comment;
    let mark = seq!['#'];
    lemma_find_none(line, mark);
    match find(line, mark) {
        Some(i) => {
            assert(whole.subrange(i, i + 1) =~= line.subrange(i, i + 1));
            assert forall|j: int| 0 <= j < i implies !occurs_at(whole, mark, j) by {
                assert(whole.subrange(j, j + 1) =~= line.subrange(j, j + 1));
                assert(!occurs_at(line, mark, j));
            }
            assert(first_at(whole, mark, i));
            lemma_find_is(whole, mark, i);
            assert(whole.take(i) =~= line.take(i));
        },
        None => {
            let k = line.len() as int;
            assert(whole.subrange(k, k + 1) =~= mark);
            assert forall|j: int| 0 <= j < k implies !occurs_at(whole, mark, j) by {
                assert(whole.subrange(j, j + 1) =~= line.subrange(j, j + 1));
                assert(!occurs_at(line, mark, j));
            }
            assert(first_at(whole, mark, k));
            lemma_find_is(whole, mark, k);
            assert(whole.take(k) =~= line);
        },
    }
}

/// The entries of two groups of lines are those of the first and then those of the second.
pub proof fn lemma_entries_concat(a: Seq<Seq<char>>, b: Seq<Seq<char>>)
    ensures
        entries(a + b) == entries(a) + entries(b),
    decreases b.len(),
{
    if b.len() == 0 {
        assert(a + b =~= a);
        assert(entries(a) + entries(b) =~= entries(a));
    } else {
        assert((a + b).drop_last() =~= a + b.drop_last());
        lemma_entries_concat(a, b.drop_last());
        assert(entries(a + b) =~= entries(a) + entries(b));
    }
}

/// A comment at the end of a text makes no difference to its entries.
proof fn lemma_last_comment(text: Seq<char>, comment: Seq<char>)
    requires
        !comment.contains('\n'),
    ensures
        entries(lines(text.push('#') + comment)) == entries(lines(text)),
{
    let sep = Sep::Char('\n');
    let tail = seq!['#'] + comment;
    assert(text.push('#') + comment =~= text + tail);
    assert forall|i: int| 0 <= i < tail.len() implies !sep.splits(#[trigger] tail[i]) by {
        if i > 0 {
            assert(comment.contains(comment[i - 1]));
        }
    }
    lemma_split_tail(text, tail, sep);
    lemma_split_nonempty(text, sep);
    let rows = lines(text);
    let more = lines(text + tail);
    assert(more.drop_last() =~= rows.drop_last());
    assert(more.last() =~= rows.last().push('#') + comment);
    law_comments_do_not_matter(rows.last(), comment);
}

/// A comment anywhere in a list makes no difference to it: what stands between a `#` and the end of
/// its line can be left out together with the `#`.
pub proof fn law_list_does_not_depend_on_comments(
    text: Seq<char>,
    comment: Seq<char>,
    rest: Seq<char>,
)
    requires
        !comment.contains('\n'),
        rest.len() > 0 ==> rest[0] == '\n',
    ensures
        whitelist(text.push('#') + comment + rest) == whitelist(text + rest),
{
    lemma_last_comment(text, comment);
    let marked = text.push('#') + comment;
    if rest.len() == 0 {
        assert(marked + rest =~= marked);
        assert(text + rest =~= text);
    } else {
        let sep = Sep::Char('\n');
        let below = rest.skip(1);
        assert(marked + rest =~= marked.push('\n') + below);
        assert(text + rest =~= text.push('\n') + below);
        lemma_split_concat(marked, '\n', below, sep);
        lemma_split_concat(text, '\n', below, sep);
        lemma_entries_concat(lines(marked), lines(below));
        lemma_entries_concat(lines(text), lines(below));
    }
}

} // verus!
