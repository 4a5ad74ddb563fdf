//! What holds of socket state events and of connection tracking events.
use crate::addr::{canonical_addr, IpAddr};
use crate::addr_text::{ip_addr, ip_text};
use crate::conntrack::{first_addr, is_own, keyed_addr, tracked_peer};
use crate::roundtrip::{is_addr_char, law_written_address_reads_back, lemma_ip_text_chars};
use crate::text::{is_space, lemma_first_word, lemma_leading_space, strip_prefix, words};
use crate::text_laws::{law_find, law_strip_prefix, law_trim_end, law_words};
use crate::trace::{event_peer, value_after};
use vstd::prelude::*;

verus! {

/// The value of a key is the word behind the first place where the key stands, without the commas
/// at its end, whatever stands before and after.
#[verifier::rlimit(40)]
pub proof fn law_value_after(
    pre: Seq<char>,
    key: Seq<char>,
    spaces: Seq<char>,
    value: Seq<char>,
    commas: Seq<char>,
    post: Seq<char>,
)
    requires
        forall|j: int|
            0 <= j < pre.len() ==> #[trigger] (pre + key + spaces + value + commas + post).subrange(
                j,
                j + key.len(),
            ) != key,
        forall|i: int| 0 <= i < spaces.len() ==> is_space(#[trigger] spaces[i]),
        forall|i: int| 0 <= i < value.len() ==> !is_space(#[trigger] value[i]),
        forall|i: int| 0 <= i < commas.len() ==> #[trigger] commas[i] == ',',
        value.len() + commas.len() > 0,
        value.len() > 0 ==> value.last() != ',',
        post.len() > 0 ==> is_space(post[0]),
    ensures
        value_after(pre + key + spaces + value + commas + post, key) == Some(value),
{
    let line = pre + key + spaces + value + commas + post;
    let k = pre.len() as int;
    assert(line.subrange(k, k + key.len()) =~= key);
    law_find(line, key, k);
    let rest = line.skip(k + key.len());
    let word = value + commas;
    assert(rest =~= spaces + (word + post));
    lemma_spaces(spaces, word + post);
    let s = word + post;
    assert forall|i: int| 0 <= i < word.len() implies !is_space(#[trigger] s[i]) by {
        if i < value.len() {
            assert(s[i] == value[i]);
        } else {
            assert(s[i] == commas[i - value.len()]);
        }
    }
    if post.len() > 0 {
        assert(s[word.len() as int] == post[0]);
    }
    lemma_first_word(s, word.len() as int);
    assert(s.take(word.len() as int) =~= word);
    law_trim_end(value, commas, ',');
}

proof fn lemma_spaces(spaces: Seq<char>, s: Seq<char>)
    requires
        forall|i: int| 0 <= i < spaces.len() ==> is_space(#[trigger] spaces[i]),
    ensures
        words(spaces + s) == words(s),
    decreases spaces.len(),
{
    let t = spaces + s;
    if spaces.len() > 0 {
        let less = spaces.skip(1);
        assert(t[0] == spaces[0]);
        lemma_leading_space(t);
        assert(t.skip(1) =~= less + s);
        assert forall|i: int| 0 <= i < less.len() implies is_space(#[trigger] less[i]) by {
            assert(less[i] == spaces[i + 1]);
        }
        lemma_spaces(less, s);
    } else {
        assert(t =~= s);
    }
}

/// A key has no value where it stands nowhere, or where nothing but white space follows the first
/// place where it stands.
pub proof fn law_no_value(line: Seq<char>, pre: Seq<char>, key: Seq<char>, spaces: Seq<char>)
    ensures
        (forall|j: int|
            0 <= j <= line.len() - key.len() ==> #[trigger] line.subrange(j, j + key.len()) != key)
            ==> value_after(line, key) is None,
        line == pre + key + spaces && (forall|j: int|
            0 <= j < pre.len() ==> #[trigger] line.subrange(j, j + key.len()) != key) && (forall|
            i: int,
        |
            0 <= i < spaces.len() ==> is_space(#[trigger] spaces[i])) ==> value_after(
            line,
            key,
        ) is None,
{
    law_find(line, key, pre.len() as int);
    if line == pre + key + spaces && (forall|j: int|
        0 <= j < pre.len() ==> #[trigger] line.subrange(j, j + key.len()) != key) && (forall|i: int|
        0 <= i < spaces.len() ==> is_space(#[trigger] spaces[i])) {
        let k = pre.len() as int;
        assert(line.subrange(k, k + key.len()) =~= key);
        let none = Seq::<char>::empty();
        assert(line.skip(k + key.len()) =~= spaces + none);
        lemma_spaces(spaces, none);
        law_words(none, ' ', none);
    }
}

/// An event whose new state is one of the handshake gives the destination address: of an IPv6
/// socket that behind `daddrv6=`, wherever it can be read, and of any other socket, or where it
/// cannot, that behind `daddr=`. Source addresses do not count, and no other state does.
pub proof fn law_event_gives_the_destination(line: Seq<char>)
    ensures
        ({
            let st = value_after(line, "newstate="@);
            let family = value_after(line, "family="@);
            let to6 = value_after(line, "daddrv6="@);
            let to = value_after(line, "daddr="@);
            let handshake = st == Some("TCP_SYN_SENT"@) || st == Some("TCP_SYN_RECV"@) || st == Some(
                "TCP_NEW_SYN_RECV"@,
            ) || st == Some("SYN_SENT"@) || st == Some("SYN_RECV"@) || st == Some("NEW_SYN_RECV"@)
                || st == Some("2"@) || st == Some("3"@) || st == Some("12"@);
            let v6 = family == Some("AF_INET6"@) || family == Some("10"@);
            &&& !handshake ==> event_peer(line) is None
            &&& handshake && v6 && to6 is Some && ip_addr(to6->0) is Some ==> event_peer(line)
                == Some(canonical_addr(ip_addr(to6->0)->0))
            &&& handshake && (!v6 || to6 is None || ip_addr(to6->0) is None) ==> event_peer(line)
                == match to {
                Some(v) => match ip_addr(v) {
                    Some(ip) => Some(canonical_addr(ip)),
                    None => None,
                },
                None => None,
            }
        }),
{
}

proof fn lemma_no_equals(ip: IpAddr)
    ensures
        forall|i: int| 0 <= i < ip_text(ip).len() ==> #[trigger] ip_text(ip)[i] != '=' && !is_space(
            ip_text(ip)[i],
        ) && ip_text(ip)[i] != ',',
        ip_text(ip).len() > 0,
{
    lemma_ip_text_chars(ip);
    assert forall|i: int| 0 <= i < ip_text(ip).len() implies #[trigger] ip_text(ip)[i] != '='
        && !is_space(ip_text(ip)[i]) && ip_text(ip)[i] != ',' by {
        assert(is_addr_char(ip_text(ip)[i]));
    }
    law_written_address_reads_back(ip);
    if ip_text(ip).len() == 0 {
        assert(ip_text(ip) =~= Seq::<char>::empty());
        lemma_nothing_is_no_address();
    }
}

/// The empty text is no address.
pub proof fn lemma_nothing_is_no_address()
    ensures
        ip_addr(Seq::empty()) is None,
{
    let none = Seq::<char>::empty();
    reveal(ip_addr);
    let gap = crate::addr_text::gap();
    law_find(none, gap, 0);
}

/// Whether a text can stand as one value: it holds neither white space nor commas nor equals signs.
spec fn plain(s: Seq<char>) -> bool {
    s.len() > 0 && forall|i: int|
        0 <= i < s.len() ==> #[trigger] s[i] != '=' && !is_space(s[i]) && s[i] != ','
}

spec fn handshake_line(b: Seq<char>, d: Seq<char>) -> Seq<char> {
    "family=AF_INET6 saddrv6="@ + b + " daddrv6="@ + d + " newstate=TCP_SYN_RECV"@
}

/// Where the equals signs of the line stand, and what stands before them.
#[verifier::rlimit(40)]
proof fn lemma_equals_signs(b: Seq<char>, d: Seq<char>)
    requires
        plain(b),
        plain(d),
    ensures
        handshake_line(b, d).len() == 55 + b.len() + d.len(),
        forall|p: int|
            0 <= p < handshake_line(b, d).len() && #[trigger] handshake_line(b, d)[p] == '=' ==> p
                == 6 || p == 23 || p == 32 + b.len() || p == 42 + b.len() + d.len(),
        handshake_line(b, d)[5] == 'y',
        handshake_line(b, d)[16] == 's',
        handshake_line(b, d)[22] == '6',
        handshake_line(b, d)[31 + b.len() as int] == '6',
{
    let a = "family=AF_INET6 saddrv6="@;
    let c = " daddrv6="@;
    let e = " newstate=TCP_SYN_RECV"@;
    reveal_strlit("family=AF_INET6 saddrv6=");
    reveal_strlit(" daddrv6=");
    reveal_strlit(" newstate=TCP_SYN_RECV");
    let nb = b.len() as int;
    let nd = d.len() as int;
    let line = handshake_line(b, d);
    assert(a.len() == 24 && c.len() == 9 && e.len() == 22);
    assert forall|p: int| 0 <= p < line.len() && #[trigger] line[p] == '=' implies p == 6 || p == 23
        || p == 32 + nb || p == 42 + nb + nd by {
        if p < 24 {
            assert(line[p] == a[p]);
        } else if p < 24 + nb {
            assert(line[p] == b[p - 24]);
        } else if p < 33 + nb {
            assert(line[p] == c[p - 24 - nb]);
        } else if p < 33 + nb + nd {
            assert(line[p] == d[p - 33 - nb]);
        } else {
            assert(line[p] == e[p - 33 - nb - nd]);
        }
    }
    assert(line[5] == a[5] && line[16] == a[16] && line[22] == a[22]);
    assert(line[31 + nb] == c[7]);
}

#[verifier::rlimit(40)]
proof fn lemma_handshake_family(b: Seq<char>, d: Seq<char>)
    ensures
        value_after(handshake_line(b, d), "family="@) == Some("AF_INET6"@),
{
    let none = Seq::<char>::empty();
    let a = "family=AF_INET6 saddrv6="@;
    let line = handshake_line(b, d);
    reveal_strlit("family=AF_INET6 saddrv6=");
    reveal_strlit("family=");
    reveal_strlit("AF_INET6");
    let more = b + " daddrv6="@ + d + " newstate=TCP_SYN_RECV"@;
    assert(line =~= a + more);
    assert(a =~= "family="@ + "AF_INET6"@ + a.skip(15));
    let rest = a.skip(15) + more;
    assert(line =~= none + "family="@ + none + "AF_INET6"@ + none + rest);
    assert(rest[0] == a[15]);
    law_value_after(none, "family="@, none, "AF_INET6"@, none, rest);
}

#[verifier::rlimit(40)]
proof fn lemma_handshake_destination(b: Seq<char>, d: Seq<char>)
    requires
        plain(b),
        plain(d),
    ensures
        value_after(handshake_line(b, d), "daddrv6="@) == Some(d),
{
    let none = Seq::<char>::empty();
    let key = "daddrv6="@;
    let line = handshake_line(b, d);
    lemma_equals_signs(b, d);
    reveal_strlit("family=AF_INET6 saddrv6=");
    reveal_strlit(" daddrv6=");
    reveal_strlit(" newstate=TCP_SYN_RECV");
    reveal_strlit("daddrv6=");
    let pre = "family=AF_INET6 saddrv6="@ + b + seq![' '];
    let post = " newstate=TCP_SYN_RECV"@;
    assert(" daddrv6="@ =~= seq![' '] + key);
    assert(line =~= pre + key + none + d + none + post);
    assert forall|j: int| 0 <= j < pre.len() implies #[trigger] line.subrange(j, j + key.len())
        != key by {
        let t = line.subrange(j, j + 8);
        if t == key {
            assert(t[7] == '=' && t[0] == 'd');
            assert(line[j + 7] == '=' && line[j] == 'd');
        }
    }
    law_value_after(pre, key, none, d, none, post);
}

#[verifier::rlimit(40)]
proof fn lemma_handshake_state(b: Seq<char>, d: Seq<char>)
    requires
        plain(b),
        plain(d),
    ensures
        value_after(handshake_line(b, d), "newstate="@) == Some("TCP_SYN_RECV"@),
{
    let none = Seq::<char>::empty();
    let key = "newstate="@;
    let line = handshake_line(b, d);
    lemma_equals_signs(b, d);
    reveal_strlit("family=AF_INET6 saddrv6=");
    reveal_strlit(" daddrv6=");
    reveal_strlit(" newstate=TCP_SYN_RECV");
    reveal_strlit("newstate=");
    reveal_strlit("TCP_SYN_RECV");
    let pre = "family=AF_INET6 saddrv6="@ + b + " daddrv6="@ + d + seq![' '];
    assert(" newstate=TCP_SYN_RECV"@ =~= seq![' '] + key + "TCP_SYN_RECV"@);
    assert(line =~= pre + key + none + "TCP_SYN_RECV"@ + none + none);
    assert forall|j: int| 0 <= j < pre.len() implies #[trigger] line.subrange(j, j + key.len())
        != key by {
        let t = line.subrange(j, j + 9);
        if t == key {
            assert(t[8] == '=' && t[7] == 'e');
            assert(line[j + 8] == '=' && line[j + 7] == 'e');
        }
    }
    law_value_after(pre, key, none, "TCP_SYN_RECV"@, none, none);
}

/// The event of an IPv6 handshake, with its two ends written in their usual form, gives the end
/// that the connection goes to, and never the one that it comes from.
pub proof fn law_ipv6_handshake_gives_its_peer(from: IpAddr, to: IpAddr)
    ensures
        event_peer(
            "family=AF_INET6 saddrv6="@ + ip_text(from) + " daddrv6="@ + ip_text(to)
                + " newstate=TCP_SYN_RECV"@,
        ) == Some(canonical_addr(to)),
{
    lemma_no_equals(from);
    lemma_no_equals(to);
    law_written_address_reads_back(to);
    let b = ip_text(from);
    let d = ip_text(to);
    lemma_handshake_family(b, d);
    lemma_handshake_destination(b, d);
    lemma_handshake_state(b, d);
    law_event_gives_the_destination(handshake_line(b, d));
}

/// Whether `ip` is an address of this host: it is among the local ones, or a loopback address.
pub open spec fn here(ip: IpAddr, local: Set<IpAddr>) -> bool {
    local.contains(ip) || match ip {
        IpAddr::V4(n) => n / 0x100_0000 == 127,
        IpAddr::V6(n) => n == 1,
    }
}

/// Whether the first word that writes an address behind `key` writes `ip`.
pub open spec fn first_word_says(ws: Seq<Seq<char>>, key: Seq<char>, i: int, ip: IpAddr) -> bool {
    &&& 0 <= i < ws.len()
    &&& ws[i].len() >= key.len()
    &&& ws[i].take(key.len() as int) == key
    &&& ip_addr(ws[i].skip(key.len() as int)) is Some
    &&& canonical_addr(ip_addr(ws[i].skip(key.len() as int))->0) == ip
    &&& forall|k: int|
        0 <= k < i && (#[trigger] ws[k]).len() >= key.len() && ws[k].take(key.len() as int) == key
            ==> ip_addr(ws[k].skip(key.len() as int)) is None
}

proof fn lemma_keyed(word: Seq<char>, key: Seq<char>)
    ensures
        keyed_addr(word, key) == if word.len() >= key.len() && word.take(key.len() as int) == key {
            match ip_addr(word.skip(key.len() as int)) {
                Some(ip) => Some(canonical_addr(ip)),
                None => None,
            }
        } else {
            None
        },
{
    let k = key.len() as int;
    if word.len() >= k && word.take(k) == key {
        assert(word =~= key + word.skip(k));
        law_strip_prefix(word, key, word.skip(k));
    } else {
        if strip_prefix(word, key) is Some {
            let rest = strip_prefix(word, key)->0;
            law_strip_prefix(word, key, rest);
            assert(word.take(k) =~= key);
        }
    }
}

proof fn lemma_first_addr(ws: Seq<Seq<char>>, key: Seq<char>, i: int, ip: IpAddr)
    ensures
        first_word_says(ws, key, i, ip) ==> first_addr(ws, key) == Some(ip),
        (forall|k: int|
            0 <= k < ws.len() && (#[trigger] ws[k]).len() >= key.len() && ws[k].take(
                key.len() as int,
            ) == key ==> ip_addr(ws[k].skip(key.len() as int)) is None) ==> first_addr(
            ws,
            key,
        ) is None,
    decreases ws.len(),
{
    if ws.len() > 0 {
        let front = ws.drop_last();
        lemma_first_addr(front, key, i, ip);
        lemma_keyed(ws.last(), key);
        assert(forall|k: int| 0 <= k < front.len() ==> #[trigger] front[k] == ws[k]);
        assert(ws[ws.len() - 1] == ws.last());
        if first_word_says(ws, key, i, ip) {
            if i < front.len() {
                assert(first_word_says(front, key, i, ip));
            } else {
                assert forall|k: int|
                    0 <= k < front.len() && (#[trigger] front[k]).len() >= key.len() && front[k].take(
                        key.len() as int,
                    ) == key implies ip_addr(front[k].skip(key.len() as int)) is None by {
                    assert(front[k] == ws[k]);
                }
            }
        }
        if forall|k: int|
            0 <= k < ws.len() && (#[trigger] ws[k]).len() >= key.len() && ws[k].take(
                key.len() as int,
            ) == key ==> ip_addr(ws[k].skip(key.len() as int)) is None {
            assert forall|k: int|
                0 <= k < front.len() && (#[trigger] front[k]).len() >= key.len() && front[k].take(
                    key.len() as int,
                ) == key implies ip_addr(front[k].skip(key.len() as int)) is None by {
                assert(front[k] == ws[k]);
            }
        }
    }
}

/// A tracking event gives the one end of its connection that is not on this host, where the other
/// end is: the ends are what the first words with `src=` and `dst=` write, in whatever order they
/// come and whatever else the line holds. An event without both ends gives nothing.
#[verifier::rlimit(40)]
pub proof fn law_tracking_event_gives_the_far_end(
    line: Seq<char>,
    local: Set<IpAddr>,
    i: int,
    src: IpAddr,
    j: int,
    dst: IpAddr,
)
    ensures
        first_word_says(words(line), "src="@, i, src) && first_word_says(
            words(line),
            "dst="@,
            j,
            dst,
        ) ==> {
            &&& here(dst, local) && !here(src, local) ==> tracked_peer(line, local) == Some(src)
            &&& here(src, local) && !here(dst, local) ==> tracked_peer(line, local) == Some(dst)
            &&& here(src, local) == here(dst, local) ==> tracked_peer(line, local) is None
        },
        (forall|k: int|
            0 <= k < words(line).len() && (#[trigger] words(line)[k]).len() >= 4 && words(
                line,
            )[k].take(4) == "src="@ ==> ip_addr(words(line)[k].skip(4)) is None) ==> tracked_peer(
            line,
            local,
        ) is None,
        (forall|k: int|
            0 <= k < words(line).len() && (#[trigger] words(line)[k]).len() >= 4 && words(
                line,
            )[k].take(4) == "dst="@ ==> ip_addr(words(line)[k].skip(4)) is None) ==> tracked_peer(
            line,
            local,
        ) is None,
{
    reveal_strlit("src=");
    reveal_strlit("dst=");
    lemma_first_addr(words(line), "src="@, i, src);
    lemma_first_addr(words(line), "dst="@, j, dst);
    assert(is_own(src, local) <==> here(src, local));
    assert(is_own(dst, local) <==> here(dst, local));
}

/// A line with the two ends of a connection in their usual form gives the end that is not on this
/// host, for addresses of either family and whichever end opened the connection.
#[verifier::rlimit(40)]
pub proof fn law_tracked_connection_gives_its_peer(
    head: Seq<char>,
    src: IpAddr,
    dst: IpAddr,
    rest: Seq<char>,
    local: Set<IpAddr>,
)
    requires
        canonical_addr(src) == src,
        canonical_addr(dst) == dst,
        forall|k: int|
            0 <= k < words(head).len() ==> (#[trigger] words(head)[k]).len() < 4 || (words(
                head,
            )[k].take(4) != "src="@ && words(head)[k].take(4) != "dst="@),
    ensures
        local.contains(dst) && !here(src, local) ==> tracked_peer(
            head.push(' ') + (("src="@ + ip_text(src)).push(' ') + (("dst="@ + ip_text(dst)).push(' ')
                + rest)),
            local,
        ) == Some(src),
        local.contains(src) && !here(dst, local) ==> tracked_peer(
            head.push(' ') + (("src="@ + ip_text(src)).push(' ') + (("dst="@ + ip_text(dst)).push(' ')
                + rest)),
            local,
        ) == Some(dst),
{
    reveal_strlit("src=");
    reveal_strlit("dst=");
    let w1 = "src="@ + ip_text(src);
    let w2 = "dst="@ + ip_text(dst);
    let l2 = w2.push(' ') + rest;
    let l1 = w1.push(' ') + l2;
    let line = head.push(' ') + l1;
    lemma_no_equals(src);
    lemma_no_equals(dst);
    law_written_address_reads_back(src);
    law_written_address_reads_back(dst);
    assert forall|i: int| 0 <= i < w1.len() implies !is_space(#[trigger] w1[i]) by {
        if i >= 4 {
            assert(w1[i] == ip_text(src)[i - 4]);
        }
    }
    assert forall|i: int| 0 <= i < w2.len() implies !is_space(#[trigger] w2[i]) by {
        if i >= 4 {
            assert(w2[i] == ip_text(dst)[i - 4]);
        }
    }
    law_words(head, ' ', l1);
    law_words(w1, ' ', l2);
    law_words(w2, ' ', rest);
    let ws = words(line);
    let n = words(head).len() as int;
    assert(ws =~= words(head) + (seq![w1] + (seq![w2] + words(rest))));
    assert(ws[n] == w1);
    assert(ws[n + 1] == w2);
    assert(w1.take(4) =~= "src="@);
    assert(w1.skip(4) =~= ip_text(src));
    assert(w2.take(4) =~= "dst="@);
    assert(w2.skip(4) =~= ip_text(dst));
    assert("src="@[0] == 's' && "dst="@[0] == 'd');
    assert forall|k: int| 0 <= k < n implies #[trigger] ws[k] == words(head)[k] by {}
    assert(first_word_says(ws, "src="@, n, src));
    assert(first_word_says(ws, "dst="@, n + 1, dst));
    law_tracking_event_gives_the_far_end(line, local, n, src, n + 1, dst);
}

} // verus!
