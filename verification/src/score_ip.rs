//! Address preference scoring: rank a socket address by how likely it is to
//! be directly usable by a peer on the same local network. Lower is better.
//!
//! IPv4 private-LAN ranges come first; virtualization and container artifacts
//! are demoted because peers outside the host usually cannot reach them; IPv6
//! is deprioritized wholesale; loopback is last, being useful only on the
//! same host.

use vstd::prelude::*;
use vstd::multiset::Multiset;

use crate::addr::{IpAddress, Ipv4Address, Ipv6Address, SocketAddress};

verus! {

/// The preference table for IPv4, first match wins:
/// loopback 100; the 10.255.255.x NAT artifact 80; the 172.17-19.x container
/// bridges 70; the 172.31.x NAT side-range 60; 192.168.x.x 0; the rest of
/// 172.16-31.x 5; the rest of 10.x 10; link-local 169.254.x 20; all else 30.
pub open spec fn spec_score_ipv4(ip: Ipv4Address) -> i32 {
    if ip.a == 127 {
        100
    } else if ip.a == 10 && ip.b == 255 && ip.c == 255 {
        80
    } else if ip.a == 172 && (ip.b == 17 || ip.b == 18 || ip.b == 19) {
        70
    } else if ip.a == 172 && ip.b == 31 {
        60
    } else if ip.a == 192 && ip.b == 168 {
        0
    } else if ip.a == 172 && 16 <= ip.b && ip.b <= 31 {
        5
    } else if ip.a == 10 {
        10
    } else if ip.a == 169 && ip.b == 254 {
        20
    } else {
        30
    }
}

/// The preference table for IPv6: link-local fe80::/10 220; unique-local
/// fc00::/7 210; loopback ::1 230; every other address (the global-unicast
/// bucket) 200.
pub open spec fn spec_score_ipv6(ip: Ipv6Address) -> i32 {
    if ip.s0 & 0xffc0 == 0xfe80 {
        220
    } else if ip.s0 & 0xfe00 == 0xfc00 {
        210
    } else if ip.spec_is_loopback() {
        230
    } else {
        200
    }
}

/// The preference score of a socket address goes by its IP alone.
pub open spec fn spec_score(sa: SocketAddress) -> i32 {
    match sa.ip {
        IpAddress::V4(v4) => spec_score_ipv4(v4),
        IpAddress::V6(v6) => spec_score_ipv6(v6),
    }
}

pub fn score_ipv4(ip: &Ipv4Address) -> (r: i32)
    ensures
        r == spec_score_ipv4(*ip),
{
    if ip.a == 127 {
        return 100;
    }
    if ip.a == 10 && ip.b == 255 && ip.c == 255 {
        return 80;
    }
    if ip.a == 172 && (ip.b == 17 || ip.b == 18 || ip.b == 19) {
        return 70;
    }
    if ip.a == 172 && ip.b == 31 {
        return 60;
    }
    if ip.a == 192 && ip.b == 168 {
        return 0;
    }
    if ip.a == 172 && 16 <= ip.b && ip.b <= 31 {
        return 5;
    }
    if ip.a == 10 {
        return 10;
    }
    if ip.a == 169 && ip.b == 254 {
        return 20;
    }
    30
}

pub fn score_ipv6(ip: &Ipv6Address) -> (r: i32)
    ensures
        r == spec_score_ipv6(*ip),
{
    if ip.s0 & 0xffc0 == 0xfe80 {
        return 220;
    }
    if ip.s0 & 0xfe00 == 0xfc00 {
        return 210;
    }
    if ip.is_loopback() {
        return 230;
    }
    200
}

pub fn score_ip(sa: &SocketAddress) -> (r: i32)
    ensures
        r == spec_score(*sa),
{
    match &sa.ip {
        IpAddress::V4(v4) => score_ipv4(v4),
        IpAddress::V6(v6) => score_ipv6(v6),
    }
}

/// Places `x` into `s` after every element whose score does not exceed
/// `x`'s: the insertion step of a stable insertion sort.
pub open spec fn insert_by_score(x: SocketAddress, s: Seq<SocketAddress>) -> Seq<SocketAddress>
    decreases s.len(),
{
    if s.len() == 0 {
        seq![x]
    } else if spec_score(s[0]) <= spec_score(x) {
        seq![s[0]] + insert_by_score(x, s.drop_first())
    } else {
        seq![x] + s
    }
}

/// The stable insertion sort of `s`, ascending by score.
pub open spec fn sort_by_score(s: Seq<SocketAddress>) -> Seq<SocketAddress>
    decreases s.len(),
{
    if s.len() == 0 {
        Seq::empty()
    } else {
        insert_by_score(s.last(), sort_by_score(s.drop_last()))
    }
}

/// Non-decreasing by score.
pub open spec fn sorted_by_score(s: Seq<SocketAddress>) -> bool {
    forall|i: int, j: int| 0 <= i <= j < s.len() ==> spec_score(s[i]) <= spec_score(s[j])
}

/// The subsequence of `s` whose elements score exactly `v`, in their original
/// order.
pub open spec fn with_score(s: Seq<SocketAddress>, v: i32) -> Seq<SocketAddress> {
    s.filter(|a: SocketAddress| spec_score(a) == v)
}

proof fn lemma_filter_singleton(x: SocketAddress, v: i32)
    ensures
        with_score(seq![x], v) == if spec_score(x) == v {
            seq![x]
        } else {
            Seq::<SocketAddress>::empty()
        },
{
    reveal(Seq::filter);
    assert(seq![x].drop_last() =~= Seq::<SocketAddress>::empty());
    assert(with_score(Seq::<SocketAddress>::empty(), v) =~= Seq::<SocketAddress>::empty());
    assert(seq![x].last() == x);
    if spec_score(x) == v {
        assert(with_score(seq![x], v) =~= Seq::<SocketAddress>::empty().push(x));
        assert(Seq::<SocketAddress>::empty().push(x) =~= seq![x]);
    } else {
        assert(with_score(seq![x], v) =~= Seq::<SocketAddress>::empty());
    }
}

proof fn lemma_insert_by_score(x: SocketAddress, t: Seq<SocketAddress>)
    requires
        sorted_by_score(t),
    ensures
        sorted_by_score(insert_by_score(x, t)),
        insert_by_score(x, t).to_multiset() == t.to_multiset().insert(x),
        forall|v: i32| #[trigger] with_score(insert_by_score(x, t), v) == (if spec_score(x) == v {
            with_score(t, v).push(x)
        } else {
            with_score(t, v)
        }),
    decreases t.len(),
{
    broadcast use vstd::seq_lib::group_seq_properties;
    broadcast use Seq::filter_distributes_over_add;

    let r = insert_by_score(x, t);
    if t.len() == 0 {
        assert(t.to_multiset() =~= Multiset::<SocketAddress>::empty());
        assert(seq![x].to_multiset() =~= Multiset::<SocketAddress>::empty().insert(x)) by {
            assert(seq![x] =~= Seq::<SocketAddress>::empty().push(x));
            Seq::<SocketAddress>::empty().to_multiset_ensures();
        }
        assert forall|v: i32| #[trigger] with_score(r, v) == (if spec_score(x) == v {
            with_score(t, v).push(x)
        } else {
            with_score(t, v)
        }) by {
            lemma_filter_singleton(x, v);
            reveal(Seq::filter);
            if spec_score(x) == v {
                assert(with_score(t, v).push(x) =~= seq![x]);
            }
        }
    } else if spec_score(t[0]) <= spec_score(x) {
        let t1 = t.drop_first();
        assert(sorted_by_score(t1));
        lemma_insert_by_score(x, t1);
        assert(r == seq![t[0]] + insert_by_score(x, t1));
        // sortedness: t[0] is <= everything in t1 and <= x, so it stays first
        assert forall|i: int, j: int| 0 <= i <= j < r.len() implies spec_score(r[i]) <= spec_score(
            r[j],
        ) by {
            if 0 < i {
                assert(r[i] == insert_by_score(x, t1)[i - 1]);
                assert(r[j] == insert_by_score(x, t1)[j - 1]);
            } else if 0 < j {
                assert(r[j] == insert_by_score(x, t1)[j - 1]);
                let rj = insert_by_score(x, t1)[j - 1];
                assert(insert_by_score(x, t1).to_multiset().contains(rj)) by {
                    insert_by_score(x, t1).to_multiset_ensures();
                }
                assert(t1.to_multiset().insert(x).contains(rj));
                if rj != x || t1.to_multiset().contains(rj) {
                    assert(t1.to_multiset().contains(rj));
                    assert(t1.contains(rj)) by { t1.to_multiset_ensures() }
                    let w = choose|w: int| 0 <= w < t1.len() && t1[w] == rj;
                    assert(t[w + 1] == rj);
                    assert(spec_score(t[0]) <= spec_score(rj));
                }
            }
        }
        // multiset
        assert(r.to_multiset() =~= t.to_multiset().insert(x)) by {
            assert(seq![t[0]] + t1 =~= t);
            lemma_multiset_of_cons(t[0], t1);
            lemma_multiset_of_cons(t[0], insert_by_score(x, t1));
        }
        // stability
        assert forall|v: i32| #[trigger] with_score(r, v) == (if spec_score(x) == v {
            with_score(t, v).push(x)
        } else {
            with_score(t, v)
        }) by {
            lemma_filter_singleton(t[0], v);
            assert(with_score(r, v) == with_score(seq![t[0]], v) + with_score(
                insert_by_score(x, t1),
                v,
            ));
            assert(t =~= seq![t[0]] + t1);
            assert(with_score(t, v) == with_score(seq![t[0]], v) + with_score(t1, v));
            if spec_score(x) == v {
                assert(with_score(seq![t[0]], v) + with_score(t1, v).push(x) =~= (with_score(
                    seq![t[0]],
                    v,
                ) + with_score(t1, v)).push(x));
            }
        }
    } else {
        // x goes first; everything in t scores strictly above x
        assert(r == seq![x] + t);
        assert forall|i: int, j: int| 0 <= i <= j < r.len() implies spec_score(r[i]) <= spec_score(
            r[j],
        ) by {
            if 0 < i {
                assert(r[i] == t[i - 1] && r[j] == t[j - 1]);
            } else if 0 < j {
                assert(spec_score(t[0]) <= spec_score(t[j - 1]));
            }
        }
        assert(r.to_multiset() =~= t.to_multiset().insert(x)) by {
            lemma_multiset_of_cons(x, t);
        }
        assert forall|v: i32| #[trigger] with_score(r, v) == (if spec_score(x) == v {
            with_score(t, v).push(x)
        } else {
            with_score(t, v)
        }) by {
            lemma_filter_singleton(x, v);
            assert(with_score(r, v) == with_score(seq![x], v) + with_score(t, v));
            if spec_score(x) == v {
                // t holds nothing scoring v: its first element already scores above v
                t.lemma_all_neg_filter_empty(|a: SocketAddress| spec_score(a) == v);
                assert(with_score(t, v).push(x) =~= seq![x] + with_score(t, v));
            }
        }
    }
}

proof fn lemma_multiset_of_cons(x: SocketAddress, s: Seq<SocketAddress>)
    ensures
        (seq![x] + s).to_multiset() == s.to_multiset().insert(x),
    decreases s.len(),
{
    broadcast use vstd::seq_lib::group_to_multiset_ensures;

    if s.len() == 0 {
        assert(seq![x] + s =~= Seq::<SocketAddress>::empty().push(x));
    } else {
        lemma_multiset_of_cons(x, s.drop_last());
        assert(seq![x] + s =~= (seq![x] + s.drop_last()).push(s.last()));
        assert(s =~= s.drop_last().push(s.last()));
        assert((seq![x] + s).to_multiset() =~= s.to_multiset().insert(x));
    }
}

/// Law: sorting by preference reorders the addresses into ascending score
/// order, keeps exactly the same collection of addresses, and is stable: for
/// every score, the addresses holding it keep their original relative order.
pub proof fn lemma_sort_by_score_correct(s: Seq<SocketAddress>)
    ensures
        sorted_by_score(sort_by_score(s)),
        sort_by_score(s).to_multiset() == s.to_multiset(),
        forall|v: i32| #[trigger] with_score(sort_by_score(s), v) == with_score(s, v),
    decreases s.len(),
{
    broadcast use vstd::seq_lib::group_to_multiset_ensures;
    broadcast use Seq::filter_distributes_over_add;

    if s.len() == 0 {
        assert forall|v: i32| #[trigger] with_score(sort_by_score(s), v) == with_score(s, v) by {
            reveal(Seq::filter);
        }
    } else {
        let dl = s.drop_last();
        let x = s.last();
        lemma_sort_by_score_correct(dl);
        lemma_insert_by_score(x, sort_by_score(dl));
        assert(s =~= dl.push(x));
        assert(sort_by_score(s).to_multiset() == s.to_multiset()) by {
            assert(dl.push(x).to_multiset() == dl.to_multiset().insert(x));
        }
        assert forall|v: i32| #[trigger] with_score(sort_by_score(s), v) == with_score(s, v) by {
            lemma_filter_singleton(x, v);
            assert(s =~= dl + seq![x]);
            assert(with_score(s, v) == with_score(dl, v) + with_score(seq![x], v));
            if spec_score(x) == v {
                assert(with_score(dl, v) + seq![x] =~= with_score(dl, v).push(x));
            } else {
                assert(with_score(dl, v) + Seq::<SocketAddress>::empty() =~= with_score(dl, v));
            }
        }
    }
}

proof fn lemma_insert_at_pos(x: SocketAddress, s: Seq<SocketAddress>, pos: int)
    requires
        0 <= pos <= s.len(),
        forall|k: int| 0 <= k < pos ==> spec_score(s[k]) <= spec_score(x),
        pos < s.len() ==> spec_score(s[pos]) > spec_score(x),
    ensures
        insert_by_score(x, s) == s.insert(pos, x),
    decreases pos,
{
    if pos == 0 {
        if s.len() == 0 {
            assert(insert_by_score(x, s) =~= s.insert(0, x));
        } else {
            assert(insert_by_score(x, s) =~= s.insert(0, x));
        }
    } else {
        let s1 = s.drop_first();
        lemma_insert_at_pos(x, s1, pos - 1);
        assert(insert_by_score(x, s) == seq![s[0]] + s1.insert(pos - 1, x));
        assert(seq![s[0]] + s1.insert(pos - 1, x) =~= s.insert(pos, x));
    }
}

/// Reorders `addrs` into the stable ascending-score order that
/// `sort_by_score` describes.
pub fn sort_addrs_by_preference(addrs: &mut Vec<SocketAddress>)
    ensures
        final (addrs)@ == sort_by_score(old(addrs)@),
{
    let ghost input = addrs@;
    let mut out: Vec<SocketAddress> = Vec::new();
    let n = addrs.len();
    let mut i: usize = 0;
    proof {
        assert(input.take(0) =~= Seq::<SocketAddress>::empty());
    }
    while i < n
        invariant
            n == addrs@.len(),
            addrs@ == input,
            i <= n,
            out@ == sort_by_score(input.take(i as int)),
        decreases n - i,
    {
        let x = addrs[i];
        let mut pos: usize = 0;
        while pos < out.len() && score_ip(&out[pos]) <= score_ip(&x)
            invariant
                pos <= out.len(),
                forall|k: int| 0 <= k < pos ==> spec_score(out@[k]) <= spec_score(x),
            decreases out.len() - pos,
        {
            pos = pos + 1;
        }
        proof {
            lemma_insert_at_pos(x, out@, pos as int);
        }
        out.insert(pos, x);
        proof {
            assert(input.take(i + 1).drop_last() =~= input.take(i as int));
            assert(input.take(i + 1).last() == x);
        }
        i = i + 1;
    }
    proof {
        assert(input.take(n as int) =~= input);
    }
    *addrs = out;
}

/// Picks the most preferable address: the first address holding the minimal
/// score, or `None` when there are none. A pure query: the vector is read,
/// never changed.
pub fn get_best_addr(addrs: &Vec<SocketAddress>) -> (r: Option<SocketAddress>)
    ensures
        r is None <==> addrs@.len() == 0,
        match r {
            Some(a) => exists|i: int|
                {
                    &&& 0 <= i < addrs@.len()
                    &&& addrs@[i] == a
                    &&& forall|j: int|
                        0 <= j < addrs@.len() ==> spec_score(addrs@[j]) >= spec_score(a)
                    &&& forall|j: int| 0 <= j < i ==> spec_score(addrs@[j]) > spec_score(a)
                },
            None => true,
        },
{
    if addrs.len() == 0 {
        return None;
    }
    let mut best: SocketAddress = addrs[0];
    let ghost mut best_at: int = 0;
    let mut k: usize = 1;
    while k < addrs.len()
        invariant
            1 <= k <= addrs@.len(),
            0 <= best_at < k,
            addrs@[best_at] == best,
            forall|j: int| 0 <= j < k ==> spec_score(addrs@[j]) >= spec_score(best),
            forall|j: int| 0 <= j < best_at ==> spec_score(addrs@[j]) > spec_score(best),
        decreases addrs@.len() - k,
    {
        if score_ip(&addrs[k]) < score_ip(&best) {
            best = addrs[k];
            proof {
                best_at = k as int;
            }
        }
        k = k + 1;
    }
    Some(best)
}

} // verus!
