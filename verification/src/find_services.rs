//! The endpoint merge store: repeated observations of one service merge into
//! one record, keyed by the case-folded fullname. Newer host and port win;
//! attributes merge key by key with incoming values winning; addresses merge
//! as a set union deduplicated by (IP, port), except that a port change
//! invalidates every previously stored address.

use vstd::prelude::*;

use crate::addr::{IpAddress, SocketAddress};
use crate::discovery::{pairs_to_map, txt_set, txt_wf, FerryService, ServiceModel};
use crate::strings::{instance_from_fullname, instance_of, key_of, str_eq_ignore_case};

verus! {

/// Two names clash when their case-folded keys agree.
pub open spec fn same_key(a: Seq<char>, b: Seq<char>) -> bool {
    key_of(a) == key_of(b)
}

/// `s` with later repetitions of an address dropped: the first occurrence of
/// each (IP, port) survives, in its original position.
pub open spec fn dedup(s: Seq<SocketAddress>) -> Seq<SocketAddress>
    decreases s.len(),
{
    if s.len() == 0 {
        Seq::empty()
    } else if s.drop_last().contains(s.last()) {
        dedup(s.drop_last())
    } else {
        dedup(s.drop_last()).push(s.last())
    }
}

/// No address repeats.
pub open spec fn distinct_addrs(s: Seq<SocketAddress>) -> bool {
    forall|i: int, j: int| 0 <= i < j < s.len() ==> s[i] != s[j]
}

/// Deduplication keeps exactly the addresses that were there and never
/// repeats one.
pub proof fn lemma_dedup_props(s: Seq<SocketAddress>)
    ensures
        forall|x: SocketAddress| #[trigger] dedup(s).contains(x) <==> s.contains(x),
        distinct_addrs(dedup(s)),
    decreases s.len(),
{
    if s.len() > 0 {
        let dl = s.drop_last();
        lemma_dedup_props(dl);
        assert forall|x: SocketAddress| #[trigger] s.contains(x) implies dl.contains(x) || x
            == s.last() by {
            let w = choose|w: int| 0 <= w < s.len() && s[w] == x;
            if w < s.len() - 1 {
                assert(dl[w] == x);
            }
        }
        assert forall|x: SocketAddress| dl.contains(x) || x == s.last() implies #[trigger] s.contains(
            x,
        ) by {
            if dl.contains(x) {
                let w = choose|w: int| 0 <= w < dl.len() && dl[w] == x;
                assert(s[w] == x);
            } else {
                assert(s[s.len() - 1] == x);
            }
        }
        if !dl.contains(s.last()) {
            let d = dedup(dl).push(s.last());
            assert forall|x: SocketAddress| #[trigger] d.contains(x) implies s.contains(x) by {
                let w = choose|w: int| 0 <= w < d.len() && d[w] == x;
                if w < d.len() - 1 {
                    assert(dedup(dl)[w] == x);
                    assert(dedup(dl).contains(x));
                }
            }
            assert forall|x: SocketAddress| #[trigger] s.contains(x) implies d.contains(x) by {
                if dl.contains(x) {
                    assert(dedup(dl).contains(x));
                    let w = choose|w: int| 0 <= w < dedup(dl).len() && dedup(dl)[w] == x;
                    assert(d[w] == x);
                } else {
                    assert(d[d.len() - 1] == x);
                }
            }
            assert forall|i: int, j: int| 0 <= i < j < d.len() implies d[i] != d[j] by {
                if j < d.len() - 1 {
                    assert(d[i] == dedup(dl)[i] && d[j] == dedup(dl)[j]);
                } else {
                    assert(d[i] == dedup(dl)[i]);
                    assert(dedup(dl).contains(dedup(dl)[i]));
                }
            }
        }
    }
}

/// Deduplicating a list that already has no repetitions changes nothing.
proof fn lemma_dedup_identity(s: Seq<SocketAddress>)
    requires
        distinct_addrs(s),
    ensures
        dedup(s) == s,
    decreases s.len(),
{
    if s.len() > 0 {
        let dl = s.drop_last();
        assert(!dl.contains(s.last())) by {
            if dl.contains(s.last()) {
                let w = choose|w: int| 0 <= w < dl.len() && dl[w] == s.last();
                assert(s[w] == s[s.len() - 1]);
            }
        }
        lemma_dedup_identity(dl);
        assert(dedup(s) =~= s);
    }
}

/// Appending addresses that are all already present changes nothing under
/// deduplication.
proof fn lemma_dedup_absorbs(a: Seq<SocketAddress>, b: Seq<SocketAddress>)
    requires
        forall|x: SocketAddress| #[trigger] b.contains(x) ==> a.contains(x),
    ensures
        dedup(a + b) == dedup(a),
    decreases b.len(),
{
    if b.len() == 0 {
        assert(a + b =~= a);
    } else {
        let c = a + b;
        assert(c.last() == b.last());
        assert(b.contains(b.last()));
        assert(a.contains(b.last()));
        assert(c.drop_last() =~= a + b.drop_last());
        assert(c.drop_last().contains(c.last())) by {
            let w = choose|w: int| 0 <= w < a.len() && a[w] == b.last();
            assert((a + b.drop_last())[w] == b.last());
        }
        assert forall|x: SocketAddress| #[trigger] b.drop_last().contains(x) implies a.contains(
            x,
        ) by {
            let w = choose|w: int| 0 <= w < b.drop_last().len() && b.drop_last()[w] == x;
            assert(b[w] == x);
            assert(b.contains(x));
        }
        lemma_dedup_absorbs(a, b.drop_last());
    }
}

fn contains_addr(v: &Vec<SocketAddress>, x: SocketAddress) -> (r: bool)
    ensures
        r == v@.contains(x),
{
    let mut i: usize = 0;
    while i < v.len()
        invariant
            i <= v@.len(),
            forall|k: int| 0 <= k < i ==> v@[k] != x,
        decreases v@.len() - i,
    {
        if v[i] == x {
            return true;
        }
        i = i + 1;
    }
    false
}

/// The set union of two address lists, first occurrences first.
fn dedup_concat(a: &Vec<SocketAddress>, b: &Vec<SocketAddress>) -> (r: Vec<SocketAddress>)
    ensures
        r@ == dedup(a@ + b@),
{
    let ghost c = a@ + b@;
    let mut out: Vec<SocketAddress> = Vec::new();
    proof {
        assert(c.take(0) =~= Seq::<SocketAddress>::empty());
    }
    let mut i: usize = 0;
    while i < a.len()
        invariant
            i <= a@.len(),
            c == a@ + b@,
            out@ == dedup(c.take(i as int)),
        decreases a@.len() - i,
    {
        let x = a[i];
        proof {
            lemma_dedup_props(c.take(i as int));
            assert(c.take(i + 1).drop_last() =~= c.take(i as int));
            assert(c.take(i + 1).last() == x);
        }
        if !contains_addr(&out, x) {
            out.push(x);
        }
        i = i + 1;
    }
    let mut j: usize = 0;
    while j < b.len()
        invariant
            j <= b@.len(),
            c == a@ + b@,
            out@ == dedup(c.take(a@.len() + j)),
        decreases b@.len() - j,
    {
        let x = b[j];
        proof {
            lemma_dedup_props(c.take(a@.len() + j));
            assert(c.take(a@.len() + j + 1).drop_last() =~= c.take(a@.len() + j));
            assert(c.take(a@.len() + j + 1).last() == x);
        }
        if !contains_addr(&out, x) {
            out.push(x);
        }
        j = j + 1;
    }
    proof {
        assert(c.take(c.len() as int) =~= c);
    }
    out
}

/// The store's records as their models.
pub open spec fn store_models(s: Seq<FerryService>) -> Seq<ServiceModel> {
    s.map_values(|x: FerryService| x@)
}

/// A well-formed store: one record per case-folded fullname, each with a
/// well-formed attribute list.
pub open spec fn store_wf(s: Seq<FerryService>) -> bool {
    &&& forall|i: int, j: int|
        0 <= i < j < s.len() ==> !same_key(s[i]@.fullname, s[j]@.fullname)
    &&& forall|i: int| 0 <= i < s.len() ==> txt_wf(s[i].txt@)
}

/// The position of the first record whose fullname clashes with `name`, or -1
/// when none does.
pub open spec fn match_index(s: Seq<ServiceModel>, name: Seq<char>) -> int
    decreases s.len(),
{
    if s.len() == 0 {
        -1
    } else if same_key(s[0].fullname, name) {
        0
    } else if match_index(s.drop_first(), name) == -1 {
        -1
    } else {
        match_index(s.drop_first(), name) + 1
    }
}

proof fn lemma_match_index_none(s: Seq<ServiceModel>, name: Seq<char>)
    requires
        forall|i: int| 0 <= i < s.len() ==> !same_key(s[i].fullname, name),
    ensures
        match_index(s, name) == -1,
    decreases s.len(),
{
    if s.len() > 0 {
        assert(forall|i: int|
            0 <= i < s.len() - 1 ==> #[trigger] s.drop_first()[i] == s[i + 1]);
        lemma_match_index_none(s.drop_first(), name);
    }
}

proof fn lemma_match_index_at(s: Seq<ServiceModel>, name: Seq<char>, i: int)
    requires
        0 <= i < s.len(),
        same_key(s[i].fullname, name),
        forall|k: int| 0 <= k < i ==> !same_key(s[k].fullname, name),
    ensures
        match_index(s, name) == i,
    decreases s.len(),
{
    if i > 0 {
        assert(forall|k: int|
            0 <= k < s.len() - 1 ==> #[trigger] s.drop_first()[k] == s[k + 1]);
        lemma_match_index_at(s.drop_first(), name, i - 1);
    }
}

/// How one record absorbs a newer observation of the same service: the newest
/// host and port win; a port change discards every previously stored address;
/// attributes merge with incoming values winning per key; addresses merge as
/// a deduplicated union. The stored instance and fullname (in their original
/// case) stay.
pub open spec fn merged_service(e: ServiceModel, inc: ServiceModel) -> ServiceModel {
    ServiceModel {
        instance: e.instance,
        fullname: e.fullname,
        host: inc.host,
        port: inc.port,
        addrs: if e.port == inc.port {
            dedup(e.addrs + inc.addrs)
        } else {
            dedup(inc.addrs)
        },
        txt: e.txt.union_prefer_right(inc.txt),
    }
}

/// What one upsert does to the store: a record with a clashing key absorbs
/// the observation in place; otherwise the incoming record is appended
/// unchanged.
pub open spec fn spec_upsert(s: Seq<ServiceModel>, inc: ServiceModel) -> Seq<ServiceModel> {
    let mi = match_index(s, inc.fullname);
    if mi == -1 {
        s.push(inc)
    } else {
        s.update(mi, merged_service(s[mi], inc))
    }
}

/// Records an observation in the store, exactly as `spec_upsert` says.
pub fn upsert_service(found: &mut Vec<FerryService>, incoming: FerryService)
    requires
        store_wf(old(found)@),
        txt_wf(incoming.txt@),
    ensures
        store_wf(final (found)@),
        store_models(final (found)@) == spec_upsert(store_models(old(found)@), incoming@),
{
    let ghost models0 = store_models(found@);
    let n = found.len();
    let mut j: usize = 0;
    while j < n
        invariant
            n == found@.len(),
            j <= n,
            found@ == old(found)@,
            models0 == store_models(found@),
            store_wf(found@),
            txt_wf(incoming.txt@),
            forall|k: int| 0 <= k < j ==> !same_key(found@[k]@.fullname, incoming@.fullname),
        decreases n - j,
    {
        let hit = str_eq_ignore_case(found[j].fullname.as_str(), incoming.fullname.as_str());
        if hit {
            proof {
                assert(models0[j as int] == found@[j as int]@);
                assert(forall|k: int| 0 <= k < j ==> models0[k] == found@[k]@);
                lemma_match_index_at(models0, incoming@.fullname, j as int);
            }
            merge_into(found, j, incoming);
            return ;
        }
        j = j + 1;
    }
    proof {
        assert(forall|k: int| 0 <= k < n ==> models0[k] == found@[k]@);
        lemma_match_index_none(models0, incoming@.fullname);
    }
    let ghost before = found@;
    found.push(incoming);
    proof {
        assert(store_models(found@) =~= store_models(before).push(incoming@));
        assert forall|a: int, b: int| 0 <= a < b < found@.len() implies !same_key(
            found@[a]@.fullname,
            found@[b]@.fullname,
        ) by {
            if b < found@.len() - 1 {
                assert(found@[a] == before[a] && found@[b] == before[b]);
            } else {
                assert(found@[a] == before[a]);
            }
        }
        assert(forall|i: int|
            0 <= i < found@.len() - 1 ==> #[trigger] found@[i] == before[i]);
    }
}

/// Merges `incoming` into the record at `j`, which carries the same key.
fn merge_into(found: &mut Vec<FerryService>, j: usize, incoming: FerryService)
    requires
        store_wf(old(found)@),
        txt_wf(incoming.txt@),
        j < old(found)@.len(),
        same_key(old(found)@[j as int]@.fullname, incoming@.fullname),
    ensures
        store_wf(final (found)@),
        store_models(final (found)@) == store_models(old(found)@).update(
            j as int,
            merged_service(old(found)@[j as int]@, incoming@),
        ),
{
    let ghost before = found@;
    let ghost target = merged_service(before[j as int]@, incoming@);
    let mut existing = found.remove(j);
    let ghost e0 = existing@;
    if existing.port != incoming.port {
        existing.port = incoming.port;
        existing.addrs = Vec::new();
        proof {
            assert(Seq::<SocketAddress>::empty() + incoming@.addrs =~= incoming@.addrs);
        }
    }
    existing.host = incoming.host;
    let merged_addrs = dedup_concat(&existing.addrs, &incoming.addrs);
    existing.addrs = merged_addrs;
    // merge the attribute tables: incoming entries win on their keys
    let m = incoming.txt.len();
    let mut t: usize = 0;
    proof {
        assert(pairs_to_map(incoming.txt@.take(0)) =~= Map::<Seq<char>, Seq<char>>::empty());
        assert(e0.txt.union_prefer_right(Map::<Seq<char>, Seq<char>>::empty()) =~= e0.txt);
    }
    while t < m
        invariant
            m == incoming.txt@.len(),
            t <= m,
            txt_wf(existing.txt@),
            pairs_to_map(existing.txt@) == e0.txt.union_prefer_right(
                pairs_to_map(incoming.txt@.take(t as int)),
            ),
            existing.instance@ == target.instance,
            existing.fullname@ == target.fullname,
            existing.host@ == target.host,
            existing.port == target.port,
            existing.addrs@ == target.addrs,
            e0.txt.union_prefer_right(incoming@.txt) == target.txt,
        decreases m - t,
    {
        let key = incoming.txt[t].0.clone();
        let value = incoming.txt[t].1.clone();
        let ghost prev = pairs_to_map(incoming.txt@.take(t as int));
        txt_set(&mut existing.txt, key, value);
        proof {
            assert(incoming.txt@.take(t + 1).drop_last() =~= incoming.txt@.take(t as int));
            assert(incoming.txt@.take(t + 1).last() == incoming.txt@[t as int]);
            assert(pairs_to_map(incoming.txt@.take(t + 1)) == prev.insert(
                incoming.txt@[t as int].0@,
                incoming.txt@[t as int].1@,
            ));
            assert(e0.txt.union_prefer_right(prev).insert(
                incoming.txt@[t as int].0@,
                incoming.txt@[t as int].1@,
            ) =~= e0.txt.union_prefer_right(
                prev.insert(incoming.txt@[t as int].0@, incoming.txt@[t as int].1@),
            ));
        }
        t = t + 1;
    }
    proof {
        assert(incoming.txt@.take(m as int) =~= incoming.txt@);
        assert(existing@ =~= target);
    }
    found.insert(j, existing);
    proof {
        assert(found@ =~= before.update(j as int, existing));
        assert(store_models(found@) =~= store_models(before).update(j as int, target));
        assert forall|a: int, b: int| 0 <= a < b < found@.len() implies !same_key(
            found@[a]@.fullname,
            found@[b]@.fullname,
        ) by {
            assert(found@[a]@.fullname == before[a]@.fullname);
            assert(found@[b]@.fullname == before[b]@.fullname);
        }
        assert forall|i: int| 0 <= i < found@.len() implies txt_wf(found@[i].txt@) by {
            if i != j {
                assert(found@[i] == before[i]);
            }
        }
    }
}


/// What removal does to the store: every record whose fullname clashes
/// case-insensitively with `name` is dropped; the rest keep their order.
pub open spec fn spec_remove(s: Seq<ServiceModel>, name: Seq<char>) -> Seq<ServiceModel> {
    s.filter(|m: ServiceModel| !same_key(m.fullname, name))
}

proof fn lemma_filter_one<A>(x: A, p: spec_fn(A) -> bool)
    ensures
        seq![x].filter(p) == if p(x) {
            seq![x]
        } else {
            Seq::<A>::empty()
        },
{
    reveal(Seq::filter);
    assert(seq![x].drop_last() =~= Seq::<A>::empty());
    assert(Seq::<A>::empty().filter(p) =~= Seq::<A>::empty());
    if p(x) {
        assert(seq![x].filter(p) =~= Seq::<A>::empty().push(x));
        assert(Seq::<A>::empty().push(x) =~= seq![x]);
    } else {
        assert(seq![x].filter(p) =~= Seq::<A>::empty());
    }
}

/// Whether entry `a` of `out` equals some entry of `input` before `bound`.
spec fn valid_witness(
    out: Seq<FerryService>,
    input: Seq<FerryService>,
    a: int,
    bound: int,
) -> bool {
    exists|b: int| 0 <= b < bound && out[a] == #[trigger] input[b]
}

/// Deletes the record registered under `fullname`, matching
/// case-insensitively; removing an unknown name changes nothing.
pub fn remove_service(found: &mut Vec<FerryService>, fullname: &str)
    requires
        store_wf(old(found)@),
    ensures
        store_wf(final (found)@),
        store_models(final (found)@) == spec_remove(store_models(old(found)@), fullname@),
{
    broadcast use Seq::filter_distributes_over_add;

    let ghost input = old(found)@;
    let ghost p = |m: ServiceModel| !same_key(m.fullname, fullname@);
    let mut out: Vec<FerryService> = Vec::new();
    let mut i: usize = 0;
    let n = found.len();
    proof {
        assert(store_models(input.take(0)) =~= Seq::<ServiceModel>::empty());
        assert(Seq::<ServiceModel>::empty().filter(p) =~= Seq::<ServiceModel>::empty()) by {
            reveal(Seq::filter);
        }
        assert(found@ =~= input.skip(0));
    }
    while i < n
        invariant
            n == input.len(),
            i <= n,
            found@ == input.skip(i as int),
            store_wf(input),
            store_models(out@) == store_models(input.take(i as int)).filter(p),
            store_wf(out@),
            p == (|m: ServiceModel| !same_key(m.fullname, fullname@)),
            forall|a: int| 0 <= a < out@.len() ==> #[trigger] valid_witness(out@, input, a, i as int),
        decreases n - i,
    {
        let ghost out0 = out@;
        let x = found.remove(0);
        proof {
            assert(x == input[i as int]);
            assert(found@ =~= input.skip(i + 1));
            assert(store_models(input.take(i + 1)).drop_last() =~= store_models(
                input.take(i as int),
            ));
            assert(store_models(input.take(i + 1)) =~= store_models(input.take(i as int)) + seq![
                input[i as int]@,
            ]);
            lemma_filter_one(input[i as int]@, p);
        }
        let keep = !str_eq_ignore_case(x.fullname.as_str(), fullname);
        if keep {
            out.push(x);
            proof {
                assert(store_models(out@) =~= store_models(out0).push(input[i as int]@));
                assert(store_models(input.take(i as int)).filter(p) + seq![input[i as int]@]
                    =~= store_models(input.take(i as int)).filter(p).push(input[i as int]@));
                assert forall|a: int| 0 <= a < out@.len() implies #[trigger] valid_witness(
                    out@,
                    input,
                    a,
                    i + 1,
                ) by {
                    if a < out@.len() - 1 {
                        assert(out@[a] == out0[a]);
                        assert(valid_witness(out0, input, a, i as int));
                        let b = choose|b: int| 0 <= b < i && out0[a] == #[trigger] input[b];
                        assert(out@[a] == input[b]);
                    } else {
                        assert(out@[a] == input[i as int]);
                    }
                }
                assert forall|a: int, b: int| 0 <= a < b < out@.len() implies !same_key(
                    out@[a]@.fullname,
                    out@[b]@.fullname,
                ) by {
                    if b < out@.len() - 1 {
                        assert(out@[a] == out0[a] && out@[b] == out0[b]);
                    } else {
                        assert(out@[a] == out0[a]);
                        assert(valid_witness(out0, input, a, i as int));
                        let w = choose|w: int| 0 <= w < i && out0[a] == #[trigger] input[w];
                        assert(out@[b] == input[i as int]);
                        assert(!same_key(input[w]@.fullname, input[i as int]@.fullname));
                    }
                }
                assert forall|a: int| 0 <= a < out@.len() implies txt_wf(out@[a].txt@) by {
                    if a < out@.len() - 1 {
                        assert(out@[a] == out0[a]);
                    } else {
                        assert(out@[a] == input[i as int]);
                    }
                }
            }
        } else {
            proof {
                assert(store_models(input.take(i as int)).filter(p) + Seq::<ServiceModel>::empty()
                    =~= store_models(input.take(i as int)).filter(p));
                assert forall|a: int| 0 <= a < out@.len() implies #[trigger] valid_witness(
                    out@,
                    input,
                    a,
                    i + 1,
                ) by {
                    assert(valid_witness(out@, input, a, i as int));
                    let b = choose|b: int| 0 <= b < i && out@[a] == #[trigger] input[b];
                    assert(out@[a] == input[b] && 0 <= b < i + 1);
                }
            }
        }
        i = i + 1;
    }
    proof {
        assert(input.take(n as int) =~= input);
    }
    *found = out;
}


/// A store model in which no two records clash on their key.
pub open spec fn models_wf(s: Seq<ServiceModel>) -> bool {
    forall|i: int, j: int| 0 <= i < j < s.len() ==> !same_key(s[i].fullname, s[j].fullname)
}

proof fn lemma_match_index_props(s: Seq<ServiceModel>, name: Seq<char>)
    ensures
        match_index(s, name) == -1 ==> forall|i: int|
            0 <= i < s.len() ==> !same_key(s[i].fullname, name),
        match_index(s, name) != -1 ==> {
            let mi = match_index(s, name);
            &&& 0 <= mi < s.len()
            &&& same_key(s[mi].fullname, name)
            &&& forall|k: int| 0 <= k < mi ==> !same_key(s[k].fullname, name)
        },
    decreases s.len(),
{
    if s.len() > 0 && !same_key(s[0].fullname, name) {
        lemma_match_index_props(s.drop_first(), name);
        let mi1 = match_index(s.drop_first(), name);
        if mi1 == -1 {
            assert forall|i: int| 0 <= i < s.len() implies !same_key(s[i].fullname, name) by {
                if i > 0 {
                    assert(s.drop_first()[i - 1] == s[i]);
                }
            }
        } else {
            assert(s.drop_first()[mi1] == s[mi1 + 1]);
            assert forall|k: int| 0 <= k < mi1 + 1 implies !same_key(s[k].fullname, name) by {
                if k > 0 {
                    assert(s.drop_first()[k - 1] == s[k]);
                }
            }
        }
    }
}

/// Law: recording the same observation twice leaves exactly the store that
/// recording it once leaves, for any store whose keys are unique and any
/// incoming record whose address list does not repeat an address.
pub proof fn lemma_upsert_idempotent(s: Seq<ServiceModel>, inc: ServiceModel)
    requires
        models_wf(s),
        distinct_addrs(inc.addrs),
    ensures
        spec_upsert(spec_upsert(s, inc), inc) == spec_upsert(s, inc),
{
    let mi = match_index(s, inc.fullname);
    lemma_match_index_props(s, inc.fullname);
    if mi == -1 {
        let s1 = s.push(inc);
        assert(forall|k: int| 0 <= k < s.len() ==> #[trigger] s1[k] == s[k]);
        assert(s1[s.len() as int] == inc);
        lemma_match_index_at(s1, inc.fullname, s.len() as int);
        let m2 = merged_service(inc, inc);
        assert(forall|x: SocketAddress| #[trigger] inc.addrs.contains(x) ==> inc.addrs.contains(x));
        lemma_dedup_absorbs(inc.addrs, inc.addrs);
        lemma_dedup_identity(inc.addrs);
        assert(m2.txt =~= inc.txt);
        assert(m2 =~= inc);
        assert(spec_upsert(s1, inc) =~= s1);
    } else {
        let m = merged_service(s[mi], inc);
        let s1 = s.update(mi, m);
        assert(s1[mi] == m);
        assert(forall|k: int| 0 <= k < s.len() && k != mi ==> #[trigger] s1[k] == s[k]);
        lemma_match_index_at(s1, inc.fullname, mi);
        // merging the already merged record changes nothing
        let old_addrs = if s[mi].port == inc.port {
            s[mi].addrs + inc.addrs
        } else {
            inc.addrs
        };
        assert(m.addrs == dedup(old_addrs));
        lemma_dedup_props(old_addrs);
        assert forall|x: SocketAddress| #[trigger] inc.addrs.contains(x) implies m.addrs.contains(
            x,
        ) by {
            let w = choose|w: int| 0 <= w < inc.addrs.len() && inc.addrs[w] == x;
            if s[mi].port == inc.port {
                assert(old_addrs[s[mi].addrs.len() + w] == x);
            }
            assert(old_addrs.contains(x));
        }
        lemma_dedup_absorbs(m.addrs, inc.addrs);
        lemma_dedup_identity(m.addrs);
        let m2 = merged_service(m, inc);
        assert(m2.addrs == m.addrs);
        assert(m2.txt =~= m.txt);
        assert(m2 =~= m);
        assert(spec_upsert(s1, inc) =~= s1);
    }
}

/// Law: the store invariant holds across upserts: a store with one record
/// per case-folded fullname still has one record per case-folded fullname
/// after absorbing any observation.
pub proof fn lemma_upsert_preserves_wf(s: Seq<ServiceModel>, inc: ServiceModel)
    requires
        models_wf(s),
    ensures
        models_wf(spec_upsert(s, inc)),
{
    let mi = match_index(s, inc.fullname);
    lemma_match_index_props(s, inc.fullname);
    if mi == -1 {
        let s1 = s.push(inc);
        assert forall|i: int, j: int| 0 <= i < j < s1.len() implies !same_key(
            s1[i].fullname,
            s1[j].fullname,
        ) by {
            if j < s1.len() - 1 {
                assert(s1[i] == s[i] && s1[j] == s[j]);
            } else {
                assert(s1[i] == s[i]);
            }
        }
    } else {
        let s1 = s.update(mi, merged_service(s[mi], inc));
        assert forall|i: int, j: int| 0 <= i < j < s1.len() implies !same_key(
            s1[i].fullname,
            s1[j].fullname,
        ) by {
            assert(s1[i].fullname == s[i].fullname);
            assert(s1[j].fullname == s[j].fullname);
        }
    }
}

/// Law: an observation merges into the record whose fullname matches up to
/// ASCII case, in place; the store neither grows nor loses any other record.
pub proof fn lemma_upsert_case_insensitive(s: Seq<ServiceModel>, inc: ServiceModel, i: int)
    requires
        models_wf(s),
        0 <= i < s.len(),
        same_key(s[i].fullname, inc.fullname),
    ensures
        spec_upsert(s, inc).len() == s.len(),
        spec_upsert(s, inc)[i] == merged_service(s[i], inc),
        forall|j: int| 0 <= j < s.len() && j != i ==> #[trigger] spec_upsert(s, inc)[j] == s[j],
{
    assert forall|k: int| 0 <= k < i implies !same_key(s[k].fullname, inc.fullname) by {
        assert(!same_key(s[k].fullname, s[i].fullname));
    }
    lemma_match_index_at(s, inc.fullname, i);
}

/// Law: recording an observation never touches a record whose fullname
/// differs from the incoming one: distinct services coexist, they never merge.
pub proof fn lemma_upsert_preserves_others(s: Seq<ServiceModel>, inc: ServiceModel, i: int)
    requires
        0 <= i < s.len(),
        !same_key(s[i].fullname, inc.fullname),
    ensures
        spec_upsert(s, inc).len() >= s.len(),
        spec_upsert(s, inc)[i] == s[i],
{
    let mi = match_index(s, inc.fullname);
    lemma_match_index_props(s, inc.fullname);
    if mi != -1 {
        assert(mi != i);
    }
}

/// Law: after a merge under a changed port, the record carries the incoming
/// port, host and exactly the incoming addresses; nothing stale survives.
pub proof fn lemma_merge_port_change(e: ServiceModel, inc: ServiceModel, x: SocketAddress)
    requires
        e.port != inc.port,
    ensures
        merged_service(e, inc).port == inc.port,
        merged_service(e, inc).host == inc.host,
        merged_service(e, inc).addrs.contains(x) <==> inc.addrs.contains(x),
        distinct_addrs(merged_service(e, inc).addrs),
{
    lemma_dedup_props(inc.addrs);
}

/// Law: attributes merge key by key. An incoming key wins with its value; a
/// key only the stored record has keeps its stored value; a key neither has
/// stays absent.
pub proof fn lemma_merge_attributes(e: ServiceModel, inc: ServiceModel, k: Seq<char>)
    ensures
        inc.txt.contains_key(k) ==> merged_service(e, inc).txt.contains_key(k) && merged_service(
            e,
            inc,
        ).txt[k] == inc.txt[k],
        !inc.txt.contains_key(k) && e.txt.contains_key(k) ==> merged_service(e, inc).txt.contains_key(
            k,
        ) && merged_service(e, inc).txt[k] == e.txt[k],
        !inc.txt.contains_key(k) && !e.txt.contains_key(k) ==> !merged_service(
            e,
            inc,
        ).txt.contains_key(k),
{
}


/// What one "resolved" protocol event reports about a service: its
/// fully-qualified name, the namespace it was browsed under, the declared
/// host and port, the peer's addresses, and the raw attribute entries.
pub struct ResolvedInfo {
    pub fullname: String,
    pub ty_domain: String,
    pub host: String,
    pub port: u16,
    pub addrs: Vec<IpAddress>,
    pub txt: Vec<(String, String)>,
}

/// One discovery-protocol notification, reduced to what the browse loop
/// reacts to: a service's details became known, a service withdrew, some
/// other protocol event arrived, or one poll interval passed quietly.
pub enum BrowseEvent {
    Resolved(ResolvedInfo),
    Removed(String),
    Other,
    PollTimeout,
}

/// The record a "resolved" event denotes: the display name is the fullname
/// with the namespace suffix stripped, each reported IP is paired with the
/// declared port, and the attribute entries are read as a table, later
/// entries winning.
pub open spec fn resolved_model(info: ResolvedInfo) -> ServiceModel {
    ServiceModel {
        instance: instance_of(info.fullname@, info.ty_domain@),
        fullname: info.fullname@,
        host: info.host@,
        port: info.port,
        addrs: Seq::new(
            info.addrs@.len(),
            |i: int| SocketAddress { ip: info.addrs@[i], port: info.port },
        ),
        txt: pairs_to_map(info.txt@),
    }
}

/// Pairs each reported IP with the service's declared port.
pub fn scoped_to_socket_addrs(addrs: &Vec<IpAddress>, port: u16) -> (r: Vec<SocketAddress>)
    ensures
        r@ =~= Seq::new(addrs@.len(), |i: int| SocketAddress { ip: addrs@[i], port }),
{
    let mut out: Vec<SocketAddress> = Vec::new();
    let mut i: usize = 0;
    while i < addrs.len()
        invariant
            i <= addrs@.len(),
            out@.len() == i,
            forall|k: int|
                0 <= k < i ==> out@[k] == (SocketAddress { ip: addrs@[k], port }),
        decreases addrs@.len() - i,
    {
        out.push(SocketAddress { ip: addrs[i], port });
        i = i + 1;
    }
    out
}

/// Builds the service record a "resolved" event denotes, exactly as
/// `resolved_model` says; its attribute list is well-formed even when the
/// event repeated a key.
pub fn service_from_resolved(info: ResolvedInfo) -> (svc: FerryService)
    ensures
        svc@ == resolved_model(info),
        txt_wf(svc.txt@),
{
    let instance = instance_from_fullname(info.fullname.as_str(), info.ty_domain.as_str());
    let addrs = scoped_to_socket_addrs(&info.addrs, info.port);
    let m = info.txt.len();
    let mut txt: Vec<(String, String)> = Vec::new();
    let mut t: usize = 0;
    proof {
        assert(pairs_to_map(txt@) =~= pairs_to_map(info.txt@.take(0)));
    }
    while t < m
        invariant
            m == info.txt@.len(),
            t <= m,
            txt_wf(txt@),
            pairs_to_map(txt@) == pairs_to_map(info.txt@.take(t as int)),
        decreases m - t,
    {
        let key = info.txt[t].0.clone();
        let value = info.txt[t].1.clone();
        txt_set(&mut txt, key, value);
        proof {
            assert(info.txt@.take(t + 1).drop_last() =~= info.txt@.take(t as int));
            assert(info.txt@.take(t + 1).last() == info.txt@[t as int]);
        }
        t = t + 1;
    }
    proof {
        assert(info.txt@.take(m as int) =~= info.txt@);
    }
    FerryService { instance, fullname: info.fullname, host: info.host, port: info.port, addrs, txt }
}

/// Feeds one discovery event to the store: a resolved service is upserted, a
/// withdrawn name is removed, anything else is absorbed without effect.
pub fn handle_event(found: &mut Vec<FerryService>, event: BrowseEvent)
    requires
        store_wf(old(found)@),
    ensures
        store_wf(final (found)@),
        match event {
            BrowseEvent::Resolved(info) => store_models(final (found)@) == spec_upsert(
                store_models(old(found)@),
                resolved_model(info),
            ),
            BrowseEvent::Removed(name) => store_models(final (found)@) == spec_remove(
                store_models(old(found)@),
                name@,
            ),
            _ => final (found)@ == old(found)@,
        },
{
    match event {
        BrowseEvent::Resolved(info) => {
            let svc = service_from_resolved(info);
            upsert_service(found, svc);
        },
        BrowseEvent::Removed(name) => {
            remove_service(found, name.as_str());
        },
        BrowseEvent::Other => {},
        BrowseEvent::PollTimeout => {},
    }
}

} // verus!
