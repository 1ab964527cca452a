//! Presentation ordering for discovery results: every record's addresses go
//! into ascending preference order, and the records themselves are listed
//! ascending by display name, stably.

use vstd::prelude::*;

use crate::discovery::{FerryService, ServiceModel};
use crate::find_services::store_models;
use crate::score_ip::sort_by_score;
use crate::strings::{seq_le, str_le};

verus! {

/// A record with its addresses put into preference order.
pub open spec fn ranked(m: ServiceModel) -> ServiceModel {
    ServiceModel { addrs: sort_by_score(m.addrs), ..m }
}

/// Places `x` after every record whose display name does not come after
/// `x`'s: the insertion step of a stable insertion sort by name.
pub open spec fn insert_by_name(x: ServiceModel, s: Seq<ServiceModel>) -> Seq<ServiceModel>
    decreases s.len(),
{
    if s.len() == 0 {
        seq![x]
    } else if seq_le(s[0].instance, x.instance) {
        seq![s[0]] + insert_by_name(x, s.drop_first())
    } else {
        seq![x] + s
    }
}

/// The stable insertion sort of the records, ascending by display name.
pub open spec fn sort_by_name(s: Seq<ServiceModel>) -> Seq<ServiceModel>
    decreases s.len(),
{
    if s.len() == 0 {
        Seq::empty()
    } else {
        insert_by_name(s.last(), sort_by_name(s.drop_last()))
    }
}

proof fn lemma_insert_by_name_at(x: ServiceModel, s: Seq<ServiceModel>, pos: int)
    requires
        0 <= pos <= s.len(),
        forall|k: int| 0 <= k < pos ==> seq_le(s[k].instance, x.instance),
        pos < s.len() ==> !seq_le(s[pos].instance, x.instance),
    ensures
        insert_by_name(x, s) == s.insert(pos, x),
    decreases pos,
{
    if pos == 0 {
        assert(insert_by_name(x, s) =~= s.insert(0, x));
    } else {
        let s1 = s.drop_first();
        lemma_insert_by_name_at(x, s1, pos - 1);
        assert(insert_by_name(x, s) == seq![s[0]] + s1.insert(pos - 1, x));
        assert(seq![s[0]] + s1.insert(pos - 1, x) =~= s.insert(pos, x));
    }
}

/// Orders discovered services for presentation: inside each record the
/// addresses come ascending by preference score (stably), and the records
/// come ascending by display name (stably).
pub fn discover(services: &mut Vec<FerryService>)
    ensures
        store_models(final (services)@) == sort_by_name(
            store_models(old(services)@).map_values(|m: ServiceModel| ranked(m)),
        ),
{
    let ghost input = old(services)@;
    let n = services.len();
    let mut i: usize = 0;
    while i < n
        invariant
            n == services@.len(),
            n == input.len(),
            i <= n,
            forall|k: int| 0 <= k < i ==> #[trigger] services@[k]@ == ranked(input[k]@),
            forall|k: int| i <= k < n ==> #[trigger] services@[k] == input[k],
        decreases n - i,
    {
        let ghost before = services@;
        let mut svc = services.remove(i);
        svc.sort_addrs_by_preference();
        services.insert(i, svc);
        proof {
            assert(services@ =~= before.update(i as int, svc));
            assert(svc@ == ranked(input[i as int]@));
        }
        i = i + 1;
    }
    let ghost target = store_models(input).map_values(|m: ServiceModel| ranked(m));
    let ghost mids = services@;
    proof {
        assert(store_models(mids) =~= target);
    }
    let mut out: Vec<FerryService> = Vec::new();
    let mut consumed: usize = 0;
    proof {
        assert(services@ =~= mids.skip(0));
        assert(store_models(mids.take(0)) =~= Seq::<ServiceModel>::empty());
    }
    while consumed < n
        invariant
            n == mids.len(),
            consumed <= n,
            services@ == mids.skip(consumed as int),
            store_models(out@) == sort_by_name(store_models(mids.take(consumed as int))),
        decreases n - consumed,
    {
        let x = services.remove(0);
        proof {
            assert(x == mids[consumed as int]);
            assert(services@ =~= mids.skip(consumed + 1));
        }
        let mut pos: usize = 0;
        while pos < out.len() && str_le(out[pos].instance.as_str(), x.instance.as_str())
            invariant
                pos <= out@.len(),
                forall|k: int| 0 <= k < pos ==> seq_le(#[trigger] out@[k]@.instance, x@.instance),
            decreases out@.len() - pos,
        {
            pos = pos + 1;
        }
        proof {
            assert forall|k: int| 0 <= k < pos implies seq_le(
                #[trigger] store_models(out@)[k].instance,
                x@.instance,
            ) by {
                assert(store_models(out@)[k] == out@[k]@);
            }
            if pos < out@.len() {
                assert(store_models(out@)[pos as int] == out@[pos as int]@);
            }
            lemma_insert_by_name_at(x@, store_models(out@), pos as int);
        }
        let ghost out0 = out@;
        out.insert(pos, x);
        proof {
            assert(store_models(out@) =~= store_models(out0).insert(pos as int, x@));
            assert(store_models(mids.take(consumed + 1)).drop_last() =~= store_models(
                mids.take(consumed as int),
            ));
            assert(store_models(mids.take(consumed + 1)).last() == mids[consumed as int]@);
        }
        consumed = consumed + 1;
    }
    proof {
        assert(mids.take(n as int) =~= mids);
    }
    *services = out;
}

} // verus!
