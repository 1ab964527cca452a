//! One discovered service record and its mathematical model: strings as
//! character sequences, the address list as a sequence, and the attribute
//! table as a map from key to value.

use vstd::prelude::*;

use crate::addr::SocketAddress;
use crate::score_ip;
use crate::score_ip::{sort_by_score, spec_score};
use crate::strings::str_eq;

verus! {

/// The abstract value of a `FerryService`.
#[verifier::ext_equal]
pub struct ServiceModel {
    pub instance: Seq<char>,
    pub fullname: Seq<char>,
    pub host: Seq<char>,
    pub port: u16,
    pub addrs: Seq<SocketAddress>,
    pub txt: Map<Seq<char>, Seq<char>>,
}

/// One observed, possibly merged, discovery record.
///
/// `fullname` is the namespace-qualified name and the deduplication key
/// (compared case-insensitively); `instance` is the display name with the
/// namespace stripped; `host` and `port` are the most recently observed
/// values; `addrs` is the set of endpoints at which the service was seen
/// reachable; `txt` is the advertised attribute table, last write per key
/// winning.
#[derive(Debug, Clone)]
pub struct FerryService {
    pub instance: String,
    pub fullname: String,
    pub host: String,
    pub port: u16,
    pub addrs: Vec<SocketAddress>,
    pub txt: Vec<(String, String)>,
}

/// The attribute table a key-value list denotes: later entries win.
pub open spec fn pairs_to_map(s: Seq<(String, String)>) -> Map<Seq<char>, Seq<char>>
    decreases s.len(),
{
    if s.len() == 0 {
        Map::empty()
    } else {
        pairs_to_map(s.drop_last()).insert(s.last().0@, s.last().1@)
    }
}

/// A well-formed attribute list mentions each key once.
pub open spec fn txt_wf(s: Seq<(String, String)>) -> bool {
    forall|i: int, j: int| 0 <= i < j < s.len() ==> s[i].0@ != s[j].0@
}

impl View for FerryService {
    type V = ServiceModel;

    open spec fn view(&self) -> ServiceModel {
        ServiceModel {
            instance: self.instance@,
            fullname: self.fullname@,
            host: self.host@,
            port: self.port,
            addrs: self.addrs@,
            txt: pairs_to_map(self.txt@),
        }
    }
}

proof fn lemma_pairs_map_match(s: Seq<(String, String)>, key: Seq<char>, i: int)
    requires
        0 <= i < s.len(),
        s[i].0@ == key,
        forall|j: int| i < j < s.len() ==> s[j].0@ != key,
    ensures
        pairs_to_map(s).contains_key(key),
        pairs_to_map(s)[key] == s[i].1@,
    decreases s.len(),
{
    if i < s.len() - 1 {
        assert(s.drop_last()[i] == s[i]);
        lemma_pairs_map_match(s.drop_last(), key, i);
    }
}

proof fn lemma_pairs_map_no_match(s: Seq<(String, String)>, key: Seq<char>)
    requires
        forall|j: int| 0 <= j < s.len() ==> s[j].0@ != key,
    ensures
        !pairs_to_map(s).contains_key(key),
    decreases s.len(),
{
    if s.len() > 0 {
        assert(forall|j: int| 0 <= j < s.len() - 1 ==> s.drop_last()[j] == s[j]);
        lemma_pairs_map_no_match(s.drop_last(), key);
    }
}

proof fn lemma_pairs_map_update(s: Seq<(String, String)>, j: int, p: (String, String))
    requires
        0 <= j < s.len(),
        s[j].0@ == p.0@,
        forall|l: int| j < l < s.len() ==> s[l].0@ != p.0@,
    ensures
        pairs_to_map(s.update(j, p)) == pairs_to_map(s).insert(p.0@, p.1@),
    decreases s.len(),
{
    let u = s.update(j, p);
    if j == s.len() - 1 {
        assert(u.drop_last() =~= s.drop_last());
        assert(u.last() == p);
        assert(pairs_to_map(u) =~= pairs_to_map(s).insert(p.0@, p.1@));
    } else {
        assert(u.drop_last() =~= s.drop_last().update(j, p));
        assert(u.last() == s.last());
        assert(forall|l: int| 0 <= l < s.len() - 1 ==> s.drop_last()[l] == s[l]);
        lemma_pairs_map_update(s.drop_last(), j, p);
        assert(s.last().0@ != p.0@);
        assert(pairs_to_map(u) =~= pairs_to_map(s).insert(p.0@, p.1@));
    }
}

/// Sets `key` to `value` in a well-formed attribute list, replacing the value
/// in place when the key is already present and appending otherwise.
pub fn txt_set(txt: &mut Vec<(String, String)>, key: String, value: String)
    requires
        txt_wf(old(txt)@),
    ensures
        txt_wf(final (txt)@),
        pairs_to_map(final (txt)@) == pairs_to_map(old(txt)@).insert(key@, value@),
{
    let n = txt.len();
    let mut i: usize = 0;
    while i < n
        invariant
            n == txt@.len(),
            i <= n,
            txt@ == old(txt)@,
            txt_wf(txt@),
            forall|j: int| 0 <= j < i ==> txt@[j].0@ != key@,
        decreases n - i,
    {
        let hit = str_eq(txt[i].0.as_str(), key.as_str());
        if hit {
            proof {
                lemma_pairs_map_update(txt@, i as int, (key, value));
            }
            let ghost before = txt@;
            txt[i] = (key, value);
            proof {
                assert(txt@ =~= before.update(i as int, (key, value)));
                assert forall|a: int, b: int| 0 <= a < b < txt@.len() implies txt@[a].0@
                    != txt@[b].0@ by {
                    assert(txt@[a].0@ == before[a].0@);
                    assert(txt@[b].0@ == before[b].0@);
                }
            }
            return ;
        }
        i = i + 1;
    }
    let ghost before = txt@;
    txt.push((key, value));
    proof {
        assert(txt@.drop_last() =~= before);
        assert(txt@.last() == (key, value));
        assert forall|a: int, b: int| 0 <= a < b < txt@.len() implies txt@[a].0@ != txt@[b].0@ by {
            if b < txt@.len() - 1 {
                assert(txt@[a].0@ == before[a].0@);
                assert(txt@[b].0@ == before[b].0@);
            } else {
                assert(txt@[a].0@ == before[a].0@);
            }
        }
    }
}

impl FerryService {
    /// The record's attribute list names each key at most once.
    pub open spec fn wf(&self) -> bool {
        txt_wf(self.txt@)
    }

    /// Looks a key up in the attribute table; the latest written value wins,
    /// exactly as the model map says.
    pub fn txt_get<'a>(&'a self, key: &str) -> (r: Option<&'a String>)
        ensures
            match r {
                Some(v) => self@.txt.contains_key(key@) && v@ == self@.txt[key@],
                None => !self@.txt.contains_key(key@),
            },
    {
        let mut i: usize = self.txt.len();
        while i > 0
            invariant
                i <= self.txt@.len(),
                forall|j: int| i <= j < self.txt@.len() ==> self.txt@[j].0@ != key@,
            decreases i,
        {
            i = i - 1;
            if str_eq(self.txt[i].0.as_str(), key) {
                proof {
                    lemma_pairs_map_match(self.txt@, key@, i as int);
                }
                return Some(&self.txt[i].1);
            }
        }
        proof {
            lemma_pairs_map_no_match(self.txt@, key@);
        }
        None
    }

    /// Reorders this record's addresses into ascending preference order,
    /// stably; nothing else changes.
    pub fn sort_addrs_by_preference(&mut self)
        ensures
            final (self)@ == (ServiceModel { addrs: sort_by_score(old(self)@.addrs), ..old(self)@ }),
            final (self).txt@ == old(self).txt@,
    {
        score_ip::sort_addrs_by_preference(&mut self.addrs);
    }

    /// Picks the most preferable address: the first one holding the minimal
    /// score, `None` when the record has no addresses. A pure query: the
    /// record, its address order included, is left exactly as it was.
    pub fn get_best_addr(&mut self) -> (r: Option<SocketAddress>)
        ensures
            *final (self) == *old(self),
            r is None <==> old(self).addrs@.len() == 0,
            match r {
                Some(a) => exists|i: int|
                    {
                        &&& 0 <= i < old(self).addrs@.len()
                        &&& old(self).addrs@[i] == a
                        &&& forall|j: int|
                            0 <= j < old(self).addrs@.len() ==> spec_score(old(self).addrs@[j])
                                >= spec_score(a)
                        &&& forall|j: int|
                            0 <= j < i ==> spec_score(old(self).addrs@[j]) > spec_score(a)
                    },
                None => true,
            },
    {
        score_ip::get_best_addr(&self.addrs)
    }
}

} // verus!
