//! Planning one service advertisement: the fully-qualified instance name
//! under the fixed discovery namespace, the advertised hostname, and the
//! attribute table carrying the serving port. The binary hands this plan to
//! the discovery daemon, which picks the interface addresses itself and
//! performs the registration.

use vstd::prelude::*;
use vstd::string::StringExecFns;

use crate::discovery::{pairs_to_map, txt_wf};
use crate::strings::{spec_decimal, u16_to_string};

verus! {

/// The fixed service-type string under which every peer of this application
/// advertises and browses.
pub open spec fn spec_service_type() -> Seq<char> {
    "_ferry._tcp.local."@
}

/// The discovery namespace as a string.
pub fn service_type() -> (r: &'static str)
    ensures
        r@ == spec_service_type(),
{
    "_ferry._tcp.local."
}

/// Everything one registration needs: the record's fullname, the advertised
/// hostname, the serving port, and the attribute table.
pub struct AnnouncementPlan {
    pub fullname: String,
    pub host: String,
    pub port: u16,
    pub props: Vec<(String, String)>,
}

/// Lays out one advertisement for `instance_name` serving on `port`: the
/// fullname qualifies the instance under the discovery namespace, the host
/// is derived from the instance, and the attribute table carries the serving
/// port, in decimal, under the "port" key.
pub fn plan_announcement(instance_name: &str, port: u16) -> (r: AnnouncementPlan)
    ensures
        r.fullname@ == instance_name@ + "."@ + spec_service_type(),
        r.host@ == instance_name@ + ".ferry.local."@,
        r.port == port,
        txt_wf(r.props@),
        pairs_to_map(r.props@) == Map::<Seq<char>, Seq<char>>::empty().insert(
            "port"@,
            spec_decimal(port as nat),
        ),
{
    let fullname = instance_name.to_owned().concat(".").concat(service_type());
    let host = instance_name.to_owned().concat(".ferry.local.");
    let port_value = u16_to_string(port);
    let mut props: Vec<(String, String)> = Vec::new();
    props.push(("port".to_owned(), port_value));
    proof {
        assert(props@.drop_last() =~= Seq::<(String, String)>::empty());
        assert(pairs_to_map(Seq::<(String, String)>::empty()) =~= Map::<Seq<char>, Seq<char>>::empty());
        assert(props@.last().0@ == "port"@);
        assert(props@.last().1@ == spec_decimal(port as nat));
        assert(pairs_to_map(props@) =~= Map::<Seq<char>, Seq<char>>::empty().insert(
            "port"@,
            spec_decimal(port as nat),
        ));
    }
    AnnouncementPlan { fullname, host, port, props }
}

} // verus!
