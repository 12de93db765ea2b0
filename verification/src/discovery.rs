//! Recognising the server among the responders of a local service search.

use vstd::prelude::*;
use crate::playback::{contains_text, text_contains};

verus! {

/// A responder is the server when the name of its service record contains
/// `mmwaveserver` and it answers over IPv4; IPv6 addresses do not make
/// usable request URLs.
pub fn is_server_responder(record_name: &str, is_ipv4: bool) -> (r: bool)
    ensures
        r == (contains_text(record_name@, "mmwaveserver"@) && is_ipv4),
{
    text_contains(record_name, "mmwaveserver") && is_ipv4
}

/// The name and port of the first service record among a responder's
/// records (`None` stands for a record of another kind).
pub open spec fn spec_first_service(records: Seq<Option<(String, u16)>>) -> Option<(Seq<char>, u16)>
    decreases records.len(),
{
    if records.len() == 0 {
        None
    } else {
        match records[0] {
            Some((name, port)) => Some((name@, port)),
            None => spec_first_service(records.drop_first()),
        }
    }
}

/// The name and port that a responder announces: those of its first service
/// record, or `Unknown` and port 0 where it has none.
pub fn announced_service(records: &Vec<Option<(String, u16)>>) -> (r: (String, u16))
    ensures
        match spec_first_service(records@) {
            Some((name, port)) => r.0@ == name && r.1 == port,
            None => r.0@ == "Unknown"@ && r.1 == 0,
        },
{
    let ghost n = records@.len() as int;
    let mut i: usize = 0;
    assert(records@.subrange(0, n) =~= records@);
    while i < records.len()
        invariant
            0 <= i <= n,
            n == records@.len(),
            spec_first_service(records@) == spec_first_service(records@.subrange(i as int, n)),
        decreases n - i,
    {
        let ghost rest = records@.subrange(i as int, n);
        assert(rest[0] == records@[i as int]);
        assert(rest.drop_first() =~= records@.subrange(i + 1, n));
        if let Some((name, port)) = &records[i] {
            return (name.clone(), *port);
        }
        i += 1;
    }
    assert(records@.subrange(n, n).len() == 0);
    (String::from_str("Unknown"), 0)
}

} // verus!
