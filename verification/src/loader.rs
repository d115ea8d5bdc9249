//! Loading the DHCP lease document and assembling the record store.
//!
//! The lease file is one JSON document: an object whose `Leases` field is
//! an array of records, each with a four-octet `Address` array and a
//! `Hostname` string. The JSON text is parsed by serde_json behind
//! trusted declarations. What a parsed value holds is abstracted by one
//! uninterpreted model, `json_model`; each trusted accessor states its
//! result as a function of that model, so the lease list this module
//! returns is pinned to the document bytes — `dhcp_leases_of` names it —
//! and the walk over the document, the shape checks and everything after
//! them are verified against that name. A document that does not have
//! exactly the expected shape yields no leases at all, as a whole-file
//! parse failure would, and the service then serves the other source.

use vstd::prelude::*;
use crate::addr::ipv4_from_octets;
use crate::addr::ipv4_value;
use crate::sources::Lease;
use crate::sources::build_from_sources;
use crate::sources::dhcp_contribs;
use crate::sources::hosts_contribs;
use crate::sources::lease_views;
use crate::sources::split_lines;
use crate::store::RecordStore;
use crate::store::binding_views;
use crate::store::build_exact;
use crate::store::entry_views;
use crate::store::store_wf;

verus! {

#[verifier::external_type_specification]
#[verifier::external_body]
pub struct ExJsonValue(serde_json::Value);

/// The abstract content of one parsed JSON value. A `serde_json::Value`
/// is opaque to the verifier; this name stands for what it holds (think
/// of its canonical text), and the trusted accessors below state their
/// results as functions of it alone.
pub uninterp spec fn json_model(v: serde_json::Value) -> Seq<u8>;

/// What parsing a byte string as one JSON document yields: the model of
/// the parsed value, or nothing when the bytes are not one valid
/// document.
pub uninterp spec fn json_doc_of(bytes: Seq<u8>) -> Option<Seq<u8>>;

/// The model of the named field's value, or nothing when the value is no
/// object or has no such field.
pub uninterp spec fn json_field_of(m: Seq<u8>, key: Seq<char>) -> Option<Seq<u8>>;

/// The models of an array value's elements, or nothing when the value is
/// no array.
pub uninterp spec fn json_elems_of(m: Seq<u8>) -> Option<Seq<Seq<u8>>>;

/// The value as an unsigned 64-bit integer, or nothing when it is no
/// such number.
pub uninterp spec fn json_u64_of(m: Seq<u8>) -> Option<u64>;

/// The bytes of the value as a string, or nothing when it is no string.
pub uninterp spec fn json_str_of(m: Seq<u8>) -> Option<Seq<u8>>;

/// The models of a sequence of parsed values, elementwise.
pub open spec fn json_models(s: Seq<serde_json::Value>) -> Seq<Seq<u8>> {
    Seq::new(s.len(), |i: int| json_model(s[i]))
}

/// Relies on serde_json::from_slice::<Value>: parses a whole byte slice
/// as one JSON document, or fails; the result is a function of the bytes
/// alone, named `json_doc_of`.
#[verifier::external_body]
fn json_from_slice(bytes: &Vec<u8>) -> (r: Option<serde_json::Value>)
    ensures
        match r {
            Some(v) => json_doc_of(bytes@) == Some(json_model(v)),
            None => json_doc_of(bytes@) is None,
        },
{
    serde_json::from_slice(bytes.as_slice()).ok()
}

/// Relies on serde_json::Value::get: the value of an object's field, or
/// nothing when the value is no object or has no such field; a function
/// of the value and the key, named `json_field_of`.
#[verifier::external_body]
fn json_get<'a>(v: &'a serde_json::Value, key: &str) -> (r: Option<&'a serde_json::Value>)
    ensures
        match r {
            Some(f) => json_field_of(json_model(*v), key@) == Some(json_model(*f)),
            None => json_field_of(json_model(*v), key@) is None,
        },
{
    v.get(key)
}

/// Relies on serde_json::Value::as_array: the elements when the value is
/// an array, nothing otherwise; their models are a function of the
/// value, named `json_elems_of`.
#[verifier::external_body]
fn json_as_array(v: &serde_json::Value) -> (r: Option<&Vec<serde_json::Value>>)
    ensures
        match r {
            Some(a) => json_elems_of(json_model(*v)) == Some(json_models(a@)),
            None => json_elems_of(json_model(*v)) is None,
        },
{
    v.as_array()
}

/// Relies on serde_json::Value::as_u64: the number when the value is an
/// integer that fits u64, nothing otherwise; a function of the value,
/// named `json_u64_of`.
#[verifier::external_body]
fn json_as_u64(v: &serde_json::Value) -> (r: Option<u64>)
    ensures
        r == json_u64_of(json_model(*v)),
{
    v.as_u64()
}

/// Relies on serde_json::Value::as_str: the bytes of the string when the
/// value is one, nothing otherwise; a function of the value, named
/// `json_str_of`.
#[verifier::external_body]
fn json_str_bytes(v: &serde_json::Value) -> (r: Option<Vec<u8>>)
    ensures
        match r {
            Some(b) => json_str_of(json_model(*v)) == Some(b@),
            None => json_str_of(json_model(*v)) is None,
        },
{
    v.as_str().map(|s| s.as_bytes().to_vec())
}

/// The lease one record of the `Leases` array denotes: its hostname and
/// address, or nothing when the record does not have exactly the
/// expected shape — an `Address` array of four integers up to 255 and a
/// `Hostname` string.
pub open spec fn spec_lease_of(m: Seq<u8>) -> Option<(Seq<u8>, u32)> {
    match json_field_of(m, "Address"@) {
        Some(am) => match json_elems_of(am) {
            Some(oct) => if oct.len() == 4 {
                match (json_u64_of(oct[0]), json_u64_of(oct[1]), json_u64_of(oct[2]), json_u64_of(
                    oct[3],
                )) {
                    (Some(a), Some(b), Some(c), Some(d)) => if a <= 255 && b <= 255 && c <= 255 && d
                        <= 255 {
                        match json_field_of(m, "Hostname"@) {
                            Some(hm) => match json_str_of(hm) {
                                Some(h) => Some(
                                    (h, ipv4_value(a as u8, b as u8, c as u8, d as u8)),
                                ),
                                None => None,
                            },
                            None => None,
                        }
                    } else {
                        None
                    },
                    _ => None,
                }
            } else {
                None
            },
            None => None,
        },
        None => None,
    }
}

/// The leases a record list denotes, in order; one malformed record
/// spoils the whole list, as a parse failure of the document would.
pub open spec fn spec_leases_of(ms: Seq<Seq<u8>>) -> Option<Seq<(Seq<u8>, u32)>>
    decreases ms.len(),
{
    if ms.len() == 0 {
        Some(seq![])
    } else {
        match spec_lease_of(ms[0]) {
            Some(l) => match spec_leases_of(ms.drop_first()) {
                Some(rest) => Some(seq![l] + rest),
                None => None,
            },
            None => None,
        }
    }
}

/// The lease list a document's bytes denote: the `Leases` array of the
/// parsed object, record by record, or nothing when the bytes or any
/// record are not of the expected shape.
pub open spec fn dhcp_leases_of(bytes: Seq<u8>) -> Option<Seq<(Seq<u8>, u32)>> {
    match json_doc_of(bytes) {
        Some(doc) => match json_field_of(doc, "Leases"@) {
            Some(lm) => match json_elems_of(lm) {
                Some(ms) => spec_leases_of(ms),
                None => None,
            },
            None => None,
        },
        None => None,
    }
}

/// Read the lease records out of the lease document's bytes: exactly the
/// list the bytes denote, or nothing when they denote none.
pub fn parse_dhcp_leases(content: &Vec<u8>) -> (r: Option<Vec<Lease>>)
    ensures
        match r {
            Some(ls) => dhcp_leases_of(content@) == Some(lease_views(ls@)),
            None => dhcp_leases_of(content@) is None,
        },
{
    let doc = match json_from_slice(content) {
        Some(v) => v,
        None => {
            return None;
        },
    };
    let leases_val = match json_get(&doc, "Leases") {
        Some(v) => v,
        None => {
            return None;
        },
    };
    let arr = match json_as_array(leases_val) {
        Some(a) => a,
        None => {
            return None;
        },
    };
    let ghost ms = json_models(arr@);
    proof {
        assert(dhcp_leases_of(content@) == spec_leases_of(ms));
        assert(ms.subrange(0, ms.len() as int) =~= ms);
    }
    let mut out: Vec<Lease> = Vec::new();
    let mut i: usize = 0;
    proof {
        assert(lease_views(out@) =~= Seq::<(Seq<u8>, u32)>::empty());
        if let Some(rest) = spec_leases_of(ms) {
            assert(lease_views(out@) + rest =~= rest);
        }
    }
    while i < arr.len()
        invariant
            i <= arr.len(),
            ms == json_models(arr@),
            ms.len() == arr@.len(),
            dhcp_leases_of(content@) == spec_leases_of(ms),
            spec_leases_of(ms) == (match spec_leases_of(ms.subrange(i as int, ms.len() as int)) {
                Some(rest) => Some(lease_views(out@) + rest),
                None => None::<Seq<(Seq<u8>, u32)>>,
            }),
        decreases arr.len() - i,
    {
        let ghost rem = ms.subrange(i as int, ms.len() as int);
        proof {
            assert(rem[0] == json_model(arr@[i as int]));
            assert(rem.drop_first() =~= ms.subrange(i + 1 as int, ms.len() as int));
        }
        let item = &arr[i];
        let addr_val = match json_get(item, "Address") {
            Some(v) => v,
            None => {
                return None;
            },
        };
        let addr_arr = match json_as_array(addr_val) {
            Some(a) => a,
            None => {
                return None;
            },
        };
        if addr_arr.len() != 4 {
            return None;
        }
        let ghost oct = json_models(addr_arr@);
        let o0 = match json_as_u64(&addr_arr[0]) {
            Some(n) => n,
            None => {
                return None;
            },
        };
        let o1 = match json_as_u64(&addr_arr[1]) {
            Some(n) => n,
            None => {
                return None;
            },
        };
        let o2 = match json_as_u64(&addr_arr[2]) {
            Some(n) => n,
            None => {
                return None;
            },
        };
        let o3 = match json_as_u64(&addr_arr[3]) {
            Some(n) => n,
            None => {
                return None;
            },
        };
        if o0 > 255 || o1 > 255 || o2 > 255 || o3 > 255 {
            return None;
        }
        let host_val = match json_get(item, "Hostname") {
            Some(v) => v,
            None => {
                return None;
            },
        };
        let hostname = match json_str_bytes(host_val) {
            Some(h) => h,
            None => {
                return None;
            },
        };
        let ghost l = (hostname@, ipv4_value(o0 as u8, o1 as u8, o2 as u8, o3 as u8));
        proof {
            assert(spec_lease_of(rem[0]) == Some(l));
        }
        let ip = ipv4_from_octets(o0 as u8, o1 as u8, o2 as u8, o3 as u8);
        let ghost oldout = out@;
        out.push(Lease { addr: ip, hostname });
        proof {
            assert(lease_views(out@) =~= lease_views(oldout).push(l));
            if let Some(rest2) = spec_leases_of(rem.drop_first()) {
                assert(lease_views(oldout).push(l) + rest2 =~= lease_views(oldout) + (seq![l]
                    + rest2));
            }
        }
        i = i + 1;
    }
    proof {
        assert(ms.subrange(ms.len() as int, ms.len() as int) =~= Seq::<Seq<u8>>::empty());
        assert(lease_views(out@) + Seq::<(Seq<u8>, u32)>::empty() =~= lease_views(out@));
    }
    Some(out)
}

/// The store `st` is what the lease list `lv` and this hosts text build
/// under this suffix.
pub open spec fn built_from(
    st_exact: Seq<(Seq<u8>, Seq<u32>)>,
    st_wild: Seq<(Seq<u8>, u32)>,
    lv: Seq<(Seq<u8>, u32)>,
    hosts: Seq<u8>,
    suffix: Seq<u8>,
) -> bool {
    let d = dhcp_contribs(lv, suffix);
    let h = hosts_contribs(split_lines(hosts));
    st_exact == build_exact(d.0 + h.0) && st_wild == d.1 + h.1
}

/// Build the active record store from the raw contents of both source
/// files: exactly what the lease list the document's bytes denote and
/// the hosts text together build — a document that denotes no lease list
/// contributes nothing, and the hosts source is served either way. The
/// result is always well-formed.
pub fn load_records(dhcp_json: &Vec<u8>, hosts_text: &Vec<u8>, suffix: &Vec<u8>) -> (st:
    RecordStore)
    ensures
        store_wf(st),
        built_from(
            entry_views(st.exact@),
            binding_views(st.wildcards@),
            match dhcp_leases_of(dhcp_json@) {
                Some(lv) => lv,
                None => seq![],
            },
            hosts_text@,
            suffix@,
        ),
{
    let leases = match parse_dhcp_leases(dhcp_json) {
        Some(l) => l,
        None => Vec::new(),
    };
    let st = build_from_sources(&leases, hosts_text, suffix);
    proof {
        if dhcp_leases_of(dhcp_json@) is None {
            assert(lease_views(leases@) =~= Seq::<(Seq<u8>, u32)>::empty());
        }
    }
    st
}

} // verus!
