//! Source readers: the contributions each data source makes.
//!
//! The DHCP lease table contributes, per lease with a nonempty hostname,
//! one exact record and one wildcard pattern derived from it. The
//! hosts-style text contributes, per address line, one record per
//! hostname, a `*.`-literal hostname becoming a wildcard entry. A
//! malformed line is skipped, never fatal.

use vstd::prelude::*;
use crate::addr::spec_parse_ipv4;
use crate::addr::parse_ipv4;
use crate::name::DOT;
use crate::name::HASH;
use crate::name::STAR;
use crate::name::dot_terminated;
use crate::name::lower_bytes;
use crate::name::fqdn_of;
use crate::name::wildcard_pattern_of;
use crate::name::is_wildcard;
use crate::name::normalize_name;
use crate::name::make_fqdn;
use crate::name::make_wildcard_pattern;
use crate::store::Binding;
use crate::store::binding_views;
use crate::store::RecordStore;
use crate::store::build;
use crate::store::build_exact;
use crate::store::entry_views;
use crate::store::store_wf;

verus! {

/// One DHCP lease, as the lease file carries it: an address and a
/// hostname.
pub struct Lease {
    pub addr: u32,
    pub hostname: Vec<u8>,
}

/// The mathematical view of a lease list.
pub open spec fn lease_views(s: Seq<Lease>) -> Seq<(Seq<u8>, u32)> {
    Seq::new(s.len(), |i: int| (s[i].hostname@, s[i].addr))
}

/// The mathematical view of a token list.
pub open spec fn token_views(s: Seq<Vec<u8>>) -> Seq<Seq<u8>> {
    Seq::new(s.len(), |i: int| s[i]@)
}

/// A whitespace byte, as a hosts line is split on.
pub open spec fn is_ws(b: u8) -> bool {
    b == 32 || b == 9 || b == 10 || b == 11 || b == 12 || b == 13
}

/// Whitespace splitting, one byte at a time: `cur` is the token being
/// read.
pub open spec fn split_ws_acc(s: Seq<u8>, cur: Seq<u8>) -> Seq<Seq<u8>>
    decreases s.len(),
{
    if s.len() == 0 {
        if cur.len() == 0 {
            seq![]
        } else {
            seq![cur]
        }
    } else if is_ws(s[0]) {
        if cur.len() == 0 {
            split_ws_acc(s.drop_first(), seq![])
        } else {
            seq![cur] + split_ws_acc(s.drop_first(), seq![])
        }
    } else {
        split_ws_acc(s.drop_first(), cur.push(s[0]))
    }
}

/// The whitespace-separated tokens of one line.
pub open spec fn split_ws(s: Seq<u8>) -> Seq<Seq<u8>> {
    split_ws_acc(s, seq![])
}

/// Newline splitting, one byte at a time: `cur` is the line being read.
pub open spec fn split_lines_acc(s: Seq<u8>, cur: Seq<u8>) -> Seq<Seq<u8>>
    decreases s.len(),
{
    if s.len() == 0 {
        seq![cur]
    } else if s[0] == 10 {
        seq![cur] + split_lines_acc(s.drop_first(), seq![])
    } else {
        split_lines_acc(s.drop_first(), cur.push(s[0]))
    }
}

/// The lines of a text, split on newline bytes.
pub open spec fn split_lines(s: Seq<u8>) -> Seq<Seq<u8>> {
    split_lines_acc(s, seq![])
}

/// The contributions of one line's hostnames, given its address: each
/// hostname normalized, a `*.` literal going to the wildcards, the rest
/// to the exact records; a `#` token ends the line.
pub open spec fn host_token_contribs(ip: u32, toks: Seq<Seq<u8>>) -> (
    Seq<(Seq<u8>, u32)>,
    Seq<(Seq<u8>, u32)>,
)
    decreases toks.len(),
{
    if toks.len() == 0 {
        (seq![], seq![])
    } else if toks[0].len() > 0 && toks[0][0] == HASH {
        (seq![], seq![])
    } else {
        let d = dot_terminated(lower_bytes(toks[0]));
        let rest = host_token_contribs(ip, toks.drop_first());
        if is_wildcard(d) {
            (rest.0, seq![(d, ip)] + rest.1)
        } else {
            (seq![(d, ip)] + rest.0, rest.1)
        }
    }
}

/// The contributions of one hosts line: nothing unless it has an address
/// field that parses and at least one hostname.
pub open spec fn line_contribs(line: Seq<u8>) -> (Seq<(Seq<u8>, u32)>, Seq<(Seq<u8>, u32)>) {
    let toks = split_ws(line);
    if toks.len() < 2 {
        (seq![], seq![])
    } else {
        match spec_parse_ipv4(toks[0]) {
            Some(ip) => host_token_contribs(ip, toks.drop_first()),
            None => (seq![], seq![]),
        }
    }
}

/// The contributions of a whole hosts text, line by line in order.
pub open spec fn hosts_contribs(lines: Seq<Seq<u8>>) -> (Seq<(Seq<u8>, u32)>, Seq<(Seq<u8>, u32)>)
    decreases lines.len(),
{
    if lines.len() == 0 {
        (seq![], seq![])
    } else {
        let first = line_contribs(lines[0]);
        let rest = hosts_contribs(lines.drop_first());
        (first.0 + rest.0, first.1 + rest.1)
    }
}

/// The contributions of the lease table: a lease with an empty hostname
/// is skipped; any other contributes its fqdn as an exact record and the
/// derived `*.` pattern as a wildcard entry.
pub open spec fn dhcp_contribs(leases: Seq<(Seq<u8>, u32)>, suffix: Seq<u8>) -> (
    Seq<(Seq<u8>, u32)>,
    Seq<(Seq<u8>, u32)>,
)
    decreases leases.len(),
{
    if leases.len() == 0 {
        (seq![], seq![])
    } else {
        let rest = dhcp_contribs(leases.drop_first(), suffix);
        if leases[0].0.len() == 0 {
            rest
        } else {
            let fq = fqdn_of(leases[0].0, suffix);
            (
                seq![(fq, leases[0].1)] + rest.0,
                seq![(wildcard_pattern_of(fq), leases[0].1)] + rest.1,
            )
        }
    }
}

/// Split one line into its whitespace-separated tokens.
pub fn split_ws_tokens(line: &Vec<u8>) -> (toks: Vec<Vec<u8>>)
    ensures
        token_views(toks@) == split_ws(line@),
{
    let mut toks: Vec<Vec<u8>> = Vec::new();
    let mut cur: Vec<u8> = Vec::new();
    let mut i: usize = 0;
    proof {
        assert(line@.subrange(0, line@.len() as int) =~= line@);
    }
    while i < line.len()
        invariant
            i <= line.len(),
            token_views(toks@) + split_ws_acc(line@.subrange(i as int, line@.len() as int), cur@)
                == split_ws(line@),
        decreases line.len() - i,
    {
        let b = line[i];
        proof {
            let rem = line@.subrange(i as int, line@.len() as int);
            assert(rem.drop_first() =~= line@.subrange(i + 1 as int, line@.len() as int));
            assert(rem[0] == b);
        }
        if b == 32 || b == 9 || b == 10 || b == 11 || b == 12 || b == 13 {
            if cur.len() > 0 {
                let ghost oldtoks = toks@;
                let ghost curv = cur@;
                let ghost rest = split_ws_acc(
                    line@.subrange(i + 1 as int, line@.len() as int),
                    seq![],
                );
                toks.push(cur);
                cur = Vec::new();
                proof {
                    assert(token_views(toks@) =~= token_views(oldtoks).push(curv));
                    assert(token_views(oldtoks).push(curv) + rest =~= token_views(oldtoks) + (
                    seq![curv] + rest));
                    assert(cur@ =~= Seq::<u8>::empty());
                }
            } else {
                proof {
                    assert(cur@ =~= Seq::<u8>::empty());
                }
            }
        } else {
            cur.push(b);
        }
        i = i + 1;
    }
    proof {
        assert(line@.subrange(line@.len() as int, line@.len() as int) =~= Seq::<u8>::empty());
    }
    if cur.len() > 0 {
        let ghost oldtoks = toks@;
        let ghost curv = cur@;
        toks.push(cur);
        proof {
            assert(token_views(toks@) =~= token_views(oldtoks).push(curv));
            assert(token_views(oldtoks).push(curv) =~= token_views(oldtoks) + seq![curv]);
        }
    } else {
        proof {
            assert(token_views(toks@) + Seq::<Seq<u8>>::empty() =~= token_views(toks@));
            assert(cur@ =~= Seq::<u8>::empty());
        }
    }
    toks
}

/// Split a text into its lines, on newline bytes.
pub fn split_lines_vec(content: &Vec<u8>) -> (lines: Vec<Vec<u8>>)
    ensures
        token_views(lines@) == split_lines(content@),
{
    let mut lines: Vec<Vec<u8>> = Vec::new();
    let mut cur: Vec<u8> = Vec::new();
    let mut i: usize = 0;
    proof {
        assert(content@.subrange(0, content@.len() as int) =~= content@);
    }
    while i < content.len()
        invariant
            i <= content.len(),
            token_views(lines@) + split_lines_acc(
                content@.subrange(i as int, content@.len() as int),
                cur@,
            ) == split_lines(content@),
        decreases content.len() - i,
    {
        let b = content[i];
        proof {
            let rem = content@.subrange(i as int, content@.len() as int);
            assert(rem.drop_first() =~= content@.subrange(i + 1 as int, content@.len() as int));
            assert(rem[0] == b);
        }
        if b == 10 {
            let ghost oldlines = lines@;
            let ghost curv = cur@;
            let ghost rest = split_lines_acc(
                content@.subrange(i + 1 as int, content@.len() as int),
                seq![],
            );
            lines.push(cur);
            cur = Vec::new();
            proof {
                assert(token_views(lines@) =~= token_views(oldlines).push(curv));
                assert(token_views(oldlines).push(curv) + rest =~= token_views(oldlines) + (
                seq![curv] + rest));
                assert(cur@ =~= Seq::<u8>::empty());
            }
        } else {
            cur.push(b);
        }
        i = i + 1;
    }
    proof {
        assert(content@.subrange(content@.len() as int, content@.len() as int)
            =~= Seq::<u8>::empty());
    }
    let ghost oldlines = lines@;
    let ghost curv = cur@;
    lines.push(cur);
    proof {
        assert(token_views(lines@) =~= token_views(oldlines).push(curv));
        assert(token_views(oldlines).push(curv) =~= token_views(oldlines) + seq![curv]);
    }
    lines
}

/// The contributions of one line's hostname tokens from index `k` on,
/// stopping at a `#` token.
fn host_tokens_exec(ip: u32, toks: &Vec<Vec<u8>>, k: usize) -> (r: (Vec<Binding>, Vec<Binding>))
    requires
        k <= toks@.len(),
    ensures
        ({
            let want = host_token_contribs(
                ip,
                token_views(toks@).subrange(k as int, toks@.len() as int),
            );
            binding_views(r.0@) == want.0 && binding_views(r.1@) == want.1
        }),
    decreases toks@.len() - k,
{
    let ghost rem = token_views(toks@).subrange(k as int, toks@.len() as int);
    if k == toks.len() {
        proof {
            assert(rem =~= Seq::<Seq<u8>>::empty());
            assert(binding_views(Seq::<Binding>::empty()) =~= Seq::<(Seq<u8>, u32)>::empty());
        }
        return (Vec::new(), Vec::new());
    }
    proof {
        assert(rem[0] == toks@[k as int]@);
        assert(rem.drop_first() =~= token_views(toks@).subrange(k + 1 as int, toks@.len() as int));
    }
    let tok = &toks[k];
    if tok.len() > 0 && tok[0] == HASH {
        proof {
            assert(binding_views(Seq::<Binding>::empty()) =~= Seq::<(Seq<u8>, u32)>::empty());
        }
        return (Vec::new(), Vec::new());
    }
    let d = normalize_name(tok);
    let wild = d.len() >= 2 && d[0] == STAR && d[1] == DOT;
    let rest = host_tokens_exec(ip, toks, k + 1);
    let (mut ex, mut wi) = rest;
    if wild {
        let ghost oldwi = wi@;
        wi.insert(0, Binding { name: d, addr: ip });
        proof {
            assert(binding_views(wi@) =~= seq![(dot_terminated(lower_bytes(rem[0])), ip)]
                + binding_views(oldwi));
        }
    } else {
        let ghost oldex = ex@;
        ex.insert(0, Binding { name: d, addr: ip });
        proof {
            assert(binding_views(ex@) =~= seq![(dot_terminated(lower_bytes(rem[0])), ip)]
                + binding_views(oldex));
        }
    }
    (ex, wi)
}

/// The contributions of one hosts line.
pub fn line_contribs_exec(line: &Vec<u8>) -> (r: (Vec<Binding>, Vec<Binding>))
    ensures
        binding_views(r.0@) == line_contribs(line@).0,
        binding_views(r.1@) == line_contribs(line@).1,
{
    let toks = split_ws_tokens(line);
    if toks.len() < 2 {
        proof {
            assert(binding_views(Seq::<Binding>::empty()) =~= Seq::<(Seq<u8>, u32)>::empty());
        }
        return (Vec::new(), Vec::new());
    }
    match parse_ipv4(&toks[0]) {
        Some(ip) => {
            proof {
                assert(token_views(toks@).subrange(1, toks@.len() as int) =~= token_views(
                    toks@,
                ).drop_first());
            }
            host_tokens_exec(ip, &toks, 1)
        },
        None => {
            proof {
                assert(binding_views(Seq::<Binding>::empty()) =~= Seq::<(Seq<u8>, u32)>::empty());
            }
            (Vec::new(), Vec::new())
        },
    }
}

/// The contributions of a whole hosts text.
pub fn hosts_file_contribs(content: &Vec<u8>) -> (r: (Vec<Binding>, Vec<Binding>))
    ensures
        binding_views(r.0@) == hosts_contribs(split_lines(content@)).0,
        binding_views(r.1@) == hosts_contribs(split_lines(content@)).1,
{
    let lines = split_lines_vec(content);
    let ghost lv = token_views(lines@);
    let mut ex: Vec<Binding> = Vec::new();
    let mut wi: Vec<Binding> = Vec::new();
    let mut i: usize = 0;
    proof {
        assert(lv.subrange(0, lv.len() as int) =~= lv);
        assert(binding_views(ex@) =~= Seq::<(Seq<u8>, u32)>::empty());
        assert(binding_views(wi@) =~= Seq::<(Seq<u8>, u32)>::empty());
    }
    while i < lines.len()
        invariant
            i <= lines.len(),
            lv == token_views(lines@),
            binding_views(ex@) + hosts_contribs(lv.subrange(i as int, lv.len() as int)).0
                == hosts_contribs(lv).0,
            binding_views(wi@) + hosts_contribs(lv.subrange(i as int, lv.len() as int)).1
                == hosts_contribs(lv).1,
        decreases lines.len() - i,
    {
        proof {
            let rem = lv.subrange(i as int, lv.len() as int);
            assert(rem.drop_first() =~= lv.subrange(i + 1 as int, lv.len() as int));
            assert(rem[0] == lines@[i as int]@);
        }
        let mut line_r = line_contribs_exec(&lines[i]);
        let ghost oldex = ex@;
        let ghost oldwi = wi@;
        let ghost addex = line_r.0@;
        let ghost addwi = line_r.1@;
        ex.append(&mut line_r.0);
        wi.append(&mut line_r.1);
        proof {
            assert(binding_views(ex@) =~= binding_views(oldex) + binding_views(addex));
            assert(binding_views(wi@) =~= binding_views(oldwi) + binding_views(addwi));
            let rest0 = hosts_contribs(lv.subrange(i + 1 as int, lv.len() as int)).0;
            let rest1 = hosts_contribs(lv.subrange(i + 1 as int, lv.len() as int)).1;
            assert((binding_views(oldex) + binding_views(addex)) + rest0 =~= binding_views(oldex)
                + (binding_views(addex) + rest0));
            assert((binding_views(oldwi) + binding_views(addwi)) + rest1 =~= binding_views(oldwi)
                + (binding_views(addwi) + rest1));
        }
        i = i + 1;
    }
    proof {
        assert(lv.subrange(lv.len() as int, lv.len() as int) =~= Seq::<Seq<u8>>::empty());
    }
    (ex, wi)
}

/// The contributions of the lease table under the configured suffix.
pub fn dhcp_lease_contribs(leases: &Vec<Lease>, suffix: &Vec<u8>) -> (r: (Vec<Binding>, Vec<Binding>))
    ensures
        binding_views(r.0@) == dhcp_contribs(lease_views(leases@), suffix@).0,
        binding_views(r.1@) == dhcp_contribs(lease_views(leases@), suffix@).1,
{
    let ghost lv = lease_views(leases@);
    let mut ex: Vec<Binding> = Vec::new();
    let mut wi: Vec<Binding> = Vec::new();
    let mut i: usize = 0;
    proof {
        assert(lv.subrange(0, lv.len() as int) =~= lv);
        assert(binding_views(ex@) =~= Seq::<(Seq<u8>, u32)>::empty());
        assert(binding_views(wi@) =~= Seq::<(Seq<u8>, u32)>::empty());
    }
    while i < leases.len()
        invariant
            i <= leases.len(),
            lv == lease_views(leases@),
            binding_views(ex@) + dhcp_contribs(lv.subrange(i as int, lv.len() as int), suffix@).0
                == dhcp_contribs(lv, suffix@).0,
            binding_views(wi@) + dhcp_contribs(lv.subrange(i as int, lv.len() as int), suffix@).1
                == dhcp_contribs(lv, suffix@).1,
        decreases leases.len() - i,
    {
        proof {
            let rem = lv.subrange(i as int, lv.len() as int);
            assert(rem.drop_first() =~= lv.subrange(i + 1 as int, lv.len() as int));
            assert(rem[0] == (leases@[i as int].hostname@, leases@[i as int].addr));
        }
        let lease = &leases[i];
        if lease.hostname.len() > 0 {
            let fq = make_fqdn(&lease.hostname, suffix);
            let pat = make_wildcard_pattern(&fq);
            let ghost oldex = ex@;
            let ghost oldwi = wi@;
            let ghost fqv = fq@;
            ex.push(Binding { name: fq, addr: lease.addr });
            wi.push(Binding { name: pat, addr: lease.addr });
            proof {
                assert(binding_views(ex@) =~= binding_views(oldex).push((fqv, lease.addr)));
                assert(binding_views(wi@) =~= binding_views(oldwi).push(
                    (wildcard_pattern_of(fqv), lease.addr),
                ));
                let rest0 = dhcp_contribs(
                    lv.subrange(i + 1 as int, lv.len() as int),
                    suffix@,
                ).0;
                let rest1 = dhcp_contribs(
                    lv.subrange(i + 1 as int, lv.len() as int),
                    suffix@,
                ).1;
                assert(binding_views(oldex).push((fqv, lease.addr)) + rest0 =~= binding_views(
                    oldex,
                ) + (seq![(fqv, lease.addr)] + rest0));
                assert(binding_views(oldwi).push((wildcard_pattern_of(fqv), lease.addr)) + rest1
                    =~= binding_views(oldwi) + (seq![(wildcard_pattern_of(fqv), lease.addr)]
                    + rest1));
            }
        }
        i = i + 1;
    }
    proof {
        assert(lv.subrange(lv.len() as int, lv.len() as int) =~= Seq::<(Seq<u8>, u32)>::empty());
    }
    (ex, wi)
}

/// Build one record store from both sources: the lease table's
/// contributions first, then the hosts text's, exact records merged and
/// sorted, wildcard entries kept in source order. A missing source is
/// passed as empty and simply contributes nothing.
pub fn build_from_sources(leases: &Vec<Lease>, hosts_content: &Vec<u8>, suffix: &Vec<u8>) -> (st:
    RecordStore)
    ensures
        ({
            let d = dhcp_contribs(lease_views(leases@), suffix@);
            let h = hosts_contribs(split_lines(hosts_content@));
            entry_views(st.exact@) == build_exact(d.0 + h.0) && binding_views(st.wildcards@) == d.1
                + h.1
        }),
        store_wf(st),
{
    let ghost d = dhcp_contribs(lease_views(leases@), suffix@);
    let ghost h = hosts_contribs(split_lines(hosts_content@));
    let dhcp_r = dhcp_lease_contribs(leases, suffix);
    let hosts_r = hosts_file_contribs(hosts_content);
    let (mut ex, mut wi) = dhcp_r;
    let (mut hex, mut hwi) = hosts_r;
    let ghost oldex = ex@;
    let ghost oldwi = wi@;
    let ghost addex = hex@;
    let ghost addwi = hwi@;
    ex.append(&mut hex);
    wi.append(&mut hwi);
    proof {
        assert(binding_views(ex@) =~= binding_views(oldex) + binding_views(addex));
        assert(binding_views(wi@) =~= binding_views(oldwi) + binding_views(addwi));
    }
    build(&ex, &wi)
}

} // verus!
