//! The per-query resolution algorithm.
//!
//! Given the question section of one decoded message and the active store
//! snapshot, produce a resolution outcome: a response code and the
//! ascending, duplicate-free list of addresses to answer with. Address
//! queries merge the exact record with every matching wildcard entry;
//! other query types only establish whether the name exists.

use vstd::prelude::*;
use crate::name::lower_bytes;
use crate::name::lower_name;
use crate::name::wildcard_covers;
use crate::name::strict_suffix_matches;
use crate::name::STAR;
use crate::name::DOT;
use crate::store::RecordStore;
use crate::store::entry_views;
use crate::store::binding_views;
use crate::store::find_exact;
use crate::store::lookup_exact;
use crate::store::insert_addr;
use crate::store::insert_addr_vec;
use crate::store::sorted_unique;
use crate::store::lemma_insert_addr_props;

verus! {

/// The record type number of an IPv4 address query.
pub const QTYPE_A: u16 = 1;

/// The response codes this responder emits.
#[derive(Clone, Copy, PartialEq, Eq, Structural, Debug)]
pub enum Rcode {
    NoError,
    NxDomain,
    FormErr,
}

/// One question of a decoded message: the queried name (bytes of its
/// presentation form, dot-terminated by protocol convention) and the
/// record type number.
pub struct Question {
    pub qname: Vec<u8>,
    pub qtype: u16,
}

/// What one resolution produces: the response code and the answer
/// addresses, in ascending order without duplicates.
pub struct Outcome {
    pub code: Rcode,
    pub answers: Vec<u32>,
}

/// The mathematical view of a question list.
pub open spec fn question_views(s: Seq<Question>) -> Seq<(Seq<u8>, u16)> {
    Seq::new(s.len(), |i: int| (s[i].qname@, s[i].qtype))
}

/// The addresses of the wildcard entries matching `nm`, in entry order.
pub open spec fn wildcard_ips(ws: Seq<(Seq<u8>, u32)>, nm: Seq<u8>) -> Seq<u32>
    decreases ws.len(),
{
    if ws.len() == 0 {
        seq![]
    } else {
        let rest = wildcard_ips(ws.drop_first(), nm);
        if wildcard_covers(ws[0].0, nm) {
            seq![ws[0].1] + rest
        } else {
            rest
        }
    }
}

/// Some wildcard entry matches `nm`.
pub open spec fn any_wildcard_covers(ws: Seq<(Seq<u8>, u32)>, nm: Seq<u8>) -> bool {
    exists|i: int| 0 <= i < ws.len() && wildcard_covers((#[trigger] ws[i]).0, nm)
}

/// Fold every address of `xs` into the ascending duplicate-free list
/// `acc`.
pub open spec fn merge_sorted(acc: Seq<u32>, xs: Seq<u32>) -> Seq<u32>
    decreases xs.len(),
{
    if xs.len() == 0 {
        acc
    } else {
        merge_sorted(insert_addr(acc, xs[0]), xs.drop_first())
    }
}

/// The answer list for an address query on `nm`: the exact record's
/// addresses and every matching wildcard's address, deduplicated and in
/// ascending order.
pub open spec fn spec_answers(
    es: Seq<(Seq<u8>, Seq<u32>)>,
    ws: Seq<(Seq<u8>, u32)>,
    nm: Seq<u8>,
) -> Seq<u32> {
    let ex = match find_exact(es, nm) {
        Some(a) => a,
        None => seq![],
    };
    merge_sorted(merge_sorted(seq![], ex), wildcard_ips(ws, nm))
}

/// The name exists: an exact record carries it, or some wildcard entry
/// matches it.
pub open spec fn name_exists(
    es: Seq<(Seq<u8>, Seq<u32>)>,
    ws: Seq<(Seq<u8>, u32)>,
    nm: Seq<u8>,
) -> bool {
    find_exact(es, nm) is Some || any_wildcard_covers(ws, nm)
}

/// The whole resolution, over the views: a message with no question is a
/// format error and is never looked up; an address query answers with the
/// merged list when it is nonempty; any other type answers existence
/// only, always without data.
pub open spec fn spec_resolve(
    qs: Seq<(Seq<u8>, u16)>,
    es: Seq<(Seq<u8>, Seq<u32>)>,
    ws: Seq<(Seq<u8>, u32)>,
) -> (Rcode, Seq<u32>) {
    if qs.len() == 0 {
        (Rcode::FormErr, seq![])
    } else {
        let nm = lower_bytes(qs[0].0);
        if qs[0].1 == QTYPE_A {
            let ans = spec_answers(es, ws, nm);
            if ans.len() > 0 {
                (Rcode::NoError, ans)
            } else {
                (Rcode::NxDomain, seq![])
            }
        } else {
            if name_exists(es, ws, nm) {
                (Rcode::NoError, seq![])
            } else {
                (Rcode::NxDomain, seq![])
            }
        }
    }
}

/// Folding keeps the list ascending and duplicate-free, and its elements
/// are exactly the old ones and the folded ones.
pub proof fn lemma_merge_sorted_props(acc: Seq<u32>, xs: Seq<u32>)
    requires
        sorted_unique(acc),
    ensures
        sorted_unique(merge_sorted(acc, xs)),
        forall|x: u32| #[trigger] merge_sorted(acc, xs).contains(x) <==> (acc.contains(x)
            || xs.contains(x)),
    decreases xs.len(),
{
    if xs.len() == 0 {
        assert forall|x: u32| #[trigger] merge_sorted(acc, xs).contains(x) implies (acc.contains(x)
            || xs.contains(x)) by {}
    } else {
        lemma_insert_addr_props(acc, xs[0]);
        lemma_merge_sorted_props(insert_addr(acc, xs[0]), xs.drop_first());
        let d = xs.drop_first();
        assert forall|x: u32| xs.contains(x) implies (x == xs[0] || d.contains(x)) by {
            let k = choose|k: int| 0 <= k < xs.len() && xs[k] == x;
            if k > 0 {
                assert(d[k - 1] == x);
            }
        }
        assert forall|x: u32| (x == xs[0] || d.contains(x)) implies xs.contains(x) by {
            if x == xs[0] {
                assert(xs[0] == x);
            } else {
                let k = choose|k: int| 0 <= k < d.len() && d[k] == x;
                assert(xs[k + 1] == x);
            }
        }
    }
}

/// An address is among the matching wildcards' addresses exactly when
/// some matching wildcard entry carries it.
pub proof fn lemma_wildcard_ips_semantics(ws: Seq<(Seq<u8>, u32)>, nm: Seq<u8>)
    ensures
        forall|x: u32| #[trigger] wildcard_ips(ws, nm).contains(x) <==> exists|i: int|
            0 <= i < ws.len() && wildcard_covers((#[trigger] ws[i]).0, nm) && ws[i].1 == x,
    decreases ws.len(),
{
    if ws.len() > 0 {
        let d = ws.drop_first();
        lemma_wildcard_ips_semantics(d, nm);
        let r = wildcard_ips(ws, nm);
        let rest = wildcard_ips(d, nm);
        assert forall|x: u32| #[trigger] r.contains(x) implies exists|i: int|
            0 <= i < ws.len() && wildcard_covers((#[trigger] ws[i]).0, nm) && ws[i].1 == x by {
            if wildcard_covers(ws[0].0, nm) {
                let k = choose|k: int| 0 <= k < r.len() && r[k] == x;
                if k == 0 {
                    assert(wildcard_covers(ws[0].0, nm) && ws[0].1 == x);
                } else {
                    assert(rest[k - 1] == x);
                    assert(rest.contains(x));
                    let i = choose|i: int|
                        0 <= i < d.len() && wildcard_covers(d[i].0, nm) && d[i].1 == x;
                    assert(ws[i + 1] == d[i]);
                    assert(wildcard_covers(ws[i + 1].0, nm) && ws[i + 1].1 == x);
                }
            } else {
                let i = choose|i: int|
                    0 <= i < d.len() && wildcard_covers(d[i].0, nm) && d[i].1 == x;
                assert(ws[i + 1] == d[i]);
                assert(wildcard_covers(ws[i + 1].0, nm) && ws[i + 1].1 == x);
            }
        }
        assert forall|x: u32|
            exists|i: int| 0 <= i < ws.len() && wildcard_covers((#[trigger] ws[i]).0, nm)
                && ws[i].1 == x implies #[trigger] r.contains(x) by {
            let i = choose|i: int|
                0 <= i < ws.len() && wildcard_covers(ws[i].0, nm) && ws[i].1 == x;
            if i == 0 {
                assert(r[0] == x);
            } else {
                assert(d[i - 1] == ws[i]);
                assert(wildcard_covers(d[i - 1].0, nm) && d[i - 1].1 == x);
                assert(rest.contains(x));
                let k = choose|k: int| 0 <= k < rest.len() && rest[k] == x;
                if wildcard_covers(ws[0].0, nm) {
                    assert(r[k + 1] == x);
                } else {
                    assert(r[k] == x);
                }
            }
        }
    }
}

/// The answer list of an address query is ascending and duplicate-free,
/// and contains an address exactly when the exact record or a matching
/// wildcard entry contributes it — so an address contributed by both
/// sides appears exactly once.
pub proof fn lemma_answers_semantics(es: Seq<(Seq<u8>, Seq<u32>)>, ws: Seq<(Seq<u8>, u32)>, nm: Seq<u8>)
    ensures
        sorted_unique(spec_answers(es, ws, nm)),
        forall|x: u32| #[trigger] spec_answers(es, ws, nm).contains(x) <==> ((match find_exact(
            es,
            nm,
        ) {
            Some(a) => a.contains(x),
            None => false,
        }) || wildcard_ips(ws, nm).contains(x)),
{
    let ex = match find_exact(es, nm) {
        Some(a) => a,
        None => seq![],
    };
    assert(sorted_unique(Seq::<u32>::empty()));
    lemma_merge_sorted_props(seq![], ex);
    lemma_merge_sorted_props(merge_sorted(seq![], ex), wildcard_ips(ws, nm));
    assert(forall|x: u32| !Seq::<u32>::empty().contains(x));
}

/// A copy of `v` from index `from` on.
fn tail_from(v: &Vec<u8>, from: usize) -> (r: Vec<u8>)
    requires
        from <= v@.len(),
    ensures
        r@ == v@.subrange(from as int, v@.len() as int),
{
    let mut r: Vec<u8> = Vec::new();
    let mut i = from;
    while i < v.len()
        invariant
            from <= i <= v.len(),
            r@ == v@.subrange(from as int, i as int),
        decreases v.len() - i,
    {
        r.push(v[i]);
        proof {
            assert(r@ =~= v@.subrange(from as int, i + 1 as int));
        }
        i = i + 1;
    }
    r
}

/// Resolve the question section of one message against a store snapshot.
pub fn resolve(questions: &Vec<Question>, st: &RecordStore) -> (out: Outcome)
    ensures
        ({
            let r = spec_resolve(
                question_views(questions@),
                entry_views(st.exact@),
                binding_views(st.wildcards@),
            );
            out.code == r.0 && out.answers@ == r.1
        }),
        sorted_unique(out.answers@),
{
    let ghost es = entry_views(st.exact@);
    let ghost ws = binding_views(st.wildcards@);
    if questions.len() == 0 {
        return Outcome { code: Rcode::FormErr, answers: Vec::new() };
    }
    let q = &questions[0];
    let nm = lower_name(&q.qname);
    if q.qtype == QTYPE_A {
        let mut found: Vec<u32> = Vec::new();
        match lookup_exact(st, &nm) {
            Some(addrs) => {
                let mut i: usize = 0;
                proof {
                    assert(addrs@.subrange(0, addrs@.len() as int) =~= addrs@);
                }
                while i < addrs.len()
                    invariant
                        i <= addrs.len(),
                        merge_sorted(found@, addrs@.subrange(i as int, addrs@.len() as int))
                            == merge_sorted(seq![], addrs@),
                    decreases addrs.len() - i,
                {
                    proof {
                        let rem = addrs@.subrange(i as int, addrs@.len() as int);
                        assert(rem.drop_first() =~= addrs@.subrange(
                            i + 1 as int,
                            addrs@.len() as int,
                        ));
                        assert(rem[0] == addrs@[i as int]);
                    }
                    let merged = insert_addr_vec(&found, addrs[i]);
                    found = merged;
                    i = i + 1;
                }
                proof {
                    assert(addrs@.subrange(addrs@.len() as int, addrs@.len() as int)
                        =~= Seq::<u32>::empty());
                }
            },
            None => {
                proof {
                    assert(merge_sorted(seq![], Seq::<u32>::empty()) =~= Seq::<u32>::empty());
                }
            },
        }
        let ghost after_exact = found@;
        let mut j: usize = 0;
        proof {
            assert(ws.subrange(0, ws.len() as int) =~= ws);
        }
        while j < st.wildcards.len()
            invariant
                j <= st.wildcards.len(),
                ws == binding_views(st.wildcards@),
                merge_sorted(found@, wildcard_ips(ws.subrange(j as int, ws.len() as int), nm@))
                    == merge_sorted(after_exact, wildcard_ips(ws, nm@)),
                nm@ == lower_bytes(questions@[0].qname@),
            decreases st.wildcards.len() - j,
        {
            let w = &st.wildcards[j];
            let ghost before = found@;
            proof {
                let rem = ws.subrange(j as int, ws.len() as int);
                assert(rem.drop_first() =~= ws.subrange(j + 1 as int, ws.len() as int));
                assert(rem[0] == (w.name@, w.addr));
            }
            let mut matched = false;
            if w.name.len() >= 2 && w.name[0] == STAR && w.name[1] == DOT {
                let root = tail_from(&w.name, 2);
                if strict_suffix_matches(&nm, &root) {
                    matched = true;
                    let merged = insert_addr_vec(&found, w.addr);
                    found = merged;
                }
            }
            proof {
                let rem = ws.subrange(j as int, ws.len() as int);
                let rest = ws.subrange(j + 1 as int, ws.len() as int);
                if matched {
                    assert(wildcard_covers(rem[0].0, nm@));
                    assert(wildcard_ips(rem, nm@) == seq![w.addr] + wildcard_ips(rest, nm@));
                    let tail = seq![w.addr] + wildcard_ips(rest, nm@);
                    assert(tail.drop_first() =~= wildcard_ips(rest, nm@));
                    assert(tail[0] == w.addr);
                    assert(merge_sorted(before, tail) == merge_sorted(
                        insert_addr(before, w.addr),
                        wildcard_ips(rest, nm@),
                    ));
                } else {
                    assert(!wildcard_covers(rem[0].0, nm@));
                    assert(wildcard_ips(rem, nm@) == wildcard_ips(rest, nm@));
                }
            }
            j = j + 1;
        }
        proof {
            assert(ws.subrange(ws.len() as int, ws.len() as int)
                =~= Seq::<(Seq<u8>, u32)>::empty());
            assert(merge_sorted(after_exact, wildcard_ips(ws, nm@)) == spec_answers(es, ws, nm@));
            lemma_answers_semantics(es, ws, nm@);
        }
        if found.len() > 0 {
            Outcome { code: Rcode::NoError, answers: found }
        } else {
            Outcome { code: Rcode::NxDomain, answers: Vec::new() }
        }
    } else {
        match lookup_exact(st, &nm) {
            Some(_) => Outcome { code: Rcode::NoError, answers: Vec::new() },
            None => {
                let mut j: usize = 0;
                let mut covered = false;
                while j < st.wildcards.len()
                    invariant
                        j <= st.wildcards.len(),
                        ws == binding_views(st.wildcards@),
                        nm@ == lower_bytes(questions@[0].qname@),
                        !covered ==> forall|k: int|
                            0 <= k < j ==> !wildcard_covers((#[trigger] ws[k]).0, nm@),
                        covered ==> any_wildcard_covers(ws, nm@),
                    decreases st.wildcards.len() - j,
                {
                    if !covered {
                        let w = &st.wildcards[j];
                        if w.name.len() >= 2 && w.name[0] == STAR && w.name[1] == DOT {
                            let root = tail_from(&w.name, 2);
                            if strict_suffix_matches(&nm, &root) {
                                covered = true;
                                proof {
                                    assert(wildcard_covers(ws[j as int].0, nm@));
                                }
                            }
                        }
                    }
                    j = j + 1;
                }
                if covered {
                    Outcome { code: Rcode::NoError, answers: Vec::new() }
                } else {
                    Outcome { code: Rcode::NxDomain, answers: Vec::new() }
                }
            },
        }
    }
}

} // verus!
