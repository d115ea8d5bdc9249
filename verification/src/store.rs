//! The record store: one immutable snapshot of the merged sources.
//!
//! Exact records map a normalized domain to its deduplicated, ascending
//! address list; wildcard entries are an ordered list of (pattern,
//! address) pairs, kept with duplicates since two sources can contribute
//! the same pattern with different addresses. A store is never mutated
//! after it is built; a reload replaces it wholesale.

use vstd::prelude::*;
use crate::name::bytes_eq;
use crate::name::clone_bytes;

verus! {

/// One contribution from a source: a name (or wildcard pattern) and the
/// address it carries.
pub struct Binding {
    pub name: Vec<u8>,
    pub addr: u32,
}

/// One exact record: a normalized domain and its sorted, duplicate-free
/// address list.
pub struct ExactEntry {
    pub name: Vec<u8>,
    pub addrs: Vec<u32>,
}

/// The immutable snapshot the resolver reads: exact records in
/// first-contribution order, wildcard entries in source order.
pub struct RecordStore {
    pub exact: Vec<ExactEntry>,
    pub wildcards: Vec<Binding>,
}

impl Default for RecordStore {
    /// The store before any source contributed: no records at all.
    fn default() -> (st: RecordStore)
        ensures
            st.exact@.len() == 0,
            st.wildcards@.len() == 0,
    {
        RecordStore { exact: Vec::new(), wildcards: Vec::new() }
    }
}

/// The mathematical view of a binding list: a sequence of (name, address)
/// pairs.
pub open spec fn binding_views(s: Seq<Binding>) -> Seq<(Seq<u8>, u32)> {
    Seq::new(s.len(), |i: int| (s[i].name@, s[i].addr))
}

/// The mathematical view of the exact records: a sequence of (name,
/// address list) pairs.
pub open spec fn entry_views(s: Seq<ExactEntry>) -> Seq<(Seq<u8>, Seq<u32>)> {
    Seq::new(s.len(), |i: int| (s[i].name@, s[i].addrs@))
}

/// Strictly ascending, hence duplicate-free.
pub open spec fn sorted_unique(a: Seq<u32>) -> bool {
    forall|i: int, j: int| 0 <= i < j < a.len() ==> a[i] < a[j]
}

/// No two exact records share a name.
pub open spec fn keys_unique(es: Seq<(Seq<u8>, Seq<u32>)>) -> bool {
    forall|i: int, j: int| 0 <= i < j < es.len() ==> (#[trigger] es[i]).0 != (#[trigger] es[j]).0
}

/// Well-formed exact records: unique names, each address list strictly
/// ascending.
pub open spec fn entries_wf(es: Seq<(Seq<u8>, Seq<u32>)>) -> bool {
    keys_unique(es) && forall|i: int| 0 <= i < es.len() ==> sorted_unique((#[trigger] es[i]).1)
}

/// The store invariant.
pub open spec fn store_wf(st: RecordStore) -> bool {
    entries_wf(entry_views(st.exact@))
}

/// Some exact record carries this name.
pub open spec fn has_key(es: Seq<(Seq<u8>, Seq<u32>)>, nm: Seq<u8>) -> bool {
    exists|i: int| 0 <= i < es.len() && (#[trigger] es[i]).0 == nm
}

/// Insertion into an ascending list: keeps order, drops a duplicate.
pub open spec fn insert_addr(a: Seq<u32>, ip: u32) -> Seq<u32>
    decreases a.len(),
{
    if a.len() == 0 {
        seq![ip]
    } else if ip < a[0] {
        seq![ip] + a
    } else if ip == a[0] {
        a
    } else {
        seq![a[0]] + insert_addr(a.drop_first(), ip)
    }
}

/// One merge step of the exact records: extend the record holding `nm`
/// with `ip`, or append a fresh record when none does.
pub open spec fn upsert(es: Seq<(Seq<u8>, Seq<u32>)>, nm: Seq<u8>, ip: u32) -> Seq<
    (Seq<u8>, Seq<u32>),
>
    decreases es.len(),
{
    if es.len() == 0 {
        seq![(nm, seq![ip])]
    } else if es[0].0 == nm {
        seq![(es[0].0, insert_addr(es[0].1, ip))] + es.drop_first()
    } else {
        seq![es[0]] + upsert(es.drop_first(), nm, ip)
    }
}

/// The exact records that a contribution list builds, merged in order.
pub open spec fn build_exact(c: Seq<(Seq<u8>, u32)>) -> Seq<(Seq<u8>, Seq<u32>)>
    decreases c.len(),
{
    if c.len() == 0 {
        seq![]
    } else {
        upsert(build_exact(c.drop_last()), c.last().0, c.last().1)
    }
}

/// The address list of the exact record holding `nm`, if any: the first
/// (and, in a well-formed store, only) record with that name.
pub open spec fn find_exact(es: Seq<(Seq<u8>, Seq<u32>)>, nm: Seq<u8>) -> Option<Seq<u32>>
    decreases es.len(),
{
    if es.len() == 0 {
        None
    } else if es[0].0 == nm {
        Some(es[0].1)
    } else {
        find_exact(es.drop_first(), nm)
    }
}

/// The record for `k` carries the address `x`.
pub open spec fn entry_has_addr(es: Seq<(Seq<u8>, Seq<u32>)>, k: Seq<u8>, x: u32) -> bool {
    match find_exact(es, k) {
        Some(a) => a.contains(x),
        None => false,
    }
}

/// Inserting into an ascending duplicate-free list keeps it so, and the
/// elements afterwards are exactly the old ones plus the inserted one.
pub proof fn lemma_insert_addr_props(a: Seq<u32>, ip: u32)
    requires
        sorted_unique(a),
    ensures
        sorted_unique(insert_addr(a, ip)),
        insert_addr(a, ip).len() >= 1,
        forall|x: u32| #[trigger] insert_addr(a, ip).contains(x) <==> (a.contains(x) || x == ip),
    decreases a.len(),
{
    let r = insert_addr(a, ip);
    if a.len() == 0 {
        assert(r == seq![ip]);
        assert(r.contains(ip)) by {
            assert(r[0] == ip);
        }
        assert forall|x: u32| #[trigger] r.contains(x) implies (a.contains(x) || x == ip) by {
            let k = choose|k: int| 0 <= k < r.len() && r[k] == x;
            assert(k == 0);
        }
    } else if ip < a[0] {
        assert(r == seq![ip] + a);
        assert forall|i: int, j: int| 0 <= i < j < r.len() implies r[i] < r[j] by {
            if i == 0 {
                assert(r[j] == a[j - 1]);
                if j - 1 > 0 {
                    assert(a[0] < a[j - 1]);
                }
            } else {
                assert(r[i] == a[i - 1] && r[j] == a[j - 1]);
            }
        }
        assert forall|x: u32| #[trigger] r.contains(x) implies (a.contains(x) || x == ip) by {
            let k = choose|k: int| 0 <= k < r.len() && r[k] == x;
            if k > 0 {
                assert(a[k - 1] == x);
            }
        }
        assert forall|x: u32| (a.contains(x) || x == ip) implies #[trigger] r.contains(x) by {
            if x == ip {
                assert(r[0] == x);
            } else {
                let k = choose|k: int| 0 <= k < a.len() && a[k] == x;
                assert(r[k + 1] == x);
            }
        }
    } else if ip == a[0] {
        assert(r == a);
        assert(a[0] == ip && a.contains(ip));
    } else {
        let d = a.drop_first();
        assert(sorted_unique(d)) by {
            assert forall|i: int, j: int| 0 <= i < j < d.len() implies d[i] < d[j] by {
                assert(a[i + 1] < a[j + 1]);
            }
        }
        lemma_insert_addr_props(d, ip);
        let t = insert_addr(d, ip);
        assert(r == seq![a[0]] + t);
        assert forall|i: int, j: int| 0 <= i < j < r.len() implies r[i] < r[j] by {
            if i == 0 {
                let x = r[j];
                assert(t[j - 1] == x);
                assert(t.contains(x));
                if d.contains(x) {
                    let k = choose|k: int| 0 <= k < d.len() && d[k] == x;
                    assert(a[k + 1] == x);
                    if k + 1 > 0 {
                        assert(a[0] < a[k + 1]);
                    }
                } else {
                    assert(x == ip);
                }
            } else {
                assert(r[i] == t[i - 1] && r[j] == t[j - 1]);
            }
        }
        assert forall|x: u32| #[trigger] r.contains(x) implies (a.contains(x) || x == ip) by {
            let k = choose|k: int| 0 <= k < r.len() && r[k] == x;
            if k == 0 {
                assert(a[0] == x);
                assert(a.contains(x));
            } else {
                assert(t[k - 1] == x);
                assert(t.contains(x));
                if d.contains(x) {
                    let m = choose|m: int| 0 <= m < d.len() && d[m] == x;
                    assert(a[m + 1] == x);
                    assert(a.contains(x));
                }
            }
        }
        assert forall|x: u32| (a.contains(x) || x == ip) implies #[trigger] r.contains(x) by {
            if x == ip {
                assert(t.contains(ip));
                let k = choose|k: int| 0 <= k < t.len() && t[k] == ip;
                assert(r[k + 1] == ip);
            } else {
                let k = choose|k: int| 0 <= k < a.len() && a[k] == x;
                if k == 0 {
                    assert(r[0] == x);
                } else {
                    assert(d[k - 1] == x);
                    assert(d.contains(x));
                    assert(t.contains(x));
                    let m = choose|m: int| 0 <= m < t.len() && t[m] == x;
                    assert(r[m + 1] == x);
                }
            }
        }
    }
}

/// Where the scan of an ascending list stops, the recursive insertion
/// acts: unchanged on a duplicate, spliced in otherwise.
pub proof fn lemma_insert_addr_at(a: Seq<u32>, ip: u32, j: int)
    requires
        0 <= j <= a.len(),
        forall|k: int| 0 <= k < j ==> a[k] < ip,
        j < a.len() ==> a[j] >= ip,
    ensures
        (j < a.len() && a[j] == ip) ==> insert_addr(a, ip) == a,
        !(j < a.len() && a[j] == ip) ==> insert_addr(a, ip) == a.subrange(0, j) + seq![ip]
            + a.subrange(j, a.len() as int),
    decreases j,
{
    if j == 0 {
        if a.len() == 0 {
            assert(insert_addr(a, ip) =~= a.subrange(0, 0) + seq![ip] + a.subrange(0, 0));
        } else if ip < a[0] {
            assert(insert_addr(a, ip) =~= a.subrange(0, 0) + seq![ip] + a.subrange(
                0,
                a.len() as int,
            ));
        }
    } else {
        let d = a.drop_first();
        assert forall|k: int| 0 <= k < j - 1 implies d[k] < ip by {
            assert(a[k + 1] < ip);
        }
        lemma_insert_addr_at(d, ip, j - 1);
        assert(a[0] < ip);
        assert(insert_addr(a, ip) == seq![a[0]] + insert_addr(d, ip));
        if j < a.len() && a[j] == ip {
            assert(d[j - 1] == ip);
            assert(insert_addr(d, ip) == d);
            assert(seq![a[0]] + d =~= a);
        } else {
            assert(insert_addr(d, ip) == d.subrange(0, j - 1) + seq![ip] + d.subrange(
                j - 1,
                d.len() as int,
            ));
            assert(seq![a[0]] + (d.subrange(0, j - 1) + seq![ip] + d.subrange(j - 1, d.len() as int))
                =~= a.subrange(0, j) + seq![ip] + a.subrange(j, a.len() as int));
        }
    }
}

/// Where the scan of the exact records finds `nm` first at `j`, the
/// recursive merge updates exactly that record.
pub proof fn lemma_upsert_found(es: Seq<(Seq<u8>, Seq<u32>)>, nm: Seq<u8>, ip: u32, j: int)
    requires
        0 <= j < es.len(),
        forall|k: int| 0 <= k < j ==> (#[trigger] es[k]).0 != nm,
        es[j].0 == nm,
    ensures
        upsert(es, nm, ip) == es.update(j, (nm, insert_addr(es[j].1, ip))),
    decreases j,
{
    if j == 0 {
        assert(upsert(es, nm, ip) =~= es.update(0, (nm, insert_addr(es[0].1, ip))));
    } else {
        let d = es.drop_first();
        assert forall|k: int| 0 <= k < j - 1 implies (#[trigger] d[k]).0 != nm by {
            assert(es[k + 1].0 != nm);
        }
        assert(d[j - 1].0 == nm);
        lemma_upsert_found(d, nm, ip, j - 1);
        assert(es[0].0 != nm);
        assert(upsert(es, nm, ip) == seq![es[0]] + d.update(j - 1, (nm, insert_addr(d[j - 1].1, ip))));
        assert(seq![es[0]] + d.update(j - 1, (nm, insert_addr(es[j].1, ip))) =~= es.update(
            j,
            (nm, insert_addr(es[j].1, ip)),
        ));
    }
}

/// Where no exact record holds `nm`, the recursive merge appends a fresh
/// one.
pub proof fn lemma_upsert_absent(es: Seq<(Seq<u8>, Seq<u32>)>, nm: Seq<u8>, ip: u32)
    requires
        forall|k: int| 0 <= k < es.len() ==> (#[trigger] es[k]).0 != nm,
    ensures
        upsert(es, nm, ip) == es.push((nm, seq![ip])),
    decreases es.len(),
{
    if es.len() == 0 {
        assert(upsert(es, nm, ip) =~= es.push((nm, seq![ip])));
    } else {
        let d = es.drop_first();
        assert forall|k: int| 0 <= k < d.len() implies (#[trigger] d[k]).0 != nm by {
            assert(es[k + 1].0 != nm);
        }
        lemma_upsert_absent(d, nm, ip);
        assert(upsert(es, nm, ip) == seq![es[0]] + d.push((nm, seq![ip])));
        assert(seq![es[0]] + d.push((nm, seq![ip])) =~= es.push((nm, seq![ip])));
    }
}

/// Merging one contribution preserves well-formedness, and the record
/// names afterwards are the old ones plus the contributed name.
pub proof fn lemma_upsert_wf(es: Seq<(Seq<u8>, Seq<u32>)>, nm: Seq<u8>, ip: u32)
    requires
        entries_wf(es),
    ensures
        entries_wf(upsert(es, nm, ip)),
        forall|x: Seq<u8>| #[trigger] has_key(upsert(es, nm, ip), x) <==> (has_key(es, x) || x
            == nm),
    decreases es.len(),
{
    let r = upsert(es, nm, ip);
    if es.len() == 0 {
        assert(sorted_unique(seq![ip]));
        assert(r == seq![(nm, seq![ip])]);
        assert(has_key(r, nm)) by {
            assert(r[0].0 == nm);
        }
        assert forall|x: Seq<u8>| #[trigger] has_key(r, x) implies (has_key(es, x) || x == nm) by {
            let k = choose|k: int| 0 <= k < r.len() && r[k].0 == x;
            assert(k == 0);
        }
    } else if es[0].0 == nm {
        assert(sorted_unique(es[0].1));
        lemma_insert_addr_props(es[0].1, ip);
        assert(r == seq![(es[0].0, insert_addr(es[0].1, ip))] + es.drop_first());
        assert forall|i: int| 0 <= i < r.len() implies r[i].0 == es[i].0 && sorted_unique(
            (#[trigger] r[i]).1,
        ) by {
            if i > 0 {
                assert(r[i] == es.drop_first()[i - 1]);
                assert(es.drop_first()[i - 1] == es[i]);
            }
        }
        assert forall|x: Seq<u8>| #[trigger] has_key(r, x) implies (has_key(es, x) || x == nm) by {
            let k = choose|k: int| 0 <= k < r.len() && r[k].0 == x;
            assert(es[k].0 == x);
        }
        assert forall|x: Seq<u8>| (has_key(es, x) || x == nm) implies #[trigger] has_key(r, x) by {
            if has_key(es, x) {
                let k = choose|k: int| 0 <= k < es.len() && es[k].0 == x;
                assert(r[k].0 == x);
            } else {
                assert(r[0].0 == nm);
            }
        }
    } else {
        let d = es.drop_first();
        assert(entries_wf(d)) by {
            assert forall|i: int, j: int| 0 <= i < j < d.len() implies (#[trigger] d[i]).0 != (
            #[trigger] d[j]).0 by {
                assert(d[i] == es[i + 1] && d[j] == es[j + 1]);
            }
            assert forall|i: int| 0 <= i < d.len() implies sorted_unique((#[trigger] d[i]).1) by {
                assert(d[i] == es[i + 1]);
            }
        }
        lemma_upsert_wf(d, nm, ip);
        let t = upsert(d, nm, ip);
        assert(r == seq![es[0]] + t);
        assert(!has_key(d, es[0].0)) by {
            if has_key(d, es[0].0) {
                let k = choose|k: int| 0 <= k < d.len() && d[k].0 == es[0].0;
                assert(es[k + 1].0 == es[0].0);
            }
        }
        assert forall|i: int, j: int| 0 <= i < j < r.len() implies (#[trigger] r[i]).0 != (
        #[trigger] r[j]).0 by {
            if i == 0 {
                assert(r[j] == t[j - 1]);
                assert(has_key(t, t[j - 1].0)) by {
                    assert(t[j - 1].0 == t[j - 1].0);
                }
                assert(has_key(d, t[j - 1].0) || t[j - 1].0 == nm);
            } else {
                assert(r[i] == t[i - 1] && r[j] == t[j - 1]);
            }
        }
        assert forall|i: int| 0 <= i < r.len() implies sorted_unique((#[trigger] r[i]).1) by {
            if i == 0 {
                assert(r[0] == es[0]);
                assert(sorted_unique(es[0].1));
            } else {
                assert(r[i] == t[i - 1]);
            }
        }
        assert forall|x: Seq<u8>| #[trigger] has_key(r, x) implies (has_key(es, x) || x == nm) by {
            let k = choose|k: int| 0 <= k < r.len() && r[k].0 == x;
            if k == 0 {
                assert(es[0].0 == x);
            } else {
                assert(t[k - 1].0 == x);
                assert(has_key(t, x));
                if has_key(d, x) {
                    let m = choose|m: int| 0 <= m < d.len() && d[m].0 == x;
                    assert(es[m + 1].0 == x);
                }
            }
        }
        assert forall|x: Seq<u8>| (has_key(es, x) || x == nm) implies #[trigger] has_key(r, x) by {
            if x == nm {
                assert(has_key(t, nm));
                let m = choose|m: int| 0 <= m < t.len() && t[m].0 == nm;
                assert(r[m + 1].0 == nm);
            } else {
                let k = choose|k: int| 0 <= k < es.len() && es[k].0 == x;
                if k == 0 {
                    assert(r[0].0 == x);
                } else {
                    assert(d[k - 1].0 == x);
                    assert(has_key(d, x));
                    assert(has_key(t, x));
                    let m = choose|m: int| 0 <= m < t.len() && t[m].0 == x;
                    assert(r[m + 1].0 == x);
                }
            }
        }
    }
}

/// The exact records built from any contribution list are well-formed:
/// names unique, every address list strictly ascending with no duplicate.
pub proof fn lemma_build_exact_wf(c: Seq<(Seq<u8>, u32)>)
    ensures
        entries_wf(build_exact(c)),
    decreases c.len(),
{
    if c.len() == 0 {
    } else {
        lemma_build_exact_wf(c.drop_last());
        lemma_upsert_wf(build_exact(c.drop_last()), c.last().0, c.last().1);
    }
}

/// Building is deterministic: two stores built from the same contribution
/// lists agree exactly, record for record and wildcard for wildcard.
pub proof fn lemma_build_deterministic(
    a: RecordStore,
    b: RecordStore,
    e: Seq<(Seq<u8>, u32)>,
    w: Seq<(Seq<u8>, u32)>,
)
    requires
        entry_views(a.exact@) == build_exact(e),
        binding_views(a.wildcards@) == w,
        entry_views(b.exact@) == build_exact(e),
        binding_views(b.wildcards@) == w,
    ensures
        entry_views(a.exact@) == entry_views(b.exact@),
        binding_views(a.wildcards@) == binding_views(b.wildcards@),
{
}

/// Where the scan finds `nm` first at `j`, the recursive search returns
/// that record's addresses.
pub proof fn lemma_find_at(es: Seq<(Seq<u8>, Seq<u32>)>, nm: Seq<u8>, j: int)
    requires
        0 <= j < es.len(),
        forall|k: int| 0 <= k < j ==> (#[trigger] es[k]).0 != nm,
        es[j].0 == nm,
    ensures
        find_exact(es, nm) == Some(es[j].1),
    decreases j,
{
    if j > 0 {
        let d = es.drop_first();
        assert forall|k: int| 0 <= k < j - 1 implies (#[trigger] d[k]).0 != nm by {
            assert(es[k + 1].0 != nm);
        }
        assert(d[j - 1].0 == nm);
        lemma_find_at(d, nm, j - 1);
    }
}

/// Where no record holds `nm`, the search comes back empty.
pub proof fn lemma_find_absent(es: Seq<(Seq<u8>, Seq<u32>)>, nm: Seq<u8>)
    requires
        forall|k: int| 0 <= k < es.len() ==> (#[trigger] es[k]).0 != nm,
    ensures
        find_exact(es, nm) is None,
    decreases es.len(),
{
    if es.len() > 0 {
        let d = es.drop_first();
        assert forall|k: int| 0 <= k < d.len() implies (#[trigger] d[k]).0 != nm by {
            assert(es[k + 1].0 != nm);
        }
        lemma_find_absent(d, nm);
    }
}

/// A found address list is one of the records, and a missed name is no
/// record's.
pub proof fn lemma_find_is_entry(es: Seq<(Seq<u8>, Seq<u32>)>, k: Seq<u8>)
    ensures
        match find_exact(es, k) {
            Some(a) => exists|j: int|
                0 <= j < es.len() && (#[trigger] es[j]).0 == k && es[j].1 == a,
            None => !has_key(es, k),
        },
    decreases es.len(),
{
    if es.len() == 0 {
        assert(!has_key(es, k)) by {
            if has_key(es, k) {
                let j = choose|j: int| 0 <= j < es.len() && es[j].0 == k;
            }
        }
    } else if es[0].0 == k {
        assert(es[0].0 == k && es[0].1 == es[0].1);
    } else {
        let d = es.drop_first();
        lemma_find_is_entry(d, k);
        match find_exact(es, k) {
            Some(a) => {
                let j = choose|j: int| 0 <= j < d.len() && d[j].0 == k && d[j].1 == a;
                assert(es[j + 1].0 == k && es[j + 1].1 == a);
            },
            None => {
                assert(!has_key(es, k)) by {
                    if has_key(es, k) {
                        let j = choose|j: int| 0 <= j < es.len() && es[j].0 == k;
                        assert(j > 0);
                        assert(d[j - 1].0 == k);
                        assert(has_key(d, k));
                    }
                }
            },
        }
    }
}

/// How one merge step changes what a later search finds: only the record
/// for the contributed name, and exactly by the contributed address.
pub proof fn lemma_find_upsert(es: Seq<(Seq<u8>, Seq<u32>)>, nm: Seq<u8>, ip: u32, k: Seq<u8>)
    ensures
        k == nm ==> find_exact(upsert(es, nm, ip), k) == Some(
            match find_exact(es, nm) {
                Some(a) => insert_addr(a, ip),
                None => seq![ip],
            },
        ),
        k != nm ==> find_exact(upsert(es, nm, ip), k) == find_exact(es, k),
    decreases es.len(),
{
    let up = upsert(es, nm, ip);
    if es.len() == 0 {
        assert(up == seq![(nm, seq![ip])]);
        assert(up[0].0 == nm);
        if k != nm {
            assert(find_exact(up, k) == find_exact(up.drop_first(), k));
            assert(up.drop_first() =~= Seq::<(Seq<u8>, Seq<u32>)>::empty());
        }
    } else if es[0].0 == nm {
        assert(up == seq![(es[0].0, insert_addr(es[0].1, ip))] + es.drop_first());
        assert(up[0].0 == nm);
        if k == nm {
            assert(find_exact(up, k) == Some(insert_addr(es[0].1, ip)));
        } else {
            assert(up.drop_first() =~= es.drop_first());
        }
    } else {
        assert(up == seq![es[0]] + upsert(es.drop_first(), nm, ip));
        assert(up[0] == es[0]);
        lemma_find_upsert(es.drop_first(), nm, ip, k);
        if k != es[0].0 {
            assert(up.drop_first() =~= upsert(es.drop_first(), nm, ip));
        }
    }
}

/// What the built exact records mean: a name is found exactly when some
/// contribution carries it, and its list holds an address exactly when
/// some contribution is that very (name, address) pair — however many
/// times, and in whatever order, it was contributed.
pub proof fn lemma_build_exact_semantics(c: Seq<(Seq<u8>, u32)>)
    ensures
        forall|k: Seq<u8>| #[trigger] has_key(build_exact(c), k) <==> exists|i: int|
            0 <= i < c.len() && (#[trigger] c[i]).0 == k,
        forall|k: Seq<u8>, x: u32| #[trigger] entry_has_addr(build_exact(c), k, x) <==> c.contains(
            (k, x),
        ),
    decreases c.len(),
{
    let es = build_exact(c);
    if c.len() == 0 {
        assert forall|k: Seq<u8>| #[trigger] has_key(es, k) implies exists|i: int|
            0 <= i < c.len() && (#[trigger] c[i]).0 == k by {
            let j = choose|j: int| 0 <= j < es.len() && es[j].0 == k;
        }
        assert forall|k: Seq<u8>, x: u32| #[trigger] entry_has_addr(es, k, x) implies c.contains(
            (k, x),
        ) by {}
        assert forall|k: Seq<u8>, x: u32| c.contains((k, x)) implies #[trigger] entry_has_addr(
            es,
            k,
            x,
        ) by {
            let i = choose|i: int| 0 <= i < c.len() && c[i] == (k, x);
        }
    } else {
        let p = c.drop_last();
        let prev = build_exact(p);
        let nm = c.last().0;
        let ip = c.last().1;
        lemma_build_exact_semantics(p);
        lemma_build_exact_wf(p);
        assert(es == upsert(prev, nm, ip));
        assert forall|k: Seq<u8>| #[trigger] has_key(es, k) <==> (exists|i: int|
            0 <= i < c.len() && (#[trigger] c[i]).0 == k) by {
            lemma_upsert_wf(prev, nm, ip);
            assert(has_key(es, k) <==> (has_key(prev, k) || k == nm));
            if has_key(prev, k) {
                let i = choose|i: int| 0 <= i < p.len() && p[i].0 == k;
                assert(c[i].0 == k);
            }
            if k == nm {
                assert(c[c.len() - 1].0 == k);
            }
            if exists|i: int| 0 <= i < c.len() && (#[trigger] c[i]).0 == k {
                let i = choose|i: int| 0 <= i < c.len() && c[i].0 == k;
                if i < c.len() - 1 {
                    assert(p[i].0 == k);
                    assert(has_key(prev, k));
                } else {
                    assert(k == nm);
                }
            }
        }
        assert forall|k: Seq<u8>, x: u32| #[trigger] entry_has_addr(es, k, x) <==> c.contains(
            (k, x),
        ) by {
            lemma_find_upsert(prev, nm, ip, k);
            if k == nm {
                match find_exact(prev, nm) {
                    Some(a) => {
                        lemma_find_is_entry(prev, nm);
                        let j = choose|j: int|
                            0 <= j < prev.len() && prev[j].0 == nm && prev[j].1 == a;
                        assert(sorted_unique(a));
                        lemma_insert_addr_props(a, ip);
                        assert(entry_has_addr(es, k, x) <==> (a.contains(x) || x == ip));
                    },
                    None => {
                        assert(find_exact(es, k) == Some(seq![ip]));
                        assert(seq![ip].contains(x) <==> x == ip) by {
                            if seq![ip].contains(x) {
                                let m = choose|m: int| 0 <= m < 1 && seq![ip][m] == x;
                            }
                            if x == ip {
                                assert(seq![ip][0] == x);
                            }
                        }
                        assert(!entry_has_addr(prev, k, x));
                    },
                }
            } else {
                assert(entry_has_addr(es, k, x) == entry_has_addr(prev, k, x));
            }
            if entry_has_addr(es, k, x) {
                if entry_has_addr(prev, k, x) {
                    assert(p.contains((k, x)));
                    let i = choose|i: int| 0 <= i < p.len() && p[i] == (k, x);
                    assert(c[i] == (k, x));
                    assert(c.contains((k, x)));
                } else {
                    assert(k == nm && x == ip);
                    assert(c[c.len() - 1] == (k, x));
                    assert(c.contains((k, x)));
                }
            }
            if c.contains((k, x)) {
                let i = choose|i: int| 0 <= i < c.len() && c[i] == (k, x);
                if i < c.len() - 1 {
                    assert(p[i] == (k, x));
                    assert(p.contains((k, x)));
                    assert(entry_has_addr(prev, k, x));
                } else {
                    assert(k == nm && x == ip);
                }
            }
        }
    }
}

/// Insert `ip` into an ascending duplicate-free address list, keeping it
/// so; a duplicate leaves the list unchanged.
pub fn insert_addr_vec(addrs: &Vec<u32>, ip: u32) -> (r: Vec<u32>)
    ensures
        r@ == insert_addr(addrs@, ip),
{
    let mut r: Vec<u32> = Vec::new();
    let mut i: usize = 0;
    while i < addrs.len() && addrs[i] < ip
        invariant
            i <= addrs.len(),
            forall|k: int| 0 <= k < i ==> addrs@[k] < ip,
            r@ == addrs@.subrange(0, i as int),
        decreases addrs.len() - i,
    {
        r.push(addrs[i]);
        proof {
            assert(r@ =~= addrs@.subrange(0, i + 1 as int));
        }
        i = i + 1;
    }
    proof {
        lemma_insert_addr_at(addrs@, ip, i as int);
    }
    if i < addrs.len() && addrs[i] == ip {
        let mut j = i;
        let mut out = r;
        while j < addrs.len()
            invariant
                i <= j <= addrs.len(),
                out@ == addrs@.subrange(0, j as int),
            decreases addrs.len() - j,
        {
            out.push(addrs[j]);
            proof {
                assert(out@ =~= addrs@.subrange(0, j + 1 as int));
            }
            j = j + 1;
        }
        proof {
            assert(addrs@.subrange(0, addrs@.len() as int) =~= addrs@);
        }
        out
    } else {
        let mut out = r;
        out.push(ip);
        let mut j = i;
        let ghost pre = addrs@.subrange(0, i as int) + seq![ip];
        proof {
            assert(out@ =~= pre);
        }
        while j < addrs.len()
            invariant
                i <= j <= addrs.len(),
                pre == addrs@.subrange(0, i as int) + seq![ip],
                out@ == pre + addrs@.subrange(i as int, j as int),
            decreases addrs.len() - j,
        {
            out.push(addrs[j]);
            proof {
                assert(out@ =~= pre + addrs@.subrange(i as int, j + 1 as int));
            }
            j = j + 1;
        }
        proof {
            assert(out@ =~= addrs@.subrange(0, i as int) + seq![ip] + addrs@.subrange(
                i as int,
                addrs@.len() as int,
            ));
        }
        out
    }
}

/// Merge one contribution into the exact records: extend the record that
/// carries this name, or append a fresh one.
pub fn upsert_entry(exact: &mut Vec<ExactEntry>, nm: &Vec<u8>, ip: u32)
    ensures
        entry_views(final(exact)@) == upsert(entry_views(old(exact)@), nm@, ip),
{
    let ghost es = entry_views(exact@);
    let mut j: usize = 0;
    while j < exact.len()
        invariant
            j <= exact.len(),
            es == entry_views(exact@),
            es == entry_views(old(exact)@),
            forall|k: int| 0 <= k < j ==> (#[trigger] es[k]).0 != nm@,
        decreases exact.len() - j,
    {
        if bytes_eq(&exact[j].name, nm) {
            let new_addrs = insert_addr_vec(&exact[j].addrs, ip);
            let new_name = clone_bytes(&exact[j].name);
            exact[j] = (ExactEntry { name: new_name, addrs: new_addrs });
            proof {
                lemma_upsert_found(es, nm@, ip, j as int);
                assert(entry_views(exact@) =~= es.update(
                    j as int,
                    (nm@, insert_addr(es[j as int].1, ip)),
                ));
                assert(entry_views(exact@) == upsert(es, nm@, ip));
            }
            return ;
        }
        j = j + 1;
    }
    proof {
        lemma_upsert_absent(es, nm@, ip);
    }
    let new_name = clone_bytes(nm);
    let mut new_addrs: Vec<u32> = Vec::new();
    new_addrs.push(ip);
    exact.push(ExactEntry { name: new_name, addrs: new_addrs });
    proof {
        assert(entry_views(exact@) =~= es.push((nm@, seq![ip])));
    }
}

/// Build one store from the merged contributions: exact contributions
/// merged in order into unique, sorted records; wildcard contributions
/// kept as given, duplicates and order included.
pub fn build(exact_contribs: &Vec<Binding>, wild_contribs: &Vec<Binding>) -> (st: RecordStore)
    ensures
        entry_views(st.exact@) == build_exact(binding_views(exact_contribs@)),
        binding_views(st.wildcards@) == binding_views(wild_contribs@),
        store_wf(st),
{
    let ghost c = binding_views(exact_contribs@);
    let mut exact: Vec<ExactEntry> = Vec::new();
    let mut i: usize = 0;
    while i < exact_contribs.len()
        invariant
            i <= exact_contribs.len(),
            c == binding_views(exact_contribs@),
            entry_views(exact@) == build_exact(c.subrange(0, i as int)),
        decreases exact_contribs.len() - i,
    {
        let b = &exact_contribs[i];
        upsert_entry(&mut exact, &b.name, b.addr);
        proof {
            assert(c.subrange(0, i + 1 as int).drop_last() =~= c.subrange(0, i as int));
            assert(c.subrange(0, i + 1 as int).last() == (b.name@, b.addr));
        }
        i = i + 1;
    }
    proof {
        assert(c.subrange(0, c.len() as int) =~= c);
        lemma_build_exact_wf(c);
    }
    let mut wildcards: Vec<Binding> = Vec::new();
    let mut j: usize = 0;
    while j < wild_contribs.len()
        invariant
            j <= wild_contribs.len(),
            binding_views(wildcards@) == binding_views(wild_contribs@).subrange(0, j as int),
        decreases wild_contribs.len() - j,
    {
        let w = &wild_contribs[j];
        let nm = clone_bytes(&w.name);
        let ghost prev = wildcards@;
        wildcards.push(Binding { name: nm, addr: w.addr });
        proof {
            assert(binding_views(prev).len() == prev.len());
            assert(prev.len() == j);
            let cur = binding_views(wildcards@);
            let want = binding_views(wild_contribs@).subrange(0, j + 1 as int);
            assert forall|k: int| 0 <= k < cur.len() implies cur[k] == want[k] by {
                if k < j {
                    assert(wildcards@[k] == prev[k]);
                    assert(binding_views(prev)[k] == binding_views(wild_contribs@).subrange(
                        0,
                        j as int,
                    )[k]);
                } else {
                    assert(wildcards@[k].name@ == wild_contribs@[k].name@);
                }
            }
            assert(cur =~= want);
        }
        j = j + 1;
    }
    proof {
        assert(binding_views(wild_contribs@).subrange(0, binding_views(wild_contribs@).len() as int)
            =~= binding_views(wild_contribs@));
    }
    RecordStore { exact, wildcards }
}

/// Look up the exact record for `nm`, already normalized.
pub fn lookup_exact<'a>(st: &'a RecordStore, nm: &Vec<u8>) -> (r: Option<&'a Vec<u32>>)
    ensures
        match r {
            Some(v) => find_exact(entry_views(st.exact@), nm@) == Some(v@),
            None => find_exact(entry_views(st.exact@), nm@) is None,
        },
{
    let ghost es = entry_views(st.exact@);
    let mut j: usize = 0;
    while j < st.exact.len()
        invariant
            j <= st.exact.len(),
            es == entry_views(st.exact@),
            forall|k: int| 0 <= k < j ==> (#[trigger] es[k]).0 != nm@,
        decreases st.exact.len() - j,
    {
        if bytes_eq(&st.exact[j].name, nm) {
            proof {
                lemma_find_at(es, nm@, j as int);
            }
            return Some(&st.exact[j].addrs);
        }
        j = j + 1;
    }
    proof {
        lemma_find_absent(es, nm@);
    }
    None
}

} // verus!
