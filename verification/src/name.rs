//! Domain-name normalization over byte strings.
//!
//! A domain name is kept as ASCII bytes, normalized to lowercase with a
//! trailing dot. Normalization is applied uniformly at build time and at
//! query time; wildcard matching is a pure suffix comparison on the
//! normalized, dot-terminated form.

use vstd::prelude::*;

verus! {

/// ASCII '.'
pub const DOT: u8 = 46;

/// ASCII '*'
pub const STAR: u8 = 42;

/// ASCII '#'
pub const HASH: u8 = 35;

/// ASCII lowercase of one byte: 'A'..='Z' maps down, all else unchanged.
pub open spec fn lower_byte(b: u8) -> u8 {
    if 65 <= b && b <= 90 {
        (b + 32) as u8
    } else {
        b
    }
}

/// ASCII lowercase of a byte string.
pub open spec fn lower_bytes(s: Seq<u8>) -> Seq<u8> {
    Seq::new(s.len(), |i: int| lower_byte(s[i]))
}

/// A byte string already in lowercase.
pub open spec fn is_lower(s: Seq<u8>) -> bool {
    forall|i: int| 0 <= i < s.len() ==> s[i] == lower_byte(s[i])
}

/// `s` with a trailing dot appended unless one is already there.
pub open spec fn dot_terminated(s: Seq<u8>) -> Seq<u8> {
    if s.len() > 0 && s[s.len() - 1] == DOT {
        s
    } else {
        s.push(DOT)
    }
}

/// The suffix as it is appended to a hostname: prefixed with '.' unless it
/// is empty or already starts with '.'.
pub open spec fn normalized_suffix(s: Seq<u8>) -> Seq<u8> {
    if s.len() == 0 || s[0] == DOT {
        s
    } else {
        seq![DOT] + s
    }
}

/// The fully-qualified name a DHCP lease contributes: hostname, then the
/// normalized suffix, then a trailing dot, the whole lowercased.
pub open spec fn fqdn_of(hostname: Seq<u8>, suffix: Seq<u8>) -> Seq<u8> {
    lower_bytes(hostname + normalized_suffix(suffix) + seq![DOT])
}

/// `s` with every trailing dot removed.
pub open spec fn strip_trailing_dots(s: Seq<u8>) -> Seq<u8>
    decreases s.len(),
{
    if s.len() > 0 && s[s.len() - 1] == DOT {
        strip_trailing_dots(s.drop_last())
    } else {
        s
    }
}

/// The wildcard pattern derived from a lease fqdn: "*." then the fqdn with
/// its trailing dots removed, then one dot.
pub open spec fn wildcard_pattern_of(fqdn: Seq<u8>) -> Seq<u8> {
    seq![STAR, DOT] + strip_trailing_dots(fqdn) + seq![DOT]
}

/// `s` ends with `suffix`.
pub open spec fn ends_with(s: Seq<u8>, suffix: Seq<u8>) -> bool {
    s.len() >= suffix.len() && s.subrange(s.len() - suffix.len(), s.len() as int) == suffix
}

/// The strict-suffix rule: `target` ends with `root` and is strictly longer,
/// so the root itself never matches its own wildcard.
pub open spec fn strict_suffix_match(target: Seq<u8>, root: Seq<u8>) -> bool {
    ends_with(target, root) && target.len() > root.len()
}

/// A pattern of wildcard shape: begins with "*.".
pub open spec fn is_wildcard(p: Seq<u8>) -> bool {
    p.len() >= 2 && p[0] == STAR && p[1] == DOT
}

/// The root of a wildcard pattern: everything after the leading "*.".
pub open spec fn wildcard_root(p: Seq<u8>) -> Seq<u8> {
    p.subrange(2, p.len() as int)
}

/// The wildcard `p` matches `target`: `p` has wildcard shape and `target`
/// is a strict suffix extension of its root.
pub open spec fn wildcard_covers(p: Seq<u8>, target: Seq<u8>) -> bool {
    is_wildcard(p) && strict_suffix_match(target, wildcard_root(p))
}

/// ASCII lowercase of a byte vector.
pub fn to_lower(v: &Vec<u8>) -> (r: Vec<u8>)
    ensures
        r@ == lower_bytes(v@),
{
    let mut r: Vec<u8> = Vec::new();
    let mut i: usize = 0;
    while i < v.len()
        invariant
            i <= v.len(),
            r@ == lower_bytes(v@.subrange(0, i as int)),
        decreases v.len() - i,
    {
        let b = v[i];
        let lb: u8 = if 65 <= b && b <= 90 {
            b + 32
        } else {
            b
        };
        r.push(lb);
        proof {
            assert(r@ =~= lower_bytes(v@.subrange(0, i + 1 as int)));
        }
        i = i + 1;
    }
    proof {
        assert(v@.subrange(0, v@.len() as int) =~= v@);
    }
    r
}

/// Normalize a name for lookup or storage: lowercase, then ensure a
/// trailing dot.
pub fn normalize_name(v: &Vec<u8>) -> (r: Vec<u8>)
    ensures
        r@ == dot_terminated(lower_bytes(v@)),
{
    let mut r = to_lower(v);
    let n = r.len();
    if n == 0 || r[n - 1] != DOT {
        r.push(DOT);
    }
    r
}

/// Lowercase a name without touching dot termination, as the resolver does
/// to an incoming query name.
pub fn lower_name(v: &Vec<u8>) -> (r: Vec<u8>)
    ensures
        r@ == lower_bytes(v@),
{
    to_lower(v)
}

/// Build the fully-qualified domain a lease contributes: hostname plus
/// suffix (dot-prefixed unless empty or already so) plus a trailing dot,
/// all lowercased.
pub fn make_fqdn(hostname: &Vec<u8>, suffix: &Vec<u8>) -> (r: Vec<u8>)
    ensures
        r@ == fqdn_of(hostname@, suffix@),
{
    let mut joined: Vec<u8> = Vec::new();
    let mut i: usize = 0;
    while i < hostname.len()
        invariant
            i <= hostname.len(),
            joined@ == hostname@.subrange(0, i as int),
        decreases hostname.len() - i,
    {
        joined.push(hostname[i]);
        proof {
            assert(joined@ =~= hostname@.subrange(0, i + 1 as int));
        }
        i = i + 1;
    }
    proof {
        assert(hostname@.subrange(0, hostname@.len() as int) =~= hostname@);
    }
    if !(suffix.len() == 0 || suffix[0] == DOT) {
        joined.push(DOT);
    }
    let mut j: usize = 0;
    let ghost pre = joined@;
    while j < suffix.len()
        invariant
            j <= suffix.len(),
            joined@ == pre + suffix@.subrange(0, j as int),
        decreases suffix.len() - j,
    {
        joined.push(suffix[j]);
        proof {
            assert(joined@ =~= pre + suffix@.subrange(0, j + 1 as int));
        }
        j = j + 1;
    }
    joined.push(DOT);
    proof {
        assert(suffix@.subrange(0, suffix@.len() as int) =~= suffix@);
        assert(joined@ =~= hostname@ + normalized_suffix(suffix@) + seq![DOT]);
    }
    to_lower(&joined)
}

/// Build the wildcard pattern a lease contributes: "*." plus the fqdn with
/// trailing dots removed plus one dot.
pub fn make_wildcard_pattern(fqdn: &Vec<u8>) -> (r: Vec<u8>)
    ensures
        r@ == wildcard_pattern_of(fqdn@),
{
    let mut end: usize = fqdn.len();
    proof {
        assert(fqdn@.subrange(0, fqdn@.len() as int) =~= fqdn@);
    }
    while end > 0 && fqdn[end - 1] == DOT
        invariant
            end <= fqdn.len(),
            strip_trailing_dots(fqdn@) == strip_trailing_dots(fqdn@.subrange(0, end as int)),
        decreases end,
    {
        proof {
            assert(fqdn@.subrange(0, end as int).drop_last() =~= fqdn@.subrange(0, end - 1 as int));
        }
        end = end - 1;
    }
    proof {
        if end > 0 {
            assert(strip_trailing_dots(fqdn@.subrange(0, end as int)) == fqdn@.subrange(0, end as int));
        } else {
            assert(fqdn@.subrange(0, 0) =~= Seq::<u8>::empty());
        }
    }
    let mut r: Vec<u8> = Vec::new();
    r.push(STAR);
    r.push(DOT);
    let mut i: usize = 0;
    while i < end
        invariant
            i <= end,
            end <= fqdn.len(),
            r@ == seq![STAR, DOT] + fqdn@.subrange(0, i as int),
        decreases end - i,
    {
        r.push(fqdn[i]);
        proof {
            assert(r@ =~= seq![STAR, DOT] + fqdn@.subrange(0, i + 1 as int));
        }
        i = i + 1;
    }
    r.push(DOT);
    proof {
        assert(r@ =~= wildcard_pattern_of(fqdn@));
    }
    r
}

/// Does `target` end with `root` while being strictly longer? The wildcard
/// matching rule of the resolver.
pub fn strict_suffix_matches(target: &Vec<u8>, root: &Vec<u8>) -> (r: bool)
    ensures
        r == strict_suffix_match(target@, root@),
{
    if target.len() <= root.len() {
        return false;
    }
    let off = target.len() - root.len();
    let mut i: usize = 0;
    while i < root.len()
        invariant
            i <= root.len(),
            target.len() > root.len(),
            off == target.len() - root.len(),
            forall|k: int| 0 <= k < i ==> #[trigger] target@[off + k] == root@[k],
        decreases root.len() - i,
    {
        if target[off + i] != root[i] {
            proof {
                assert(target@.subrange(target@.len() - root@.len(), target@.len() as int)[i as int]
                    == target@[off + i]);
            }
            return false;
        }
        i = i + 1;
    }
    proof {
        assert forall|k: int| 0 <= k < root@.len() implies target@.subrange(
            target@.len() - root@.len(),
            target@.len() as int,
        )[k] == root@[k] by {
            assert(target@[off + k] == root@[k]);
        }
        assert(target@.subrange(target@.len() - root@.len(), target@.len() as int) =~= root@);
    }
    true
}

/// Byte-for-byte equality of two byte vectors.
pub fn bytes_eq(a: &Vec<u8>, b: &Vec<u8>) -> (r: bool)
    ensures
        r == (a@ == b@),
{
    if a.len() != b.len() {
        return false;
    }
    let mut i: usize = 0;
    while i < a.len()
        invariant
            i <= a.len(),
            a@.len() == b@.len(),
            forall|k: int| 0 <= k < i ==> a@[k] == b@[k],
        decreases a.len() - i,
    {
        if a[i] != b[i] {
            return false;
        }
        i = i + 1;
    }
    proof {
        assert(a@ =~= b@);
    }
    true
}

/// A fresh copy of a byte vector.
pub fn clone_bytes(v: &Vec<u8>) -> (r: Vec<u8>)
    ensures
        r@ == v@,
{
    let mut r: Vec<u8> = Vec::new();
    let mut i: usize = 0;
    while i < v.len()
        invariant
            i <= v.len(),
            r@ == v@.subrange(0, i as int),
        decreases v.len() - i,
    {
        r.push(v[i]);
        proof {
            assert(r@ =~= v@.subrange(0, i + 1 as int));
        }
        i = i + 1;
    }
    proof {
        assert(v@.subrange(0, v@.len() as int) =~= v@);
    }
    r
}

/// Lowercasing distributes over concatenation.
pub proof fn lemma_lower_bytes_add(a: Seq<u8>, b: Seq<u8>)
    ensures
        lower_bytes(a + b) == lower_bytes(a) + lower_bytes(b),
{
    assert(lower_bytes(a + b) =~= lower_bytes(a) + lower_bytes(b));
}

/// The shape of every lease-derived fqdn: it is the lowercased hostname,
/// then the lowercased normalized suffix, then a trailing dot; it is
/// nonempty, lowercase, and dot-terminated.
pub proof fn lemma_fqdn_shape(hostname: Seq<u8>, suffix: Seq<u8>)
    ensures
        fqdn_of(hostname, suffix) == lower_bytes(hostname) + lower_bytes(normalized_suffix(suffix))
            + seq![DOT],
        fqdn_of(hostname, suffix).len() > 0,
        fqdn_of(hostname, suffix)[fqdn_of(hostname, suffix).len() - 1] == DOT,
        is_lower(fqdn_of(hostname, suffix)),
{
    lemma_lower_bytes_add(hostname + normalized_suffix(suffix), seq![DOT]);
    lemma_lower_bytes_add(hostname, normalized_suffix(suffix));
    assert(lower_bytes(seq![DOT]) =~= seq![DOT]);
    assert(fqdn_of(hostname, suffix) == lower_bytes(hostname)
        + lower_bytes(normalized_suffix(suffix)) + seq![DOT]);
}

/// A wildcard never matches its own root: the apex of a pattern is not a
/// strict subdomain of it.
pub proof fn lemma_wildcard_apex_excluded(p: Seq<u8>)
    ensures
        !wildcard_covers(p, wildcard_root(p)),
{
}

/// What the lease-derived pattern matches: exactly the strict suffix
/// extensions of the fqdn with its trailing dots collapsed to one.
pub proof fn lemma_lease_wildcard_covers(fqdn: Seq<u8>, target: Seq<u8>)
    ensures
        wildcard_covers(wildcard_pattern_of(fqdn), target) == strict_suffix_match(
            target,
            strip_trailing_dots(fqdn) + seq![DOT],
        ),
{
    let p = wildcard_pattern_of(fqdn);
    assert(p[0] == STAR && p[1] == DOT);
    assert(wildcard_root(p) =~= strip_trailing_dots(fqdn) + seq![DOT]);
}

} // verus!
