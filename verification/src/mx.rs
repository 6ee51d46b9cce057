//! MX target planning: recipient splitting, target ordering by preference
//! then address family, and batching of recipients that share an MX set.
use vstd::prelude::*;
use vstd::string::StrSliceExecFns;
use crate::address::find_last_at;
use crate::client::Address;
use crate::ip::{IpAddress, ip_literal, parse_ip_literal};

verus! {

/// One concrete mail exchanger endpoint: its address and the host name used
/// for TLS identity.
#[derive(Debug)]
pub struct MXAddress {
    pub address: IpAddress,
    pub domain: String,
}

/// One MX record with the addresses its exchange resolved to, in DNS return
/// order.
#[derive(Debug)]
pub struct MxRecord {
    pub preference: u16,
    pub exchange: String,
    pub ips: Vec<IpAddress>,
}

/// One recipient with its resolved MX targets and its position in the
/// caller's list.
#[derive(Debug)]
pub struct ForwardPath {
    pub index: usize,
    pub address: Address,
    pub mx_addresses: Vec<MXAddress>,
}

/// One batch of recipients sharing an identical MX target sequence.
#[derive(Debug)]
pub struct ForwardPaths {
    pub addresses: Vec<(usize, Address)>,
    pub mx_addresses: Vec<MXAddress>,
}

/// Two MX targets name the same endpoint.
pub open spec fn mx_eq_spec(a: &MXAddress, b: &MXAddress) -> bool {
    a.address == b.address && a.domain@ == b.domain@
}

/// Two MX target sequences are equal endpoint by endpoint, in order.
#[verifier::opaque]
pub open spec fn mx_seq_eq(a: Seq<MXAddress>, b: Seq<MXAddress>) -> bool {
    a.len() == b.len() && forall|i: int| 0 <= i < a.len() ==> mx_eq_spec(&a[i], &b[i])
}

/// Compares two MX target sequences.
pub fn mx_list_eq(a: &Vec<MXAddress>, b: &Vec<MXAddress>) -> (r: bool)
    ensures
        r == mx_seq_eq(a@, b@),
{
    proof {
        reveal(mx_seq_eq);
    }
    let n = a.len();
    if n != b.len() {
        proof {
            reveal(mx_seq_eq);
        }
        return false;
    }
    let mut i: usize = 0;
    while i < n
        invariant
            i <= n == a@.len(),
            n == b@.len(),
            forall|j: int| 0 <= j < i ==> mx_eq_spec(&a@[j], &b@[j]),
        decreases n - i,
    {
        let same_addr = a[i].address == b[i].address;
        if !same_addr || !crate::codec::str_eq(a[i].domain.as_str(), b[i].domain.as_str()) {
            proof {
                reveal(mx_seq_eq);
            }
            return false;
        }
        i = i + 1;
    }
    proof {
        reveal(mx_seq_eq);
    }
    true
}

/// Inserting one record after every record of no greater preference: the
/// stable insertion the preference sort uses.
pub open spec fn insert_stable(x: MxRecord, s: Seq<MxRecord>) -> Seq<MxRecord>
    decreases s.len(),
{
    if s.len() == 0 {
        seq![x]
    } else if s[0].preference <= x.preference {
        seq![s[0]] + insert_stable(x, s.drop_first())
    } else {
        seq![x] + s
    }
}

/// The stable sort of MX records ascending by preference: records of equal
/// preference keep their order.
pub open spec fn sort_by_preference(s: Seq<MxRecord>) -> Seq<MxRecord>
    decreases s.len(),
{
    if s.len() == 0 {
        Seq::empty()
    } else {
        insert_stable(s.last(), sort_by_preference(s.drop_last()))
    }
}

/// Ascending preference, pairwise.
pub open spec fn sorted_by_pref(s: Seq<MxRecord>) -> bool {
    forall|i: int, j: int| 0 <= i < j < s.len() ==> s[i].preference <= s[j].preference
}

/// Stable insertion lands exactly at the first index whose preference is
/// greater.
proof fn lemma_insert_at(x: MxRecord, s: Seq<MxRecord>, m: int)
    requires
        0 <= m <= s.len(),
        forall|j: int| 0 <= j < m ==> s[j].preference <= x.preference,
        m < s.len() ==> s[m].preference > x.preference,
    ensures
        insert_stable(x, s) == s.take(m) + seq![x] + s.skip(m),
    decreases m,
{
    if m == 0 {
        if s.len() == 0 {
            assert(s.take(0) + seq![x] + s.skip(0) =~= seq![x]);
        } else {
            assert(s.take(0) + seq![x] + s.skip(0) =~= seq![x] + s);
        }
    } else {
        lemma_insert_at(x, s.drop_first(), m - 1);
        assert(s.drop_first().take(m - 1) =~= s.take(m).drop_first());
        assert(s.drop_first().skip(m - 1) =~= s.skip(m));
        assert(seq![s[0]] + (s.drop_first().take(m - 1) + seq![x] + s.drop_first().skip(m - 1))
            =~= s.take(m) + seq![x] + s.skip(m));
    }
}

/// Stable insertion into a sorted sequence keeps it sorted.
proof fn lemma_insert_sorted(x: MxRecord, s: Seq<MxRecord>)
    requires
        sorted_by_pref(s),
    ensures
        sorted_by_pref(insert_stable(x, s)),
    decreases s.len(),
{
    if s.len() > 0 && s[0].preference <= x.preference {
        lemma_insert_sorted(x, s.drop_first());
        let r = seq![s[0]] + insert_stable(x, s.drop_first());
        assert forall|i: int, j: int| 0 <= i < j < r.len() implies r[i].preference
            <= r[j].preference by {
            if i > 0 {
                assert(r[i] == insert_stable(x, s.drop_first())[i - 1]);
                assert(r[j] == insert_stable(x, s.drop_first())[j - 1]);
            } else {
                assert(r[j] == insert_stable(x, s.drop_first())[j - 1]);
                lemma_insert_members(x, s.drop_first(), j - 1);
            }
        }
    }
}

/// Every element of a stable insertion is the inserted one or one of the
/// original sequence.
proof fn lemma_insert_members(x: MxRecord, s: Seq<MxRecord>, i: int)
    requires
        0 <= i < insert_stable(x, s).len(),
    ensures
        insert_stable(x, s)[i] == x || exists|j: int|
            0 <= j < s.len() && insert_stable(x, s)[i] == s[j],
    decreases s.len(),
{
    if s.len() > 0 && s[0].preference <= x.preference {
        if i > 0 {
            lemma_insert_members(x, s.drop_first(), i - 1);
            if insert_stable(x, s.drop_first())[i - 1] != x {
                let j = choose|j: int|
                    0 <= j < s.drop_first().len() && insert_stable(x, s.drop_first())[i - 1]
                        == s.drop_first()[j];
                assert(insert_stable(x, s)[i] == s[j + 1]);
            }
        } else {
            assert(insert_stable(x, s)[0] == s[0]);
        }
    }
}

/// The preference sort leaves a sorted sequence.
pub proof fn lemma_sort_sorted(s: Seq<MxRecord>)
    ensures
        sorted_by_pref(sort_by_preference(s)),
    decreases s.len(),
{
    if s.len() > 0 {
        lemma_sort_sorted(s.drop_last());
        lemma_insert_sorted(s.last(), sort_by_preference(s.drop_last()));
    }
}

/// The position of the first record with greater preference, where a stable
/// insertion lands.
fn find_insert_pos(out: &Vec<MxRecord>, pref: u16) -> (r: usize)
    ensures
        r <= out@.len(),
        forall|j: int| 0 <= j < r ==> out@[j].preference <= pref,
        r < out@.len() ==> out@[r as int].preference > pref,
{
    let m = out.len();
    let mut k: usize = 0;
    while k < m
        invariant
            k <= m == out@.len(),
            forall|j: int| 0 <= j < k ==> out@[j].preference <= pref,
        decreases m - k,
    {
        if out[k].preference > pref {
            return k;
        }
        k = k + 1;
    }
    m
}

/// Sorts MX records ascending by preference, stably: records of equal
/// preference keep their received order.
pub fn stable_sort_mx(records: Vec<MxRecord>) -> (r: Vec<MxRecord>)
    ensures
        r@ == sort_by_preference(records@),
{
    let ghost orig = records@;
    let mut rest = records;
    let mut out: Vec<MxRecord> = Vec::new();
    let mut i: usize = 0;
    let n = rest.len();
    proof {
        assert(orig.take(0) =~= Seq::<MxRecord>::empty());
    }
    while i < n
        invariant
            i <= n == orig.len(),
            rest@.len() == n - i,
            forall|j: int| 0 <= j < rest@.len() ==> rest@[j] == orig[j + i],
            out@ == sort_by_preference(orig.take(i as int)),
        decreases n - i,
    {
        let x = rest.remove(0);
        proof {
            assert(x == orig[i as int]);
            assert forall|j: int| 0 <= j < rest@.len() implies rest@[j] == orig[j + i + 1] by {}
        }
        let k = find_insert_pos(&out, x.preference);
        let ghost pre = out@;
        let ghost kk = k as int;
        out.insert(k, x);
        proof {
            assert(orig.take(i as int + 1).drop_last() =~= orig.take(i as int));
            assert(orig.take(i as int + 1).last() == orig[i as int]);
            lemma_insert_at(x, pre, kk);
            assert(out@ =~= pre.take(kk) + seq![x] + pre.skip(kk));
        }
        i = i + 1;
    }
    proof {
        assert(orig.take(n as int) =~= orig);
    }
    out
}

/// Trailing dots removed from an exchange host name.
pub open spec fn strip_dots(s: Seq<char>) -> Seq<char>
    decreases s.len(),
{
    if s.len() > 0 && s[s.len() - 1] == '.' {
        strip_dots(s.drop_last())
    } else {
        s
    }
}

/// Strips trailing dots from an exchange host name.
pub fn strip_trailing_dots(s: &str) -> (r: String)
    ensures
        r@ == strip_dots(s@),
{
    let n = s.unicode_len();
    let k = trailing_dots_start(s, n);
    let r = s.substring_char(0, k).to_owned();
    proof {
        lemma_strip_prefix(s@, k as int);
        assert(r@ =~= s@.take(k as int));
    }
    r
}

/// Where the trailing run of dots begins, or the length when there is none.
fn trailing_dots_start(s: &str, n: usize) -> (r: usize)
    requires
        n == s@.len(),
    ensures
        r <= n,
        forall|j: int| r <= j < n ==> s@[j] == '.',
        r > 0 ==> s@[r - 1] != '.',
{
    let mut k: usize = n;
    while k > 0
        invariant
            k <= n == s@.len(),
            forall|j: int| k <= j < n ==> s@[j] == '.',
        decreases k,
    {
        if s.get_char(k - 1) != '.' {
            return k;
        }
        k = k - 1;
    }
    0
}

/// When everything from `k` on is dots and the character before `k` is not,
/// stripping yields the first `k` characters.
proof fn lemma_strip_prefix(s: Seq<char>, k: int)
    requires
        0 <= k <= s.len(),
        forall|j: int| k <= j < s.len() ==> s[j] == '.',
        k > 0 ==> s[k - 1] != '.',
    ensures
        strip_dots(s) == s.take(k),
    decreases s.len(),
{
    if s.len() == 0 {
        assert(s.take(0) =~= s);
    } else if k == s.len() {
        assert(s[s.len() - 1] != '.');
        assert(s.take(k) =~= s);
    } else {
        assert(s[s.len() - 1] == '.');
        lemma_strip_prefix(s.drop_last(), k);
        assert forall|j: int| 0 <= j < s.len() - 1 implies s.drop_last()[j] == s[j] by {}
        assert(s.drop_last().take(k) =~= s.take(k));
    }
}

/// A spec-level view of one target: its address and host name text.
pub open spec fn mx_view(m: MXAddress) -> (IpAddress, Seq<char>) {
    (m.address, m.domain@)
}

/// The spec-level views of a target sequence.
pub open spec fn mx_views(s: Seq<MXAddress>) -> Seq<(IpAddress, Seq<char>)> {
    s.map_values(|m: MXAddress| mx_view(m))
}

/// The targets one sorted record list expands to: every address of every
/// record, record order kept, DNS return order kept within a record, the
/// exchange name stripped of trailing dots.
pub open spec fn expand_records(rs: Seq<MxRecord>) -> Seq<(IpAddress, Seq<char>)>
    decreases rs.len(),
{
    if rs.len() == 0 {
        Seq::empty()
    } else {
        Seq::new(rs[0].ips@.len(), |i: int| (rs[0].ips@[i], strip_dots(rs[0].exchange@)))
            + expand_records(rs.drop_first())
    }
}

/// Expands sorted MX records into concrete targets.
pub fn expand_mx(records: &Vec<MxRecord>) -> (r: Vec<MXAddress>)
    ensures
        r@.map_values(|m: MXAddress| mx_view(m)) == expand_records(records@),
{
    let n = records.len();
    let mut out: Vec<MXAddress> = Vec::new();
    let mut i: usize = 0;
    proof {
        assert(records@.skip(0) =~= records@);
        assert(out@.map_values(|m: MXAddress| mx_view(m)) + expand_records(records@.skip(0))
            =~= expand_records(records@));
    }
    while i < n
        invariant
            i <= n == records@.len(),
            expand_records(records@) == out@.map_values(|m: MXAddress| mx_view(m))
                + expand_records(records@.skip(i as int)),
        decreases n - i,
    {
        let ghost rest = records@.skip(i as int);
        proof {
            assert(rest.drop_first() =~= records@.skip(i as int + 1));
            assert(rest[0] == records@[i as int]);
        }
        let stripped = strip_trailing_dots(records[i].exchange.as_str());
        let m = records[i].ips.len();
        let ghost base = out@;
        let mut k: usize = 0;
        while k < m
            invariant
                k <= m == records@[i as int].ips@.len(),
                i < n == records@.len(),
                out@.len() == base.len() + k,
                forall|j: int| 0 <= j < base.len() ==> out@[j] == base[j],
                stripped@ == strip_dots(records@[i as int].exchange@),
                forall|j: int|
                    0 <= j < k ==> mx_view(#[trigger] out@[base.len() + j]) == (
                    records@[i as int].ips@[j],
                    strip_dots(records@[i as int].exchange@),
                ),
            decreases m - k,
        {
            let ip = records[i].ips[k];
            out.push(MXAddress { address: ip, domain: stripped.clone() });
            k = k + 1;
        }
        proof {
            let f = |m: MXAddress| mx_view(m);
            let head = Seq::new(
                rest[0].ips@.len(),
                |j: int| (rest[0].ips@[j], strip_dots(rest[0].exchange@)),
            );
            assert forall|j: int|
                0 <= j < out@.len() implies out@.map_values(f)[j] == (base.map_values(f)
                + head)[j] by {
                if j < base.len() {
                    assert(out@[j] == base[j]);
                } else {
                    let jj = j - base.len();
                    assert(mx_view(out@[base.len() + jj]) == (
                        records@[i as int].ips@[jj],
                        strip_dots(records@[i as int].exchange@),
                    ));
                    assert(head[jj] == (rest[0].ips@[jj], strip_dots(rest[0].exchange@)));
                }
            }
            assert(out@.map_values(f) =~= base.map_values(f) + head);
            assert(out@.map_values(f) + expand_records(records@.skip(i as int + 1))
                =~= base.map_values(f) + expand_records(rest));
        }
        i = i + 1;
    }
    proof {
        assert(expand_records(records@.skip(n as int)) =~= Seq::<(IpAddress, Seq<char>)>::empty());
        assert(out@.map_values(|m: MXAddress| mx_view(m)) =~= out@.map_values(
            |m: MXAddress| mx_view(m),
        ) + expand_records(records@.skip(n as int)));
    }
    out
}

/// IPv6 targets first, IPv4 targets after, each family keeping its order:
/// the stable secondary sort applied after the preference sort.
pub open spec fn family_part(s: Seq<MXAddress>) -> Seq<MXAddress> {
    s.filter(|m: MXAddress| m.address is V6) + s.filter(|m: MXAddress| !(m.address is V6))
}

/// The family ordering law: in a family-partitioned target list no IPv4
/// target ever precedes an IPv6 target, and each family appears in exactly
/// the order the preference-sorted expansion gave it.
pub proof fn lemma_family_order(s: Seq<MXAddress>)
    ensures
        forall|i: int, j: int|
            0 <= i < j < family_part(s).len() && (#[trigger] family_part(s)[j]).address is V6
                ==> (#[trigger] family_part(s)[i]).address is V6,
        family_part(s).filter(|m: MXAddress| m.address is V6) == s.filter(
            |m: MXAddress| m.address is V6,
        ),
        family_part(s).filter(|m: MXAddress| !(m.address is V6)) == s.filter(
            |m: MXAddress| !(m.address is V6),
        ),
{
    broadcast use vstd::seq_lib::group_seq_lib_default;

    let v6 = |m: MXAddress| m.address is V6;
    let v4 = |m: MXAddress| !(m.address is V6);
    let r = family_part(s);
    let a = s.filter(v6);
    let b = s.filter(v4);
    assert forall|i: int, j: int|
        0 <= i < j < r.len() && (#[trigger] r[j]).address is V6 implies (
    #[trigger] r[i]).address is V6 by {
        if j >= a.len() {
            assert(r[j] == b[j - a.len()]);
            assert(v4(b[j - a.len()]));
        }
        if i < a.len() {
            assert(r[i] == a[i]);
            assert(v6(a[i]));
        } else {
            assert(r[i] == b[i - a.len()]);
            assert(v4(b[i - a.len()]));
            assert(r[j] == b[j - a.len()]);
            assert(v4(b[j - a.len()]));
        }
    }
    Seq::filter_distributes_over_add(a, b, v6);
    Seq::filter_distributes_over_add(a, b, v4);
    lemma_filter_all(a, v6);
    lemma_filter_none(b, v6);
    lemma_filter_none(a, v4);
    lemma_filter_all(b, v4);
    assert(r.filter(v6) =~= a);
    assert(r.filter(v4) =~= b);
}

/// Filtering keeps a sequence whose members all satisfy the predicate.
proof fn lemma_filter_all<A>(s: Seq<A>, pred: spec_fn(A) -> bool)
    requires
        forall|i: int| 0 <= i < s.len() ==> pred(#[trigger] s[i]),
    ensures
        s.filter(pred) == s,
    decreases s.len(),
{
    reveal_with_fuel(Seq::filter, 2);
    if s.len() == 0 {
        assert(s.filter(pred) =~= s);
    } else {
        lemma_filter_all(s.drop_last(), pred);
        assert(pred(s.last()));
        assert(s.filter(pred) =~= s.drop_last().push(s.last()));
        assert(s.drop_last().push(s.last()) =~= s);
    }
}

/// Filtering empties a sequence none of whose members satisfies the
/// predicate.
proof fn lemma_filter_none<A>(s: Seq<A>, pred: spec_fn(A) -> bool)
    requires
        forall|i: int| 0 <= i < s.len() ==> !pred(#[trigger] s[i]),
    ensures
        s.filter(pred) == Seq::<A>::empty(),
    decreases s.len(),
{
    reveal_with_fuel(Seq::filter, 2);
    if s.len() == 0 {
        assert(s.filter(pred) =~= Seq::<A>::empty());
    } else {
        lemma_filter_none(s.drop_last(), pred);
        assert(!pred(s.last()));
    }
}

/// Reorders targets so IPv6 precedes IPv4, both families in their given
/// order.
pub fn family_partition(targets: Vec<MXAddress>) -> (r: Vec<MXAddress>)
    ensures
        r@ == family_part(targets@),
{
    let ghost orig = targets@;
    let mut rest = targets;
    let mut sixes: Vec<MXAddress> = Vec::new();
    let mut fours: Vec<MXAddress> = Vec::new();
    let n = rest.len();
    let mut i: usize = 0;
    proof {
        assert(orig.take(0).filter(|m: MXAddress| m.address is V6) =~= Seq::<MXAddress>::empty());
        assert(orig.take(0).filter(|m: MXAddress| !(m.address is V6))
            =~= Seq::<MXAddress>::empty());
    }
    while i < n
        invariant
            i <= n == orig.len(),
            rest@.len() == n - i,
            forall|j: int| 0 <= j < rest@.len() ==> rest@[j] == orig[j + i],
            sixes@ == orig.take(i as int).filter(|m: MXAddress| m.address is V6),
            fours@ == orig.take(i as int).filter(|m: MXAddress| !(m.address is V6)),
        decreases n - i,
    {
        proof {
            reveal_with_fuel(Seq::filter, 2);
            assert(orig.take(i as int + 1).drop_last() =~= orig.take(i as int));
            assert(orig.take(i as int + 1).last() == orig[i as int]);
        }
        let x = rest.remove(0);
        proof {
            assert(x == orig[i as int]);
            assert forall|j: int| 0 <= j < rest@.len() implies rest@[j] == orig[j + i + 1] by {}
        }
        let is6 = x.address.is_v6();
        if is6 {
            sixes.push(x);
        } else {
            fours.push(x);
        }
        i = i + 1;
    }
    proof {
        assert(orig.take(n as int) =~= orig);
    }
    let mut fours = fours;
    sixes.append(&mut fours);
    sixes
}

/// An exact copy of one target.
impl MXAddress {
    /// An exact copy, endpoint for endpoint.
    pub fn duplicate(&self) -> (r: MXAddress)
        ensures
            mx_eq_spec(&r, self),
    {
        MXAddress { address: self.address, domain: self.domain.clone() }
    }
}

/// An exact copy of a target sequence.
pub fn mx_list_clone(v: &Vec<MXAddress>) -> (r: Vec<MXAddress>)
    ensures
        mx_seq_eq(r@, v@),
{
    proof {
        reveal(mx_seq_eq);
    }
    let n = v.len();
    let mut out: Vec<MXAddress> = Vec::new();
    let mut i: usize = 0;
    while i < n
        invariant
            i <= n == v@.len(),
            out@.len() == i,
            forall|j: int| 0 <= j < i ==> mx_eq_spec(&out@[j], &v@[j]),
        decreases n - i,
    {
        out.push(v[i].duplicate());
        i = i + 1;
    }
    proof {
        reveal(mx_seq_eq);
    }
    out
}

/// The caller-facing view of one batched recipient: its original position
/// and its address text.
pub open spec fn member_view(e: (usize, Address)) -> (usize, Seq<char>, Seq<char>) {
    (e.0, e.1.local_part@, e.1.domain@)
}

/// The same view taken of one input recipient.
pub open spec fn path_member_view(fp: ForwardPath) -> (usize, Seq<char>, Seq<char>) {
    (fp.index, fp.address.local_part@, fp.address.domain@)
}

/// A filtered sequence keeps at least the member that satisfies the
/// predicate.
proof fn lemma_filter_member<A>(s: Seq<A>, pred: spec_fn(A) -> bool, p: int)
    requires
        0 <= p < s.len(),
        pred(s[p]),
    ensures
        s.filter(pred).len() >= 1,
    decreases s.len(),
{
    reveal_with_fuel(Seq::filter, 2);
    if p < s.len() - 1 {
        lemma_filter_member(s.drop_last(), pred, p);
    }
}

/// Some batch's target sequence equals this recipient's.
pub open spec fn covered(groups: Seq<ForwardPaths>, fp: ForwardPath) -> bool {
    exists|g: int|
        0 <= g < groups.len() && mx_seq_eq(fp.mx_addresses@, groups[g].mx_addresses@)
}

/// The batch whose target sequence equals `mx`, if one exists yet.
fn find_rep(reps: &Vec<Vec<MXAddress>>, mx: &Vec<MXAddress>) -> (r: Option<usize>)
    ensures
        match r {
            Some(g) => g < reps@.len() && mx_seq_eq(reps@[g as int]@, mx@),
            None => forall|h: int| 0 <= h < reps@.len() ==> !mx_seq_eq((#[trigger] reps@[h])@, mx@),
        },
{
    let m = reps.len();
    let mut g: usize = 0;
    while g < m
        invariant
            g <= m == reps@.len(),
            forall|h: int| 0 <= h < g ==> !mx_seq_eq((#[trigger] reps@[h])@, mx@),
        decreases m - g,
    {
        if mx_list_eq(&reps[g], mx) {
            return Some(g);
        }
        g = g + 1;
    }
    None
}

/// Batches recipients by identical MX target sequences: one batch per
/// distinct sequence in order of first appearance; each batch holds, in
/// input order, exactly the recipients whose sequence equals its own.
pub fn group_by_mx(paths: Vec<ForwardPath>) -> (r: Vec<ForwardPaths>)
    ensures
        forall|g: int, h: int|
            0 <= g < h < r@.len() ==> !mx_seq_eq(
                (#[trigger] r@[g]).mx_addresses@,
                (#[trigger] r@[h]).mx_addresses@,
            ),
        forall|g: int|
            0 <= g < r@.len() ==> (#[trigger] r@[g]).addresses@.map_values(
                |e: (usize, Address)| member_view(e),
            ) == paths@.filter(
                |fp: ForwardPath| mx_seq_eq(fp.mx_addresses@, r@[g].mx_addresses@),
            ).map_values(|fp: ForwardPath| path_member_view(fp)),
        forall|p: int| 0 <= p < paths@.len() ==> covered(r@, #[trigger] paths@[p]),
        forall|g: int| 0 <= g < r@.len() ==> (#[trigger] r@[g]).addresses@.len() >= 1,
{
    let n = paths.len();
    let mut reps: Vec<Vec<MXAddress>> = Vec::new();
    let ghost mut wit: Seq<int> = Seq::empty();
    let mut i: usize = 0;
    while i < n
        invariant
            i <= n == paths@.len(),
            forall|g: int, h: int|
                0 <= g < h < reps@.len() ==> !mx_seq_eq((#[trigger] reps@[g])@, (
                #[trigger] reps@[h])@),
            forall|p: int|
                0 <= p < i ==> exists|g: int|
                    0 <= g < reps@.len() && mx_seq_eq(
                        (#[trigger] paths@[p]).mx_addresses@,
                        reps@[g]@,
                    ),
            wit.len() == reps@.len(),
            forall|g: int|
                0 <= g < reps@.len() ==> 0 <= #[trigger] wit[g] < i && mx_seq_eq(
                    paths@[wit[g]].mx_addresses@,
                    reps@[g]@,
                ),
        decreases n - i,
    {
        let found_at = find_rep(&reps, &paths[i].mx_addresses);
        if found_at.is_none() {
            let ghost pre = reps@;
            let rep = mx_list_clone(&paths[i].mx_addresses);
            reps.push(rep);
            proof {
                wit = wit.push(i as int);
                reveal(mx_seq_eq);
                let gi = reps@.len() - 1;
                assert(mx_seq_eq(reps@[gi]@, paths@[i as int].mx_addresses@));
                assert(mx_seq_eq(paths@[i as int].mx_addresses@, reps@[gi]@));
                assert forall|g2: int, h: int|
                    0 <= g2 < h < reps@.len() implies !mx_seq_eq((#[trigger] reps@[g2])@, (
                    #[trigger] reps@[h])@) by {
                    if h == gi {
                        assert(!mx_seq_eq(pre[g2]@, paths@[i as int].mx_addresses@));
                    }
                }
                assert forall|p: int|
                    0 <= p < i + 1 implies exists|g2: int|
                    0 <= g2 < reps@.len() && mx_seq_eq(
                        (#[trigger] paths@[p]).mx_addresses@,
                        reps@[g2]@,
                    ) by {
                    if p == i {
                        assert(mx_seq_eq(paths@[p].mx_addresses@, reps@[gi]@));
                    } else {
                        let g2 = choose|g2: int|
                            0 <= g2 < pre.len() && mx_seq_eq(paths@[p].mx_addresses@, pre[g2]@);
                        assert(mx_seq_eq(paths@[p].mx_addresses@, reps@[g2]@));
                    }
                }
            }
        } else {
            proof {
                reveal(mx_seq_eq);
                let g = found_at->Some_0;
                assert forall|p: int|
                    0 <= p < i + 1 implies exists|g2: int|
                    0 <= g2 < reps@.len() && mx_seq_eq(
                        (#[trigger] paths@[p]).mx_addresses@,
                        reps@[g2]@,
                    ) by {
                    if p == i {
                        assert(mx_seq_eq(paths@[p].mx_addresses@, reps@[g as int]@));
                    }
                }
            }
        }
        i = i + 1;
    }
    let ghost repv = reps@;
    proof {
        assert forall|p: int|
            0 <= p < paths@.len() implies exists|g2: int|
            0 <= g2 < repv.len() && mx_seq_eq((#[trigger] paths@[p]).mx_addresses@, repv[g2]@) by {
            let g2 = choose|g2: int|
                0 <= g2 < reps@.len() && mx_seq_eq(paths@[p].mx_addresses@, reps@[g2]@);
            assert(0 <= g2 < repv.len() && mx_seq_eq(paths@[p].mx_addresses@, repv[g2]@));
        }
    }
    let m = reps.len();
    let mut groups: Vec<ForwardPaths> = Vec::new();
    let mut rest = reps;
    let mut g: usize = 0;
    while g < m
        invariant
            g <= m == repv.len(),
            n == paths@.len(),
            rest@.len() == m - g,
            forall|j: int| 0 <= j < rest@.len() ==> rest@[j] == repv[j + g],
            groups@.len() == g,
            forall|h: int| 0 <= h < g ==> (#[trigger] groups@[h]).mx_addresses@ == repv[h]@,
            forall|h: int|
                0 <= h < g ==> (#[trigger] groups@[h]).addresses@.map_values(
                    |e: (usize, Address)| member_view(e),
                ) == paths@.filter(
                    |fp: ForwardPath| mx_seq_eq(fp.mx_addresses@, groups@[h].mx_addresses@),
                ).map_values(|fp: ForwardPath| path_member_view(fp)),
            forall|h: int| 0 <= h < g ==> (#[trigger] groups@[h]).addresses@.len() >= 1,
            wit.len() == repv.len(),
            forall|g2: int|
                0 <= g2 < repv.len() ==> 0 <= #[trigger] wit[g2] < paths@.len() && mx_seq_eq(
                    paths@[wit[g2]].mx_addresses@,
                    repv[g2]@,
                ),
        decreases m - g,
    {
        let rep = rest.remove(0);
        proof {
            assert(rep == repv[g as int]);
            assert forall|j: int| 0 <= j < rest@.len() implies rest@[j] == repv[j + g + 1] by {}
        }
        let ghost pred = |fp: ForwardPath| mx_seq_eq(fp.mx_addresses@, rep@);
        let mut members: Vec<(usize, Address)> = Vec::new();
        let mut p: usize = 0;
        proof {
            assert(paths@.take(0).filter(pred) =~= Seq::<ForwardPath>::empty());
            assert(members@.map_values(|e: (usize, Address)| member_view(e)) =~= paths@.take(
                0,
            ).filter(pred).map_values(|fp: ForwardPath| path_member_view(fp)));
        }
        while p < n
            invariant
                p <= n == paths@.len(),
                pred == (|fp: ForwardPath| mx_seq_eq(fp.mx_addresses@, rep@)),
                members@.map_values(|e: (usize, Address)| member_view(e)) == paths@.take(
                    p as int,
                ).filter(pred).map_values(|fp: ForwardPath| path_member_view(fp)),
            decreases n - p,
        {
            proof {
                reveal_with_fuel(Seq::filter, 2);
                assert(paths@.take(p as int + 1).drop_last() =~= paths@.take(p as int));
                assert(paths@.take(p as int + 1).last() == paths@[p as int]);
            }
            let ghost pre_m = members@;
            if mx_list_eq(&paths[p].mx_addresses, &rep) {
                members.push((paths[p].index, paths[p].address.duplicate()));
                proof {
                    assert(member_view(members@.last()) == path_member_view(paths@[p as int]));
                    assert(members@.map_values(|e: (usize, Address)| member_view(e))
                        =~= pre_m.map_values(|e: (usize, Address)| member_view(e)).push(
                        path_member_view(paths@[p as int]),
                    ));
                    assert(paths@.take(p as int + 1).filter(pred).map_values(
                        |fp: ForwardPath| path_member_view(fp),
                    ) =~= paths@.take(p as int).filter(pred).map_values(
                        |fp: ForwardPath| path_member_view(fp),
                    ).push(path_member_view(paths@[p as int])));
                }
            }
            p = p + 1;
        }
        proof {
            assert(paths@.take(n as int) =~= paths@);
            // the representative came from some recipient, so its filter is
            // inhabited and the batch cannot be empty
            let w = wit[g as int];
            assert(pred(paths@[w]));
            lemma_filter_member(paths@, pred, w);
            assert(members@.map_values(|e: (usize, Address)| member_view(e)).len()
                == paths@.filter(pred).len());
            assert(members@.len() >= 1);
        }
        groups.push(ForwardPaths { addresses: members, mx_addresses: rep });
        g = g + 1;
    }
    proof {
        assert forall|g2: int, h: int|
            0 <= g2 < h < groups@.len() implies !mx_seq_eq(
            (#[trigger] groups@[g2]).mx_addresses@,
            (#[trigger] groups@[h]).mx_addresses@,
        ) by {
            assert(!mx_seq_eq(repv[g2]@, repv[h]@));
        }
        assert forall|p: int|
            0 <= p < paths@.len() implies covered(groups@, #[trigger] paths@[p]) by {
            let g2 = choose|g2: int|
                0 <= g2 < repv.len() && mx_seq_eq(paths@[p].mx_addresses@, repv[g2]@);
            assert(0 <= g2 < groups@.len());
            assert(groups@[g2].mx_addresses@ == repv[g2]@);
            assert(mx_seq_eq(paths@[p].mx_addresses@, groups@[g2].mx_addresses@));
        }
    }
    groups
}

/// What planning decides for one recipient: an unusable address, a direct IP
/// literal target, or a domain that needs MX resolution.
pub enum RecipientPlan {
    Invalid,
    IpLiteral(Address, Vec<MXAddress>),
    NeedsMx(Address),
}

/// Splits one recipient and decides its path: no `@` is invalid; a domain
/// that is an IPv4 or IPv6 literal resolves to exactly the one target
/// naming that literal as both address and host; anything else awaits MX
/// resolution.
pub fn plan_recipient(recipient: &str) -> (r: RecipientPlan)
    ensures
        match r {
            RecipientPlan::Invalid => find_last_at(recipient@) == -1,
            RecipientPlan::IpLiteral(a, targets) => {
                &&& find_last_at(recipient@) >= 0
                &&& a.local_part@ == recipient@.take(find_last_at(recipient@))
                &&& a.domain@ == recipient@.skip(find_last_at(recipient@) + 1)
                &&& ip_literal(a.domain@) is Some
                &&& targets@.len() == 1
                &&& targets@[0].address == ip_literal(a.domain@)->Some_0
                &&& targets@[0].domain@ == a.domain@
            },
            RecipientPlan::NeedsMx(a) => {
                &&& find_last_at(recipient@) >= 0
                &&& a.local_part@ == recipient@.take(find_last_at(recipient@))
                &&& a.domain@ == recipient@.skip(find_last_at(recipient@) + 1)
                &&& ip_literal(a.domain@) is None
            },
        },
{
    let parts = match crate::address::split_address(recipient) {
        Some(p) => p,
        None => {
            return RecipientPlan::Invalid;
        },
    };
    let (local_part, domain) = parts;
    match parse_ip_literal(domain.as_str()) {
        Some(ip) => {
            let host = domain.clone();
            let mut targets: Vec<MXAddress> = Vec::new();
            targets.push(MXAddress { address: ip, domain: host });
            RecipientPlan::IpLiteral(Address { local_part, domain }, targets)
        },
        None => RecipientPlan::NeedsMx(Address { local_part, domain }),
    }
}

/// Orders resolved MX records into the final target list: ascending by
/// preference, stably, expanded to addresses, then IPv6 before IPv4.
pub fn order_mx_targets(records: Vec<MxRecord>) -> (r: Vec<MXAddress>)
    ensures
        exists|mid: Seq<MXAddress>|
            (#[trigger] mx_views(mid)) == expand_records(sort_by_preference(records@)) && r@
                == family_part(mid),
{
    let sorted = stable_sort_mx(records);
    let expanded = expand_mx(&sorted);
    let ghost mid = expanded@;
    let r = family_partition(expanded);
    proof {
        assert(mx_views(mid) == expand_records(sort_by_preference(records@)) && r@
            == family_part(mid));
    }
    r
}

/// Writes the same delivery failure into every listed slot of the result
/// vector, leaving all other slots as they are.
pub fn apply_group_outcome(
    out: &mut Vec<Result<(), crate::client::SendingError>>,
    indexes: &Vec<usize>,
    failure: &crate::client::SendingError,
)
    requires
        forall|k: int| 0 <= k < indexes@.len() ==> #[trigger] indexes@[k] < old(out)@.len(),
    ensures
        final(out)@.len() == old(out)@.len(),
        forall|j: int|
            0 <= j < final(out)@.len() ==> #[trigger] final(out)@[j] == (if exists|k: int|
                0 <= k < indexes@.len() && indexes@[k] == j {
                Err(*failure)
            } else {
                old(out)@[j]
            }),
{
    let n = indexes.len();
    let mut k: usize = 0;
    while k < n
        invariant
            k <= n == indexes@.len(),
            out@.len() == old(out)@.len(),
            forall|t: int| 0 <= t < indexes@.len() ==> #[trigger] indexes@[t] < out@.len(),
            forall|j: int|
                0 <= j < out@.len() ==> #[trigger] out@[j] == (if exists|t: int|
                    0 <= t < k && indexes@[t] == j {
                    Err(*failure)
                } else {
                    old(out)@[j]
                }),
        decreases n - k,
    {
        let idx = indexes[k];
        let e = failure.duplicate();
        out.set(idx, Err(e));
        proof {
            assert forall|j: int|
                0 <= j < out@.len() implies #[trigger] out@[j] == (if exists|t: int|
                0 <= t < k + 1 && indexes@[t] == j {
                Err(*failure)
            } else {
                old(out)@[j]
            }) by {
                if j == idx {
                    assert(indexes@[k as int] == j);
                } else if (exists|t: int| 0 <= t < k && indexes@[t] == j) {
                    let t = choose|t: int| 0 <= t < k && indexes@[t] == j;
                    assert(0 <= t < k + 1 && indexes@[t] == j);
                }
            }
        }
        k = k + 1;
    }
}

} // verus!
