//! Mail addresses: single mailboxes, address groups, and the operations the
//! relay needs on them.
use vstd::prelude::*;
use vstd::string::StrSliceExecFns;

verus! {

/// One mailbox: an optional display name and the bare address.
#[derive(Debug)]
pub struct MailAddress {
    pub display_name: Option<String>,
    pub addr: String,
}

/// One entry of an address header: a single mailbox or a named group.
#[derive(Debug)]
pub enum AddrEntry {
    Single(MailAddress),
    Group(String, Vec<MailAddress>),
}

impl MailAddress {
    /// Two mailboxes with the same text are the same mailbox.
    pub open spec fn eq_spec(&self, other: &MailAddress) -> bool {
        &&& self.addr@ == other.addr@
        &&& match (&self.display_name, &other.display_name) {
            (Some(a), Some(b)) => a@ == b@,
            (None, None) => true,
            _ => false,
        }
    }

    /// An exact copy.
    pub fn duplicate(&self) -> (r: MailAddress)
        ensures
            r.eq_spec(self),
    {
        MailAddress {
            display_name: match &self.display_name {
                Some(d) => Some(d.clone()),
                None => None,
            },
            addr: self.addr.clone(),
        }
    }
}

/// The mailboxes of a header entry list, groups flattened in place.
pub open spec fn flatten_entries(s: Seq<AddrEntry>) -> Seq<MailAddress>
    decreases s.len(),
{
    if s.len() == 0 {
        Seq::empty()
    } else {
        (match s[0] {
            AddrEntry::Single(a) => seq![a],
            AddrEntry::Group(_, addrs) => addrs@,
        }) + flatten_entries(s.drop_first())
    }
}

/// Flattens address entries into the mailboxes they contain, in order.
pub fn flatten_addr_entries(entries: &Vec<AddrEntry>) -> (r: Vec<MailAddress>)
    ensures
        r@.len() == flatten_entries(entries@).len(),
        forall|i: int| 0 <= i < r@.len() ==> r@[i].eq_spec(&flatten_entries(entries@)[i]),
{
    let n = entries.len();
    let mut out: Vec<MailAddress> = Vec::new();
    let mut i: usize = 0;
    proof {
        assert(entries@.skip(0) =~= entries@);
    }
    while i < n
        invariant
            i <= n == entries@.len(),
            flatten_entries(entries@).len() == out@.len() + flatten_entries(
                entries@.skip(i as int),
            ).len(),
            forall|j: int| 0 <= j < out@.len() ==> out@[j].eq_spec(
                &flatten_entries(entries@)[j],
            ),
            flatten_entries(entries@) == flatten_entries(entries@).take(out@.len() as int)
                + flatten_entries(entries@.skip(i as int)),
        decreases n - i,
    {
        let ghost rest = entries@.skip(i as int);
        let ghost pre = out@;
        proof {
            assert(rest.drop_first() =~= entries@.skip(i as int + 1));
        }
        match &entries[i] {
            AddrEntry::Single(a) => {
                out.push(a.duplicate());
            },
            AddrEntry::Group(_, addrs) => {
                let ghost base = out@;
                let m = addrs.len();
                let mut k: usize = 0;
                while k < m
                    invariant
                        k <= m == addrs@.len(),
                        out@.len() == base.len() + k,
                        forall|j: int| 0 <= j < base.len() ==> out@[j] == base[j],
                        forall|j: int| 0 <= j < k ==> out@[base.len() + j].eq_spec(&addrs@[j]),
                    decreases m - k,
                {
                    out.push(addrs[k].duplicate());
                    k = k + 1;
                }
            },
        }
        proof {
            let full = flatten_entries(entries@);
            let head: Seq<MailAddress> = match rest[0] {
                AddrEntry::Single(a) => seq![a],
                AddrEntry::Group(_, addrs) => addrs@,
            };
            assert(flatten_entries(rest) == head + flatten_entries(entries@.skip(i as int + 1)));
            assert(rest[0] == entries@[i as int]);
            assert(out@.len() == pre.len() + head.len());
            assert forall|j: int| pre.len() <= j < out@.len() implies out@[j].eq_spec(
                &head[j - pre.len()],
            ) by {}
            assert(full =~= full.take(out@.len() as int) + flatten_entries(
                entries@.skip(i as int + 1),
            )) by {
                assert(full == full.take(pre.len() as int) + flatten_entries(rest));
                assert forall|j: int| 0 <= j < full.len() implies full[j] == (full.take(
                    out@.len() as int,
                ) + flatten_entries(entries@.skip(i as int + 1)))[j] by {
                    assert(full[j] == (full.take(pre.len() as int) + flatten_entries(rest))[j]);
                }
            }
            assert forall|j: int| 0 <= j < out@.len() implies out@[j].eq_spec(&full[j]) by {
                if j < pre.len() {
                    assert(out@[j] == pre[j]);
                    assert(pre[j].eq_spec(&full[j]));
                } else {
                    assert(full[j] == (full.take(pre.len() as int) + flatten_entries(rest))[j]);
                    assert(full[j] == flatten_entries(rest)[j - pre.len()]);
                    assert(flatten_entries(rest)[j - pre.len()] == head[j - pre.len()]);
                    assert(out@[j].eq_spec(&head[j - pre.len()]));
                }
            }
        }
        i = i + 1;
    }
    proof {
        assert(flatten_entries(entries@.skip(n as int)) =~= Seq::<MailAddress>::empty());
        assert(flatten_entries(entries@).take(out@.len() as int) =~= flatten_entries(entries@));
    }
    out
}

/// The plain view of mailboxes: each as its display name text and address
/// text.
pub open spec fn mailbox_views(s: Seq<MailAddress>) -> Seq<(Option<Seq<char>>, Seq<char>)> {
    s.map_values(
        |a: MailAddress|
            (
                match a.display_name {
                    Some(d) => Some(d@),
                    None => None,
                },
                a.addr@,
            ),
    )
}

/// If an entry list holds exactly one single mailbox, that mailbox.
pub fn extract_single(entries: &Vec<AddrEntry>) -> (r: Option<MailAddress>)
    ensures
        match r {
            Some(a) => {
                &&& entries@.len() == 1
                &&& entries@[0] is Single
                &&& a.eq_spec(&entries@[0]->Single_0)
            },
            None => entries@.len() != 1 || !(entries@[0] is Single),
        },
{
    if entries.len() == 1 {
        match &entries[0] {
            AddrEntry::Single(a) => Some(a.duplicate()),
            AddrEntry::Group(_, _) => None,
        }
    } else {
        None
    }
}

/// Index of the last `@` in `s`, or -1 if there is none.
pub open spec fn find_last_at(s: Seq<char>) -> int
    decreases s.len(),
{
    if s.len() == 0 {
        -1
    } else if s[s.len() - 1] == '@' {
        s.len() - 1
    } else {
        find_last_at(s.drop_last())
    }
}

pub proof fn lemma_find_last_at(s: Seq<char>)
    ensures
        -1 <= find_last_at(s) < s.len(),
        find_last_at(s) >= 0 ==> s[find_last_at(s)] == '@',
        forall|i: int| find_last_at(s) < i < s.len() ==> s[i] != '@',
        find_last_at(s) == -1 ==> forall|i: int| 0 <= i < s.len() ==> s[i] != '@',
    decreases s.len(),
{
    if s.len() > 0 && s[s.len() - 1] != '@' {
        lemma_find_last_at(s.drop_last());
        assert forall|i: int| 0 <= i < s.len() - 1 implies s[i] == s.drop_last()[i] by {}
    }
}

/// Splits a recipient on its last `@` into local part and domain, or `None`
/// when the string holds no `@` at all.
pub fn split_address(s: &str) -> (r: Option<(String, String)>)
    ensures
        match r {
            Some(parts) => {
                &&& find_last_at(s@) >= 0
                &&& parts.0@ == s@.take(find_last_at(s@))
                &&& parts.1@ == s@.skip(find_last_at(s@) + 1)
            },
            None => find_last_at(s@) == -1,
        },
{
    let n = s.unicode_len();
    let mut i: usize = n;
    proof {
        lemma_find_last_at(s@);
    }
    while i > 0
        invariant
            i <= n == s@.len(),
            forall|j: int| i <= j < n ==> s@[j] != '@',
        decreases i,
    {
        i = i - 1;
        if s.get_char(i) == '@' {
            proof {
                lemma_find_last_at_rec(s@, i as int);
            }
            let local = s.substring_char(0, i).to_owned();
            let domain = s.substring_char(i + 1, n).to_owned();
            proof {
                assert(local@ =~= s@.take(i as int));
                assert(domain@ =~= s@.skip(i as int + 1));
            }
            return Some((local, domain));
        }
    }
    proof {
        if find_last_at(s@) >= 0 {
            assert(s@[find_last_at(s@)] == '@');
        }
    }
    None
}

/// `find_last_at` finds the last `@`: an `@` with none after it is it.
proof fn lemma_find_last_at_rec(s: Seq<char>, k: int)
    requires
        0 <= k < s.len(),
        s[k] == '@',
        forall|i: int| k < i < s.len() ==> s[i] != '@',
    ensures
        find_last_at(s) == k,
    decreases s.len(),
{
    if k < s.len() - 1 {
        lemma_find_last_at_rec(s.drop_last(), k);
        assert forall|i: int| 0 <= i < s.len() - 1 implies s[i] == s.drop_last()[i] by {}
    }
}

} // verus!
