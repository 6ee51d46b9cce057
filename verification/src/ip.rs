//! Addresses of mail exchangers as plain values, and the textual IPv4
//! literal grammar for recipients whose domain is an address itself.
use vstd::prelude::*;
use vstd::string::StrSliceExecFns;
use crate::codec::digit_val;
use crate::server::{all_digits, dec_val};

verus! {

/// One IP address as a plain value: a 32-bit or a 128-bit quantity.
#[derive(Debug, PartialEq, Eq, Structural, Clone, Copy)]
pub enum IpAddress {
    V4(u32),
    V6(u128),
}

impl IpAddress {
    /// Whether this is an IPv6 address.
    pub open spec fn is_v6_spec(&self) -> bool {
        self is V6
    }

    /// Whether this is an IPv6 address.
    pub fn is_v6(&self) -> (r: bool)
        ensures
            r == self.is_v6_spec(),
    {
        match self {
            IpAddress::V6(_) => true,
            IpAddress::V4(_) => false,
        }
    }
}

/// The pieces of `s` between occurrences of `c`; empty pieces are kept, and
/// the empty string is one empty piece.
pub open spec fn split_on(s: Seq<char>, c: char) -> Seq<Seq<char>>
    decreases s.len(),
{
    if s.len() == 0 {
        seq![Seq::<char>::empty()]
    } else if s[0] == c {
        seq![Seq::<char>::empty()] + split_on(s.drop_first(), c)
    } else {
        let rest = split_on(s.drop_first(), c);
        seq![seq![s[0]] + rest[0]] + rest.drop_first()
    }
}

proof fn lemma_split_on_nonempty(s: Seq<char>, c: char)
    ensures
        split_on(s, c).len() >= 1,
    decreases s.len(),
{
    if s.len() > 0 && s[0] != c {
        lemma_split_on_nonempty(s.drop_first(), c);
    }
}

/// A run without the separator up to the end of the string is the one and
/// only remaining piece.
proof fn lemma_split_on_last(s: Seq<char>, c: char, p: int)
    requires
        0 <= p <= s.len(),
        forall|i: int| p <= i < s.len() ==> s[i] != c,
    ensures
        split_on(s.skip(p), c) == seq![s.subrange(p, s.len() as int)],
    decreases s.len() - p,
{
    let t = s.skip(p);
    if p == s.len() {
        assert(t =~= Seq::<char>::empty());
        assert(s.subrange(p, s.len() as int) =~= Seq::<char>::empty());
    } else {
        assert(t[0] == s[p] && s[p] != c);
        assert(t.drop_first() =~= s.skip(p + 1));
        lemma_split_on_last(s, c, p + 1);
        assert(seq![t[0]] + s.subrange(p + 1, s.len() as int) =~= s.subrange(p, s.len() as int));
        assert(split_on(t, c) =~= seq![s.subrange(p, s.len() as int)]);
    }
}

/// A run without the separator up to an occurrence of it contributes one
/// piece, and splitting continues after the separator.
proof fn lemma_split_on_piece(s: Seq<char>, c: char, p: int, q: int)
    requires
        0 <= p <= q < s.len(),
        forall|i: int| p <= i < q ==> s[i] != c,
        s[q] == c,
    ensures
        split_on(s.skip(p), c) == seq![s.subrange(p, q)] + split_on(s.skip(q + 1), c),
    decreases q - p,
{
    let t = s.skip(p);
    if p == q {
        assert(t[0] == c);
        assert(t.drop_first() =~= s.skip(p + 1));
        assert(s.subrange(p, q) =~= Seq::<char>::empty());
        assert(split_on(t, c) =~= seq![s.subrange(p, q)] + split_on(s.skip(q + 1), c));
    } else {
        assert(t[0] == s[p] && s[p] != c);
        assert(t.drop_first() =~= s.skip(p + 1));
        lemma_split_on_piece(s, c, p + 1, q);
        lemma_split_on_nonempty(s.skip(p + 1), c);
        let rest = split_on(s.skip(p + 1), c);
        assert(rest[0] == s.subrange(p + 1, q));
        assert(seq![t[0]] + s.subrange(p + 1, q) =~= s.subrange(p, q));
        assert(rest.drop_first() =~= (seq![s.subrange(p + 1, q)] + split_on(
            s.skip(q + 1),
            c,
        )).drop_first());
        assert(split_on(t, c) =~= seq![s.subrange(p, q)] + split_on(s.skip(q + 1), c));
    }
}

/// One decimal octet of a dotted quad: one to three digits, value at most
/// 255.
pub open spec fn is_octet(t: Seq<char>) -> bool {
    all_digits(t) && t.len() <= 3 && dec_val(t) <= 255
}

/// The IPv4 dotted-quad grammar: four decimal octets joined by dots.
pub open spec fn ipv4_literal(s: Seq<char>) -> Option<u32> {
    let parts = split_on(s, '.');
    if parts.len() == 4 && is_octet(parts[0]) && is_octet(parts[1]) && is_octet(parts[2])
        && is_octet(parts[3]) {
        Some(
            (dec_val(parts[0]) * 0x1000000 + dec_val(parts[1]) * 0x10000 + dec_val(parts[2])
                * 0x100 + dec_val(parts[3])) as u32,
        )
    } else {
        None
    }
}

/// Reads one octet's digits from `s` between `from` and `to`.
fn read_octet(s: &str, from: usize, to: usize) -> (r: Option<u32>)
    requires
        from <= to <= s@.len(),
    ensures
        match r {
            Some(v) => is_octet(s@.subrange(from as int, to as int)) && v == dec_val(
                s@.subrange(from as int, to as int),
            ),
            None => !is_octet(s@.subrange(from as int, to as int)),
        },
{
    let ghost t = s@.subrange(from as int, to as int);
    if to - from < 1 || to - from > 3 {
        return None;
    }
    let mut acc: u32 = 0;
    let mut i = from;
    proof {
        assert(t.take(0) =~= Seq::<char>::empty());
    }
    while i < to
        invariant
            from <= i <= to <= s@.len(),
            to - from <= 3,
            t == s@.subrange(from as int, to as int),
            forall|j: int| 0 <= j < i - from ==> digit_val(#[trigger] t[j]) >= 0,
            acc == dec_val(t.take(i - from)),
            i - from == 0 ==> acc == 0,
            i - from == 1 ==> acc <= 9,
            i - from == 2 ==> acc <= 99,
            i - from == 3 ==> acc <= 999,
        decreases to - i,
    {
        let c = s.get_char(i);
        let d = crate::codec::char_digit(c);
        proof {
            assert(t[i - from] == s@[i as int]);
        }
        if d < 0 {
            return None;
        }
        proof {
            assert(t.take(i - from + 1).drop_last() =~= t.take(i - from));
            assert(t.take(i - from + 1).last() == t[i - from]);
        }
        acc = acc * 10 + (d as u32);
        i = i + 1;
    }
    proof {
        assert(t.take(to - from) =~= t);
    }
    if acc > 255 {
        return None;
    }
    Some(acc)
}

/// Position of the first dot in `s` at or after `p`, or `n` when there is
/// none.
fn scan_dot(s: &str, p: usize, n: usize) -> (r: usize)
    requires
        p <= n == s@.len(),
    ensures
        p <= r <= n,
        r < n ==> s@[r as int] == '.',
        forall|i: int| p <= i < r ==> s@[i] != '.',
{
    let mut j: usize = p;
    while j < n
        invariant
            p <= j <= n == s@.len(),
            forall|i: int| p <= i < j ==> s@[i] != '.',
        decreases n - j,
    {
        if s.get_char(j) == '.' {
            return j;
        }
        j = j + 1;
    }
    n
}

/// Parses a dotted-quad IPv4 literal, exactly when the text matches the
/// grammar.
pub fn parse_ipv4(s: &str) -> (r: Option<u32>)
    ensures
        r == ipv4_literal(s@),
{
    let n = s.unicode_len();
    let q0 = scan_dot(s, 0, n);
    proof {
        assert(s@.skip(0) =~= s@);
    }
    if q0 == n {
        proof {
            lemma_split_on_last(s@, '.', 0);
        }
        return None;
    }
    let q1 = scan_dot(s, q0 + 1, n);
    proof {
        lemma_split_on_piece(s@, '.', 0, q0 as int);
    }
    if q1 == n {
        proof {
            lemma_split_on_last(s@, '.', q0 as int + 1);
        }
        return None;
    }
    let q2 = scan_dot(s, q1 + 1, n);
    proof {
        lemma_split_on_piece(s@, '.', q0 as int + 1, q1 as int);
    }
    if q2 == n {
        proof {
            lemma_split_on_last(s@, '.', q1 as int + 1);
        }
        return None;
    }
    let q3 = scan_dot(s, q2 + 1, n);
    proof {
        lemma_split_on_piece(s@, '.', q1 as int + 1, q2 as int);
    }
    if q3 < n {
        proof {
            lemma_split_on_piece(s@, '.', q2 as int + 1, q3 as int);
            lemma_split_on_nonempty(s@.skip(q3 as int + 1), '.');
        }
        return None;
    }
    proof {
        lemma_split_on_last(s@, '.', q2 as int + 1);
        assert(split_on(s@, '.') =~= seq![
            s@.subrange(0, q0 as int),
            s@.subrange(q0 as int + 1, q1 as int),
            s@.subrange(q1 as int + 1, q2 as int),
            s@.subrange(q2 as int + 1, s@.len() as int),
        ]);
    }
    let o0 = read_octet(s, 0, q0);
    let o1 = read_octet(s, q0 + 1, q1);
    let o2 = read_octet(s, q1 + 1, q2);
    let o3 = read_octet(s, q2 + 1, n);
    match (o0, o1, o2, o3) {
        (Some(a), Some(b), Some(c), Some(d)) => Some(
            a * 0x1000000 + b * 0x10000 + c * 0x100 + d,
        ),
        _ => None,
    }
}

/// The value of a hexadecimal digit in either case, or -1.
pub open spec fn hex_digit_val(c: char) -> int {
    if '0' <= c && c <= '9' {
        c as int - '0' as int
    } else if 'a' <= c && c <= 'f' {
        c as int - 'a' as int + 10
    } else if 'A' <= c && c <= 'F' {
        c as int - 'A' as int + 10
    } else {
        -1
    }
}

/// One 16-bit group of an IPv6 literal: one to four hexadecimal digits.
pub open spec fn is_h16(t: Seq<char>) -> bool {
    1 <= t.len() <= 4 && forall|i: int| 0 <= i < t.len() ==> hex_digit_val(#[trigger] t[i]) >= 0
}

/// The value of a group's hexadecimal digits.
pub open spec fn h16_val(t: Seq<char>) -> int
    decreases t.len(),
{
    if t.len() == 0 {
        0
    } else {
        h16_val(t.drop_last()) * 16 + hex_digit_val(t.last())
    }
}

/// Every piece is a valid group.
pub open spec fn all_h16(parts: Seq<Seq<char>>) -> bool {
    forall|i: int| 0 <= i < parts.len() ==> is_h16(#[trigger] parts[i])
}

/// The group values of a piece list.
pub open spec fn group_vals(parts: Seq<Seq<char>>) -> Seq<int> {
    Seq::new(parts.len(), |i: int| h16_val(parts[i]))
}

/// A run of zero groups.
pub open spec fn zero_groups(k: int) -> Seq<int> {
    Seq::new(k as nat, |i: int| 0)
}

/// Eight 16-bit groups folded into one value, most significant first.
pub open spec fn v6_fold(g: Seq<int>) -> int
    decreases g.len(),
{
    if g.len() == 0 {
        0
    } else {
        v6_fold(g.drop_last()) * 0x10000 + g.last()
    }
}

/// The textual IPv6 grammar over the colon-separated pieces: eight groups,
/// or a single `::` standing for at least one zero group at the front, the
/// back, in the middle, or for the whole address.
pub open spec fn ipv6_literal(s: Seq<char>) -> Option<u128> {
    let parts = split_on(s, ':');
    let n = parts.len() as int;
    if forall|i: int| 0 <= i < n ==> (#[trigger] parts[i]).len() > 0 {
        if n == 8 && all_h16(parts) {
            Some(v6_fold(group_vals(parts)) as u128)
        } else {
            None
        }
    } else if n == 3 && parts[0].len() == 0 && parts[1].len() == 0 && parts[2].len() == 0 {
        Some(0)
    } else if n >= 3 && parts[0].len() == 0 && parts[1].len() == 0 && (forall|i: int|
        2 <= i < n ==> (#[trigger] parts[i]).len() > 0) {
        let tail = parts.skip(2);
        if n - 2 <= 7 && all_h16(tail) {
            Some(v6_fold(zero_groups(8 - (n - 2)) + group_vals(tail)) as u128)
        } else {
            None
        }
    } else if n >= 3 && parts[n - 1].len() == 0 && parts[n - 2].len() == 0 && (forall|i: int|
        0 <= i < n - 2 ==> (#[trigger] parts[i]).len() > 0) {
        let head = parts.take(n - 2);
        if n - 2 <= 7 && all_h16(head) {
            Some(v6_fold(group_vals(head) + zero_groups(8 - (n - 2))) as u128)
        } else {
            None
        }
    } else if n <= 8 && (exists|m: int|
        0 < m < n - 1 && (#[trigger] parts[m]).len() == 0 && (forall|i: int|
            0 <= i < n && i != m ==> parts[i].len() > 0)) {
        let m = choose|m: int|
            0 < m < n - 1 && (#[trigger] parts[m]).len() == 0 && (forall|i: int|
                0 <= i < n && i != m ==> parts[i].len() > 0);
        let head = parts.take(m);
        let tail = parts.skip(m + 1);
        if all_h16(head) && all_h16(tail) {
            Some(v6_fold(group_vals(head) + zero_groups(8 - (n - 1)) + group_vals(tail)) as u128)
        } else {
            None
        }
    } else {
        None
    }
}

/// What a recipient domain denotes when it is an IP literal: a dotted-quad
/// IPv4 address or a textual IPv6 address.
pub open spec fn ip_literal(s: Seq<char>) -> Option<IpAddress> {
    if ipv4_literal(s) is Some {
        Some(IpAddress::V4(ipv4_literal(s)->Some_0))
    } else if ipv6_literal(s) is Some {
        Some(IpAddress::V6(ipv6_literal(s)->Some_0))
    } else {
        None
    }
}

/// The value of a hexadecimal digit, executable form.
fn hex_digit(c: char) -> (r: i32)
    ensures
        r == hex_digit_val(c),
{
    let v = c as u32;
    if 48 <= v && v <= 57 {
        (v - 48) as i32
    } else if 97 <= v && v <= 102 {
        (v - 97 + 10) as i32
    } else if 65 <= v && v <= 70 {
        (v - 65 + 10) as i32
    } else {
        -1
    }
}

/// Reads one 16-bit group from `s` between `from` and `to`.
fn read_h16(s: &str, from: usize, to: usize) -> (r: Option<u32>)
    requires
        from <= to <= s@.len(),
    ensures
        match r {
            Some(v) => is_h16(s@.subrange(from as int, to as int)) && v == h16_val(
                s@.subrange(from as int, to as int),
            ) && v < 0x10000,
            None => !is_h16(s@.subrange(from as int, to as int)),
        },
{
    let ghost t = s@.subrange(from as int, to as int);
    if to - from < 1 || to - from > 4 {
        return None;
    }
    let mut acc: u32 = 0;
    let mut i = from;
    proof {
        assert(t.take(0) =~= Seq::<char>::empty());
    }
    while i < to
        invariant
            from <= i <= to <= s@.len(),
            to - from <= 4,
            t == s@.subrange(from as int, to as int),
            forall|j: int| 0 <= j < i - from ==> hex_digit_val(#[trigger] t[j]) >= 0,
            acc == h16_val(t.take(i - from)),
            i - from == 0 ==> acc == 0,
            i - from == 1 ==> acc <= 0xf,
            i - from == 2 ==> acc <= 0xff,
            i - from == 3 ==> acc <= 0xfff,
            i - from == 4 ==> acc <= 0xffff,
        decreases to - i,
    {
        let c = s.get_char(i);
        let d = hex_digit(c);
        proof {
            assert(t[i - from] == s@[i as int]);
        }
        if d < 0 {
            return None;
        }
        proof {
            assert(t.take(i - from + 1).drop_last() =~= t.take(i - from));
            assert(t.take(i - from + 1).last() == t[i - from]);
        }
        acc = acc * 16 + (d as u32);
        i = i + 1;
    }
    proof {
        assert(t.take(to - from) =~= t);
    }
    Some(acc)
}

/// Position of the first colon in `s` at or after `p`, or `n` when there is
/// none.
fn scan_colon(s: &str, p: usize, n: usize) -> (r: usize)
    requires
        p <= n == s@.len(),
    ensures
        p <= r <= n,
        r < n ==> s@[r as int] == ':',
        forall|i: int| p <= i < r ==> s@[i] != ':',
{
    let mut j: usize = p;
    while j < n
        invariant
            p <= j <= n == s@.len(),
            forall|i: int| p <= i < j ==> s@[i] != ':',
        decreases n - j,
    {
        if s.get_char(j) == ':' {
            return j;
        }
        j = j + 1;
    }
    n
}

/// Folds already-validated group values into the address, most significant
/// group first.
fn fold_groups(vals: &Vec<u32>) -> (r: u128)
    requires
        vals@.len() == 8,
        forall|i: int| 0 <= i < 8 ==> #[trigger] vals@[i] < 0x10000,
    ensures
        r == v6_fold(vals@.map_values(|v: u32| v as int)),
{
    let ghost g = vals@.map_values(|v: u32| v as int);
    let mut acc: u128 = 0;
    let mut i: usize = 0;
    proof {
        assert(g.take(0) =~= Seq::<int>::empty());
    }
    while i < 8
        invariant
            i <= 8,
            vals@.len() == 8,
            forall|j: int| 0 <= j < 8 ==> #[trigger] vals@[j] < 0x10000,
            g == vals@.map_values(|v: u32| v as int),
            acc == v6_fold(g.take(i as int)),
            i == 0 ==> acc == 0,
            i == 1 ==> acc < 0x10000,
            i == 2 ==> acc < 0x1_0000_0000,
            i == 3 ==> acc < 0x1_0000_0000_0000,
            i == 4 ==> acc < 0x1_0000_0000_0000_0000,
            i == 5 ==> acc < 0x1_0000_0000_0000_0000_0000,
            i == 6 ==> acc < 0x1_0000_0000_0000_0000_0000_0000,
            i == 7 ==> acc < 0x1_0000_0000_0000_0000_0000_0000_0000,
            i == 8 ==> acc <= 0xffff_ffff_ffff_ffff_ffff_ffff_ffff_ffff,
        decreases 8 - i,
    {
        let v = vals[i];
        proof {
            assert(g.take(i as int + 1).drop_last() =~= g.take(i as int));
            assert(g.take(i as int + 1).last() == g[i as int]);
            assert(g[i as int] == vals@[i as int] as int);
        }
        acc = acc * 0x10000 + (v as u128);
        i = i + 1;
    }
    proof {
        assert(g.take(8) =~= g);
    }
    acc
}

/// Parses a textual IPv6 literal, exactly when the text matches the
/// grammar.
#[verifier::rlimit(100)]
pub fn parse_ipv6(s: &str) -> (r: Option<u128>)
    ensures
        r == ipv6_literal(s@),
{
    let n = s.unicode_len();
    let ghost parts = split_on(s@, ':');
    let mut bounds: Vec<(usize, usize)> = Vec::new();
    let mut p: usize = 0;
    let mut fin = false;
    proof {
        assert(s@.skip(0) =~= s@);
    }
    while !fin
        invariant
            p <= n == s@.len(),
            parts == split_on(s@, ':'),
            !fin ==> parts =~= Seq::new(bounds@.len(), |i: int| s@.subrange(
                bounds@[i].0 as int,
                bounds@[i].1 as int,
            )) + split_on(s@.skip(p as int), ':'),
            fin ==> parts =~= Seq::new(bounds@.len(), |i: int| s@.subrange(
                bounds@[i].0 as int,
                bounds@[i].1 as int,
            )),
            forall|i: int| 0 <= i < bounds@.len() ==> (#[trigger] bounds@[i]).0 <= bounds@[i].1
                <= n,
        decreases n - p + 1 - (if fin { 1int } else { 0int }),
    {
        let q = scan_colon(s, p, n);
        let ghost before = Seq::new(bounds@.len(), |i: int| s@.subrange(
            bounds@[i].0 as int,
            bounds@[i].1 as int,
        ));
        bounds.push((p, q));
        proof {
            let after = Seq::new(bounds@.len(), |i: int| s@.subrange(
                bounds@[i].0 as int,
                bounds@[i].1 as int,
            ));
            assert(after =~= before.push(s@.subrange(p as int, q as int)));
            if q < n {
                lemma_split_on_piece(s@, ':', p as int, q as int);
            } else {
                lemma_split_on_last(s@, ':', p as int);
            }
        }
        if q < n {
            p = q + 1;
        } else {
            fin = true;
            proof {
                assert(parts =~= Seq::new(bounds@.len(), |i: int| s@.subrange(
                    bounds@[i].0 as int,
                    bounds@[i].1 as int,
                )));
            }
        }
    }
    let count = bounds.len();
    proof {
        assert(parts.len() == count);
        assert forall|i: int| 0 <= i < count implies parts[i] == s@.subrange(
            bounds@[i].0 as int,
            bounds@[i].1 as int,
        ) by {}
    }
    let mut empties: Vec<usize> = Vec::new();
    let mut i: usize = 0;
    while i < count
        invariant
            i <= count == bounds@.len(),
            parts.len() == count,
            forall|j: int| 0 <= j < count ==> parts[j] == s@.subrange(
                (#[trigger] bounds@[j]).0 as int,
                bounds@[j].1 as int,
            ),
            forall|j: int| 0 <= j < count ==> (#[trigger] bounds@[j]).0 <= bounds@[j].1
                <= s@.len(),
            forall|k: int| 0 <= k < empties@.len() ==> #[trigger] empties@[k] < i,
            forall|k: int| 0 <= k < empties@.len() ==> parts[empties@[k] as int].len() == 0,
            forall|k: int| 0 <= k < empties@.len() - 1 ==> #[trigger] empties@[k] < empties@[k
                + 1],
            forall|j: int|
                0 <= j < i ==> (parts[j].len() == 0 <==> exists|k: int|
                    0 <= k < empties@.len() && empties@[k] == j),
        decreases count - i,
    {
        let (a, b) = bounds[i];
        let ghost pre = empties@;
        proof {
            assert(parts[i as int] == s@.subrange(a as int, b as int));
            assert(parts[i as int].len() == b - a);
        }
        if a == b {
            empties.push(i);
        }
        proof {
            assert forall|j: int|
                0 <= j < i + 1 implies (parts[j].len() == 0 <==> exists|k: int|
                0 <= k < empties@.len() && empties@[k] == j) by {
                if j == i {
                    if parts[j].len() == 0 {
                        assert(empties@[empties@.len() - 1] == j);
                    } else {
                        assert forall|k: int| 0 <= k < empties@.len() implies empties@[k]
                            != j by {
                            assert(empties@[k] < i);
                        }
                    }
                } else {
                    if parts[j].len() == 0 {
                        let k = choose|k: int| 0 <= k < pre.len() && pre[k] == j;
                        assert(empties@[k] == j);
                    } else {
                        assert forall|k: int| 0 <= k < empties@.len() implies empties@[k]
                            != j by {
                            if k < pre.len() {
                                assert(pre[k] != j);
                            } else {
                                assert(empties@[k] == i);
                            }
                        }
                    }
                }
            }
        }
        i = i + 1;
    }
    let ecount = empties.len();
    proof {
        assert forall|j: int|
            0 <= j < count implies (#[trigger] parts[j]).len() == bounds@[j].1
            - bounds@[j].0 by {
            assert(parts[j] == s@.subrange(bounds@[j].0 as int, bounds@[j].1 as int));
        }
    }
    if ecount == 0 {
        proof {
            assert forall|j: int| 0 <= j < count implies (#[trigger] parts[j]).len() > 0 by {
                if parts[j].len() == 0 {
                    let k = choose|k: int| 0 <= k < empties@.len() && empties@[k] == j;
                }
            }
        }
        if count != 8 {
            return None;
        }
        let mut vals: Vec<u32> = Vec::new();
        let mut i: usize = 0;
        while i < 8
            invariant
                i <= 8,
                count == 8 == bounds@.len(),
                parts.len() == 8,
                parts == split_on(s@, ':'),
                forall|j: int| 0 <= j < count ==> (#[trigger] parts[j]).len() > 0,
                forall|j: int| 0 <= j < count ==> parts[j] == s@.subrange(
                    (#[trigger] bounds@[j]).0 as int,
                    bounds@[j].1 as int,
                ),
                forall|j: int| 0 <= j < count ==> (#[trigger] bounds@[j]).0 <= bounds@[j].1
                    <= s@.len(),
                vals@.len() == i,
                forall|j: int| 0 <= j < i ==> is_h16(#[trigger] parts[j]),
                forall|j: int| 0 <= j < i ==> #[trigger] vals@[j] < 0x10000,
                forall|j: int| 0 <= j < i ==> #[trigger] vals@[j] as int == h16_val(parts[j]),
            decreases 8 - i,
        {
            let (a, b) = bounds[i];
            match read_h16(s, a, b) {
                Some(v) => {
                    vals.push(v);
                },
                None => {
                    proof {
                        assert(!is_h16(parts[i as int]));
                    }
                    return None;
                },
            }
            i = i + 1;
        }
        let r = fold_groups(&vals);
        proof {
            assert(all_h16(parts));
            assert(vals@.map_values(|v: u32| v as int) =~= group_vals(parts));
            assert(0 <= v6_fold(group_vals(parts)));
        }
        return Some(r);
    }
    proof {
        assert(parts[empties@[0] as int].len() == 0);
        assert(!(forall|j: int| 0 <= j < count ==> (#[trigger] parts[j]).len() > 0));
    }
    if ecount == 3 && count == 3 {
        proof {
            assert(parts[0].len() == 0 && parts[1].len() == 0 && parts[2].len() == 0) by {
                assert(empties@[0] < empties@[1] < empties@[2] < 3);
                assert(empties@[0] == 0 && empties@[1] == 1 && empties@[2] == 2);
            }
        }
        return Some(0);
    }
    let first_empty = {
        let (a, b) = bounds[0];
        a == b
    };
    let second_empty = count >= 2 && {
        let (a, b) = bounds[1];
        a == b
    };
    let last_empty = {
        let (a, b) = bounds[count - 1];
        a == b
    };
    let penult_empty = count >= 2 && {
        let (a, b) = bounds[count - 2];
        a == b
    };
    if count >= 3 && first_empty && second_empty && ecount == 2 {
        // leading compression: the two empty pieces are the first two
        proof {
            assert(!(count == 3 && parts[0].len() == 0 && parts[1].len() == 0 && parts[2].len()
                == 0)) by {
                if count == 3 && parts[2].len() == 0 {
                    let k = choose|k: int| 0 <= k < empties@.len() && empties@[k] == 2;
                    assert(empties@[0] < empties@[1]);
                    assert(empties@[k] <= 1);
                }
            }
            assert forall|i: int| 2 <= i < count implies (#[trigger] parts[i]).len() > 0 by {
                if parts[i].len() == 0 {
                    let k = choose|k: int| 0 <= k < empties@.len() && empties@[k] == i;
                    let k0 = choose|k0: int| 0 <= k0 < empties@.len() && empties@[k0] == 0;
                    let k1 = choose|k1: int| 0 <= k1 < empties@.len() && empties@[k1] == 1;
                    assert(k0 != k1 && k0 != k && k1 != k);
                }
            }
        }
        let groups_n = count - 2;
        if groups_n > 7 {
            return None;
        }
        let mut vals: Vec<u32> = Vec::new();
        let zeros = 8 - groups_n;
        let mut z: usize = 0;
        while z < zeros
            invariant
                z <= zeros,
                vals@.len() == z,
                forall|j: int| 0 <= j < z ==> #[trigger] vals@[j] == 0,
            decreases zeros - z,
        {
            vals.push(0);
            z = z + 1;
        }
        let ghost zv = vals@;
        let ok = read_groups_into(s, &bounds, 2, count, &mut vals, Ghost(parts));
        proof {
            let tail = parts.skip(2);
            assert forall|k: int| 0 <= k < tail.len() implies #[trigger] tail[k] == parts[k
                + 2] by {}
            lemma_all_h16_range(parts, 2, count as int, tail);
            assert(ok == all_h16(tail));
        }
        if !ok {
            return None;
        }
        proof {
            assert forall|j: int| 0 <= j < 8 implies #[trigger] vals@[j] < 0x10000 by {
                if j < zv.len() {
                    assert(vals@.take(zv.len() as int)[j] == vals@[j]);
                    assert(zv[j] == 0);
                } else {
                    assert(vals@[zv.len() + (j - zv.len())] < 0x10000);
                }
            }
        }
        let r = fold_groups(&vals);
        proof {
            let tail = parts.skip(2);
            let gv = vals@.map_values(|v: u32| v as int);
            assert forall|j: int|
                0 <= j < 8 implies #[trigger] gv[j] == (zero_groups(8 - (count - 2))
                + group_vals(tail))[j] by {
                if j < zv.len() {
                    assert(vals@.take(zv.len() as int)[j] == vals@[j]);
                    assert(zv[j] == 0);
                } else {
                    assert(vals@[zv.len() + (j - zv.len())] as int == h16_val(parts[2 + (j
                        - zv.len())]));
                    assert(tail[j - zv.len()] == parts[2 + (j - zv.len())]);
                }
            }
            assert(vals@.map_values(|v: u32| v as int) =~= zero_groups(8 - (count - 2))
                + group_vals(tail));
            assert(0 <= v6_fold(zero_groups(8 - (count - 2)) + group_vals(tail)));
        }
        return Some(r);
    }
    if count >= 3 && last_empty && penult_empty && ecount == 2 {
        // trailing compression: the two empty pieces are the last two
        proof {
            assert forall|i: int| 0 <= i < count - 2 implies (#[trigger] parts[i]).len() > 0 by {
                if parts[i].len() == 0 {
                    let k = choose|k: int| 0 <= k < empties@.len() && empties@[k] == i;
                    let k0 = choose|k0: int|
                        0 <= k0 < empties@.len() && empties@[k0] == count - 2;
                    let k1 = choose|k1: int|
                        0 <= k1 < empties@.len() && empties@[k1] == count - 1;
                    assert(k0 != k1 && k0 != k && k1 != k);
                }
            }
            assert(parts[0].len() > 0);
        }
        let groups_n = count - 2;
        if groups_n > 7 {
            return None;
        }
        let mut vals: Vec<u32> = Vec::new();
        let ok = read_groups_into(s, &bounds, 0, count - 2, &mut vals, Ghost(parts));
        proof {
            let head = parts.take(count - 2);
            assert forall|k: int| 0 <= k < head.len() implies #[trigger] head[k]
                == parts[k] by {}
            lemma_all_h16_range(parts, 0, count - 2, head);
            assert(ok == all_h16(head));
        }
        if !ok {
            return None;
        }
        let zeros = 8 - groups_n;
        let mut z: usize = 0;
        let ghost mid = vals@;
        proof {
            assert forall|k: int|
                0 <= k < mid.len() implies #[trigger] mid[k] < 0x10000 && mid[k] as int
                == h16_val(parts[k]) by {
                assert(vals@[0 + k] < 0x10000 && vals@[0 + k] as int == h16_val(parts[0 + k]));
            }
        }
        while z < zeros
            invariant
                z <= zeros,
                vals@.len() == mid.len() + z,
                vals@.take(mid.len() as int) == mid,
                forall|j: int| mid.len() <= j < vals@.len() ==> #[trigger] vals@[j] == 0,
            decreases zeros - z,
        {
            vals.push(0);
            proof {
                assert(vals@.take(mid.len() as int) =~= mid);
            }
            z = z + 1;
        }
        proof {
            assert forall|j: int| 0 <= j < mid.len() implies #[trigger] vals@[j] == mid[j] by {
                assert(vals@.take(mid.len() as int)[j] == vals@[j]);
            }
            assert forall|j: int| 0 <= j < 8 implies #[trigger] vals@[j] < 0x10000 by {
                if j < mid.len() {
                    assert(mid[j] < 0x10000);
                }
            }
        }
        let r = fold_groups(&vals);
        proof {
            let head = parts.take(count - 2);
            let gv = vals@.map_values(|v: u32| v as int);
            assert forall|j: int|
                0 <= j < 8 implies #[trigger] gv[j] == (group_vals(head) + zero_groups(
                8 - (count - 2),
            ))[j] by {
                if j < mid.len() {
                    assert(vals@[j] == mid[j]);
                    assert(mid[j] as int == h16_val(parts[j]));
                    assert(head[j] == parts[j]);
                }
            }
            assert(vals@.map_values(|v: u32| v as int) =~= group_vals(head) + zero_groups(
                8 - (count - 2),
            ));
            assert(0 <= v6_fold(group_vals(head) + zero_groups(8 - (count - 2))));
        }
        return Some(r);
    }
    if ecount == 1 && count <= 8 {
        let m = empties[0];
        if 0 < m && m < count - 1 {
            // one empty piece strictly inside: the middle compression
            proof {
                assert forall|i: int|
                    0 <= i < count && i != m implies parts[i].len() > 0 by {
                    if parts[i].len() == 0 {
                        let k = choose|k: int| 0 <= k < empties@.len() && empties@[k] == i;
                        assert(k == 0);
                    }
                }
                assert(0 < m as int && (m as int) < count - 1 && parts[m as int].len() == 0 && (
                forall|i: int| 0 <= i < count && i != m as int ==> parts[i].len() > 0));
                let m2 = choose|m2: int|
                    0 < m2 < count - 1 && (#[trigger] parts[m2]).len() == 0 && (forall|i: int|
                        0 <= i < count && i != m2 ==> parts[i].len() > 0);
                assert(m2 == m as int) by {
                    if m2 != m as int {
                        assert(parts[m2].len() > 0);
                    }
                }
                assert(parts[0].len() > 0);
                assert(parts[count - 1].len() > 0);
            }
            let mut vals: Vec<u32> = Vec::new();
            let ok_head = read_groups_into(s, &bounds, 0, m, &mut vals, Ghost(parts));
            proof {
                let head = parts.take(m as int);
                assert forall|k: int| 0 <= k < head.len() implies #[trigger] head[k]
                    == parts[k] by {}
                lemma_all_h16_range(parts, 0, m as int, head);
                assert(ok_head == all_h16(head));
            }
            if !ok_head {
                return None;
            }
            let zeros = 8 - (count - 1);
            let mut z: usize = 0;
            let ghost mid = vals@;
            proof {
                assert forall|k: int|
                    0 <= k < mid.len() implies #[trigger] mid[k] < 0x10000 && mid[k] as int
                    == h16_val(parts[k]) by {
                    assert(vals@[0 + k] < 0x10000 && vals@[0 + k] as int == h16_val(
                        parts[0 + k],
                    ));
                }
            }
            while z < zeros
                invariant
                    z <= zeros,
                    vals@.len() == mid.len() + z,
                    vals@.take(mid.len() as int) == mid,
                    forall|j: int| mid.len() <= j < vals@.len() ==> #[trigger] vals@[j] == 0,
                decreases zeros - z,
            {
                vals.push(0);
                proof {
                    assert(vals@.take(mid.len() as int) =~= mid);
                }
                z = z + 1;
            }
            let ghost mid2 = vals@;
            let ok_tail = read_groups_into(s, &bounds, m + 1, count, &mut vals, Ghost(parts));
            proof {
                let tail = parts.skip(m as int + 1);
                assert forall|k: int| 0 <= k < tail.len() implies #[trigger] tail[k] == parts[k
                    + m + 1] by {}
                lemma_all_h16_range(parts, m as int + 1, count as int, tail);
                assert(ok_tail == all_h16(tail));
            }
            if !ok_tail {
                return None;
            }
            proof {
                assert forall|j: int|
                    0 <= j < mid2.len() implies #[trigger] vals@[j] == mid2[j] by {
                    assert(vals@.take(mid2.len() as int)[j] == vals@[j]);
                }
                assert forall|j: int| 0 <= j < mid.len() implies #[trigger] mid2[j]
                    == mid[j] by {
                    assert(mid2.take(mid.len() as int)[j] == mid2[j]);
                }
                assert forall|j: int| 0 <= j < 8 implies #[trigger] vals@[j] < 0x10000 by {
                    if j < mid.len() {
                        assert(vals@[j] == mid2[j] && mid2[j] == mid[j]);
                        assert(mid[j] < 0x10000);
                    } else if j < mid2.len() {
                        assert(vals@[j] == mid2[j] && mid2[j] == 0);
                    } else {
                        assert(vals@[mid2.len() + (j - mid2.len())] < 0x10000);
                    }
                }
            }
            let r = fold_groups(&vals);
            proof {
                let head = parts.take(m as int);
                let tail = parts.skip(m as int + 1);
                let gv = vals@.map_values(|v: u32| v as int);
                assert forall|j: int|
                    0 <= j < 8 implies #[trigger] gv[j] == (group_vals(head) + zero_groups(
                    8 - (count - 1),
                ) + group_vals(tail))[j] by {
                    if j < m as int {
                        assert(vals@[j] == mid2[j] && mid2[j] == mid[j]);
                        assert(mid[j] as int == h16_val(parts[j]));
                        assert(head[j] == parts[j]);
                    } else if j < mid2.len() {
                        assert(vals@[j] == mid2[j] && mid2[j] == 0);
                    } else {
                        assert(vals@[mid2.len() + (j - mid2.len())] as int == h16_val(
                            parts[(m as int + 1) + (j - mid2.len())],
                        ));
                        assert(tail[j - mid2.len()] == parts[(m as int + 1) + (j
                            - mid2.len())]);
                    }
                }
                assert(vals@.map_values(|v: u32| v as int) =~= group_vals(head) + zero_groups(
                    8 - (count - 1),
                ) + group_vals(tail));
                assert(0 <= v6_fold(group_vals(head) + zero_groups(8 - (count - 1))
                    + group_vals(tail)));
            }
            return Some(r);
        }
    }
    proof {
        lemma_v6_no_case(parts, empties@);
    }
    None
}

/// With the empty pieces known exactly and none of the compressed shapes
/// matching, no grammar case applies.
proof fn lemma_v6_no_case(parts: Seq<Seq<char>>, empties: Seq<usize>)
    requires
        empties.len() >= 1,
        forall|k: int| 0 <= k < empties.len() ==> #[trigger] empties[k] < parts.len(),
        forall|k: int| 0 <= k < empties.len() ==> parts[empties[k] as int].len() == 0,
        forall|k: int| 0 <= k < empties.len() - 1 ==> #[trigger] empties[k] < empties[k + 1],
        forall|j: int|
            0 <= j < parts.len() ==> (parts[j].len() == 0 <==> exists|k: int|
                0 <= k < empties.len() && empties[k] == j),
        !(empties.len() == 3 && parts.len() == 3),
        !(parts.len() >= 3 && parts[0].len() == 0 && parts[1].len() == 0 && empties.len() == 2),
        !(parts.len() >= 3 && parts[parts.len() - 1].len() == 0 && parts[parts.len() - 2].len()
            == 0 && empties.len() == 2),
        !(empties.len() == 1 && 0 < empties[0] && (empties[0] as int) < parts.len() - 1
            && parts.len() <= 8),
    ensures
        !(parts.len() == 3 && parts[0].len() == 0 && parts[1].len() == 0 && parts[2].len() == 0),
        parts.len() >= 3 && parts[0].len() == 0 && parts[1].len() == 0 ==> !(forall|i: int|
            2 <= i < parts.len() ==> (#[trigger] parts[i]).len() > 0),
        parts.len() >= 3 && parts[parts.len() - 1].len() == 0 && parts[parts.len() - 2].len()
            == 0 ==> !(forall|i: int|
            0 <= i < parts.len() - 2 ==> (#[trigger] parts[i]).len() > 0),
        parts.len() <= 8 ==> !(exists|m: int|
            0 < m < parts.len() - 1 && (#[trigger] parts[m]).len() == 0 && (forall|i: int|
                0 <= i < parts.len() && i != m ==> parts[i].len() > 0)),
{
    let n = parts.len() as int;
    if n == 3 && parts[0].len() == 0 && parts[1].len() == 0 && parts[2].len() == 0 {
        let k0 = choose|k: int| 0 <= k < empties.len() && empties[k] == 0;
        let k1 = choose|k: int| 0 <= k < empties.len() && empties[k] == 1;
        let k2 = choose|k: int| 0 <= k < empties.len() && empties[k] == 2;
        assert(k0 != k1 && k0 != k2 && k1 != k2);
        assert(empties.len() >= 3);
        assert(empties.len() <= parts.len());
        assert(false);
    }
    if n >= 3 && parts[0].len() == 0 && parts[1].len() == 0 && (forall|i: int|
        2 <= i < n ==> (#[trigger] parts[i]).len() > 0) {
        let k0 = choose|k: int| 0 <= k < empties.len() && empties[k] == 0;
        let k1 = choose|k: int| 0 <= k < empties.len() && empties[k] == 1;
        assert(k0 != k1);
        assert(empties.len() >= 2);
        assert forall|k: int| 0 <= k < empties.len() implies #[trigger] empties[k] <= 1 by {
            if empties[k] >= 2 {
                assert(parts[empties[k] as int].len() == 0);
            }
        }
        if empties.len() >= 3 {
            assert(empties[0] < empties[1] < empties[2]);
            assert(false);
        }
        assert(false);
    }
    if n >= 3 && parts[n - 1].len() == 0 && parts[n - 2].len() == 0 && (forall|i: int|
        0 <= i < n - 2 ==> (#[trigger] parts[i]).len() > 0) {
        let k0 = choose|k: int| 0 <= k < empties.len() && empties[k] as int == n - 2;
        let k1 = choose|k: int| 0 <= k < empties.len() && empties[k] as int == n - 1;
        assert(k0 != k1);
        assert(empties.len() >= 2);
        assert forall|k: int| 0 <= k < empties.len() implies #[trigger] empties[k] as int >= n
            - 2 by {
            if (empties[k] as int) < n - 2 {
                assert(parts[empties[k] as int].len() == 0);
            }
        }
        if empties.len() >= 3 {
            assert(empties[0] < empties[1] < empties[2]);
            assert(false);
        }
        assert(false);
    }
    if n <= 8 && (exists|m: int|
        0 < m < n - 1 && (#[trigger] parts[m]).len() == 0 && (forall|i: int|
            0 <= i < n && i != m ==> parts[i].len() > 0)) {
        let m = choose|m: int|
            0 < m < n - 1 && (#[trigger] parts[m]).len() == 0 && (forall|i: int|
                0 <= i < n && i != m ==> parts[i].len() > 0);
        assert forall|k: int| 0 <= k < empties.len() implies #[trigger] empties[k] as int
            == m by {
            if empties[k] as int != m {
                assert(parts[empties[k] as int].len() == 0);
            }
        }
        if empties.len() >= 2 {
            assert(empties[0] < empties[1]);
            assert(false);
        }
        assert(empties[0] as int == m);
        assert(false);
    }
}

/// A contiguous stretch of pieces is all groups exactly when its
/// re-indexed copy is.
proof fn lemma_all_h16_range(parts: Seq<Seq<char>>, from: int, to: int, sub: Seq<Seq<char>>)
    requires
        0 <= from <= to <= parts.len(),
        sub.len() == to - from,
        forall|k: int| 0 <= k < sub.len() ==> #[trigger] sub[k] == parts[from + k],
    ensures
        (forall|j: int| from <= j < to ==> is_h16(#[trigger] parts[j])) <==> all_h16(sub),
{
    if forall|j: int| from <= j < to ==> is_h16(#[trigger] parts[j]) {
        assert forall|k: int| 0 <= k < sub.len() implies is_h16(#[trigger] sub[k]) by {
            assert(sub[k] == parts[from + k]);
            assert(is_h16(parts[from + k]));
        }
    }
    if all_h16(sub) {
        assert forall|j: int| from <= j < to implies is_h16(#[trigger] parts[j]) by {
            assert(sub[j - from] == parts[j]);
            assert(is_h16(sub[j - from]));
        }
    }
}

/// Reads the pieces between `from` and `to` as 16-bit groups, appending
/// their values; reports whether every piece was a valid group.
fn read_groups_into(
    s: &str,
    bounds: &Vec<(usize, usize)>,
    from: usize,
    to: usize,
    vals: &mut Vec<u32>,
    Ghost(parts): Ghost<Seq<Seq<char>>>,
) -> (ok: bool)
    requires
        from <= to <= bounds@.len(),
        parts.len() == bounds@.len(),
        forall|j: int|
            0 <= j < bounds@.len() ==> parts[j] == s@.subrange(
                (#[trigger] bounds@[j]).0 as int,
                bounds@[j].1 as int,
            ),
        forall|j: int|
            0 <= j < bounds@.len() ==> (#[trigger] bounds@[j]).0 <= bounds@[j].1 <= s@.len(),
    ensures
        ok == (forall|j: int| from <= j < to ==> is_h16(#[trigger] parts[j])),
        ok ==> {
            &&& final(vals)@.len() == old(vals)@.len() + (to - from)
            &&& final(vals)@.take(old(vals)@.len() as int) == old(vals)@
            &&& forall|k: int|
                0 <= k < to - from ==> (#[trigger] final(vals)@[old(vals)@.len() + k]) as int
                    == h16_val(parts[from + k]) && final(vals)@[old(vals)@.len() + k] < 0x10000
        },
{
    let ghost base = vals@;
    let mut j = from;
    while j < to
        invariant
            from <= j <= to <= bounds@.len(),
            parts.len() == bounds@.len(),
            forall|t: int|
                0 <= t < bounds@.len() ==> parts[t] == s@.subrange(
                    (#[trigger] bounds@[t]).0 as int,
                    bounds@[t].1 as int,
                ),
            forall|t: int|
                0 <= t < bounds@.len() ==> (#[trigger] bounds@[t]).0 <= bounds@[t].1 <= s@.len(),
            vals@.len() == base.len() + (j - from),
            vals@.take(base.len() as int) == base,
            forall|t: int| from <= t < j ==> is_h16(#[trigger] parts[t]),
            forall|k: int|
                0 <= k < j - from ==> (#[trigger] vals@[base.len() + k]) as int == h16_val(
                    parts[from + k],
                ) && vals@[base.len() + k] < 0x10000,
        decreases to - j,
    {
        let (a, b) = bounds[j];
        match read_h16(s, a, b) {
            Some(v) => {
                vals.push(v);
                proof {
                    assert(vals@.take(base.len() as int) =~= base);
                }
            },
            None => {
                proof {
                    assert(!is_h16(parts[j as int]));
                }
                return false;
            },
        }
        j = j + 1;
    }
    true
}

/// Parses a recipient domain as an IP literal: a dotted-quad IPv4 address
/// or a textual IPv6 address.
pub fn parse_ip_literal(s: &str) -> (r: Option<IpAddress>)
    ensures
        r == ip_literal(s@),
{
    match parse_ipv4(s) {
        Some(v) => Some(IpAddress::V4(v)),
        None => match parse_ipv6(s) {
            Some(w) => Some(IpAddress::V6(w)),
            None => None,
        },
    }
}

} // verus!
