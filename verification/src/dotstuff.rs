//! Dot-stuffing for DATA-mode body transmission: the client doubles any dot
//! that begins a line, the server strips one leading dot per line.
use vstd::prelude::*;

verus! {

pub const CR: u8 = 13;

pub const LF: u8 = 10;

pub const DOT: u8 = 46;

/// Client-side stuffing with the last two transmitted input bytes as state:
/// a dot right after a CRLF pair gets a second dot appended. The state is
/// seeded as if a CRLF had just been sent, so a leading dot is stuffed too.
pub open spec fn stuff_from(s: Seq<u8>, p1: u8, p2: u8) -> Seq<u8>
    decreases s.len(),
{
    if s.len() == 0 {
        Seq::empty()
    } else {
        let c = s[0];
        let head: Seq<u8> = if p1 == CR && p2 == LF && c == DOT {
            seq![c, DOT]
        } else {
            seq![c]
        };
        head + stuff_from(s.drop_first(), p2, c)
    }
}

/// Server-side unstuffing with a beginning-of-line flag as state: one dot at
/// the start of a line is dropped; a line ends after each LF.
pub open spec fn unstuff_from(s: Seq<u8>, bol: bool) -> Seq<u8>
    decreases s.len(),
{
    if s.len() == 0 {
        Seq::empty()
    } else {
        let c = s[0];
        if bol && c == DOT {
            unstuff_from(s.drop_first(), false)
        } else {
            seq![c] + unstuff_from(s.drop_first(), c == LF)
        }
    }
}

/// Every line feed in `s` directly follows a carriage return, where `prev`
/// is the byte that came just before `s`.
pub open spec fn crlf_only(s: Seq<u8>, prev: u8) -> bool
    decreases s.len(),
{
    s.len() == 0 || ((s[0] == LF ==> prev == CR) && crlf_only(s.drop_first(), s[0]))
}

/// What the client sends for a body: the stuffing transform, seeded at a
/// line start.
pub open spec fn dot_stuff_spec(s: Seq<u8>) -> Seq<u8> {
    stuff_from(s, CR, LF)
}

/// What the server reassembles from stuffed wire bytes.
pub open spec fn dot_unstuff_spec(s: Seq<u8>) -> Seq<u8> {
    unstuff_from(s, true)
}

/// Stuffs a body for DATA-mode transmission.
pub fn client_dot_stuff(data: &[u8]) -> (r: Vec<u8>)
    ensures
        r@ == dot_stuff_spec(data@),
{
    let n = data.len();
    let mut out: Vec<u8> = Vec::new();
    let mut p1: u8 = CR;
    let mut p2: u8 = LF;
    let mut i: usize = 0;
    proof {
        assert(data@.skip(0) =~= data@);
    }
    while i < n
        invariant
            i <= n == data@.len(),
            dot_stuff_spec(data@) == out@ + stuff_from(data@.skip(i as int), p1, p2),
        decreases n - i,
    {
        proof {
            assert(data@.skip(i as int).drop_first() =~= data@.skip(i as int + 1));
        }
        let c = data[i];
        out.push(c);
        if p1 == CR && p2 == LF && c == DOT {
            out.push(DOT);
        }
        p1 = p2;
        p2 = c;
        i = i + 1;
    }
    proof {
        assert(stuff_from(data@.skip(n as int), p1, p2) =~= Seq::<u8>::empty());
        assert(out@ =~= out@ + stuff_from(data@.skip(n as int), p1, p2));
    }
    out
}

/// Reverses dot-stuffing on reassembled wire bytes.
pub fn server_dot_unstuff(data: &[u8]) -> (r: Vec<u8>)
    ensures
        r@ == dot_unstuff_spec(data@),
{
    let n = data.len();
    let mut out: Vec<u8> = Vec::new();
    let mut bol = true;
    let mut i: usize = 0;
    proof {
        assert(data@.skip(0) =~= data@);
    }
    while i < n
        invariant
            i <= n == data@.len(),
            dot_unstuff_spec(data@) == out@ + unstuff_from(data@.skip(i as int), bol),
        decreases n - i,
    {
        proof {
            assert(data@.skip(i as int).drop_first() =~= data@.skip(i as int + 1));
        }
        let c = data[i];
        if bol && c == DOT {
            bol = false;
        } else {
            out.push(c);
            bol = c == LF;
        }
        i = i + 1;
    }
    proof {
        assert(unstuff_from(data@.skip(n as int), bol) =~= Seq::<u8>::empty());
        assert(out@ =~= out@ + unstuff_from(data@.skip(n as int), bol));
    }
    out
}

/// The stuffing round trip, generalized over the running state: as long as
/// line feeds only occur in CRLF pairs, unstuffing undoes stuffing.
proof fn lemma_round_trip_from(s: Seq<u8>, p1: u8, p2: u8)
    requires
        crlf_only(s, p2),
    ensures
        unstuff_from(stuff_from(s, p1, p2), p1 == CR && p2 == LF) == s,
    decreases s.len(),
{
    if s.len() == 0 {
        assert(s =~= Seq::<u8>::empty());
    } else {
        let c = s[0];
        let tail = s.drop_first();
        lemma_round_trip_from(tail, p2, c);
        let rec = stuff_from(tail, p2, c);
        if p1 == CR && p2 == LF && c == DOT {
            let stuffed = seq![c, DOT] + rec;
            assert(stuff_from(s, p1, p2) == stuffed);
            assert(stuffed.len() > 0 && stuffed[0] == DOT);
            let mid = seq![DOT] + rec;
            assert(stuffed.drop_first() =~= mid);
            assert(unstuff_from(stuffed, true) == unstuff_from(mid, false));
            assert(mid.len() > 0 && mid[0] == DOT);
            assert(mid.drop_first() =~= rec);
            assert(unstuff_from(mid, false) == seq![DOT] + unstuff_from(rec, false));
            assert(unstuff_from(rec, p2 == CR && c == LF) == tail);
            assert(p2 != CR);
            assert(seq![DOT] + tail =~= s);
        } else {
            let stuffed = seq![c] + rec;
            assert(stuff_from(s, p1, p2) == stuffed);
            assert(stuffed.len() > 0 && stuffed[0] == c);
            assert(stuffed.drop_first() =~= rec);
            assert(!((p1 == CR && p2 == LF) && c == DOT));
            assert(unstuff_from(stuffed, p1 == CR && p2 == LF) == seq![c] + unstuff_from(
                rec,
                c == LF,
            ));
            assert(unstuff_from(rec, p2 == CR && c == LF) == tail);
            assert(c == LF ==> p2 == CR);
            assert((c == LF) == (p2 == CR && c == LF));
            assert(seq![c] + tail =~= s);
        }
    }
}


/// Dot-stuffing round trip: for any body whose line feeds only occur in CRLF
/// pairs, the server's unstuffing recovers exactly what the client stuffed.
pub proof fn lemma_dot_stuff_round_trip(body: Seq<u8>)
    requires
        crlf_only(body, LF),
    ensures
        dot_unstuff_spec(dot_stuff_spec(body)) == body,
{
    lemma_round_trip_from(body, CR, LF);
}

} // verus!
