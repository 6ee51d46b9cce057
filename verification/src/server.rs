//! The server side of an SMTP session: a state machine from received
//! commands to replies and state changes. The surrounding I/O loop reads
//! lines and bytes from the connection, hands them in as plain values, and
//! performs the returned actions.
use vstd::prelude::*;
use vstd::string::StrSliceExecFns;
use vstd::string::StringSliceAdditionalSpecFns;
use crate::codec::{
    SMTPCommand, SMTPResponse, digit_val, eq_ignore_case, str_eq, str_eq_ignore_case,
};
use crate::imf::{ParsedIMF, addrparse_text, parse_and_validate_parsed_mail};
use crate::address::extract_single;

verus! {

/// What the connection loop must do after one command has been handled.
pub enum ServerAction {
    /// Send the reply and wait for the next command.
    Reply(SMTPResponse),
    /// Send the reply, then read body lines and feed them to `data_line`
    /// until it reports the terminating line.
    StartData(SMTPResponse),
    /// Read exactly this many bytes and hand them to `bdat_chunk` with the
    /// given last-chunk flag. No reply is sent before the chunk is read.
    ReadChunk(usize, bool),
    /// Send the reply and close the connection.
    Quit(SMTPResponse),
}

/// What `data_line` found in one received line.
pub enum DataLineOutcome {
    /// The line was payload and has been buffered.
    More,
    /// The line was the terminating `.` line; the body is complete.
    Terminated,
}

/// One recipient's share of an accepted message: the recipient, the exact
/// bytes that were validated (that recipient's prelude headers followed by
/// the received body), and the validated envelope.
#[derive(Debug)]
pub struct RecipientIngest {
    pub rcpt_to: String,
    pub data: Vec<u8>,
    pub imf: ParsedIMF,
}

/// The state of one server-side SMTP session.
pub struct SessionState {
    pub client_identity: Option<String>,
    pub peer_addr: String,
    pub reverse_dns: Option<String>,
    pub protocol: Option<String>,
    pub reverse_path: Option<String>,
    pub forward_paths: Vec<String>,
    pub data_buffer: Vec<u8>,
    pub binary_data: Vec<u8>,
}

/// The identity this relay announces and stamps into trace headers.
pub fn relay_identity() -> (r: &'static str)
    ensures
        r@ == "relay-mx.as207960.net"@,
{
    "relay-mx.as207960.net"
}

/// Whether `s` starts with `prefix`, comparing exact characters.
pub fn str_starts_with(s: &str, prefix: &str) -> (r: bool)
    ensures
        r == (s@.len() >= prefix@.len() && s@.take(prefix@.len() as int) == prefix@),
{
    let n = prefix.unicode_len();
    if s.unicode_len() < n {
        return false;
    }
    let mut i: usize = 0;
    while i < n
        invariant
            i <= n == prefix@.len(),
            n <= s@.len(),
            forall|j: int| 0 <= j < i ==> s@[j] == prefix@[j],
        decreases n - i,
    {
        if s.get_char(i) != prefix.get_char(i) {
            proof {
                assert(s@.take(n as int)[i as int] != prefix@[i as int]);
            }
            return false;
        }
        i = i + 1;
    }
    proof {
        assert(s@.take(n as int) =~= prefix@);
    }
    true
}

/// Whether `s` starts with `prefix`, ignoring ASCII letter case.
pub fn str_starts_with_ignore_case(s: &str, prefix: &str) -> (r: bool)
    ensures
        r == (s@.len() >= prefix@.len() && eq_ignore_case(
            s@.take(prefix@.len() as int),
            prefix@,
        )),
{
    let n = prefix.unicode_len();
    if s.unicode_len() < n {
        return false;
    }
    let mut i: usize = 0;
    while i < n
        invariant
            i <= n == prefix@.len(),
            n <= s@.len(),
            forall|j: int| 0 <= j < i ==> crate::codec::upper_u32(s@[j]) == crate::codec::upper_u32(
                prefix@[j],
            ),
        decreases n - i,
    {
        let ca = s.get_char(i) as u32;
        let cb = prefix.get_char(i) as u32;
        let ua = if 97 <= ca && ca <= 122 {
            ca - 32
        } else {
            ca
        };
        let ub = if 97 <= cb && cb <= 122 {
            cb - 32
        } else {
            cb
        };
        if ua != ub {
            proof {
                assert(s@.take(n as int)[i as int] == s@[i as int]);
            }
            return false;
        }
        i = i + 1;
    }
    proof {
        assert forall|j: int| 0 <= j < n implies crate::codec::upper_u32(
            s@.take(n as int)[j],
        ) == crate::codec::upper_u32(prefix@[j]) by {
            assert(s@.take(n as int)[j] == s@[j]);
        }
    }
    true
}

impl SessionState {
    /// A fresh session for one connection.
    pub fn new(peer_addr: String, reverse_dns: Option<String>) -> (r: SessionState)
        ensures
            r.client_identity is None,
            r.peer_addr@ == peer_addr@,
            r.reverse_dns == reverse_dns,
            r.protocol is None,
            r.reverse_path is None,
            r.forward_paths@.len() == 0,
            r.data_buffer@.len() == 0,
            r.binary_data@.len() == 0,
    {
        SessionState {
            client_identity: None,
            peer_addr,
            reverse_dns,
            protocol: None,
            reverse_path: None,
            forward_paths: Vec::new(),
            data_buffer: Vec::new(),
            binary_data: Vec::new(),
        }
    }

    /// Clears the in-flight transaction: reverse path, forward paths and
    /// buffered body data. The peer identity and protocol stay.
    pub fn reset_transaction(&mut self)
        ensures
            final(self).reverse_path is None,
            final(self).forward_paths@.len() == 0,
            final(self).data_buffer@.len() == 0,
            final(self).binary_data@.len() == 0,
            final(self).client_identity == old(self).client_identity,
            final(self).peer_addr == old(self).peer_addr,
            final(self).reverse_dns == old(self).reverse_dns,
            final(self).protocol == old(self).protocol,
    {
        self.reverse_path = None;
        self.forward_paths = Vec::new();
        self.data_buffer = Vec::new();
        self.binary_data = Vec::new();
    }

    /// The Return-Path prelude line for the buffered reverse path.
    pub open spec fn return_path_line(&self) -> Seq<char> {
        match self.reverse_path {
            Some(p) => "Return-Path: <"@ + p@ + ">\r\n"@,
            None => "Return-Path: <>\r\n"@,
        }
    }

    /// The Return-Path prelude header for the buffered reverse path.
    pub fn return_path_header(&self) -> (r: String)
        ensures
            r@ == self.return_path_line(),
    {
        let mut out = String::new();
        match &self.reverse_path {
            Some(p) => {
                out.append("Return-Path: <");
                out.append(p.as_str());
                out.append(">\r\n");
            },
            None => {
                out.append("Return-Path: <>\r\n");
            },
        }
        proof {
            reveal_strlit("Return-Path: <");
            reveal_strlit(">\r\n");
            reveal_strlit("Return-Path: <>\r\n");
            if self.reverse_path is Some {
                assert(out@ =~= "Return-Path: <"@ + self.reverse_path->Some_0@ + ">\r\n"@);
            }
        }
        out
    }

    /// The shared head of the Received trace header: the client as it named
    /// itself, its reverse DNS when known, its address, this relay, and the
    /// protocol in use.
    pub open spec fn received_base(&self) -> Seq<char> {
        "Received: "@ + (match self.client_identity {
            Some(id) => "FROM "@ + id@ + " ("@ + (match self.reverse_dns {
                Some(rdns) => rdns@ + " "@,
                None => Seq::<char>::empty(),
            }) + self.peer_addr@ + ")\r\n"@,
            None => Seq::<char>::empty(),
        }) + "    BY relay-mx.as207960.net\r\n"@ + "    VIA TCP\r\n"@
            + (match self.protocol {
            Some(p) => "    WITH "@ + p@ + "\r\n"@,
            None => Seq::<char>::empty(),
        })
    }

    /// One Received trace header per buffered forward path, each naming its
    /// recipient in a FOR clause.
    pub fn received_headers(&self) -> (r: Vec<String>)
        ensures
            r@.len() == self.forward_paths@.len(),
            forall|i: int|
                0 <= i < r@.len() ==> #[trigger] r@[i]@ == self.received_base() + "    FOR <"@
                    + self.forward_paths@[i]@ + ">\r\n"@,
    {
        let mut base = String::new();
        base.append("Received: ");
        match &self.client_identity {
            Some(id) => {
                base.append("FROM ");
                base.append(id.as_str());
                base.append(" (");
                match &self.reverse_dns {
                    Some(rdns) => {
                        base.append(rdns.as_str());
                        base.append(" ");
                    },
                    None => {},
                }
                base.append(self.peer_addr.as_str());
                base.append(")\r\n");
            },
            None => {},
        }
        base.append("    BY relay-mx.as207960.net\r\n");
        base.append("    VIA TCP\r\n");
        match &self.protocol {
            Some(p) => {
                base.append("    WITH ");
                base.append(p.as_str());
                base.append("\r\n");
            },
            None => {},
        }
        proof {
            assert(base@ =~= self.received_base());
        }
        let n = self.forward_paths.len();
        let mut out: Vec<String> = Vec::new();
        let mut i: usize = 0;
        while i < n
            invariant
                i <= n == self.forward_paths@.len(),
                base@ == self.received_base(),
                out@.len() == i,
                forall|j: int|
                    0 <= j < i ==> #[trigger] out@[j]@ == self.received_base() + "    FOR <"@
                        + self.forward_paths@[j]@ + ">\r\n"@,
            decreases n - i,
        {
            let mut h = base.clone();
            h.append("    FOR <");
            h.append(self.forward_paths[i].as_str());
            h.append(">\r\n");
            proof {
                assert(h@ =~= self.received_base() + "    FOR <"@ + self.forward_paths@[
                    i as int]@ + ">\r\n"@);
            }
            out.push(h);
            i = i + 1;
        }
        out
    }
}

/// Whether every character of `s` is a decimal digit, and there is at least
/// one.
pub open spec fn all_digits(s: Seq<char>) -> bool {
    s.len() >= 1 && forall|i: int| 0 <= i < s.len() ==> digit_val(#[trigger] s[i]) >= 0
}

/// The value of a decimal digit string.
pub open spec fn dec_val(s: Seq<char>) -> int
    decreases s.len(),
{
    if s.len() == 0 {
        0
    } else {
        dec_val(s.drop_last()) * 10 + digit_val(s.last())
    }
}

proof fn lemma_dec_val_bounds(s: Seq<char>)
    requires
        forall|i: int| 0 <= i < s.len() ==> digit_val(#[trigger] s[i]) >= 0,
    ensures
        dec_val(s) >= 0,
        forall|k: int| 0 <= k <= s.len() ==> dec_val(#[trigger] s.take(k)) <= dec_val(s),
    decreases s.len(),
{
    if s.len() > 0 {
        lemma_dec_val_bounds(s.drop_last());
        assert forall|k: int| 0 <= k <= s.len() implies dec_val(#[trigger] s.take(k)) <= dec_val(
            s,
        ) by {
            if k < s.len() {
                assert(s.take(k) =~= s.drop_last().take(k));
                assert(dec_val(s.drop_last().take(k)) <= dec_val(s.drop_last()));
                assert(dec_val(s) == dec_val(s.drop_last()) * 10 + digit_val(s.last()));
                assert(dec_val(s.drop_last()) * 10 >= dec_val(s.drop_last())) by (nonlinear_arith)
                    requires
                        dec_val(s.drop_last()) >= 0,
                ;
            } else {
                assert(s.take(k) =~= s);
            }
        }
    }
}

/// Parses an unsigned decimal number, exactly when the string is all digits
/// and its value fits in `usize`.
pub fn parse_usize(s: &str) -> (r: Option<usize>)
    ensures
        match r {
            Some(v) => all_digits(s@) && v == dec_val(s@) && dec_val(s@) <= usize::MAX,
            None => !(all_digits(s@) && dec_val(s@) <= usize::MAX),
        },
{
    let n = s.unicode_len();
    if n == 0 {
        return None;
    }
    let mut acc: usize = 0;
    let mut i: usize = 0;
    proof {
        assert(s@.take(0) =~= Seq::<char>::empty());
    }
    while i < n
        invariant
            i <= n == s@.len(),
            forall|j: int| 0 <= j < i ==> digit_val(#[trigger] s@[j]) >= 0,
            acc == dec_val(s@.take(i as int)),
        decreases n - i,
    {
        let c = s.get_char(i);
        let d = crate::codec::char_digit(c);
        if d < 0 {
            return None;
        }
        let dv = d as usize;
        if acc > (usize::MAX - dv) / 10 {
            proof {
                assert(acc * 10 + dv > usize::MAX) by (nonlinear_arith)
                    requires
                        acc > (usize::MAX - dv) / 10,
                        0 <= dv <= 9,
                ;
                assert(s@.take(i as int + 1).drop_last() =~= s@.take(i as int));
                assert(s@.take(i as int + 1).last() == s@[i as int]);
                assert(dec_val(s@.take(i as int + 1)) == acc * 10 + dv);
                if (forall|j: int| 0 <= j < s@.len() ==> digit_val(#[trigger] s@[j]) >= 0) {
                    lemma_dec_val_bounds(s@);
                    assert(dec_val(s@.take(i as int + 1)) <= dec_val(s@));
                }
            }
            return None;
        }
        proof {
            assert(acc * 10 + dv <= usize::MAX) by (nonlinear_arith)
                requires
                    acc <= (usize::MAX - dv) / 10,
                    0 <= dv <= 9,
            ;
            assert(s@.take(i as int + 1).drop_last() =~= s@.take(i as int));
            assert(s@.take(i as int + 1).last() == s@[i as int]);
        }
        acc = acc * 10 + dv;
        i = i + 1;
    }
    proof {
        assert(s@.take(n as int) =~= s@);
    }
    Some(acc)
}

/// The MAIL argument is present and carries the FROM: marker.
pub open spec fn mail_arg_ok(cmd: SMTPCommand) -> bool {
    &&& cmd.view_args().len() >= 1
    &&& cmd.view_args()[0].len() >= 5
    &&& cmd.view_args()[0].take(5) == "FROM:"@
}

/// When MAIL succeeds: a FROM: argument that is the null path `<>` or whose
/// remainder parses as exactly one plain mailbox.
pub open spec fn mail_accepts(cmd: SMTPCommand) -> bool {
    mail_arg_ok(cmd) && (cmd.view_args()[0] == "FROM:<>"@ || crate::imf::single_mailbox_of(
        cmd.view_args()[0].skip(5),
    ) is Some)
}

/// Everything MAIL promises: 503 out of sequence, otherwise 250 exactly for
/// an acceptable argument with the parsed (or null) reverse path recorded,
/// 501 with untouched state for everything else.
pub open spec fn mail_post(
    pre: SessionState,
    post: SessionState,
    resp: SMTPResponse,
    cmd: SMTPCommand,
) -> bool {
    &&& post.peer_fields_unchanged(&pre)
    &&& post.data_buffer == pre.data_buffer
    &&& post.binary_data == pre.binary_data
    &&& (!pre.may_accept_mail() ==> resp.code == 503 && post == pre)
    &&& (pre.may_accept_mail() ==> {
        &&& (resp.code == 250 <==> mail_accepts(cmd))
        &&& (resp.code == 250 || resp.code == 501)
        &&& (resp.code == 501 ==> post == pre)
        &&& (resp.code == 250 && cmd.view_args()[0] == "FROM:<>"@ ==> (post.reverse_path
            matches Some(p) && p@ == Seq::<char>::empty()) && post.forward_paths
            == pre.forward_paths)
        &&& (resp.code == 250 && cmd.view_args()[0] != "FROM:<>"@ ==> (post.reverse_path
            matches Some(p) && p@ == crate::imf::single_mailbox_of(
            cmd.view_args()[0].skip(5),
        )->Some_0) && post.forward_paths@.len() == 0)
    })
}

/// The RCPT argument is present and carries the TO: marker.
pub open spec fn rcpt_arg_ok(cmd: SMTPCommand) -> bool {
    &&& cmd.view_args().len() >= 1
    &&& cmd.view_args()[0].len() >= 3
    &&& cmd.view_args()[0].take(3) == "TO:"@
}

/// Text naming the postmaster mailbox, standalone or with a domain,
/// ignoring ASCII case.
pub open spec fn postmaster_text(t: Seq<char>) -> bool {
    eq_ignore_case(t, "postmaster"@) || (t.len() >= 11 && eq_ignore_case(
        t.take(11),
        "postmaster@"@,
    ))
}

/// When RCPT refuses with 551: the raw argument after TO:, or the mailbox
/// it parses to, names postmaster.
pub open spec fn rcpt_rejects_postmaster(cmd: SMTPCommand) -> bool {
    rcpt_arg_ok(cmd) && {
        let rest = cmd.view_args()[0].skip(3);
        postmaster_text(rest) || (crate::imf::single_mailbox_of(rest) matches Some(a)
            && postmaster_text(a))
    }
}

/// When RCPT succeeds: the remainder parses as exactly one plain mailbox
/// and neither text form names postmaster.
pub open spec fn rcpt_accepts(cmd: SMTPCommand) -> bool {
    rcpt_arg_ok(cmd) && {
        let rest = cmd.view_args()[0].skip(3);
        &&& !postmaster_text(rest)
        &&& crate::imf::single_mailbox_of(rest) matches Some(a) && !postmaster_text(a)
    }
}

/// The forward path RCPT records for an accepted argument: the parsed
/// mailbox's address after its last colon.
pub open spec fn rcpt_recorded_path(cmd: SMTPCommand) -> Seq<char> {
    let a = crate::imf::single_mailbox_of(cmd.view_args()[0].skip(3))->Some_0;
    a.skip(find_last_colon(a) + 1)
}

/// Everything RCPT promises: 503 without an open transaction, 551 exactly
/// for postmaster, 250 exactly for an acceptable argument with the recorded
/// path appended, 501 with untouched state for everything else.
pub open spec fn rcpt_post(
    pre: SessionState,
    post: SessionState,
    resp: SMTPResponse,
    cmd: SMTPCommand,
) -> bool {
    &&& post.peer_fields_unchanged(&pre)
    &&& post.reverse_path == pre.reverse_path
    &&& post.data_buffer == pre.data_buffer
    &&& post.binary_data == pre.binary_data
    &&& (!pre.may_accept_rcpt() ==> resp.code == 503 && post == pre)
    &&& (pre.may_accept_rcpt() ==> {
        &&& (resp.code == 551 <==> rcpt_rejects_postmaster(cmd))
        &&& (resp.code == 250 <==> rcpt_accepts(cmd))
        &&& (resp.code == 250 || resp.code == 501 || resp.code == 551)
        &&& (resp.code != 250 ==> post == pre)
        &&& (resp.code == 250 ==> {
            &&& post.forward_paths@.len() == pre.forward_paths@.len() + 1
            &&& post.forward_paths@.take(pre.forward_paths@.len() as int)
                == pre.forward_paths@
            &&& post.forward_paths@.last()@ == rcpt_recorded_path(cmd)
        })
    })
}

/// Everything DATA promises: 503 without a full envelope, 501 for stray
/// arguments, else the 354 go-ahead with the line buffer cleared.
pub open spec fn data_post(
    pre: SessionState,
    post: SessionState,
    r: ServerAction,
    cmd: SMTPCommand,
) -> bool {
    &&& post.peer_fields_unchanged(&pre)
    &&& post.reverse_path == pre.reverse_path
    &&& post.forward_paths == pre.forward_paths
    &&& post.binary_data == pre.binary_data
    &&& (!pre.may_accept_body() ==> (r matches ServerAction::Reply(resp) && resp.code == 503
        && post == pre))
    &&& (pre.may_accept_body() && cmd.view_args().len() != 0 ==> (r
        matches ServerAction::Reply(resp) && resp.code == 501 && post == pre))
    &&& (pre.may_accept_body() && cmd.view_args().len() == 0 ==> (r
        matches ServerAction::StartData(resp) && resp.code == 354 && post.data_buffer@.len()
        == 0))
}

/// Everything BDAT promises: 503 without a full envelope; otherwise a chunk
/// read of exactly the decimal size, last when LAST is named or the sole
/// size is zero; 501 for anything else.
pub open spec fn bdat_post(
    pre: SessionState,
    post: SessionState,
    r: ServerAction,
    cmd: SMTPCommand,
) -> bool {
    &&& post == pre
    &&& (!pre.may_accept_body() ==> (r matches ServerAction::Reply(resp) && resp.code == 503))
    &&& (pre.may_accept_body() ==> match r {
        ServerAction::Reply(resp) => resp.code == 501,
        ServerAction::ReadChunk(size, last) => {
            &&& cmd.view_args().len() >= 1
            &&& all_digits(cmd.view_args()[0])
            &&& size == dec_val(cmd.view_args()[0])
            &&& last == (cmd.view_args().len() == 2 || size == 0)
        },
        _ => false,
    })
}

impl SessionState {
    /// Whether a mail transaction may begin: the client has said HELO and no
    /// reverse path is buffered yet.
    pub open spec fn may_accept_mail(&self) -> bool {
        self.client_identity is Some && self.reverse_path is None
    }

    /// Whether recipients may be added: identity and reverse path are set.
    pub open spec fn may_accept_rcpt(&self) -> bool {
        self.client_identity is Some && self.reverse_path is Some
    }

    /// Whether a body may be transmitted: a full envelope is buffered.
    pub open spec fn may_accept_body(&self) -> bool {
        self.client_identity is Some && self.reverse_path is Some && self.forward_paths@.len()
            >= 1
    }

    /// Everything but the transaction state is unchanged.
    pub open spec fn peer_fields_unchanged(&self, other: &SessionState) -> bool {
        &&& self.client_identity == other.client_identity
        &&& self.peer_addr == other.peer_addr
        &&& self.reverse_dns == other.reverse_dns
        &&& self.protocol == other.protocol
    }

    /// MAIL: opens a transaction by recording the reverse path. Out of
    /// sequence commands get 503, unparseable ones 501; the empty path `<>`
    /// is accepted as a null reverse path.
    pub fn handle_mail(&mut self, cmd: &SMTPCommand) -> (r: SMTPResponse)
        ensures
            mail_post(*old(self), *final(self), r, *cmd),
    {
        if self.client_identity.is_none() || self.reverse_path.is_some() {
            return SMTPResponse::new(503, "Go read the RFCs");
        }
        if cmd.args.len() == 0 {
            return SMTPResponse::new(501, "Go read the RFCs");
        }
        let arg = &cmd.args[0];
        if !str_starts_with(arg.as_str(), "FROM:") {
            proof {
                reveal_strlit("FROM:");
            }
            return SMTPResponse::new(501, "Go read the RFCs");
        }
        proof {
            reveal_strlit("FROM:");
        }
        let rest = arg.as_str().substring_char(5, arg.as_str().unicode_len());
        proof {
            // whether the argument is the null path is decided by its tail
            reveal_strlit("<>");
            reveal_strlit("FROM:<>");
            assert(("FROM:<>"@).len() == 7);
            if arg@ == "FROM:<>"@ {
                assert(rest@ =~= "<>"@);
            }
        }
        if str_eq(rest, "<>") {
            proof {
                reveal_strlit("FROM:");
                reveal_strlit("<>");
                reveal_strlit("FROM:<>");
                assert(rest@ == "<>"@);
                assert(("<>"@).len() == 2);
                assert(rest@.len() == arg@.len() - 5);
                assert(arg@.len() == 7);
                assert forall|i: int| 0 <= i < 7 implies arg@[i] == "FROM:<>"@[i] by {
                    if i < 5 {
                        assert(arg@[i] == arg@.take(5)[i]);
                        assert(arg@.take(5)[i] == "FROM:"@[i]);
                    } else {
                        assert(arg@[i] == arg@.subrange(5, arg@.len() as int)[i - 5]);
                        assert(rest@[i - 5] == "<>"@[i - 5]);
                    }
                }
                assert(arg@ =~= "FROM:<>"@);
            }
            self.reverse_path = Some(String::new());
            return SMTPResponse::new(250, "OwO? Not giving a reverse path?");
        }
        let parsed = match addrparse_text(rest) {
            Ok(p) => p,
            Err(_) => {
                return SMTPResponse::new(501, "Go read the RFCs");
            },
        };
        let single = match extract_single(&parsed) {
            Some(s) => s,
            None => {
                return SMTPResponse::new(501, "Go read the RFCs");
            },
        };
        self.reverse_path = Some(single.addr);
        self.forward_paths = Vec::new();
        SMTPResponse::new(250, "OwO what's this? A valid reverse path?")
    }

    /// RCPT: appends one forward path. Requires an open transaction (503
    /// otherwise); any parsed mailbox whose address is postmaster, alone or
    /// with a domain, is refused with 551; the address kept is the part
    /// after the last colon of the parsed mailbox.
    pub fn handle_rcpt(&mut self, cmd: &SMTPCommand) -> (r: SMTPResponse)
        ensures
            rcpt_post(*old(self), *final(self), r, *cmd),
    {
        if self.client_identity.is_none() || self.reverse_path.is_none() {
            return SMTPResponse::new(503, "Go read the RFCs");
        }
        if cmd.args.len() == 0 {
            return SMTPResponse::new(501, "Go read the RFCs");
        }
        let arg = &cmd.args[0];
        if !str_starts_with(arg.as_str(), "TO:") {
            proof {
                reveal_strlit("TO:");
            }
            return SMTPResponse::new(501, "Go read the RFCs");
        }
        proof {
            reveal_strlit("TO:");
            reveal_strlit("postmaster");
            reveal_strlit("postmaster@");
            assert(("postmaster@"@).len() == 11);
        }
        let rest = arg.as_str().substring_char(3, arg.as_str().unicode_len());
        if str_eq_ignore_case(rest, "postmaster") || str_starts_with_ignore_case(
            rest,
            "postmaster@",
        ) {
            return SMTPResponse::new(551, "Go email noc@as207960.net instead");
        }
        let parsed = match addrparse_text(rest) {
            Ok(p) => p,
            Err(_) => {
                return SMTPResponse::new(501, "Go read the RFCs");
            },
        };
        let single = match extract_single(&parsed) {
            Some(s) => s,
            None => {
                return SMTPResponse::new(501, "Go read the RFCs");
            },
        };
        if str_eq_ignore_case(single.addr.as_str(), "postmaster")
            || str_starts_with_ignore_case(single.addr.as_str(), "postmaster@") {
            return SMTPResponse::new(551, "Go email noc@as207960.net instead");
        }
        let addr = after_last_colon(single.addr.as_str());
        let ghost before = self.forward_paths@;
        self.forward_paths.push(addr);
        proof {
            assert(self.forward_paths@.take(before.len() as int) =~= before);
        }
        SMTPResponse::new(250, "UwU emails!")
    }

    /// DATA: starts line-mode body reception. Requires a full envelope (503
    /// otherwise) and no arguments (501); on success the line buffer is
    /// cleared and the caller reads body lines into `data_line`.
    pub fn handle_data(&mut self, cmd: &SMTPCommand) -> (r: ServerAction)
        ensures
            data_post(*old(self), *final(self), r, *cmd),
    {
        if self.client_identity.is_none() || self.reverse_path.is_none()
            || self.forward_paths.len() == 0 {
            return ServerAction::Reply(SMTPResponse::new(503, "Go read the RFCs"));
        }
        if cmd.args.len() != 0 {
            return ServerAction::Reply(SMTPResponse::new(501, "Go read the RFCs"));
        }
        self.data_buffer = Vec::new();
        ServerAction::StartData(SMTPResponse::new(354, "Feed me your email"))
    }

    /// One received body line in DATA mode: the bare `.` line ends the body;
    /// any other line is appended to the buffer with one leading dot
    /// stripped, line terminator kept.
    pub fn data_line(&mut self, line: &str) -> (r: DataLineOutcome)
        ensures
            final(self).peer_fields_unchanged(old(self)),
            final(self).reverse_path == old(self).reverse_path,
            final(self).forward_paths == old(self).forward_paths,
            final(self).binary_data == old(self).binary_data,
            line.spec_bytes() =~= seq![46u8, 13u8, 10u8] ==> (r is Terminated && *final(self)
                == *old(self)),
            !(line.spec_bytes() =~= seq![46u8, 13u8, 10u8]) ==> (r is More
                && final(self).data_buffer@ == old(self).data_buffer@ + (if line.spec_bytes().len()
                > 0 && line.spec_bytes()[0] == 46 {
                line.spec_bytes().skip(1)
            } else {
                line.spec_bytes()
            })),
    {
        let bytes = line.as_bytes();
        if bytes.len() == 3 && bytes[0] == 46 && bytes[1] == 13 && bytes[2] == 10 {
            proof {
                assert(line.spec_bytes() =~= seq![46u8, 13u8, 10u8]);
            }
            return DataLineOutcome::Terminated;
        }
        proof {
            if line.spec_bytes().len() == 3 && line.spec_bytes()[0] == 46 && line.spec_bytes()[1]
                == 13 && line.spec_bytes()[2] == 10 {
                assert(bytes@ =~= seq![46u8, 13u8, 10u8]);
            }
        }
        let n = bytes.len();
        let start: usize = if n > 0 && bytes[0] == 46 {
            1
        } else {
            0
        };
        let mut i = start;
        while i < n
            invariant
                start <= i <= n == bytes@.len(),
                self.data_buffer@ == old(self).data_buffer@ + bytes@.subrange(
                    start as int,
                    i as int,
                ),
                self.peer_fields_unchanged(old(self)),
                self.reverse_path == old(self).reverse_path,
                self.forward_paths == old(self).forward_paths,
                self.binary_data == old(self).binary_data,
            decreases n - i,
        {
            let b = bytes[i];
            self.data_buffer.push(b);
            proof {
                assert(self.data_buffer@ =~= old(self).data_buffer@ + bytes@.subrange(
                    start as int,
                    i as int + 1,
                ));
            }
            i = i + 1;
        }
        proof {
            if start == 1 {
                assert(bytes@.subrange(1, n as int) =~= line.spec_bytes().skip(1));
            } else {
                assert(bytes@.subrange(0, n as int) =~= line.spec_bytes());
            }
        }
        DataLineOutcome::More
    }

    /// BDAT: requires a full envelope and one or two arguments, the chunk
    /// size in decimal and optionally LAST; tells the caller to read exactly
    /// that many bytes. A sole chunk size of zero counts as last.
    pub fn handle_bdat(&mut self, cmd: &SMTPCommand) -> (r: ServerAction)
        ensures
            bdat_post(*old(self), *final(self), r, *cmd),
    {
        if self.client_identity.is_none() || self.reverse_path.is_none()
            || self.forward_paths.len() == 0 {
            return ServerAction::Reply(SMTPResponse::new(503, "Go read the RFCs"));
        }
        if cmd.args.len() < 1 || cmd.args.len() > 2 {
            return ServerAction::Reply(SMTPResponse::new(501, "Go read the RFCs"));
        }
        let chunk_size = match parse_usize(cmd.args[0].as_str()) {
            Some(v) => v,
            None => {
                return ServerAction::Reply(SMTPResponse::new(501, "Go read the RFCs"));
            },
        };
        let is_last: bool = if cmd.args.len() == 2 {
            if str_eq_ignore_case(cmd.args[1].as_str(), "LAST") {
                true
            } else {
                return ServerAction::Reply(SMTPResponse::new(501, "Go read the RFCs"));
            }
        } else {
            chunk_size == 0
        };
        ServerAction::ReadChunk(chunk_size, is_last)
    }

    /// One received BDAT chunk: appended to the binary buffer. On anything
    /// but the last chunk the caller sends the returned reply; on the last
    /// chunk the caller finalizes the buffered message.
    pub fn bdat_chunk(&mut self, chunk: &[u8], last: bool) -> (r: Option<SMTPResponse>)
        ensures
            final(self).peer_fields_unchanged(old(self)),
            final(self).reverse_path == old(self).reverse_path,
            final(self).forward_paths == old(self).forward_paths,
            final(self).data_buffer == old(self).data_buffer,
            final(self).binary_data@ == old(self).binary_data@ + chunk@,
            last <==> r is None,
            r matches Some(resp) ==> resp.code == 250,
    {
        let n = chunk.len();
        let mut i: usize = 0;
        while i < n
            invariant
                i <= n == chunk@.len(),
                self.binary_data@ == old(self).binary_data@ + chunk@.subrange(0, i as int),
                self.peer_fields_unchanged(old(self)),
                self.reverse_path == old(self).reverse_path,
                self.forward_paths == old(self).forward_paths,
                self.data_buffer == old(self).data_buffer,
            decreases n - i,
        {
            let b = chunk[i];
            self.binary_data.push(b);
            proof {
                assert(self.binary_data@ =~= old(self).binary_data@ + chunk@.subrange(
                    0,
                    i as int + 1,
                ));
            }
            i = i + 1;
        }
        proof {
            assert(chunk@.subrange(0, n as int) =~= chunk@);
        }
        if last {
            None
        } else {
            Some(SMTPResponse::new(250, "Nom nom nom more please!"))
        }
    }
}

/// The eleven verb literals are pairwise distinct character sequences.
proof fn lemma_verbs_distinct()
    ensures
        "HELO"@ != "EHLO"@ && "HELO"@ != "MAIL"@ && "HELO"@ != "RCPT"@ && "HELO"@ != "DATA"@
            && "HELO"@ != "BDAT"@ && "HELO"@ != "RSET"@ && "HELO"@ != "NOOP"@ && "HELO"@
            != "HELP"@ && "HELO"@ != "EXPN"@ && "HELO"@ != "QUIT"@,
        "EHLO"@ != "MAIL"@ && "EHLO"@ != "RCPT"@ && "EHLO"@ != "DATA"@ && "EHLO"@ != "BDAT"@
            && "EHLO"@ != "RSET"@ && "EHLO"@ != "NOOP"@ && "EHLO"@ != "HELP"@ && "EHLO"@
            != "EXPN"@ && "EHLO"@ != "QUIT"@,
        "MAIL"@ != "RCPT"@ && "MAIL"@ != "DATA"@ && "MAIL"@ != "BDAT"@ && "MAIL"@ != "RSET"@
            && "MAIL"@ != "NOOP"@ && "MAIL"@ != "HELP"@ && "MAIL"@ != "EXPN"@ && "MAIL"@
            != "QUIT"@,
        "RCPT"@ != "DATA"@ && "RCPT"@ != "BDAT"@ && "RCPT"@ != "RSET"@ && "RCPT"@ != "NOOP"@
            && "RCPT"@ != "HELP"@ && "RCPT"@ != "EXPN"@ && "RCPT"@ != "QUIT"@,
        "DATA"@ != "BDAT"@ && "DATA"@ != "RSET"@ && "DATA"@ != "NOOP"@ && "DATA"@ != "HELP"@
            && "DATA"@ != "EXPN"@ && "DATA"@ != "QUIT"@,
        "BDAT"@ != "RSET"@ && "BDAT"@ != "NOOP"@ && "BDAT"@ != "HELP"@ && "BDAT"@ != "EXPN"@
            && "BDAT"@ != "QUIT"@,
        "RSET"@ != "NOOP"@ && "RSET"@ != "HELP"@ && "RSET"@ != "EXPN"@ && "RSET"@ != "QUIT"@,
        "NOOP"@ != "HELP"@ && "NOOP"@ != "EXPN"@ && "NOOP"@ != "QUIT"@,
        "HELP"@ != "EXPN"@ && "HELP"@ != "QUIT"@,
        "EXPN"@ != "QUIT"@,
{
    reveal_strlit("HELO");
    reveal_strlit("EHLO");
    reveal_strlit("MAIL");
    reveal_strlit("RCPT");
    reveal_strlit("DATA");
    reveal_strlit("BDAT");
    reveal_strlit("RSET");
    reveal_strlit("NOOP");
    reveal_strlit("HELP");
    reveal_strlit("EXPN");
    reveal_strlit("QUIT");
    assert(("HELO"@)[0] == 'H' && ("HELO"@)[1] == 'E' && ("HELO"@)[3] == 'O');
    assert(("EHLO"@)[0] == 'E' && ("EHLO"@)[1] == 'H');
    assert(("MAIL"@)[0] == 'M');
    assert(("RCPT"@)[0] == 'R' && ("RCPT"@)[1] == 'C');
    assert(("DATA"@)[0] == 'D');
    assert(("BDAT"@)[0] == 'B');
    assert(("RSET"@)[0] == 'R' && ("RSET"@)[1] == 'S');
    assert(("NOOP"@)[0] == 'N');
    assert(("HELP"@)[0] == 'H' && ("HELP"@)[1] == 'E' && ("HELP"@)[3] == 'P');
    assert(("EXPN"@)[0] == 'E' && ("EXPN"@)[1] == 'X');
    assert(("QUIT"@)[0] == 'Q');
}

impl SessionState {
    /// The greeting line of a HELO or EHLO reply: this relay's identity and
    /// the peer as it is best known, by reverse DNS or by address.
    pub open spec fn greeting_line(&self) -> Seq<char> {
        "relay-mx.as207960.net Good day to you "@ + (match self.reverse_dns {
            Some(rdns) => rdns@,
            None => self.peer_addr@,
        })
    }

    /// Builds the HELO/EHLO greeting reply line.
    fn greeting(&self) -> (r: String)
        ensures
            r@ == self.greeting_line(),
    {
        let mut out = String::new();
        out.append("relay-mx.as207960.net Good day to you ");
        match &self.reverse_dns {
            Some(rdns) => out.append(rdns.as_str()),
            None => out.append(self.peer_addr.as_str()),
        }
        proof {
            assert(out@ =~= self.greeting_line());
        }
        out
    }

    /// Dispatches one received command to its handler and says what the
    /// connection loop must do next. HELO and EHLO record the client's name
    /// and protocol and clear any open transaction; RSET clears the
    /// transaction; QUIT closes; unknown verbs get 500.
    pub fn handle_command(&mut self, cmd: &SMTPCommand) -> (r: ServerAction)
        ensures
            final(self).peer_addr == old(self).peer_addr,
            final(self).reverse_dns == old(self).reverse_dns,
            cmd.verb@ == "HELO"@ || cmd.verb@ == "EHLO"@ ==> match r {
                ServerAction::Reply(resp) => {
                    &&& (resp.code == 250 <==> cmd.view_args().len() == 1)
                    &&& (resp.code == 501 ==> *final(self) == *old(self))
                    &&& (resp.code == 250 ==> {
                        &&& cmd.view_args().len() == 1
                        &&& final(self).client_identity matches Some(id) && id@
                            == cmd.view_args()[0]
                        &&& final(self).protocol matches Some(p) && p@ == (
                        if cmd.verb@ == "HELO"@ {
                            "SMTP"@
                        } else {
                            "ESMTP"@
                        })
                        &&& final(self).reverse_path is None
                        &&& final(self).forward_paths@.len() == 0
                        &&& resp.view_lines()[0] == old(self).greeting_line()
                        &&& (cmd.verb@ == "HELO"@ ==> resp.view_lines() =~= seq![
                            old(self).greeting_line(),
                        ])
                        &&& (cmd.verb@ == "EHLO"@ ==> resp.view_lines() =~= seq![
                            old(self).greeting_line(),
                            "8BITMIME"@,
                            "SMTPUTF8"@,
                            "CHUNKING"@,
                            "SIZE 0"@,
                        ])
                    })
                    &&& (resp.code == 250 || resp.code == 501)
                },
                _ => false,
            },
            cmd.verb@ == "MAIL"@ ==> (r matches ServerAction::Reply(resp) && mail_post(
                *old(self),
                *final(self),
                resp,
                *cmd,
            )),
            cmd.verb@ == "RCPT"@ ==> (r matches ServerAction::Reply(resp) && rcpt_post(
                *old(self),
                *final(self),
                resp,
                *cmd,
            )),
            cmd.verb@ == "DATA"@ ==> data_post(*old(self), *final(self), r, *cmd),
            cmd.verb@ == "BDAT"@ ==> bdat_post(*old(self), *final(self), r, *cmd),
            cmd.verb@ == "RSET"@ ==> (r matches ServerAction::Reply(resp) && resp.code == 250
                && final(self).reverse_path is None && final(self).forward_paths@.len() == 0
                && final(self).binary_data@.len() == 0
                && final(self).peer_fields_unchanged(old(self))),
            cmd.verb@ == "NOOP"@ ==> (r matches ServerAction::Reply(resp) && resp.code == 250
                && *final(self) == *old(self)),
            cmd.verb@ == "HELP"@ || cmd.verb@ == "EXPN"@ ==> (r matches ServerAction::Reply(resp)
                && resp.code == 502 && *final(self) == *old(self)),
            cmd.verb@ == "QUIT"@ ==> (r matches ServerAction::Quit(resp) && resp.code == 221
                && *final(self) == *old(self)),
            !(cmd.verb@ == "HELO"@ || cmd.verb@ == "EHLO"@ || cmd.verb@ == "MAIL"@ || cmd.verb@
                == "RCPT"@ || cmd.verb@ == "DATA"@ || cmd.verb@ == "BDAT"@ || cmd.verb@
                == "RSET"@ || cmd.verb@ == "NOOP"@ || cmd.verb@ == "HELP"@ || cmd.verb@
                == "EXPN"@ || cmd.verb@ == "QUIT"@) ==> (r matches ServerAction::Reply(resp)
                && resp.code == 500 && *final(self) == *old(self)),
    {
        proof {
            lemma_verbs_distinct();
        }
        if str_eq(cmd.verb.as_str(), "HELO") || str_eq(cmd.verb.as_str(), "EHLO") {
            if cmd.args.len() != 1 {
                return ServerAction::Reply(SMTPResponse::new(501, "Go read the RFCs"));
            }
            let ehlo = str_eq(cmd.verb.as_str(), "EHLO");
            proof {
                reveal_strlit("HELO");
                reveal_strlit("EHLO");
            }
            let greeting = self.greeting();
            self.client_identity = Some(cmd.args[0].clone());
            self.protocol = Some(
                if ehlo {
                    "ESMTP".to_owned()
                } else {
                    "SMTP".to_owned()
                },
            );
            self.reverse_path = None;
            self.forward_paths = Vec::new();
            let mut resp = SMTPResponse::new(250, greeting.as_str());
            if ehlo {
                resp.add_line("8BITMIME");
                resp.add_line("SMTPUTF8");
                resp.add_line("CHUNKING");
                resp.add_line("SIZE 0");
            }
            return ServerAction::Reply(resp);
        }
        if str_eq(cmd.verb.as_str(), "MAIL") {
            return ServerAction::Reply(self.handle_mail(cmd));
        }
        if str_eq(cmd.verb.as_str(), "RCPT") {
            return ServerAction::Reply(self.handle_rcpt(cmd));
        }
        if str_eq(cmd.verb.as_str(), "DATA") {
            return self.handle_data(cmd);
        }
        if str_eq(cmd.verb.as_str(), "BDAT") {
            return self.handle_bdat(cmd);
        }
        if str_eq(cmd.verb.as_str(), "RSET") {
            self.reset_transaction();
            return ServerAction::Reply(SMTPResponse::new(250, "And so we begin again"));
        }
        if str_eq(cmd.verb.as_str(), "NOOP") {
            return ServerAction::Reply(SMTPResponse::new(250, "Well that was a waste"));
        }
        if str_eq(cmd.verb.as_str(), "HELP") || str_eq(cmd.verb.as_str(), "EXPN") {
            return ServerAction::Reply(SMTPResponse::new(502, "No"));
        }
        if str_eq(cmd.verb.as_str(), "QUIT") {
            return ServerAction::Quit(SMTPResponse::new(221, "Toodles!"));
        }
        ServerAction::Reply(SMTPResponse::new(500, "Go read the RFCs"))
    }

    /// The initial banner a connection is greeted with.
    pub fn banner() -> (r: SMTPResponse)
        ensures
            r.code == 220,
            r.view_lines() =~= seq![
                "relay-mx.as207960.net Hippity hoppity your mail is now my property"@,
            ],
    {
        SMTPResponse::new(
            220,
            "relay-mx.as207960.net Hippity hoppity your mail is now my property",
        )
    }

    /// The reply for a message accepted in full.
    pub fn accepted_reply() -> (r: SMTPResponse)
        ensures
            r.code == 250,
    {
        SMTPResponse::new(250, "Nom nom nom that was delicious")
    }

    /// The reply when persistence fails.
    pub fn internal_error_reply() -> (r: SMTPResponse)
        ensures
            r.code == 451,
    {
        SMTPResponse::new(451, "Internal server error")
    }

    /// The reply when a received line is not valid UTF-8.
    pub fn bad_utf8_reply() -> (r: SMTPResponse)
        ensures
            r.code == 553,
    {
        SMTPResponse::new(553, "UTF8 only please")
    }

    /// The exact bytes validated for the recipient at one index: that
    /// recipient's Return-Path and Received prelude, UTF-8 encoded, followed
    /// by the received body bytes.
    pub open spec fn ingest_bytes(&self, i: int, data: Seq<u8>) -> Seq<u8> {
        vstd::utf8::encode_utf8(
            self.return_path_line() + self.received_base() + "    FOR <"@
                + self.forward_paths@[i]@ + ">\r\n"@,
        ) + data
    }

    /// Validates the completed body once per buffered forward path, each
    /// copy headed by that recipient's Return-Path and Received prelude.
    /// Success means every recipient's copy is acceptable; the first copy
    /// that is not rejects the whole message with 550 and the parser's
    /// diagnostic as a second reply line.
    pub fn finalize_ingest(&self, data: &[u8]) -> (r: Result<Vec<RecipientIngest>, SMTPResponse>)
        ensures
            match r {
                Ok(v) => {
                    &&& v@.len() == self.forward_paths@.len()
                    &&& forall|i: int|
                        0 <= i < v@.len() ==> {
                            &&& (#[trigger] v@[i]).rcpt_to@ == self.forward_paths@[i]@
                            &&& v@[i].data@ == self.ingest_bytes(i, data@)
                            &&& crate::imf::imf_acceptable(v@[i].data@)
                            &&& crate::imf::imf_matches(v@[i].imf, v@[i].data@)
                            &&& v@[i].imf.wf()
                        }
                },
                Err(resp) => {
                    &&& resp.code == 550 && resp.view_lines().len() == 2
                    &&& exists|i: int|
                        0 <= i < self.forward_paths@.len() && !crate::imf::imf_acceptable(
                            #[trigger] self.ingest_bytes(i, data@),
                        )
                },
            },
    {
        let received = self.received_headers();
        let n = self.forward_paths.len();
        let mut out: Vec<RecipientIngest> = Vec::new();
        let mut i: usize = 0;
        while i < n
            invariant
                i <= n == self.forward_paths@.len(),
                received@.len() == n,
                forall|j: int|
                    0 <= j < n ==> (#[trigger] received@[j])@ == self.received_base()
                        + "    FOR <"@ + self.forward_paths@[j]@ + ">\r\n"@,
                out@.len() == i,
                forall|j: int|
                    0 <= j < i ==> {
                        &&& (#[trigger] out@[j]).rcpt_to@ == self.forward_paths@[j]@
                        &&& out@[j].data@ == self.ingest_bytes(j, data@)
                        &&& crate::imf::imf_acceptable(out@[j].data@)
                        &&& crate::imf::imf_matches(out@[j].imf, out@[j].data@)
                        &&& out@[j].imf.wf()
                    },
            decreases n - i,
        {
            let mut prelude = self.return_path_header();
            prelude.append(received[i].as_str());
            let prelude_str = prelude.as_str();
            let mut idv: Vec<u8> = prelude_str.as_bytes_vec();
            proof {
                assert(prelude@ =~= self.return_path_line() + self.received_base() + "    FOR <"@
                    + self.forward_paths@[i as int]@ + ">\r\n"@);
            }
            let mut body: Vec<u8> = Vec::new();
            let m = data.len();
            let mut k: usize = 0;
            while k < m
                invariant
                    k <= m == data@.len(),
                    body@ == data@.subrange(0, k as int),
                decreases m - k,
            {
                let b = data[k];
                body.push(b);
                proof {
                    assert(body@ =~= data@.subrange(0, k as int + 1));
                }
                k = k + 1;
            }
            proof {
                assert(body@ =~= data@);
            }
            idv.append(&mut body);
            proof {
                assert(idv@ =~= self.ingest_bytes(i as int, data@));
            }
            let imf = match parse_and_validate_parsed_mail(idv.as_slice()) {
                Ok(p) => p,
                Err(e) => {
                    let mut resp = SMTPResponse::new(550, "Ew! Non RFC5322 compliant mail!");
                    resp.add_line(e.as_str());
                    return Err(resp);
                },
            };
            out.push(
                RecipientIngest { rcpt_to: self.forward_paths[i].clone(), data: idv, imf },
            );
            i = i + 1;
        }
        Ok(out)
    }
}

/// The part of `addr` after its last colon, or all of it when it has none:
/// the lossy simplification the server applies to source-routed paths.
pub fn after_last_colon(addr: &str) -> (r: String)
    ensures
        ({
            let k = find_last_colon(addr@);
            r@ == addr@.skip(k + 1)
        }),
{
    let n = addr.unicode_len();
    let mut i: usize = n;
    proof {
        lemma_find_last_colon(addr@);
    }
    while i > 0
        invariant
            i <= n == addr@.len(),
            forall|j: int| i <= j < n ==> addr@[j] != ':',
        decreases i,
    {
        i = i - 1;
        if addr.get_char(i) == ':' {
            proof {
                lemma_find_last_colon_at(addr@, i as int);
            }
            let out = addr.substring_char(i + 1, n).to_owned();
            proof {
                assert(out@ =~= addr@.skip(i as int + 1));
            }
            return out;
        }
    }
    proof {
        if find_last_colon(addr@) >= 0 {
            assert(addr@[find_last_colon(addr@)] == ':');
        }
        assert(addr@.skip(0) =~= addr@);
    }
    addr.to_owned()
}

/// Index of the last colon in `s`, or -1.
pub open spec fn find_last_colon(s: Seq<char>) -> int
    decreases s.len(),
{
    if s.len() == 0 {
        -1
    } else if s[s.len() - 1] == ':' {
        s.len() - 1
    } else {
        find_last_colon(s.drop_last())
    }
}

proof fn lemma_find_last_colon(s: Seq<char>)
    ensures
        -1 <= find_last_colon(s) < s.len(),
        find_last_colon(s) >= 0 ==> s[find_last_colon(s)] == ':',
        forall|i: int| find_last_colon(s) < i < s.len() ==> s[i] != ':',
    decreases s.len(),
{
    if s.len() > 0 && s[s.len() - 1] != ':' {
        lemma_find_last_colon(s.drop_last());
        assert forall|i: int| 0 <= i < s.len() - 1 implies s[i] == s.drop_last()[i] by {}
    }
}

proof fn lemma_find_last_colon_at(s: Seq<char>, k: int)
    requires
        0 <= k < s.len(),
        s[k] == ':',
        forall|i: int| k < i < s.len() ==> s[i] != ':',
    ensures
        find_last_colon(s) == k,
    decreases s.len(),
{
    if k < s.len() - 1 {
        lemma_find_last_colon_at(s.drop_last(), k);
        assert forall|i: int| 0 <= i < s.len() - 1 implies s[i] == s.drop_last()[i] by {}
    }
}

} // verus!
