//! The client side of SMTP delivery: capability negotiation, body
//! re-encoding against the peer's capabilities, and the session state
//! machine that drives one delivery attempt over one connection.
use vstd::prelude::*;
use vstd::string::StrSliceExecFns;
use vstd::string::StringSliceAdditionalSpecFns;
use crate::codec::{
    SMTPCommand, SMTPResponse, dec_digits, emit_command, eq_ignore_case, push_dec, str_eq,
    str_eq_ignore_case,
};
use crate::dotstuff::dot_stuff_spec;
use crate::encoding::{
    encode_header_wire, encoded_value_bytes, qp_encode, quoted_printable_encode,
};
use crate::imf::{BodyKind, HeaderField};

verus! {

/// Why a delivery failed, in the taxonomy the sender acts on: bad recipient,
/// bad message, transport fault, remote 4xx, remote 5xx or protocol error.
#[derive(Debug)]
pub enum SendingError {
    InvalidAddress,
    InvalidMessage(String),
    ConnectionError(String),
    TransientError(String),
    PermanentError(String),
}

impl SendingError {
    /// An exact copy.
    pub fn duplicate(&self) -> (r: SendingError)
        ensures
            r == *self,
    {
        match self {
            SendingError::InvalidAddress => SendingError::InvalidAddress,
            SendingError::InvalidMessage(s) => SendingError::InvalidMessage(s.clone()),
            SendingError::ConnectionError(s) => SendingError::ConnectionError(s.clone()),
            SendingError::TransientError(s) => SendingError::TransientError(s.clone()),
            SendingError::PermanentError(s) => SendingError::PermanentError(s.clone()),
        }
    }
}

/// The capabilities one EHLO reply advertised. Each EHLO replaces the whole
/// set; nothing is merged across negotiations.
#[derive(Debug)]
pub struct ClientCapabilities {
    pub utf8_support: bool,
    pub binary_support: bool,
    pub chunking_support: bool,
    pub starttls_support: bool,
}

impl ClientCapabilities {
    /// The empty capability set, as a HELO peer is assumed to have.
    pub fn none() -> (r: ClientCapabilities)
        ensures
            !r.utf8_support && !r.binary_support && !r.chunking_support && !r.starttls_support,
    {
        ClientCapabilities {
            utf8_support: false,
            binary_support: false,
            chunking_support: false,
            starttls_support: false,
        }
    }
}

/// Whether some line after the first equals `token` exactly.
pub open spec fn advertises(lines: Seq<Seq<char>>, token: Seq<char>) -> bool {
    exists|i: int| 1 <= i < lines.len() && lines[i] == token
}

/// Reads the capability set out of an EHLO reply: the second and later
/// lines are capability tokens.
pub fn capabilities_from_reply(reply: &SMTPResponse) -> (r: ClientCapabilities)
    ensures
        r.utf8_support == advertises(reply.view_lines(), "8BITMIME"@),
        r.binary_support == advertises(reply.view_lines(), "BINARYMIME"@),
        r.chunking_support == advertises(reply.view_lines(), "CHUNKING"@),
        r.starttls_support == advertises(reply.view_lines(), "STARTTLS"@),
{
    let mut caps = ClientCapabilities::none();
    let n = reply.lines.len();
    if n == 0 {
        return caps;
    }
    let mut i: usize = 1;
    let ghost lines = reply.view_lines();
    while i < n
        invariant
            1 <= i <= n == lines.len(),
            lines == reply.view_lines(),
            caps.utf8_support == exists|j: int| 1 <= j < i && lines[j] == "8BITMIME"@,
            caps.binary_support == exists|j: int| 1 <= j < i && lines[j] == "BINARYMIME"@,
            caps.chunking_support == exists|j: int| 1 <= j < i && lines[j] == "CHUNKING"@,
            caps.starttls_support == exists|j: int| 1 <= j < i && lines[j] == "STARTTLS"@,
        decreases n - i,
    {
        let line = reply.lines[i].as_str();
        if str_eq(line, "8BITMIME") {
            caps.utf8_support = true;
        }
        if str_eq(line, "BINARYMIME") {
            caps.binary_support = true;
        }
        if str_eq(line, "CHUNKING") {
            caps.chunking_support = true;
        }
        if str_eq(line, "STARTTLS") {
            caps.starttls_support = true;
        }
        proof {
            assert(lines[i as int] == reply.lines@[i as int]@);
        }
        i = i + 1;
    }
    caps
}

/// Whether a part of this kind passes through unchanged to a peer with
/// these capabilities, per the transfer-encoding selection table.
pub open spec fn body_passes_through(caps: &ClientCapabilities, kind: BodyKind) -> bool {
    match kind {
        BodyKind::Base64 => true,
        BodyKind::QuotedPrintable => true,
        BodyKind::SevenBit => true,
        BodyKind::EightBit => caps.utf8_support,
        BodyKind::Binary => caps.binary_support,
    }
}

/// The name of the header that a re-encoded part overwrites.
pub open spec fn cte_name() -> Seq<char> {
    "Content-Transfer-Encoding"@
}

/// Selects the transfer encoding for one body part. A part the peer can
/// take passes through unchanged; an 8bit part for a peer without 8BITMIME,
/// or a binary part for one without BINARYMIME, is re-encoded to
/// quoted-printable and its Content-Transfer-Encoding header is replaced.
pub fn encode_body_part(caps: &ClientCapabilities, kind: BodyKind, raw: &[u8], headers: &mut Vec<
    HeaderField,
>) -> (r: Vec<u8>)
    ensures
        body_passes_through(caps, kind) ==> r@ == raw@ && final(headers)@ == old(headers)@,
        !body_passes_through(caps, kind) ==> {
            &&& r@ == qp_encode(raw@)
            &&& final(headers)@.len() >= 1
            &&& final(headers)@.last().name@ == cte_name()
            &&& final(headers)@.last().value@ == "quoted-printable"@
            &&& final(headers)@.drop_last() == old(headers)@.filter(
                |h: HeaderField| !eq_ignore_case(h.name@, cte_name()),
            )
        },
{
    let pass = match kind {
        BodyKind::Base64 => true,
        BodyKind::QuotedPrintable => true,
        BodyKind::SevenBit => true,
        BodyKind::EightBit => caps.utf8_support,
        BodyKind::Binary => caps.binary_support,
    };
    if pass {
        let mut out: Vec<u8> = Vec::new();
        let n = raw.len();
        let mut i: usize = 0;
        while i < n
            invariant
                i <= n == raw@.len(),
                out@ == raw@.subrange(0, i as int),
            decreases n - i,
        {
            let b = raw[i];
            out.push(b);
            proof {
                assert(out@ =~= raw@.subrange(0, i as int + 1));
            }
            i = i + 1;
        }
        proof {
            assert(raw@.subrange(0, n as int) =~= raw@);
        }
        return out;
    }
    let enc = quoted_printable_encode(raw);
    let n = headers.len();
    let mut kept: Vec<HeaderField> = Vec::new();
    let mut i: usize = 0;
    proof {
        assert(old(headers)@.take(0int).filter(
            |h: HeaderField| !eq_ignore_case(h.name@, cte_name()),
        ) =~= Seq::<HeaderField>::empty());
    }
    while i < n
        invariant
            i <= n == old(headers)@.len(),
            headers@.len() == n - i,
            forall|j: int| 0 <= j < headers@.len() ==> headers@[j] == old(headers)@[j + i],
            kept@ == old(headers)@.take(i as int).filter(
                |h: HeaderField| !eq_ignore_case(h.name@, cte_name()),
            ),
        decreases n - i,
    {
        proof {
            reveal_with_fuel(Seq::filter, 2);
            assert(old(headers)@.take(i as int + 1).drop_last() =~= old(headers)@.take(i as int));
            assert(old(headers)@.take(i as int + 1).last() == old(headers)@[i as int]);
        }
        let h = headers.remove(0);
        proof {
            assert(h == old(headers)@[i as int]);
        }
        let keep = !str_eq_ignore_case(h.name.as_str(), "Content-Transfer-Encoding");
        if keep {
            kept.push(h);
        }
        proof {
            assert forall|j: int| 0 <= j < headers@.len() implies headers@[j] == old(headers)@[j
                + i + 1] by {}
        }
        i = i + 1;
    }
    proof {
        assert(old(headers)@.take(n as int) =~= old(headers)@);
    }
    kept.push(
        HeaderField {
            name: "Content-Transfer-Encoding".to_owned(),
            value: "quoted-printable".to_owned(),
        },
    );
    *headers = kept;
    proof {
        assert(headers@.drop_last() =~= old(headers)@.filter(
            |h: HeaderField| !eq_ignore_case(h.name@, cte_name()),
        ));
    }
    enc
}

/// One recipient mailbox the client delivers to.
#[derive(Debug)]
pub struct Address {
    pub local_part: String,
    pub domain: String,
}

impl Address {
    /// An exact copy.
    pub fn duplicate(&self) -> (r: Address)
        ensures
            r.local_part@ == self.local_part@,
            r.domain@ == self.domain@,
    {
        Address { local_part: self.local_part.clone(), domain: self.domain.clone() }
    }
}

/// How a reply code counts at one step of the client dialogue.
pub enum CodeClass {
    Accepted,
    Permanent,
    Transient,
    BadCode,
}

/// Banner: 220 proceeds, 554 is permanent, 421 transient, all else protocol
/// errors.
pub open spec fn banner_class(c: u16) -> CodeClass {
    if c == 220 {
        CodeClass::Accepted
    } else if c == 554 {
        CodeClass::Permanent
    } else if c == 421 {
        CodeClass::Transient
    } else {
        CodeClass::BadCode
    }
}

/// EHLO: 250 proceeds, 502 falls back to HELO (classified separately),
/// 500/501/550 permanent, 421 transient.
pub open spec fn ehlo_class(c: u16) -> CodeClass {
    if c == 250 {
        CodeClass::Accepted
    } else if c == 500 || c == 501 || c == 550 {
        CodeClass::Permanent
    } else if c == 421 {
        CodeClass::Transient
    } else {
        CodeClass::BadCode
    }
}

/// HELO: 250 proceeds, 550 permanent, all else protocol errors.
pub open spec fn helo_class(c: u16) -> CodeClass {
    if c == 250 {
        CodeClass::Accepted
    } else if c == 550 {
        CodeClass::Permanent
    } else {
        CodeClass::BadCode
    }
}

/// STARTTLS: 220 upgrades, 500/501 permanent, 421/454 transient.
pub open spec fn starttls_class(c: u16) -> CodeClass {
    if c == 220 {
        CodeClass::Accepted
    } else if c == 500 || c == 501 {
        CodeClass::Permanent
    } else if c == 421 || c == 454 {
        CodeClass::Transient
    } else {
        CodeClass::BadCode
    }
}

/// MAIL: 250 proceeds; 500/501/550/552/553/555 permanent;
/// 421/451/452/455 transient.
pub open spec fn mail_class(c: u16) -> CodeClass {
    if c == 250 {
        CodeClass::Accepted
    } else if c == 500 || c == 501 || c == 550 || c == 552 || c == 553 || c == 555 {
        CodeClass::Permanent
    } else if c == 421 || c == 451 || c == 452 || c == 455 {
        CodeClass::Transient
    } else {
        CodeClass::BadCode
    }
}

/// RCPT: 250/251 proceed; 500/501/550/551/552/553/555/503 permanent;
/// 421/450/451/452/453/455 transient.
pub open spec fn rcpt_class(c: u16) -> CodeClass {
    if c == 250 || c == 251 {
        CodeClass::Accepted
    } else if c == 500 || c == 501 || c == 550 || c == 551 || c == 552 || c == 553 || c == 555
        || c == 503 {
        CodeClass::Permanent
    } else if c == 421 || c == 450 || c == 451 || c == 452 || c == 453 || c == 455 {
        CodeClass::Transient
    } else {
        CodeClass::BadCode
    }
}

/// DATA and BDAT acknowledgements: the accepted code varies (354 for DATA,
/// 250 for BDAT); 500/501/503/554 permanent; 421 transient.
pub open spec fn body_class(c: u16, accepted: u16) -> CodeClass {
    if c == accepted {
        CodeClass::Accepted
    } else if c == 500 || c == 501 || c == 503 || c == 554 {
        CodeClass::Permanent
    } else if c == 421 {
        CodeClass::Transient
    } else {
        CodeClass::BadCode
    }
}

/// The action fails permanently carrying the reply's rendered text.
pub open spec fn fails_perm(r: &ClientAction, reply: &SMTPResponse) -> bool {
    r matches ClientAction::Fail(SendingError::PermanentError(s)) && s@ == reply.resp_text()
}

/// The action fails transiently carrying the reply's rendered text.
pub open spec fn fails_trans(r: &ClientAction, reply: &SMTPResponse) -> bool {
    r matches ClientAction::Fail(SendingError::TransientError(s)) && s@ == reply.resp_text()
}

/// The action fails permanently on an unexpected code.
pub open spec fn fails_bad(r: &ClientAction) -> bool {
    r matches ClientAction::Fail(SendingError::PermanentError(s)) && s@ == "Bad status code"@
}

/// The action is the failure that `class` calls for, with the session moved
/// to its failed state.
pub open spec fn class_failure(class: CodeClass, r: &ClientAction, reply: &SMTPResponse) -> bool {
    match class {
        CodeClass::Accepted => false,
        CodeClass::Permanent => fails_perm(r, reply),
        CodeClass::Transient => fails_trans(r, reply),
        CodeClass::BadCode => fails_bad(r),
    }
}

/// Where the client dialogue stands: what was last sent and is awaiting its
/// reply.
pub enum ClientState {
    /// Waiting for the server banner.
    Banner,
    /// EHLO sent; the flag records whether TLS is already up.
    EhloSent { after_tls: bool },
    /// HELO fallback sent.
    HeloSent { after_tls: bool },
    /// STARTTLS sent.
    StartTlsSent,
    /// The caller is running the TLS handshake.
    TlsHandshake,
    /// MAIL sent.
    MailSent,
    /// RCPT for recipient `next - 1` sent.
    RcptSent { next: usize },
    /// DATA sent.
    DataSent,
    /// The DATA payload and terminator sent.
    PayloadSent,
    /// The BDAT header chunk sent.
    BdatHeadersSent,
    /// The BDAT LAST body chunk sent.
    BdatBodySent,
    /// QUIT sent.
    QuitSent,
    /// The delivery finished.
    Finished,
    /// The delivery failed.
    Failed,
}

/// What the connection loop must do next.
pub enum ClientAction {
    /// Write this line, then read one reply and hand it to `on_reply`.
    SendLine(String),
    /// Write these bytes, then read one reply and hand it to `on_reply`.
    SendBytes(Vec<u8>),
    /// Upgrade the transport to TLS against this host name, then call
    /// `tls_started`.
    UpgradeTls(String),
    /// The message has been delivered and the dialogue closed.
    Finished,
    /// Stop: the delivery attempt failed.
    Fail(SendingError),
}

/// The header block of the message on the wire, one encoded line per header.
pub open spec fn header_line_bytes(h: HeaderField) -> Seq<u8> {
    vstd::utf8::encode_utf8(h.name@) + seq![58u8, 32u8] + encoded_value_bytes(h.value@) + seq![
        13u8,
        10u8,
    ]
}

/// All header lines, unstuffed, as a BDAT chunk carries them.
pub open spec fn header_block_bytes(hs: Seq<HeaderField>) -> Seq<u8>
    decreases hs.len(),
{
    if hs.len() == 0 {
        Seq::empty()
    } else {
        header_line_bytes(hs[0]) + header_block_bytes(hs.drop_first())
    }
}

/// All header lines, each dot-stuffed on its own, as DATA transmits them.
pub open spec fn stuffed_header_bytes(hs: Seq<HeaderField>) -> Seq<u8>
    decreases hs.len(),
{
    if hs.len() == 0 {
        Seq::empty()
    } else {
        dot_stuff_spec(header_line_bytes(hs[0])) + stuffed_header_bytes(hs.drop_first())
    }
}

/// The whole DATA payload: stuffed headers, a blank line, the stuffed body,
/// and the CRLF dot CRLF terminator.
pub open spec fn data_payload_bytes(hs: Seq<HeaderField>, body: Seq<u8>) -> Seq<u8> {
    stuffed_header_bytes(hs) + seq![13u8, 10u8] + dot_stuff_spec(body) + seq![
        13u8,
        10u8,
        46u8,
        13u8,
        10u8,
    ]
}

/// The EHLO line this relay opens with.
pub open spec fn ehlo_line() -> Seq<char> {
    emit_command("EHLO"@, seq!["relay-mx.as207960.net"@])
}

/// The HELO fallback line.
pub open spec fn helo_line() -> Seq<char> {
    emit_command("HELO"@, seq!["relay-mx.as207960.net"@])
}

/// The MAIL line for a reverse path, with BODY=8BITMIME when the peer takes
/// 8-bit bodies.
pub open spec fn mail_line(reverse_path: Seq<char>, utf8: bool) -> Seq<char> {
    emit_command(
        "MAIL"@,
        if utf8 {
            seq!["FROM:<"@ + reverse_path + ">"@, "BODY=8BITMIME"@]
        } else {
            seq!["FROM:<"@ + reverse_path + ">"@]
        },
    )
}

/// The RCPT line for one recipient.
pub open spec fn rcpt_line(a: Address) -> Seq<char> {
    emit_command("RCPT"@, seq!["TO:<"@ + a.local_part@ + "@"@ + a.domain@ + ">"@])
}

/// The BDAT chunk for the header block: the BDAT command counting the block
/// and its blank separator line, then both.
pub open spec fn bdat_headers_bytes(hs: Seq<HeaderField>) -> Seq<u8> {
    vstd::utf8::encode_utf8(
        emit_command("BDAT"@, seq![dec_digits(header_block_bytes(hs).len() as int + 2)]),
    ) + header_block_bytes(hs) + seq![13u8, 10u8]
}

/// The final BDAT chunk: the BDAT command with the body's byte count and
/// LAST, then the body.
pub open spec fn bdat_body_bytes(body: Seq<u8>) -> Seq<u8> {
    vstd::utf8::encode_utf8(
        emit_command("BDAT"@, seq![dec_digits(body.len() as int), "LAST"@]),
    ) + body
}

/// One delivery attempt over one connection: the dialogue state, the
/// capabilities the peer advertised, and the message being transmitted.
pub struct ClientSession {
    pub state: ClientState,
    pub caps: ClientCapabilities,
    pub reverse_path: String,
    pub addresses: Vec<Address>,
    pub mx_domain: String,
    pub headers: Vec<HeaderField>,
    pub body_kind: BodyKind,
    pub body_raw: Vec<u8>,
    pub body_enc: Vec<u8>,
}

/// One header line on the wire.
fn header_line_wire(h: &HeaderField) -> (r: Vec<u8>)
    ensures
        r@ == header_line_bytes(*h),
{
    let mut out = h.name.as_str().as_bytes_vec();
    out.push(58);
    out.push(32);
    let mut enc = encode_header_wire(h.value.as_str());
    out.append(&mut enc);
    out.push(13);
    out.push(10);
    proof {
        assert(out@ =~= header_line_bytes(*h));
    }
    out
}

/// The message being delivered is untouched: a step changes only the
/// dialogue state, the capabilities it negotiates, or the encoded body.
pub open spec fn envelope_unchanged(pre: &ClientSession, post: &ClientSession) -> bool {
    &&& post.reverse_path == pre.reverse_path
    &&& post.addresses == pre.addresses
    &&& post.mx_domain == pre.mx_domain
    &&& post.body_kind == pre.body_kind
    &&& post.body_raw == pre.body_raw
}

/// The whole header block on the wire, unstuffed.
fn header_block_wire(hs: &Vec<HeaderField>) -> (r: Vec<u8>)
    ensures
        r@ == header_block_bytes(hs@),
{
    let n = hs.len();
    let mut out: Vec<u8> = Vec::new();
    let mut i: usize = 0;
    proof {
        assert(hs@.skip(0) =~= hs@);
    }
    while i < n
        invariant
            i <= n == hs@.len(),
            header_block_bytes(hs@) == out@ + header_block_bytes(hs@.skip(i as int)),
        decreases n - i,
    {
        proof {
            assert(hs@.skip(i as int).drop_first() =~= hs@.skip(i as int + 1));
            assert(hs@.skip(i as int)[0] == hs@[i as int]);
        }
        let mut line = header_line_wire(&hs[i]);
        out.append(&mut line);
        i = i + 1;
    }
    proof {
        assert(header_block_bytes(hs@.skip(n as int)) =~= Seq::<u8>::empty());
        assert(out@ =~= out@ + header_block_bytes(hs@.skip(n as int)));
    }
    out
}

/// The whole DATA payload on the wire: each header line dot-stuffed, the
/// blank separator, the dot-stuffed body, the terminator.
fn data_payload_wire(hs: &Vec<HeaderField>, body: &Vec<u8>) -> (r: Vec<u8>)
    ensures
        r@ == data_payload_bytes(hs@, body@),
{
    let n = hs.len();
    let mut out: Vec<u8> = Vec::new();
    let mut i: usize = 0;
    proof {
        assert(hs@.skip(0) =~= hs@);
    }
    while i < n
        invariant
            i <= n == hs@.len(),
            stuffed_header_bytes(hs@) == out@ + stuffed_header_bytes(hs@.skip(i as int)),
        decreases n - i,
    {
        proof {
            assert(hs@.skip(i as int).drop_first() =~= hs@.skip(i as int + 1));
            assert(hs@.skip(i as int)[0] == hs@[i as int]);
        }
        let line = header_line_wire(&hs[i]);
        let mut stuffed = crate::dotstuff::client_dot_stuff(line.as_slice());
        out.append(&mut stuffed);
        i = i + 1;
    }
    proof {
        assert(stuffed_header_bytes(hs@.skip(n as int)) =~= Seq::<u8>::empty());
        assert(out@ =~= out@ + stuffed_header_bytes(hs@.skip(n as int)));
    }
    out.push(13);
    out.push(10);
    let mut stuffed_body = crate::dotstuff::client_dot_stuff(body.as_slice());
    out.append(&mut stuffed_body);
    out.push(13);
    out.push(10);
    out.push(46);
    out.push(13);
    out.push(10);
    proof {
        assert(out@ =~= data_payload_bytes(hs@, body@));
    }
    out
}

impl ClientSession {
    /// A fresh session for one connection to one MX target, awaiting the
    /// banner.
    pub fn new(
        reverse_path: String,
        addresses: Vec<Address>,
        mx_domain: String,
        headers: Vec<HeaderField>,
        body_kind: BodyKind,
        body_raw: Vec<u8>,
    ) -> (r: ClientSession)
        ensures
            r.state is Banner,
            r.reverse_path == reverse_path,
            r.addresses == addresses,
            r.mx_domain == mx_domain,
            r.headers == headers,
            r.body_kind == body_kind,
            r.body_raw == body_raw,
            !r.caps.utf8_support && !r.caps.binary_support && !r.caps.chunking_support
                && !r.caps.starttls_support,
    {
        ClientSession {
            state: ClientState::Banner,
            caps: ClientCapabilities::none(),
            reverse_path,
            addresses,
            mx_domain,
            headers,
            body_kind,
            body_raw,
            body_enc: Vec::new(),
        }
    }

    /// Fails the session with the classified error for this reply.
    fn fail_with(&mut self, class_perm: bool, reply: &SMTPResponse) -> (r: ClientAction)
        ensures
            final(self).state is Failed,
            envelope_unchanged(old(self), final(self)),
            final(self).caps == old(self).caps,
            final(self).headers == old(self).headers,
            final(self).body_enc == old(self).body_enc,
            class_perm ==> fails_perm(&r, reply),
            !class_perm ==> fails_trans(&r, reply),
    {
        self.state = ClientState::Failed;
        if class_perm {
            ClientAction::Fail(SendingError::PermanentError(reply.format_resp()))
        } else {
            ClientAction::Fail(SendingError::TransientError(reply.format_resp()))
        }
    }

    /// Fails the session on an unexpected reply code.
    fn fail_bad(&mut self) -> (r: ClientAction)
        ensures
            final(self).state is Failed,
            envelope_unchanged(old(self), final(self)),
            final(self).caps == old(self).caps,
            final(self).headers == old(self).headers,
            final(self).body_enc == old(self).body_enc,
            fails_bad(&r),
    {
        self.state = ClientState::Failed;
        ClientAction::Fail(SendingError::PermanentError("Bad status code".to_owned()))
    }

    /// Sends MAIL, or skips straight to the body when there is no recipient
    /// to name.
    fn begin_mail(&mut self) -> (r: ClientAction)
        ensures
            envelope_unchanged(old(self), final(self)),
            final(self).caps == old(self).caps,
            final(self).headers == old(self).headers,
            final(self).body_enc == old(self).body_enc,
            final(self).state is MailSent,
            r matches ClientAction::SendLine(s) && s@ == mail_line(
                old(self).reverse_path@,
                old(self).caps.utf8_support,
            ),
    {
        let mut arg = String::new();
        arg.append("FROM:<");
        arg.append(self.reverse_path.as_str());
        arg.append(">");
        proof {
            assert(arg@ =~= "FROM:<"@ + self.reverse_path@ + ">"@);
        }
        let mut args: Vec<String> = Vec::new();
        args.push(arg);
        if self.caps.utf8_support {
            args.push("BODY=8BITMIME".to_owned());
        }
        let cmd = SMTPCommand { verb: "MAIL".to_owned(), args };
        let line = cmd.to_wire();
        proof {
            if self.caps.utf8_support {
                assert(cmd.view_args() =~= seq![
                    "FROM:<"@ + self.reverse_path@ + ">"@,
                    "BODY=8BITMIME"@,
                ]);
            } else {
                assert(cmd.view_args() =~= seq!["FROM:<"@ + self.reverse_path@ + ">"@]);
            }
        }
        self.state = ClientState::MailSent;
        ClientAction::SendLine(line)
    }

    /// Chooses the transfer encoding, then opens the body phase: the BDAT
    /// header chunk for a chunking peer, DATA otherwise.
    fn begin_body(&mut self) -> (r: ClientAction)
        ensures
            envelope_unchanged(old(self), final(self)),
            final(self).caps == old(self).caps,
            final(self).body_enc@ == (if body_passes_through(&old(self).caps, old(self).body_kind) {
                old(self).body_raw@
            } else {
                qp_encode(old(self).body_raw@)
            }),
            body_passes_through(&old(self).caps, old(self).body_kind) ==> final(self).headers@
                == old(self).headers@,
            old(self).caps.chunking_support ==> {
                &&& final(self).state is BdatHeadersSent
                &&& r matches ClientAction::SendBytes(b) && b@ == bdat_headers_bytes(
                    final(self).headers@,
                )
            },
            !old(self).caps.chunking_support ==> {
                &&& final(self).state is DataSent
                &&& r matches ClientAction::SendLine(s) && s@ == emit_command(
                    "DATA"@,
                    Seq::empty(),
                )
            },
    {
        let enc = encode_body_part(&self.caps, self.body_kind, self.body_raw.as_slice(), &mut self.headers);
        self.body_enc = enc;
        if self.caps.chunking_support {
            let mut block = header_block_wire(&self.headers);
            block.push(13);
            block.push(10);
            let mut count = String::new();
            push_dec(&mut count, block.len() as u64);
            proof {
                assert(count@ =~= dec_digits(header_block_bytes(self.headers@).len() as int + 2));
            }
            let mut args: Vec<String> = Vec::new();
            args.push(count);
            let cmd = SMTPCommand { verb: "BDAT".to_owned(), args };
            let line = cmd.to_wire();
            proof {
                assert(cmd.view_args() =~= seq![
                    dec_digits(header_block_bytes(self.headers@).len() as int + 2),
                ]);
            }
            let line_str = line.as_str();
            let mut bytes = line_str.as_bytes_vec();
            let mut block = block;
            bytes.append(&mut block);
            self.state = ClientState::BdatHeadersSent;
            proof {
                assert(bytes@ =~= bdat_headers_bytes(self.headers@));
            }
            ClientAction::SendBytes(bytes)
        } else {
            let cmd = SMTPCommand::new("DATA", &[]);
            let line = cmd.to_wire();
            proof {
                assert(cmd.view_args() =~= Seq::<Seq<char>>::empty());
            }
            self.state = ClientState::DataSent;
            ClientAction::SendLine(line)
        }
    }

    /// Sends the RCPT line for recipient `k`.
    fn send_rcpt(&mut self, k: usize) -> (r: ClientAction)
        requires
            k < old(self).addresses@.len(),
        ensures
            envelope_unchanged(old(self), final(self)),
            final(self).caps == old(self).caps,
            final(self).headers == old(self).headers,
            final(self).body_enc == old(self).body_enc,
            final(self).state == (ClientState::RcptSent { next: (k + 1) as usize }),
            r matches ClientAction::SendLine(s) && s@ == rcpt_line(old(self).addresses@[k as int]),
    {
        let n = self.addresses.len();
        let mut arg = String::new();
        arg.append("TO:<");
        arg.append(self.addresses[k].local_part.as_str());
        arg.append("@");
        arg.append(self.addresses[k].domain.as_str());
        arg.append(">");
        proof {
            assert(arg@ =~= "TO:<"@ + self.addresses@[k as int].local_part@ + "@"@
                + self.addresses@[k as int].domain@ + ">"@);
        }
        let mut args: Vec<String> = Vec::new();
        args.push(arg);
        let cmd = SMTPCommand { verb: "RCPT".to_owned(), args };
        let line = cmd.to_wire();
        proof {
            assert(cmd.view_args() =~= seq![
                "TO:<"@ + self.addresses@[k as int].local_part@ + "@"@ + self.addresses@[
                    k as int].domain@ + ">"@,
            ]);
        }
        self.state = ClientState::RcptSent { next: k + 1 };
        ClientAction::SendLine(line)
    }

    /// Sends QUIT.
    fn send_quit(&mut self) -> (r: ClientAction)
        ensures
            final(self).state is QuitSent,
            envelope_unchanged(old(self), final(self)),
            final(self).caps == old(self).caps,
            final(self).headers == old(self).headers,
            final(self).body_enc == old(self).body_enc,
            r matches ClientAction::SendLine(s) && s@ == emit_command("QUIT"@, Seq::empty()),
    {
        let cmd = SMTPCommand::new("QUIT", &[]);
        let line = cmd.to_wire();
        proof {
            assert(cmd.view_args() =~= Seq::<Seq<char>>::empty());
        }
        self.state = ClientState::QuitSent;
        ClientAction::SendLine(line)
    }

    /// The TLS handshake succeeded: negotiate afresh on the encrypted
    /// stream. The new EHLO's capabilities replace the old set entirely.
    pub fn tls_started(&mut self) -> (r: ClientAction)
        ensures
            envelope_unchanged(old(self), final(self)),
            final(self).caps == old(self).caps,
            final(self).headers == old(self).headers,
            final(self).body_enc == old(self).body_enc,
            old(self).state is TlsHandshake ==> {
                &&& final(self).state == (ClientState::EhloSent { after_tls: true })
                &&& r matches ClientAction::SendLine(s) && s@ == ehlo_line()
            },
            !(old(self).state is TlsHandshake) ==> (final(self).state is Failed && r
                matches ClientAction::Fail(SendingError::PermanentError(_))),
    {
        match self.state {
            ClientState::TlsHandshake => {
                let cmd = SMTPCommand::new("EHLO", &["relay-mx.as207960.net"]);
                let line = cmd.to_wire();
                proof {
                    assert(cmd.view_args() =~= seq!["relay-mx.as207960.net"@]);
                }
                self.state = ClientState::EhloSent { after_tls: true };
                ClientAction::SendLine(line)
            },
            _ => {
                self.state = ClientState::Failed;
                ClientAction::Fail(
                    SendingError::PermanentError("Connection not awaiting TLS".to_owned()),
                )
            },
        }
    }

    /// Handles one reply from the peer and says what to do next: the
    /// delivery dialogue, step by step, with each step's reply codes
    /// classified by its own table.
    pub fn on_reply(&mut self, reply: &SMTPResponse) -> (r: ClientAction)
        ensures
            envelope_unchanged(old(self), final(self)),
            !(old(self).state is EhloSent || old(self).state is HeloSent) ==> final(self).caps
                == old(self).caps,
            !(old(self).state is MailSent || old(self).state is RcptSent) ==> final(self).headers
                == old(self).headers && final(self).body_enc == old(self).body_enc,
            old(self).state is Banner ==> match banner_class(reply.code) {
                CodeClass::Accepted => final(self).state == (ClientState::EhloSent {
                    after_tls: false,
                }) && (r matches ClientAction::SendLine(s) && s@ == ehlo_line()),
                c => class_failure(c, &r, reply) && final(self).state is Failed,
            },
            old(self).state matches ClientState::EhloSent { after_tls } ==> (if reply.code
                == 502 {
                final(self).state == (ClientState::HeloSent { after_tls }) && (r
                    matches ClientAction::SendLine(s) && s@ == helo_line())
            } else {
                match ehlo_class(reply.code) {
                    CodeClass::Accepted => {
                        &&& final(self).caps.utf8_support == advertises(
                            reply.view_lines(),
                            "8BITMIME"@,
                        )
                        &&& final(self).caps.binary_support == advertises(
                            reply.view_lines(),
                            "BINARYMIME"@,
                        )
                        &&& final(self).caps.chunking_support == advertises(
                            reply.view_lines(),
                            "CHUNKING"@,
                        )
                        &&& final(self).caps.starttls_support == advertises(
                            reply.view_lines(),
                            "STARTTLS"@,
                        )
                        &&& (!after_tls && final(self).caps.starttls_support)
                            ==> (final(self).state is StartTlsSent && (r
                            matches ClientAction::SendLine(s) && s@ == emit_command(
                            "STARTTLS"@,
                            Seq::empty(),
                        )))
                        &&& !(!after_tls && final(self).caps.starttls_support)
                            ==> (final(self).state is MailSent && (r
                            matches ClientAction::SendLine(s) && s@ == mail_line(
                            old(self).reverse_path@,
                            advertises(reply.view_lines(), "8BITMIME"@),
                        )))
                    },
                    c => class_failure(c, &r, reply) && final(self).state is Failed,
                }
            }),
            old(self).state is HeloSent ==> match helo_class(reply.code) {
                CodeClass::Accepted => {
                    &&& !final(self).caps.utf8_support && !final(self).caps.binary_support
                        && !final(self).caps.chunking_support
                        && !final(self).caps.starttls_support
                    &&& final(self).state is MailSent
                    &&& (r matches ClientAction::SendLine(s) && s@ == mail_line(
                        old(self).reverse_path@,
                        false,
                    ))
                },
                c => class_failure(c, &r, reply) && final(self).state is Failed,
            },
            old(self).state is StartTlsSent ==> match starttls_class(reply.code) {
                CodeClass::Accepted => final(self).state is TlsHandshake && (r
                    matches ClientAction::UpgradeTls(d) && d@ == old(self).mx_domain@),
                c => class_failure(c, &r, reply) && final(self).state is Failed,
            },
            old(self).state is MailSent ==> match mail_class(reply.code) {
                CodeClass::Accepted => {
                    if old(self).addresses@.len() > 0 {
                        final(self).state == (ClientState::RcptSent { next: 1usize }) && (r
                            matches ClientAction::SendLine(s) && s@ == rcpt_line(
                            old(self).addresses@[0],
                        ))
                    } else {
                        body_phase_post(old(self), final(self), &r)
                    }
                },
                c => class_failure(c, &r, reply) && final(self).state is Failed,
            },
            old(self).state matches ClientState::RcptSent { next } ==> match rcpt_class(
                reply.code,
            ) {
                CodeClass::Accepted => {
                    if next < old(self).addresses@.len() {
                        final(self).state == (ClientState::RcptSent { next: (next + 1) as usize })
                            && (r matches ClientAction::SendLine(s) && s@ == rcpt_line(
                            old(self).addresses@[next as int],
                        ))
                    } else {
                        body_phase_post(old(self), final(self), &r)
                    }
                },
                c => class_failure(c, &r, reply) && final(self).state is Failed,
            },
            old(self).state is DataSent ==> match body_class(reply.code, 354) {
                CodeClass::Accepted => final(self).state is PayloadSent && (r
                    matches ClientAction::SendBytes(b) && b@ == data_payload_bytes(
                    old(self).headers@,
                    old(self).body_enc@,
                )),
                c => class_failure(c, &r, reply) && final(self).state is Failed,
            },
            old(self).state is PayloadSent ==> (final(self).state is QuitSent && (r
                matches ClientAction::SendLine(s) && s@ == emit_command("QUIT"@, Seq::empty()))),
            old(self).state is BdatHeadersSent ==> match body_class(reply.code, 250) {
                CodeClass::Accepted => final(self).state is BdatBodySent && (r
                    matches ClientAction::SendBytes(b) && b@ == bdat_body_bytes(
                    old(self).body_enc@,
                )),
                c => class_failure(c, &r, reply) && final(self).state is Failed,
            },
            old(self).state is BdatBodySent ==> match body_class(reply.code, 250) {
                CodeClass::Accepted => final(self).state is QuitSent && (r
                    matches ClientAction::SendLine(s) && s@ == emit_command(
                    "QUIT"@,
                    Seq::empty(),
                )),
                c => class_failure(c, &r, reply) && final(self).state is Failed,
            },
            old(self).state is QuitSent ==> (final(self).state is Finished && r
                matches ClientAction::Finished),
            old(self).state is TlsHandshake || old(self).state is Finished
                || old(self).state is Failed ==> (final(self).state is Failed && r
                matches ClientAction::Fail(SendingError::PermanentError(_))),
    {
        match self.state {
            ClientState::Banner => {
                if reply.code == 220 {
                    let cmd = SMTPCommand::new("EHLO", &["relay-mx.as207960.net"]);
                    let line = cmd.to_wire();
                    proof {
                        assert(cmd.view_args() =~= seq!["relay-mx.as207960.net"@]);
                    }
                    self.state = ClientState::EhloSent { after_tls: false };
                    ClientAction::SendLine(line)
                } else if reply.code == 554 {
                    self.fail_with(true, reply)
                } else if reply.code == 421 {
                    self.fail_with(false, reply)
                } else {
                    self.fail_bad()
                }
            },
            ClientState::EhloSent { after_tls } => {
                if reply.code == 250 {
                    let caps = capabilities_from_reply(reply);
                    let starttls = caps.starttls_support;
                    self.caps = caps;
                    if !after_tls && starttls {
                        let cmd = SMTPCommand::new("STARTTLS", &[]);
                        let line = cmd.to_wire();
                        proof {
                            assert(cmd.view_args() =~= Seq::<Seq<char>>::empty());
                        }
                        self.state = ClientState::StartTlsSent;
                        ClientAction::SendLine(line)
                    } else {
                        self.begin_mail()
                    }
                } else if reply.code == 502 {
                    let cmd = SMTPCommand::new("HELO", &["relay-mx.as207960.net"]);
                    let line = cmd.to_wire();
                    proof {
                        assert(cmd.view_args() =~= seq!["relay-mx.as207960.net"@]);
                    }
                    self.state = ClientState::HeloSent { after_tls };
                    ClientAction::SendLine(line)
                } else if reply.code == 500 || reply.code == 501 || reply.code == 550 {
                    self.fail_with(true, reply)
                } else if reply.code == 421 {
                    self.fail_with(false, reply)
                } else {
                    self.fail_bad()
                }
            },
            ClientState::HeloSent { after_tls: _ } => {
                if reply.code == 250 {
                    self.caps = ClientCapabilities::none();
                    self.begin_mail()
                } else if reply.code == 550 {
                    self.fail_with(true, reply)
                } else {
                    self.fail_bad()
                }
            },
            ClientState::StartTlsSent => {
                if reply.code == 220 {
                    self.state = ClientState::TlsHandshake;
                    ClientAction::UpgradeTls(self.mx_domain.clone())
                } else if reply.code == 500 || reply.code == 501 {
                    self.fail_with(true, reply)
                } else if reply.code == 421 || reply.code == 454 {
                    self.fail_with(false, reply)
                } else {
                    self.fail_bad()
                }
            },
            ClientState::MailSent => {
                if reply.code == 250 {
                    if self.addresses.len() > 0 {
                        self.send_rcpt(0)
                    } else {
                        self.begin_body()
                    }
                } else if reply.code == 500 || reply.code == 501 || reply.code == 550
                    || reply.code == 552 || reply.code == 553 || reply.code == 555 {
                    self.fail_with(true, reply)
                } else if reply.code == 421 || reply.code == 451 || reply.code == 452
                    || reply.code == 455 {
                    self.fail_with(false, reply)
                } else {
                    self.fail_bad()
                }
            },
            ClientState::RcptSent { next } => {
                if reply.code == 250 || reply.code == 251 {
                    if next < self.addresses.len() {
                        self.send_rcpt(next)
                    } else {
                        self.begin_body()
                    }
                } else if reply.code == 500 || reply.code == 501 || reply.code == 550
                    || reply.code == 551 || reply.code == 552 || reply.code == 553 || reply.code
                    == 555 || reply.code == 503 {
                    self.fail_with(true, reply)
                } else if reply.code == 421 || reply.code == 450 || reply.code == 451
                    || reply.code == 452 || reply.code == 453 || reply.code == 455 {
                    self.fail_with(false, reply)
                } else {
                    self.fail_bad()
                }
            },
            ClientState::DataSent => {
                if reply.code == 354 {
                    let payload = data_payload_wire(&self.headers, &self.body_enc);
                    self.state = ClientState::PayloadSent;
                    ClientAction::SendBytes(payload)
                } else if reply.code == 500 || reply.code == 501 || reply.code == 503
                    || reply.code == 554 {
                    self.fail_with(true, reply)
                } else if reply.code == 421 {
                    self.fail_with(false, reply)
                } else {
                    self.fail_bad()
                }
            },
            ClientState::PayloadSent => self.send_quit(),
            ClientState::BdatHeadersSent => {
                if reply.code == 250 {
                    let mut count = String::new();
                    push_dec(&mut count, self.body_enc.len() as u64);
                    proof {
                        assert(count@ =~= dec_digits(self.body_enc@.len() as int));
                    }
                    let mut args: Vec<String> = Vec::new();
                    args.push(count);
                    args.push("LAST".to_owned());
                    let cmd = SMTPCommand { verb: "BDAT".to_owned(), args };
                    let line = cmd.to_wire();
                    proof {
                        assert(cmd.view_args() =~= seq![
                            dec_digits(self.body_enc@.len() as int),
                            "LAST"@,
                        ]);
                    }
                    let line_str = line.as_str();
                    let mut bytes = line_str.as_bytes_vec();
                    let mut body = Vec::new();
                    let m = self.body_enc.len();
                    let mut k: usize = 0;
                    while k < m
                        invariant
                            k <= m == self.body_enc@.len(),
                            body@ == self.body_enc@.subrange(0, k as int),
                        decreases m - k,
                    {
                        let b = self.body_enc[k];
                        body.push(b);
                        proof {
                            assert(body@ =~= self.body_enc@.subrange(0, k as int + 1));
                        }
                        k = k + 1;
                    }
                    proof {
                        assert(self.body_enc@.subrange(0, m as int) =~= self.body_enc@);
                    }
                    bytes.append(&mut body);
                    self.state = ClientState::BdatBodySent;
                    proof {
                        assert(bytes@ =~= bdat_body_bytes(self.body_enc@));
                    }
                    ClientAction::SendBytes(bytes)
                } else if reply.code == 500 || reply.code == 501 || reply.code == 503
                    || reply.code == 554 {
                    self.fail_with(true, reply)
                } else if reply.code == 421 {
                    self.fail_with(false, reply)
                } else {
                    self.fail_bad()
                }
            },
            ClientState::BdatBodySent => {
                if reply.code == 250 {
                    self.send_quit()
                } else if reply.code == 500 || reply.code == 501 || reply.code == 503
                    || reply.code == 554 {
                    self.fail_with(true, reply)
                } else if reply.code == 421 {
                    self.fail_with(false, reply)
                } else {
                    self.fail_bad()
                }
            },
            ClientState::QuitSent => {
                self.state = ClientState::Finished;
                ClientAction::Finished
            },
            _ => {
                self.state = ClientState::Failed;
                ClientAction::Fail(
                    SendingError::PermanentError("Reply outside the dialogue".to_owned()),
                )
            },
        }
    }
}

/// What holds after the body phase opened: the body has been encoded for
/// the peer's capabilities and the first body command is on the wire.
pub open spec fn body_phase_post(
    pre: &ClientSession,
    post: &ClientSession,
    r: &ClientAction,
) -> bool {
    &&& post.body_enc@ == (if body_passes_through(&pre.caps, pre.body_kind) {
        pre.body_raw@
    } else {
        qp_encode(pre.body_raw@)
    })
    &&& (body_passes_through(&pre.caps, pre.body_kind) ==> post.headers@ == pre.headers@)
    &&& (pre.caps.chunking_support ==> post.state is BdatHeadersSent && (r
        matches ClientAction::SendBytes(b) && b@ == bdat_headers_bytes(post.headers@)))
    &&& (!pre.caps.chunking_support ==> post.state is DataSent && (r
        matches ClientAction::SendLine(s) && s@ == emit_command("DATA"@, Seq::empty())))
}

/// How the MX loop reacts to one attempt's failure: connection faults move
/// on to the next target, remote failures stop the loop.
pub fn mx_attempt_continues(e: &SendingError) -> (r: bool)
    ensures
        r == (e is ConnectionError || e is InvalidAddress || e is InvalidMessage),
{
    match e {
        SendingError::ConnectionError(_) => true,
        SendingError::InvalidAddress => true,
        SendingError::InvalidMessage(_) => true,
        SendingError::TransientError(_) => false,
        SendingError::PermanentError(_) => false,
    }
}

} // verus!
