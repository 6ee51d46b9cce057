//! RFC 5322 message validation: parsing a byte buffer through `mailparse`
//! and enforcing the envelope header invariants, plus the decomposed part
//! tree that persistence stores.
use vstd::prelude::*;
use crate::address::{AddrEntry, MailAddress, extract_single, flatten_entries, flatten_addr_entries};
use crate::codec::{eq_ignore_case, str_eq_ignore_case};

verus! {

/// One header of a message part: its name and decoded value.
#[derive(Debug)]
pub struct HeaderField {
    pub name: String,
    pub value: String,
}

/// The declared transfer encoding of a message part's body.
#[derive(Debug, PartialEq, Eq, Structural, Clone, Copy)]
pub enum BodyKind {
    Base64,
    QuotedPrintable,
    SevenBit,
    EightBit,
    Binary,
}

/// One node of the decomposed message: headers, decoded body, child parts.
#[derive(Debug)]
pub struct MailPart {
    pub headers: Vec<HeaderField>,
    pub body: Vec<u8>,
    pub subparts: Vec<MailPart>,
}

/// A validated message envelope: the header fields RFC 5322 constrains.
/// The date is a Unix timestamp in seconds; the part tree is decomposed
/// separately by `decompose_message`.
#[derive(Debug)]
pub struct ParsedIMF {
    pub date: i64,
    pub from: Vec<AddrEntry>,
    pub sender: Option<MailAddress>,
    pub reply_to: Option<Vec<AddrEntry>>,
    pub to: Option<Vec<AddrEntry>>,
    pub cc: Option<Vec<AddrEntry>>,
    pub bcc: Option<Vec<AddrEntry>>,
    pub subject: Option<String>,
    pub message_id: Option<String>,
    pub in_reply_to: Option<Vec<String>>,
    pub references: Option<Vec<String>>,
}

impl ParsedIMF {
    /// The envelope invariants that validation establishes: at least one
    /// From mailbox, a Sender exactly when From holds more than one.
    pub open spec fn wf(&self) -> bool {
        &&& flatten_entries(self.from@).len() >= 1
        &&& (self.sender is Some <==> flatten_entries(self.from@).len() > 1)
        &&& (self.reply_to is Some ==> flatten_entries(self.reply_to->Some_0@).len() >= 1)
    }

    /// The From mailboxes, groups flattened, as persistence stores them.
    pub fn mail_from_as_vec(&self) -> (r: Vec<MailAddress>)
        ensures
            r@.len() == flatten_entries(self.from@).len(),
            forall|i: int| 0 <= i < r@.len() ==> r@[i].eq_spec(&flatten_entries(self.from@)[i]),
    {
        flatten_addr_entries(&self.from)
    }

    /// The Reply-To mailboxes, groups flattened, when the header is present.
    pub fn mail_reply_to_as_vec(&self) -> (r: Option<Vec<MailAddress>>)
        ensures
            r is Some <==> self.reply_to is Some,
            r matches Some(v) ==> {
                &&& v@.len() == flatten_entries(self.reply_to->Some_0@).len()
                &&& forall|i: int|
                    0 <= i < v@.len() ==> v@[i].eq_spec(
                        &flatten_entries(self.reply_to->Some_0@)[i],
                    )
            },
    {
        match &self.reply_to {
            Some(reply_to) => Some(flatten_addr_entries(reply_to)),
            None => None,
        }
    }
}

/// The timestamp `mailparse::dateparse` reads out of a date header value,
/// when it accepts the value: a function of the text alone.
pub uninterp spec fn date_seconds_of(s: Seq<char>) -> Option<int>;

/// The message ids `mailparse::msgidparse` reads out of a header value,
/// when it accepts the value: a function of the text alone.
pub uninterp spec fn msg_ids_of(s: Seq<char>) -> Option<Seq<Seq<char>>>;

/// Relies on `mailparse::parse_mail`: parses a byte buffer into a message
/// with headers, a body and subparts. The error is carried as its text.
#[verifier::external_body]
fn parse_mail_bytes<'a>(data: &'a [u8]) -> (r: Result<mailparse::ParsedMail<'a>, String>) {
    mailparse::parse_mail(data).map_err(|e| e.to_string())
}

/// Declares `mailparse::ParsedMail` so parsed messages can be carried
/// through signatures; the value is opaque to verification.
#[verifier::external_type_specification]
#[verifier::external_body]
pub struct ExParsedMail<'a>(mailparse::ParsedMail<'a>);

/// Relies on the public `headers` field of `mailparse::ParsedMail`: how
/// many headers this part carries.
#[verifier::external_body]
fn header_count(m: &mailparse::ParsedMail<'_>) -> (r: usize) {
    m.headers.len()
}

/// Relies on `mailparse::MailHeader::get_key`: the name of the header at
/// this index.
#[verifier::external_body]
fn header_key_at(m: &mailparse::ParsedMail<'_>, i: usize) -> (r: Option<String>) {
    m.headers.get(i).map(|h| h.get_key())
}

/// Relies on `mailparse::MailHeader::get_value`: the decoded value of the
/// header at this index.
#[verifier::external_body]
fn header_value_at(m: &mailparse::ParsedMail<'_>, i: usize) -> (r: Option<String>) {
    m.headers.get(i).map(|h| h.get_value())
}

/// Declares `mailparse::MailAddr` so the conversion below can take it; the
/// value is opaque to verification.
#[verifier::external_type_specification]
#[verifier::external_body]
pub struct ExMailAddr(mailparse::MailAddr);

/// Relies on the variant fields of `mailparse::MailAddr`: one arm per
/// variant, moving each mailbox's display name and address into this
/// crate's types.
#[verifier::external_body]
fn convert_addr(a: mailparse::MailAddr) -> (r: AddrEntry) {
    match a {
        mailparse::MailAddr::Single(s) => AddrEntry::Single(
            MailAddress { display_name: s.display_name, addr: s.addr },
        ),
        mailparse::MailAddr::Group(g) => AddrEntry::Group(
            g.group_name,
            g.addrs.into_iter().map(
                |s| MailAddress { display_name: s.display_name, addr: s.addr },
            ).collect(),
        ),
    }
}

/// The top-level header names and decoded values `mailparse::parse_mail`
/// reads out of a byte buffer, when it accepts the buffer: a function of
/// the bytes alone.
pub uninterp spec fn mail_headers_of(data: Seq<u8>) -> Option<(Seq<Seq<char>>, Seq<Seq<char>>)>;

/// What `mailparse::addrparse_header` reads out of the message's header at
/// one index: whether the list is exactly one plain mailbox, and the
/// flattened mailboxes as plain values; a function of the bytes and index
/// alone. `None` when the bytes do not parse, the index is out of range, or
/// the header is not an address list.
pub uninterp spec fn mailboxes_at(data: Seq<u8>, i: int) -> Option<
    (bool, Seq<(Option<Seq<char>>, Seq<char>)>),
>;

/// Relies on `mailparse::parse_mail` and `MailHeader::{get_key, get_value}`:
/// the top-level header names and decoded values, in order. Parsing is a
/// pure function of the bytes, so the outcome carries its name.
#[verifier::external_body]
fn mail_headers(data: &[u8]) -> (r: Result<(Vec<String>, Vec<String>), String>)
    ensures
        r is Ok <==> mail_headers_of(data@) is Some,
        r matches Ok(p) ==> {
            &&& p.0.deep_view() == mail_headers_of(data@)->Some_0.0
            &&& p.1.deep_view() == mail_headers_of(data@)->Some_0.1
            &&& p.0@.len() == p.1@.len()
        },
{
    match mailparse::parse_mail(data) {
        Ok(m) => Ok((
            m.headers.iter().map(|h| h.get_key()).collect(),
            m.headers.iter().map(|h| h.get_value()).collect(),
        )),
        Err(e) => Err(e.to_string()),
    }
}

/// Relies on `mailparse::parse_mail` and `mailparse::addrparse_header`: the
/// mailboxes of the header at this index; only variant fields are moved.
/// Both parses are pure functions of the bytes, so the outcome carries its
/// name.
#[verifier::external_body]
fn mailbox_list_at(data: &[u8], i: usize) -> (r: Option<Result<Vec<AddrEntry>, String>>)
    ensures
        (r matches Some(res) && res is Ok) <==> mailboxes_at(data@, i as int) is Some,
        r matches Some(res) ==> (res matches Ok(entries) ==> {
            &&& ((entries@.len() == 1 && entries@[0] is Single) <==> mailboxes_at(
                data@,
                i as int,
            )->Some_0.0)
            &&& crate::address::mailbox_views(flatten_entries(entries@)) == mailboxes_at(
                data@,
                i as int,
            )->Some_0.1
        }),
{
    match mailparse::parse_mail(data) {
        Ok(m) => m.headers.get(i).map(|h| match mailparse::addrparse_header(h) {
            Ok(l) => Ok(l.into_inner().into_iter().map(convert_addr).collect()),
            Err(e) => Err(e.to_string()),
        }),
        Err(_) => None,
    }
}

/// The bare address `mailparse::addrparse` reads out of a string, when it
/// parses the string as exactly one plain mailbox: a function of the text
/// alone.
pub uninterp spec fn single_mailbox_of(s: Seq<char>) -> Option<Seq<char>>;

/// Relies on `mailparse::addrparse`: as `addrparse_header_at`, for a bare
/// string. Parsing is a pure function of the text, so whether exactly one
/// plain mailbox comes back, and its address, carry its name.
#[verifier::external_body]
pub fn addrparse_text(s: &str) -> (r: Result<Vec<AddrEntry>, String>)
    ensures
        (r matches Ok(entries) && entries@.len() == 1 && entries@[0] is Single)
            <==> single_mailbox_of(s@) is Some,
        r matches Ok(entries) ==> ((entries@.len() == 1 && entries@[0] is Single)
            ==> entries@[0]->Single_0.addr@ == single_mailbox_of(s@)->Some_0),
{
    match mailparse::addrparse(s) {
        Ok(l) => Ok(l.into_inner().into_iter().map(convert_addr).collect()),
        Err(e) => Err(e.to_string()),
    }
}

/// Relies on `mailparse::dateparse`: reads a date header value as a Unix
/// timestamp in seconds, a function of the text alone.
#[verifier::external_body]
fn date_seconds(s: &str) -> (r: Result<i64, String>)
    ensures
        r is Ok <==> date_seconds_of(s@) is Some,
        r matches Ok(t) ==> date_seconds_of(s@) == Some(t as int),
{
    mailparse::dateparse(s).map_err(|e| e.to_string())
}

/// Relies on `mailparse::msgidparse`: splits a header value into the message
/// ids it lists, a function of the text alone.
#[verifier::external_body]
fn msg_ids(s: &str) -> (r: Result<Vec<String>, String>)
    ensures
        r is Ok <==> msg_ids_of(s@) is Some,
        r matches Ok(ids) ==> msg_ids_of(s@) == Some(ids.deep_view()),
{
    match mailparse::msgidparse(s) {
        Ok(ids) => Ok((*ids).clone()),
        Err(e) => Err(e.to_string()),
    }
}

/// Relies on `mailparse::ParsedMail::get_body_raw`: the body bytes of this
/// part with its transfer encoding undone.
#[verifier::external_body]
fn body_raw(m: &mailparse::ParsedMail<'_>) -> (r: Result<Vec<u8>, String>) {
    m.get_body_raw().map_err(|e| e.to_string())
}

/// Relies on the public `subparts` field of `mailparse::ParsedMail`: how
/// many child parts this part has.
#[verifier::external_body]
fn subpart_count(m: &mailparse::ParsedMail<'_>) -> (r: usize) {
    m.subparts.len()
}

/// Relies on the public `subparts` field of `mailparse::ParsedMail`: one
/// child part by index.
#[verifier::external_body]
fn subpart_at<'a>(m: &'a mailparse::ParsedMail<'a>, i: usize) -> (r: Option<
    &'a mailparse::ParsedMail<'a>,
>) {
    m.subparts.get(i)
}

/// Relies on `mailparse::ParsedMail::get_body_encoded`: the declared
/// transfer encoding of this part and its raw body bytes, one arm per
/// variant.
#[verifier::external_body]
pub fn body_classified(m: &mailparse::ParsedMail<'_>) -> (r: (BodyKind, Vec<u8>)) {
    match m.get_body_encoded() {
        mailparse::body::Body::Base64(e) => (BodyKind::Base64, e.get_raw().to_vec()),
        mailparse::body::Body::QuotedPrintable(e) => (BodyKind::QuotedPrintable, e.get_raw().to_vec()),
        mailparse::body::Body::SevenBit(e) => (BodyKind::SevenBit, e.get_raw().to_vec()),
        mailparse::body::Body::EightBit(e) => (BodyKind::EightBit, e.get_raw().to_vec()),
        mailparse::body::Body::Binary(e) => (BodyKind::Binary, e.get_raw().to_vec()),
    }
}

/// The header at index `i` carries `name`, up to ASCII case.
pub open spec fn named_at(ns: Seq<Seq<char>>, i: int, name: Seq<char>) -> bool {
    0 <= i < ns.len() && eq_ignore_case(ns[i], name)
}

/// No header carries `name`.
pub open spec fn none_named(ns: Seq<Seq<char>>, name: Seq<char>) -> bool {
    forall|i: int| 0 <= i < ns.len() ==> !eq_ignore_case(#[trigger] ns[i], name)
}

/// The header at `i` is the only one carrying `name`.
pub open spec fn unique_named(ns: Seq<Seq<char>>, name: Seq<char>, i: int) -> bool {
    named_at(ns, i, name) && forall|j: int|
        0 <= j < ns.len() && j != i ==> !eq_ignore_case(#[trigger] ns[j], name)
}

/// Exactly one header carries `name`.
pub open spec fn exactly_one_named(ns: Seq<Seq<char>>, name: Seq<char>) -> bool {
    exists|i: int| #[trigger] unique_named(ns, name, i)
}

/// The index of the sole header carrying `name`.
pub open spec fn the_named(ns: Seq<Seq<char>>, name: Seq<char>) -> int {
    choose|i: int| #[trigger] unique_named(ns, name, i)
}

/// Where no header carries the name, no header is the only one carrying it.
pub proof fn lemma_none_not_one(ns: Seq<Seq<char>>, name: Seq<char>)
    requires
        none_named(ns, name),
    ensures
        !exactly_one_named(ns, name),
{
    if exactly_one_named(ns, name) {
        let i = choose|i: int| #[trigger] unique_named(ns, name, i);
        assert(eq_ignore_case(ns[i], name));
    }
}

/// How many mailboxes the From header flattens to.
pub open spec fn from_flat_count(data: Seq<u8>, ns: Seq<Seq<char>>) -> int {
    mailboxes_at(data, the_named(ns, "From"@))->Some_0.1.len() as int
}

/// A single Date header whose value date-parses.
pub open spec fn date_ok(data: Seq<u8>, ns: Seq<Seq<char>>, vs: Seq<Seq<char>>) -> bool {
    exactly_one_named(ns, "Date"@) && date_seconds_of(vs[the_named(ns, "Date"@)]) is Some
}

/// A single From header that address-parses to at least one mailbox.
pub open spec fn from_ok(data: Seq<u8>, ns: Seq<Seq<char>>) -> bool {
    exactly_one_named(ns, "From"@) && (mailboxes_at(data, the_named(ns, "From"@))
        matches Some(f) && f.1.len() >= 1)
}

/// The Sender rule: forbidden when From has one mailbox, otherwise exactly
/// one Sender header parsing to exactly one plain mailbox.
pub open spec fn sender_ok(data: Seq<u8>, ns: Seq<Seq<char>>) -> bool {
    if from_flat_count(data, ns) == 1 {
        none_named(ns, "Sender"@)
    } else {
        exactly_one_named(ns, "Sender"@) && (mailboxes_at(data, the_named(ns, "Sender"@))
            matches Some(t) && t.0)
    }
}

/// An optional address header: absent, or present once and address-parsing,
/// with at least one mailbox where that is demanded.
pub open spec fn addr_opt_ok(
    data: Seq<u8>,
    ns: Seq<Seq<char>>,
    name: Seq<char>,
    need_one: bool,
) -> bool {
    none_named(ns, name) || (exactly_one_named(ns, name) && (mailboxes_at(
        data,
        the_named(ns, name),
    ) matches Some(t) && (need_one ==> t.1.len() >= 1)))
}

/// An optional message-id header: absent, or present once and id-parsing,
/// to exactly one id where that is demanded.
pub open spec fn msgid_ok(
    ns: Seq<Seq<char>>,
    vs: Seq<Seq<char>>,
    name: Seq<char>,
    exactly1: bool,
) -> bool {
    none_named(ns, name) || (exactly_one_named(ns, name) && (msg_ids_of(
        vs[the_named(ns, name)],
    ) matches Some(ids) && (exactly1 ==> ids.len() == 1)))
}

/// When a byte buffer is accepted as a message: it parses, and its envelope
/// headers meet every count and content rule of the data model.
pub open spec fn imf_acceptable(data: Seq<u8>) -> bool {
    mail_headers_of(data) matches Some(nv) && {
        let ns = nv.0;
        let vs = nv.1;
        &&& date_ok(data, ns, vs)
        &&& from_ok(data, ns)
        &&& sender_ok(data, ns)
        &&& addr_opt_ok(data, ns, "Reply-To"@, true)
        &&& addr_opt_ok(data, ns, "To"@, false)
        &&& addr_opt_ok(data, ns, "Cc"@, false)
        &&& addr_opt_ok(data, ns, "Bcc"@, false)
        &&& (none_named(ns, "Subject"@) || exactly_one_named(ns, "Subject"@))
        &&& msgid_ok(ns, vs, "Message-ID"@, true)
        &&& msgid_ok(ns, vs, "In-Reply-To"@, false)
        &&& msgid_ok(ns, vs, "References"@, false)
    }
}

/// An accepted envelope's fields, each tied to the named parse of the bytes.
pub open spec fn imf_matches(imf: ParsedIMF, data: Seq<u8>) -> bool {
    imf_acceptable(data) && {
        let nv = mail_headers_of(data)->Some_0;
        let ns = nv.0;
        let vs = nv.1;
        &&& imf.date as int == date_seconds_of(vs[the_named(ns, "Date"@)])->Some_0
        &&& crate::address::mailbox_views(flatten_entries(imf.from@)) == mailboxes_at(
            data,
            the_named(ns, "From"@),
        )->Some_0.1
        &&& (imf.sender is Some <==> !none_named(ns, "Sender"@))
        &&& (imf.sender matches Some(a) ==> crate::address::mailbox_views(seq![a])
            == mailboxes_at(data, the_named(ns, "Sender"@))->Some_0.1)
        &&& (imf.reply_to is Some <==> !none_named(ns, "Reply-To"@))
        &&& (imf.reply_to matches Some(rt) ==> crate::address::mailbox_views(
            flatten_entries(rt@),
        ) == mailboxes_at(data, the_named(ns, "Reply-To"@))->Some_0.1)
        &&& (imf.to is Some <==> !none_named(ns, "To"@))
        &&& (imf.to matches Some(t) ==> crate::address::mailbox_views(flatten_entries(t@))
            == mailboxes_at(data, the_named(ns, "To"@))->Some_0.1)
        &&& (imf.cc is Some <==> !none_named(ns, "Cc"@))
        &&& (imf.cc matches Some(t) ==> crate::address::mailbox_views(flatten_entries(t@))
            == mailboxes_at(data, the_named(ns, "Cc"@))->Some_0.1)
        &&& (imf.bcc is Some <==> !none_named(ns, "Bcc"@))
        &&& (imf.bcc matches Some(t) ==> crate::address::mailbox_views(flatten_entries(t@))
            == mailboxes_at(data, the_named(ns, "Bcc"@))->Some_0.1)
        &&& (imf.subject is Some <==> !none_named(ns, "Subject"@))
        &&& (imf.subject matches Some(su) ==> su@ == vs[the_named(ns, "Subject"@)])
        &&& (imf.message_id is Some <==> !none_named(ns, "Message-ID"@))
        &&& (imf.message_id matches Some(id) ==> id@ == msg_ids_of(
            vs[the_named(ns, "Message-ID"@)],
        )->Some_0[0])
        &&& (imf.in_reply_to is Some <==> !none_named(ns, "In-Reply-To"@))
        &&& (imf.in_reply_to matches Some(ids) ==> ids.deep_view() == msg_ids_of(
            vs[the_named(ns, "In-Reply-To"@)],
        )->Some_0)
        &&& (imf.references is Some <==> !none_named(ns, "References"@))
        &&& (imf.references matches Some(ids) ==> ids.deep_view() == msg_ids_of(
            vs[the_named(ns, "References"@)],
        )->Some_0)
    }
}

/// Finds the headers named `name`: `Ok(None)` when there is none,
/// `Ok(Some(i))` when exactly the one at index `i`, and `Err(())` when the
/// name occurs more than once.
pub fn single_header_index(names: &Vec<String>, name: &str) -> (r: Result<Option<usize>, ()>)
    ensures
        match r {
            Ok(None) => none_named(names.deep_view(), name@),
            Ok(Some(i)) => {
                &&& i < names@.len()
                &&& unique_named(names.deep_view(), name@, i as int)
                &&& exactly_one_named(names.deep_view(), name@)
                &&& the_named(names.deep_view(), name@) == i as int
            },
            Err(_) => !none_named(names.deep_view(), name@) && !exactly_one_named(
                names.deep_view(),
                name@,
            ),
        },
{
    let n = names.len();
    let mut found: Option<usize> = None;
    let mut i: usize = 0;
    while i < n
        invariant
            i <= n == names@.len(),
            match found {
                None => forall|j: int|
                    0 <= j < i ==> !eq_ignore_case(#[trigger] names@[j]@, name@),
                Some(k) => {
                    &&& k < i
                    &&& eq_ignore_case(names@[k as int]@, name@)
                    &&& forall|j: int|
                        0 <= j < i && j != k ==> !eq_ignore_case(#[trigger] names@[j]@, name@)
                },
            },
        decreases n - i,
    {
        if str_eq_ignore_case(names[i].as_str(), name) {
            match found {
                None => {
                    found = Some(i);
                },
                Some(k) => {
                    proof {
                        let ns = names.deep_view();
                        assert forall|j: int|
                            0 <= j < ns.len() implies #[trigger] ns[j] == names@[j]@ by {}
                        assert(eq_ignore_case(ns[k as int], name@) && eq_ignore_case(
                            ns[i as int],
                            name@,
                        ));
                        assert(!none_named(ns, name@));
                        if exactly_one_named(ns, name@) {
                            let m = choose|m: int| #[trigger] unique_named(ns, name@, m);
                            if m != k as int {
                                assert(!eq_ignore_case(ns[k as int], name@));
                            } else {
                                assert(!eq_ignore_case(ns[i as int], name@));
                            }
                        }
                    }
                    return Err(());
                },
            }
        }
        i = i + 1;
    }
    proof {
        let ns = names.deep_view();
        assert forall|j: int| 0 <= j < ns.len() implies #[trigger] ns[j] == names@[j]@ by {}
        match found {
            None => {
                assert(none_named(ns, name@));
            },
            Some(k) => {
                assert(unique_named(ns, name@, k as int));
                assert(exactly_one_named(ns, name@));
                let c = the_named(ns, name@);
                if c != k as int {
                    assert(unique_named(ns, name@, c));
                    assert(eq_ignore_case(ns[c], name@));
                    assert(!eq_ignore_case(ns[c], name@));
                }
            },
        }
    }
    Ok(found)
}

/// How deep a part tree this crate will decompose; nesting past this depth
/// is rejected as unparseable rather than recursed into without bound.
pub const MAX_PART_DEPTH: u32 = 64;

/// Reads the header names and decoded values of one part, aligned by
/// index with the part's own header order.
fn read_headers(m: &mailparse::ParsedMail<'_>) -> (r: (Vec<String>, Vec<String>))
    ensures
        r.0@.len() == r.1@.len(),
{
    let n = header_count(m);
    let mut names: Vec<String> = Vec::new();
    let mut values: Vec<String> = Vec::new();
    let mut i: usize = 0;
    while i < n
        invariant
            i <= n,
            names@.len() == values@.len(),
        decreases n - i,
    {
        match (header_key_at(m, i), header_value_at(m, i)) {
            (Some(k), Some(v)) => {
                names.push(k);
                values.push(v);
            },
            _ => {},
        }
        i = i + 1;
    }
    (names, values)
}

/// Decomposes one parsed part into this crate's part tree, recursing into
/// subparts down to a fixed depth bound.
fn convert_part(m: &mailparse::ParsedMail<'_>, depth: u32) -> (r: Result<MailPart, String>)
    decreases depth,
{
    if depth == 0 {
        return Err("Message part tree too deep".to_owned());
    }
    let (names, values) = read_headers(m);
    let mut headers: Vec<HeaderField> = Vec::new();
    let n = names.len();
    let mut i: usize = 0;
    let mut names = names;
    let mut values = values;
    while i < n
        invariant
            i <= n,
            names@.len() == n - i,
            values@.len() == n - i,
        decreases n - i,
    {
        let name = names.remove(0);
        let value = values.remove(0);
        headers.push(HeaderField { name, value });
        i = i + 1;
    }
    let body = body_raw(m)?;
    let count = subpart_count(m);
    let mut subparts: Vec<MailPart> = Vec::new();
    let mut k: usize = 0;
    while k < count
        invariant
            k <= count,
            depth >= 1,
        decreases count - k,
    {
        match subpart_at(m, k) {
            Some(p) => {
                let sub = convert_part(p, depth - 1)?;
                subparts.push(sub);
            },
            None => {
                return Err("Message part tree changed during decomposition".to_owned());
            },
        }
        k = k + 1;
    }
    Ok(MailPart { headers, body, subparts })
}

/// How many nodes a part tree holds.
pub open spec fn node_count(p: MailPart) -> nat
    decreases p,
{
    1 + subtree_count(p.subparts@)
}

/// How many nodes a list of part trees holds.
pub open spec fn subtree_count(s: Seq<MailPart>) -> nat
    decreases s,
{
    if s.len() == 0 {
        0
    } else {
        node_count(s[0]) + subtree_count(s.drop_first())
    }
}

/// The id the recursion assigns to the root row of child `k` of a part
/// whose own numbering starts at `next_id`: the last id of that child's
/// subtree.
pub open spec fn child_root_id(next_id: int, subs: Seq<MailPart>, k: int) -> int {
    next_id + subtree_count(subs) - subtree_count(subs.skip(k + 1)) - 1
}

/// Flattens a part tree into storage rows, assigning ids in sequence from
/// `next_id`: children rows come before their parent, the root's child ids
/// point at the recursive roots of its children, and the root's own row
/// comes last under the returned final id minus one.
pub fn part_rows(part: &MailPart, next_id: u128, out: &mut Vec<crate::models::NewMailSubpart>)
    -> (r: u128)
    requires
        next_id + node_count(*part) <= u128::MAX,
    ensures
        r == next_id + node_count(*part),
        final(out)@.len() == old(out)@.len() + node_count(*part),
        final(out)@.len() >= 1,
        final(out)@.take(old(out)@.len() as int) == old(out)@,
        ({
            let root = final(out)@.last();
            &&& root.id == r - 1
            &&& root.headers@.len() == part.headers@.len()
            &&& forall|i: int|
                0 <= i < root.headers@.len() ==> (#[trigger] root.headers@[i]).0@
                    == part.headers@[i].name@ && root.headers@[i].1@ == part.headers@[i].value@
            &&& root.body@ == part.body@
            &&& root.subparts@.len() == part.subparts@.len()
            &&& forall|k: int|
                0 <= k < root.subparts@.len() ==> (#[trigger] root.subparts@[k]) as int
                    == child_root_id(next_id as int, part.subparts@, k)
        }),
    decreases *part,
{
    let ghost pre = out@;
    let mut child_ids: Vec<u128> = Vec::new();
    let mut id = next_id;
    let n = part.subparts.len();
    let mut i: usize = 0;
    proof {
        assert(subtree_count(part.subparts@.skip(0)) == subtree_count(part.subparts@)) by {
            assert(part.subparts@.skip(0) =~= part.subparts@);
        }
    }
    while i < n
        invariant
            i <= n == part.subparts@.len(),
            child_ids@.len() == i,
            forall|k: int|
                0 <= k < i ==> (#[trigger] child_ids@[k]) as int == child_root_id(
                    next_id as int,
                    part.subparts@,
                    k,
                ),
            id == next_id + subtree_count(part.subparts@) - subtree_count(
                part.subparts@.skip(i as int),
            ),
            next_id + node_count(*part) <= u128::MAX,
            out@.len() == pre.len() + subtree_count(part.subparts@) - subtree_count(
                part.subparts@.skip(i as int),
            ),
            out@.len() >= pre.len(),
            out@.take(pre.len() as int) == pre,
        decreases n - i,
    {
        proof {
            assert(part.subparts@.skip(i as int).drop_first() =~= part.subparts@.skip(
                i as int + 1,
            ));
            assert(part.subparts@.skip(i as int)[0] == part.subparts@[i as int]);
            lemma_subtree_prefix(part.subparts@, i as int);
        }
        let child = &part.subparts[i];
        let ghost before_child = out@;
        let new_id = part_rows(child, id, out);
        child_ids.push(new_id - 1);
        proof {
            assert(out@.take(before_child.len() as int) == before_child);
            assert forall|j: int| 0 <= j < pre.len() implies out@[j] == pre[j] by {
                assert(out@[j] == out@.take(before_child.len() as int)[j]);
                assert(before_child[j] == before_child.take(pre.len() as int)[j]);
            }
            assert(out@.take(pre.len() as int) =~= pre);
        }
        id = new_id;
        i = i + 1;
    }
    proof {
        assert(subtree_count(part.subparts@.skip(n as int)) == 0) by {
            assert(part.subparts@.skip(n as int) =~= Seq::<MailPart>::empty());
        }
    }
    let mut headers: Vec<(String, String)> = Vec::new();
    let m = part.headers.len();
    let mut k: usize = 0;
    while k < m
        invariant
            k <= m == part.headers@.len(),
            headers@.len() == k,
            forall|j: int|
                0 <= j < k ==> (#[trigger] headers@[j]).0@ == part.headers@[j].name@
                    && headers@[j].1@ == part.headers@[j].value@,
        decreases m - k,
    {
        headers.push((part.headers[k].name.clone(), part.headers[k].value.clone()));
        k = k + 1;
    }
    let mut body: Vec<u8> = Vec::new();
    let b = part.body.len();
    let mut k2: usize = 0;
    while k2 < b
        invariant
            k2 <= b == part.body@.len(),
            body@ == part.body@.subrange(0, k2 as int),
        decreases b - k2,
    {
        let byte = part.body[k2];
        body.push(byte);
        proof {
            assert(body@ =~= part.body@.subrange(0, k2 as int + 1));
        }
        k2 = k2 + 1;
    }
    proof {
        assert(part.body@.subrange(0, b as int) =~= part.body@);
    }
    out.push(
        crate::models::NewMailSubpart { id, headers, body, subparts: child_ids },
    );
    proof {
        assert(out@.take(pre.len() as int) =~= pre);
    }
    id + 1
}

/// The nodes of a prefix of siblings never exceed the nodes of them all.
proof fn lemma_subtree_prefix(s: Seq<MailPart>, i: int)
    requires
        0 <= i < s.len(),
    ensures
        node_count(s[i]) <= subtree_count(s.skip(i)),
        subtree_count(s.skip(i)) == node_count(s[i]) + subtree_count(s.skip(i + 1)),
    decreases s.len() - i,
{
    assert(s.skip(i)[0] == s[i]);
    assert(s.skip(i).drop_first() =~= s.skip(i + 1));
}

/// The mailboxes of the header at one index, as validation reads them; an
/// index that cannot be read counts as a parse failure.
fn mailboxes_of_header(data: &[u8], i: usize) -> (r: Result<Vec<AddrEntry>, String>)
    ensures
        r is Ok <==> mailboxes_at(data@, i as int) is Some,
        r matches Ok(entries) ==> {
            &&& ((entries@.len() == 1 && entries@[0] is Single) <==> mailboxes_at(
                data@,
                i as int,
            )->Some_0.0)
            &&& crate::address::mailbox_views(flatten_entries(entries@)) == mailboxes_at(
                data@,
                i as int,
            )->Some_0.1
        },
{
    match mailbox_list_at(data, i) {
        Some(res) => res,
        None => Err("Header out of range".to_owned()),
    }
}

/// Parses and validates a byte buffer as an RFC 5322 message: `mailparse`
/// reads the raw structure, and this function enforces the envelope header
/// invariants, accepting exactly the buffers `imf_acceptable` admits and
/// rejecting everything else with a diagnostic text.
pub fn parse_and_validate_parsed_mail(data: &[u8]) -> (r: Result<ParsedIMF, String>)
    ensures
        r is Ok <==> imf_acceptable(data@),
        r matches Ok(imf) ==> imf_matches(imf, data@) && imf.wf(),
{
    let (names, values) = match mail_headers(data) {
        Ok(p) => p,
        Err(e) => {
            return Err(e);
        },
    };
    let ghost ns = mail_headers_of(data@)->Some_0.0;
    let ghost vs = mail_headers_of(data@)->Some_0.1;
    proof {
        assert(names.deep_view() == ns);
        assert(values.deep_view() == vs);
        assert forall|j: int| 0 <= j < vs.len() implies #[trigger] vs[j] == values@[j]@ by {
            assert(values.deep_view()[j] == values@[j]@);
        }
    }

    let date: i64 = match single_header_index(&names, "Date") {
        Ok(Some(i)) => {
            match date_seconds(values[i].as_str()) {
                Ok(t) => t,
                Err(e) => {
                    return Err(e);
                },
            }
        },
        Ok(None) => {
            proof {
                lemma_none_not_one(ns, "Date"@);
            }
            return Err("Invalid number of Date headers".to_owned());
        },
        Err(_) => {
            return Err("Invalid number of Date headers".to_owned());
        },
    };

    let from: Vec<AddrEntry> = match single_header_index(&names, "From") {
        Ok(Some(i)) => {
            let entries = match mailboxes_of_header(data, i) {
                Ok(entries) => entries,
                Err(e) => {
                    return Err(e);
                },
            };
            if flatten_addr_entries(&entries).len() < 1 {
                proof {
                    assert(crate::address::mailbox_views(flatten_entries(entries@)).len()
                        == flatten_entries(entries@).len());
                }
                return Err("Invalid number of From addresses".to_owned());
            }
            entries
        },
        Ok(None) => {
            proof {
                lemma_none_not_one(ns, "From"@);
            }
            return Err("Invalid number of From headers".to_owned());
        },
        Err(_) => {
            return Err("Invalid number of From headers".to_owned());
        },
    };
    let from_count = flatten_addr_entries(&from).len();
    proof {
        assert(crate::address::mailbox_views(flatten_entries(from@)).len() == flatten_entries(
            from@,
        ).len());
        assert(from_count as int == from_flat_count(data@, ns));
    }

    let sender: Option<MailAddress> = match single_header_index(&names, "Sender") {
        Ok(None) => {
            if from_count != 1 {
                return Err("Invalid number of Sender headers".to_owned());
            }
            None
        },
        Ok(Some(i)) => {
            if from_count == 1 {
                proof {
                    assert(eq_ignore_case(ns[i as int], "Sender"@));
                }
                return Err("Invalid number of Sender headers".to_owned());
            }
            let entries = match mailboxes_of_header(data, i) {
                Ok(entries) => entries,
                Err(e) => {
                    return Err(e);
                },
            };
            match extract_single(&entries) {
                Some(a) => {
                    proof {
                        let mb = entries@[0]->Single_0;
                        assert(flatten_entries(entries@) =~= seq![mb]) by {
                            assert(flatten_entries(entries@.drop_first())
                                =~= Seq::<MailAddress>::empty());
                            assert(flatten_entries(entries@) == seq![mb] + flatten_entries(
                                entries@.drop_first(),
                            ));
                        }
                        assert(crate::address::mailbox_views(seq![a])
                            =~= crate::address::mailbox_views(seq![mb]));
                    }
                    Some(a)
                },
                None => {
                    return Err("Only a single address is allowed as a Sender".to_owned());
                },
            }
        },
        Err(_) => {
            return Err("Invalid number of Sender headers".to_owned());
        },
    };

    let reply_to: Option<Vec<AddrEntry>> = match single_header_index(&names, "Reply-To") {
        Ok(None) => None,
        Ok(Some(i)) => {
            let entries = match mailboxes_of_header(data, i) {
                Ok(entries) => entries,
                Err(e) => {
                    proof {
                        assert(eq_ignore_case(ns[i as int], "Reply-To"@));
                    }
                    return Err(e);
                },
            };
            if flatten_addr_entries(&entries).len() < 1 {
                proof {
                    assert(crate::address::mailbox_views(flatten_entries(entries@)).len()
                        == flatten_entries(entries@).len());
                }
                return Err("Invalid number of Reply-To addresses".to_owned());
            }
            Some(entries)
        },
        Err(_) => {
            return Err("Invalid number of Reply-To headers".to_owned());
        },
    };

    let to: Option<Vec<AddrEntry>> = match single_header_index(&names, "To") {
        Ok(None) => None,
        Ok(Some(i)) => {
            match mailboxes_of_header(data, i) {
                Ok(entries) => Some(entries),
                Err(e) => {
                    proof {
                        assert(eq_ignore_case(ns[i as int], "To"@));
                    }
                    return Err(e);
                },
            }
        },
        Err(_) => {
            return Err("Invalid number of To headers".to_owned());
        },
    };

    let cc: Option<Vec<AddrEntry>> = match single_header_index(&names, "Cc") {
        Ok(None) => None,
        Ok(Some(i)) => {
            match mailboxes_of_header(data, i) {
                Ok(entries) => Some(entries),
                Err(e) => {
                    proof {
                        assert(eq_ignore_case(ns[i as int], "Cc"@));
                    }
                    return Err(e);
                },
            }
        },
        Err(_) => {
            return Err("Invalid number of Cc headers".to_owned());
        },
    };

    let bcc: Option<Vec<AddrEntry>> = match single_header_index(&names, "Bcc") {
        Ok(None) => None,
        Ok(Some(i)) => {
            match mailboxes_of_header(data, i) {
                Ok(entries) => Some(entries),
                Err(e) => {
                    proof {
                        assert(eq_ignore_case(ns[i as int], "Bcc"@));
                    }
                    return Err(e);
                },
            }
        },
        Err(_) => {
            return Err("Invalid number of Bcc headers".to_owned());
        },
    };

    let subject: Option<String> = match single_header_index(&names, "Subject") {
        Ok(None) => None,
        Ok(Some(i)) => Some(values[i].clone()),
        Err(_) => {
            return Err("Invalid number of Subject headers".to_owned());
        },
    };

    let message_id: Option<String> = match single_header_index(&names, "Message-ID") {
        Ok(None) => None,
        Ok(Some(i)) => {
            let mut ids = match msg_ids(values[i].as_str()) {
                Ok(ids) => ids,
                Err(e) => {
                    proof {
                        assert(eq_ignore_case(ns[i as int], "Message-ID"@));
                    }
                    return Err(e);
                },
            };
            if ids.len() != 1 {
                proof {
                    assert(ids.deep_view().len() == ids@.len());
                }
                return Err("Invalid number of Message-IDs".to_owned());
            }
            let ghost idsv = ids.deep_view();
            match ids.pop() {
                Some(id) => {
                    proof {
                        assert(id@ == idsv[0]);
                    }
                    Some(id)
                },
                None => {
                    proof {
                        assert(false);
                    }
                    None
                },
            }
        },
        Err(_) => {
            return Err("Invalid number of Message-ID headers".to_owned());
        },
    };

    let in_reply_to: Option<Vec<String>> = match single_header_index(&names, "In-Reply-To") {
        Ok(None) => None,
        Ok(Some(i)) => {
            match msg_ids(values[i].as_str()) {
                Ok(ids) => Some(ids),
                Err(e) => {
                    proof {
                        assert(eq_ignore_case(ns[i as int], "In-Reply-To"@));
                    }
                    return Err(e);
                },
            }
        },
        Err(_) => {
            return Err("Invalid number of In-Reply-To headers".to_owned());
        },
    };

    let references: Option<Vec<String>> = match single_header_index(&names, "References") {
        Ok(None) => None,
        Ok(Some(i)) => {
            match msg_ids(values[i].as_str()) {
                Ok(ids) => Some(ids),
                Err(e) => {
                    proof {
                        assert(eq_ignore_case(ns[i as int], "References"@));
                    }
                    return Err(e);
                },
            }
        },
        Err(_) => {
            return Err("Invalid number of References headers".to_owned());
        },
    };

    Ok(
        ParsedIMF {
            date,
            from,
            sender,
            reply_to,
            to,
            cc,
            bcc,
            subject,
            message_id,
            in_reply_to,
            references,
        },
    )
}

/// Decomposes a byte buffer into this crate's part tree: `mailparse` reads
/// the structure, each part's body is transfer-decoded, and nesting past
/// the depth bound is rejected.
pub fn decompose_message(data: &[u8]) -> (r: Result<MailPart, String>) {
    let mail = parse_mail_bytes(data)?;
    convert_part(&mail, MAX_PART_DEPTH)
}

/// Reads a stored outbound message for delivery: its top-level headers, the
/// declared transfer encoding of its body, and the raw body bytes.
pub fn message_for_delivery(data: &[u8]) -> (r: Result<(Vec<HeaderField>, BodyKind, Vec<u8>), String>) {
    let mail = parse_mail_bytes(data)?;
    let (names, values) = read_headers(&mail);
    let mut headers: Vec<HeaderField> = Vec::new();
    let n = names.len();
    let mut names = names;
    let mut values = values;
    let mut i: usize = 0;
    while i < n
        invariant
            i <= n,
            names@.len() == n - i,
            values@.len() == n - i,
        decreases n - i,
    {
        let name = names.remove(0);
        let value = values.remove(0);
        headers.push(HeaderField { name, value });
        i = i + 1;
    }
    let (kind, raw) = body_classified(&mail);
    Ok((headers, kind, raw))
}

} // verus!