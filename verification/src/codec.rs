//! SMTP reply and command codec: parsing and emission of reply blocks and
//! command lines, with round-trip guarantees.
use vstd::prelude::*;
use vstd::string::StrSliceExecFns;
use vstd::string::StringSliceAdditionalSpecFns;

verus! {

/// An SMTP reply: a three-digit code shared by one or more text lines.
#[derive(Debug)]
pub struct SMTPResponse {
    pub code: u16,
    pub lines: Vec<String>,
}

/// An SMTP command: an uppercase verb and its argument tokens in received order.
#[derive(Debug)]
pub struct SMTPCommand {
    pub verb: String,
    pub args: Vec<String>,
}

/// A reply line may not contain CR or LF: those frame the line on the wire.
pub open spec fn wf_reply_line(line: Seq<char>) -> bool {
    forall|i: int| 0 <= i < line.len() ==> line[i] != '\r' && line[i] != '\n'
}

/// A well-formed reply has a three-digit code and at least one CR/LF-free line.
pub open spec fn wf_reply(code: u16, lines: Seq<Seq<char>>) -> bool {
    &&& 100 <= code <= 999
    &&& lines.len() >= 1
    &&& forall|i: int| 0 <= i < lines.len() ==> wf_reply_line(#[trigger] lines[i])
}

/// The character for one decimal digit.
pub open spec fn digit_char(d: int) -> char {
    if d == 0 { '0' }
    else if d == 1 { '1' }
    else if d == 2 { '2' }
    else if d == 3 { '3' }
    else if d == 4 { '4' }
    else if d == 5 { '5' }
    else if d == 6 { '6' }
    else if d == 7 { '7' }
    else if d == 8 { '8' }
    else if d == 9 { '9' }
    else { '?' }
}

/// The numeric value of a decimal digit character, or -1.
pub open spec fn digit_val(c: char) -> int {
    if c == '0' { 0 }
    else if c == '1' { 1 }
    else if c == '2' { 2 }
    else if c == '3' { 3 }
    else if c == '4' { 4 }
    else if c == '5' { 5 }
    else if c == '6' { 6 }
    else if c == '7' { 7 }
    else if c == '8' { 8 }
    else if c == '9' { 9 }
    else { -1 }
}

/// The three decimal digits of a reply code.
pub open spec fn code_chars(code: u16) -> Seq<char> {
    seq![
        digit_char(code as int / 100),
        digit_char((code as int / 10) % 10),
        digit_char(code as int % 10),
    ]
}

/// One reply line on the wire: `code` `sep` `text` CRLF, where `sep` is a
/// space on the final line and a hyphen on every earlier one.
pub open spec fn emit_reply_line(code: u16, line: Seq<char>, last: bool) -> Seq<char> {
    code_chars(code) + seq![if last { ' ' } else { '-' }] + line + seq!['\r', '\n']
}

/// The full wire form of a reply, line by line.
pub open spec fn emit_reply(code: u16, lines: Seq<Seq<char>>) -> Seq<char>
    decreases lines.len(),
{
    if lines.len() == 0 {
        Seq::empty()
    } else if lines.len() == 1 {
        emit_reply_line(code, lines[0], true)
    } else {
        emit_reply_line(code, lines[0], false) + emit_reply(code, lines.drop_first())
    }
}

/// A single-character string for one decimal digit.
fn digit_str(d: u16) -> (r: &'static str)
    requires
        d < 10,
    ensures
        r@ == seq![digit_char(d as int)],
{
    proof {
        reveal_strlit("0");
        reveal_strlit("1");
        reveal_strlit("2");
        reveal_strlit("3");
        reveal_strlit("4");
        reveal_strlit("5");
        reveal_strlit("6");
        reveal_strlit("7");
        reveal_strlit("8");
        reveal_strlit("9");
    }
    match d {
        0 => "0",
        1 => "1",
        2 => "2",
        3 => "3",
        4 => "4",
        5 => "5",
        6 => "6",
        7 => "7",
        8 => "8",
        _ => "9",
    }
}

/// Appends the three decimal digits of `code` to `out`.
fn append_code(out: &mut String, code: u16)
    requires
        100 <= code <= 999,
    ensures
        final(out)@ == old(out)@ + code_chars(code),
{
    let d0 = code / 100;
    let d1 = (code / 10) % 10;
    let d2 = code % 10;
    out.append(digit_str(d0));
    out.append(digit_str(d1));
    out.append(digit_str(d2));
    proof {
        assert(final(out)@ =~= old(out)@ + code_chars(code));
    }
}

/// Index of the first line feed in `s`, or -1 if there is none.
pub open spec fn find_lf(s: Seq<char>) -> int
    decreases s.len(),
{
    if s.len() == 0 {
        -1
    } else if s[0] == '\n' {
        0
    } else {
        let r = find_lf(s.drop_first());
        if r < 0 {
            -1
        } else {
            r + 1
        }
    }
}

pub proof fn lemma_find_lf_bound(s: Seq<char>)
    ensures
        -1 <= find_lf(s) < s.len(),
        find_lf(s) >= 0 ==> s[find_lf(s)] == '\n',
        forall|i: int| 0 <= i < find_lf(s) ==> s[i] != '\n',
        find_lf(s) == -1 ==> forall|i: int| 0 <= i < s.len() ==> s[i] != '\n',
    decreases s.len(),
{
    if s.len() > 0 && s[0] != '\n' {
        lemma_find_lf_bound(s.drop_first());
        assert forall|i: int| 1 <= i < s.len() implies s[i] == s.drop_first()[i - 1] by {}
    }
}

/// The first line feed is where the first line feed is: `find_lf` returns the
/// least index holding `'\n'`.
pub proof fn lemma_find_lf_at(s: Seq<char>, k: int)
    requires
        0 <= k < s.len(),
        s[k] == '\n',
        forall|i: int| 0 <= i < k ==> s[i] != '\n',
    ensures
        find_lf(s) == k,
    decreases s.len(),
{
    if k > 0 {
        lemma_find_lf_at(s.drop_first(), k - 1);
    }
}

/// Parsing one reply line from the head of `s`: the code, whether more lines
/// follow (hyphen separator), the text of the line, and the unconsumed rest.
pub open spec fn parse_reply_line(s: Seq<char>) -> Option<(u16, bool, Seq<char>, Seq<char>)> {
    let k = find_lf(s);
    if k < 5 {
        None
    } else if s[k - 1] != '\r' {
        None
    } else if digit_val(s[0]) < 0 || digit_val(s[1]) < 0 || digit_val(s[2]) < 0 {
        None
    } else if s[3] != ' ' && s[3] != '-' {
        None
    } else {
        Some(
            (
                (100 * digit_val(s[0]) + 10 * digit_val(s[1]) + digit_val(s[2])) as u16,
                s[3] == '-',
                s.subrange(4, k - 1),
                s.skip(k + 1),
            ),
        )
    }
}

/// The lines of a multi-line reply after the first, each carrying `code`.
pub open spec fn parse_reply_more(s: Seq<char>, code: u16) -> Option<Seq<Seq<char>>>
    decreases s.len(),
    via parse_reply_more_dec
{
    match parse_reply_line(s) {
        None => None,
        Some((c, more, text, rest)) => {
            if c != code {
                None
            } else if !more {
                if rest.len() == 0 {
                    Some(seq![text])
                } else {
                    None
                }
            } else {
                match parse_reply_more(rest, code) {
                    None => None,
                    Some(lines) => Some(seq![text] + lines),
                }
            }
        },
    }
}

#[via_fn]
proof fn parse_reply_more_dec(s: Seq<char>, code: u16) {
    lemma_find_lf_bound(s);
}

/// Parsing a whole reply buffer: every line shares the code, the last line
/// carries the space separator, and nothing may follow it.
pub open spec fn parse_reply(s: Seq<char>) -> Option<(u16, Seq<Seq<char>>)> {
    match parse_reply_line(s) {
        None => None,
        Some((code, more, text, rest)) => {
            if !more {
                if rest.len() == 0 {
                    Some((code, seq![text]))
                } else {
                    None
                }
            } else {
                match parse_reply_more(rest, code) {
                    None => None,
                    Some(lines) => Some((code, seq![text] + lines)),
                }
            }
        },
    }
}

/// An emitted reply line parses back to its code, separator and text, leaving
/// exactly the appended rest unconsumed.
proof fn lemma_parse_emit_line(code: u16, line: Seq<char>, last: bool, rest: Seq<char>)
    requires
        100 <= code <= 999,
        wf_reply_line(line),
    ensures
        parse_reply_line(emit_reply_line(code, line, last) + rest) == Some(
            (code, !last, line, rest),
        ),
{
    let s = emit_reply_line(code, line, last) + rest;
    let k: int = line.len() as int + 5;
    assert(s[k] == '\n');
    assert forall|i: int| 0 <= i < k implies s[i] != '\n' by {
        if i >= 4 {
            assert(s[i] == if i < 4 + line.len() {
                line[i - 4]
            } else {
                '\r'
            });
        }
    }
    lemma_find_lf_at(s, k as int);
    let d0 = code as int / 100;
    let d1 = (code as int / 10) % 10;
    let d2 = code as int % 10;
    assert(digit_val(s[0]) == d0);
    assert(digit_val(s[1]) == d1);
    assert(digit_val(s[2]) == d2);
    assert(100 * d0 + 10 * d1 + d2 == code) by (nonlinear_arith)
        requires
            d0 == code as int / 100,
            d1 == (code as int / 10) % 10,
            d2 == code as int % 10,
            100 <= code <= 999,
    ;
    assert(s.subrange(4, k as int - 1) =~= line);
    assert(s.skip(k as int + 1) =~= rest);
}

/// Emitted reply lines parse back, line by line, to the lines they encode.
proof fn lemma_parse_emit_more(code: u16, lines: Seq<Seq<char>>)
    requires
        wf_reply(code, lines),
    ensures
        parse_reply_more(emit_reply(code, lines), code) == Some(lines),
    decreases lines.len(),
{
    if lines.len() == 1 {
        let e = emit_reply_line(code, lines[0], true);
        assert(e + Seq::<char>::empty() =~= e);
        lemma_parse_emit_line(code, lines[0], true, Seq::empty());
        assert(seq![lines[0]] =~= lines);
    } else {
        let tail = lines.drop_first();
        lemma_parse_emit_line(code, lines[0], false, emit_reply(code, tail));
        assert(wf_reply(code, tail));
        lemma_parse_emit_more(code, tail);
        assert(seq![lines[0]] + tail =~= lines);
    }
}

/// Round trip: a well-formed reply emitted to the wire parses back to
/// exactly the same code and lines.
pub proof fn lemma_reply_round_trip(code: u16, lines: Seq<Seq<char>>)
    requires
        wf_reply(code, lines),
    ensures
        parse_reply(emit_reply(code, lines)) == Some((code, lines)),
{
    if lines.len() == 1 {
        let e = emit_reply_line(code, lines[0], true);
        assert(e + Seq::<char>::empty() =~= e);
        lemma_parse_emit_line(code, lines[0], true, Seq::empty());
        assert(seq![lines[0]] =~= lines);
    } else {
        let tail = lines.drop_first();
        lemma_parse_emit_line(code, lines[0], false, emit_reply(code, tail));
        assert(wf_reply(code, tail));
        lemma_parse_emit_more(code, tail);
        assert(seq![lines[0]] + tail =~= lines);
    }
}

/// What remains to be parsed after some lines of a reply have been read:
/// further lines when the separator promised more, otherwise end of input.
pub open spec fn reply_continuation(s: Seq<char>, code: u16, more: bool) -> Option<Seq<Seq<char>>> {
    if more {
        parse_reply_more(s, code)
    } else {
        if s.len() == 0 {
            Some(Seq::empty())
        } else {
            None
        }
    }
}

/// The numeric value of a decimal digit character, executable form.
pub fn char_digit(c: char) -> (r: i32)
    ensures
        r == digit_val(c),
{
    if c == '0' { 0 }
    else if c == '1' { 1 }
    else if c == '2' { 2 }
    else if c == '3' { 3 }
    else if c == '4' { 4 }
    else if c == '5' { 5 }
    else if c == '6' { 6 }
    else if c == '7' { 7 }
    else if c == '8' { 8 }
    else if c == '9' { 9 }
    else { -1 }
}

/// Position of the first line feed in `data` at or after position `p`, or
/// `n` when there is none.
fn scan_lf(data: &str, p: usize, n: usize) -> (r: usize)
    requires
        p <= n == data@.len(),
    ensures
        p <= r <= n,
        r < n ==> data@[r as int] == '\n',
        forall|i: int| p <= i < r ==> data@[i] != '\n',
{
    let mut j: usize = p;
    while j < n
        invariant
            p <= j <= n == data@.len(),
            forall|i: int| p <= i < j ==> data@[i] != '\n',
        decreases n - j,
    {
        if data.get_char(j) == '\n' {
            return j;
        }
        j = j + 1;
    }
    n
}

/// Parses one reply line starting at character position `p` of `data`.
/// Returns the code, the more-lines flag, the line text, and the position
/// just past the line terminator.
fn parse_line_at(data: &str, p: usize, n: usize) -> (r: Option<(u16, bool, String, usize)>)
    requires
        p <= n == data@.len(),
    ensures
        match r {
            Some(t) => {
                &&& parse_reply_line(data@.skip(p as int)) == Some(
                    (t.0, t.1, t.2@, data@.skip(t.3 as int)),
                )
                &&& p < t.3 <= n
            },
            None => parse_reply_line(data@.skip(p as int)) is None,
        },
{
    let ghost s = data@.skip(p as int);
    let j = scan_lf(data, p, n);
    if j == n {
        proof {
            lemma_find_lf_bound(s);
            if find_lf(s) >= 0 {
                assert(data@[find_lf(s) + p] == '\n');
            }
        }
        return None;
    }
    let ghost k: int = j as int - p as int;
    proof {
        assert(s[k] == data@[k + p]);
        assert forall|i: int| 0 <= i < k implies s[i] != '\n' by {
            assert(s[i] == data@[i + p]);
        }
        lemma_find_lf_at(s, k);
    }
    if j - p < 5 {
        return None;
    }
    if data.get_char(j - 1) != '\r' {
        proof {
            assert(s[k - 1] == data@[j - 1]);
        }
        return None;
    }
    let d0 = char_digit(data.get_char(p));
    let d1 = char_digit(data.get_char(p + 1));
    let d2 = char_digit(data.get_char(p + 2));
    proof {
        assert(s[0] == data@[p as int]);
        assert(s[1] == data@[p as int + 1]);
        assert(s[2] == data@[p as int + 2]);
        assert(s[3] == data@[p as int + 3]);
        assert(s[k - 1] == data@[j - 1]);
    }
    if d0 < 0 || d1 < 0 || d2 < 0 {
        return None;
    }
    let sep = data.get_char(p + 3);
    if sep != ' ' && sep != '-' {
        return None;
    }
    let code: u16 = (100 * d0 + 10 * d1 + d2) as u16;
    let text = data.substring_char(p + 4, j - 1).to_owned();
    proof {
        assert(text@ =~= s.subrange(4, k - 1));
        assert(data@.skip(j + 1) =~= s.skip(k + 1));
    }
    Some((code, sep == '-', text, j + 1))
}

impl SMTPResponse {
    /// The view of a reply: its code and the views of its lines.
    pub open spec fn view_lines(&self) -> Seq<Seq<char>> {
        self.lines.deep_view()
    }

    /// Well-formedness of the reply as a value.
    pub open spec fn wf(&self) -> bool {
        wf_reply(self.code, self.view_lines())
    }

    /// A reply with one line.
    pub fn new(code: u16, msg: &str) -> (r: Self)
        ensures
            r.code == code,
            r.view_lines() =~= seq![msg@],
    {
        Self { code, lines: vec![msg.to_owned()] }
    }

    /// Appends one more line to the reply.
    pub fn add_line(&mut self, line: &str)
        ensures
            final(self).code == old(self).code,
            final(self).view_lines() =~= old(self).view_lines().push(line@),
    {
        self.lines.push(line.to_owned());
        proof {
            assert(self.view_lines() =~= old(self).view_lines().push(line@));
        }
    }

    /// Parses a byte-for-byte complete reply: one or more lines sharing the
    /// code, a hyphen separator on all but the last line, nothing after it.
    pub fn parse(data: &str) -> (r: Result<SMTPResponse, String>)
        ensures
            match r {
                Ok(resp) => parse_reply(data@) == Some((resp.code, resp.view_lines())),
                Err(e) => parse_reply(data@) is None && e@ == "Invalid response"@,
            },
    {
        let n = data.unicode_len();
        let first = match parse_line_at(data, 0, n) {
            Some(t) => t,
            None => {
                proof {
                    assert(data@.skip(0) =~= data@);
                }
                return Err("Invalid response".to_owned());
            },
        };
        proof {
            assert(data@.skip(0) =~= data@);
        }
        let code = first.0;
        let mut more = first.1;
        let mut lines: Vec<String> = vec![first.2];
        let mut p = first.3;
        proof {
            assert(lines.deep_view() =~= seq![first.2@]);
        }
        while more
            invariant
                p <= n == data@.len(),
                lines.deep_view().len() >= 1,
                parse_reply(data@) == (match reply_continuation(data@.skip(p as int), code, more) {
                    Some(l) => Some((code, lines.deep_view() + l)),
                    None => None::<(u16, Seq<Seq<char>>)>,
                }),
            decreases n - p,
        {
            match parse_line_at(data, p, n) {
                None => {
                    return Err("Invalid response".to_owned());
                },
                Some(t) => {
                    if t.0 != code {
                        return Err("Invalid response".to_owned());
                    }
                    let ghost old_lines = lines.deep_view();
                    lines.push(t.2);
                    proof {
                        assert(lines.deep_view() =~= old_lines.push(t.2@));
                        if t.1 {
                            if parse_reply_more(data@.skip(t.3 as int), code) is Some {
                                let l2 = parse_reply_more(data@.skip(t.3 as int), code)->Some_0;
                                assert(old_lines + (seq![t.2@] + l2) =~= lines.deep_view() + l2);
                            }
                        } else {
                            if data@.skip(t.3 as int).len() == 0 {
                                assert(old_lines + seq![t.2@] =~= lines.deep_view()
                                    + Seq::<Seq<char>>::empty());
                            }
                        }
                    }
                    more = t.1;
                    p = t.3;
                },
            }
        }
        if p != n {
            return Err("Invalid response".to_owned());
        }
        proof {
            assert(data@.skip(n as int).len() == 0);
            assert(lines.deep_view() + Seq::<Seq<char>>::empty() =~= lines.deep_view());
        }
        Ok(SMTPResponse { code, lines })
    }

    /// What `format_resp` renders: the code in decimal and the lines joined
    /// by CRLF.
    pub open spec fn resp_text(&self) -> Seq<char> {
        "Code: "@ + dec_digits(self.code as int) + ", Message: "@ + join_crlf(self.view_lines())
    }

    /// A human-readable rendering of the reply for diagnostics.
    pub fn format_resp(&self) -> (r: String)
        ensures
            r@ == self.resp_text(),
    {
        let mut out = String::new();
        out.append("Code: ");
        push_dec(&mut out, self.code as u64);
        out.append(", Message: ");
        let n = self.lines.len();
        let mut i: usize = 0;
        proof {
            assert(self.view_lines().skip(0) =~= self.view_lines());
            assert(out@ + join_crlf(self.view_lines()) =~= "Code: "@ + dec_digits(
                self.code as int,
            ) + ", Message: "@ + join_crlf(self.view_lines()));
        }
        while i < n
            invariant
                i <= n == self.lines.len(),
                out@ + join_crlf(self.view_lines().skip(i as int)) =~= "Code: "@ + dec_digits(
                    self.code as int,
                ) + ", Message: "@ + join_crlf(self.view_lines()),
            decreases n - i,
        {
            proof {
                let rest = self.view_lines().skip(i as int);
                assert(rest[0] == self.view_lines()[i as int]);
                assert(rest.drop_first() =~= self.view_lines().skip(i as int + 1));
            }
            out.append(self.lines[i].as_str());
            if i + 1 < n {
                out.append("\r\n");
            }
            proof {
                reveal_strlit("\r\n");
            }
            i = i + 1;
        }
        proof {
            assert(join_crlf(self.view_lines().skip(n as int)) =~= Seq::<char>::empty());
            assert(out@ =~= out@ + join_crlf(self.view_lines().skip(n as int)));
        }
        out
    }

    /// The wire form of the reply: every line prefixed with the code, a
    /// hyphen separator on all but the last line, a space on the last.
    pub fn to_wire(&self) -> (r: String)
        requires
            self.wf(),
        ensures
            r@ == emit_reply(self.code, self.view_lines()),
    {
        let mut out = String::new();
        let n = self.lines.len();
        let mut i: usize = 0;
        proof {
            assert(self.view_lines().skip(0) =~= self.view_lines());
            assert(out@ + emit_reply(self.code, self.view_lines()) =~= emit_reply(
                self.code,
                self.view_lines(),
            ));
        }
        while i < n
            invariant
                n == self.lines.len(),
                0 <= i <= n,
                self.wf(),
                emit_reply(self.code, self.view_lines()) =~= out@ + emit_reply(
                    self.code,
                    self.view_lines().skip(i as int),
                ),
            decreases n - i,
        {
            proof {
                let rest = self.view_lines().skip(i as int);
                assert(rest.len() == n - i);
                assert(rest[0] == self.view_lines()[i as int]);
                assert(rest.drop_first() =~= self.view_lines().skip(i as int + 1));
            }
            append_code(&mut out, self.code);
            if i + 1 == n {
                out.append(" ");
            } else {
                out.append("-");
            }
            out.append(self.lines[i].as_str());
            out.append("\r\n");
            proof {
                reveal_strlit(" ");
                reveal_strlit("-");
                reveal_strlit("\r\n");
            }
            i = i + 1;
        }
        proof {
            assert(self.view_lines().skip(n as int) =~= Seq::<Seq<char>>::empty());
            assert(out@ =~= out@ + emit_reply(self.code, self.view_lines().skip(n as int)));
        }
        out
    }
}

/// ASCII whitespace, as `split_ascii_whitespace` understands it.
pub open spec fn is_ws_char(c: char) -> bool {
    c == ' ' || c == '\t' || c == '\n' || c == '\r' || c == '\x0c'
}

/// The ASCII-whitespace-separated tokens of `s`, in received order.
pub open spec fn split_ws(s: Seq<char>) -> Seq<Seq<char>>
    decreases s.len(),
{
    if s.len() == 0 {
        Seq::empty()
    } else if is_ws_char(s[0]) {
        split_ws(s.drop_first())
    } else {
        let rest = split_ws(s.drop_first());
        if s.len() > 1 && !is_ws_char(s[1]) {
            seq![seq![s[0]] + rest[0]] + rest.drop_first()
        } else {
            seq![seq![s[0]]] + rest
        }
    }
}

/// A token beginning with a non-whitespace character yields at least one
/// token, whose first character is that character.
proof fn lemma_split_ws_nonempty(s: Seq<char>)
    requires
        s.len() > 0,
        !is_ws_char(s[0]),
    ensures
        split_ws(s).len() >= 1,
        split_ws(s)[0].len() >= 1,
        split_ws(s)[0][0] == s[0],
    decreases s.len(),
{
    if s.len() > 1 && !is_ws_char(s[1]) {
        lemma_split_ws_nonempty(s.drop_first());
    }
}

/// Skipping one leading whitespace character does not change the tokens.
proof fn lemma_split_ws_skip(s: Seq<char>, p: int)
    requires
        0 <= p < s.len(),
        is_ws_char(s[p]),
    ensures
        split_ws(s.skip(p)) == split_ws(s.skip(p + 1)),
{
    assert(s.skip(p).drop_first() =~= s.skip(p + 1));
}

/// A maximal run of non-whitespace characters is the first token.
proof fn lemma_split_ws_token(s: Seq<char>, start: int, end: int)
    requires
        0 <= start < end <= s.len(),
        forall|i: int| start <= i < end ==> !is_ws_char(#[trigger] s[i]),
        end == s.len() || is_ws_char(s[end]),
    ensures
        split_ws(s.skip(start)) == seq![s.subrange(start, end)] + split_ws(s.skip(end)),
    decreases end - start,
{
    let tail = s.skip(start);
    assert(!is_ws_char(tail[0]));
    assert(tail.drop_first() =~= s.skip(start + 1));
    if start + 1 == end {
        if end < s.len() {
            assert(is_ws_char(tail[1]));
            assert(seq![tail[0]] =~= s.subrange(start, end));
        } else {
            assert(tail.len() == 1);
            assert(seq![tail[0]] =~= s.subrange(start, end));
        }
    } else {
        assert(!is_ws_char(tail[1]));
        lemma_split_ws_token(s, start + 1, end);
        lemma_split_ws_nonempty(s.skip(start + 1));
        let rest = split_ws(s.skip(start + 1));
        assert(rest[0] == s.subrange(start + 1, end));
        assert(rest.drop_first() == split_ws(s.skip(end)));
        assert(seq![tail[0]] + rest[0] =~= s.subrange(start, end));
    }
}

/// Uppercasing for ASCII letters; other characters are unchanged.
pub open spec fn upper_char(c: char) -> char {
    if 'a' <= c && c <= 'z' {
        ((c as u8) - 32) as char
    } else {
        c
    }
}

/// The canonical verb: ASCII tokens are uppercased, others kept as received.
pub open spec fn verb_canon(t: Seq<char>) -> Seq<char> {
    if vstd::utf8::is_ascii_chars(t) {
        t.map_values(|c: char| upper_char(c))
    } else {
        t
    }
}

/// Whether `c` is ASCII whitespace, executable form.
fn is_ws(c: char) -> (r: bool)
    ensures
        r == is_ws_char(c),
{
    c == ' ' || c == '\t' || c == '\n' || c == '\r' || c == '\x0c'
}

/// Position of the first ASCII whitespace character at or after `p`, or `n`
/// when the rest of the line is one token.
fn scan_ws(data: &str, p: usize, n: usize) -> (r: usize)
    requires
        p <= n == data@.len(),
    ensures
        p <= r <= n,
        r == n || is_ws_char(data@[r as int]),
        forall|i: int| p <= i < r ==> !is_ws_char(#[trigger] data@[i]),
{
    let mut q = p;
    while q < n
        invariant
            p <= q <= n == data@.len(),
            forall|i: int| p <= i < q ==> !is_ws_char(#[trigger] data@[i]),
        decreases n - q,
    {
        if is_ws(data.get_char(q)) {
            return q;
        }
        q = q + 1;
    }
    n
}

/// ASCII uppercase of a token.
fn ascii_upper(t: &str) -> (r: String)
    ensures
        r@ == verb_canon(t@),
{
    if !t.is_ascii() {
        return t.to_owned();
    }
    let bs = t.as_bytes();
    let n = bs.len();
    let mut out: Vec<u8> = Vec::new();
    let mut i: usize = 0;
    proof {
        vstd::string::is_ascii_spec_bytes(t);
        assert(bs@ =~= Seq::new(t@.len(), |k: int| t@[k] as u8));
    }
    while i < n
        invariant
            t.is_ascii(),
            i <= n == t@.len(),
            bs@ == t.spec_bytes(),
            n == bs@.len(),
            out@.len() == i,
            forall|j: int| 0 <= j < i ==> out@[j] == (upper_char(t@[j]) as u8),
            forall|j: int| 0 <= j < i ==> out@[j] < 0x80,
        decreases n - i,
    {
        proof {
            vstd::string::is_ascii_spec_bytes(t);
            assert(bs@[i as int] == t@[i as int] as u8);
            assert('\0' <= t@[i as int] <= '\u{7f}');
        }
        let b = bs[i];
        if b >= 97 && b <= 122 {
            out.push(b - 32);
        } else {
            out.push(b);
        }
        i = i + 1;
    }
    let r = ascii_to_string(out);
    proof {
        assert(r@ =~= verb_canon(t@));
    }
    r
}

/// Relies on `String::from_utf8`: ASCII bytes are valid UTF-8 and decode to
/// the characters with the same values, one per byte.
#[verifier::external_body]
pub(crate) fn ascii_to_string(bytes: Vec<u8>) -> (r: String)
    requires
        forall|i: int| 0 <= i < bytes@.len() ==> bytes@[i] < 0x80,
    ensures
        r@.len() == bytes@.len(),
        forall|i: int| 0 <= i < bytes@.len() ==> r@[i] == (bytes@[i] as char),
{
    String::from_utf8(bytes).unwrap_or_default()
}

impl SMTPCommand {
    /// The views of the argument tokens.
    pub open spec fn view_args(&self) -> Seq<Seq<char>> {
        self.args.deep_view()
    }

    /// A command from a verb and argument slices.
    pub fn new(verb: &str, args: &[&str]) -> (r: Self)
        ensures
            r.verb@ == verb@,
            r.view_args() =~= args.deep_view(),
    {
        let mut a: Vec<String> = Vec::new();
        let n = args.len();
        let mut i: usize = 0;
        while i < n
            invariant
                i <= n == args@.len(),
                a.deep_view() =~= args.deep_view().take(i as int),
            decreases n - i,
        {
            let ghost prev = a.deep_view();
            a.push(args[i].to_owned());
            proof {
                assert(a.deep_view() =~= prev.push(args@[i as int]@));
                assert(a.deep_view() =~= args.deep_view().take(i as int + 1));
            }
            i = i + 1;
        }
        proof {
            assert(args.deep_view().take(n as int) =~= args.deep_view());
        }
        SMTPCommand { verb: verb.to_owned(), args: a }
    }

    /// Splits a received line into its verb (uppercased) and arguments in
    /// received order. A line with no token at all yields `None`.
    pub fn parse(line: &str) -> (r: Option<SMTPCommand>)
        ensures
            match r {
                Some(cmd) => {
                    &&& split_ws(line@).len() >= 1
                    &&& cmd.verb@ == verb_canon(split_ws(line@)[0])
                    &&& cmd.view_args() == split_ws(line@).skip(1)
                },
                None => split_ws(line@).len() == 0,
            },
    {
        let n = line.unicode_len();
        let mut tokens: Vec<String> = Vec::new();
        let mut p: usize = 0;
        proof {
            assert(line@.skip(0) =~= line@);
        }
        while p < n
            invariant
                p <= n == line@.len(),
                split_ws(line@) == tokens.deep_view() + split_ws(line@.skip(p as int)),
            decreases n - p,
        {
            let c = line.get_char(p);
            if is_ws(c) {
                proof {
                    lemma_split_ws_skip(line@, p as int);
                }
                p = p + 1;
            } else {
                let start = p;
                let q = scan_ws(line, p + 1, n);
                proof {
                    lemma_split_ws_token(line@, start as int, q as int);
                }
                let tok = line.substring_char(start, q).to_owned();
                let ghost prev = tokens.deep_view();
                tokens.push(tok);
                proof {
                    assert(tokens.deep_view() =~= prev.push(line@.subrange(
                        start as int,
                        q as int,
                    )));
                    assert(tokens.deep_view() + split_ws(line@.skip(q as int)) =~= prev + (seq![
                        line@.subrange(start as int, q as int),
                    ] + split_ws(line@.skip(q as int))));
                }
                p = q;
            }
        }
        proof {
            assert(line@.skip(n as int) =~= Seq::<char>::empty());
            assert(tokens.deep_view() + split_ws(line@.skip(n as int)) =~= tokens.deep_view());
        }
        if tokens.len() == 0 {
            return None;
        }
        let mut rest = tokens;
        let first = rest.remove(0);
        let verb = ascii_upper(first.as_str());
        proof {
            assert(rest.deep_view() =~= split_ws(line@).skip(1));
        }
        Some(SMTPCommand { verb, args: rest })
    }
}

/// The scalar value of a character with ASCII letters folded to upper case.
pub open spec fn upper_u32(c: char) -> u32 {
    if 'a' <= c && c <= 'z' {
        ((c as u32) - 32) as u32
    } else {
        c as u32
    }
}

/// Character sequences equal up to ASCII letter case.
pub open spec fn eq_ignore_case(a: Seq<char>, b: Seq<char>) -> bool {
    a.len() == b.len() && forall|i: int| 0 <= i < a.len() ==> upper_u32(a[i]) == upper_u32(b[i])
}

/// Compares two strings character by character.
pub fn str_eq(a: &str, b: &str) -> (r: bool)
    ensures
        r == (a@ == b@),
{
    let n = a.unicode_len();
    if n != b.unicode_len() {
        return false;
    }
    let mut i: usize = 0;
    while i < n
        invariant
            i <= n == a@.len(),
            n == b@.len(),
            forall|j: int| 0 <= j < i ==> a@[j] == b@[j],
        decreases n - i,
    {
        if a.get_char(i) != b.get_char(i) {
            return false;
        }
        i = i + 1;
    }
    proof {
        assert(a@ =~= b@);
    }
    true
}

/// Compares two strings ignoring ASCII letter case.
pub fn str_eq_ignore_case(a: &str, b: &str) -> (r: bool)
    ensures
        r == eq_ignore_case(a@, b@),
{
    let n = a.unicode_len();
    if n != b.unicode_len() {
        return false;
    }
    let mut i: usize = 0;
    while i < n
        invariant
            i <= n == a@.len(),
            n == b@.len(),
            forall|j: int| 0 <= j < i ==> upper_u32(a@[j]) == upper_u32(b@[j]),
        decreases n - i,
    {
        let ca = a.get_char(i) as u32;
        let cb = b.get_char(i) as u32;
        let ua = if 97 <= ca && ca <= 122 {
            ca - 32
        } else {
            ca
        };
        let ub = if 97 <= cb && cb <= 122 {
            cb - 32
        } else {
            cb
        };
        if ua != ub {
            return false;
        }
        i = i + 1;
    }
    true
}

/// The wire form of a command's arguments: each preceded by one space.
pub open spec fn args_wire(args: Seq<Seq<char>>) -> Seq<char>
    decreases args.len(),
{
    if args.len() == 0 {
        Seq::empty()
    } else {
        seq![' '] + args[0] + args_wire(args.drop_first())
    }
}

/// The wire form of a command: verb, space-joined arguments, CRLF.
pub open spec fn emit_command(verb: Seq<char>, args: Seq<Seq<char>>) -> Seq<char> {
    verb + args_wire(args) + seq!['\r', '\n']
}

impl SMTPCommand {
    /// The wire form of the command.
    pub fn to_wire(&self) -> (r: String)
        ensures
            r@ == emit_command(self.verb@, self.view_args()),
    {
        let mut out = self.verb.clone();
        let n = self.args.len();
        let mut i: usize = 0;
        proof {
            assert(self.view_args().skip(0) =~= self.view_args());
        }
        while i < n
            invariant
                i <= n == self.args.len(),
                out@ + args_wire(self.view_args().skip(i as int)) =~= self.verb@ + args_wire(
                    self.view_args(),
                ),
            decreases n - i,
        {
            proof {
                let rest = self.view_args().skip(i as int);
                assert(rest[0] == self.view_args()[i as int]);
                assert(rest.drop_first() =~= self.view_args().skip(i as int + 1));
            }
            out.append(" ");
            out.append(self.args[i].as_str());
            proof {
                reveal_strlit(" ");
            }
            i = i + 1;
        }
        proof {
            assert(args_wire(self.view_args().skip(n as int)) =~= Seq::<char>::empty());
            assert(out@ =~= self.verb@ + args_wire(self.view_args()));
        }
        out.append("\r\n");
        proof {
            reveal_strlit("\r\n");
            assert(out@ =~= emit_command(self.verb@, self.view_args()));
        }
        out
    }
}

/// Index of the first space in `s`, or `s.len()` if there is none.
pub open spec fn find_sp(s: Seq<char>) -> int
    decreases s.len(),
{
    if s.len() == 0 {
        0
    } else if s[0] == ' ' {
        0
    } else {
        1 + find_sp(s.drop_first())
    }
}

proof fn lemma_find_sp(s: Seq<char>)
    ensures
        0 <= find_sp(s) <= s.len(),
        find_sp(s) < s.len() ==> s[find_sp(s)] == ' ',
        forall|i: int| 0 <= i < find_sp(s) ==> s[i] != ' ',
    decreases s.len(),
{
    if s.len() > 0 && s[0] != ' ' {
        lemma_find_sp(s.drop_first());
        assert forall|i: int| 1 <= i < s.len() implies s[i] == s.drop_first()[i - 1] by {}
    }
}

/// A command line in normalized form: non-empty, the only whitespace is a
/// single space between tokens, none at either end.
pub open spec fn normalized_command(s: Seq<char>) -> bool {
    &&& s.len() > 0
    &&& forall|i: int|
        0 <= i < s.len() ==> (!is_ws_char(#[trigger] s[i]) || s[i] == ' ')
    &&& s[0] != ' '
    &&& s[s.len() - 1] != ' '
    &&& forall|i: int| 0 <= i < s.len() - 1 ==> !(#[trigger] s[i] == ' ' && s[i + 1] == ' ')
}

/// The canonical wire form of a normalized command line: the verb token
/// uppercased, the rest as received, CRLF appended.
pub open spec fn canonicalise_command(s: Seq<char>) -> Seq<char> {
    let k = find_sp(s);
    verb_canon(s.take(k)) + s.skip(k) + seq!['\r', '\n']
}

/// Space-joined tokens parse and re-emit to themselves: the argument part of
/// a normalized command line survives the round trip unchanged.
proof fn lemma_args_join(s: Seq<char>)
    requires
        s.len() == 0 || (s[0] == ' ' && s.len() >= 2 && s[1] != ' '),
        forall|i: int| 0 <= i < s.len() ==> (!is_ws_char(#[trigger] s[i]) || s[i] == ' '),
        s.len() > 0 ==> s[s.len() - 1] != ' ',
        forall|i: int| 0 <= i < s.len() - 1 ==> !(#[trigger] s[i] == ' ' && s[i + 1] == ' '),
    ensures
        args_wire(split_ws(s)) == s,
    decreases s.len(),
{
    if s.len() == 0 {
        assert(split_ws(s) =~= Seq::<Seq<char>>::empty());
    } else {
        lemma_split_ws_skip(s, 0);
        assert(s.skip(0) =~= s);
        let t = s.skip(1);
        lemma_find_sp(t);
        let k = find_sp(t);
        assert(t[0] == s[1] && t[0] != ' ');
        assert forall|i: int| 0 <= i < k implies !is_ws_char(t[i]) by {
            assert(t[i] == s[i + 1]);
        }
        assert(k < t.len() ==> is_ws_char(t[k]));
        lemma_split_ws_token(t, 0, k);
        assert(t.skip(0) =~= t);
        let rest = t.skip(k);
        assert forall|i: int| 0 <= i < rest.len() implies rest[i] == s[i + k + 1] by {}
        if rest.len() > 0 {
            assert(rest[0] == ' ');
            assert(rest.len() >= 2 && rest[1] != ' ') by {
                assert(rest[0] == s[k + 1]);
                if rest.len() == 1 {
                    assert(s[s.len() - 1] == ' ');
                }
                assert(rest[1] == s[k + 2]);
            }
        }
        lemma_args_join(rest);
        let tok = t.subrange(0, k);
        let cons = seq![tok] + split_ws(rest);
        assert(split_ws(s) == cons);
        assert(cons[0] == tok);
        assert(cons.drop_first() =~= split_ws(rest));
        assert(args_wire(cons) == seq![' '] + tok + args_wire(split_ws(rest)));
        assert(seq![' '] + tok + rest =~= s);
    }
}

/// Round trip for commands: a normalized command line, parsed and emitted
/// again, is its canonical form, with the verb uppercased and the arguments
/// joined by single spaces in received order.
pub proof fn lemma_command_round_trip(s: Seq<char>)
    requires
        normalized_command(s),
    ensures
        split_ws(s).len() >= 1,
        emit_command(verb_canon(split_ws(s)[0]), split_ws(s).skip(1)) == canonicalise_command(s),
{
    lemma_find_sp(s);
    let k = find_sp(s);
    assert(k > 0);
    assert forall|i: int| 0 <= i < k implies !is_ws_char(s[i]) by {}
    lemma_split_ws_token(s, 0, k);
    assert(s.skip(0) =~= s);
    let rest = s.skip(k);
    assert forall|i: int| 0 <= i < rest.len() implies rest[i] == s[i + k] by {}
    if rest.len() > 0 {
        assert(rest[0] == ' ');
        assert(rest.len() >= 2 && rest[1] != ' ') by {
            if rest.len() == 1 {
                assert(s[s.len() - 1] == ' ');
            }
        }
    }
    lemma_args_join(rest);
    assert(split_ws(s)[0] == s.subrange(0, k));
    assert(split_ws(s).skip(1) =~= split_ws(rest));
    assert(s.subrange(0, k) =~= s.take(k));
    assert(emit_command(verb_canon(split_ws(s)[0]), split_ws(s).skip(1)) =~= canonicalise_command(
        s,
    ));
}

/// The decimal digits of a non-negative number.
pub open spec fn dec_digits(n: int) -> Seq<char>
    decreases n,
{
    if n < 10 {
        seq![digit_char(n)]
    } else {
        dec_digits(n / 10) + seq![digit_char(n % 10)]
    }
}

/// Appends the decimal digits of `v` to `out`.
pub fn push_dec(out: &mut String, v: u64)
    ensures
        final(out)@ == old(out)@ + dec_digits(v as int),
    decreases v,
{
    if v < 10 {
        out.append(digit_str((v % 10) as u16));
    } else {
        push_dec(out, v / 10);
        out.append(digit_str((v % 10) as u16));
        proof {
            assert(final(out)@ =~= old(out)@ + dec_digits(v as int));
        }
    }
}

/// Reply lines joined by CRLF, for human-readable logging.
pub open spec fn join_crlf(lines: Seq<Seq<char>>) -> Seq<char>
    decreases lines.len(),
{
    if lines.len() == 0 {
        Seq::empty()
    } else if lines.len() == 1 {
        lines[0]
    } else {
        lines[0] + seq!['\r', '\n'] + join_crlf(lines.drop_first())
    }
}

} // verus!
