//! The envelope codec: one line of text per message, in a flat JSON shape.
//!
//! `encode` writes the canonical line for an envelope; `decode` reads one
//! line back. The grammar is fixed: fields in canonical order, no spaces
//! between tokens, strings without escape sequences. Decoding is specified
//! by the parsing functions here, and decoding an encoded envelope returns
//! the envelope unchanged ([`lemma_decode_encode`]).

use crate::digits::{dec_chars, digit_char, digit_val, is_digit, val_of};
use crate::msg::{Body, BodyView, Message, MessageView, Payload, PayloadView};
use vstd::prelude::*;

verus! {

broadcast use vstd::utf8::char_u32_cast;

/// A character that may stand inside an encoded string: anything but the
/// closing quote, the escape character, and control characters.
pub open spec fn wf_char(c: char) -> bool {
    c != '"' && c != '\\' && c as u32 >= 32
}

/// A string all of whose characters may stand inside an encoded string.
pub open spec fn wf_chars(s: Seq<char>) -> bool {
    forall|i: int| 0 <= i < s.len() ==> wf_char(#[trigger] s[i])
}

/// A payload whose strings are representable on the wire.
pub open spec fn wf_payload(p: PayloadView) -> bool {
    match p {
        PayloadView::Init { node_id, node_ids } => wf_chars(node_id) && forall|i: int|
            0 <= i < node_ids.len() ==> wf_chars(#[trigger] node_ids[i]),
        _ => true,
    }
}

/// An envelope that is representable on the wire.
pub open spec fn wf_msg(m: MessageView) -> bool {
    wf_chars(m.src) && wf_chars(m.dest) && wf_payload(m.body.payload)
}

pub open spec fn lit_src() -> Seq<char> {
    "{\"src\":\""@
}

pub open spec fn lit_dest() -> Seq<char> {
    ",\"dest\":\""@
}

pub open spec fn lit_body() -> Seq<char> {
    ",\"body\":{\"type\":\""@
}

pub open spec fn lit_quote() -> Seq<char> {
    "\""@
}

pub open spec fn lit_msg_id() -> Seq<char> {
    ",\"msg_id\":"@
}

pub open spec fn lit_in_reply_to() -> Seq<char> {
    ",\"in_reply_to\":"@
}

pub open spec fn lit_node_id() -> Seq<char> {
    ",\"node_id\":\""@
}

pub open spec fn lit_node_ids() -> Seq<char> {
    ",\"node_ids\":["@
}

pub open spec fn lit_id() -> Seq<char> {
    ",\"id\":"@
}

pub open spec fn lit_end() -> Seq<char> {
    "}}"@
}

pub open spec fn lit_comma() -> Seq<char> {
    ","@
}

pub open spec fn lit_close_bracket() -> Seq<char> {
    "]"@
}

pub open spec fn lit_newline() -> Seq<char> {
    "\n"@
}

/// The wire tag of a payload variant.
pub open spec fn tag_of(p: PayloadView) -> Seq<char> {
    match p {
        PayloadView::Generate => "generate"@,
        PayloadView::GenerateOk { .. } => "generate_ok"@,
        PayloadView::Init { .. } => "init"@,
        PayloadView::InitOk => "init_ok"@,
    }
}

/// A string in quotes.
pub open spec fn quoted(s: Seq<char>) -> Seq<char> {
    lit_quote() + s + lit_quote()
}

/// An optional numeric field: nothing when absent, its key (with the
/// leading comma) and decimal numeral when present.
pub open spec fn enc_opt_num(key: Seq<char>, v: Option<usize>) -> Seq<char> {
    match v {
        None => Seq::empty(),
        Some(x) => key + dec_chars(x as int),
    }
}

/// The identifier list elements after the first: `,"x"` for each.
pub open spec fn enc_ids_more(ids: Seq<Seq<char>>) -> Seq<char>
    decreases ids.len(),
{
    if ids.len() == 0 {
        Seq::empty()
    } else {
        lit_comma() + quoted(ids[0]) + enc_ids_more(ids.drop_first())
    }
}

/// The identifier list body: quoted elements separated by commas.
pub open spec fn enc_ids(ids: Seq<Seq<char>>) -> Seq<char> {
    if ids.len() == 0 {
        Seq::empty()
    } else {
        quoted(ids[0]) + enc_ids_more(ids.drop_first())
    }
}

/// The variant-specific fields of a payload.
pub open spec fn enc_extra(p: PayloadView) -> Seq<char> {
    match p {
        PayloadView::Generate => Seq::empty(),
        PayloadView::InitOk => Seq::empty(),
        PayloadView::GenerateOk { id } => lit_id() + dec_chars(id as int),
        PayloadView::Init { node_id, node_ids } => lit_node_id() + node_id + lit_quote()
            + lit_node_ids() + enc_ids(node_ids) + lit_close_bracket(),
    }
}

/// The encoded body: the tag, the correlation fields when present, then the
/// variant fields, all in one flat object.
pub open spec fn spec_encode_body(b: BodyView) -> Seq<char> {
    tag_of(b.payload) + lit_quote() + enc_opt_num(lit_msg_id(), b.msg_id) + enc_opt_num(
        lit_in_reply_to(),
        b.in_reply_to,
    ) + enc_extra(b.payload)
}

/// The encoded envelope, without the line terminator.
pub open spec fn spec_encode_msg(m: MessageView) -> Seq<char> {
    lit_src() + m.src + lit_quote() + lit_dest() + m.dest + lit_quote() + lit_body()
        + spec_encode_body(m.body) + lit_end()
}

/// The encoded envelope as one full line, terminated by a newline.
pub open spec fn spec_encode_line(m: MessageView) -> Seq<char> {
    spec_encode_msg(m) + lit_newline()
}

/// Appending an identifier to a list extends its encoding by a separator
/// (except for the first element) and the quoted identifier.
proof fn lemma_enc_ids_more_push(ids: Seq<Seq<char>>, x: Seq<char>)
    ensures
        enc_ids_more(ids.push(x)) == enc_ids_more(ids) + lit_comma() + quoted(x),
    decreases ids.len(),
{
    let p = ids.push(x);
    if ids.len() == 0 {
        assert(p.len() == 1);
        assert(p[0] == x);
        assert(p.drop_first() =~= Seq::<Seq<char>>::empty());
        assert(enc_ids_more(Seq::<Seq<char>>::empty()) == Seq::<char>::empty());
        assert(ids =~= Seq::<Seq<char>>::empty());
        assert(enc_ids_more(p) =~= enc_ids_more(ids) + lit_comma() + quoted(x));
    } else {
        assert(p[0] == ids[0]);
        assert(p.drop_first() =~= ids.drop_first().push(x));
        lemma_enc_ids_more_push(ids.drop_first(), x);
        assert(enc_ids_more(p) =~= enc_ids_more(ids) + lit_comma() + quoted(x));
    }
}

proof fn lemma_enc_ids_push(ids: Seq<Seq<char>>, x: Seq<char>)
    ensures
        ids.len() == 0 ==> enc_ids(ids.push(x)) == quoted(x),
        ids.len() > 0 ==> enc_ids(ids.push(x)) == enc_ids(ids) + lit_comma() + quoted(x),
{
    let p = ids.push(x);
    if ids.len() == 0 {
        assert(p[0] == x);
        assert(p.drop_first() =~= Seq::<Seq<char>>::empty());
        assert(enc_ids(p) =~= quoted(x));
    } else {
        assert(p[0] == ids[0]);
        assert(p.drop_first() =~= ids.drop_first().push(x));
        lemma_enc_ids_more_push(ids.drop_first(), x);
        assert(enc_ids(p) =~= enc_ids(ids) + lit_comma() + quoted(x));
    }
}

/// Writes the identifier list body onto `out`.
fn encode_ids(out: &mut String, ids: &Vec<String>)
    ensures
        final(out)@ == old(out)@ + enc_ids(ids.deep_view()),
{
    let ghost pre = out@;
    let ghost idsv = ids.deep_view();
    let mut i: usize = 0;
    proof {
        assert(idsv.take(0) =~= Seq::<Seq<char>>::empty());
        assert(pre + enc_ids(idsv.take(0)) =~= pre);
    }
    while i < ids.len()
        invariant
            i <= ids@.len(),
            idsv == ids.deep_view(),
            idsv.len() == ids@.len(),
            out@ == pre + enc_ids(idsv.take(i as int)),
        decreases ids@.len() - i,
    {
        proof {
            assert(idsv.take(i as int + 1) =~= idsv.take(i as int).push(idsv[i as int]));
            lemma_enc_ids_push(idsv.take(i as int), idsv[i as int]);
        }
        if i > 0 {
            out.append(",");
        }
        out.append("\"");
        out.append(ids[i].as_str());
        out.append("\"");
        proof {
            assert(ids@[i as int]@ == idsv[i as int]);
            if i == 0 {
                assert(out@ =~= pre + enc_ids(idsv.take(i as int + 1)));
            } else {
                assert(out@ =~= pre + enc_ids(idsv.take(i as int + 1)));
            }
        }
        i = i + 1;
    }
    proof {
        assert(idsv.take(idsv.len() as int) =~= idsv);
    }
}

/// Writes an optional numeric field (key and numeral) onto `out`.
fn encode_opt_num(out: &mut String, key: &str, v: Option<usize>)
    ensures
        final(out)@ == old(out)@ + enc_opt_num(key@, v),
{
    match v {
        None => {
            proof {
                assert(out@ =~= old(out)@ + enc_opt_num(key@, v));
            }
        },
        Some(x) => {
            out.append(key);
            let ns = crate::digits::num_to_string(x);
            out.append(ns.as_str());
            proof {
                assert(out@ =~= old(out)@ + enc_opt_num(key@, v));
            }
        },
    }
}

/// Encodes an envelope as one line of text, terminated by a newline.
/// This cannot fail: every envelope value has a line.
pub fn encode(m: &Message) -> (r: String)
    ensures
        r@ == spec_encode_line(m@),
{
    let mut out = String::new();
    out.append("{\"src\":\"");
    out.append(m.src.as_str());
    out.append("\"");
    out.append(",\"dest\":\"");
    out.append(m.dest.as_str());
    out.append("\"");
    out.append(",\"body\":{\"type\":\"");
    match &m.body.payload {
        Payload::Generate => out.append("generate"),
        Payload::GenerateOk { .. } => out.append("generate_ok"),
        Payload::Init { .. } => out.append("init"),
        Payload::InitOk => out.append("init_ok"),
    }
    out.append("\"");
    encode_opt_num(&mut out, ",\"msg_id\":", m.body.msg_id);
    encode_opt_num(&mut out, ",\"in_reply_to\":", m.body.in_reply_to);
    match &m.body.payload {
        Payload::Generate => {},
        Payload::InitOk => {},
        Payload::GenerateOk { id } => {
            out.append(",\"id\":");
            let ns = crate::digits::num_to_string(*id);
            out.append(ns.as_str());
        },
        Payload::Init { node_id, node_ids } => {
            out.append(",\"node_id\":\"");
            out.append(node_id.as_str());
            out.append("\"");
            out.append(",\"node_ids\":[");
            encode_ids(&mut out, node_ids);
            out.append("]");
        },
    }
    out.append("}}");
    out.append("\n");
    proof {
        assert(out@ =~= spec_encode_line(m@));
    }
    out
}

/// Consumes the exact literal `lit` at position `i`.
pub open spec fn parse_lit(s: Seq<char>, i: int, lit: Seq<char>) -> Option<int> {
    if 0 <= i && i + lit.len() <= s.len() && s.subrange(i, i + lit.len() as int) == lit {
        Some(i + lit.len() as int)
    } else {
        None
    }
}

/// The length of the string content starting at `i`, up to its closing
/// quote; `None` when the string is unterminated or holds a character the
/// codec cannot represent.
pub open spec fn scan_str_len(s: Seq<char>, i: int) -> Option<nat>
    decreases s.len() - i,
{
    if i < 0 || i >= s.len() {
        None
    } else if s[i] == '"' {
        Some(0)
    } else if wf_char(s[i]) {
        match scan_str_len(s, i + 1) {
            Some(l) => Some((l + 1) as nat),
            None => None,
        }
    } else {
        None
    }
}

/// Consumes a quoted-string tail at `i`: the content up to a closing quote,
/// returning the content and the position after the quote.
pub open spec fn parse_str(s: Seq<char>, i: int) -> Option<(Seq<char>, int)> {
    match scan_str_len(s, i) {
        Some(l) => Some((s.subrange(i, i + l), i + l + 1)),
        None => None,
    }
}

/// The end of the run of digit characters starting at `i`.
pub open spec fn digit_run_end(s: Seq<char>, i: int) -> int
    decreases s.len() - i,
{
    if i < 0 || i >= s.len() {
        i
    } else if is_digit(s[i]) {
        digit_run_end(s, i + 1)
    } else {
        i
    }
}

/// Consumes a decimal numeral at `i`: at least one digit, no leading zero,
/// value within `usize`.
pub open spec fn parse_num(s: Seq<char>, i: int) -> Option<(usize, int)> {
    let j = digit_run_end(s, i);
    if j == i {
        None
    } else if s[i] == digit_char(0) && j > i + 1 {
        None
    } else if val_of(s.subrange(i, j)) > usize::MAX as int {
        None
    } else {
        Some((val_of(s.subrange(i, j)) as usize, j))
    }
}

/// Consumes an optional numeric field: when the key is present its numeral
/// must follow; when it is absent nothing is consumed.
pub open spec fn parse_opt_num(s: Seq<char>, i: int, key: Seq<char>) -> Option<
    (Option<usize>, int),
> {
    match parse_lit(s, i, key) {
        None => Some((None, i)),
        Some(j) => match parse_num(s, j) {
            Some((v, k)) => Some((Some(v), k)),
            None => None,
        },
    }
}

/// Consumes the identifier-list elements after the first, up to (not
/// including) the closing bracket.
pub open spec fn parse_ids_more(s: Seq<char>, i: int) -> Option<(Seq<Seq<char>>, int)>
    decreases s.len() - i,
{
    if 0 <= i && i < s.len() && s[i] == ',' {
        if i + 1 < s.len() && s[i + 1] == '"' {
            match scan_str_len(s, i + 2) {
                Some(l) => if i + 3 + l <= s.len() {
                    match parse_ids_more(s, i + 3 + l) {
                        Some((rest, j)) => Some((seq![s.subrange(i + 2, i + 2 + l)] + rest, j)),
                        None => None,
                    }
                } else {
                    None
                },
                None => None,
            }
        } else {
            None
        }
    } else {
        Some((Seq::empty(), i))
    }
}

/// Consumes an identifier list from after its opening bracket through the
/// closing bracket.
pub open spec fn parse_ids(s: Seq<char>, i: int) -> Option<(Seq<Seq<char>>, int)> {
    if 0 <= i && i < s.len() && s[i] == ']' {
        Some((Seq::empty(), i + 1))
    } else if 0 <= i && i < s.len() && s[i] == '"' {
        match scan_str_len(s, i + 1) {
            Some(l) => if i + 2 + l <= s.len() {
                match parse_ids_more(s, i + 2 + l) {
                    Some((rest, j)) => if 0 <= j && j < s.len() && s[j] == ']' {
                        Some((seq![s.subrange(i + 1, i + 1 + l)] + rest, j + 1))
                    } else {
                        None
                    },
                    None => None,
                }
            } else {
                None
            },
            None => None,
        }
    } else {
        None
    }
}

/// Consumes the variant fields selected by the tag.
pub open spec fn parse_variant(s: Seq<char>, i: int, tag: Seq<char>) -> Option<
    (PayloadView, int),
> {
    if tag == "generate"@ {
        Some((PayloadView::Generate, i))
    } else if tag == "init_ok"@ {
        Some((PayloadView::InitOk, i))
    } else if tag == "generate_ok"@ {
        match parse_lit(s, i, lit_id()) {
            Some(j) => match parse_num(s, j) {
                Some((v, k)) => Some(((PayloadView::GenerateOk { id: v }), k)),
                None => None,
            },
            None => None,
        }
    } else if tag == "init"@ {
        match parse_lit(s, i, lit_node_id()) {
            Some(j) => match parse_str(s, j) {
                Some((nid, k)) => match parse_lit(s, k, lit_node_ids()) {
                    Some(p) => match parse_ids(s, p) {
                        Some((ids, e)) => Some(
                            ((PayloadView::Init { node_id: nid, node_ids: ids }), e),
                        ),
                        None => None,
                    },
                    None => None,
                },
                None => None,
            },
            None => None,
        }
    } else {
        None
    }
}

/// Parses one whole encoded envelope (without the line terminator).
pub open spec fn spec_parse_msg(s: Seq<char>) -> Option<MessageView> {
    match parse_lit(s, 0, lit_src()) {
        Some(i1) => match parse_str(s, i1) {
            Some((src, i2)) => match parse_lit(s, i2, lit_dest()) {
                Some(i3) => match parse_str(s, i3) {
                    Some((dest, i4)) => match parse_lit(s, i4, lit_body()) {
                        Some(i5) => match parse_str(s, i5) {
                            Some((tag, i6)) => match parse_opt_num(s, i6, lit_msg_id()) {
                                Some((msg_id, i7)) => match parse_opt_num(
                                    s,
                                    i7,
                                    lit_in_reply_to(),
                                ) {
                                    Some((irt, i8)) => match parse_variant(s, i8, tag) {
                                        Some((payload, i9)) => match parse_lit(s, i9, lit_end()) {
                                            Some(i10) => if i10 == s.len() {
                                                Some(
                                                    (MessageView {
                                                        src,
                                                        dest,
                                                        body: BodyView {
                                                            payload,
                                                            msg_id,
                                                            in_reply_to: irt,
                                                        },
                                                    }),
                                                )
                                            } else {
                                                None
                                            },
                                            None => None,
                                        },
                                        None => None,
                                    },
                                    None => None,
                                },
                                None => None,
                            },
                            None => None,
                        },
                        None => None,
                    },
                    None => None,
                },
                None => None,
            },
            None => None,
        },
        None => None,
    }
}

/// Decodes one line: the content before an optional trailing newline must
/// be exactly one encoded envelope.
pub open spec fn spec_decode(s: Seq<char>) -> Option<MessageView> {
    if s.len() > 0 && s.last() == '\n' {
        spec_parse_msg(s.drop_last())
    } else {
        spec_parse_msg(s)
    }
}

/// A line that could not be decoded, identifying the offending line.
#[derive(Debug)]
pub struct DecodeError {
    pub line: String,
}

fn fail(line: &str) -> (e: DecodeError)
    ensures
        e.line@ == line@,
{
    DecodeError { line: String::from_str(line) }
}

/// Whether two strings hold the same characters.
fn str_eq(a: &str, b: &str) -> (r: bool)
    ensures
        r == (a@ == b@),
{
    let an = a.unicode_len();
    let bn = b.unicode_len();
    if an != bn {
        proof {
            if a@ == b@ {
                assert(a@.len() == b@.len());
            }
        }
        return false;
    }
    let mut i: usize = 0;
    while i < an
        invariant
            i <= an,
            an == a@.len(),
            bn == b@.len(),
            an == bn,
            forall|t: int| 0 <= t < i ==> a@[t] == b@[t],
        decreases an - i,
    {
        let ca = a.get_char(i);
        let cb = b.get_char(i);
        if ca as u32 != cb as u32 {
            proof {
                if a@ == b@ {
                    assert(a@[i as int] == b@[i as int]);
                }
            }
            return false;
        }
        i = i + 1;
    }
    proof {
        assert(a@ =~= b@);
    }
    true
}

/// Consumes the literal `lit` at `i`, or reports that it is not there.
fn eat_lit(s: &str, n: usize, i: usize, lit: &str) -> (r: Option<usize>)
    requires
        n == s@.len(),
        i <= n,
    ensures
        match r {
            Some(j) => parse_lit(s@, i as int, lit@) == Some(j as int) && i <= j <= n,
            None => parse_lit(s@, i as int, lit@) is None,
        },
{
    let m = lit.unicode_len();
    if m > n - i {
        return None;
    }
    let mut k: usize = 0;
    while k < m
        invariant
            k <= m,
            i + m <= n,
            n == s@.len(),
            m == lit@.len(),
            forall|t: int| 0 <= t < k ==> s@[i + t] == lit@[t],
        decreases m - k,
    {
        let a = s.get_char(i + k);
        let b = lit.get_char(k);
        if a as u32 != b as u32 {
            proof {
                if parse_lit(s@, i as int, lit@) is Some {
                    assert(s@.subrange(i as int, i as int + lit@.len() as int)[k as int]
                        == lit@[k as int]);
                }
            }
            return None;
        }
        k = k + 1;
    }
    proof {
        assert(s@.subrange(i as int, i as int + lit@.len() as int) =~= lit@);
    }
    Some(i + m)
}

/// Scans the content of a string at `i`, returning its length.
fn scan_string(s: &str, n: usize, i: usize) -> (r: Option<usize>)
    requires
        n == s@.len(),
        i <= n,
    ensures
        match r {
            Some(l) => scan_str_len(s@, i as int) == Some(l as nat) && i + l < n,
            None => scan_str_len(s@, i as int) is None,
        },
{
    let mut j: usize = i;
    loop
        invariant_except_break
            i <= j <= n,
            n == s@.len(),
            scan_str_len(s@, i as int) == (match scan_str_len(s@, j as int) {
                Some(l) => Some((l + j - i) as nat),
                None => None::<nat>,
            }),
        ensures
            match scan_str_len(s@, i as int) {
                Some(l) => i + l < n && j == i + l && s@[j as int] == '"',
                None => true,
            },
            scan_str_len(s@, i as int) is Some <==> (j < n && s@[j as int] == '"'),
        decreases n - j,
    {
        if j >= n {
            break;
        }
        let c = s.get_char(j);
        if c == '"' {
            break;
        }
        if c == '\\' || (c as u32) < 32 {
            break;
        }
        j = j + 1;
    }
    let jn = j;
    if jn < n {
        let c = s.get_char(jn);
        if c == '"' {
            return Some(jn - i);
        }
    }
    None
}

/// Consumes a quoted-string tail at `i`.
fn eat_str(s: &str, n: usize, i: usize) -> (r: Option<(String, usize)>)
    requires
        n == s@.len(),
        i <= n,
    ensures
        match r {
            Some(t) => parse_str(s@, i as int) == Some((t.0@, t.1 as int)) && i < t.1 <= n,
            None => parse_str(s@, i as int) is None,
        },
{
    match scan_string(s, n, i) {
        Some(l) => {
            let sub = s.substring_char(i, i + l);
            let owned = String::from_str(sub);
            Some((owned, i + l + 1))
        },
        None => None,
    }
}

proof fn lemma_digit_run_end_ge(s: Seq<char>, i: int)
    ensures
        digit_run_end(s, i) >= i,
    decreases s.len() - i,
{
    if 0 <= i && i < s.len() && is_digit(s[i]) {
        lemma_digit_run_end_ge(s, i + 1);
    }
}

proof fn lemma_digit_run_digits(s: Seq<char>, i: int)
    requires
        0 <= i <= s.len(),
    ensures
        forall|t: int| i <= t < digit_run_end(s, i) ==> is_digit(#[trigger] s[t]),
        digit_run_end(s, i) <= s.len(),
    decreases s.len() - i,
{
    if i < s.len() && is_digit(s[i]) {
        lemma_digit_run_digits(s, i + 1);
        lemma_digit_run_end_ge(s, i + 1);
    }
}

/// Consumes a decimal numeral at `i`.
fn eat_num(s: &str, n: usize, i: usize) -> (r: Option<(usize, usize)>)
    requires
        n == s@.len(),
        i <= n,
    ensures
        match r {
            Some(t) => parse_num(s@, i as int) == Some((t.0, t.1 as int)) && i < t.1 <= n,
            None => parse_num(s@, i as int) is None,
        },
{
    if i >= n {
        return None;
    }
    let c0 = s.get_char(i);
    let u0 = c0 as u32;
    if !(48 <= u0 && u0 <= 57) {
        return None;
    }
    let mut j: usize = i;
    let mut acc: usize = 0;
    let mut overflow = false;
    loop
        invariant_except_break
            i <= j <= n,
            n == s@.len(),
            !overflow,
            forall|t: int| i <= t < j ==> is_digit(#[trigger] s@[t]),
            digit_run_end(s@, i as int) == digit_run_end(s@, j as int),
            acc as int == val_of(s@.subrange(i as int, j as int)),
        ensures
            i <= j <= n,
            n == s@.len(),
            forall|t: int| i <= t < j ==> is_digit(#[trigger] s@[t]),
            !overflow ==> digit_run_end(s@, i as int) == j as int && acc as int == val_of(
                s@.subrange(i as int, j as int),
            ),
            overflow ==> val_of(s@.subrange(i as int, j as int)) > usize::MAX as int
                && digit_run_end(s@, i as int) == digit_run_end(s@, j as int)
                && j <= digit_run_end(s@, i as int),
        decreases n - j,
    {
        if j >= n {
            break;
        }
        let c = s.get_char(j);
        let u = c as u32;
        if !(48 <= u && u <= 57) {
            proof {
                assert(!is_digit(s@[j as int]));
                assert(digit_run_end(s@, j as int) == j as int);
            }
            break;
        }
        let d = (u - 48) as usize;
        proof {
            assert(is_digit(s@[j as int]));
            assert(digit_val(s@[j as int]) == d as int);
            assert(s@.subrange(i as int, j as int + 1).drop_last() =~= s@.subrange(
                i as int,
                j as int,
            ));
            assert(s@.subrange(i as int, j as int + 1).last() == s@[j as int]);
            lemma_digit_run_end_ge(s@, j as int + 1);
        }
        let step = match acc.checked_mul(10) {
            Some(a) => a.checked_add(d),
            None => None,
        };
        match step {
            Some(a) => {
                acc = a;
                j = j + 1;
            },
            None => {
                proof {
                    assert(val_of(s@.subrange(i as int, j as int + 1)) > usize::MAX as int);
                }
                overflow = true;
                j = j + 1;
                break;
            },
        }
    }
    if overflow {
        proof {
            let e = digit_run_end(s@, i as int);
            lemma_digit_run_digits(s@, i as int);
            lemma_digit_run_end_ge(s@, j as int);
            assert(i < j <= e <= n);
            let run = s@.subrange(i as int, e);
            assert(forall|t: int| 0 <= t < run.len() ==> is_digit(#[trigger] run[t]));
            crate::digits::lemma_val_of_prefix(run, j - i);
            assert(run.take(j - i) =~= s@.subrange(i as int, j as int));
            assert(val_of(run) > usize::MAX as int);
            assert(e != i);
        }
        return None;
    }
    proof {
        lemma_digit_run_end_ge(s@, i as int + 1);
        assert(digit_run_end(s@, i as int) == digit_run_end(s@, i as int + 1));
        assert(j > i);
    }
    if u0 == 48 && j > i + 1 {
        proof {
            assert(s@[i as int] == digit_char(0));
        }
        return None;
    }
    proof {
        if s@[i as int] == digit_char(0) {
            assert(u0 == 48);
        }
    }
    Some((acc, j))
}

/// Consumes an optional numeric field at `i`.
fn eat_opt_num(s: &str, n: usize, i: usize, key: &str) -> (r: Option<(Option<usize>, usize)>)
    requires
        n == s@.len(),
        i <= n,
    ensures
        match r {
            Some(t) => parse_opt_num(s@, i as int, key@) == Some((t.0, t.1 as int)) && i <= t.1
                <= n,
            None => parse_opt_num(s@, i as int, key@) is None,
        },
{
    match eat_lit(s, n, i, key) {
        None => Some((None, i)),
        Some(j) => match eat_num(s, n, j) {
            Some((v, k)) => Some((Some(v), k)),
            None => None,
        },
    }
}

/// Consumes an identifier list from after its opening bracket.
fn eat_ids(s: &str, n: usize, i: usize) -> (r: Option<(Vec<String>, usize)>)
    requires
        n == s@.len(),
        i <= n,
    ensures
        match r {
            Some(t) => parse_ids(s@, i as int) == Some((t.0.deep_view(), t.1 as int)) && i < t.1
                <= n,
            None => parse_ids(s@, i as int) is None,
        },
{
    if i >= n {
        return None;
    }
    let c = s.get_char(i);
    if c == ']' {
        let out: Vec<String> = Vec::new();
        proof {
            assert(out.deep_view() =~= Seq::<Seq<char>>::empty());
        }
        return Some((out, i + 1));
    }
    if c != '"' {
        return None;
    }
    let first = match eat_str(s, n, i + 1) {
        Some(t) => t,
        None => {
            return None;
        },
    };
    let mut elems: Vec<String> = Vec::new();
    let ghost firstv = first.0@;
    elems.push(first.0);
    let mut pos: usize = first.1;
    let ghost i0 = i as int;
    proof {
        assert(elems.deep_view() =~= seq![firstv]);
        assert(s@[i0] == '"');
        match scan_str_len(s@, i0 + 1) {
            Some(l) => {
                assert(firstv == s@.subrange(i0 + 1, i0 + 1 + l));
                assert(pos as int == i0 + 2 + l);
                assert(i0 + 2 + l <= n as int);
                match parse_ids_more(s@, pos as int) {
                    Some(t) => {
                        assert(seq![firstv] + t.0 =~= elems.deep_view() + t.0);
                    },
                    None => {},
                }
            },
            None => {
                assert(false);
            },
        }
    }
    loop
        invariant_except_break
            pos <= n,
            n == s@.len(),
            0 <= i0 < n,
            i0 == i as int,
            s@[i0] == '"',
            parse_ids(s@, i0) == (match parse_ids_more(s@, pos as int) {
                Some(t) => if 0 <= t.1 && t.1 < s@.len() && s@[t.1] == ']' {
                    Some((elems.deep_view() + t.0, t.1 + 1))
                } else {
                    None::<(Seq<Seq<char>>, int)>
                },
                None => None::<(Seq<Seq<char>>, int)>,
            }),
            i0 < pos,
        ensures
            pos <= n,
            n == s@.len(),
            i0 < pos,
            i0 == i as int,
            parse_ids(s@, i0) == (match parse_ids_more(s@, pos as int) {
                Some(t) => if 0 <= t.1 && t.1 < s@.len() && s@[t.1] == ']' {
                    Some((elems.deep_view() + t.0, t.1 + 1))
                } else {
                    None::<(Seq<Seq<char>>, int)>
                },
                None => None::<(Seq<Seq<char>>, int)>,
            }),
            pos >= n || s@[pos as int] != ',',
        decreases n - pos,
    {
        if pos >= n {
            break;
        }
        let c1 = s.get_char(pos);
        if c1 != ',' {
            break;
        }
        if pos + 1 >= n {
            proof {
                assert(parse_ids_more(s@, pos as int) is None);
            }
            return None;
        }
        let c2 = s.get_char(pos + 1);
        if c2 != '"' {
            proof {
                assert(s@[pos as int + 1] != '"');
                assert(parse_ids_more(s@, pos as int) is None);
            }
            return None;
        }
        match eat_str(s, n, pos + 2) {
            Some(t) => {
                let ghost oldelems = elems.deep_view();
                let ghost tv = t.0@;
                elems.push(t.0);
                proof {
                    assert(elems.deep_view() =~= oldelems.push(tv));
                    assert(oldelems.push(tv) + (match parse_ids_more(s@, t.1 as int) {
                        Some(q) => q.0,
                        None => Seq::<Seq<char>>::empty(),
                    }) =~= oldelems + (seq![tv] + (match parse_ids_more(s@, t.1 as int) {
                        Some(q) => q.0,
                        None => Seq::<Seq<char>>::empty(),
                    })));
                }
                pos = t.1;
            },
            None => {
                proof {
                    assert(scan_str_len(s@, pos as int + 2) is None);
                    assert(parse_ids_more(s@, pos as int) is None);
                }
                return None;
            },
        }
    }
    proof {
        assert(parse_ids_more(s@, pos as int) == Some((Seq::<Seq<char>>::empty(), pos as int)));
        assert(elems.deep_view() + Seq::<Seq<char>>::empty() =~= elems.deep_view());
    }
    if pos >= n {
        return None;
    }
    let cb = s.get_char(pos);
    if cb != ']' {
        return None;
    }
    Some((elems, pos + 1))
}

proof fn lemma_parse_lit_miss(s: Seq<char>, i: int, lit: Seq<char>, k: int)
    requires
        0 <= k < lit.len(),
        0 <= i,
        i + k < s.len(),
        s[i + k] != lit[k],
    ensures
        parse_lit(s, i, lit) is None,
{
    if parse_lit(s, i, lit) is Some {
        assert(s.subrange(i, i + lit.len() as int)[k] == lit[k]);
    }
}

proof fn lemma_scan_str_at(s: Seq<char>, i: int, t: Seq<char>)
    requires
        0 <= i,
        i + t.len() < s.len(),
        wf_chars(t),
        forall|k: int| 0 <= k < t.len() ==> s[i + k] == #[trigger] t[k],
        s[i + t.len()] == '"',
    ensures
        scan_str_len(s, i) == Some(t.len()),
    decreases t.len(),
{
    if t.len() == 0 {
        assert(s[i] == '"');
    } else {
        assert(s[i] == t[0]);
        assert(wf_char(t[0]));
        let t2 = t.drop_first();
        assert(forall|k: int| 0 <= k < t2.len() ==> s[i + 1 + k] == #[trigger] t2[k]);
        lemma_scan_str_at(s, i + 1, t2);
    }
}

proof fn lemma_parse_str_at(s: Seq<char>, i: int, t: Seq<char>)
    requires
        0 <= i,
        i + t.len() < s.len(),
        wf_chars(t),
        forall|k: int| 0 <= k < t.len() ==> s[i + k] == #[trigger] t[k],
        s[i + t.len()] == '"',
    ensures
        parse_str(s, i) == Some((t, i + t.len() + 1)),
{
    lemma_scan_str_at(s, i, t);
    assert(s.subrange(i, i + t.len() as int) =~= t);
}

proof fn lemma_digit_run_at(s: Seq<char>, i: int, e: int)
    requires
        0 <= i <= e <= s.len(),
        forall|t: int| i <= t < e ==> is_digit(#[trigger] s[t]),
        e == s.len() || !is_digit(s[e]),
    ensures
        digit_run_end(s, i) == e,
    decreases e - i,
{
    if i < e {
        assert(is_digit(s[i]));
        lemma_digit_run_at(s, i + 1, e);
    }
}

proof fn lemma_parse_num_at(s: Seq<char>, i: int, v: int)
    requires
        0 <= v <= usize::MAX as int,
        0 <= i,
        i + dec_chars(v).len() <= s.len(),
        forall|k: int| 0 <= k < dec_chars(v).len() ==> s[i + k] == #[trigger] dec_chars(v)[k],
        i + dec_chars(v).len() == s.len() || !is_digit(s[i + dec_chars(v).len()]),
    ensures
        parse_num(s, i) == Some((v as usize, i + dec_chars(v).len())),
{
    crate::digits::lemma_dec_chars_props(v);
    let d = dec_chars(v);
    let e = i + d.len() as int;
    assert forall|t: int| i <= t < e implies is_digit(#[trigger] s[t]) by {
        assert(s[t] == d[t - i]);
    }
    lemma_digit_run_at(s, i, e);
    assert(s.subrange(i, e) =~= d);
    assert(e != i);
    if s[i] == digit_char(0) {
        assert(d[0] == digit_char(0));
        assert(v < 1);
        assert(d.len() == 1);
    }
    assert(val_of(s.subrange(i, e)) == v);
}

/// Pointwise access to the middle piece of a three-part concatenation.
proof fn lemma_region(s: Seq<char>, pre: Seq<char>, mid: Seq<char>, post: Seq<char>)
    requires
        s == pre + mid + post,
    ensures
        forall|k: int| 0 <= k < mid.len() ==> s[pre.len() + k] == #[trigger] mid[k],
        s.len() == pre.len() + mid.len() + post.len(),
{
    assert forall|k: int| 0 <= k < mid.len() implies s[pre.len() + k] == #[trigger] mid[k] by {
        assert(s[pre.len() + k] == (pre + mid)[pre.len() + k]);
    }
}

proof fn lemma_parse_ids_more_at(s: Seq<char>, i: int, ids: Seq<Seq<char>>, e: int)
    requires
        0 <= i,
        i + enc_ids_more(ids).len() == e,
        e < s.len(),
        forall|k: int| 0 <= k < enc_ids_more(ids).len() ==> s[i + k] == #[trigger] enc_ids_more(
            ids,
        )[k],
        forall|q: int| 0 <= q < ids.len() ==> wf_chars(#[trigger] ids[q]),
        s[e] == ']',
    ensures
        parse_ids_more(s, i) == Some((ids, e)),
    decreases ids.len(),
{
    reveal_strlit(",");
    reveal_strlit("\"");
    if ids.len() == 0 {
        assert(e == i);
        assert(s[i] != ',');
    } else {
        let t = ids[0];
        let em = enc_ids_more(ids);
        let rest = enc_ids_more(ids.drop_first());
        assert(em == lit_comma() + quoted(t) + rest);
        assert(wf_chars(t));
        assert(em =~= Seq::<char>::empty() + lit_comma() + (quoted(t) + rest));
        lemma_region(em, Seq::empty(), lit_comma(), quoted(t) + rest);
        assert(em =~= (lit_comma() + (lit_quote() + t)) + (lit_quote() + rest));
        lemma_region(em, lit_comma(), lit_quote() + t, lit_quote() + rest);
        assert(em[0] == lit_comma()[0]);
        assert(em[1] == (lit_quote() + t)[0]);
        assert(s[i] == ',');
        assert(s[i + 1] == '"');
        assert forall|k: int| 0 <= k < t.len() implies s[i + 2 + k] == #[trigger] t[k] by {
            assert(em[2 + k] == (lit_quote() + t)[1 + k]);
            assert(s[i + (2 + k)] == em[2 + k]);
        }
        assert(em =~= (lit_comma() + lit_quote() + t) + lit_quote() + rest);
        lemma_region(em, lit_comma() + lit_quote() + t, lit_quote(), rest);
        assert(em[2 + t.len() as int] == lit_quote()[0]);
        assert(s[i + 2 + t.len() as int] == em[2 + t.len() as int]);
        assert(s[i + 2 + t.len()] == '"');
        assert(i + 2 + t.len() < e);
        lemma_scan_str_at(s, i + 2, t);
        let i2 = i + 3 + t.len() as int;
        assert(em =~= lit_comma() + quoted(t) + rest + Seq::<char>::empty());
        lemma_region(em, lit_comma() + quoted(t), rest, Seq::empty());
        assert forall|k: int| 0 <= k < rest.len() implies s[i2 + k] == #[trigger] rest[k] by {
            assert(em[3 + t.len() + k] == rest[k]);
            assert(s[i + (3 + t.len() + k)] == em[3 + t.len() + k]);
        }
        assert(forall|q: int|
            0 <= q < ids.drop_first().len() ==> wf_chars(#[trigger] ids.drop_first()[q]));
        lemma_parse_ids_more_at(s, i2, ids.drop_first(), e);
        assert(s.subrange(i + 2, i + 2 + t.len() as int) =~= t);
        assert(seq![t] + ids.drop_first() =~= ids);
    }
}

proof fn lemma_parse_ids_at(s: Seq<char>, i: int, ids: Seq<Seq<char>>, e: int)
    requires
        0 <= i,
        i + enc_ids(ids).len() == e,
        e < s.len(),
        forall|k: int| 0 <= k < enc_ids(ids).len() ==> s[i + k] == #[trigger] enc_ids(ids)[k],
        forall|q: int| 0 <= q < ids.len() ==> wf_chars(#[trigger] ids[q]),
        s[e] == ']',
    ensures
        parse_ids(s, i) == Some((ids, e + 1)),
{
    reveal_strlit(",");
    reveal_strlit("\"");
    if ids.len() == 0 {
        assert(e == i);
        assert(s[i] == ']');
    } else {
        let t = ids[0];
        let ei = enc_ids(ids);
        let rest = enc_ids_more(ids.drop_first());
        assert(ei == quoted(t) + rest);
        assert(wf_chars(t));
        assert(ei =~= Seq::<char>::empty() + (lit_quote() + t) + (lit_quote() + rest));
        lemma_region(ei, Seq::empty(), lit_quote() + t, lit_quote() + rest);
        assert(ei[0] == (lit_quote() + t)[0]);
        assert(s[i + 0] == ei[0]);
        assert(s[i] == '"');
        assert forall|k: int| 0 <= k < t.len() implies s[i + 1 + k] == #[trigger] t[k] by {
            assert(ei[1 + k] == (lit_quote() + t)[1 + k]);
            assert(s[i + (1 + k)] == ei[1 + k]);
        }
        assert(ei =~= (lit_quote() + t) + lit_quote() + rest);
        lemma_region(ei, lit_quote() + t, lit_quote(), rest);
        assert(ei[1 + t.len() as int] == lit_quote()[0]);
        assert(s[i + 1 + t.len() as int] == ei[1 + t.len() as int]);
        assert(s[i + 1 + t.len()] == '"');
        assert(i + 1 + t.len() < e);
        lemma_scan_str_at(s, i + 1, t);
        let i2 = i + 2 + t.len() as int;
        assert(ei =~= quoted(t) + rest + Seq::<char>::empty());
        lemma_region(ei, quoted(t), rest, Seq::empty());
        assert forall|k: int| 0 <= k < rest.len() implies s[i2 + k] == #[trigger] rest[k] by {
            assert(ei[2 + t.len() + k] == rest[k]);
            assert(s[i + (2 + t.len() + k)] == ei[2 + t.len() + k]);
        }
        assert(forall|q: int|
            0 <= q < ids.drop_first().len() ==> wf_chars(#[trigger] ids.drop_first()[q]));
        lemma_parse_ids_more_at(s, i2, ids.drop_first(), e);
        assert(s.subrange(i + 1, i + 1 + t.len() as int) =~= t);
        assert(seq![t] + ids.drop_first() =~= ids);
        assert(s[i] != ']');
    }
}

/// Decodes one line of input into an envelope. Fails exactly when the line
/// is not the encoding of any envelope, and then identifies the line.
pub fn decode(line: &str) -> (r: Result<Message, DecodeError>)
    ensures
        match r {
            Ok(m) => spec_decode(line@) == Some(m@),
            Err(e) => spec_decode(line@) is None && e.line@ == line@,
        },
{
    let n0 = line.unicode_len();
    let mut strip = false;
    if n0 > 0 {
        let cl = line.get_char(n0 - 1);
        if cl == '\n' {
            strip = true;
        }
    }
    let (s, n): (&str, usize) = if strip {
        (line.substring_char(0, n0 - 1), n0 - 1)
    } else {
        (line, n0)
    };
    proof {
        if strip {
            assert(s@ =~= line@.drop_last());
        }
        assert(spec_decode(line@) == spec_parse_msg(s@));
    }
    let i1 = match eat_lit(s, n, 0, "{\"src\":\"") {
        Some(j) => j,
        None => {
            return Err(fail(line));
        },
    };
    let (src, i2) = match eat_str(s, n, i1) {
        Some(t) => t,
        None => {
            return Err(fail(line));
        },
    };
    let i3 = match eat_lit(s, n, i2, ",\"dest\":\"") {
        Some(j) => j,
        None => {
            return Err(fail(line));
        },
    };
    let (dest, i4) = match eat_str(s, n, i3) {
        Some(t) => t,
        None => {
            return Err(fail(line));
        },
    };
    let i5 = match eat_lit(s, n, i4, ",\"body\":{\"type\":\"") {
        Some(j) => j,
        None => {
            return Err(fail(line));
        },
    };
    let (tag, i6) = match eat_str(s, n, i5) {
        Some(t) => t,
        None => {
            return Err(fail(line));
        },
    };
    let (msg_id, i7) = match eat_opt_num(s, n, i6, ",\"msg_id\":") {
        Some(t) => t,
        None => {
            return Err(fail(line));
        },
    };
    let (in_reply_to, i8) = match eat_opt_num(s, n, i7, ",\"in_reply_to\":") {
        Some(t) => t,
        None => {
            return Err(fail(line));
        },
    };
    let (payload, i9): (Payload, usize) = if str_eq(tag.as_str(), "generate") {
        (Payload::Generate, i8)
    } else if str_eq(tag.as_str(), "init_ok") {
        (Payload::InitOk, i8)
    } else if str_eq(tag.as_str(), "generate_ok") {
        let j = match eat_lit(s, n, i8, ",\"id\":") {
            Some(j) => j,
            None => {
                return Err(fail(line));
            },
        };
        let (v, k) = match eat_num(s, n, j) {
            Some(t) => t,
            None => {
                return Err(fail(line));
            },
        };
        (Payload::GenerateOk { id: v }, k)
    } else if str_eq(tag.as_str(), "init") {
        let j = match eat_lit(s, n, i8, ",\"node_id\":\"") {
            Some(j) => j,
            None => {
                return Err(fail(line));
            },
        };
        let (nid, k) = match eat_str(s, n, j) {
            Some(t) => t,
            None => {
                return Err(fail(line));
            },
        };
        let p = match eat_lit(s, n, k, ",\"node_ids\":[") {
            Some(j) => j,
            None => {
                return Err(fail(line));
            },
        };
        let (ids, e) = match eat_ids(s, n, p) {
            Some(t) => t,
            None => {
                return Err(fail(line));
            },
        };
        (Payload::Init { node_id: nid, node_ids: ids }, e)
    } else {
        return Err(fail(line));
    };
    let i10 = match eat_lit(s, n, i9, "}}") {
        Some(j) => j,
        None => {
            return Err(fail(line));
        },
    };
    if i10 != n {
        return Err(fail(line));
    }
    let msg = Message { src, dest, body: Body { payload, msg_id, in_reply_to } };
    proof {
        assert(spec_parse_msg(s@) == Some(msg@));
    }
    Ok(msg)
}


/// Reading back the two optional correlation fields: at the position where
/// the encoder put them, the parser finds exactly them.
#[verifier::rlimit(100)]
proof fn lemma_parse_opts_at(s: Seq<char>, pre: Seq<char>, bv: BodyView)
    requires
        wf_payload(bv.payload),
        s == pre + enc_opt_num(lit_msg_id(), bv.msg_id) + enc_opt_num(
            lit_in_reply_to(),
            bv.in_reply_to,
        ) + enc_extra(bv.payload) + lit_end(),
    ensures
        parse_opt_num(s, pre.len() as int, lit_msg_id()) == Some(
            (bv.msg_id, (pre.len() + enc_opt_num(lit_msg_id(), bv.msg_id).len()) as int),
        ),
        parse_opt_num(
            s,
            (pre.len() + enc_opt_num(lit_msg_id(), bv.msg_id).len()) as int,
            lit_in_reply_to(),
        ) == Some(
            (
                bv.in_reply_to,
                (pre.len() + enc_opt_num(lit_msg_id(), bv.msg_id).len() + enc_opt_num(
                    lit_in_reply_to(),
                    bv.in_reply_to,
                ).len()) as int,
            ),
        ),
{
    reveal_strlit("\"");
    reveal_strlit(",\"msg_id\":");
    reveal_strlit(",\"in_reply_to\":");
    reveal_strlit(",\"node_id\":\"");
    reveal_strlit(",\"id\":");
    reveal_strlit("}}");
    let q = lit_quote();
    let o1 = enc_opt_num(lit_msg_id(), bv.msg_id);
    let o2 = enc_opt_num(lit_in_reply_to(), bv.in_reply_to);
    let ex = enc_extra(bv.payload);
    let b2 = pre;
    let b3 = b2 + o1;
    let b4 = b3 + o2;
    let b5 = b4 + ex;
    let i6 = b2.len() as int;
    let i7 = b3.len() as int;
    let i8 = b4.len() as int;
    assert(s =~= b2 + o1 + (o2 + ex + lit_end()));
    lemma_region(s, b2, o1, o2 + ex + lit_end());
    assert(s =~= b3 + o2 + (ex + lit_end()));
    lemma_region(s, b3, o2, ex + lit_end());
    assert(s =~= b4 + ex + lit_end());
    lemma_region(s, b4, ex, lit_end());
    assert(s =~= b5 + lit_end() + Seq::<char>::empty());
    lemma_region(s, b5, lit_end(), Seq::empty());
    // the character right after the optional msg_id field
    assert(s[i7] == ',' || s[i7] == '}') by {
        if o2.len() > 0 {
            match bv.in_reply_to {
                Some(v2) => {
                    assert(o2 == lit_in_reply_to() + dec_chars(v2 as int));
                    assert(o2[0] == lit_in_reply_to()[0]);
                    assert(s[i7] == o2[0]);
                },
                None => {},
            }
        } else if ex.len() > 0 {
            assert(b4.len() == b3.len());
            assert(s[b4.len() as int] == ex[0]);
            match bv.payload {
                PayloadView::GenerateOk { id } => {
                    assert(ex == lit_id() + dec_chars(id as int));
                    assert(ex[0] == lit_id()[0]);
                },
                PayloadView::Init { node_id, node_ids } => {
                    assert(ex == lit_node_id() + node_id + q + lit_node_ids() + enc_ids(node_ids)
                        + lit_close_bracket());
                    assert(ex =~= lit_node_id() + (node_id + q + lit_node_ids() + enc_ids(node_ids)
                        + lit_close_bracket()));
                    assert(ex[0] == lit_node_id()[0]);
                },
                _ => {
                    assert(false);
                },
            }
        } else {
            assert(b5.len() == b3.len());
            assert(s[b5.len() as int] == lit_end()[0]);
        }
    }
    // the optional msg_id field
    match bv.msg_id {
        Some(v) => {
            assert(o1 == lit_msg_id() + dec_chars(v as int));
            assert(s =~= b2 + lit_msg_id() + (dec_chars(v as int) + o2 + ex + lit_end()));
            lemma_region(s, b2, lit_msg_id(), dec_chars(v as int) + o2 + ex + lit_end());
            assert(parse_lit(s, i6, lit_msg_id()) == Some((b2.len() + lit_msg_id().len()) as int))
                by {
                assert(s.subrange(i6, i6 + lit_msg_id().len() as int) =~= lit_msg_id());
            }
            assert(s =~= (b2 + lit_msg_id()) + dec_chars(v as int) + (o2 + ex + lit_end()));
            lemma_region(s, b2 + lit_msg_id(), dec_chars(v as int), o2 + ex + lit_end());
            assert(!is_digit(s[i7]));
            lemma_parse_num_at(s, (b2.len() + lit_msg_id().len()) as int, v as int);
            assert(parse_opt_num(s, i6, lit_msg_id()) == Some((Some(v), i7)));
        },
        None => {
            assert(b3.len() == b2.len());
            assert(parse_lit(s, i6, lit_msg_id()) is None) by {
                if o2.len() > 0 {
                    match bv.in_reply_to {
                        Some(v2) => {
                            assert(o2 == lit_in_reply_to() + dec_chars(v2 as int));
                            assert(o2[2] == lit_in_reply_to()[2]);
                            assert(s[i6 + 2] == o2[2]);
                            lemma_parse_lit_miss(s, i6, lit_msg_id(), 2);
                        },
                        None => {},
                    }
                } else if ex.len() > 0 {
                    match bv.payload {
                        PayloadView::GenerateOk { id } => {
                            assert(ex == lit_id() + dec_chars(id as int));
                            assert(ex[2] == lit_id()[2]);
                            assert(s[i6 + 2] == ex[2]);
                            lemma_parse_lit_miss(s, i6, lit_msg_id(), 2);
                        },
                        PayloadView::Init { node_id, node_ids } => {
                            assert(ex =~= lit_node_id() + (node_id + q + lit_node_ids()
                                + enc_ids(node_ids) + lit_close_bracket()));
                            assert(ex[2] == lit_node_id()[2]);
                            assert(s[i6 + 2] == ex[2]);
                            lemma_parse_lit_miss(s, i6, lit_msg_id(), 2);
                        },
                        _ => {
                            assert(false);
                        },
                    }
                } else {
                    assert(s.len() == b2.len() + 2);
                    assert(i6 + lit_msg_id().len() > s.len());
                }
            }
            assert(parse_opt_num(s, i6, lit_msg_id()) == Some((None::<usize>, i7)));
        },
    }
    // the character right after the optional in_reply_to field
    assert(s[i8] == ',' || s[i8] == '}') by {
        if ex.len() > 0 {
            assert(s[b4.len() as int] == ex[0]);
            match bv.payload {
                PayloadView::GenerateOk { id } => {
                    assert(ex == lit_id() + dec_chars(id as int));
                    assert(ex[0] == lit_id()[0]);
                },
                PayloadView::Init { node_id, node_ids } => {
                    assert(ex =~= lit_node_id() + (node_id + q + lit_node_ids() + enc_ids(node_ids)
                        + lit_close_bracket()));
                    assert(ex[0] == lit_node_id()[0]);
                },
                _ => {
                    assert(false);
                },
            }
        } else {
            assert(b5.len() == b4.len());
            assert(s[b5.len() as int] == lit_end()[0]);
        }
    }
    // the optional in_reply_to field
    match bv.in_reply_to {
        Some(v) => {
            assert(o2 == lit_in_reply_to() + dec_chars(v as int));
            assert(s =~= b3 + lit_in_reply_to() + (dec_chars(v as int) + ex + lit_end()));
            lemma_region(s, b3, lit_in_reply_to(), dec_chars(v as int) + ex + lit_end());
            assert(parse_lit(s, i7, lit_in_reply_to()) == Some(
                (b3.len() + lit_in_reply_to().len()) as int,
            )) by {
                assert(s.subrange(i7, i7 + lit_in_reply_to().len() as int) =~= lit_in_reply_to());
            }
            assert(s =~= (b3 + lit_in_reply_to()) + dec_chars(v as int) + (ex + lit_end()));
            lemma_region(s, b3 + lit_in_reply_to(), dec_chars(v as int), ex + lit_end());
            assert(!is_digit(s[i8]));
            lemma_parse_num_at(s, (b3.len() + lit_in_reply_to().len()) as int, v as int);
            assert(parse_opt_num(s, i7, lit_in_reply_to()) == Some((Some(v), i8)));
        },
        None => {
            assert(b4.len() == b3.len());
            assert(parse_lit(s, i7, lit_in_reply_to()) is None) by {
                if ex.len() > 0 {
                    match bv.payload {
                        PayloadView::GenerateOk { id } => {
                            assert(ex == lit_id() + dec_chars(id as int));
                            assert(ex[3] == lit_id()[3]);
                            assert(s[i7 + 3] == ex[3]);
                            lemma_parse_lit_miss(s, i7, lit_in_reply_to(), 3);
                        },
                        PayloadView::Init { node_id, node_ids } => {
                            assert(ex =~= lit_node_id() + (node_id + q + lit_node_ids()
                                + enc_ids(node_ids) + lit_close_bracket()));
                            assert(ex[2] == lit_node_id()[2]);
                            assert(s[i7 + 2] == ex[2]);
                            lemma_parse_lit_miss(s, i7, lit_in_reply_to(), 2);
                        },
                        _ => {
                            assert(false);
                        },
                    }
                } else {
                    assert(s.len() == b3.len() + 2);
                    assert(i7 + lit_in_reply_to().len() > s.len());
                }
            }
            assert(parse_opt_num(s, i7, lit_in_reply_to()) == Some((None::<usize>, i8)));
        },
    }
}

/// Reading back the variant fields: at the position where the encoder put
/// them, the parser selected by the tag finds exactly them.
#[verifier::rlimit(100)]
proof fn lemma_parse_variant_at(s: Seq<char>, pre: Seq<char>, p: PayloadView)
    requires
        wf_payload(p),
        s == pre + enc_extra(p) + lit_end(),
    ensures
        parse_variant(s, pre.len() as int, tag_of(p)) == Some(
            (p, (pre.len() + enc_extra(p).len()) as int),
        ),
{
    reveal_strlit("\"");
    reveal_strlit(",\"node_id\":\"");
    reveal_strlit(",\"node_ids\":[");
    reveal_strlit(",\"id\":");
    reveal_strlit("}}");
    reveal_strlit(",");
    reveal_strlit("]");
    reveal_strlit("generate");
    reveal_strlit("generate_ok");
    reveal_strlit("init");
    reveal_strlit("init_ok");
    let q = lit_quote();
    let ex = enc_extra(p);
    let tag = tag_of(p);
    let b4 = pre;
    let b5 = b4 + ex;
    let i8 = b4.len() as int;
    let i9 = b5.len() as int;
    assert(s =~= b5 + lit_end() + Seq::<char>::empty());
    lemma_region(s, b5, lit_end(), Seq::empty());
    match p {
        PayloadView::Generate => {
            assert(tag == "generate"@);
        },
        PayloadView::InitOk => {
            assert(tag == "init_ok"@);
            assert(tag != "generate"@);
        },
        PayloadView::GenerateOk { id } => {
            assert(tag == "generate_ok"@);
            assert(tag != "generate"@ && tag != "init_ok"@);
            assert(ex == lit_id() + dec_chars(id as int));
            assert(s =~= b4 + lit_id() + (dec_chars(id as int) + lit_end()));
            lemma_region(s, b4, lit_id(), dec_chars(id as int) + lit_end());
            assert(parse_lit(s, i8, lit_id()) == Some((b4.len() + lit_id().len()) as int)) by {
                assert(s.subrange(i8, i8 + lit_id().len() as int) =~= lit_id());
            }
            assert(s =~= (b4 + lit_id()) + dec_chars(id as int) + lit_end());
            lemma_region(s, b4 + lit_id(), dec_chars(id as int), lit_end());
            assert(s[i9] == lit_end()[0]);
            assert(!is_digit(s[i9]));
            lemma_parse_num_at(s, (b4.len() + lit_id().len()) as int, id as int);
        },
        PayloadView::Init { node_id, node_ids } => {
            assert(tag == "init"@);
            assert(tag != "generate"@ && tag != "init_ok"@ && tag != "generate_ok"@);
            assert(ex == lit_node_id() + node_id + q + lit_node_ids() + enc_ids(node_ids)
                + lit_close_bracket());
            let c1 = b4 + lit_node_id();
            let c2 = c1 + node_id;
            let c3 = c2 + q;
            let c4 = c3 + lit_node_ids();
            let c5 = c4 + enc_ids(node_ids);
            assert(s =~= b4 + lit_node_id() + (node_id + q + lit_node_ids() + enc_ids(node_ids)
                + lit_close_bracket() + lit_end()));
            lemma_region(s, b4, lit_node_id(), node_id + q + lit_node_ids() + enc_ids(node_ids)
                + lit_close_bracket() + lit_end());
            assert(s =~= c1 + node_id + (q + lit_node_ids() + enc_ids(node_ids)
                + lit_close_bracket() + lit_end()));
            lemma_region(s, c1, node_id, q + lit_node_ids() + enc_ids(node_ids)
                + lit_close_bracket() + lit_end());
            assert(s =~= c2 + q + (lit_node_ids() + enc_ids(node_ids) + lit_close_bracket()
                + lit_end()));
            lemma_region(s, c2, q, lit_node_ids() + enc_ids(node_ids) + lit_close_bracket()
                + lit_end());
            assert(s =~= c3 + lit_node_ids() + (enc_ids(node_ids) + lit_close_bracket()
                + lit_end()));
            lemma_region(s, c3, lit_node_ids(), enc_ids(node_ids) + lit_close_bracket()
                + lit_end());
            assert(s =~= c4 + enc_ids(node_ids) + (lit_close_bracket() + lit_end()));
            lemma_region(s, c4, enc_ids(node_ids), lit_close_bracket() + lit_end());
            assert(s =~= c5 + lit_close_bracket() + lit_end());
            lemma_region(s, c5, lit_close_bracket(), lit_end());
            assert(parse_lit(s, i8, lit_node_id()) == Some(c1.len() as int)) by {
                assert(s.subrange(i8, i8 + lit_node_id().len() as int) =~= lit_node_id());
            }
            assert(s[c2.len() as int] == '"');
            assert(wf_chars(node_id));
            lemma_parse_str_at(s, c1.len() as int, node_id);
            assert(parse_str(s, c1.len() as int) == Some((node_id, c3.len() as int)));
            assert(parse_lit(s, c3.len() as int, lit_node_ids()) == Some(c4.len() as int)) by {
                assert(s.subrange(c3.len() as int, (c3.len() + lit_node_ids().len()) as int)
                    =~= lit_node_ids());
            }
            assert(s[c5.len() as int] == ']');
            lemma_parse_ids_at(s, c4.len() as int, node_ids, c5.len() as int);
            assert(c5.len() + 1 == i9);
        },
    }
}

/// Reading back the envelope prefix: the opening literal, the two address
/// strings and the tag parse back exactly as encoded.
#[verifier::rlimit(100)]
proof fn lemma_parse_prefix(s: Seq<char>, m: MessageView)
    requires
        wf_msg(m),
        s == spec_encode_msg(m),
    ensures
        ({
            let tag = tag_of(m.body.payload);
            let i1 = lit_src().len() as int;
            let i2 = i1 + m.src.len() + 1;
            let i3 = i2 + lit_dest().len();
            let i4 = i3 + m.dest.len() + 1;
            let i5 = i4 + lit_body().len();
            let i6 = i5 + tag.len() + 1;
            &&& parse_lit(s, 0, lit_src()) == Some(i1)
            &&& parse_str(s, i1) == Some((m.src, i2))
            &&& parse_lit(s, i2, lit_dest()) == Some(i3)
            &&& parse_str(s, i3) == Some((m.dest, i4))
            &&& parse_lit(s, i4, lit_body()) == Some(i5)
            &&& parse_str(s, i5) == Some((tag, i6))
        }),
{
    reveal_strlit("{\"src\":\"");
    reveal_strlit(",\"dest\":\"");
    reveal_strlit(",\"body\":{\"type\":\"");
    reveal_strlit("\"");
    reveal_strlit("generate");
    reveal_strlit("generate_ok");
    reveal_strlit("init");
    reveal_strlit("init_ok");
    let q = lit_quote();
    let tag = tag_of(m.body.payload);
    let b = spec_encode_body(m.body);
    let a1 = lit_src();
    let a2 = a1 + m.src;
    let a3 = a2 + q;
    let a4 = a3 + lit_dest();
    let a5 = a4 + m.dest;
    let a6 = a5 + q;
    let a7 = a6 + lit_body();
    let b1 = a7 + tag;
    let b2 = b1 + q;
    assert(wf_chars(tag)) by {
        match m.body.payload {
            PayloadView::Generate => {},
            PayloadView::GenerateOk { .. } => {},
            PayloadView::Init { .. } => {},
            PayloadView::InitOk => {},
        }
    }
    let tail = enc_opt_num(lit_msg_id(), m.body.msg_id) + enc_opt_num(
        lit_in_reply_to(),
        m.body.in_reply_to,
    ) + enc_extra(m.body.payload) + lit_end();
    assert(b == tag + q + enc_opt_num(lit_msg_id(), m.body.msg_id) + enc_opt_num(
        lit_in_reply_to(),
        m.body.in_reply_to,
    ) + enc_extra(m.body.payload));
    assert(s =~= Seq::<char>::empty() + a1 + (m.src + q + lit_dest() + m.dest + q + lit_body()
        + tag + q + tail));
    lemma_region(s, Seq::empty(), a1, m.src + q + lit_dest() + m.dest + q + lit_body() + tag + q
        + tail);
    assert(s =~= a1 + m.src + (q + lit_dest() + m.dest + q + lit_body() + tag + q + tail));
    lemma_region(s, a1, m.src, q + lit_dest() + m.dest + q + lit_body() + tag + q + tail);
    assert(s =~= a2 + q + (lit_dest() + m.dest + q + lit_body() + tag + q + tail));
    lemma_region(s, a2, q, lit_dest() + m.dest + q + lit_body() + tag + q + tail);
    assert(s =~= a3 + lit_dest() + (m.dest + q + lit_body() + tag + q + tail));
    lemma_region(s, a3, lit_dest(), m.dest + q + lit_body() + tag + q + tail);
    assert(s =~= a4 + m.dest + (q + lit_body() + tag + q + tail));
    lemma_region(s, a4, m.dest, q + lit_body() + tag + q + tail);
    assert(s =~= a5 + q + (lit_body() + tag + q + tail));
    lemma_region(s, a5, q, lit_body() + tag + q + tail);
    assert(s =~= a6 + lit_body() + (tag + q + tail));
    lemma_region(s, a6, lit_body(), tag + q + tail);
    assert(s =~= a7 + tag + (q + tail));
    lemma_region(s, a7, tag, q + tail);
    assert(s =~= b1 + q + tail);
    lemma_region(s, b1, q, tail);
    assert(parse_lit(s, 0, lit_src()) == Some(a1.len() as int)) by {
        assert(s.subrange(0, a1.len() as int) =~= lit_src());
    }
    assert(s[a2.len() as int] == '"');
    lemma_parse_str_at(s, a1.len() as int, m.src);
    let i2 = a3.len() as int;
    assert(parse_lit(s, i2, lit_dest()) == Some(a4.len() as int)) by {
        assert(s.subrange(i2, i2 + lit_dest().len() as int) =~= lit_dest());
    }
    assert(s[a5.len() as int] == '"');
    lemma_parse_str_at(s, a4.len() as int, m.dest);
    let i4 = a6.len() as int;
    assert(parse_lit(s, i4, lit_body()) == Some(a7.len() as int)) by {
        assert(s.subrange(i4, i4 + lit_body().len() as int) =~= lit_body());
    }
    assert(s[b1.len() as int] == '"');
    lemma_parse_str_at(s, a7.len() as int, tag);
}

/// Reading back the encoding of an envelope: the parser accepts exactly the
/// encoded text and reproduces the envelope.
#[verifier::rlimit(100)]
proof fn lemma_parse_encoded(m: MessageView)
    requires
        wf_msg(m),
    ensures
        spec_parse_msg(spec_encode_msg(m)) == Some(m),
{
    reveal_strlit("{\"src\":\"");
    reveal_strlit(",\"dest\":\"");
    reveal_strlit(",\"body\":{\"type\":\"");
    reveal_strlit("\"");
    reveal_strlit("}}");
    let s = spec_encode_msg(m);
    let q = lit_quote();
    let tag = tag_of(m.body.payload);
    let o1 = enc_opt_num(lit_msg_id(), m.body.msg_id);
    let o2 = enc_opt_num(lit_in_reply_to(), m.body.in_reply_to);
    let ex = enc_extra(m.body.payload);
    let b = spec_encode_body(m.body);
    assert(b == tag + q + o1 + o2 + ex);
    let a7 = lit_src() + m.src + q + lit_dest() + m.dest + q + lit_body();
    let b2 = a7 + tag + q;
    let b3 = b2 + o1;
    let b4 = b3 + o2;
    let b5 = b4 + ex;
    lemma_parse_prefix(s, m);
    let i6 = b2.len() as int;
    let i7 = b3.len() as int;
    let i8 = b4.len() as int;
    let i9 = b5.len() as int;
    assert(s =~= b2 + o1 + o2 + ex + lit_end());
    lemma_parse_opts_at(s, b2, m.body);
    assert(s =~= b4 + ex + lit_end());
    lemma_parse_variant_at(s, b4, m.body.payload);
    assert(parse_opt_num(s, i6, lit_msg_id()) == Some((m.body.msg_id, i7)));
    assert(parse_opt_num(s, i7, lit_in_reply_to()) == Some((m.body.in_reply_to, i8)));
    assert(parse_variant(s, i8, tag) == Some((m.body.payload, i9)));
    assert(s =~= b5 + lit_end() + Seq::<char>::empty());
    lemma_region(s, b5, lit_end(), Seq::empty());
    assert(parse_lit(s, i9, lit_end()) == Some(s.len() as int)) by {
        assert(s.subrange(i9, i9 + lit_end().len() as int) =~= lit_end());
    }
    assert(spec_parse_msg(s) == Some(m));
}

/// Decoding an encoded envelope reproduces the envelope: for every
/// representable envelope `m`, the encoded line parses back to exactly `m`.
pub proof fn lemma_decode_encode(m: MessageView)
    requires
        wf_msg(m),
    ensures
        spec_decode(spec_encode_line(m)) == Some(m),
{
    lemma_parse_encoded(m);
    reveal_strlit("\n");
    let line = spec_encode_line(m);
    assert(line.last() == '\n') by {
        assert(line[line.len() - 1] == lit_newline()[0]);
    }
    assert(line.drop_last() =~= spec_encode_msg(m));
}

} // verus!
