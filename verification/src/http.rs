//! HTTP/1.1 messages: a start line, field lines up to an empty line, and the
//! rest as the message body (RFC 9110, RFC 9112).

use vstd::prelude::*;
use vstd::slice::slice_to_vec;
use crate::fields::split_off;
use crate::helper::{
    DecodeError,
    find_symbol_with_offset,
    first_occurrence,
    is_cut,
    is_failure,
    lemma_first_occurrence,
    lemma_first_occurrence_prefix,
    occurs_at,
};

verus! {

broadcast use Seq::lemma_flatten_push;

/// Carriage return and line feed.
pub open spec fn crlf() -> Seq<u8> {
    seq![13u8, 10u8]
}

/// Two line ends in a row.
pub open spec fn crlf_crlf() -> Seq<u8> {
    seq![13u8, 10u8, 13u8, 10u8]
}

/// The separator between a field's name and its value.
pub open spec fn colon() -> Seq<u8> {
    seq![58u8]
}

/// Cuts a line off `input`, its line end included.
pub fn find_crlf_decode_callback<'a>(input: &'a [u8]) -> (r: Result<(&'a [u8], Vec<u8>), DecodeError>)
    ensures
        first_occurrence(input@, crlf()) matches Some(p) ==> is_cut(r, input@, p + 2),
        first_occurrence(input@, crlf()) is None ==> is_failure(r, DecodeError::SymbolNotFound),
{
    let symbol: [u8; 2] = [13, 10];
    assert(symbol@ =~= crlf());
    proof {
        lemma_first_occurrence(input@, crlf());
    }
    find_symbol_with_offset(input, symbol.as_slice(), 2)
}

/// Cuts off `input` what precedes the first line end.
pub fn find_crlf_offset_0_decode_callback<'a>(input: &'a [u8]) -> (r: Result<
    (&'a [u8], Vec<u8>),
    DecodeError,
>)
    ensures
        first_occurrence(input@, crlf()) matches Some(p) ==> is_cut(r, input@, p),
        first_occurrence(input@, crlf()) is None ==> is_failure(r, DecodeError::SymbolNotFound),
{
    let symbol: [u8; 2] = [13, 10];
    assert(symbol@ =~= crlf());
    proof {
        lemma_first_occurrence(input@, crlf());
    }
    find_symbol_with_offset(input, symbol.as_slice(), 0)
}

/// Cuts off `input` what precedes the first empty line, with the line end
/// just before it.
pub fn find_crlfx2_decode_callback<'a>(input: &'a [u8]) -> (r: Result<
    (&'a [u8], Vec<u8>),
    DecodeError,
>)
    ensures
        first_occurrence(input@, crlf_crlf()) matches Some(p) ==> is_cut(r, input@, p + 2),
        first_occurrence(input@, crlf_crlf()) is None ==> is_failure(
            r,
            DecodeError::SymbolNotFound,
        ),
{
    let symbol: [u8; 4] = [13, 10, 13, 10];
    assert(symbol@ =~= crlf_crlf());
    proof {
        lemma_first_occurrence(input@, crlf_crlf());
    }
    find_symbol_with_offset(input, symbol.as_slice(), 2)
}

/// Cuts off `input` what precedes the first colon.
pub fn find_colon_decode_callback<'a>(input: &'a [u8]) -> (r: Result<(&'a [u8], Vec<u8>), DecodeError>)
    ensures
        first_occurrence(input@, colon()) matches Some(p) ==> is_cut(r, input@, p),
        first_occurrence(input@, colon()) is None ==> is_failure(r, DecodeError::SymbolNotFound),
{
    let symbol: [u8; 1] = [58];
    assert(symbol@ =~= colon());
    proof {
        lemma_first_occurrence(input@, colon());
    }
    find_symbol_with_offset(input, symbol.as_slice(), 0)
}

/// A field line: the name before the colon and the value up to the line end.
pub struct FieldLine {
    pub field_name: Vec<u8>,
    pub field_value: Vec<u8>,
}

/// The bytes of a field line's name and value.
#[verifier::ext_equal]
pub struct SpecFieldLine {
    pub field_name: Seq<u8>,
    pub field_value: Seq<u8>,
}

impl View for FieldLine {
    type V = SpecFieldLine;

    open spec fn view(&self) -> SpecFieldLine {
        SpecFieldLine { field_name: self.field_name@, field_value: self.field_value@ }
    }
}

/// An HTTP message.
pub struct HttpMessage {
    /// The start line, its line end included.
    pub start_line: Vec<u8>,
    pub field_lines: Vec<FieldLine>,
    /// What follows the empty line.
    pub message_body: Vec<u8>,
}

/// The parts of an HTTP message.
#[verifier::ext_equal]
pub struct SpecHttpMessage {
    pub start_line: Seq<u8>,
    pub field_lines: Seq<SpecFieldLine>,
    pub message_body: Seq<u8>,
}

/// The field lines of a vector, each by its view.
pub open spec fn field_lines_view(v: Seq<FieldLine>) -> Seq<SpecFieldLine> {
    v.map_values(|f: FieldLine| f@)
}

impl View for HttpMessage {
    type V = SpecHttpMessage;

    open spec fn view(&self) -> SpecHttpMessage {
        SpecHttpMessage {
            start_line: self.start_line@,
            field_lines: field_lines_view(self.field_lines@),
            message_body: self.message_body@,
        }
    }
}

/// `t` starts with a line end.
pub open spec fn starts_with_crlf(t: Seq<u8>) -> bool {
    t.len() >= 2 && t.subrange(0, 2) == crlf()
}

/// The field lines at the start of `t` up to the first empty line, and what
/// follows that empty line; none where a field line before it has no colon or
/// no line end.
pub open spec fn spec_parse_field_lines(t: Seq<u8>) -> Option<(Seq<SpecFieldLine>, Seq<u8>)>
    decreases t.len(),
{
    if starts_with_crlf(t) {
        Some((Seq::empty(), t.subrange(2, t.len() as int)))
    } else {
        match first_occurrence(t, colon()) {
            None => None,
            Some(q) => {
                proof {
                    lemma_first_occurrence(t, colon());
                }
                let after = t.subrange(q + 1, t.len() as int);
                match first_occurrence(after, crlf()) {
                    None => None,
                    Some(e) => {
                        proof {
                            lemma_first_occurrence(after, crlf());
                        }
                        let line = SpecFieldLine {
                            field_name: t.subrange(0, q),
                            field_value: after.subrange(0, e),
                        };
                        match spec_parse_field_lines(after.subrange(e + 2, after.len() as int)) {
                            None => None,
                            Some((ls, body)) => Some((seq![line] + ls, body)),
                        }
                    },
                }
            },
        }
    }
}

/// The message that `s` holds, if it holds one.
pub open spec fn spec_parse_http_message(s: Seq<u8>) -> Option<SpecHttpMessage> {
    match first_occurrence(s, crlf()) {
        None => None,
        Some(p) => match spec_parse_field_lines(s.subrange(p + 2, s.len() as int)) {
            None => None,
            Some((ls, body)) => Some(
                SpecHttpMessage { start_line: s.subrange(0, p + 2), field_lines: ls, message_body: body },
            ),
        },
    }
}

/// The bytes of a field line.
pub open spec fn spec_field_line_bytes(l: SpecFieldLine) -> Seq<u8> {
    l.field_name + colon() + l.field_value + crlf()
}

/// The bytes of a sequence of field lines.
pub open spec fn spec_field_lines_bytes(ls: Seq<SpecFieldLine>) -> Seq<u8> {
    ls.map_values(|l: SpecFieldLine| spec_field_line_bytes(l)).flatten()
}

/// The bytes of a message.
pub open spec fn spec_http_message_bytes(m: SpecHttpMessage) -> Seq<u8> {
    m.start_line + spec_field_lines_bytes(m.field_lines) + crlf() + m.message_body
}

/// The outcome of parsing field lines after `done` ones were read.
pub open spec fn after_lines(
    done: Seq<SpecFieldLine>,
    r: Option<(Seq<SpecFieldLine>, Seq<u8>)>,
) -> Option<(Seq<SpecFieldLine>, Seq<u8>)> {
    match r {
        None => None,
        Some((ls, body)) => Some((done + ls, body)),
    }
}

/// Parses the field lines at the start of `t` and the empty line after them.
fn parse_field_lines(t: &[u8]) -> (r: Option<(Vec<FieldLine>, Vec<u8>)>)
    ensures
        spec_parse_field_lines(t@) matches Some((ls, body)) ==> r matches Some((v, b)) && field_lines_view(v@) == ls && b@ == body,
        spec_parse_field_lines(t@) is None ==> r is None,
{
    let mut lines: Vec<FieldLine> = Vec::new();
    let mut rest = t;
    assert(field_lines_view(lines@) =~= Seq::<SpecFieldLine>::empty());
    loop
        invariant
            spec_parse_field_lines(t@) == after_lines(
                field_lines_view(lines@),
                spec_parse_field_lines(rest@),
            ),
        decreases rest@.len(),
    {
        if rest.len() >= 2 && rest[0] == 13 && rest[1] == 10 {
            assert(rest@.subrange(0, 2) =~= crlf());
            let (body, _) = split_off(rest, 2);
            assert(field_lines_view(lines@) + Seq::<SpecFieldLine>::empty() =~= field_lines_view(lines@));
            return Some((lines, slice_to_vec(body)));
        }
        assert(!starts_with_crlf(rest@)) by {
            if starts_with_crlf(rest@) {
                assert(rest@.subrange(0, 2)[0] == crlf()[0]);
                assert(rest@.subrange(0, 2)[1] == crlf()[1]);
            }
        }
        let ghost old_rest = rest@;
        proof {
            lemma_first_occurrence(rest@, colon());
        }
        let (after_name, field_name) = match find_colon_decode_callback(rest) {
            Ok(cut) => cut,
            Err(_) => return None,
        };
        let (after_colon, _) = split_off(after_name, 1);
        proof {
            lemma_first_occurrence(after_colon@, crlf());
        }
        let ghost q = first_occurrence(old_rest, colon()).unwrap();
        let ghost after = old_rest.subrange(q + 1, old_rest.len() as int);
        assert(after_colon@ =~= after);
        let (after_value, field_value) = match find_crlf_offset_0_decode_callback(after_colon) {
            Ok(cut) => cut,
            Err(_) => return None,
        };
        let (after_line, _) = split_off(after_value, 2);
        let ghost e = first_occurrence(after, crlf()).unwrap();
        assert(after_line@ =~= after.subrange(e + 2, after.len() as int));
        let line = FieldLine { field_name, field_value };
        let ghost before = field_lines_view(lines@);
        lines.push(line);
        rest = after_line;
        assert(field_lines_view(lines@) =~= before.push(line@));
        assert(line@ =~= SpecFieldLine {
            field_name: old_rest.subrange(0, q),
            field_value: after.subrange(0, e),
        });
        proof {
            match spec_parse_field_lines(rest@) {
                None => {},
                Some((ls, body)) => {
                    assert(before + (seq![line@] + ls) =~= field_lines_view(lines@) + ls);
                },
            }
        }
    }
}

/// Parses an HTTP message.
pub fn parse_http_message(input: &[u8]) -> (r: Option<HttpMessage>)
    ensures
        spec_parse_http_message(input@) matches Some(m) ==> r matches Some(g) && g@ == m,
        spec_parse_http_message(input@) is None ==> r is None,
{
    let (rest, start_line) = match find_crlf_decode_callback(input) {
        Ok(cut) => cut,
        Err(_) => return None,
    };
    match parse_field_lines(rest) {
        None => None,
        Some((field_lines, message_body)) => {
            let m = HttpMessage { start_line, field_lines, message_body };
            assert(m@ =~= spec_parse_http_message(input@).unwrap());
            Some(m)
        },
    }
}

impl HttpMessage {
    /// The bytes of the message.
    pub fn to_bytes(&self) -> (r: Vec<u8>)
        ensures
            r@ == spec_http_message_bytes(self@),
    {
        let mut out = self.start_line.clone();
        let ghost start = out@;
        let ghost ls = field_lines_view(self.field_lines@);
        let ghost f = |l: SpecFieldLine| spec_field_line_bytes(l);
        let mut i: usize = 0;
        assert(out@ =~= start + ls.take(0).map_values(f).flatten());
        while i < self.field_lines.len()
            invariant
                i <= self.field_lines@.len(),
                ls == field_lines_view(self.field_lines@),
                f == (|l: SpecFieldLine| spec_field_line_bytes(l)),
                start == self.start_line@,
                out@ == start + ls.take(i as int).map_values(f).flatten(),
            decreases self.field_lines@.len() - i,
        {
            let l = &self.field_lines[i];
            let ghost before = out@;
            out.extend_from_slice(l.field_name.as_slice());
            out.push(58);
            out.extend_from_slice(l.field_value.as_slice());
            out.push(13);
            out.push(10);
            assert(out@ =~= before + spec_field_line_bytes(ls[i as int]));
            assert(ls.take(i + 1).map_values(f) =~= ls.take(i as int).map_values(f).push(
                spec_field_line_bytes(ls[i as int]),
            ));
            i = i + 1;
        }
        assert(ls.take(i as int) =~= ls);
        out.push(13);
        out.push(10);
        out.extend_from_slice(self.message_body.as_slice());
        out
    }
}

/// The field lines and body parsed from `t` give back exactly `t`.
pub proof fn lemma_field_lines_parse_bytes(t: Seq<u8>)
    requires
        spec_parse_field_lines(t) is Some,
    ensures
        spec_field_lines_bytes(spec_parse_field_lines(t).unwrap().0) + crlf()
            + spec_parse_field_lines(t).unwrap().1 == t,
    decreases t.len(),
{
    let f = |l: SpecFieldLine| spec_field_line_bytes(l);
    if starts_with_crlf(t) {
        assert(Seq::<SpecFieldLine>::empty().map_values(f).flatten() =~= Seq::<u8>::empty());
        assert(Seq::<u8>::empty() + crlf() + t.subrange(2, t.len() as int) =~= t);
    } else {
        let q = first_occurrence(t, colon()).unwrap();
        lemma_first_occurrence(t, colon());
        let after = t.subrange(q + 1, t.len() as int);
        let e = first_occurrence(after, crlf()).unwrap();
        lemma_first_occurrence(after, crlf());
        let next = after.subrange(e + 2, after.len() as int);
        lemma_field_lines_parse_bytes(next);
        let (ls, body) = spec_parse_field_lines(next).unwrap();
        let line = SpecFieldLine { field_name: t.subrange(0, q), field_value: after.subrange(0, e) };
        let all = seq![line] + ls;
        assert(all.map_values(f).drop_first() =~= ls.map_values(f));
        assert(spec_field_lines_bytes(all) == spec_field_line_bytes(line) + spec_field_lines_bytes(ls));
        assert(t.subrange(q, q + 1) == colon());
        assert(after.subrange(e, e + 2) == crlf());
        assert(spec_field_line_bytes(line) + next =~= t);
        assert(spec_field_lines_bytes(all) + crlf() + body =~= spec_field_line_bytes(line) + (
        spec_field_lines_bytes(ls) + crlf() + body));
    }
}

/// A parsed message gives back exactly the bytes it was parsed from.
pub proof fn lemma_http_message_parse_bytes(s: Seq<u8>)
    requires
        spec_parse_http_message(s) is Some,
    ensures
        spec_http_message_bytes(spec_parse_http_message(s).unwrap()) == s,
{
    let p = first_occurrence(s, crlf()).unwrap();
    lemma_first_occurrence(s, crlf());
    let rest = s.subrange(p + 2, s.len() as int);
    lemma_field_lines_parse_bytes(rest);
    let m = spec_parse_http_message(s).unwrap();
    assert(spec_http_message_bytes(m) =~= m.start_line + (spec_field_lines_bytes(m.field_lines)
        + crlf() + m.message_body));
    assert(s.subrange(0, p + 2) + rest =~= s);
}

/// A field line is well formed when its name holds no colon, its value no
/// line end, and the line does not start with a line end.
pub open spec fn wf_field_line(l: SpecFieldLine) -> bool {
    &&& first_occurrence(l.field_name + colon(), colon()) == Some(l.field_name.len() as int)
    &&& first_occurrence(l.field_value + crlf(), crlf()) == Some(l.field_value.len() as int)
    &&& !starts_with_crlf(spec_field_line_bytes(l))
}

/// A message is well formed when its start line ends with its first line end
/// and its field lines are well formed.
pub open spec fn wf_http_message(m: SpecHttpMessage) -> bool {
    &&& m.start_line.len() >= 2
    &&& first_occurrence(m.start_line, crlf()) == Some(m.start_line.len() - 2)
    &&& forall|i: int| 0 <= i < m.field_lines.len() ==> wf_field_line(#[trigger] m.field_lines[i])
}

/// Well-formed field lines, the empty line and a body parse back from their
/// bytes to themselves.
pub proof fn lemma_field_lines_bytes_parse(ls: Seq<SpecFieldLine>, body: Seq<u8>)
    requires
        forall|i: int| 0 <= i < ls.len() ==> wf_field_line(#[trigger] ls[i]),
    ensures
        spec_parse_field_lines(spec_field_lines_bytes(ls) + crlf() + body) == Some((ls, body)),
    decreases ls.len(),
{
    let f = |l: SpecFieldLine| spec_field_line_bytes(l);
    let t = spec_field_lines_bytes(ls) + crlf() + body;
    if ls.len() == 0 {
        assert(ls.map_values(f) =~= Seq::<Seq<u8>>::empty());
        assert(t =~= crlf() + body);
        assert(t.subrange(0, 2) =~= crlf());
        assert(t.subrange(2, t.len() as int) =~= body);
        assert(ls =~= Seq::<SpecFieldLine>::empty());
    } else {
        let l = ls[0];
        let rest = ls.drop_first();
        assert(wf_field_line(l));
        assert forall|i: int| 0 <= i < rest.len() implies wf_field_line(#[trigger] rest[i]) by {
            assert(rest[i] == ls[i + 1]);
        }
        lemma_field_lines_bytes_parse(rest, body);
        assert(ls.map_values(f).drop_first() =~= rest.map_values(f));
        let more = spec_field_lines_bytes(rest) + crlf() + body;
        let b = spec_field_line_bytes(l);
        assert(t =~= b + more);
        assert(t.subrange(0, 2) =~= b.subrange(0, 2));
        let q = l.field_name.len() as int;
        let after_part = l.field_value + crlf() + more;
        assert(t =~= (l.field_name + colon()) + after_part);
        lemma_first_occurrence_prefix(l.field_name + colon(), after_part, colon());
        let after = t.subrange(q + 1, t.len() as int);
        assert(after =~= after_part);
        assert(after =~= (l.field_value + crlf()) + more);
        lemma_first_occurrence_prefix(l.field_value + crlf(), more, crlf());
        let e = l.field_value.len() as int;
        assert(after.subrange(e + 2, after.len() as int) =~= more);
        assert(t.subrange(0, q) =~= l.field_name);
        assert(after.subrange(0, e) =~= l.field_value);
        assert(seq![l] + rest =~= ls);
    }
}

/// A well-formed message parses back from its bytes to itself.
pub proof fn lemma_http_message_bytes_parse(m: SpecHttpMessage)
    requires
        wf_http_message(m),
    ensures
        spec_parse_http_message(spec_http_message_bytes(m)) == Some(m),
{
    let s = spec_http_message_bytes(m);
    let rest = spec_field_lines_bytes(m.field_lines) + crlf() + m.message_body;
    assert(s =~= m.start_line + rest);
    lemma_first_occurrence_prefix(m.start_line, rest, crlf());
    lemma_field_lines_bytes_parse(m.field_lines, m.message_body);
    let p = m.start_line.len() - 2;
    assert(s.subrange(p + 2, s.len() as int) =~= rest);
    assert(s.subrange(0, p + 2) =~= m.start_line);
    assert(spec_parse_http_message(s).unwrap() =~= m);
}

/// `b` holds no carriage return directly followed by a line feed.
pub open spec fn no_crlf_in(b: Seq<u8>) -> bool {
    forall|j: int| 0 <= j < b.len() - 1 ==> !(#[trigger] b[j] == 13 && b[j + 1] == 10)
}

/// The field lines read from `t` each have a name that holds no colon and a
/// value that holds no line end, and none of them starts with a line end.
pub proof fn lemma_field_lines_layout(t: Seq<u8>)
    requires
        spec_parse_field_lines(t) is Some,
    ensures
        forall|i: int|
            0 <= i < spec_parse_field_lines(t).unwrap().0.len() ==> {
                let l = #[trigger] spec_parse_field_lines(t).unwrap().0[i];
                &&& forall|j: int| 0 <= j < l.field_name.len() ==> l.field_name[j] != 58
                &&& no_crlf_in(l.field_value)
                &&& !starts_with_crlf(spec_field_line_bytes(l))
            },
    decreases t.len(),
{
    if !starts_with_crlf(t) {
        let q = first_occurrence(t, colon()).unwrap();
        lemma_first_occurrence(t, colon());
        let after = t.subrange(q + 1, t.len() as int);
        let e = first_occurrence(after, crlf()).unwrap();
        lemma_first_occurrence(after, crlf());
        let next = after.subrange(e + 2, after.len() as int);
        lemma_field_lines_layout(next);
        let l = SpecFieldLine { field_name: t.subrange(0, q), field_value: after.subrange(0, e) };
        assert forall|j: int| 0 <= j < l.field_name.len() implies l.field_name[j] != 58 by {
            if t[j] == 58 {
                assert(t.subrange(j, j + 1) =~= colon());
                assert(occurs_at(t, colon(), j));
            }
        }
        assert forall|j: int| 0 <= j < l.field_value.len() - 1 implies !(
        #[trigger] l.field_value[j] == 13 && l.field_value[j + 1] == 10) by {
            if after[j] == 13 && after[j + 1] == 10 {
                assert(after.subrange(j, j + 2) =~= crlf());
                assert(occurs_at(after, crlf(), j));
            }
        }
        let b = spec_field_line_bytes(l);
        assert(b.len() >= 3);
        assert(b.subrange(0, 2) =~= t.subrange(0, 2)) by {
            assert forall|j: int| 0 <= j < 2 implies b[j] == t[j] by {
                if j < q {
                } else if j == q {
                } else {
                    assert(b[j] == after[j - q - 1]);
                }
            }
        }
        let ls = spec_parse_field_lines(t).unwrap().0;
        let tail = spec_parse_field_lines(next).unwrap().0;
        assert(ls[0] == l);
        assert forall|i: int| 0 < i < ls.len() implies ls[i] == tail[i - 1] by {}
    }
}

/// A message read from `s` has a start line that ends with its first line
/// end, and field lines as `lemma_field_lines_layout` says.
pub proof fn lemma_http_message_layout(s: Seq<u8>)
    requires
        spec_parse_http_message(s) is Some,
    ensures
        ({
            let m = spec_parse_http_message(s).unwrap();
            &&& m.start_line.len() >= 2
            &&& m.start_line[m.start_line.len() - 2] == 13
            &&& m.start_line[m.start_line.len() - 1] == 10
            &&& no_crlf_in(m.start_line.subrange(0, m.start_line.len() - 1))
        }),
{
    let p = first_occurrence(s, crlf()).unwrap();
    lemma_first_occurrence(s, crlf());
    let m = spec_parse_http_message(s).unwrap();
    let x = m.start_line.subrange(0, m.start_line.len() - 1);
    assert(s.subrange(p, p + 2)[0] == 13 && s.subrange(p, p + 2)[1] == 10);
    assert forall|j: int| 0 <= j < x.len() - 1 implies !(#[trigger] x[j] == 13 && x[j + 1] == 10) by {
        if s[j] == 13 && s[j + 1] == 10 {
            assert(s.subrange(j, j + 2) =~= crlf());
            assert(occurs_at(s, crlf(), j));
        }
    }
}

} // verus!
