//! The `multipart/related` body codec.
//!
//! Encoding frames one binary payload between a leading boundary line, a
//! `Content-Type` line, a `Content-Length` line and a blank line, and a
//! trailing `--boundary--` terminator.  Decoding is a line-oriented state
//! machine (`NextPart`, `InHeader`, `InBinary`) that scans header lines as
//! text but reads payloads as exact byte runs, so binary content that
//! happens to contain newline bytes passes through unharmed.

use crate::ProtocolError;
use crate::ascii::ascii_bytes;
use crate::ascii::ascii_seq;
use crate::ascii::bytes_end_with;
use crate::ascii::bytes_start_with;
use crate::ascii::dec_bytes;
use crate::ascii::dec_parse;
use crate::ascii::ends_with;
use crate::ascii::is_digit_byte;
use crate::ascii::is_space_byte;
use crate::ascii::lemma_dec_bytes_digits;
use crate::ascii::lemma_dec_val_of_dec_bytes;
use crate::ascii::last_token;
use crate::ascii::parse_dec;
use crate::ascii::push_dec_bytes;
use crate::ascii::starts_with;
use crate::ascii::token_start;
use crate::ascii::token_start_index;
use crate::ascii::trim_end;
use crate::ascii::trim_end_len;
use crate::ascii::trimmed_len;
use vstd::prelude::*;
use vstd::slice::slice_to_vec;

verus! {

pub open spec fn crlf() -> Seq<u8> {
    seq![13u8, 10u8]
}

pub open spec fn dashes() -> Seq<u8> {
    seq![45u8, 45u8]
}

pub open spec fn part_content_type_prefix() -> Seq<char> {
    "Content-Type: multipart/related; type=\"application/dicom\"; boundary="@
}

pub open spec fn content_length_prefix() -> Seq<char> {
    "Content-Length: "@
}

pub open spec fn content_length_name() -> Seq<char> {
    "Content-Length"@
}

/// The exact bytes of a single-part `multipart/related` body framing
/// `payload` with `boundary`.
pub open spec fn mp_encode(payload: Seq<u8>, boundary: Seq<u8>) -> Seq<u8> {
    dashes() + boundary + crlf() + ascii_seq(part_content_type_prefix()) + boundary + crlf()
        + ascii_seq(content_length_prefix()) + dec_bytes(payload.len()) + crlf() + crlf() + payload
        + crlf() + dashes() + boundary + dashes()
}

fn push_all(out: &mut Vec<u8>, s: &[u8])
    ensures
        final(out)@ == old(out)@ + s@,
{
    let mut i: usize = 0;
    while i < s.len()
        invariant
            i <= s@.len(),
            out@ == old(out)@ + s@.take(i as int),
        decreases s@.len() - i,
    {
        out.push(s[i]);
        proof {
            assert(old(out)@ + s@.take(i as int) + seq![s@[i as int]] =~= old(out)@ + s@.take(
                i + 1,
            ));
        }
        i = i + 1;
    }
    proof {
        assert(s@.take(s@.len() as int) =~= s@);
    }
}

fn push_crlf(out: &mut Vec<u8>)
    ensures
        final(out)@ == old(out)@ + crlf(),
{
    out.push(13);
    out.push(10);
    proof {
        assert(final(out)@ =~= old(out)@ + crlf());
    }
}

/// Builds the single-part `multipart/related` body that carries `buffer`,
/// framed by `boundary`.  The payload bytes are copied verbatim: the
/// encoder never inspects them.
pub fn multipart_encode_binary(buffer: Vec<u8>, boundary: &str) -> (r: Vec<u8>)
    requires
        boundary.is_ascii(),
    ensures
        r@ == mp_encode(buffer@, ascii_seq(boundary@)),
{
    proof {
        reveal_strlit("Content-Type: multipart/related; type=\"application/dicom\"; boundary=");
        reveal_strlit("Content-Length: ");
    }
    let b = ascii_bytes(boundary);
    let ct = ascii_bytes("Content-Type: multipart/related; type=\"application/dicom\"; boundary=");
    let cl = ascii_bytes("Content-Length: ");
    let mut out: Vec<u8> = Vec::new();
    out.push(45);
    out.push(45);
    push_all(&mut out, b.as_slice());
    push_crlf(&mut out);
    push_all(&mut out, ct.as_slice());
    push_all(&mut out, b.as_slice());
    push_crlf(&mut out);
    push_all(&mut out, cl.as_slice());
    push_dec_bytes(&mut out, buffer.len());
    push_crlf(&mut out);
    push_crlf(&mut out);
    push_all(&mut out, buffer.as_slice());
    push_crlf(&mut out);
    out.push(45);
    out.push(45);
    push_all(&mut out, b.as_slice());
    out.push(45);
    out.push(45);
    proof {
        assert(out@ =~= mp_encode(buffer@, ascii_seq(boundary@)));
    }
    out
}

/// The states of the multipart decoder: scanning for a boundary line,
/// draining a part's header lines, or consuming a part's payload bytes.
#[derive(Clone, Copy, PartialEq, Eq, Structural, Debug)]
pub enum MultipartState {
    NextPart,
    InHeader,
    InBinary,
}

/// Length of the first line of `body`: everything up to and including the
/// first line-feed byte, or all of `body` when none remains.
pub open spec fn line_len(body: Seq<u8>) -> nat
    decreases body.len(),
{
    if body.len() == 0 {
        0
    } else if body[0] == 10 {
        1
    } else {
        (1 + line_len(body.drop_first())) as nat
    }
}

pub proof fn lemma_line_len_bounds(body: Seq<u8>)
    requires
        body.len() > 0,
    ensures
        1 <= line_len(body) <= body.len(),
    decreases body.len(),
{
    if body[0] != 10 {
        if body.len() > 1 {
            lemma_line_len_bounds(body.drop_first());
        } else {
            assert(line_len(body.drop_first()) == 0);
        }
    }
}

proof fn lemma_line_len_scan(s: Seq<u8>, k: int)
    requires
        0 <= k <= s.len(),
        forall|j: int| 0 <= j < k ==> s[j] != 10,
    ensures
        k == s.len() ==> line_len(s) == k,
        k < s.len() && s[k] == 10 ==> line_len(s) == k + 1,
    decreases k,
{
    if k > 0 {
        lemma_line_len_scan(s.drop_first(), k - 1);
    }
}

/// One step per line: the decoder, written as a recursive function over
/// the bytes that remain.  `cl` is the most recent `Content-Length` value,
/// `acc` the payloads already recovered.  A scan that ends still hunting
/// for its first boundary line found nothing framed at all, which is a
/// missing boundary, not an empty success.
pub open spec fn mp_scan(
    rest: Seq<u8>,
    boundary: Seq<u8>,
    state: MultipartState,
    cl: nat,
    acc: Seq<Seq<u8>>,
) -> Result<Seq<Seq<u8>>, ProtocolError>
    decreases rest.len(),
        via mp_scan_decreases
{
    if rest.len() == 0 {
        if state == MultipartState::NextPart && acc.len() == 0 {
            Err(ProtocolError::MissingBoundary)
        } else {
            Ok(acc)
        }
    } else {
        let ll = line_len(rest) as int;
        let line = rest.take(ll);
        let after = rest.skip(ll);
        match state {
            MultipartState::NextPart => {
                if ends_with(trim_end(line), boundary) {
                    mp_scan(after, boundary, MultipartState::InHeader, cl, acc)
                } else {
                    mp_scan(after, boundary, MultipartState::NextPart, cl, acc)
                }
            },
            MultipartState::InHeader => {
                if starts_with(line, ascii_seq(content_length_name())) {
                    match parse_dec(last_token(trim_end(line))) {
                        Some(n) => mp_scan(after, boundary, MultipartState::InHeader, n, acc),
                        None => Err(ProtocolError::BadContentLength),
                    }
                } else if trimmed_len(line) == 0 {
                    if cl > 0 {
                        if after.len() >= cl {
                            mp_scan(
                                after.skip(cl as int),
                                boundary,
                                MultipartState::NextPart,
                                cl,
                                acc.push(after.take(cl as int)),
                            )
                        } else {
                            Err(ProtocolError::Truncated)
                        }
                    } else {
                        let term = crlf() + dashes() + boundary + dashes();
                        if ends_with(after, term) {
                            Ok(acc.push(after.take(after.len() - term.len())))
                        } else {
                            Err(ProtocolError::MissingTerminator)
                        }
                    }
                } else {
                    mp_scan(after, boundary, MultipartState::InHeader, cl, acc)
                }
            },
            MultipartState::InBinary => Err(ProtocolError::UnexpectedState),
        }
    }
}

#[via_fn]
proof fn mp_scan_decreases(
    rest: Seq<u8>,
    boundary: Seq<u8>,
    state: MultipartState,
    cl: nat,
    acc: Seq<Seq<u8>>,
) {
    if rest.len() > 0 {
        lemma_line_len_bounds(rest);
    }
}

/// What decoding `body` against `boundary` yields.
pub open spec fn mp_decode(body: Seq<u8>, boundary: Seq<u8>) -> Result<Seq<Seq<u8>>, ProtocolError> {
    mp_scan(body, boundary, MultipartState::NextPart, 0, Seq::empty())
}

fn find_line_end(body: &[u8], pos: usize) -> (le: usize)
    requires
        pos < body@.len(),
    ensures
        pos < le <= body@.len(),
        le - pos == line_len(body@.skip(pos as int)),
{
    let n: usize = body.len();
    let mut i: usize = pos;
    while i < n && body[i] != 10
        invariant
            pos <= i <= n == body@.len(),
            forall|j: int| pos <= j < i ==> body@[j] != 10,
        decreases n - i,
    {
        i = i + 1;
    }
    proof {
        let rest = body@.skip(pos as int);
        assert(forall|j: int|
            0 <= j < i - pos ==> #[trigger] rest[j] == body@[j + pos] && rest[j] != 10);
        lemma_line_len_scan(rest, i - pos);
    }
    if i < n {
        i + 1
    } else {
        i
    }
}

/// Decodes the parts of a `multipart/related` body.  Header lines are
/// scanned as text; each payload is read as an exact byte run of the
/// declared `Content-Length`, falling back, when none was declared, to
/// taking the remainder of the body up to the trailing
/// `\r\n--boundary--` terminator.
pub fn parse_multipart_body(body: &[u8], boundary: &str) -> (r: Result<
    Vec<Vec<u8>>,
    ProtocolError,
>)
    requires
        boundary.is_ascii(),
    ensures
        match r {
            Ok(parts) => mp_decode(body@, ascii_seq(boundary@)) == Ok::<_, ProtocolError>(
                parts.deep_view(),
            ),
            Err(e) => mp_decode(body@, ascii_seq(boundary@)) == Err::<Seq<Seq<u8>>, _>(e),
        },
{
    proof {
        reveal_strlit("Content-Length");
    }
    let b = ascii_bytes(boundary);
    let cl_name = ascii_bytes("Content-Length");
    let n: usize = body.len();
    let mut pos: usize = 0;
    let mut state = MultipartState::NextPart;
    let mut cl: usize = 0;
    let mut parts: Vec<Vec<u8>> = Vec::new();
    proof {
        assert(body@.skip(0) =~= body@);
        assert(parts.deep_view() =~= Seq::<Seq<u8>>::empty());
    }
    while pos < n
        invariant
            pos <= n == body@.len(),
            b@ == ascii_seq(boundary@),
            cl_name@ == ascii_seq(content_length_name()),
            state != MultipartState::InBinary,
            mp_scan(body@.skip(pos as int), b@, state, cl as nat, parts.deep_view()) == mp_decode(
                body@,
                ascii_seq(boundary@),
            ),
        decreases n - pos,
    {
        let ghost rest = body@.skip(pos as int);
        let ghost acc0 = parts.deep_view();
        let le = find_line_end(body, pos);
        let line = &body[pos..le];
        proof {
            assert(rest.take((le - pos) as int) =~= line@);
            assert(rest.skip((le - pos) as int) =~= body@.skip(le as int));
        }
        match state {
            MultipartState::NextPart => {
                let tl = trim_end_len(line);
                proof {
                    assert(line@.take(tl as int) == trim_end(line@));
                }
                if bytes_end_with(&line[0..tl], b.as_slice()) {
                    state = MultipartState::InHeader;
                } else {
                    proof {
                        assert(!ends_with(trim_end(line@), b@));
                    }
                }
                pos = le;
            },
            MultipartState::InHeader => {
                if bytes_start_with(line, cl_name.as_slice()) {
                    let tl = trim_end_len(line);
                    let trimmed = &line[0..tl];
                    let ts = token_start_index(trimmed);
                    proof {
                        assert(trimmed@ == trim_end(line@));
                        assert(trimmed@.skip(ts as int) == last_token(trim_end(line@)));
                    }
                    match dec_parse(&trimmed[ts..tl]) {
                        Some(v) => {
                            cl = v;
                            pos = le;
                        },
                        None => {
                            return Err(ProtocolError::BadContentLength);
                        },
                    }
                } else {
                    let tl = trim_end_len(line);
                    if tl == 0 {
                        pos = le;
                        let ghost after = body@.skip(pos as int);
                        if cl > 0 {
                            if n - pos >= cl {
                                let part = slice_to_vec(&body[pos..pos + cl]);
                                proof {
                                    assert(part@ == after.take(cl as int));
                                }
                                parts.push(part);
                                proof {
                                    assert(parts.deep_view() =~~= acc0.push(after.take(cl as int)));
                                    assert(body@.skip((pos + cl) as int) =~= after.skip(cl as int));
                                }
                                pos = pos + cl;
                                state = MultipartState::NextPart;
                            } else {
                                proof {
                                    assert(after.len() < cl);
                                }
                                return Err(ProtocolError::Truncated);
                            }
                        } else {
                            let mut term: Vec<u8> = Vec::new();
                            push_crlf(&mut term);
                            term.push(45);
                            term.push(45);
                            push_all(&mut term, b.as_slice());
                            term.push(45);
                            term.push(45);
                            proof {
                                assert(term@ =~= crlf() + dashes() + b@ + dashes());
                            }
                            let remaining = &body[pos..n];
                            proof {
                                assert(remaining@ == after);
                            }
                            if bytes_end_with(remaining, term.as_slice()) {
                                let keep = n - pos - term.len();
                                let part = slice_to_vec(&body[pos..pos + keep]);
                                proof {
                                    assert(part@ =~= after.take(
                                        (after.len() - term@.len()) as int,
                                    ));
                                }
                                parts.push(part);
                                proof {
                                    assert(parts.deep_view() =~~= acc0.push(
                                        after.take((after.len() - term@.len()) as int),
                                    ));
                                    assert(body@.skip(n as int) =~= Seq::<u8>::empty());
                                }
                                pos = n;
                                state = MultipartState::NextPart;
                            } else {
                                return Err(ProtocolError::MissingTerminator);
                            }
                        }
                    } else {
                        pos = le;
                    }
                }
            },
            MultipartState::InBinary => {
                // never reached: the loop always returns to `NextPart`
                // after a payload is consumed
                proof {
                    assert(false);
                }
                pos = le;
            },
        }
    }
    proof {
        assert(body@.skip(pos as int) =~= Seq::<u8>::empty());
    }
    if state == MultipartState::NextPart && parts.len() == 0 {
        Err(ProtocolError::MissingBoundary)
    } else {
        Ok(parts)
    }
}

/// A boundary token in the shape the framing can carry: non-empty, free
/// of line feeds, and not ending in whitespace, so that a boundary line
/// stays one line and survives trimming intact.
pub open spec fn boundary_ok(boundary: Seq<u8>) -> bool {
    boundary.len() > 0 && !is_space_byte(boundary.last()) && forall|i: int|
        0 <= i < boundary.len() ==> #[trigger] boundary[i] != 10
}

proof fn lemma_line_of_prefix(s: Seq<u8>, l: Seq<u8>)
    requires
        l.len() >= 1,
        l.len() <= s.len(),
        s.take(l.len() as int) == l,
        l.last() == 10,
        forall|i: int| 0 <= i < l.len() - 1 ==> l[i] != 10,
    ensures
        line_len(s) == l.len(),
{
    assert(forall|j: int| 0 <= j < l.len() - 1 ==> s[j] == l[j] && s[j] != 10);
    assert(s[l.len() - 1] == l.last());
    lemma_line_len_scan(s, l.len() - 1);
}

proof fn lemma_line_whole(s: Seq<u8>)
    requires
        s.len() >= 1,
        forall|i: int| 0 <= i < s.len() ==> s[i] != 10,
    ensures
        line_len(s) == s.len(),
{
    lemma_line_len_scan(s, s.len() as int);
}

proof fn lemma_trimmed_full(t: Seq<u8>)
    requires
        t.len() > 0,
        !is_space_byte(t.last()),
    ensures
        trimmed_len(t) == t.len(),
{
}

proof fn lemma_trim_crlf(t: Seq<u8>)
    ensures
        trimmed_len(t + crlf()) == trimmed_len(t),
{
    let s = t + crlf();
    assert(is_space_byte(s.last()));
    assert(s.drop_last() =~= t + seq![13u8]);
    let s1 = t + seq![13u8];
    assert(trimmed_len(s) == trimmed_len(s1));
    assert(is_space_byte(s1.last()));
    assert(s1.drop_last() =~= t);
    assert(trimmed_len(s1) == trimmed_len(t));
}

proof fn lemma_token_start_append(t: Seq<u8>, d: Seq<u8>)
    requires
        t.len() >= 1,
        is_space_byte(t.last()),
        d.len() >= 1,
        forall|i: int| 0 <= i < d.len() ==> !is_space_byte(#[trigger] d[i]),
    ensures
        token_start(t + d) == t.len(),
    decreases d.len(),
{
    let s = t + d;
    assert(s.last() == d.last());
    assert(!is_space_byte(s.last()));
    if d.len() == 1 {
        assert(s.drop_last() =~= t);
        assert(token_start(s) == token_start(t));
        assert(token_start(t) == t.len());
    } else {
        assert(s.drop_last() =~= t + d.drop_last());
        lemma_token_start_append(t, d.drop_last());
        assert(token_start(s) == token_start(t + d.drop_last()));
    }
}

proof fn lemma_content_type_line_bytes()
    ensures
        ascii_seq(part_content_type_prefix()).len() >= 15,
        forall|i: int|
            0 <= i < ascii_seq(part_content_type_prefix()).len() ==> #[trigger] ascii_seq(
                part_content_type_prefix(),
            )[i] != 10,
        ascii_seq(part_content_type_prefix())[8] != ascii_seq(content_length_name())[8],
{
    reveal_strlit("Content-Type: multipart/related; type=\"application/dicom\"; boundary=");
    reveal_strlit("Content-Length");
}

proof fn lemma_content_length_line_bytes()
    ensures
        ascii_seq(content_length_prefix()).len() == 16,
        ascii_seq(content_length_name()).len() == 14,
        forall|i: int|
            0 <= i < ascii_seq(content_length_prefix()).len() ==> #[trigger] ascii_seq(
                content_length_prefix(),
            )[i] != 10,
        ascii_seq(content_length_prefix()).take(14) == ascii_seq(content_length_name()),
        is_space_byte(ascii_seq(content_length_prefix()).last()),
{
    reveal_strlit("Content-Length: ");
    reveal_strlit("Content-Length");
    assert(ascii_seq(content_length_prefix()).take(14) =~= ascii_seq(content_length_name()));
}

/// The closing frame that follows the payload: `\r\n--boundary--`.
pub open spec fn mp_terminator(boundary: Seq<u8>) -> Seq<u8> {
    crlf() + dashes() + boundary + dashes()
}

/// Scanning an encoded body consumes the boundary line, the two header
/// lines and the blank line, recording the payload length on the way.
#[verifier::rlimit(100)]
#[verifier::spinoff_prover]
proof fn lemma_round_trip_header_phase(payload: Seq<u8>, boundary: Seq<u8>)
    requires
        boundary_ok(boundary),
        payload.len() <= usize::MAX,
    ensures
        mp_decode(mp_encode(payload, boundary), boundary) == mp_scan(
            crlf() + (payload + mp_terminator(boundary)),
            boundary,
            MultipartState::InHeader,
            payload.len(),
            Seq::empty(),
        ),
{
    let b = boundary;
    let n = payload.len();
    let l1 = dashes() + b + crlf();
    let ctl = ascii_seq(part_content_type_prefix()) + b + crlf();
    let cll = ascii_seq(content_length_prefix()) + dec_bytes(n) + crlf();
    let bl = crlf();
    let tail = crlf() + dashes() + b + dashes();
    let body = mp_encode(payload, b);
    assert(body =~= l1 + (ctl + (cll + (bl + (payload + tail)))));

    lemma_content_type_line_bytes();
    lemma_content_length_line_bytes();
    lemma_dec_bytes_digits(n);
    lemma_dec_val_of_dec_bytes(n);

    // first line: `--boundary`, which moves the scanner into the headers
    let r1 = ctl + (cll + (bl + (payload + tail)));
    assert(forall|i: int| 0 <= i < l1.len() - 1 ==> l1[i] != 10);
    assert(body.take(l1.len() as int) =~= l1);
    lemma_line_of_prefix(body, l1);
    assert(body.skip(l1.len() as int) =~= r1);
    lemma_trim_crlf(dashes() + b);
    assert((dashes() + b + crlf()) =~= ((dashes() + b) + crlf()));
    lemma_trimmed_full(dashes() + b);
    assert(trim_end(l1) =~= dashes() + b);
    assert((dashes() + b).skip(2) =~= b);
    assert(ends_with(trim_end(l1), b));
    assert(mp_scan(body, b, MultipartState::NextPart, 0, Seq::empty()) == mp_scan(
        r1,
        b,
        MultipartState::InHeader,
        0,
        Seq::empty(),
    ));

    // second line: the part's `Content-Type`, an ordinary header line
    let r2 = cll + (bl + (payload + tail));
    assert(forall|i: int| 0 <= i < ctl.len() - 1 ==> ctl[i] != 10);
    assert(r1.take(ctl.len() as int) =~= ctl);
    lemma_line_of_prefix(r1, ctl);
    assert(r1.skip(ctl.len() as int) =~= r2);
    assert(!starts_with(ctl, ascii_seq(content_length_name()))) by {
        assert(ctl[8] == ascii_seq(part_content_type_prefix())[8]);
        if starts_with(ctl, ascii_seq(content_length_name())) {
            assert(ctl.take(14)[8] == ascii_seq(content_length_name())[8]);
        }
    }
    lemma_trim_crlf(ascii_seq(part_content_type_prefix()) + b);
    assert(ctl =~= ((ascii_seq(part_content_type_prefix()) + b) + crlf()));
    lemma_trimmed_full(ascii_seq(part_content_type_prefix()) + b);
    assert(trimmed_len(ctl) != 0);
    assert(mp_scan(r1, b, MultipartState::InHeader, 0, Seq::empty()) == mp_scan(
        r2,
        b,
        MultipartState::InHeader,
        0,
        Seq::empty(),
    ));

    // third line: `Content-Length`, which records the payload length
    let r3 = bl + (payload + tail);
    assert(forall|i: int| 0 <= i < cll.len() - 1 ==> cll[i] != 10) by {
        assert(forall|i: int|
            0 <= i < dec_bytes(n).len() ==> is_digit_byte(#[trigger] dec_bytes(n)[i]));
    }
    assert(r2.take(cll.len() as int) =~= cll);
    lemma_line_of_prefix(r2, cll);
    assert(r2.skip(cll.len() as int) =~= r3);
    assert(starts_with(cll, ascii_seq(content_length_name()))) by {
        assert(cll.take(14) =~= ascii_seq(content_length_prefix()).take(14));
    }
    lemma_trim_crlf(ascii_seq(content_length_prefix()) + dec_bytes(n));
    assert(cll =~= ((ascii_seq(content_length_prefix()) + dec_bytes(n)) + crlf()));
    assert(forall|i: int|
        0 <= i < dec_bytes(n).len() ==> !is_space_byte(#[trigger] dec_bytes(n)[i]));
    lemma_trimmed_full(ascii_seq(content_length_prefix()) + dec_bytes(n));
    assert(trim_end(cll) =~= ascii_seq(content_length_prefix()) + dec_bytes(n));
    lemma_token_start_append(ascii_seq(content_length_prefix()), dec_bytes(n));
    assert(last_token(trim_end(cll)) =~= dec_bytes(n));
    assert(parse_dec(dec_bytes(n)) == Some(n));
    assert(mp_scan(r2, b, MultipartState::InHeader, 0, Seq::empty()) == mp_scan(
        r3,
        b,
        MultipartState::InHeader,
        n,
        Seq::empty(),
    ));

    assert(r3 == crlf() + (payload + mp_terminator(boundary)));
}

/// Round trip: a body built by `mp_encode` decodes back to exactly the one
/// payload it framed, for every payload and every well-shaped boundary.
#[verifier::rlimit(100)]
#[verifier::spinoff_prover]
pub proof fn lemma_multipart_round_trip(payload: Seq<u8>, boundary: Seq<u8>)
    requires
        boundary_ok(boundary),
        payload.len() <= usize::MAX,
    ensures
        mp_decode(mp_encode(payload, boundary), boundary) == Ok::<_, ProtocolError>(seq![payload]),
{
    let b = boundary;
    let n = payload.len();
    let tail = crlf() + dashes() + b + dashes();
    let r3 = crlf() + (payload + tail);
    lemma_round_trip_header_phase(payload, boundary);
    lemma_content_length_line_bytes();

    // fourth line: blank, which starts the payload phase
    let r4 = payload + tail;
    assert(r3[0] == 13 && r3.len() >= 2 && r3[1] == 10);
    assert(r3.take(2) =~= crlf());
    lemma_line_of_prefix(r3, crlf());
    assert(r3.skip(2) =~= r4);
    assert(!starts_with(crlf(), ascii_seq(content_length_name())));
    assert(trimmed_len(crlf()) == 0) by {
        assert(crlf().drop_last() =~= seq![13u8]);
        assert(trimmed_len(crlf()) == trimmed_len(seq![13u8]));
        assert(seq![13u8].drop_last() =~= Seq::<u8>::empty());
        assert(trimmed_len(seq![13u8]) == trimmed_len(Seq::<u8>::empty()));
        assert(trimmed_len(Seq::<u8>::empty()) == 0);
    }
    if n > 0 {
        // declared length: the payload is consumed as one exact byte run
        assert(r4.len() >= n);
        assert(r4.take(n as int) =~= payload);
        assert(r4.skip(n as int) =~= tail);
        assert(mp_scan(r3, b, MultipartState::InHeader, n, Seq::empty()) == mp_scan(
            tail,
            b,
            MultipartState::NextPart,
            n,
            Seq::empty().push(payload),
        ));

        // fifth line: the `\r\n` that precedes the closing boundary
        let r5 = dashes() + b + dashes();
        assert(tail.take(2) =~= crlf());
        lemma_line_of_prefix(tail, crlf());
        assert(tail.skip(2) =~= r5);
        assert(trim_end(crlf()) =~= Seq::<u8>::empty());
        assert(!ends_with(trim_end(crlf()), b));
        assert(mp_scan(tail, b, MultipartState::NextPart, n, Seq::empty().push(payload))
            == mp_scan(r5, b, MultipartState::NextPart, n, Seq::empty().push(payload)));

        // final line: `--boundary--`; whatever the scanner makes of it,
        // nothing remains, so the accumulated parts come back
        assert(forall|i: int| 0 <= i < r5.len() ==> r5[i] != 10);
        lemma_line_whole(r5);
        assert(r5.take(r5.len() as int) =~= r5);
        assert(r5.skip(r5.len() as int) =~= Seq::<u8>::empty());
        assert(mp_scan(
            Seq::<u8>::empty(),
            b,
            MultipartState::InHeader,
            n,
            Seq::empty().push(payload),
        ) == Ok::<_, ProtocolError>(Seq::empty().push(payload)));
        assert(mp_scan(
            Seq::<u8>::empty(),
            b,
            MultipartState::NextPart,
            n,
            Seq::empty().push(payload),
        ) == Ok::<_, ProtocolError>(Seq::empty().push(payload)));
        assert(mp_scan(r5, b, MultipartState::NextPart, n, Seq::empty().push(payload)) == Ok::<
            _,
            ProtocolError,
        >(Seq::empty().push(payload)));
        assert(Seq::empty().push(payload) =~= seq![payload]);
    } else {
        // no declared length: the remainder is taken up to the terminator
        assert(r4 =~= tail);
        let term = crlf() + dashes() + b + dashes();
        assert(term =~= tail);
        assert(tail.skip(0) =~= tail);
        assert(ends_with(tail, term));
        assert(tail.take((tail.len() - term.len()) as int) =~= payload);
        assert(mp_scan(r3, b, MultipartState::InHeader, 0, Seq::empty()) == Ok::<
            _,
            ProtocolError,
        >(Seq::empty().push(payload)));
        assert(Seq::empty().push(payload) =~= seq![payload]);
    }
}

} // verus!
