//! The client-side query builder: assembles the canonical DICOMweb
//! request shapes — search studies, series and instances; retrieve; and
//! store — as plain request descriptions (method, URL, query parameters,
//! headers, body), ready for any HTTP transport to send.

use crate::Error;
use crate::ascii::ascii_chars;
use crate::ascii::ascii_seq;
use crate::ascii::ascii_to_string;
use crate::ascii::dec_chars;
use crate::ascii::push_dec_chars;
use crate::ascii::str_eq;
use crate::multipart::mp_encode;
use crate::multipart::multipart_encode_binary;
use vstd::prelude::*;
use vstd::string::StrSliceExecFns;
use vstd::string::StringExecFns;
use vstd::string::StringSliceAdditionalSpecFns;
use vstd::utf8::encode_utf8;

verus! {

/// The two request methods DICOMweb uses.
#[derive(Clone, Copy, PartialEq, Eq, Structural, Debug)]
pub enum HttpMethod {
    Get,
    Post,
}

/// Bytes that travel unescaped in a query string.
pub open spec fn is_unreserved_byte(b: u8) -> bool {
    (0x41 <= b && b <= 0x5A) || (0x61 <= b && b <= 0x7A) || (0x30 <= b && b <= 0x39) || b == 0x2D
        || b == 0x2E || b == 0x5F || b == 0x7E
}

pub open spec fn hex_digit_byte(d: nat) -> u8
    recommends
        d < 16,
{
    if d < 10 {
        (0x30 + d) as u8
    } else {
        (0x37 + d) as u8
    }
}

/// One byte, percent-escaped unless unreserved.
pub open spec fn pct_byte(b: u8) -> Seq<u8> {
    if is_unreserved_byte(b) {
        seq![b]
    } else {
        seq![0x25u8, hex_digit_byte(b as nat / 16), hex_digit_byte(b as nat % 16)]
    }
}

pub open spec fn pct_bytes(s: Seq<u8>) -> Seq<u8>
    decreases s.len(),
{
    if s.len() == 0 {
        Seq::empty()
    } else {
        pct_byte(s[0]) + pct_bytes(s.drop_first())
    }
}

/// A string percent-encoded over its UTF-8 bytes.
pub open spec fn pct_chars(s: Seq<char>) -> Seq<char> {
    ascii_chars(pct_bytes(encode_utf8(s)))
}

proof fn lemma_pct_bytes_push(a: Seq<u8>, x: u8)
    ensures
        pct_bytes(a.push(x)) == pct_bytes(a) + pct_byte(x),
    decreases a.len(),
{
    if a.len() == 0 {
        assert(a =~= Seq::<u8>::empty());
        assert(a.push(x)[0] == x);
        assert(a.push(x).drop_first() =~= Seq::<u8>::empty());
        assert(pct_bytes(Seq::<u8>::empty()) =~= Seq::<u8>::empty());
        assert(pct_bytes(a.push(x)) =~= pct_bytes(a) + pct_byte(x));
    } else {
        assert(a.push(x)[0] == a[0]);
        assert(a.push(x).drop_first() =~= a.drop_first().push(x));
        lemma_pct_bytes_push(a.drop_first(), x);
        assert(pct_bytes(a.push(x)) =~= pct_bytes(a) + pct_byte(x));
    }
}

proof fn lemma_pct_bytes_ascii(s: Seq<u8>)
    ensures
        forall|i: int| 0 <= i < pct_bytes(s).len() ==> #[trigger] pct_bytes(s)[i] < 0x80,
    decreases s.len(),
{
    if s.len() > 0 {
        lemma_pct_bytes_ascii(s.drop_first());
        assert forall|i: int| 0 <= i < pct_bytes(s).len() implies #[trigger] pct_bytes(s)[i]
            < 0x80 by {
            let head = pct_byte(s[0]);
            if i >= head.len() {
                assert(pct_bytes(s)[i] == pct_bytes(s.drop_first())[i - head.len()]);
            }
        }
    }
}

/// Percent-encodes a string for use in a query component: unreserved
/// ASCII stays, everything else becomes `%XX` over its UTF-8 bytes.
pub fn percent_encode(s: &str) -> (r: String)
    ensures
        r@ == pct_chars(s@),
{
    let bytes = s.as_bytes_vec();
    let mut out: Vec<u8> = Vec::new();
    let mut i: usize = 0;
    proof {
        assert(bytes@.take(0) =~= Seq::<u8>::empty());
    }
    while i < bytes.len()
        invariant
            bytes@ == s.spec_bytes(),
            i <= bytes@.len(),
            out@ == pct_bytes(bytes@.take(i as int)),
        decreases bytes@.len() - i,
    {
        let b = bytes[i];
        let ghost pre = out@;
        if (0x41 <= b && b <= 0x5A) || (0x61 <= b && b <= 0x7A) || (0x30 <= b && b <= 0x39) || b
            == 0x2D || b == 0x2E || b == 0x5F || b == 0x7E {
            out.push(b);
        } else {
            out.push(0x25);
            let hi = b / 16;
            let lo = b % 16;
            out.push(if hi < 10 { 0x30 + hi } else { 0x37 + hi });
            out.push(if lo < 10 { 0x30 + lo } else { 0x37 + lo });
        }
        proof {
            assert(out@ =~= pre + pct_byte(b));
            assert(bytes@.take(i + 1) =~= bytes@.take(i as int).push(b));
            lemma_pct_bytes_push(bytes@.take(i as int), b);
        }
        i = i + 1;
    }
    proof {
        assert(bytes@.take(bytes@.len() as int) =~= bytes@);
        lemma_pct_bytes_ascii(bytes@);
    }
    let r = ascii_to_string(out);
    proof {
        assert(r@ =~= pct_chars(s@));
    }
    r
}

/// A `key=value` pair as it stands in the query string.
pub open spec fn query_pair_chars(k: Seq<char>, v: Seq<char>) -> Seq<char> {
    pct_chars(k) + seq!['='] + pct_chars(v)
}

/// Pairs joined with `&`, in the order they stand in the list.
pub open spec fn query_string_chars(q: Seq<(Seq<char>, Seq<char>)>) -> Seq<char>
    decreases q.len(),
{
    if q.len() == 0 {
        Seq::empty()
    } else if q.len() == 1 {
        query_pair_chars(q[0].0, q[0].1)
    } else {
        query_pair_chars(q[0].0, q[0].1) + seq!['&'] + query_string_chars(q.drop_first())
    }
}

/// The URL with its query string attached, when any parameter is set.
pub open spec fn build_url_chars(url: Seq<char>, q: Seq<(Seq<char>, Seq<char>)>) -> Seq<char> {
    if q.len() == 0 {
        url
    } else {
        url + seq!['?'] + query_string_chars(q)
    }
}

/// Last write wins, in place: a repeated key keeps its position but
/// takes the new value; a fresh key goes to the end.
pub open spec fn update_query(q: Seq<(Seq<char>, Seq<char>)>, k: Seq<char>, v: Seq<char>) -> Seq<
    (Seq<char>, Seq<char>),
>
    decreases q.len(),
{
    if q.len() == 0 {
        seq![(k, v)]
    } else if q[0].0 == k {
        seq![(k, v)] + q.drop_first()
    } else {
        seq![q[0]] + update_query(q.drop_first(), k, v)
    }
}

proof fn lemma_update_query_at(q: Seq<(Seq<char>, Seq<char>)>, k: Seq<char>, v: Seq<char>, i: int)
    requires
        0 <= i <= q.len(),
        forall|j: int| 0 <= j < i ==> (#[trigger] q[j]).0 != k,
        i < q.len() ==> q[i].0 == k,
    ensures
        i < q.len() ==> update_query(q, k, v) == q.take(i) + seq![(k, v)] + q.skip(i + 1),
        i == q.len() ==> update_query(q, k, v) == q + seq![(k, v)],
    decreases i,
{
    if i == 0 {
        if q.len() == 0 {
            assert(update_query(q, k, v) =~= q + seq![(k, v)]);
        } else {
            assert(seq![(k, v)] + q.drop_first() =~= q.take(0) + seq![(k, v)] + q.skip(1));
        }
    } else {
        let rest = q.drop_first();
        assert(forall|j: int| 0 <= j < i - 1 ==> (#[trigger] rest[j]) == q[j + 1]);
        lemma_update_query_at(rest, k, v, i - 1);
        assert(update_query(q, k, v) == seq![q[0]] + update_query(rest, k, v));
        if i < q.len() {
            assert(rest[i - 1].0 == k);
            assert(seq![q[0]] + (rest.take(i - 1) + seq![(k, v)] + rest.skip(i)) =~= q.take(i)
                + seq![(k, v)] + q.skip(i + 1));
        } else {
            assert(seq![q[0]] + (rest + seq![(k, v)]) =~= q + seq![(k, v)]);
        }
    }
}

/// A query-parameter list paired with everything else one request
/// needs: the request description the transport sends.
pub struct QueryBuilderReqwest {
    pub method: HttpMethod,
    pub url: String,
    pub query: Vec<(String, String)>,
    pub headers: Vec<(String, String)>,
    pub body: Option<Vec<u8>>,
    pub boundary: String,
}

pub open spec fn view_pairs(s: Seq<(String, String)>) -> Seq<(Seq<char>, Seq<char>)> {
    Seq::new(s.len(), |i: int| (s[i].0@, s[i].1@))
}

impl QueryBuilderReqwest {
    /// Sets `key` to `value`, replacing any earlier value for the key.
    pub fn query(self, key: &str, value: &str) -> (r: Self)
        ensures
            view_pairs(r.query@) == update_query(view_pairs(self.query@), key@, value@),
            r.method == self.method,
            r.url@ == self.url@,
            r.headers@ == self.headers@,
            r.body == self.body,
            r.boundary@ == self.boundary@,
    {
        let mut q = self.query;
        let ghost q0 = view_pairs(q@);
        let n: usize = q.len();
        let mut i: usize = 0;
        while i < n && !str_eq(q[i].0.as_str(), key)
            invariant
                view_pairs(q@) == q0,
                n == q@.len(),
                i <= n,
                forall|j: int| 0 <= j < i ==> (#[trigger] q0[j]).0 != key@,
            decreases n - i,
        {
            proof {
                assert(q0[i as int].0 == q@[i as int].0@);
            }
            i = i + 1;
        }
        proof {
            if i < n {
                assert(q0[i as int].0 == key@);
            }
            lemma_update_query_at(q0, key@, value@, i as int);
        }
        if i < n {
            q.remove(i);
            q.insert(i, (String::from_str(key), String::from_str(value)));
            proof {
                assert(view_pairs(q@) =~= q0.take(i as int) + seq![(key@, value@)] + q0.skip(
                    i + 1,
                ));
            }
        } else {
            q.push((String::from_str(key), String::from_str(value)));
            proof {
                assert(view_pairs(q@) =~= q0 + seq![(key@, value@)]);
            }
        }
        QueryBuilderReqwest {
            method: self.method,
            url: self.url,
            query: q,
            headers: self.headers,
            body: self.body,
            boundary: self.boundary,
        }
    }

    /// Adds a header line.
    pub fn header(self, key: &str, value: &str) -> (r: Self)
        ensures
            view_pairs(r.headers@) == view_pairs(self.headers@).push((key@, value@)),
            r.method == self.method,
            r.url@ == self.url@,
            r.query@ == self.query@,
            r.body == self.body,
            r.boundary@ == self.boundary@,
    {
        let mut h = self.headers;
        let ghost h0 = view_pairs(h@);
        h.push((String::from_str(key), String::from_str(value)));
        proof {
            assert(view_pairs(h@) =~= h0.push((key@, value@)));
        }
        QueryBuilderReqwest {
            method: self.method,
            url: self.url,
            query: self.query,
            headers: h,
            body: self.body,
            boundary: self.boundary,
        }
    }

    /// Sets the request body.
    pub fn body(self, body: Vec<u8>) -> (r: Self)
        ensures
            r.body matches Some(b) && b@ == body@,
            r.method == self.method,
            r.url@ == self.url@,
            r.query@ == self.query@,
            r.headers@ == self.headers@,
            r.boundary@ == self.boundary@,
    {
        QueryBuilderReqwest {
            method: self.method,
            url: self.url,
            query: self.query,
            headers: self.headers,
            body: Some(body),
            boundary: self.boundary,
        }
    }

    pub fn get_boundary(&self) -> (r: String)
        ensures
            r@ == self.boundary@,
    {
        self.boundary.clone()
    }

    /// The standard `PatientName` search parameter.
    pub fn patient_name(self, name_query: &str) -> (r: Self)
        ensures
            view_pairs(r.query@) == update_query(
                view_pairs(self.query@),
                "PatientName"@,
                name_query@,
            ),
            r.method == self.method,
            r.url@ == self.url@,
            r.headers@ == self.headers@,
            r.body == self.body,
            r.boundary@ == self.boundary@,
    {
        self.query("PatientName", name_query)
    }

    /// The standard `limit` search parameter.
    pub fn limit(self, limit: u32) -> (r: Self)
        ensures
            view_pairs(r.query@) == update_query(
                view_pairs(self.query@),
                "limit"@,
                dec_chars(limit as nat),
            ),
            r.method == self.method,
            r.url@ == self.url@,
            r.headers@ == self.headers@,
            r.body == self.body,
            r.boundary@ == self.boundary@,
    {
        let mut num = String::new();
        push_dec_chars(&mut num, limit);
        self.query("limit", num.as_str())
    }

    /// The standard `offset` search parameter.
    pub fn offset(self, offset: u32) -> (r: Self)
        ensures
            view_pairs(r.query@) == update_query(
                view_pairs(self.query@),
                "offset"@,
                dec_chars(offset as nat),
            ),
            r.method == self.method,
            r.url@ == self.url@,
            r.headers@ == self.headers@,
            r.body == self.body,
            r.boundary@ == self.boundary@,
    {
        let mut num = String::new();
        push_dec_chars(&mut num, offset);
        self.query("offset", num.as_str())
    }

    /// Frames one binary DICOM instance as the request body, using this
    /// builder's boundary token.
    pub fn add_instance_buffer(self, buffer: Vec<u8>) -> (r: Self)
        requires
            self.boundary.is_ascii(),
        ensures
            r.body matches Some(b) && b@ == mp_encode(buffer@, ascii_seq(self.boundary@)),
            r.method == self.method,
            r.url@ == self.url@,
            r.query@ == self.query@,
            r.headers@ == self.headers@,
            r.boundary@ == self.boundary@,
    {
        let body = multipart_encode_binary(buffer, self.boundary.as_str());
        self.body(body)
    }

    /// The full URL: the base URL plus the percent-encoded query string,
    /// parameters in insertion order.
    pub fn build_url(&self) -> (r: String)
        ensures
            r@ == build_url_chars(self.url@, view_pairs(self.query@)),
    {
        let ghost qv = view_pairs(self.query@);
        let mut out = self.url.clone();
        if self.query.len() == 0 {
            return out;
        }
        proof {
            reveal_strlit("?");
            reveal_strlit("&");
            reveal_strlit("=");
        }
        out.append("?");
        proof {
            assert(out@ =~= self.url@ + seq!['?']);
            assert(qv.skip(0) =~= qv);
        }
        let n: usize = self.query.len();
        let mut i: usize = 0;
        while i < n
            invariant
                qv == view_pairs(self.query@),
                n == qv.len(),
                0 < n,
                i <= n,
                "?"@ == seq!['?'],
                "&"@ == seq!['&'],
                "="@ == seq!['='],
                i < n ==> out@ + query_string_chars(qv.skip(i as int)) == self.url@ + seq!['?']
                    + query_string_chars(qv),
                i == n ==> out@ == self.url@ + seq!['?'] + query_string_chars(qv),
            decreases n - i,
        {
            let ghost tail = qv.skip(i as int);
            proof {
                assert(tail.len() > 0);
                assert(tail[0] == qv[i as int]);
                assert(tail.drop_first() =~= qv.skip(i + 1));
            }
            let k = percent_encode(self.query[i].0.as_str());
            out.append(k.as_str());
            out.append("=");
            let v = percent_encode(self.query[i].1.as_str());
            out.append(v.as_str());
            proof {
                assert(qv[i as int] == (self.query@[i as int].0@, self.query@[i as int].1@));
            }
            if i + 1 < n {
                out.append("&");
                proof {
                    assert(query_string_chars(tail) =~= query_pair_chars(tail[0].0, tail[0].1)
                        + seq!['&'] + query_string_chars(tail.drop_first()));
                }
            } else {
                proof {
                    assert(query_string_chars(tail) =~= query_pair_chars(tail[0].0, tail[0].1));
                }
            }
            i = i + 1;
        }
        out
    }
}

/// Characters a base URL must open with to count as absolute.
pub open spec fn chars_start_with(s: Seq<char>, p: Seq<char>) -> bool {
    p.len() <= s.len() && s.take(p.len() as int) == p
}

/// An absolute base URL: an `http` or `https` scheme followed by at
/// least one character of authority.
pub open spec fn is_valid_base_url(s: Seq<char>) -> bool {
    (chars_start_with(s, "http://"@) && s.len() > "http://"@.len()) || (chars_start_with(
        s,
        "https://"@,
    ) && s.len() > "https://"@.len())
}

/// Whether `s` opens with the absolute-URL shape the builders accept.
pub fn check_base_url(s: &str) -> (r: bool)
    ensures
        r == is_valid_base_url(s@),
{
    let n = s.unicode_len();
    let http = "http://";
    let https = "https://";
    let mut ok = false;
    if n > 7 {
        if str_eq(s.substring_char(0, 7), http) {
            proof {
                assert(chars_start_with(s@, "http://"@) && s@.len() > "http://"@.len());
            }
            ok = true;
        }
    }
    if !ok && n > 8 {
        if str_eq(s.substring_char(0, 8), https) {
            proof {
                assert(chars_start_with(s@, "https://"@) && s@.len() > "https://"@.len());
            }
            ok = true;
        }
    }
    proof {
        reveal_strlit("http://");
        reveal_strlit("https://");
        if !ok {
            assert(!is_valid_base_url(s@)) by {
                if chars_start_with(s@, "http://"@) && s@.len() > 7 {
                    assert(s@.subrange(0, 7) == "http://"@);
                }
                if chars_start_with(s@, "https://"@) && s@.len() > 8 {
                    assert(s@.subrange(0, 8) == "https://"@);
                }
            }
        }
    }
    ok
}

/// The header value prefix every multipart exchange declares.
pub open spec fn multipart_content_type_prefix() -> Seq<char> {
    "multipart/related; type=\"application/dicom\"; boundary="@
}

/// The fixed boundary token the store operation declares.
pub open spec fn default_stow_boundary() -> Seq<char> {
    "ab69a3d5-542c-49e1-884b-8e135e104893"@
}

fn clone_pairs(v: &Vec<(String, String)>) -> (r: Vec<(String, String)>)
    ensures
        view_pairs(r@) == view_pairs(v@),
{
    let mut out: Vec<(String, String)> = Vec::new();
    let mut i: usize = 0;
    while i < v.len()
        invariant
            i <= v@.len(),
            out@.len() == i,
            forall|j: int|
                0 <= j < i ==> #[trigger] out@[j].0@ == v@[j].0@ && out@[j].1@ == v@[j].1@,
        decreases v@.len() - i,
    {
        out.push((v[i].0.clone(), v[i].1.clone()));
        i = i + 1;
    }
    proof {
        assert(view_pairs(out@) =~= view_pairs(v@));
    }
    out
}

/// The client: a base URL, the per-service URL prefixes, the multipart
/// boundary for store requests, and the headers every request carries.
pub struct DICOMwebClientReqwest {
    pub url: String,
    pub qido_url_prefix: String,
    pub wado_url_prefix: String,
    pub stow_url_prefix: String,
    pub ups_url_prefix: String,
    pub boundary: String,
    pub default_headers: Vec<(String, String)>,
    pub proxy_url: Option<String>,
}

impl DICOMwebClientReqwest {
    /// A client for the service at `url`, with empty prefixes.
    pub fn new(url: &str) -> (r: Self)
        ensures
            r.url@ == url@,
            r.qido_url_prefix@.len() == 0,
            r.wado_url_prefix@.len() == 0,
            r.stow_url_prefix@.len() == 0,
            r.ups_url_prefix@.len() == 0,
            r.boundary@.len() == 0,
            r.default_headers@.len() == 0,
            r.proxy_url is None,
    {
        DICOMwebClientReqwest {
            url: String::from_str(url),
            qido_url_prefix: String::new(),
            wado_url_prefix: String::new(),
            stow_url_prefix: String::new(),
            ups_url_prefix: String::new(),
            boundary: String::new(),
            default_headers: Vec::new(),
            proxy_url: None,
        }
    }

    /// Adds a header sent with every request.
    pub fn default_headers(self, key: &str, value: &str) -> (r: Self)
        ensures
            view_pairs(r.default_headers@) == view_pairs(self.default_headers@).push(
                (key@, value@),
            ),
            r.url@ == self.url@,
            r.qido_url_prefix@ == self.qido_url_prefix@,
            r.wado_url_prefix@ == self.wado_url_prefix@,
            r.stow_url_prefix@ == self.stow_url_prefix@,
            r.boundary@ == self.boundary@,
            r.proxy_url == self.proxy_url,
    {
        let mut h = self.default_headers;
        let ghost h0 = view_pairs(h@);
        h.push((String::from_str(key), String::from_str(value)));
        proof {
            assert(view_pairs(h@) =~= h0.push((key@, value@)));
        }
        DICOMwebClientReqwest { default_headers: h, ..self }
    }

    /// Records the proxy URL every request should travel through.
    pub fn proxy(self, proxy: String) -> (r: Self)
        ensures
            r.proxy_url matches Some(p) && p@ == proxy@,
            r.url@ == self.url@,
            r.qido_url_prefix@ == self.qido_url_prefix@,
            r.wado_url_prefix@ == self.wado_url_prefix@,
            r.stow_url_prefix@ == self.stow_url_prefix@,
            r.boundary@ == self.boundary@,
            r.default_headers@ == self.default_headers@,
    {
        DICOMwebClientReqwest { proxy_url: Some(proxy), ..self }
    }

    /// A GET request for `url` appended to the base URL, opening with
    /// the client's default headers.
    pub fn get_url(&mut self, url: &str) -> (r: QueryBuilderReqwest)
        ensures
            *final(self) == *old(self),
            r.method == HttpMethod::Get,
            r.url@ == old(self).url@ + url@,
            r.query@.len() == 0,
            view_pairs(r.headers@) == view_pairs(old(self).default_headers@),
            r.body is None,
            r.boundary@ == old(self).boundary@,
    {
        let mut u = self.url.clone();
        u.append(url);
        QueryBuilderReqwest {
            method: HttpMethod::Get,
            url: u,
            query: Vec::new(),
            headers: clone_pairs(&self.default_headers),
            body: None,
            boundary: self.boundary.clone(),
        }
    }

    /// A POST request for `url` appended to the base URL, opening with
    /// the client's default headers.
    pub fn post_url(&mut self, url: &str) -> (r: QueryBuilderReqwest)
        ensures
            *final(self) == *old(self),
            r.method == HttpMethod::Post,
            r.url@ == old(self).url@ + url@,
            r.query@.len() == 0,
            view_pairs(r.headers@) == view_pairs(old(self).default_headers@),
            r.body is None,
            r.boundary@ == old(self).boundary@,
    {
        let mut u = self.url.clone();
        u.append(url);
        QueryBuilderReqwest {
            method: HttpMethod::Post,
            url: u,
            query: Vec::new(),
            headers: clone_pairs(&self.default_headers),
            body: None,
            boundary: self.boundary.clone(),
        }
    }

    pub fn get_qido_prefix(&self) -> (r: &str)
        ensures
            r@ == self.qido_url_prefix@,
    {
        self.qido_url_prefix.as_str()
    }

    pub fn get_wado_prefix(&self) -> (r: &str)
        ensures
            r@ == self.wado_url_prefix@,
    {
        self.wado_url_prefix.as_str()
    }

    pub fn get_stow_prefix(&self) -> (r: &str)
        ensures
            r@ == self.stow_url_prefix@,
    {
        self.stow_url_prefix.as_str()
    }

    pub fn set_boundary(&mut self, boundary: &str)
        ensures
            final(self).boundary@ == boundary@,
            final(self).url == old(self).url,
            final(self).qido_url_prefix == old(self).qido_url_prefix,
            final(self).wado_url_prefix == old(self).wado_url_prefix,
            final(self).stow_url_prefix == old(self).stow_url_prefix,
            final(self).ups_url_prefix == old(self).ups_url_prefix,
            final(self).default_headers == old(self).default_headers,
            final(self).proxy_url == old(self).proxy_url,
    {
        self.boundary = String::from_str(boundary);
    }

    pub fn get_boundary(&self) -> (r: String)
        ensures
            r@ == self.boundary@,
    {
        self.boundary.clone()
    }

    /// The QIDO search over all studies.
    pub fn search_studies(&mut self) -> (r: QueryBuilderReqwest)
        ensures
            *final(self) == *old(self),
            r.method == HttpMethod::Get,
            r.url@ == old(self).url@ + old(self).qido_url_prefix@ + "/studies"@,
            r.query@.len() == 0,
            view_pairs(r.headers@) =~= view_pairs(old(self).default_headers@).push(
                ("Accept"@, "application/dicom+json"@),
            ),
            r.body is None,
            r.boundary@ == old(self).boundary@,
    {
        let mut path = self.qido_url_prefix.clone();
        path.append("/studies");
        let qb = self.get_url(path.as_str());
        qb.header("Accept", "application/dicom+json")
    }

    /// The QIDO search over one study's series.
    pub fn search_series(&mut self, study_instance_uid: &str) -> (r: QueryBuilderReqwest)
        ensures
            *final(self) == *old(self),
            r.method == HttpMethod::Get,
            r.url@ == old(self).url@ + old(self).qido_url_prefix@ + "/studies/"@
                + study_instance_uid@ + "/series"@,
            r.query@.len() == 0,
            view_pairs(r.headers@) =~= view_pairs(old(self).default_headers@).push(
                ("Accept"@, "application/dicom+json"@),
            ),
            r.body is None,
            r.boundary@ == old(self).boundary@,
    {
        let mut path = self.qido_url_prefix.clone();
        path.append("/studies/");
        path.append(study_instance_uid);
        path.append("/series");
        let qb = self.get_url(path.as_str());
        qb.header("Accept", "application/dicom+json")
    }

    /// The QIDO search over one series' instances.
    pub fn search_instances(
        &mut self,
        study_instance_uid: &str,
        series_instance_uid: &str,
    ) -> (r: QueryBuilderReqwest)
        ensures
            *final(self) == *old(self),
            r.method == HttpMethod::Get,
            r.url@ == old(self).url@ + old(self).qido_url_prefix@ + "/studies/"@
                + study_instance_uid@ + "/series/"@ + series_instance_uid@ + "/instances"@,
            r.query@.len() == 0,
            view_pairs(r.headers@) =~= view_pairs(old(self).default_headers@).push(
                ("Accept"@, "application/dicom+json"@),
            ),
            r.body is None,
            r.boundary@ == old(self).boundary@,
    {
        let mut path = self.qido_url_prefix.clone();
        path.append("/studies/");
        path.append(study_instance_uid);
        path.append("/series/");
        path.append(series_instance_uid);
        path.append("/instances");
        let qb = self.get_url(path.as_str());
        qb.header("Accept", "application/dicom+json")
    }

    /// The WADO retrieve of one whole study.
    pub fn retrieve_study(&mut self, study_instance_uid: &str) -> (r: QueryBuilderReqwest)
        ensures
            *final(self) == *old(self),
            r.method == HttpMethod::Get,
            r.url@ == old(self).url@ + old(self).wado_url_prefix@ + "/studies/"@
                + study_instance_uid@,
            r.query@.len() == 0,
            view_pairs(r.headers@) =~= view_pairs(old(self).default_headers@).push(
                ("Accept"@, "multipart/related; type=\"application/dicom\""@),
            ),
            r.body is None,
            r.boundary@ == old(self).boundary@,
    {
        let mut path = self.wado_url_prefix.clone();
        path.append("/studies/");
        path.append(study_instance_uid);
        let qb = self.get_url(path.as_str());
        qb.header("Accept", "multipart/related; type=\"application/dicom\"")
    }

    /// The WADO retrieve of one series.
    pub fn retrieve_series(
        &mut self,
        study_instance_uid: &str,
        series_instance_uid: &str,
    ) -> (r: QueryBuilderReqwest)
        ensures
            *final(self) == *old(self),
            r.method == HttpMethod::Get,
            r.url@ == old(self).url@ + old(self).wado_url_prefix@ + "/studies/"@
                + study_instance_uid@ + "/series/"@ + series_instance_uid@,
            r.query@.len() == 0,
            view_pairs(r.headers@) =~= view_pairs(old(self).default_headers@).push(
                ("Accept"@, "multipart/related; type=\"application/dicom\""@),
            ),
            r.body is None,
            r.boundary@ == old(self).boundary@,
    {
        let mut path = self.wado_url_prefix.clone();
        path.append("/studies/");
        path.append(study_instance_uid);
        path.append("/series/");
        path.append(series_instance_uid);
        let qb = self.get_url(path.as_str());
        qb.header("Accept", "multipart/related; type=\"application/dicom\"")
    }

    /// The WADO retrieve of one instance.
    pub fn retrieve_instance(
        &mut self,
        study_instance_uid: &str,
        series_instance_uid: &str,
        sop_instance_uid: &str,
    ) -> (r: QueryBuilderReqwest)
        ensures
            *final(self) == *old(self),
            r.method == HttpMethod::Get,
            r.url@ == old(self).url@ + old(self).wado_url_prefix@ + "/studies/"@
                + study_instance_uid@ + "/series/"@ + series_instance_uid@ + "/instances/"@
                + sop_instance_uid@,
            r.query@.len() == 0,
            view_pairs(r.headers@) =~= view_pairs(old(self).default_headers@).push(
                ("Accept"@, "multipart/related; type=\"application/dicom\""@),
            ),
            r.body is None,
            r.boundary@ == old(self).boundary@,
    {
        let mut path = self.wado_url_prefix.clone();
        path.append("/studies/");
        path.append(study_instance_uid);
        path.append("/series/");
        path.append(series_instance_uid);
        path.append("/instances/");
        path.append(sop_instance_uid);
        let qb = self.get_url(path.as_str());
        qb.header("Accept", "multipart/related; type=\"application/dicom\"")
    }

    /// The STOW store request: a POST whose `Content-Type` declares the
    /// boundary that will frame the body; the same token is recorded on
    /// the client and handed to the returned builder.
    pub fn store_instances(&mut self) -> (r: QueryBuilderReqwest)
        ensures
            final(self).boundary@ == default_stow_boundary(),
            final(self).url == old(self).url,
            final(self).qido_url_prefix == old(self).qido_url_prefix,
            final(self).wado_url_prefix == old(self).wado_url_prefix,
            final(self).stow_url_prefix == old(self).stow_url_prefix,
            r.method == HttpMethod::Post,
            r.url@ == old(self).url@ + old(self).stow_url_prefix@ + "/studies"@,
            r.query@.len() == 0,
            view_pairs(r.headers@) =~= view_pairs(old(self).default_headers@).push(
                ("content-type"@, multipart_content_type_prefix() + default_stow_boundary()),
            ),
            r.body is None,
            r.boundary@ == default_stow_boundary(),
            r.boundary.is_ascii(),
    {
        let boundary = "ab69a3d5-542c-49e1-884b-8e135e104893";
        self.set_boundary(boundary);
        proof {
            reveal_strlit("ab69a3d5-542c-49e1-884b-8e135e104893");
        }
        let mut ct = String::from_str("multipart/related; type=\"application/dicom\"; boundary=");
        ct.append(boundary);
        let mut path = self.stow_url_prefix.clone();
        path.append("/studies");
        let qb = self.post_url(path.as_str());
        qb.header("content-type", ct.as_str())
    }
}

/// Configuration for a client under construction: the base URL and the
/// per-service prefixes.  Building validates the base URL.
pub struct DICOMWebClientBuilderAsync {
    pub url: String,
    pub qido_url_prefix: String,
    pub wado_url_prefix: String,
    pub stow_url_prefix: String,
    pub ups_url_prefix: String,
}

/// A client bound to an event-driven transport; the request shapes it
/// produces are the same descriptions the blocking client produces.
pub struct DICOMWebClientAsync {
    pub url: String,
    pub qido_url_prefix: String,
    pub wado_url_prefix: String,
    pub stow_url_prefix: String,
    pub ups_url_prefix: String,
}

impl DICOMWebClientBuilderAsync {
    pub fn new(url: &str) -> (r: Self)
        ensures
            r.url@ == url@,
            r.qido_url_prefix@.len() == 0,
            r.wado_url_prefix@.len() == 0,
            r.stow_url_prefix@.len() == 0,
    {
        DICOMWebClientBuilderAsync {
            url: String::from_str(url),
            qido_url_prefix: String::new(),
            wado_url_prefix: String::new(),
            stow_url_prefix: String::new(),
            ups_url_prefix: String::new(),
        }
    }

    /// Fails fast, before any request is sent, when the base URL is not
    /// an absolute `http` or `https` URL.
    pub fn build(self) -> (r: Result<DICOMWebClientAsync, Error>)
        ensures
            is_valid_base_url(self.url@) <==> r is Ok,
            r matches Ok(c) ==> c.url@ == self.url@ && c.qido_url_prefix@ == self.qido_url_prefix@
                && c.wado_url_prefix@ == self.wado_url_prefix@ && c.stow_url_prefix@
                == self.stow_url_prefix@,
            r matches Err(e) ==> e == Error::InvalidBaseUrl,
    {
        if check_base_url(self.url.as_str()) {
            Ok(
                DICOMWebClientAsync {
                    url: self.url,
                    qido_url_prefix: self.qido_url_prefix,
                    wado_url_prefix: self.wado_url_prefix,
                    stow_url_prefix: self.stow_url_prefix,
                    ups_url_prefix: self.ups_url_prefix,
                },
            )
        } else {
            Err(Error::InvalidBaseUrl)
        }
    }
}

impl DICOMWebClientAsync {
    pub fn builder(url: &str) -> (r: DICOMWebClientBuilderAsync)
        ensures
            r.url@ == url@,
            r.qido_url_prefix@.len() == 0,
            r.wado_url_prefix@.len() == 0,
            r.stow_url_prefix@.len() == 0,
    {
        DICOMWebClientBuilderAsync::new(url)
    }

    pub fn find_studies(&self) -> (r: QueryBuilderReqwest)
        ensures
            r.method == HttpMethod::Get,
            r.url@ == self.url@ + self.qido_url_prefix@ + "/studies"@,
            r.query@.len() == 0,
            r.headers@.len() == 0,
            r.body is None,
    {
        let mut u = self.url.clone();
        u.append(self.qido_url_prefix.as_str());
        u.append("/studies");
        QueryBuilderReqwest {
            method: HttpMethod::Get,
            url: u,
            query: Vec::new(),
            headers: Vec::new(),
            body: None,
            boundary: String::new(),
        }
    }

    pub fn find_series(&self, study_instance_uid: &str) -> (r: QueryBuilderReqwest)
        ensures
            r.method == HttpMethod::Get,
            r.url@ == self.url@ + self.qido_url_prefix@ + "/studies/"@ + study_instance_uid@
                + "/series"@,
            r.query@.len() == 0,
            r.headers@.len() == 0,
            r.body is None,
    {
        let mut u = self.url.clone();
        u.append(self.qido_url_prefix.as_str());
        u.append("/studies/");
        u.append(study_instance_uid);
        u.append("/series");
        QueryBuilderReqwest {
            method: HttpMethod::Get,
            url: u,
            query: Vec::new(),
            headers: Vec::new(),
            body: None,
            boundary: String::new(),
        }
    }

    pub fn find_instances(
        &self,
        study_instance_uid: &str,
        series_instance_uid: &str,
    ) -> (r: QueryBuilderReqwest)
        ensures
            r.method == HttpMethod::Get,
            r.url@ == self.url@ + self.qido_url_prefix@ + "/studies/"@ + study_instance_uid@
                + "/series/"@ + series_instance_uid@ + "/instances"@,
            r.query@.len() == 0,
            r.headers@.len() == 0,
            r.body is None,
    {
        let mut u = self.url.clone();
        u.append(self.qido_url_prefix.as_str());
        u.append("/studies/");
        u.append(study_instance_uid);
        u.append("/series/");
        u.append(series_instance_uid);
        u.append("/instances");
        QueryBuilderReqwest {
            method: HttpMethod::Get,
            url: u,
            query: Vec::new(),
            headers: Vec::new(),
            body: None,
            boundary: String::new(),
        }
    }

    pub fn get_instance(
        &self,
        study_instance_uid: &str,
        series_instance_uid: &str,
        sop_instance_uid: &str,
    ) -> (r: QueryBuilderReqwest)
        ensures
            r.method == HttpMethod::Get,
            r.url@ == self.url@ + self.wado_url_prefix@ + "/studies/"@ + study_instance_uid@
                + "/series/"@ + series_instance_uid@ + "/instances/"@ + sop_instance_uid@,
            r.query@.len() == 0,
            r.headers@.len() == 0,
            r.body is None,
    {
        let mut u = self.url.clone();
        u.append(self.wado_url_prefix.as_str());
        u.append("/studies/");
        u.append(study_instance_uid);
        u.append("/series/");
        u.append(series_instance_uid);
        u.append("/instances/");
        u.append(sop_instance_uid);
        QueryBuilderReqwest {
            method: HttpMethod::Get,
            url: u,
            query: Vec::new(),
            headers: Vec::new(),
            body: None,
            boundary: String::new(),
        }
    }
}

/// Configuration for the blocking client; the same validation applies.
pub struct DICOMWebClientBuilderBlocking {
    pub url: String,
    pub qido_url_prefix: String,
    pub wado_url_prefix: String,
    pub stow_url_prefix: String,
    pub ups_url_prefix: String,
}

/// A client bound to a blocking transport.
pub struct DICOMWebClientBlocking {
    pub url: String,
    pub qido_url_prefix: String,
    pub wado_url_prefix: String,
    pub stow_url_prefix: String,
    pub ups_url_prefix: String,
}

impl DICOMWebClientBuilderBlocking {
    pub fn new(url: &str) -> (r: Self)
        ensures
            r.url@ == url@,
            r.qido_url_prefix@.len() == 0,
            r.wado_url_prefix@.len() == 0,
            r.stow_url_prefix@.len() == 0,
    {
        DICOMWebClientBuilderBlocking {
            url: String::from_str(url),
            qido_url_prefix: String::new(),
            wado_url_prefix: String::new(),
            stow_url_prefix: String::new(),
            ups_url_prefix: String::new(),
        }
    }

    /// Fails fast, before any request is sent, when the base URL is not
    /// an absolute `http` or `https` URL.
    pub fn build(self) -> (r: Result<DICOMWebClientBlocking, Error>)
        ensures
            is_valid_base_url(self.url@) <==> r is Ok,
            r matches Ok(c) ==> c.url@ == self.url@ && c.qido_url_prefix@ == self.qido_url_prefix@
                && c.wado_url_prefix@ == self.wado_url_prefix@ && c.stow_url_prefix@
                == self.stow_url_prefix@,
            r matches Err(e) ==> e == Error::InvalidBaseUrl,
    {
        if check_base_url(self.url.as_str()) {
            Ok(
                DICOMWebClientBlocking {
                    url: self.url,
                    qido_url_prefix: self.qido_url_prefix,
                    wado_url_prefix: self.wado_url_prefix,
                    stow_url_prefix: self.stow_url_prefix,
                    ups_url_prefix: self.ups_url_prefix,
                },
            )
        } else {
            Err(Error::InvalidBaseUrl)
        }
    }
}

impl DICOMWebClientBlocking {
    pub fn builder(url: &str) -> (r: DICOMWebClientBuilderBlocking)
        ensures
            r.url@ == url@,
            r.qido_url_prefix@.len() == 0,
            r.wado_url_prefix@.len() == 0,
            r.stow_url_prefix@.len() == 0,
    {
        DICOMWebClientBuilderBlocking::new(url)
    }

    pub fn find_studies(&self) -> (r: QueryBuilderReqwest)
        ensures
            r.method == HttpMethod::Get,
            r.url@ == self.url@ + self.qido_url_prefix@ + "/studies"@,
            r.query@.len() == 0,
            r.headers@.len() == 0,
            r.body is None,
    {
        let mut u = self.url.clone();
        u.append(self.qido_url_prefix.as_str());
        u.append("/studies");
        QueryBuilderReqwest {
            method: HttpMethod::Get,
            url: u,
            query: Vec::new(),
            headers: Vec::new(),
            body: None,
            boundary: String::new(),
        }
    }

    pub fn find_series(&self, study_instance_uid: &str) -> (r: QueryBuilderReqwest)
        ensures
            r.method == HttpMethod::Get,
            r.url@ == self.url@ + self.qido_url_prefix@ + "/studies/"@ + study_instance_uid@
                + "/series"@,
            r.query@.len() == 0,
            r.headers@.len() == 0,
            r.body is None,
    {
        let mut u = self.url.clone();
        u.append(self.qido_url_prefix.as_str());
        u.append("/studies/");
        u.append(study_instance_uid);
        u.append("/series");
        QueryBuilderReqwest {
            method: HttpMethod::Get,
            url: u,
            query: Vec::new(),
            headers: Vec::new(),
            body: None,
            boundary: String::new(),
        }
    }

    pub fn find_instances(
        &self,
        study_instance_uid: &str,
        series_instance_uid: &str,
    ) -> (r: QueryBuilderReqwest)
        ensures
            r.method == HttpMethod::Get,
            r.url@ == self.url@ + self.qido_url_prefix@ + "/studies/"@ + study_instance_uid@
                + "/series/"@ + series_instance_uid@ + "/instances"@,
            r.query@.len() == 0,
            r.headers@.len() == 0,
            r.body is None,
    {
        let mut u = self.url.clone();
        u.append(self.qido_url_prefix.as_str());
        u.append("/studies/");
        u.append(study_instance_uid);
        u.append("/series/");
        u.append(series_instance_uid);
        u.append("/instances");
        QueryBuilderReqwest {
            method: HttpMethod::Get,
            url: u,
            query: Vec::new(),
            headers: Vec::new(),
            body: None,
            boundary: String::new(),
        }
    }

    pub fn get_instance(
        &self,
        study_instance_uid: &str,
        series_instance_uid: &str,
        sop_instance_uid: &str,
    ) -> (r: QueryBuilderReqwest)
        ensures
            r.method == HttpMethod::Get,
            r.url@ == self.url@ + self.wado_url_prefix@ + "/studies/"@ + study_instance_uid@
                + "/series/"@ + series_instance_uid@ + "/instances/"@ + sop_instance_uid@,
            r.query@.len() == 0,
            r.headers@.len() == 0,
            r.body is None,
    {
        let mut u = self.url.clone();
        u.append(self.wado_url_prefix.as_str());
        u.append("/studies/");
        u.append(study_instance_uid);
        u.append("/series/");
        u.append(series_instance_uid);
        u.append("/instances/");
        u.append(sop_instance_uid);
        QueryBuilderReqwest {
            method: HttpMethod::Get,
            url: u,
            query: Vec::new(),
            headers: Vec::new(),
            body: None,
            boundary: String::new(),
        }
    }
}

/// Where the final `boundary=` marker starts in `ct`, scanning from the
/// end, if it occurs at or before position `i`.
pub open spec fn find_boundary_marker(ct: Seq<char>, i: int) -> Option<int>
    decreases i + 1,
{
    if i < 0 {
        None
    } else if 0 <= i && i + 9 <= ct.len() && ct.subrange(i, i + 9) == "boundary="@ {
        Some(i)
    } else {
        find_boundary_marker(ct, i - 1)
    }
}

/// The boundary token a `Content-Type` header value declares: whatever
/// follows its last `boundary=` marker.
pub open spec fn boundary_of_content_type(ct: Seq<char>) -> Option<Seq<char>> {
    match find_boundary_marker(ct, ct.len() - 9) {
        Some(i) => Some(ct.skip(i + 9)),
        None => None,
    }
}

/// Pulls the boundary token out of a `Content-Type` header value, as a
/// response consumer must before it can decode a multipart body.
pub fn extract_boundary(content_type: &str) -> (r: Option<String>)
    ensures
        match r {
            Some(b) => boundary_of_content_type(content_type@) == Some(b@),
            None => boundary_of_content_type(content_type@) is None,
        },
{
    let n = content_type.unicode_len();
    if n < 9 {
        proof {
            assert(find_boundary_marker(content_type@, n - 9) is None);
        }
        return None;
    }
    let mut i: usize = n - 9;
    loop
        invariant
            n == content_type@.len(),
            9 <= n,
            i <= n - 9,
            find_boundary_marker(content_type@, n - 9) == find_boundary_marker(
                content_type@,
                i as int,
            ),
        decreases i + 1,
    {
        let piece = content_type.substring_char(i, i + 9);
        if str_eq(piece, "boundary=") {
            let token = content_type.substring_char(i + 9, n);
            return Some(token.to_owned());
        }
        proof {
            assert(content_type@.subrange(i as int, i + 9) != "boundary="@);
        }
        if i == 0 {
            proof {
                assert(find_boundary_marker(content_type@, -1) is None);
            }
            return None;
        }
        i = i - 1;
    }
}

/// Whether a response's `Content-Type` announces DICOM JSON.
pub fn content_type_is_dicom_json(content_type: &str) -> (r: bool)
    ensures
        r == chars_start_with(content_type@, "application/dicom+json"@),
{
    proof {
        reveal_strlit("application/dicom+json");
    }
    if content_type.unicode_len() < 22 {
        proof {
            assert(!chars_start_with(content_type@, "application/dicom+json"@));
        }
        return false;
    }
    let r = str_eq(content_type.substring_char(0, 22), "application/dicom+json");
    proof {
        if r {
            assert(chars_start_with(content_type@, "application/dicom+json"@));
        } else {
            if chars_start_with(content_type@, "application/dicom+json"@) {
                assert(content_type@.subrange(0, 22) == "application/dicom+json"@);
            }
        }
    }
    r
}

} // verus!