//! HTTP/1.1 request parsing: the request line, header lines, and the body after the blank line.
use vstd::prelude::*;
use vstd::utf8::*;
use crate::store::str_starts_with;

verus! {

/// The classes of bytes that the request grammar takes runs of.
#[derive(Clone, Copy, PartialEq, Eq, Structural)]
pub enum ByteClass {
    /// ASCII letters.
    Alpha,
    /// Space, tab, carriage return and line feed.
    Multispace,
    /// Anything but a space.
    NotSpace,
    /// Digits and `.`.
    Version,
    /// Letters and `-`.
    HeaderName,
    /// Letters, digits, space, tab and ``: - / . * , ; =``.
    HeaderValue,
}

pub open spec fn is_alpha(b: u8) -> bool {
    (65 <= b <= 90) || (97 <= b <= 122)
}

pub open spec fn is_num(b: u8) -> bool {
    48 <= b <= 57
}

pub open spec fn in_class(c: ByteClass, b: u8) -> bool {
    match c {
        ByteClass::Alpha => is_alpha(b),
        ByteClass::Multispace => b == 32 || b == 9 || b == 13 || b == 10,
        ByteClass::NotSpace => b != 32,
        ByteClass::Version => is_num(b) || b == 46,
        ByteClass::HeaderName => is_alpha(b) || b == 45,
        ByteClass::HeaderValue => is_alpha(b) || is_num(b) || b == 32 || b == 9 || b == 58 || b
            == 45 || b == 47 || b == 46 || b == 42 || b == 44 || b == 59 || b == 61,
    }
}

fn byte_in_class(c: ByteClass, b: u8) -> (r: bool)
    ensures
        r == in_class(c, b),
{
    let alpha = (65 <= b && b <= 90) || (97 <= b && b <= 122);
    let num = 48 <= b && b <= 57;
    match c {
        ByteClass::Alpha => alpha,
        ByteClass::Multispace => b == 32 || b == 9 || b == 13 || b == 10,
        ByteClass::NotSpace => b != 32,
        ByteClass::Version => num || b == 46,
        ByteClass::HeaderName => alpha || b == 45,
        ByteClass::HeaderValue => alpha || num || b == 32 || b == 9 || b == 58 || b == 45 || b == 47
            || b == 46 || b == 42 || b == 44 || b == 59 || b == 61,
    }
}

/// Where the longest run of bytes of class `c` that starts at `pos` ends.
pub open spec fn span_end(b: Seq<u8>, pos: int, c: ByteClass) -> int
    decreases b.len() - pos,
{
    if 0 <= pos < b.len() && in_class(c, b[pos]) {
        span_end(b, pos + 1, c)
    } else {
        pos
    }
}

proof fn lemma_span_end_bounds(b: Seq<u8>, pos: int, c: ByteClass)
    requires
        0 <= pos <= b.len(),
    ensures
        pos <= span_end(b, pos, c) <= b.len(),
    decreases b.len() - pos,
{
    if pos < b.len() && in_class(c, b[pos]) {
        lemma_span_end_bounds(b, pos + 1, c);
    }
}

/// The end of the longest run of bytes of class `c` from `pos`.
fn span(b: &[u8], pos: usize, c: ByteClass) -> (r: usize)
    requires
        pos <= b@.len(),
    ensures
        r == span_end(b@, pos as int, c),
        pos <= r <= b@.len(),
{
    let mut i = pos;
    proof {
        lemma_span_end_bounds(b@, pos as int, c);
    }
    while i < b.len() && byte_in_class(c, b[i])
        invariant
            pos <= i <= b@.len(),
            span_end(b@, i as int, c) == span_end(b@, pos as int, c),
        decreases b.len() - i,
    {
        i = i + 1;
    }
    i
}

/// Whether `b[pos..]` starts with `lit`.
pub open spec fn has_at(b: Seq<u8>, pos: int, lit: Seq<u8>) -> bool {
    0 <= pos && pos + lit.len() <= b.len() && b.subrange(pos, pos + lit.len()) == lit
}

fn bytes_at(b: &[u8], pos: usize, lit: &[u8]) -> (r: bool)
    requires
        pos <= b@.len(),
    ensures
        r == has_at(b@, pos as int, lit@),
{
    let n = b.len();
    if n - pos < lit.len() {
        return false;
    }
    let mut i: usize = 0;
    while i < lit.len()
        invariant
            n == b@.len(),
            pos + lit@.len() <= n,
            forall|j: int| 0 <= j < i ==> b@[pos + j] == lit@[j],
        decreases lit.len() - i,
    {
        if b[pos + i] != lit[i] {
            assert(b@.subrange(pos as int, pos + lit@.len())[i as int] != lit@[i as int]);
            return false;
        }
        i = i + 1;
    }
    assert(b@.subrange(pos as int, pos + lit@.len()) =~= lit@);
    true
}

/// Relies on `std::str::from_utf8`: the text of valid UTF-8, nothing otherwise.
#[verifier::external_body]
fn utf8_str<'a>(b: &'a [u8]) -> (r: Option<&'a str>)
    ensures
        r is Some <==> valid_utf8(b@),
        r matches Some(s) ==> s@ == decode_utf8(b@),
{
    std::str::from_utf8(b).ok()
}

pub open spec fn http_slash() -> Seq<u8> {
    seq![72u8, 84u8, 84u8, 80u8, 47u8]
}

pub open spec fn crlf() -> Seq<u8> {
    seq![13u8, 10u8]
}

/// The request line `METHOD SP+ path SP+ HTTP/version CRLF` at the start of `b`: where the
/// method ends, the path starts and ends, the version starts and ends, and the rest starts.
pub open spec fn request_line(b: Seq<u8>) -> Option<(int, int, int, int, int, int)> {
    let m_end = span_end(b, 0, ByteClass::Alpha);
    let p_start = span_end(b, m_end, ByteClass::Multispace);
    let p_end = span_end(b, p_start, ByteClass::NotSpace);
    let h = span_end(b, p_end, ByteClass::Multispace);
    let v_start = h + 5;
    let v_end = span_end(b, v_start, ByteClass::Version);
    if m_end > 0 && p_start > m_end && p_end > p_start && h > p_end && has_at(b, h, http_slash())
        && v_end > v_start && has_at(b, v_end, crlf()) && valid_utf8(b.subrange(0, m_end))
        && valid_utf8(b.subrange(p_start, p_end)) && valid_utf8(b.subrange(v_start, v_end)) {
        Some((m_end, p_start, p_end, v_start, v_end, v_end + 2))
    } else {
        None
    }
}

/// Reads the request line at the start of `buffer`: the method, the path and the version, and
/// the bytes after the line.
pub fn parse_request_line(buffer: &[u8]) -> (r: Result<(&[u8], (&str, &str, &str)), ()>)
    ensures
        match (r, request_line(buffer@)) {
            (Ok((rest, (m, p, v))), Some((me, ps, pe, vs, ve, rs))) => {
                &&& rest@ == buffer@.subrange(rs, buffer@.len() as int)
                &&& m@ == decode_utf8(buffer@.subrange(0, me))
                &&& p@ == decode_utf8(buffer@.subrange(ps, pe))
                &&& v@ == decode_utf8(buffer@.subrange(vs, ve))
            },
            (Err(_), None) => true,
            _ => false,
        },
{
    let n = buffer.len();
    let m_end = span(buffer, 0, ByteClass::Alpha);
    let p_start = span(buffer, m_end, ByteClass::Multispace);
    let p_end = span(buffer, p_start, ByteClass::NotSpace);
    let h = span(buffer, p_end, ByteClass::Multispace);
    let http = [72u8, 84u8, 84u8, 80u8, 47u8];
    let eol = [13u8, 10u8];
    assert(http@ == http_slash());
    assert(eol@ == crlf());
    if !(m_end > 0 && p_start > m_end && p_end > p_start && h > p_end && bytes_at(
        buffer,
        h,
        &http,
    )) {
        return Err(());
    }
    let v_start = h + 5;
    let v_end = span(buffer, v_start, ByteClass::Version);
    if !(v_end > v_start && bytes_at(buffer, v_end, &eol)) {
        return Err(());
    }
    let m = match utf8_str(&buffer[0..m_end]) {
        Some(s) => s,
        None => return Err(()),
    };
    let p = match utf8_str(&buffer[p_start..p_end]) {
        Some(s) => s,
        None => return Err(()),
    };
    let v = match utf8_str(&buffer[v_start..v_end]) {
        Some(s) => s,
        None => return Err(()),
    };
    Ok((&buffer[v_end + 2..n], (m, p, v)))
}

/// One header of a request: its name and its value.
#[derive(Debug, Clone)]
pub struct HttpHeader<'a> {
    pub name: &'a [u8],
    pub value: &'a [u8],
}

impl<'a> HttpHeader<'a> {
    pub fn new(name: &'a [u8], value: &'a [u8]) -> (r: Self)
        ensures
            r.name@ == name@,
            r.value@ == value@,
    {
        HttpHeader { name, value }
    }
}

/// The header line `name: SP+ value` with trailing whitespace at `pos`: where the name ends,
/// the value starts and ends, and the next line starts.
pub open spec fn header_line_at(b: Seq<u8>, pos: int) -> Option<(int, int, int, int)> {
    let n_end = span_end(b, pos, ByteClass::HeaderName);
    let v_start = span_end(b, n_end + 1, ByteClass::Multispace);
    let v_end = span_end(b, v_start, ByteClass::HeaderValue);
    let end = span_end(b, v_end, ByteClass::Multispace);
    if n_end > pos && n_end < b.len() && b[n_end] == 58u8 && v_start > n_end + 1 && v_end
        > v_start {
        Some((n_end, v_start, v_end, end))
    } else {
        None
    }
}

/// Where a header line's parts lie, in order, within the bytes.
pub proof fn lemma_header_line_bounds(b: Seq<u8>, pos: int)
    requires
        0 <= pos,
    ensures
        header_line_at(b, pos) matches Some((ne, vs, ve, e)) ==> pos <= ne <= vs <= ve <= e <= b.len(),
{
    if pos <= b.len() {
        lemma_span_end_bounds(b, pos, ByteClass::HeaderName);
        let ne = span_end(b, pos, ByteClass::HeaderName);
        if ne + 1 <= b.len() {
            lemma_span_end_bounds(b, ne + 1, ByteClass::Multispace);
            let vs = span_end(b, ne + 1, ByteClass::Multispace);
            lemma_span_end_bounds(b, vs, ByteClass::HeaderValue);
            let ve = span_end(b, vs, ByteClass::HeaderValue);
            lemma_span_end_bounds(b, ve, ByteClass::Multispace);
        }
    }
}

fn header_at(b: &[u8], pos: usize) -> (r: Option<(usize, usize, usize, usize)>)
    requires
        pos <= b@.len(),
    ensures
        match (r, header_line_at(b@, pos as int)) {
            (Some((a, c, d, e)), Some((a2, c2, d2, e2))) => a == a2 && c == c2 && d == d2 && e
                == e2 && pos < a < c < d <= e <= b@.len(),
            (None, None) => true,
            _ => false,
        },
{
    let n_end = span(b, pos, ByteClass::HeaderName);
    if !(n_end > pos && n_end < b.len() && b[n_end] == 58u8) {
        return None;
    }
    let v_start = span(b, n_end + 1, ByteClass::Multispace);
    let v_end = span(b, v_start, ByteClass::HeaderValue);
    let end = span(b, v_end, ByteClass::Multispace);
    if !(v_start > n_end + 1 && v_end > v_start) {
        return None;
    }
    Some((n_end, v_start, v_end, end))
}

/// Reads one header line at the start of `input`; returns the bytes after it.
pub fn parse_header(input: &[u8]) -> (r: Result<(&[u8], HttpHeader), ()>)
    ensures
        match (r, header_line_at(input@, 0)) {
            (Ok((rest, h)), Some((ne, vs, ve, e))) => rest@ == input@.subrange(
                e,
                input@.len() as int,
            ) && h.name@ == input@.subrange(0, ne) && h.value@ == input@.subrange(vs, ve),
            (Err(_), None) => true,
            _ => false,
        },
{
    match header_at(input, 0) {
        Some((ne, vs, ve, e)) => {
            let n = input.len();
            Ok((&input[e..n], HttpHeader { name: &input[0..ne], value: &input[vs..ve] }))
        },
        None => Err(()),
    }
}

/// The header lines from `pos` to the end of `b`, each as where its name ends and its value
/// starts and ends.
pub open spec fn header_lines(b: Seq<u8>, pos: int) -> Option<Seq<(int, int, int, int)>>
    decreases b.len() - pos,
{
    if pos < 0 || pos >= b.len() {
        Some(seq![])
    } else {
        match header_line_at(b, pos) {
            None => None,
            Some((ne, vs, ve, e)) => if e <= pos || e > b.len() {
                None
            } else {
                match header_lines(b, e) {
                    Some(t) => Some(seq![(pos, ne, vs, ve)] + t),
                    None => None,
                }
            },
        }
    }
}

pub open spec fn header_matches(b: Seq<u8>, h: HttpHeader, span: (int, int, int, int)) -> bool {
    h.name@ == b.subrange(span.0, span.1) && h.value@ == b.subrange(span.2, span.3)
}

/// Reads header lines up to the end of `buffer`.
pub fn read_headers(buffer: &[u8]) -> (r: Result<(&[u8], Vec<HttpHeader>), ()>)
    ensures
        match (r, header_lines(buffer@, 0)) {
            (Ok((rest, hs)), Some(spans)) => rest@.len() == 0 && hs@.len() == spans.len() && forall|
                i: int,
            |
                0 <= i < spans.len() ==> header_matches(buffer@, #[trigger] hs@[i], spans[i]),
            (Err(_), None) => true,
            _ => false,
        },
{
    let n = buffer.len();
    let mut headers: Vec<HttpHeader> = Vec::new();
    let mut pos: usize = 0;
    let ghost mut done: Seq<(int, int, int, int)> = seq![];
    while pos < n
        invariant
            n == buffer@.len(),
            pos <= n,
            header_lines(buffer@, 0) == match header_lines(buffer@, pos as int) {
                Some(t) => Some(done + t),
                None => None,
            },
            headers@.len() == done.len(),
            forall|i: int|
                0 <= i < done.len() ==> header_matches(buffer@, #[trigger] headers@[i], done[i]),
        decreases n - pos,
    {
        match header_at(buffer, pos) {
            Some((ne, vs, ve, e)) => {
                let h = HttpHeader { name: &buffer[pos..ne], value: &buffer[vs..ve] };
                let ghost old_headers = headers@;
                headers.push(h);
                proof {
                    let s = (pos as int, ne as int, vs as int, ve as int);
                    match header_lines(buffer@, e as int) {
                        Some(t) => {
                            assert(done + (seq![s] + t) =~= done.push(s) + t);
                        },
                        None => {},
                    }
                    done = done.push(s);
                    assert forall|i: int| 0 <= i < done.len() implies header_matches(
                        buffer@,
                        #[trigger] headers@[i],
                        done[i],
                    ) by {
                        if i < old_headers.len() {
                            assert(headers@[i] == old_headers[i]);
                        }
                    }
                }
                pos = e;
            },
            None => return Err(()),
        }
    }
    proof {
        assert(done + seq![] =~= done);
    }
    Ok((&buffer[pos..n], headers))
}

/// The request methods.
#[derive(Debug, Clone, Copy, PartialEq, Eq, Structural)]
pub enum HttpMethod {
    Get,
    Put,
    Post,
    Delete,
    Head,
    Options,
}

/// The name of each method as it stands in a request line.
pub open spec fn method_name(m: HttpMethod) -> Seq<char> {
    match m {
        HttpMethod::Get => seq!['G', 'E', 'T'],
        HttpMethod::Put => seq!['P', 'U', 'T'],
        HttpMethod::Post => seq!['P', 'O', 'S', 'T'],
        HttpMethod::Delete => seq!['D', 'E', 'L', 'E', 'T', 'E'],
        HttpMethod::Head => seq!['H', 'E', 'A', 'D'],
        HttpMethod::Options => seq!['O', 'P', 'T', 'I', 'O', 'N'],
    }
}

/// Whether the two strings are equal.
pub fn str_eq(a: &str, b: &str) -> (r: bool)
    ensures
        r == (a@ == b@),
{
    let r = a.unicode_len() == b.unicode_len() && str_starts_with(a, b);
    proof {
        if a@ == b@ {
            assert(a@.take(b@.len() as int) =~= b@);
        }
        if a@.len() == b@.len() && a@.take(b@.len() as int) == b@ {
            assert(a@ =~= a@.take(b@.len() as int));
        }
    }
    r
}

impl HttpMethod {
    /// The method named `s`.
    pub fn parse(s: &str) -> (r: Option<HttpMethod>)
        ensures
            match r {
                Some(m) => method_name(m) == s@,
                None => forall|m: HttpMethod| method_name(m) != s@,
            },
    {
        proof {
            reveal_strlit("GET");
            reveal_strlit("PUT");
            reveal_strlit("POST");
            reveal_strlit("DELETE");
            reveal_strlit("HEAD");
            reveal_strlit("OPTION");
        }
        if str_eq(s, "GET") {
            assert(method_name(HttpMethod::Get) =~= "GET"@);
            Some(HttpMethod::Get)
        } else if str_eq(s, "PUT") {
            assert(method_name(HttpMethod::Put) =~= "PUT"@);
            Some(HttpMethod::Put)
        } else if str_eq(s, "POST") {
            assert(method_name(HttpMethod::Post) =~= "POST"@);
            Some(HttpMethod::Post)
        } else if str_eq(s, "DELETE") {
            assert(method_name(HttpMethod::Delete) =~= "DELETE"@);
            Some(HttpMethod::Delete)
        } else if str_eq(s, "HEAD") {
            assert(method_name(HttpMethod::Head) =~= "HEAD"@);
            Some(HttpMethod::Head)
        } else if str_eq(s, "OPTION") {
            assert(method_name(HttpMethod::Options) =~= "OPTION"@);
            Some(HttpMethod::Options)
        } else {
            assert(method_name(HttpMethod::Get) =~= "GET"@);
            assert(method_name(HttpMethod::Put) =~= "PUT"@);
            assert(method_name(HttpMethod::Post) =~= "POST"@);
            assert(method_name(HttpMethod::Delete) =~= "DELETE"@);
            assert(method_name(HttpMethod::Head) =~= "HEAD"@);
            assert(method_name(HttpMethod::Options) =~= "OPTION"@);
            None
        }
    }
}

impl core::str::FromStr for HttpMethod {
    type Err = ();

    fn from_str(s: &str) -> Result<HttpMethod, ()> {
        match HttpMethod::parse(s) {
            Some(m) => Ok(m),
            None => Err(()),
        }
    }
}

/// The media types a response can carry.
#[derive(Debug, Clone, Copy, PartialEq, Eq, Structural)]
pub enum MediaType {
    TextPlain,
    ApplicationOctetStream,
}

impl MediaType {
    /// The name of the media type.
    pub fn as_str(&self) -> (r: &'static str)
        ensures
            *self == MediaType::TextPlain ==> r@ == "text/plain"@,
            *self == MediaType::ApplicationOctetStream ==> r@ == "application/octet-stream"@,
    {
        match self {
            MediaType::TextPlain => "text/plain",
            MediaType::ApplicationOctetStream => "application/octet-stream",
        }
    }

    /// The media type named `s`.
    pub fn parse(s: &str) -> (r: Option<MediaType>)
        ensures
            r == Some(MediaType::TextPlain) <==> s@ == "text/plain"@,
            r == Some(MediaType::ApplicationOctetStream) <==> s@ == "application/octet-stream"@,
    {
        proof {
            reveal_strlit("text/plain");
            reveal_strlit("application/octet-stream");
        }
        assert("text/plain"@ != "application/octet-stream"@) by {
            assert("text/plain"@.len() != "application/octet-stream"@.len());
        }
        if str_eq(s, "text/plain") {
            Some(MediaType::TextPlain)
        } else if str_eq(s, "application/octet-stream") {
            Some(MediaType::ApplicationOctetStream)
        } else {
            None
        }
    }
}

impl core::str::FromStr for MediaType {
    type Err = ();

    fn from_str(s: &str) -> Result<MediaType, ()> {
        match MediaType::parse(s) {
            Some(m) => Ok(m),
            None => Err(()),
        }
    }
}

/// A parsed request.
pub struct HttpRequest<'r> {
    pub method: HttpMethod,
    pub path: &'r str,
    pub version: &'r str,
    pub headers: Vec<HttpHeader<'r>>,
    pub body: &'r [u8],
}

pub open spec fn end_of_head() -> Seq<u8> {
    seq![13u8, 10u8, 13u8, 10u8]
}

/// The first position where `\r\n\r\n` starts, if any.
pub(crate) fn find_end_of_head(b: &[u8]) -> (r: Option<usize>)
    ensures
        match r {
            Some(k) => has_at(b@, k as int, end_of_head()) && forall|j: int|
                0 <= j < k ==> !has_at(b@, j, end_of_head()),
            None => forall|j: int| 0 <= j ==> !has_at(b@, j, end_of_head()),
        },
{
    let end = [13u8, 10u8, 13u8, 10u8];
    assert(end@ == end_of_head());
    let n = b.len();
    let mut k: usize = 0;
    while k < n
        invariant
            n == b@.len(),
            end@ == end_of_head(),
            forall|j: int| 0 <= j < k ==> !has_at(b@, j, end_of_head()),
        decreases n - k,
    {
        if bytes_at(b, k, &end) {
            return Some(k);
        }
        k = k + 1;
    }
    None
}

/// `k` is where the first `\r\n\r\n` of `b` starts: where the head of a request ends.
pub open spec fn message_parts(b: Seq<u8>, k: int) -> bool {
    &&& has_at(b, k, end_of_head())
    &&& forall|j: int| 0 <= j < k ==> !has_at(b, j, end_of_head())
}

/// Reads a whole request: the request line and the header lines up to the first blank line,
/// then the body. Returns the body and the request.
pub fn parse_message(buffer: &[u8]) -> (r: Result<(&[u8], HttpRequest), ()>)
    ensures
        r matches Ok((body, req)) ==> exists|k: int|
            message_parts(buffer@, k) && body@ == buffer@.subrange(k + 4, buffer@.len() as int)
                && req.body@ == body@ && request_line(buffer@.take(k)) is Some && method_name(
                req.method,
            ) == decode_utf8(buffer@.take(k).subrange(0, request_line(buffer@.take(k)).unwrap().0))
                && req.path@ == decode_utf8(
                buffer@.take(k).subrange(
                    request_line(buffer@.take(k)).unwrap().1,
                    request_line(buffer@.take(k)).unwrap().2,
                ),
            ),
        r is Err ==> (forall|k: int| !message_parts(buffer@, k)) || exists|k: int|
            message_parts(buffer@, k) && (request_line(buffer@.take(k)) is None || header_lines(
                buffer@.take(k),
                request_line(buffer@.take(k)).unwrap().5,
            ) is None || forall|m: HttpMethod|
                method_name(m) != decode_utf8(
                    buffer@.take(k).subrange(0, request_line(buffer@.take(k)).unwrap().0),
                )),
{
    let n = buffer.len();
    let k = match find_end_of_head(buffer) {
        Some(k) => k,
        None => return Err(()),
    };
    assert(message_parts(buffer@, k as int));
    let head = &buffer[0..k];
    assert(head@ =~= buffer@.take(k as int));
    let (rest, (method, path, version)) = match parse_request_line(head) {
        Ok(x) => x,
        Err(_) => return Err(()),
    };
    let ghost line = request_line(head@).unwrap();
    let headers = match read_headers(rest) {
        Ok((_, hs)) => hs,
        Err(_) => {
            proof {
                assert(rest@ =~= head@.subrange(line.5, head@.len() as int));
                lemma_header_lines_shift(head@, line.5);
            }
            return Err(());
        },
    };
    let method = match HttpMethod::parse(method) {
        Some(m) => m,
        None => return Err(()),
    };
    let body = &buffer[k + 4..n];
    Ok((body, HttpRequest { method, path, version, headers, body }))
}

/// The header lines of a suffix are those of the whole from where the suffix starts.
proof fn lemma_header_lines_shift(b: Seq<u8>, start: int)
    requires
        0 <= start <= b.len(),
    ensures
        header_lines(b.subrange(start, b.len() as int), 0) is None <==> header_lines(b, start) is None,
{
    lemma_header_lines_shift_at(b, start, 0);
}

proof fn lemma_span_end_shift(b: Seq<u8>, start: int, pos: int, c: ByteClass)
    requires
        0 <= start <= b.len(),
        0 <= pos,
    ensures
        span_end(b.subrange(start, b.len() as int), pos, c) + start == span_end(b, start + pos, c),
    decreases b.len() - start - pos,
{
    let s = b.subrange(start, b.len() as int);
    if pos < s.len() && in_class(c, s[pos]) {
        lemma_span_end_shift(b, start, pos + 1, c);
    }
}

proof fn lemma_header_lines_shift_at(b: Seq<u8>, start: int, pos: int)
    requires
        0 <= start <= b.len(),
        0 <= pos,
    ensures
        header_lines(b.subrange(start, b.len() as int), pos) is None <==> header_lines(b, start + pos)
            is None,
    decreases b.len() - start - pos,
{
    let s = b.subrange(start, b.len() as int);
    if pos < s.len() {
        let q = start + pos;
        let n1 = span_end(s, pos, ByteClass::HeaderName);
        lemma_span_end_bounds(s, pos, ByteClass::HeaderName);
        lemma_span_end_shift(b, start, pos, ByteClass::HeaderName);
        lemma_span_end_shift(b, start, n1 + 1, ByteClass::Multispace);
        let v1 = span_end(s, n1 + 1, ByteClass::Multispace);
        if n1 + 1 <= s.len() {
            lemma_span_end_bounds(s, n1 + 1, ByteClass::Multispace);
            lemma_span_end_shift(b, start, v1, ByteClass::HeaderValue);
            let w1 = span_end(s, v1, ByteClass::HeaderValue);
            lemma_span_end_bounds(s, v1, ByteClass::HeaderValue);
            lemma_span_end_shift(b, start, w1, ByteClass::Multispace);
            let e1 = span_end(s, w1, ByteClass::Multispace);
            lemma_span_end_bounds(s, w1, ByteClass::Multispace);
            if header_line_at(s, pos) is Some {
                assert(s[n1] == b[start + n1]);
                lemma_header_lines_shift_at(b, start, e1);
            } else if n1 < s.len() {
                assert(s[n1] == b[start + n1]);
            }
        } else {
        }
    }
}

/// Splits a path `/first/rest` into its first segment and the rest after the next `/`; a path
/// without a leading `/` is its own first segment.
pub open spec fn split_path_spec(path: Seq<char>) -> (Seq<char>, Seq<char>) {
    if path.len() > 0 && path[0] == '/' {
        let s = path.skip(1);
        if exists|i: int| 0 <= i < s.len() && s[i] == '/' {
            let i = choose|i: int|
                0 <= i < s.len() && s[i] == '/' && forall|j: int| 0 <= j < i ==> s[j] != '/';
            (s.take(i), s.skip(i + 1))
        } else {
            (s, seq![])
        }
    } else {
        (path, seq![])
    }
}

/// Splits a request path into its first segment and the rest: `"/foo/bar/baz"` gives `"foo"`
/// and `"bar/baz"`.
pub fn split_path(path: &str) -> (r: (&str, &str))
    ensures
        (r.0@, r.1@) == split_path_spec(path@),
{
    proof {
        reveal_strlit("");
    }
    let n = path.unicode_len();
    if n == 0 || path.get_char(0) != '/' {
        return (path, "");
    }
    let mut i: usize = 1;
    while i < n
        invariant
            n == path@.len(),
            1 <= i <= n,
            path@[0] == '/',
            forall|j: int| 1 <= j < i ==> path@[j] != '/',
        decreases n - i,
    {
        if path.get_char(i) == '/' {
            let first = path.substring_char(1, i);
            let rest = path.substring_char(i + 1, n);
            proof {
                let s = path@.skip(1);
                assert(s[i - 1] == '/');
                let c = choose|c: int|
                    0 <= c < s.len() && s[c] == '/' && forall|j: int| 0 <= j < c ==> s[j] != '/';
                assert(c == i - 1) by {
                    if c < i - 1 {
                        assert(s[c] == path@[c + 1]);
                    } else if c > i - 1 {
                        assert(s[i - 1] != '/');
                    }
                }
                assert(first@ =~= s.take(c));
                assert(rest@ =~= s.skip(c + 1));
            }
            return (first, rest);
        }
        i = i + 1;
    }
    let first = path.substring_char(1, n);
    proof {
        let s = path@.skip(1);
        assert(first@ =~= s);
        assert forall|j: int| 0 <= j < s.len() implies s[j] != '/' by {
            assert(s[j] == path@[j + 1]);
        }
    }
    (first, "")
}

} // verus!
