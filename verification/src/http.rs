//! The HTTP front that feeds the pool: request-line and header parsing,
//! routing, and response construction, on plain strings and bytes. The
//! surrounding socket I/O stays outside the library.

use vstd::prelude::*;

verus! {

/// Why a byte stream could not be read as a request.
#[derive(PartialEq, Eq, Structural, Debug, Clone, Copy)]
pub enum HttpError {
    /// The stream ended before a request line was read.
    EmptyInput,
    /// The request line did not consist of exactly three space-separated parts.
    InvalidRequestLine,
}

/// How many times `c` occurs in `s`.
pub open spec fn count_char(s: Seq<char>, c: char) -> nat
    decreases s.len(),
{
    if s.len() == 0 {
        0
    } else {
        count_char(s.drop_last(), c) + if s.last() == c {
            1nat
        } else {
            0nat
        }
    }
}

proof fn lemma_count_char_concat(a: Seq<char>, b: Seq<char>, c: char)
    ensures
        count_char(a + b, c) == count_char(a, c) + count_char(b, c),
    decreases b.len(),
{
    if b.len() == 0 {
        assert(a + b =~= a);
    } else {
        lemma_count_char_concat(a, b.drop_last(), c);
        assert((a + b).drop_last() =~= a + b.drop_last());
        assert((a + b).last() == b.last());
    }
}

proof fn lemma_count_char_step(s: Seq<char>, c: char, k: int)
    requires
        0 <= k < s.len(),
    ensures
        count_char(s.subrange(0, k + 1), c) == count_char(s.subrange(0, k), c) + if s[k] == c {
            1nat
        } else {
            0nat
        },
{
    assert(s.subrange(0, k + 1).drop_last() =~= s.subrange(0, k));
    assert(s.subrange(0, k + 1).last() == s[k]);
}

/// Parse an HTTP request line into its method, path and version.
///
/// The line is split on single spaces, empty parts included: it parses
/// if and only if it holds exactly two spaces, and the three returned
/// parts are the maximal space-free pieces around them, in order.
pub fn parse_request_line(line: &str) -> (r: Result<(String, String, String), HttpError>)
    ensures
        r is Err <==> count_char(line@, ' ') != 2,
        r is Err ==> r == Err::<(String, String, String), HttpError>(
            HttpError::InvalidRequestLine,
        ),
        r matches Ok(t) ==> {
            &&& line@ =~= t.0@ + seq![' '] + t.1@ + seq![' '] + t.2@
            &&& count_char(t.0@, ' ') == 0
            &&& count_char(t.1@, ' ') == 0
            &&& count_char(t.2@, ' ') == 0
        },
{
    let n = line.unicode_len();
    let mut k: usize = 0;
    let mut spaces: usize = 0;
    let mut first: usize = 0;
    let mut second: usize = 0;
    while k < n
        invariant
            n == line@.len(),
            k <= n,
            spaces <= k,
            spaces == count_char(line@.subrange(0, k as int), ' '),
            spaces >= 1 ==> first < k && line@[first as int] == ' ' && count_char(
                line@.subrange(0, first as int),
                ' ',
            ) == 0,
            spaces >= 2 ==> first < second && second < k && line@[second as int] == ' '
                && count_char(line@.subrange(0, second as int), ' ') == 1,
        decreases n - k,
    {
        let c = line.get_char(k);
        proof {
            lemma_count_char_step(line@, ' ', k as int);
        }
        if c == ' ' {
            if spaces == 0 {
                first = k;
            } else if spaces == 1 {
                second = k;
            }
            spaces = spaces + 1;
        }
        k = k + 1;
    }
    proof {
        assert(line@.subrange(0, n as int) =~= line@);
    }
    if spaces != 2 {
        Err(HttpError::InvalidRequestLine)
    } else {
        let method = line.substring_char(0, first).to_owned();
        let path = line.substring_char(first + 1, second).to_owned();
        let version = line.substring_char(second + 1, n).to_owned();
        proof {
            let l = line@;
            let f = first as int;
            let s = second as int;
            lemma_count_char_step(l, ' ', f);
            lemma_count_char_step(l, ' ', s);
            assert(l.subrange(0, s) =~= l.subrange(0, f + 1) + l.subrange(f + 1, s));
            lemma_count_char_concat(l.subrange(0, f + 1), l.subrange(f + 1, s), ' ');
            assert(l =~= l.subrange(0, s + 1) + l.subrange(s + 1, n as int));
            lemma_count_char_concat(l.subrange(0, s + 1), l.subrange(s + 1, n as int), ' ');
            assert(l =~= method@ + seq![' '] + path@ + seq![' '] + version@);
        }
        Ok((method, path, version))
    }
}

/// The header separator `": "` occurs in `s` at position `i`.
pub open spec fn sep_at(s: Seq<char>, i: int) -> bool {
    &&& 0 <= i
    &&& i + 2 <= s.len()
    &&& s[i] == ':'
    &&& s[i + 1] == ' '
}

/// How many positions of `s` carry the header separator `": "`.
pub open spec fn count_sep(s: Seq<char>) -> nat
    decreases s.len(),
{
    if s.len() < 2 {
        0
    } else {
        count_sep(s.drop_last()) + if sep_at(s, s.len() - 2) {
            1nat
        } else {
            0nat
        }
    }
}

proof fn lemma_count_sep_step(s: Seq<char>, k: int)
    requires
        1 <= k < s.len(),
    ensures
        count_sep(s.subrange(0, k + 1)) == count_sep(s.subrange(0, k)) + if s[k - 1] == ':' && s[k]
            == ' ' {
            1nat
        } else {
            0nat
        },
{
    let t = s.subrange(0, k + 1);
    assert(t.drop_last() =~= s.subrange(0, k));
    assert(sep_at(t, k - 1) <==> s[k - 1] == ':' && s[k] == ' ');
}

proof fn lemma_count_sep_at_least(s: Seq<char>, i: int)
    requires
        sep_at(s, i),
    ensures
        count_sep(s) >= 1,
    decreases s.len(),
{
    if i < s.len() - 2 {
        assert(sep_at(s.drop_last(), i));
        lemma_count_sep_at_least(s.drop_last(), i);
    }
}

proof fn lemma_count_sep_two(s: Seq<char>, i: int, j: int)
    requires
        sep_at(s, i),
        sep_at(s, j),
        i < j,
    ensures
        count_sep(s) >= 2,
    decreases s.len(),
{
    if j == s.len() - 2 {
        assert(sep_at(s.drop_last(), i));
        lemma_count_sep_at_least(s.drop_last(), i);
    } else {
        assert(sep_at(s.drop_last(), i));
        assert(sep_at(s.drop_last(), j));
        lemma_count_sep_two(s.drop_last(), i, j);
    }
}

/// Splitting a header line on `": "`: defined exactly when the line holds
/// one occurrence, as the name before it and the value after it.
pub open spec fn header_split(s: Seq<char>) -> Option<(Seq<char>, Seq<char>)> {
    if count_sep(s) == 1 {
        let i = choose|i: int| sep_at(s, i);
        Some((s.subrange(0, i), s.subrange(i + 2, s.len() as int)))
    } else {
        None
    }
}

/// Parse one header line. The line splits on `": "`: it yields a
/// name/value pair if and only if the separator occurs exactly once; any
/// other line is skipped.
pub fn parse_header_line(line: &str) -> (r: Option<(String, String)>)
    ensures
        r is Some <==> count_sep(line@) == 1,
        r matches Some(p) ==> {
            &&& header_split(line@) == Some::<(Seq<char>, Seq<char>)>((p.0@, p.1@))
            &&& line@ =~= p.0@ + seq![':', ' '] + p.1@
        },
{
    let n = line.unicode_len();
    let mut k: usize = 0;
    let mut seps: usize = 0;
    let mut pos: usize = 0;
    let mut prev: char = ' ';
    while k < n
        invariant
            n == line@.len(),
            k <= n,
            seps <= k,
            seps == count_sep(line@.subrange(0, k as int)),
            k >= 1 ==> prev == line@[k as int - 1],
            seps >= 1 ==> pos + 2 <= k && line@[pos as int] == ':' && line@[pos as int + 1]
                == ' ',
        decreases n - k,
    {
        let c = line.get_char(k);
        proof {
            if k >= 1 {
                lemma_count_sep_step(line@, k as int);
            } else {
                assert(line@.subrange(0, 1).len() < 2);
            }
        }
        if k >= 1 && prev == ':' && c == ' ' {
            if seps == 0 {
                pos = k - 1;
            }
            seps = seps + 1;
        }
        prev = c;
        k = k + 1;
    }
    proof {
        assert(line@.subrange(0, n as int) =~= line@);
    }
    if seps != 1 {
        None
    } else {
        let name = line.substring_char(0, pos).to_owned();
        let value = line.substring_char(pos + 2, n).to_owned();
        proof {
            let l = line@;
            let p = pos as int;
            assert(sep_at(l, p));
            let i = choose|i: int| sep_at(l, i);
            assert(sep_at(l, i));
            if i < p {
                lemma_count_sep_two(l, i, p);
            } else if p < i {
                lemma_count_sep_two(l, p, i);
            }
            assert(i == p);
            assert(l =~= name@ + seq![':', ' '] + value@);
        }
        Some((name, value))
    }
}

/// The views of a sequence of strings.
pub open spec fn views_of(ls: Seq<String>) -> Seq<Seq<char>> {
    ls.map_values(|s: String| s@)
}

/// The views of header name/value pairs.
pub open spec fn pair_views(hs: Seq<(String, String)>) -> Seq<(Seq<char>, Seq<char>)> {
    hs.map_values(|p: (String, String)| (p.0@, p.1@))
}

/// The headers parsed from the lines after the request line: lines are
/// read until the first empty one; each line holding exactly one `": "`
/// contributes its name/value pair, in order; any other line is skipped.
pub open spec fn parse_headers_spec(ls: Seq<Seq<char>>) -> Seq<(Seq<char>, Seq<char>)>
    decreases ls.len(),
{
    if ls.len() == 0 || ls[0].len() == 0 {
        Seq::empty()
    } else {
        match header_split(ls[0]) {
            Some(p) => seq![p] + parse_headers_spec(ls.drop_first()),
            None => parse_headers_spec(ls.drop_first()),
        }
    }
}

/// What a sequence of header pairs maps a name to: the value of the last
/// pair carrying that name, as a map filled in input order would have it.
pub open spec fn header_lookup(hs: Seq<(String, String)>, n: Seq<char>) -> Option<Seq<char>>
    decreases hs.len(),
{
    if hs.len() == 0 {
        None
    } else if hs.last().0@ == n {
        Some(hs.last().1@)
    } else {
        header_lookup(hs.drop_last(), n)
    }
}

/// An HTTP request: method, path and version from the request line, and
/// the well-formed headers that followed it, one name/value pair per
/// line, in input order. Read a header with [`Request::header`], which
/// lets a later duplicate override an earlier one.
pub struct Request {
    pub method: String,
    pub path: String,
    pub version: String,
    pub headers: Vec<(String, String)>,
}

impl Request {
    /// Read a request from the lines of its head: the first line is the
    /// request line, the following lines up to the first empty one are
    /// headers. Fails on an empty stream and on a malformed request line;
    /// succeeds on everything else, with the headers that
    /// `parse_headers_spec` assigns to the remaining lines.
    pub fn new(lines: &Vec<String>) -> (r: Result<Request, HttpError>)
        ensures
            lines@.len() == 0 ==> r == Err::<Request, HttpError>(HttpError::EmptyInput),
            lines@.len() > 0 && count_char(lines@[0]@, ' ') != 2 ==> r == Err::<
                Request,
                HttpError,
            >(HttpError::InvalidRequestLine),
            r is Ok <==> lines@.len() > 0 && count_char(lines@[0]@, ' ') == 2,
            r matches Ok(req) ==> {
                &&& lines@[0]@ =~= req.method@ + seq![' '] + req.path@ + seq![' '] + req.version@
                &&& count_char(req.method@, ' ') == 0
                &&& count_char(req.path@, ' ') == 0
                &&& count_char(req.version@, ' ') == 0
                &&& pair_views(req.headers@) =~= parse_headers_spec(
                    views_of(lines@).drop_first(),
                )
            },
    {
        let n = lines.len();
        if n == 0 {
            return Err(HttpError::EmptyInput);
        }
        let (method, path, version) = match parse_request_line(lines[0].as_str()) {
            Ok(t) => t,
            Err(e) => {
                return Err(e);
            },
        };
        let mut headers: Vec<(String, String)> = Vec::new();
        let mut idx: usize = 1;
        let mut stopped = false;
        while idx < n && !stopped
            invariant
                n == lines@.len(),
                1 <= idx <= n,
                !stopped ==> pair_views(headers@) + parse_headers_spec(
                    views_of(lines@).subrange(idx as int, n as int),
                ) =~= parse_headers_spec(views_of(lines@).subrange(1, n as int)),
                stopped ==> pair_views(headers@) =~= parse_headers_spec(
                    views_of(lines@).subrange(1, n as int),
                ),
            decreases 2 * (n - idx) + if stopped {
                0int
            } else {
                1int
            },
        {
            let ghost vs = views_of(lines@);
            let ghost suffix = vs.subrange(idx as int, n as int);
            proof {
                assert(suffix[0] == lines@[idx as int]@);
                assert(suffix.drop_first() =~= vs.subrange(idx as int + 1, n as int));
            }
            let line = &lines[idx];
            if line.as_str().is_empty() {
                stopped = true;
                proof {
                    assert(parse_headers_spec(suffix) =~= Seq::<(Seq<char>, Seq<char>)>::empty());
                    assert(pair_views(headers@) + parse_headers_spec(suffix) =~= pair_views(
                        headers@,
                    ));
                }
            } else {
                let ghost before = headers@;
                match parse_header_line(line.as_str()) {
                    Some(p) => {
                        let ghost pv = (p.0@, p.1@);
                        headers.push(p);
                        proof {
                            assert(parse_headers_spec(suffix) =~= seq![pv] + parse_headers_spec(
                                suffix.drop_first(),
                            ));
                            assert(pair_views(headers@) =~= pair_views(before) + seq![pv]);
                            assert(pair_views(headers@) + parse_headers_spec(suffix.drop_first())
                                =~= pair_views(before) + parse_headers_spec(suffix));
                        }
                    },
                    None => {
                        proof {
                            assert(parse_headers_spec(suffix) =~= parse_headers_spec(
                                suffix.drop_first(),
                            ));
                        }
                    },
                }
                idx = idx + 1;
            }
        }
        proof {
            if !stopped {
                assert(views_of(lines@).subrange(idx as int, n as int).len() == 0);
                assert(pair_views(headers@) + parse_headers_spec(
                    views_of(lines@).subrange(idx as int, n as int),
                ) =~= pair_views(headers@));
            }
            assert(views_of(lines@).subrange(1, n as int) =~= views_of(lines@).drop_first());
        }
        Ok(Request { method, path, version, headers })
    }

    /// The value of the named header, if any: of several pairs with the
    /// same name, the one from the latest line wins.
    pub fn header(&self, name: &String) -> (r: Option<&String>)
        ensures
            r matches Some(v) ==> header_lookup(self.headers@, name@) == Some(v@),
            r is None <==> header_lookup(self.headers@, name@) is None,
    {
        let mut i: usize = self.headers.len();
        proof {
            assert(self.headers@.subrange(0, i as int) =~= self.headers@);
        }
        while i > 0
            invariant
                i <= self.headers@.len(),
                header_lookup(self.headers@, name@) == header_lookup(
                    self.headers@.subrange(0, i as int),
                    name@,
                ),
            decreases i,
        {
            proof {
                assert(self.headers@.subrange(0, i as int).last() == self.headers@[i - 1]);
                assert(self.headers@.subrange(0, i as int).drop_last() =~= self.headers@.subrange(
                    0,
                    i - 1,
                ));
            }
            if self.headers[i - 1].0.eq(name) {
                return Some(&self.headers[i - 1].1);
            }
            i = i - 1;
        }
        None
    }
}

/// Where a request's path leads: the front page, the deliberately slow
/// front page, or nothing.
#[derive(PartialEq, Eq, Structural, Debug, Clone, Copy)]
pub enum Route {
    Root,
    Sleep,
    NotFound,
}

/// The route a path selects: `/` and `/sleep` serve the front page (the
/// latter after a pause); everything else is not found.
pub open spec fn spec_route(p: Seq<char>) -> Route {
    if p == "/"@ {
        Route::Root
    } else if p == "/sleep"@ {
        Route::Sleep
    } else {
        Route::NotFound
    }
}

/// The status line a route is answered with, as bytes: `HTTP/1.1 200 OK`
/// for a page that exists, `HTTP/1.1 404 NOT FOUND` otherwise.
pub open spec fn spec_status_bytes(r: Route) -> Seq<u8> {
    if r is NotFound {
        seq![72u8, 84u8, 84u8, 80u8, 47u8, 49u8, 46u8, 49u8, 32u8, 52u8, 48u8, 52u8, 32u8, 78u8,
            79u8, 84u8, 32u8, 70u8, 79u8, 85u8, 78u8, 68u8]
    } else {
        seq![72u8, 84u8, 84u8, 80u8, 47u8, 49u8, 46u8, 49u8, 32u8, 50u8, 48u8, 48u8, 32u8, 79u8,
            75u8]
    }
}

/// The file a route is served from: the front page for `/` and `/sleep`,
/// the not-found page otherwise.
pub open spec fn spec_file_name(r: Route) -> Seq<char> {
    if r is NotFound {
        "404.html"@
    } else {
        "hello.html"@
    }
}

/// Decide where a path leads.
pub fn route(path: &String) -> (r: Route)
    ensures
        r == spec_route(path@),
{
    let root = String::from_str("/");
    let sleep = String::from_str("/sleep");
    if path.eq(&root) {
        Route::Root
    } else if path.eq(&sleep) {
        Route::Sleep
    } else {
        Route::NotFound
    }
}

/// The status line for a route, as the bytes that go on the wire.
pub fn status_bytes(r: Route) -> (s: Vec<u8>)
    ensures
        s@ =~= spec_status_bytes(r),
{
    let mut s: Vec<u8> = Vec::new();
    match r {
        Route::NotFound => {
            s.push(72);
            s.push(84);
            s.push(84);
            s.push(80);
            s.push(47);
            s.push(49);
            s.push(46);
            s.push(49);
            s.push(32);
            s.push(52);
            s.push(48);
            s.push(52);
            s.push(32);
            s.push(78);
            s.push(79);
            s.push(84);
            s.push(32);
            s.push(70);
            s.push(79);
            s.push(85);
            s.push(78);
            s.push(68);
        },
        _ => {
            s.push(72);
            s.push(84);
            s.push(84);
            s.push(80);
            s.push(47);
            s.push(49);
            s.push(46);
            s.push(49);
            s.push(32);
            s.push(50);
            s.push(48);
            s.push(48);
            s.push(32);
            s.push(79);
            s.push(75);
        },
    }
    s
}

/// The file a route is served from.
pub fn file_name(r: Route) -> (s: String)
    ensures
        s@ == spec_file_name(r),
{
    match r {
        Route::NotFound => String::from_str("404.html"),
        _ => String::from_str("hello.html"),
    }
}

/// The decimal digits of `n`, most significant first.
pub open spec fn dec_bytes(n: nat) -> Seq<u8>
    decreases n,
{
    if n < 10 {
        seq![(48 + n) as u8]
    } else {
        dec_bytes(n / 10).push((48 + n % 10) as u8)
    }
}

/// Append the bytes of a slice to a buffer.
fn push_bytes(out: &mut Vec<u8>, bs: &[u8])
    ensures
        final(out)@ =~= old(out)@ + bs@,
{
    let mut i: usize = 0;
    while i < bs.len()
        invariant
            i <= bs@.len(),
            out@ =~= old(out)@ + bs@.subrange(0, i as int),
        decreases bs@.len() - i,
    {
        out.push(bs[i]);
        proof {
            assert(bs@.subrange(0, i as int).push(bs@[i as int]) =~= bs@.subrange(
                0,
                i as int + 1,
            ));
        }
        i = i + 1;
    }
    proof {
        assert(bs@.subrange(0, bs@.len() as int) =~= bs@);
    }
}

/// Append the decimal rendering of `n` to a buffer.
fn push_decimal(out: &mut Vec<u8>, n: usize)
    ensures
        final(out)@ =~= old(out)@ + dec_bytes(n as nat),
    decreases n,
{
    if n < 10 {
        out.push(48 + n as u8);
    } else {
        push_decimal(out, n / 10);
        let d: u8 = (n % 10) as u8;
        out.push(48 + d);
        proof {
            assert((old(out)@ + dec_bytes((n / 10) as nat)).push((48 + n % 10) as u8) =~= old(
                out,
            )@ + dec_bytes((n / 10) as nat).push((48 + n % 10) as u8));
        }
    }
}

/// The `Content-Length` header that precedes the body: a leading line
/// break, the label, and a trailing blank line after the digits.
pub open spec fn content_length_label() -> Seq<u8> {
    seq![13u8, 10u8, 67u8, 111u8, 110u8, 116u8, 101u8, 110u8, 116u8, 45u8, 76u8, 101u8, 110u8,
        103u8, 116u8, 104u8, 58u8, 32u8]
}

/// The blank line that separates the head of a response from its body.
pub open spec fn double_crlf() -> Seq<u8> {
    seq![13u8, 10u8, 13u8, 10u8]
}

/// Assemble a response: the status line, a `Content-Length` header
/// carrying the body's exact decimal length, a blank line, and the body.
pub fn format_response(status: &[u8], content: &[u8]) -> (r: Vec<u8>)
    ensures
        r@ =~= status@ + content_length_label() + dec_bytes(content@.len()) + double_crlf()
            + content@,
{
    let mut out: Vec<u8> = Vec::new();
    push_bytes(&mut out, status);
    out.push(13);
    out.push(10);
    out.push(67);
    out.push(111);
    out.push(110);
    out.push(116);
    out.push(101);
    out.push(110);
    out.push(116);
    out.push(45);
    out.push(76);
    out.push(101);
    out.push(110);
    out.push(103);
    out.push(116);
    out.push(104);
    out.push(58);
    out.push(32);
    proof {
        assert(out@ =~= status@ + content_length_label());
    }
    push_decimal(&mut out, content.len());
    proof {
        assert(out@ =~= status@ + content_length_label() + dec_bytes(content@.len()));
    }
    out.push(13);
    out.push(10);
    out.push(13);
    out.push(10);
    proof {
        assert(out@ =~= status@ + content_length_label() + dec_bytes(content@.len())
            + double_crlf());
    }
    push_bytes(&mut out, content);
    out
}

} // verus!
