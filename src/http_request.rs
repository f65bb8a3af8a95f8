use vstd::prelude::*;
use vstd::std_specs::convert::FromSpecImpl;
use vstd::std_specs::iter::IteratorSpec;

verus! {

/// Whether `s` holds exactly the characters of `lit`.
fn same_chars(s: &str, lit: &str) -> (r: bool)
    ensures
        r == (s@ == lit@),
{
    let n = s.unicode_len();
    if n != lit.unicode_len() {
        return false;
    }
    let mut i: usize = 0;
    while i < n
        invariant
            n == s@.len(),
            n == lit@.len(),
            i <= n,
            forall|j: int| 0 <= j < i ==> s@[j] == lit@[j],
        decreases n - i,
    {
        if s.get_char(i) != lit.get_char(i) {
            return false;
        }
        i = i + 1;
    }
    assert(s@ =~= lit@);
    true
}

/// The request method of a request line.
#[derive(Debug, PartialEq, Eq, Structural, Clone, Copy)]
pub enum Method {
    Get,
    Post,
    Uninitialized,
}

/// The method that a request-line token names: an exact, case-sensitive match.
pub open spec fn method_of(t: Seq<char>) -> Method {
    if t == seq!['G', 'E', 'T'] {
        Method::Get
    } else if t == seq!['P', 'O', 'S', 'T'] {
        Method::Post
    } else {
        Method::Uninitialized
    }
}

impl<'a> From<&'a str> for Method {
    fn from(s: &'a str) -> (r: Method) {
        proof {
            reveal_strlit("GET");
            reveal_strlit("POST");
            assert("GET"@ =~= seq!['G', 'E', 'T']);
            assert("POST"@ =~= seq!['P', 'O', 'S', 'T']);
        }
        if same_chars(s, "GET") {
            Method::Get
        } else if same_chars(s, "POST") {
            Method::Post
        } else {
            Method::Uninitialized
        }
    }
}

impl<'a> FromSpecImpl<&'a str> for Method {
    open spec fn obeys_from_spec() -> bool {
        true
    }

    open spec fn from_spec(s: &'a str) -> Method {
        method_of(s@)
    }
}


/// The version named in a request line.
#[derive(Debug, PartialEq, Eq, Structural, Clone, Copy)]
pub enum Version {
    V1_1,
    V2_0,
    Uninitialized,
}

/// The version that a request-line token names: an exact match.
pub open spec fn version_of(t: Seq<char>) -> Version {
    if t == seq!['H', 'T', 'T', 'P', '/', '1', '.', '1'] {
        Version::V1_1
    } else if t == seq!['H', 'T', 'T', 'P', '/', '2', '.', '0'] {
        Version::V2_0
    } else {
        Version::Uninitialized
    }
}

impl<'a> From<&'a str> for Version {
    fn from(s: &'a str) -> (r: Version) {
        proof {
            reveal_strlit("HTTP/1.1");
            reveal_strlit("HTTP/2.0");
            assert("HTTP/1.1"@ =~= seq!['H', 'T', 'T', 'P', '/', '1', '.', '1']);
            assert("HTTP/2.0"@ =~= seq!['H', 'T', 'T', 'P', '/', '2', '.', '0']);
        }
        if same_chars(s, "HTTP/1.1") {
            Version::V1_1
        } else if same_chars(s, "HTTP/2.0") {
            Version::V2_0
        } else {
            Version::Uninitialized
        }
    }
}

impl<'a> FromSpecImpl<&'a str> for Version {
    open spec fn obeys_from_spec() -> bool {
        true
    }

    open spec fn from_spec(s: &'a str) -> Version {
        version_of(s@)
    }
}

/// The target of a request.
#[derive(Debug, PartialEq, Eq)]
pub enum Resource {
    Path(String),
}

impl Resource {
    pub open spec fn path(&self) -> Seq<char> {
        match self {
            Resource::Path(p) => p@,
        }
    }
}

/// Why a text could not be read as a request.
#[derive(Debug, PartialEq, Eq, Structural, Clone, Copy)]
pub enum RequestError {
    /// A request line with fewer than three whitespace-separated words.
    MalformedRequestLine,
}

/// Unicode's White_Space characters, as `char::is_whitespace` takes them.
pub open spec fn is_ws(c: char) -> bool {
    let u = c as u32;
    (0x9 <= u && u <= 0xD) || u == 0x20 || u == 0x85 || u == 0xA0 || u == 0x1680
        || (0x2000 <= u && u <= 0x200A) || u == 0x2028 || u == 0x2029 || u == 0x202F
        || u == 0x205F || u == 0x3000
}

fn is_whitespace(c: char) -> (r: bool)
    ensures
        r == is_ws(c),
{
    let u = c as u32;
    (0x9 <= u && u <= 0xD) || u == 0x20 || u == 0x85 || u == 0xA0 || u == 0x1680
        || (0x2000 <= u && u <= 0x200A) || u == 0x2028 || u == 0x2029 || u == 0x202F
        || u == 0x205F || u == 0x3000
}

/// The classes of characters that the scans of a line look for.
#[derive(PartialEq, Eq, Structural, Clone, Copy)]
pub enum CharClass {
    Space,
    NonSpace,
    Colon,
}

/// Whether `c` falls in class `k`.
pub open spec fn in_class(c: char, k: CharClass) -> bool {
    match k {
        CharClass::Space => is_ws(c),
        CharClass::NonSpace => !is_ws(c),
        CharClass::Colon => c == ':',
    }
}

/// The first index from `i` on whose character is in class `k`, or the length of `l`.
pub open spec fn first_in_class(l: Seq<char>, k: CharClass, i: int) -> int
    decreases l.len() - i,
{
    if i >= l.len() {
        l.len() as int
    } else if in_class(l[i], k) {
        i
    } else {
        first_in_class(l, k, i + 1)
    }
}

fn find_class(l: &Vec<char>, k: CharClass, from: usize) -> (r: usize)
    requires
        from <= l@.len(),
    ensures
        r == first_in_class(l@, k, from as int),
        from <= r <= l@.len(),
{
    let mut i = from;
    while i < l.len()
        invariant
            from <= i <= l@.len(),
            first_in_class(l@, k, from as int) == first_in_class(l@, k, i as int),
        decreases l@.len() - i,
    {
        let c = l[i];
        let hit = match k {
            CharClass::Space => is_whitespace(c),
            CharClass::NonSpace => !is_whitespace(c),
            CharClass::Colon => c == ':',
        };
        if hit {
            return i;
        }
        i = i + 1;
    }
    i
}

/// Relies on `String::push`: appends one character at the end.
#[verifier::external_body]
fn push_char(s: &mut String, c: char)
    ensures
        final(s)@ == old(s)@.push(c),
{
    s.push(c)
}

/// The characters `from..to` of `l` as a string.
fn string_of(l: &Vec<char>, from: usize, to: usize) -> (r: String)
    requires
        from <= to <= l@.len(),
    ensures
        r@ == l@.subrange(from as int, to as int),
{
    let mut r = String::new();
    let mut i = from;
    while i < to
        invariant
            from <= i <= to <= l@.len(),
            r@ == l@.subrange(from as int, i as int),
        decreases to - i,
    {
        push_char(&mut r, l[i]);
        assert(l@.subrange(from as int, i + 1) =~= l@.subrange(from as int, i as int).push(l@[i as int]));
        i = i + 1;
    }
    r
}

/// The characters of `s`, one by one.
fn chars_of(s: &str) -> (r: Vec<char>)
    ensures
        r@ == s@,
{
    broadcast use vstd::string::axiom_spec_iter, vstd::string::next_postcondition;

    let mut it = s.chars();
    let mut r: Vec<char> = Vec::new();
    loop
        invariant
            r@ + it.remaining() == s@,
            it.decrease() is Some,
        ensures
            r@ == s@,
        decreases it.decrease()->0,
    {
        match it.next() {
            Some(c) => {
                r.push(c);
                assert(r@ + it.remaining() =~= s@);
            },
            None => {
                assert(r@ + it.remaining() =~= r@);
                break;
            },
        }
    }
    r
}

/// `t` without one carriage return at its end.
pub open spec fn strip_cr(t: Seq<char>) -> Seq<char> {
    if t.len() > 0 && t.last() == '\r' {
        t.drop_last()
    } else {
        t
    }
}

/// The lines of `s[start..]` where the current line began at `start` and the scan is at `i`:
/// a line ends at `\n`, which is dropped with one `\r` before it, and an empty
/// fragment after the last `\n` is no line.
pub open spec fn lines_from(s: Seq<char>, start: int, i: int) -> Seq<Seq<char>>
    decreases s.len() - i,
{
    if i >= s.len() {
        if start < s.len() {
            seq![s.subrange(start, s.len() as int)]
        } else {
            Seq::empty()
        }
    } else if s[i] == '\n' {
        seq![strip_cr(s.subrange(start, i))] + lines_from(s, i + 1, i + 1)
    } else {
        lines_from(s, start, i + 1)
    }
}

/// The lines of a text.
pub open spec fn lines_of(s: Seq<char>) -> Seq<Seq<char>> {
    lines_from(s, 0, 0)
}

/// The characters of each line.
pub open spec fn char_seqs(v: Seq<Vec<char>>) -> Seq<Seq<char>> {
    v.map_values(|l: Vec<char>| l@)
}

fn split_lines(s: &Vec<char>) -> (r: Vec<Vec<char>>)
    ensures
        char_seqs(r@) == lines_of(s@),
{
    let mut out: Vec<Vec<char>> = Vec::new();
    let mut cur: Vec<char> = Vec::new();
    let ghost mut start: int = 0;
    let mut i: usize = 0;
    while i < s.len()
        invariant
            0 <= start <= i <= s@.len(),
            cur@ == s@.subrange(start, i as int),
            char_seqs(out@) + lines_from(s@, start, i as int) == lines_of(s@),
        decreases s@.len() - i,
    {
        let c = s[i];
        if c == '\n' {
            let ghost line = strip_cr(cur@);
            if cur.len() > 0 && cur[cur.len() - 1] == '\r' {
                cur.pop();
            }
            assert(cur@ == line);
            let ghost prev = char_seqs(out@);
            out.push(cur);
            assert(char_seqs(out@) =~= prev.push(line));
            assert(char_seqs(out@) + lines_from(s@, i + 1, i + 1) =~= prev + lines_from(s@, start, i as int));
            cur = Vec::new();
            proof {
                start = i + 1;
            }
            assert(cur@ =~= s@.subrange(start, i + 1));
        } else {
            cur.push(c);
            assert(cur@ =~= s@.subrange(start, i + 1));
        }
        i = i + 1;
    }
    if cur.len() > 0 {
        let ghost prev = char_seqs(out@);
        out.push(cur);
        assert(char_seqs(out@) =~= prev + lines_from(s@, start, i as int));
    } else {
        assert(char_seqs(out@) =~= char_seqs(out@) + lines_from(s@, start, i as int));
    }
    out
}

/// Where the `k`-th whitespace-separated word of `l` begins, or the length of `l`.
pub open spec fn word_start(l: Seq<char>, k: nat) -> int
    decreases k, 0nat,
{
    if k == 0 {
        first_in_class(l, CharClass::NonSpace, 0)
    } else {
        first_in_class(l, CharClass::NonSpace, word_end(l, (k - 1) as nat))
    }
}

/// Where the `k`-th word of `l` ends.
pub open spec fn word_end(l: Seq<char>, k: nat) -> int
    decreases k, 1nat,
{
    first_in_class(l, CharClass::Space, word_start(l, k))
}

/// The `k`-th whitespace-separated word of `l`.
pub open spec fn word(l: Seq<char>, k: nat) -> Seq<char> {
    l.subrange(word_start(l, k), word_end(l, k))
}

/// A request line read as method, target and version: its first three words, or
/// nothing where it has fewer.
pub open spec fn request_line_of(l: Seq<char>) -> Option<(Method, Seq<char>, Version)> {
    if word_start(l, 2) < l.len() {
        Some((method_of(word(l, 0)), word(l, 1), version_of(word(l, 2))))
    } else {
        None
    }
}

fn request_line_chars(l: &Vec<char>) -> (r: Result<(Method, Resource, Version), RequestError>)
    ensures
        match r {
            Ok((m, res, v)) => request_line_of(l@) == Some((m, res.path(), v)),
            Err(e) => request_line_of(l@) is None && e == RequestError::MalformedRequestLine,
        },
{
    let n = l.len();
    let s0 = find_class(l, CharClass::NonSpace, 0);
    let e0 = find_class(l, CharClass::Space, s0);
    let s1 = find_class(l, CharClass::NonSpace, e0);
    let e1 = find_class(l, CharClass::Space, s1);
    let s2 = find_class(l, CharClass::NonSpace, e1);
    assert(word_start(l@, 1) == s1);
    assert(word_start(l@, 2) == s2);
    if s2 == n {
        return Err(RequestError::MalformedRequestLine);
    }
    let e2 = find_class(l, CharClass::Space, s2);
    let method = string_of(l, s0, e0);
    let target = string_of(l, s1, e1);
    let version = string_of(l, s2, e2);
    Ok((Method::from(method.as_str()), Resource::Path(target), Version::from(version.as_str())))
}

/// Reads a request line such as `GET /index HTTP/1.1` into its method, target and
/// version; words after the third are not read.
pub fn process_req_line(s: &str) -> (r: Result<(Method, Resource, Version), RequestError>)
    ensures
        match r {
            Ok((m, res, v)) => request_line_of(s@) == Some((m, res.path(), v)),
            Err(e) => request_line_of(s@) is None && e == RequestError::MalformedRequestLine,
        },
{
    let l = chars_of(s);
    request_line_chars(&l)
}

/// Where the first colon of `l` stands, or the length of `l`.
pub open spec fn colon_index(l: Seq<char>) -> int {
    first_in_class(l, CharClass::Colon, 0)
}

/// The name of a header line: everything before its first colon, untrimmed.
pub open spec fn header_key(l: Seq<char>) -> Seq<char> {
    l.subrange(0, colon_index(l))
}

/// The value of a header line: what follows the first colon, from its first
/// non-whitespace character on; empty where there is no colon.
pub open spec fn header_value(l: Seq<char>) -> Seq<char> {
    l.subrange(first_in_class(l, CharClass::NonSpace, colon_index(l) + 1), l.len() as int)
}

fn header_line_chars(l: &Vec<char>) -> (r: (String, String))
    ensures
        r.0@ == header_key(l@),
        r.1@ == header_value(l@),
{
    let n = l.len();
    let c = find_class(l, CharClass::Colon, 0);
    let v = if c < n {
        find_class(l, CharClass::NonSpace, c + 1)
    } else {
        n
    };
    (string_of(l, 0, c), string_of(l, v, n))
}

/// Splits a header line such as `Host: localhost` into its name and its value.
pub fn process_header_line(s: &str) -> (r: (String, String))
    ensures
        r.0@ == header_key(s@),
        r.1@ == header_value(s@),
{
    let l = chars_of(s);
    header_line_chars(&l)
}

/// Whether `l` holds `HTTP` somewhere.
pub open spec fn has_http(l: Seq<char>) -> bool {
    exists|i: int| 0 <= i && i + 4 <= l.len() && #[trigger] l.subrange(i, i + 4) == seq!['H', 'T', 'T', 'P']
}

fn contains_http(l: &Vec<char>) -> (r: bool)
    ensures
        r == has_http(l@),
{
    let n = l.len();
    let mut i: usize = 0;
    while n - i >= 4
        invariant
            n == l@.len(),
            i <= n,
            forall|j: int| 0 <= j < i ==> #[trigger] l@.subrange(j, j + 4) != seq!['H', 'T', 'T', 'P'],
        decreases n - i,
    {
        if l[i] == 'H' && l[i + 1] == 'T' && l[i + 2] == 'T' && l[i + 3] == 'P' {
            assert(l@.subrange(i as int, i + 4) =~= seq!['H', 'T', 'T', 'P']);
            return true;
        }
        assert(l@.subrange(i as int, i + 4)[0] == l@[i as int]);
        assert(l@.subrange(i as int, i + 4)[1] == l@[i + 1]);
        assert(l@.subrange(i as int, i + 4)[2] == l@[i + 2]);
        assert(l@.subrange(i as int, i + 4)[3] == l@[i + 3]);
        i = i + 1;
    }
    false
}

/// Headers as name and value pairs, each name at most once.
pub open spec fn pairs_view(h: Seq<(String, String)>) -> Seq<(Seq<char>, Seq<char>)> {
    h.map_values(|p: (String, String)| (p.0@, p.1@))
}

/// The first index from `i` on whose name is `k`, or the length of `h`.
pub open spec fn key_index(h: Seq<(Seq<char>, Seq<char>)>, k: Seq<char>, i: int) -> int
    decreases h.len() - i,
{
    if i >= h.len() {
        h.len() as int
    } else if h[i].0 == k {
        i
    } else {
        key_index(h, k, i + 1)
    }
}

/// `h` with `k` set to `v`: the value of a name already there is replaced in place,
/// a new name goes at the end.
pub open spec fn header_insert(h: Seq<(Seq<char>, Seq<char>)>, k: Seq<char>, v: Seq<char>) -> Seq<(Seq<char>, Seq<char>)> {
    let j = key_index(h, k, 0);
    if j < h.len() {
        h.update(j, (k, v))
    } else {
        h.push((k, v))
    }
}

fn insert_header(h: &mut Vec<(String, String)>, k: String, v: String)
    ensures
        pairs_view(final(h)@) == header_insert(pairs_view(old(h)@), k@, v@),
{
    let ghost pv = pairs_view(h@);
    let mut i: usize = 0;
    while i < h.len()
        invariant
            i <= h@.len(),
            h@ == old(h)@,
            pv == pairs_view(h@),
            key_index(pv, k@, 0) == key_index(pv, k@, i as int),
        decreases h@.len() - i,
    {
        if h[i].0 == k {
            h[i] = (k, v);
            assert(pairs_view(h@) =~= header_insert(pv, k@, v@));
            return;
        }
        i = i + 1;
    }
    h.push((k, v));
    assert(pairs_view(h@) =~= header_insert(pv, k@, v@));
}

/// What a request holds, over mathematical values.
pub struct RequestView {
    pub method: Method,
    pub version: Version,
    pub path: Seq<char>,
    pub headers: Seq<(Seq<char>, Seq<char>)>,
    pub body: Seq<char>,
}

/// The request before any line is read: no method, version 1.1, an empty path, no
/// headers and no body.
pub open spec fn default_view() -> RequestView {
    RequestView {
        method: Method::Uninitialized,
        version: Version::V1_1,
        path: Seq::empty(),
        headers: Seq::empty(),
        body: Seq::empty(),
    }
}

/// A line that is neither a request line nor a header line nor empty.
pub open spec fn is_body_line(l: Seq<char>) -> bool {
    l.len() > 0 && !has_http(l) && colon_index(l) == l.len()
}

/// What one line does to the request read so far: a line holding `HTTP` is the
/// request line, else one holding a colon is a header, an empty line is skipped,
/// and any other line becomes the body; nothing where the request line is malformed.
pub open spec fn apply_line(r: RequestView, l: Seq<char>) -> Option<RequestView> {
    if has_http(l) {
        match request_line_of(l) {
            Some((m, p, v)) => Some(
                RequestView { method: m, version: v, path: p, headers: r.headers, body: r.body },
            ),
            None => None,
        }
    } else if colon_index(l) < l.len() {
        Some(
            RequestView {
                method: r.method,
                version: r.version,
                path: r.path,
                headers: header_insert(r.headers, header_key(l), header_value(l)),
                body: r.body,
            },
        )
    } else if l.len() == 0 {
        Some(r)
    } else {
        Some(
            RequestView {
                method: r.method,
                version: r.version,
                path: r.path,
                headers: r.headers,
                body: l,
            },
        )
    }
}

/// The request that a sequence of lines makes, read in order.
pub open spec fn parse_lines(ls: Seq<Seq<char>>) -> Option<RequestView>
    decreases ls.len(),
{
    if ls.len() == 0 {
        Some(default_view())
    } else {
        match parse_lines(ls.drop_last()) {
            Some(r) => apply_line(r, ls.last()),
            None => None,
        }
    }
}

/// The request that a text makes.
pub open spec fn parse_view(s: Seq<char>) -> Option<RequestView> {
    parse_lines(lines_of(s))
}

/// A request read from its text.
#[derive(Debug, PartialEq, Eq)]
pub struct HttpRequest {
    pub method: Method,
    pub version: Version,
    pub resource: Resource,
    pub headers: Vec<(String, String)>,
    pub msg_body: String,
}

impl View for HttpRequest {
    type V = RequestView;

    open spec fn view(&self) -> RequestView {
        RequestView {
            method: self.method,
            version: self.version,
            path: self.resource.path(),
            headers: pairs_view(self.headers@),
            body: self.msg_body@,
        }
    }
}

proof fn lemma_failure_stays(ls: Seq<Seq<char>>, k: int)
    requires
        0 <= k <= ls.len(),
        parse_lines(ls.take(k)) is None,
    ensures
        parse_lines(ls) is None,
    decreases ls.len() - k,
{
    if k == ls.len() {
        assert(ls.take(k) =~= ls);
    } else {
        assert(ls.take(k + 1).drop_last() =~= ls.take(k));
        lemma_failure_stays(ls, k + 1);
    }
}

impl HttpRequest {
    /// Reads a whole request text, lines separated by `\n` or `\r\n`. A text with no
    /// request line leaves method, version and path at their defaults; a request
    /// line with fewer than three words is an error.
    pub fn parse(req: &str) -> (r: Result<HttpRequest, RequestError>)
        ensures
            r is Ok <==> parse_view(req@) is Some,
            r matches Ok(q) ==> parse_view(req@) == Some(q@),
            r matches Err(e) ==> e == RequestError::MalformedRequestLine,
            r matches Ok(q) ==> keys_unique(q@.headers),
    {
        let cs = chars_of(req);
        let lines = split_lines(&cs);
        let ghost ls = char_seqs(lines@);
        let mut method = Method::Uninitialized;
        let mut version = Version::V1_1;
        let mut resource = Resource::Path(String::new());
        let mut headers: Vec<(String, String)> = Vec::new();
        let mut body = String::new();
        let mut k: usize = 0;
        assert(ls.take(0) =~= Seq::<Seq<char>>::empty());
        assert(pairs_view(headers@) =~= Seq::empty());
        assert(resource.path() =~= Seq::empty());
        while k < lines.len()
            invariant
                ls == char_seqs(lines@),
                ls == lines_of(req@),
                k <= lines@.len(),
                parse_lines(ls.take(k as int)) == Some(
                    RequestView {
                        method,
                        version,
                        path: resource.path(),
                        headers: pairs_view(headers@),
                        body: body@,
                    },
                ),
            decreases lines@.len() - k,
        {
            let line = &lines[k];
            assert(ls.take(k + 1).drop_last() =~= ls.take(k as int));
            assert(ls.take(k + 1).last() == line@);
            if contains_http(line) {
                match request_line_chars(line) {
                    Ok((m, res, v)) => {
                        method = m;
                        resource = res;
                        version = v;
                    },
                    Err(e) => {
                        proof {
                            lemma_failure_stays(ls, k + 1);
                        }
                        return Err(e);
                    },
                }
            } else if find_class(line, CharClass::Colon, 0) < line.len() {
                let (key, value) = header_line_chars(line);
                insert_header(&mut headers, key, value);
            } else if line.len() == 0 {
            } else {
                body = string_of(line, 0, line.len());
                assert(body@ =~= line@);
            }
            k = k + 1;
        }
        assert(ls.take(k as int) =~= ls);
        proof {
            lemma_parsed_keys_unique(ls);
        }
        Ok(HttpRequest { method, version, resource, headers, msg_body: body })
    }
}

/// No header name stands twice.
pub open spec fn keys_unique(h: Seq<(Seq<char>, Seq<char>)>) -> bool {
    forall|i: int, j: int| 0 <= i < j < h.len() ==> h[i].0 != h[j].0
}

proof fn lemma_key_index(h: Seq<(Seq<char>, Seq<char>)>, k: Seq<char>, i: int)
    requires
        0 <= i <= h.len(),
    ensures
        i <= key_index(h, k, i) <= h.len(),
        key_index(h, k, i) < h.len() ==> h[key_index(h, k, i)].0 == k,
        forall|j: int| i <= j < key_index(h, k, i) ==> h[j].0 != k,
    decreases h.len() - i,
{
    if i < h.len() && h[i].0 != k {
        lemma_key_index(h, k, i + 1);
    }
}

/// Setting a header keeps header names unique.
pub proof fn lemma_insert_keeps_keys_unique(h: Seq<(Seq<char>, Seq<char>)>, k: Seq<char>, v: Seq<char>)
    requires
        keys_unique(h),
    ensures
        keys_unique(header_insert(h, k, v)),
{
    lemma_key_index(h, k, 0);
}

/// Every request read from a text has unique header names.
pub proof fn lemma_parsed_keys_unique(ls: Seq<Seq<char>>)
    requires
        parse_lines(ls) is Some,
    ensures
        keys_unique(parse_lines(ls).unwrap().headers),
    decreases ls.len(),
{
    if ls.len() > 0 {
        lemma_parsed_keys_unique(ls.drop_last());
        let r = parse_lines(ls.drop_last()).unwrap();
        lemma_insert_keeps_keys_unique(r.headers, header_key(ls.last()), header_value(ls.last()));
    }
}

/// Reading a text is deterministic: the same text always gives the same request.
pub proof fn lemma_parse_deterministic(s: Seq<char>, t: Seq<char>)
    requires
        s == t,
    ensures
        parse_view(s) == parse_view(t),
{
}

/// Of several body lines only the last is kept: after two of them the body is the
/// second, and all else is as before them.
pub proof fn lemma_last_body_line_wins(ls: Seq<Seq<char>>, a: Seq<char>, b: Seq<char>)
    requires
        parse_lines(ls) is Some,
        is_body_line(a),
        is_body_line(b),
    ensures
        parse_lines(ls.push(a).push(b)) == Some(
            RequestView { body: b, ..parse_lines(ls).unwrap() },
        ),
{
    let r = parse_lines(ls).unwrap();
    assert(ls.push(a).drop_last() =~= ls);
    assert(ls.push(a).last() == a);
    assert(parse_lines(ls.push(a)) == Some(RequestView { body: a, ..r }));
    assert(ls.push(a).push(b).drop_last() =~= ls.push(a));
    assert(ls.push(a).push(b).last() == b);
}

} // verus!
