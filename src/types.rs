//! The request and response data model.
use vstd::prelude::*;
use vstd::string::StringSliceAdditionalSpecFns;
use crate::chunked::{StreamReader, StreamWriter};
use crate::scan::{bytes_eq, push_all, str_eq};

verus! {

/// Request method.
#[derive(Debug, Clone)]
pub enum Method {
    GET,
    POST,
    PUT,
    DELETE,
    Other(String),
}

/// Equality of methods: same variant, and the same token for `Other`.
pub open spec fn same_method(a: Method, b: Method) -> bool {
    match a {
        Method::GET => b is GET,
        Method::POST => b is POST,
        Method::PUT => b is PUT,
        Method::DELETE => b is DELETE,
        Method::Other(x) => b matches Method::Other(y) && x@ == y@,
    }
}

impl PartialEq for Method {
    fn eq(&self, other: &Self) -> (r: bool)
        ensures
            r == same_method(*self, *other),
    {
        match self {
            Method::GET => match other {
                Method::GET => true,
                _ => false,
            },
            Method::POST => match other {
                Method::POST => true,
                _ => false,
            },
            Method::PUT => match other {
                Method::PUT => true,
                _ => false,
            },
            Method::DELETE => match other {
                Method::DELETE => true,
                _ => false,
            },
            Method::Other(x) => match other {
                Method::Other(y) => x.eq(y),
                _ => false,
            },
        }
    }
}

impl Eq for Method {

}

impl vstd::std_specs::cmp::PartialEqSpecImpl for Method {
    open spec fn obeys_eq_spec() -> bool {
        true
    }

    open spec fn eq_spec(&self, other: &Self) -> bool {
        same_method(*self, *other)
    }
}

/// `GET`, `POST`, `PUT` and `DELETE` as bytes.
pub open spec fn get_token() -> Seq<u8> {
    seq![71u8, 69, 84]
}

pub open spec fn post_token() -> Seq<u8> {
    seq![80u8, 79, 83, 84]
}

pub open spec fn put_token() -> Seq<u8> {
    seq![80u8, 85, 84]
}

pub open spec fn delete_token() -> Seq<u8> {
    seq![68u8, 69, 76, 69, 84, 69]
}

/// The method that a request-line token names.
pub open spec fn method_for(token: Seq<u8>, text: Seq<char>, m: Method) -> bool {
    if token == get_token() {
        m == Method::GET
    } else if token == post_token() {
        m == Method::POST
    } else if token == put_token() {
        m == Method::PUT
    } else if token == delete_token() {
        m == Method::DELETE
    } else {
        m matches Method::Other(o) && o@ == text
    }
}

impl Method {
    /// The method named by `s`; an unknown token is kept in `Other`.
    pub fn from(s: &str) -> (r: Method)
        ensures
            method_for(s.spec_bytes(), s@, r),
    {
        let b = s.as_bytes();
        if bytes_eq(b, &[71u8, 69, 84]) {
            Method::GET
        } else if bytes_eq(b, &[80u8, 79, 83, 84]) {
            Method::POST
        } else if bytes_eq(b, &[80u8, 85, 84]) {
            Method::PUT
        } else if bytes_eq(b, &[68u8, 69, 76, 69, 84, 69]) {
            Method::DELETE
        } else {
            Method::Other(s.to_owned())
        }
    }

    /// The method's name; `OTHER` for any other token.
    pub fn to_str(&self) -> (r: &str)
        ensures
            r@ == method_name(*self),
    {
        proof {
            reveal_strlit("GET");
            reveal_strlit("POST");
            reveal_strlit("PUT");
            reveal_strlit("DELETE");
            reveal_strlit("OTHER");
        }
        match self {
            Method::GET => "GET",
            Method::POST => "POST",
            Method::PUT => "PUT",
            Method::DELETE => "DELETE",
            Method::Other(_) => "OTHER",
        }
    }
}

pub open spec fn method_name(m: Method) -> Seq<char> {
    match m {
        Method::GET => seq!['G', 'E', 'T'],
        Method::POST => seq!['P', 'O', 'S', 'T'],
        Method::PUT => seq!['P', 'U', 'T'],
        Method::DELETE => seq!['D', 'E', 'L', 'E', 'T', 'E'],
        Method::Other(_) => seq!['O', 'T', 'H', 'E', 'R'],
    }
}

/// Protocol version of a request; informational only.
#[derive(Debug, Clone, Copy, PartialEq, Eq, Structural)]
pub enum Version {
    Http10,
    Http11,
    Http2,
    Http3,
    Other,
}

/// `HTTP/1.0` and its siblings as bytes.
pub open spec fn version_token(major: u8, minor: Option<u8>) -> Seq<u8> {
    match minor {
        Some(m) => seq![72u8, 84, 84, 80, 47, major, 46, m],
        None => seq![72u8, 84, 84, 80, 47, major],
    }
}

/// The version that a request-line token names.
pub open spec fn version_of(token: Seq<u8>) -> Version {
    if token == version_token(49, Some(48u8)) {
        Version::Http10
    } else if token == version_token(49, Some(49u8)) {
        Version::Http11
    } else if token == version_token(50, Some(48u8)) || token == version_token(50, None) {
        Version::Http2
    } else if token == version_token(51, Some(48u8)) || token == version_token(51, None) {
        Version::Http3
    } else {
        Version::Other
    }
}

pub open spec fn version_name(v: Version) -> Seq<char> {
    match v {
        Version::Http10 => seq!['H', 'T', 'T', 'P', '/', '1', '.', '0'],
        Version::Http11 => seq!['H', 'T', 'T', 'P', '/', '1', '.', '1'],
        Version::Http2 => seq!['H', 'T', 'T', 'P', '/', '2', '.', '0'],
        Version::Http3 => seq!['H', 'T', 'T', 'P', '/', '3', '.', '0'],
        Version::Other => seq!['O', 'T', 'H', 'E', 'R'],
    }
}

impl Version {
    /// The version named by `s`.
    pub fn from(s: &str) -> (r: Version)
        ensures
            r == version_of(s.spec_bytes()),
    {
        let b = s.as_bytes();
        if bytes_eq(b, &[72u8, 84, 84, 80, 47, 49, 46, 48]) {
            Version::Http10
        } else if bytes_eq(b, &[72u8, 84, 84, 80, 47, 49, 46, 49]) {
            Version::Http11
        } else if bytes_eq(b, &[72u8, 84, 84, 80, 47, 50, 46, 48]) || bytes_eq(
            b,
            &[72u8, 84, 84, 80, 47, 50],
        ) {
            Version::Http2
        } else if bytes_eq(b, &[72u8, 84, 84, 80, 47, 51, 46, 48]) || bytes_eq(
            b,
            &[72u8, 84, 84, 80, 47, 51],
        ) {
            Version::Http3
        } else {
            Version::Other
        }
    }

    /// The version's name as it appears on a request line.
    pub fn to_str(&self) -> (r: &str)
        ensures
            r@ == version_name(*self),
    {
        proof {
            reveal_strlit("HTTP/1.0");
            reveal_strlit("HTTP/1.1");
            reveal_strlit("HTTP/2.0");
            reveal_strlit("HTTP/3.0");
            reveal_strlit("OTHER");
        }
        match self {
            Version::Http10 => "HTTP/1.0",
            Version::Http11 => "HTTP/1.1",
            Version::Http2 => "HTTP/2.0",
            Version::Http3 => "HTTP/3.0",
            Version::Other => "OTHER",
        }
    }
}

/// Response status.
#[derive(Debug, Clone, Copy, PartialEq, Eq, Structural)]
pub enum StatusCode {
    OK,
    NotFound,
    InternalServerError,
    BadRequest,
    Forbidden,
    Custom(u16),
}

pub open spec fn status_number(s: StatusCode) -> u16 {
    match s {
        StatusCode::OK => 200,
        StatusCode::NotFound => 404,
        StatusCode::InternalServerError => 500,
        StatusCode::BadRequest => 400,
        StatusCode::Forbidden => 403,
        StatusCode::Custom(c) => c,
    }
}

pub open spec fn status_reason(s: StatusCode) -> Seq<char> {
    match s {
        StatusCode::OK => seq!['O', 'K'],
        StatusCode::NotFound => seq!['N', 'o', 't', ' ', 'F', 'o', 'u', 'n', 'd'],
        StatusCode::InternalServerError => seq![
            'I',
            'n',
            't',
            'e',
            'r',
            'n',
            'a',
            'l',
            ' ',
            'S',
            'e',
            'r',
            'v',
            'e',
            'r',
            ' ',
            'E',
            'r',
            'r',
            'o',
            'r',
        ],
        StatusCode::BadRequest => seq!['B', 'a', 'd', ' ', 'R', 'e', 'q', 'u', 'e', 's', 't'],
        StatusCode::Forbidden => seq!['F', 'o', 'r', 'b', 'i', 'd', 'd', 'e', 'n'],
        StatusCode::Custom(_) => seq!['C', 'u', 's', 't', 'o', 'm', ' ', 'C', 'o', 'd', 'e'],
    }
}

impl StatusCode {
    /// The numeric code.
    pub fn as_u16(&self) -> (r: u16)
        ensures
            r == status_number(*self),
    {
        match self {
            StatusCode::OK => 200,
            StatusCode::NotFound => 404,
            StatusCode::InternalServerError => 500,
            StatusCode::BadRequest => 400,
            StatusCode::Forbidden => 403,
            StatusCode::Custom(c) => *c,
        }
    }

    /// The reason phrase of the status line.
    pub fn reason(&self) -> (r: &'static str)
        ensures
            r@ == status_reason(*self),
    {
        proof {
            reveal_strlit("OK");
            reveal_strlit("Not Found");
            reveal_strlit("Internal Server Error");
            reveal_strlit("Bad Request");
            reveal_strlit("Forbidden");
            reveal_strlit("Custom Code");
        }
        match self {
            StatusCode::OK => "OK",
            StatusCode::NotFound => "Not Found",
            StatusCode::InternalServerError => "Internal Server Error",
            StatusCode::BadRequest => "Bad Request",
            StatusCode::Forbidden => "Forbidden",
            StatusCode::Custom(_) => "Custom Code",
        }
    }
}

/// Header or parameter entries as text pairs, in insertion order.
pub type Entries = Seq<(Seq<char>, Seq<char>)>;

/// Index of the first entry with key `k`, or the number of entries when there is none.
pub open spec fn key_index(v: Entries, k: Seq<char>) -> int
    decreases v.len(),
{
    if v.len() == 0 {
        0
    } else if v[0].0 == k {
        0
    } else {
        1 + key_index(v.drop_first(), k)
    }
}

/// The value stored under `k`.
pub open spec fn lookup(v: Entries, k: Seq<char>) -> Option<Seq<char>> {
    let i = key_index(v, k);
    if 0 <= i < v.len() {
        Some(v[i].1)
    } else {
        None
    }
}

/// The entries after storing `val` under `k`: an existing key keeps its place.
pub open spec fn insert_entry(v: Entries, k: Seq<char>, val: Seq<char>) -> Entries {
    let i = key_index(v, k);
    if 0 <= i < v.len() {
        v.update(i, (k, val))
    } else {
        v.push((k, val))
    }
}

/// Two entry lists map the same keys to the same values.
pub open spec fn same_entries(a: Entries, b: Entries) -> bool {
    forall|k: Seq<char>| lookup(a, k) == lookup(b, k)
}

pub proof fn lemma_key_index(v: Entries, k: Seq<char>, n: int)
    requires
        0 <= n <= v.len(),
        forall|j: int| 0 <= j < n ==> v[j].0 != k,
        n == v.len() || v[n].0 == k,
    ensures
        key_index(v, k) == n,
    decreases n,
{
    if n > 0 {
        lemma_key_index(v.drop_first(), k, n - 1);
    }
}

pub proof fn lemma_key_index_bounds(v: Entries, k: Seq<char>)
    ensures
        0 <= key_index(v, k) <= v.len(),
        key_index(v, k) < v.len() ==> v[key_index(v, k)].0 == k,
        forall|j: int| 0 <= j < key_index(v, k) ==> v[j].0 != k,
    decreases v.len(),
{
    if v.len() > 0 && v[0].0 != k {
        lemma_key_index_bounds(v.drop_first(), k);
        assert forall|j: int| 0 <= j < key_index(v, k) implies v[j].0 != k by {
            if j > 0 {
                assert(v[j] == v.drop_first()[j - 1]);
            }
        }
    }
}

/// No key occurs twice.
pub open spec fn keys_unique(v: Entries) -> bool {
    forall|i: int, j: int| 0 <= i < j < v.len() ==> v[i].0 != v[j].0
}

/// Storing a value keeps the keys unique.
pub proof fn lemma_insert_keeps_keys_unique(v: Entries, k: Seq<char>, val: Seq<char>)
    requires
        keys_unique(v),
    ensures
        keys_unique(insert_entry(v, k, val)),
{
    lemma_key_index_bounds(v, k);
    let w = insert_entry(v, k, val);
    assert forall|i: int, j: int| 0 <= i < j < w.len() implies w[i].0 != w[j].0 by {
        if key_index(v, k) >= v.len() && j == v.len() {
            assert(w[j].0 == k);
            assert(w[i] == v[i]);
        }
    }
}

/// A map from text keys to text values (header names to values, parameter names to
/// captured segments). Keys are unique; lookups are exact. Entries keep their insertion
/// order, so a serialized head is the same on every run.
#[derive(Debug, Clone)]
pub struct HeaderMap {
    entries: Vec<(String, String)>,
}

/// Path parameters captured by the router.
pub type ParamMap = HeaderMap;

pub open spec fn entry_view(e: (String, String)) -> (Seq<char>, Seq<char>) {
    (e.0@, e.1@)
}

impl View for HeaderMap {
    type V = Entries;

    closed spec fn view(&self) -> Entries {
        self.entries@.map_values(|e: (String, String)| entry_view(e))
    }
}

impl HeaderMap {
    pub fn new() -> (r: Self)
        ensures
            r@ == Seq::<(Seq<char>, Seq<char>)>::empty(),
            keys_unique(r@),
    {
        let r = HeaderMap { entries: Vec::new() };
        assert(r@ =~= Seq::<(Seq<char>, Seq<char>)>::empty());
        r
    }

    /// The entries, in insertion order.
    pub fn entries(&self) -> (r: &Vec<(String, String)>)
        ensures
            r@.map_values(|e: (String, String)| entry_view(e)) == self@,
    {
        &self.entries
    }

    pub fn len(&self) -> (r: usize)
        ensures
            r == self@.len(),
    {
        self.entries.len()
    }

    fn position(&self, key: &str) -> (r: usize)
        ensures
            r == key_index(self@, key@),
            r <= self@.len(),
    {
        let mut i: usize = 0;
        while i < self.entries.len()
            invariant
                i <= self@.len(),
                self@.len() == self.entries@.len(),
                forall|j: int| 0 <= j < i ==> self@[j].0 != key@,
            decreases self.entries.len() - i,
        {
            assert(self@[i as int] == entry_view(self.entries@[i as int]));
            if str_eq(self.entries[i].0.as_str(), key) {
                proof {
                    lemma_key_index(self@, key@, i as int);
                }
                return i;
            }
            i += 1;
        }
        proof {
            lemma_key_index(self@, key@, i as int);
        }
        i
    }

    /// The value stored under `key`.
    pub fn get(&self, key: &str) -> (r: Option<&String>)
        ensures
            r matches Some(v) ==> lookup(self@, key@) == Some(v@),
            r is None ==> lookup(self@, key@) is None,
    {
        let i = self.position(key);
        if i < self.entries.len() {
            assert(self@[i as int] == entry_view(self.entries@[i as int]));
            Some(&self.entries[i].1)
        } else {
            None
        }
    }

    /// Stores `value` under `key`, replacing the value of an existing key in place.
    pub fn insert(&mut self, key: String, value: String)
        ensures
            final(self)@ == insert_entry(old(self)@, key@, value@),
            keys_unique(old(self)@) ==> keys_unique(final(self)@),
    {
        proof {
            if keys_unique(self@) {
                lemma_insert_keeps_keys_unique(self@, key@, value@);
            }
        }
        let i = self.position(key.as_str());
        if i < self.entries.len() {
            self.entries.set(i, (key, value));
        } else {
            self.entries.push((key, value));
        }
        assert(self@ =~= insert_entry(old(self)@, key@, value@));
    }

    /// The two maps hold the same keys with the same values.
    pub fn same_as(&self, other: &HeaderMap) -> (r: bool)
        ensures
            r == same_entries(self@, other@),
    {
        let mut i: usize = 0;
        while i < self.entries.len()
            invariant
                i <= self@.len(),
                self@.len() == self.entries@.len(),
                forall|j: int| 0 <= j < i ==> lookup(self@, #[trigger] self@[j].0) == lookup(other@, self@[j].0),
            decreases self.entries.len() - i,
        {
            assert(self@[i as int] == entry_view(self.entries@[i as int]));
            let k = self.entries[i].0.as_str();
            let a = self.get(k);
            let b = other.get(k);
            let same = match (a, b) {
                (Some(x), Some(y)) => x.eq(y),
                (None, None) => true,
                _ => false,
            };
            if !same {
                return false;
            }
            i += 1;
        }
        let mut j: usize = 0;
        while j < other.entries.len()
            invariant
                j <= other@.len(),
                other@.len() == other.entries@.len(),
                forall|m: int| 0 <= m < j ==> lookup(self@, #[trigger] other@[m].0) == lookup(other@, other@[m].0),
            decreases other.entries.len() - j,
        {
            assert(other@[j as int] == entry_view(other.entries@[j as int]));
            let k = other.entries[j].0.as_str();
            let a = self.get(k);
            let b = other.get(k);
            let same = match (a, b) {
                (Some(x), Some(y)) => x.eq(y),
                (None, None) => true,
                _ => false,
            };
            if !same {
                return false;
            }
            j += 1;
        }
        assert forall|k: Seq<char>| lookup(self@, k) == lookup(other@, k) by {
            lemma_key_index_bounds(self@, k);
            lemma_key_index_bounds(other@, k);
            if key_index(self@, k) < self@.len() {
                assert(self@[key_index(self@, k)].0 == k);
            } else if key_index(other@, k) < other@.len() {
                assert(other@[key_index(other@, k)].0 == k);
            }
        }
        true
    }
}

/// A parsed request. A declared body is either fixed (`body`) or chunked (`stream`),
/// never both.
#[derive(Debug)]
pub struct Request {
    pub method: Method,
    pub path: String,
    pub version: Version,
    pub headers: HeaderMap,
    pub body: Option<Vec<u8>>,
    pub remote_addr: String,
    pub params: ParamMap,
    pub stream: Option<StreamReader>,
}

impl Default for Request {
    fn default() -> (r: Self)
        ensures
            r.method == Method::GET,
            r.path@ == Seq::<char>::empty(),
            r.version == Version::Http10,
            r.headers@.len() == 0,
            r.body is None,
            r.remote_addr@ == Seq::<char>::empty(),
            r.params@.len() == 0,
            r.stream is None,
    {
        Request {
            method: Method::GET,
            path: String::new(),
            version: Version::Http10,
            headers: HeaderMap::new(),
            body: None,
            remote_addr: String::new(),
            params: HeaderMap::new(),
            stream: None,
        }
    }
}

/// A response. `body` and `stream` are exclusive; with neither the body is empty.
#[derive(Debug)]
pub struct Response {
    pub status_code: StatusCode,
    pub headers: Option<HeaderMap>,
    pub body: Option<Vec<u8>>,
    pub stream: Option<StreamWriter>,
}

pub open spec fn body_view(b: Option<Vec<u8>>) -> Option<Seq<u8>> {
    match b {
        Some(v) => Some(v@),
        None => None,
    }
}

pub open spec fn headers_view(h: Option<HeaderMap>) -> Option<Entries> {
    match h {
        Some(m) => Some(m@),
        None => None,
    }
}

/// Equality of optional header maps as maps.
pub open spec fn same_headers(a: Option<HeaderMap>, b: Option<HeaderMap>) -> bool {
    match (headers_view(a), headers_view(b)) {
        (Some(x), Some(y)) => same_entries(x, y),
        (None, None) => true,
        _ => false,
    }
}

/// Two responses are equal when status, headers and fixed body agree; a stream is not
/// compared.
pub open spec fn same_response(a: Response, b: Response) -> bool {
    a.status_code == b.status_code && same_headers(a.headers, b.headers) && body_view(a.body)
        == body_view(b.body)
}

impl PartialEq for Response {
    fn eq(&self, other: &Self) -> (r: bool)
        ensures
            r == same_response(*self, *other),
    {
        if self.status_code != other.status_code {
            return false;
        }
        let headers_equal = match (&self.headers, &other.headers) {
            (Some(a), Some(b)) => a.same_as(b),
            (None, None) => true,
            _ => false,
        };
        if !headers_equal {
            return false;
        }
        match (&self.body, &other.body) {
            (Some(a), Some(b)) => bytes_eq(a.as_slice(), b.as_slice()),
            (None, None) => true,
            _ => false,
        }
    }
}

impl vstd::std_specs::cmp::PartialEqSpecImpl for Response {
    open spec fn obeys_eq_spec() -> bool {
        true
    }

    open spec fn eq_spec(&self, other: &Self) -> bool {
        same_response(*self, *other)
    }
}

/// `404 Not Found` as bytes.
pub open spec fn not_found_body() -> Seq<u8> {
    seq![52u8, 48, 52, 32, 78, 111, 116, 32, 70, 111, 117, 110, 100]
}

impl Response {
    /// A response with `status_code` and nothing else.
    pub fn new(status_code: StatusCode) -> (r: Self)
        ensures
            r.status_code == status_code,
            r.headers is None,
            r.body is None,
            r.stream is None,
    {
        Response { status_code, headers: None, body: None, stream: None }
    }

    /// Sets the fixed body.
    pub fn body(&mut self, body: &[u8])
        ensures
            body_view(final(self).body) == Some(body@),
            final(self).status_code == old(self).status_code,
            final(self).headers == old(self).headers,
            final(self).stream == old(self).stream,
    {
        let mut v: Vec<u8> = Vec::new();
        push_all(&mut v, body);
        self.body = Some(v);
    }

    /// `200 OK` with `body` and no headers.
    pub fn ok(body: &[u8]) -> (r: Self)
        ensures
            r.status_code == StatusCode::OK,
            r.headers is None,
            body_view(r.body) == Some(body@),
            r.stream is None,
    {
        let mut v: Vec<u8> = Vec::new();
        push_all(&mut v, body);
        Response { status_code: StatusCode::OK, headers: None, body: Some(v), stream: None }
    }

    /// `404 Not Found` with the body `404 Not Found`.
    pub fn not_found() -> (r: Self)
        ensures
            r.status_code == StatusCode::NotFound,
            r.headers is None,
            body_view(r.body) == Some(not_found_body()),
            r.stream is None,
    {
        let mut v: Vec<u8> = Vec::new();
        push_all(&mut v, &[52u8, 48, 52, 32, 78, 111, 116, 32, 70, 111, 117, 110, 100]);
        assert(v@ =~= not_found_body());
        Response { status_code: StatusCode::NotFound, headers: None, body: Some(v), stream: None }
    }

    /// `500 Internal Server Error` with no body.
    pub fn error() -> (r: Self)
        ensures
            r.status_code == StatusCode::InternalServerError,
            r.headers is None,
            r.body is None,
            r.stream is None,
    {
        Response {
            status_code: StatusCode::InternalServerError,
            headers: None,
            body: None,
            stream: None,
        }
    }

    /// Adds the header `key: value`, creating the header map if there is none.
    pub fn header(self, key: &str, value: &str) -> (r: Self)
        ensures
            headers_view(r.headers) == Some(
                insert_entry(
                    match headers_view(self.headers) {
                        Some(h) => h,
                        None => Seq::empty(),
                    },
                    key@,
                    value@,
                ),
            ),
            r.status_code == self.status_code,
            r.body == self.body,
            r.stream == self.stream,
    {
        let Response { status_code, headers, body, stream } = self;
        let mut map = match headers {
            Some(h) => h,
            None => HeaderMap::new(),
        };
        map.insert(key.to_owned(), value.to_owned());
        Response { status_code, headers: Some(map), body, stream }
    }

    /// Replaces the header map.
    pub fn headermap(self, headers: HeaderMap) -> (r: Self)
        ensures
            r.headers == Some(headers),
            r.status_code == self.status_code,
            r.body == self.body,
            r.stream == self.stream,
    {
        let Response { status_code, headers: _, body, stream } = self;
        Response { status_code, headers: Some(headers), body, stream }
    }

    /// A streamed response: `Transfer-Encoding: chunked` and the encoder `stream`.
    pub fn stream(status_code: StatusCode, stream: StreamWriter) -> (r: Self)
        ensures
            r.status_code == status_code,
            headers_view(r.headers) == Some(
                seq![(transfer_encoding_name(), chunked_name())],
            ),
            r.body is None,
            r.stream == Some(stream),
    {
        let mut map = HeaderMap::new();
        proof {
            reveal_strlit("Transfer-Encoding");
            reveal_strlit("chunked");
        }
        let k = "Transfer-Encoding".to_owned();
        let v = "chunked".to_owned();
        assert(k@ =~= transfer_encoding_name());
        assert(v@ =~= chunked_name());
        map.insert(k, v);
        assert(key_index(Seq::<(Seq<char>, Seq<char>)>::empty(), transfer_encoding_name()) == 0);
        assert(map@ =~= seq![(transfer_encoding_name(), chunked_name())]);
        Response { status_code, headers: Some(map), body: None, stream: Some(stream) }
    }
}

pub open spec fn transfer_encoding_name() -> Seq<char> {
    seq!['T', 'r', 'a', 'n', 's', 'f', 'e', 'r', '-', 'E', 'n', 'c', 'o', 'd', 'i', 'n', 'g']
}

pub open spec fn chunked_name() -> Seq<char> {
    seq!['c', 'h', 'u', 'n', 'k', 'e', 'd']
}

} // verus!
