//! Request handling around the index: reading a request's method, route and
//! body out of its text, and answering it from the index.
use vstd::prelude::*;
use crate::indexer::{Indexer, rank, are_hits, is_ranking};
use crate::similarity::Score;
use crate::terms::MAX_TEXT_CHARS;
use vstd::string::StringExecFns;

verus! {

/// The request methods the server knows.
#[derive(Clone, Copy, Debug, PartialEq, Eq, Structural)]
pub enum HTTP {
    Get,
    Post,
    Put,
    Delete,
}

/// Why a request is refused.
#[derive(Clone, Copy, Debug, PartialEq, Eq, Structural)]
pub enum HTTPError {
    NotFound,
    MethodNotAllowed,
}

impl HTTPError {
    /// The status code that reports this error.
    pub fn code(&self) -> (r: u16)
        ensures
            r == (match self {
                HTTPError::NotFound => 404u16,
                HTTPError::MethodNotAllowed => 405u16,
            }),
    {
        match self {
            HTTPError::NotFound => 404,
            HTTPError::MethodNotAllowed => 405,
        }
    }
}

/// A request: its method and its body text.
pub struct Request {
    pub method: HTTP,
    pub body: String,
}

/// Whether `c` is white space in Unicode's sense (the `White_Space` property).
pub open spec fn is_white(c: char) -> bool {
    let v = c as u32;
    (9 <= v <= 13) || v == 32 || v == 0x85 || v == 0xa0 || v == 0x1680 || (0x2000 <= v <= 0x200a)
        || v == 0x2028 || v == 0x2029 || v == 0x202f || v == 0x205f || v == 0x3000
}

fn white(c: char) -> (r: bool)
    ensures
        r == is_white(c),
{
    let v = c as u32;
    (9 <= v && v <= 13) || v == 32 || v == 0x85 || v == 0xa0 || v == 0x1680 || (0x2000 <= v && v
        <= 0x200a) || v == 0x2028 || v == 0x2029 || v == 0x202f || v == 0x205f || v == 0x3000
}

/// A blank line, `"\r\n\r\n"`, starts at `i`: it ends the head of a request.
pub open spec fn separator_at(s: Seq<char>, i: int) -> bool {
    &&& 0 <= i
    &&& i + 4 <= s.len()
    &&& s[i] == '\r'
    &&& s[i + 1] == '\n'
    &&& s[i + 2] == '\r'
    &&& s[i + 3] == '\n'
}

/// The first position from `from` on where a separator starts, or `s.len()`.
pub open spec fn next_separator(s: Seq<char>, from: int) -> int
    decreases s.len() - from,
{
    if from >= s.len() {
        s.len() as int
    } else if separator_at(s, from) {
        from
    } else {
        next_separator(s, from + 1)
    }
}

/// The first position in `from..end` that holds `c`, or `end`.
pub open spec fn next_char(s: Seq<char>, from: int, end: int, c: char) -> int
    decreases end - from,
{
    if from >= end {
        end
    } else if s[from] == c {
        from
    } else {
        next_char(s, from + 1, end, c)
    }
}

/// The first position in `from..end` that holds white space, or `end`.
pub open spec fn next_white(s: Seq<char>, from: int, end: int) -> int
    decreases end - from,
{
    if from >= end {
        end
    } else if is_white(s[from]) {
        from
    } else {
        next_white(s, from + 1, end)
    }
}

/// The first position in `from..end` that holds anything but white space, or `end`.
pub open spec fn next_non_white(s: Seq<char>, from: int, end: int) -> int
    decreases end - from,
{
    if from >= end {
        end
    } else if !is_white(s[from]) {
        from
    } else {
        next_non_white(s, from + 1, end)
    }
}

/// The first position in `from..end` that is not a NUL character, or `end`.
pub open spec fn skip_nul(s: Seq<char>, from: int, end: int) -> int
    decreases end - from,
{
    if from >= end {
        end
    } else if s[from] != '\0' {
        from
    } else {
        skip_nul(s, from + 1, end)
    }
}

/// The end of `from..end` once trailing NUL characters are cut off.
pub open spec fn cut_nul(s: Seq<char>, from: int, end: int) -> int
    decreases end - from,
{
    if end <= from {
        from
    } else if s[end - 1] != '\0' {
        end
    } else {
        cut_nul(s, from, end - 1)
    }
}

/// Where the head of request `s` ends: at its first separator.
pub open spec fn head_end(s: Seq<char>) -> int {
    next_separator(s, 0)
}

/// The request has a separator, and its head holds a word.
pub open spec fn is_framed(s: Seq<char>) -> bool {
    head_end(s) < s.len() && next_non_white(s, 0, head_end(s)) < head_end(s)
}

/// The first white-space-separated word of the head.
pub open spec fn method_word(s: Seq<char>) -> Seq<char> {
    let h = head_end(s);
    let a = next_non_white(s, 0, h);
    s.subrange(a, next_white(s, a, h))
}

/// The method that a word names.
pub open spec fn method_named(w: Seq<char>) -> Option<HTTP> {
    if w == seq!['G', 'E', 'T'] {
        Some(HTTP::Get)
    } else if w == seq!['P', 'O', 'S', 'T'] {
        Some(HTTP::Post)
    } else if w == seq!['P', 'U', 'T'] {
        Some(HTTP::Put)
    } else if w == seq!['D', 'E', 'L', 'E', 'T', 'E'] {
        Some(HTTP::Delete)
    } else {
        None
    }
}

/// The head names a route other than `/`: the text between its first space
/// and the next one (or the end of the head) is not `/`.
pub open spec fn has_route(s: Seq<char>) -> bool {
    let h = head_end(s);
    let i = next_char(s, 0, h, ' ');
    i < h && s.subrange(i + 1, next_char(s, i + 1, h, ' ')) != seq!['/']
}

/// The body: the text after the head up to the next separator, without
/// leading or trailing NUL characters.
pub open spec fn body_text(s: Seq<char>) -> Seq<char> {
    let a = head_end(s) + 4;
    let b = next_separator(s, a);
    let from = skip_nul(s, a, b);
    s.subrange(from, cut_nul(s, from, b))
}

/// What a framed request asks for, or why it is refused.
pub open spec fn parsed(s: Seq<char>) -> Result<(HTTP, Seq<char>), HTTPError> {
    if has_route(s) {
        Err(HTTPError::NotFound)
    } else {
        match method_named(method_word(s)) {
            Some(m) => Ok((m, body_text(s))),
            None => Err(HTTPError::MethodNotAllowed),
        }
    }
}

fn chars_of(text: &str) -> (r: Vec<char>)
    ensures
        r@ == text@,
{
    let mut r: Vec<char> = Vec::new();
    for c in it: text.chars()
        invariant
            it.seq() == text@,
            r@ == text@.take(it.index() as int),
    {
        r.push(c);
        proof {
            assert(text@.take(it.index() + 1) =~= r@);
        }
    }
    proof {
        assert(text@.take(text@.len() as int) =~= text@);
    }
    r
}

fn find_separator(s: &Vec<char>, from: usize) -> (r: usize)
    requires
        from <= s@.len(),
    ensures
        r == next_separator(s@, from as int),
{
    let mut i = from;
    while i < s.len() && !(s.len() - i >= 4 && s[i] == '\r' && s[i + 1] == '\n' && s[i + 2] == '\r' && s[i + 3] == '\n')
        invariant
            from <= i <= s@.len(),
            next_separator(s@, from as int) == next_separator(s@, i as int),
        decreases s@.len() - i,
    {
        i = i + 1;
    }
    i
}

fn find_char(s: &Vec<char>, from: usize, end: usize, c: char) -> (r: usize)
    requires
        from <= end <= s@.len(),
    ensures
        r == next_char(s@, from as int, end as int, c),
        from <= r <= end,
{
    let mut i = from;
    while i < end && s[i] != c
        invariant
            from <= i <= end,
            end <= s@.len(),
            next_char(s@, from as int, end as int, c) == next_char(s@, i as int, end as int, c),
        decreases end - i,
    {
        i = i + 1;
    }
    i
}

fn find_white(s: &Vec<char>, from: usize, end: usize) -> (r: usize)
    requires
        from <= end <= s@.len(),
    ensures
        r == next_white(s@, from as int, end as int),
        from <= r <= end,
{
    let mut i = from;
    while i < end && !white(s[i])
        invariant
            from <= i <= end,
            end <= s@.len(),
            next_white(s@, from as int, end as int) == next_white(s@, i as int, end as int),
        decreases end - i,
    {
        i = i + 1;
    }
    i
}

fn find_non_white(s: &Vec<char>, from: usize, end: usize) -> (r: usize)
    requires
        from <= end <= s@.len(),
    ensures
        r == next_non_white(s@, from as int, end as int),
        from <= r <= end,
{
    let mut i = from;
    while i < end && white(s[i])
        invariant
            from <= i <= end,
            end <= s@.len(),
            next_non_white(s@, from as int, end as int) == next_non_white(s@, i as int, end as int),
        decreases end - i,
    {
        i = i + 1;
    }
    i
}

fn find_non_nul(s: &Vec<char>, from: usize, end: usize) -> (r: usize)
    requires
        from <= end <= s@.len(),
    ensures
        r == skip_nul(s@, from as int, end as int),
        from <= r <= end,
{
    let mut i = from;
    while i < end && s[i] == '\0'
        invariant
            from <= i <= end,
            end <= s@.len(),
            skip_nul(s@, from as int, end as int) == skip_nul(s@, i as int, end as int),
        decreases end - i,
    {
        i = i + 1;
    }
    i
}

fn trim_nul_end(s: &Vec<char>, from: usize, end: usize) -> (r: usize)
    requires
        from <= end <= s@.len(),
    ensures
        r == cut_nul(s@, from as int, end as int),
        from <= r <= end,
{
    let mut j = end;
    while from < j && s[j - 1] == '\0'
        invariant
            from <= j <= end,
            end <= s@.len(),
            cut_nul(s@, from as int, end as int) == cut_nul(s@, from as int, j as int),
        decreases j - from,
    {
        j = j - 1;
    }
    j
}


proof fn lemma_next_separator(s: Seq<char>, from: int)
    requires
        0 <= from <= s.len(),
    ensures
        from <= next_separator(s, from) <= s.len(),
        next_separator(s, from) < s.len() ==> separator_at(s, next_separator(s, from)),
    decreases s.len() - from,
{
    if from < s.len() && !separator_at(s, from) {
        lemma_next_separator(s, from + 1);
    }
}

fn method_in(s: &Vec<char>, a: usize, b: usize) -> (r: Option<HTTP>)
    requires
        a <= b <= s@.len(),
    ensures
        r == method_named(s@.subrange(a as int, b as int)),
{
    let ghost w = s@.subrange(a as int, b as int);
    let n = b - a;
    if n == 3 && s[a] == 'G' && s[a + 1] == 'E' && s[a + 2] == 'T' {
        assert(w =~= seq!['G', 'E', 'T']);
        return Some(HTTP::Get);
    }
    if n == 4 && s[a] == 'P' && s[a + 1] == 'O' && s[a + 2] == 'S' && s[a + 3] == 'T' {
        assert(w =~= seq!['P', 'O', 'S', 'T']);
        assert(w != seq!['G', 'E', 'T']);
        return Some(HTTP::Post);
    }
    if n == 3 && s[a] == 'P' && s[a + 1] == 'U' && s[a + 2] == 'T' {
        assert(w =~= seq!['P', 'U', 'T']);
        assert(w[0] != seq!['G', 'E', 'T'][0]);
        assert(w.len() != seq!['P', 'O', 'S', 'T'].len());
        return Some(HTTP::Put);
    }
    if n == 6 && s[a] == 'D' && s[a + 1] == 'E' && s[a + 2] == 'L' && s[a + 3] == 'E' && s[a + 4] == 'T'
        && s[a + 5] == 'E' {
        assert(w =~= seq!['D', 'E', 'L', 'E', 'T', 'E']);
        assert(w.len() != seq!['G', 'E', 'T'].len());
        assert(w.len() != seq!['P', 'O', 'S', 'T'].len());
        assert(w.len() != seq!['P', 'U', 'T'].len());
        return Some(HTTP::Delete);
    }
    proof {
        let g = seq!['G', 'E', 'T'];
        let po = seq!['P', 'O', 'S', 'T'];
        let pu = seq!['P', 'U', 'T'];
        let d = seq!['D', 'E', 'L', 'E', 'T', 'E'];
        assert(g[0] == 'G' && g[1] == 'E' && g[2] == 'T' && g.len() == 3);
        assert(po[0] == 'P' && po[1] == 'O' && po[2] == 'S' && po[3] == 'T' && po.len() == 4);
        assert(pu[0] == 'P' && pu[1] == 'U' && pu[2] == 'T' && pu.len() == 3);
        assert(d[0] == 'D' && d[1] == 'E' && d[2] == 'L' && d[3] == 'E' && d[4] == 'T' && d[5] == 'E' && d.len() == 6);
        assert(forall|k: int| 0 <= k < w.len() ==> w[k] == s@[a + k]);
        if w == g {
            assert(w[0] == s@[a as int] && w[1] == s@[a + 1] && w[2] == s@[a + 2]);
        }
        if w == po {
            assert(w[0] == s@[a as int] && w[1] == s@[a + 1] && w[2] == s@[a + 2] && w[3] == s@[a + 3]);
        }
        if w == pu {
            assert(w[0] == s@[a as int] && w[1] == s@[a + 1] && w[2] == s@[a + 2]);
        }
        if w == d {
            assert(w[0] == s@[a as int] && w[1] == s@[a + 1] && w[2] == s@[a + 2] && w[3] == s@[a + 3]);
            assert(w[4] == s@[a + 4] && w[5] == s@[a + 5]);
        }
    }
    None
}

/// Whether `request` has a separator and a word in its head, which
/// `parse_request` needs.
pub fn is_framed_request(request: &str) -> (r: bool)
    ensures
        r == is_framed(request@),
{
    let s = chars_of(request);
    let h = find_separator(&s, 0);
    if h >= s.len() {
        return false;
    }
    find_non_white(&s, 0, h) < h
}

/// Reads the method, route and body of `request`. A route other than `/`
/// is refused as not found; a method other than GET, POST, PUT and DELETE
/// is refused as not allowed.
///
/// Header lines are not read: nothing answers from them, so the request keeps
/// no header map, and a header line without a colon is accepted as is.
pub fn parse_request(request: &str) -> (r: Result<Request, HTTPError>)
    requires
        is_framed(request@),
    ensures
        match parsed(request@) {
            Ok((m, b)) => r matches Ok(q) && q.method == m && q.body@ == b,
            Err(e) => r matches Err(x) && x == e,
        },
{
    let s = chars_of(request);
    let n = s.len();
    let h = find_separator(&s, 0);
    proof {
        lemma_next_separator(s@, 0);
        assert(head_end(request@) == h);
        assert(separator_at(s@, h as int));
        assert(h + 4 <= n);
    }
    let i = find_char(&s, 0, h, ' ');
    if i < h {
        let j = find_char(&s, i + 1, h, ' ');
        let ghost w = s@.subrange(i + 1, j as int);
        if !(j - i == 2 && s[i + 1] == '/') {
            proof {
                if w == seq!['/'] {
                    assert(w.len() == 1 && w[0] == '/');
                }
            }
            return Err(HTTPError::NotFound);
        }
        assert(w =~= seq!['/']);
    }
    let a = find_non_white(&s, 0, h);
    let e = find_white(&s, a, h);
    match method_in(&s, a, e) {
        None => Err(HTTPError::MethodNotAllowed),
        Some(m) => {
            let b0 = h + 4;
            let b1 = find_separator(&s, b0);
            proof {
                lemma_next_separator(s@, b0 as int);
            }
            let from = find_non_nul(&s, b0, b1);
            let to = trim_nul_end(&s, from, b1);
            let body = request.substring_char(from, to).to_owned();
            Ok(Request { method: m, body })
        },
    }
}


/// How a request was answered.
#[derive(Clone, Copy, Debug, PartialEq, Eq, Structural)]
pub enum Status {
    Success,
    NotFound,
    MethodNotAllowed,
}

/// The answer to a request: its status and, for a search, the matching
/// documents from the most similar to the least.
pub struct Response {
    pub status: Status,
    pub results: Option<Vec<String>>,
}

/// `docs` are the documents of a ranking of the hits of `query` against `store`.
pub open spec fn answers(docs: Seq<String>, query: Seq<char>, store: Seq<Seq<char>>) -> bool {
    exists|hits: Seq<(Score, &String)>, order: Seq<(Score, &String)>|
        {
            &&& are_hits(hits, query, store)
            &&& is_ranking(order, hits)
            &&& docs.len() == order.len()
            &&& forall|i: int| 0 <= i < docs.len() ==> (#[trigger] docs[i])@ == order[i].1@
        }
}

/// A server: the address it listens on and the index it answers from.
pub struct Server {
    addr: (String, u32),
    indexer: Indexer,
}

impl Server {
    pub closed spec fn wf(&self) -> bool {
        self.indexer.wf()
    }

    /// The documents of the server's index.
    pub closed spec fn documents(&self) -> Seq<Seq<char>> {
        self.indexer@
    }

    /// The host and port the server listens on.
    pub closed spec fn address(&self) -> (Seq<char>, u32) {
        (self.addr.0@, self.addr.1)
    }

    pub fn new(addr: (String, u32), indexer: Indexer) -> (r: Server)
        requires
            indexer.wf(),
        ensures
            r.wf(),
            r.documents() == indexer@,
            r.address() == (addr.0@, addr.1),
    {
        Server { addr, indexer }
    }

    /// The host and port the server listens on.
    pub fn addr(&self) -> (r: (&String, u32))
        ensures
            (r.0@, r.1) == self.address(),
    {
        (&self.addr.0, self.addr.1)
    }

    /// The stored documents whose score against `query` is not zero, in the
    /// order they were added, each with its score; empty when there is none.
    pub fn search(&self, query: String) -> (r: Vec<(Score, &String)>)
        requires
            self.wf(),
            query@.len() <= MAX_TEXT_CHARS,
        ensures
            are_hits(r@, query@, self.documents()),
    {
        match self.indexer.search(query) {
            Some(v) => v,
            None => Vec::new(),
        }
    }

    /// Answers a search from its hits: the documents from the highest score
    /// to the lowest, equal scores in the order they were added.
    pub fn answer_search(&self, hits: Vec<(Score, &String)>) -> (r: Response)
        ensures
            r.status == Status::Success,
            r.results matches Some(v) && exists|order: Seq<(Score, &String)>|
                {
                    &&& is_ranking(order, hits@)
                    &&& v@.len() == order.len()
                    &&& forall|i: int| 0 <= i < v@.len() ==> (#[trigger] v@[i])@ == order[i].1@
                },
    {
        let order = rank(hits);
        let mut docs: Vec<String> = Vec::new();
        let mut i: usize = 0;
        while i < order.len()
            invariant
                i <= order@.len(),
                docs@.len() == i,
                forall|k: int| 0 <= k < i ==> (#[trigger] docs@[k])@ == order@[k].1@,
            decreases order@.len() - i,
        {
            docs.push(order[i].1.clone());
            i = i + 1;
        }
        Response { status: Status::Success, results: Some(docs) }
    }

    /// Answers a request: GET searches the index for the body and returns the
    /// matching documents by descending score; POST adds the body as a
    /// document; PUT and DELETE change nothing.
    pub fn handle_request(&mut self, request: Request) -> (r: Response)
        requires
            old(self).wf(),
            request.method == HTTP::Get || request.method == HTTP::Post ==> request.body@.len() <= MAX_TEXT_CHARS,
        ensures
            final(self).wf(),
            final(self).address() == old(self).address(),
            r.status == Status::Success,
            request.method == HTTP::Post ==> final(self).documents() == old(self).documents().push(request.body@),
            request.method != HTTP::Post ==> final(self).documents() == old(self).documents(),
            request.method == HTTP::Get ==> (r.results matches Some(v) && answers(v@, request.body@, old(self).documents())),
            request.method != HTTP::Get ==> r.results is None,
    {
        match request.method {
            HTTP::Get => {
                let ghost query = request.body@;
                let hits = self.search(request.body);
                let ghost h = hits@;
                let r = self.answer_search(hits);
                assert(are_hits(h, query, self.documents()));
                assert(answers(r.results->Some_0@, query, self.documents()));
                r
            },
            HTTP::Post => {
                self.indexer.add(request.body);
                Response { status: Status::Success, results: None }
            },
            HTTP::Put | HTTP::Delete => Response { status: Status::Success, results: None },
        }
    }

    /// Answers a refused request with the status that reports `err`.
    pub fn handle_error(&self, err: HTTPError) -> (r: Response)
        ensures
            r.status == (match err {
                HTTPError::NotFound => Status::NotFound,
                HTTPError::MethodNotAllowed => Status::MethodNotAllowed,
            }),
            r.results is None,
    {
        match err {
            HTTPError::NotFound => Response { status: Status::NotFound, results: None },
            HTTPError::MethodNotAllowed => Response { status: Status::MethodNotAllowed, results: None },
        }
    }
}


/// One document in double quotes.
pub open spec fn quoted(d: Seq<char>) -> Seq<char> {
    seq!['"'] + d + seq!['"']
}

/// The documents, each in double quotes, separated by commas.
pub open spec fn quoted_list(docs: Seq<Seq<char>>) -> Seq<char>
    decreases docs.len(),
{
    if docs.len() == 0 {
        Seq::empty()
    } else if docs.len() == 1 {
        quoted(docs[0])
    } else {
        quoted_list(docs.drop_last()) + seq![','] + quoted(docs.last())
    }
}

/// The results of a search as the text of a list: each document quoted,
/// separated by commas.
pub fn results_text(docs: &Vec<String>) -> (r: String)
    ensures
        r@ == quoted_list(docs@.map_values(|d: String| d@)),
{
    let ghost v = docs@.map_values(|d: String| d@);
    let mut r = String::new();
    let mut i: usize = 0;
    proof {
        reveal_strlit("\"");
        reveal_strlit(",");
    }
    while i < docs.len()
        invariant
            i <= docs@.len(),
            v == docs@.map_values(|d: String| d@),
            r@ == quoted_list(v.take(i as int)),
        decreases docs@.len() - i,
    {
        proof {
            reveal_strlit("\"");
            reveal_strlit(",");
            assert(v.take(i + 1).drop_last() =~= v.take(i as int));
        }
        if i > 0 {
            r.append(",");
        }
        r.append("\"");
        r.append(docs[i].as_str());
        r.append("\"");
        proof {
            if i == 0 {
                assert(r@ =~= quoted(v.take(1)[0]));
            } else {
                assert(r@ =~= quoted_list(v.take(i as int)) + seq![','] + quoted(v.take(i + 1).last()));
            }
        }
        i = i + 1;
    }
    assert(v.take(docs@.len() as int) =~= v);
    r
}

} // verus!
