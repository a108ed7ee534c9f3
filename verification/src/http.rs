//! The message model: the byte-exact request decoder and the request and
//! response encoders, with their wire formats stated as specs.

use vstd::prelude::*;

use crate::bytes::{
    bytes_eq, bytes_lt, copy_bytes, copy_range, find_byte, find_sep, lemma_find_byte,
    lemma_find_byte_absent, lemma_find_byte_concat_clean, lemma_find_sep, lemma_find_sep_append,
    lemma_lex_irrefl, lemma_lex_total, lemma_lex_trans, lemma_scan_find_byte,
    lemma_split_byte_append, lemma_split_byte_clean, lemma_split_byte_drop_trailing,
    lemma_split_byte_len, lex_lt, message_lines, push_bytes, scan_byte, scan_sep, split_byte,
    strip_all, strip_cr,
};
use crate::error::HttpError;
use crate::utf8::{check_utf8, is_utf8, lemma_utf8_append, lemma_utf8_ascii};

verus! {

/// The methods this server recognizes. The token for the last one is the
/// literal `OPTION`, without a final `S`, kept as the wire format defines it.
#[derive(Debug, Clone, Copy, PartialEq, Eq, Structural)]
pub enum HttpMethod {
    Get,
    Post,
    Patch,
    Put,
    Option,
}

/// The statuses a response can carry.
#[derive(Debug, Clone, Copy, PartialEq, Eq, Structural)]
pub enum HttpStatusCode {
    Okay,
    NotFound,
    Created,
}

/// The wire token of a method.
pub open spec fn method_token(m: HttpMethod) -> Seq<u8> {
    match m {
        HttpMethod::Get => seq![71u8, 69u8, 84u8],
        HttpMethod::Post => seq![80u8, 79u8, 83u8, 84u8],
        HttpMethod::Patch => seq![80u8, 65u8, 84u8, 67u8, 72u8],
        HttpMethod::Put => seq![80u8, 85u8, 84u8],
        HttpMethod::Option => seq![79u8, 80u8, 84u8, 73u8, 79u8, 78u8],
    }
}

/// The method a token denotes, if any.
pub open spec fn method_of(tok: Seq<u8>) -> Option<HttpMethod> {
    if tok == method_token(HttpMethod::Get) {
        Some(HttpMethod::Get)
    } else if tok == method_token(HttpMethod::Post) {
        Some(HttpMethod::Post)
    } else if tok == method_token(HttpMethod::Patch) {
        Some(HttpMethod::Patch)
    } else if tok == method_token(HttpMethod::Put) {
        Some(HttpMethod::Put)
    } else if tok == method_token(HttpMethod::Option) {
        Some(HttpMethod::Option)
    } else {
        None
    }
}

/// Each method's own token names that method and no other.
pub proof fn lemma_method_of_token(m: HttpMethod)
    ensures
        method_of(method_token(m)) == Some(m),
{
    match m {
        HttpMethod::Get => {},
        HttpMethod::Post => {
            assert(method_token(HttpMethod::Post).len() == 4);
        },
        HttpMethod::Patch => {
            assert(method_token(HttpMethod::Patch).len() == 5);
        },
        HttpMethod::Put => {
            assert(method_token(HttpMethod::Put)[0] == 80u8 && method_token(HttpMethod::Get)[0]
                == 71u8);
            assert(method_token(HttpMethod::Put).len() == 3);
        },
        HttpMethod::Option => {
            assert(method_token(HttpMethod::Option).len() == 6);
        },
    }
}

/// The status line text of a status.
pub open spec fn status_text(s: HttpStatusCode) -> Seq<u8> {
    match s {
        HttpStatusCode::Okay => seq![50u8, 48u8, 48u8, 32u8, 79u8, 75u8],
        HttpStatusCode::NotFound => seq![
            52u8,
            48u8,
            52u8,
            32u8,
            78u8,
            111u8,
            116u8,
            32u8,
            70u8,
            111u8,
            117u8,
            110u8,
            100u8,
        ],
        HttpStatusCode::Created => seq![
            50u8,
            48u8,
            49u8,
            32u8,
            67u8,
            114u8,
            101u8,
            97u8,
            116u8,
            101u8,
            100u8,
        ],
    }
}

impl HttpMethod {
    /// The method's wire token.
    pub fn as_bytes(&self) -> (r: Vec<u8>)
        ensures
            r@ == method_token(*self),
    {
        let mut v: Vec<u8> = Vec::new();
        match self {
            HttpMethod::Get => {
                v.push(71);
                v.push(69);
                v.push(84);
            },
            HttpMethod::Post => {
                v.push(80);
                v.push(79);
                v.push(83);
                v.push(84);
            },
            HttpMethod::Patch => {
                v.push(80);
                v.push(65);
                v.push(84);
                v.push(67);
                v.push(72);
            },
            HttpMethod::Put => {
                v.push(80);
                v.push(85);
                v.push(84);
            },
            HttpMethod::Option => {
                v.push(79);
                v.push(80);
                v.push(84);
                v.push(73);
                v.push(79);
                v.push(78);
            },
        }
        proof {
            assert(v@ =~= method_token(*self));
        }
        v
    }

    /// Decode a method token; an unrecognized token is a `MethodError`.
    pub fn encode(input: &[u8]) -> (r: Result<HttpMethod, HttpError>)
        ensures
            r == match method_of(input@) {
                Some(m) => Ok::<HttpMethod, HttpError>(m),
                None => Err::<HttpMethod, HttpError>(HttpError::MethodError),
            },
    {
        let tok_get: [u8; 3] = [71, 69, 84];
        let tok_post: [u8; 4] = [80, 79, 83, 84];
        let tok_patch: [u8; 5] = [80, 65, 84, 67, 72];
        let tok_put: [u8; 3] = [80, 85, 84];
        let tok_option: [u8; 6] = [79, 80, 84, 73, 79, 78];
        proof {
            assert(tok_get@ =~= method_token(HttpMethod::Get));
            assert(tok_post@ =~= method_token(HttpMethod::Post));
            assert(tok_patch@ =~= method_token(HttpMethod::Patch));
            assert(tok_put@ =~= method_token(HttpMethod::Put));
            assert(tok_option@ =~= method_token(HttpMethod::Option));
        }
        if bytes_eq(input, tok_get.as_slice()) {
            Ok(HttpMethod::Get)
        } else if bytes_eq(input, tok_post.as_slice()) {
            Ok(HttpMethod::Post)
        } else if bytes_eq(input, tok_patch.as_slice()) {
            Ok(HttpMethod::Patch)
        } else if bytes_eq(input, tok_put.as_slice()) {
            Ok(HttpMethod::Put)
        } else if bytes_eq(input, tok_option.as_slice()) {
            Ok(HttpMethod::Option)
        } else {
            Err(HttpError::MethodError)
        }
    }
}

impl HttpStatusCode {
    /// The status line text.
    pub fn as_bytes(&self) -> (r: Vec<u8>)
        ensures
            r@ == status_text(*self),
    {
        let mut v: Vec<u8> = Vec::new();
        match self {
            HttpStatusCode::Okay => {
                v.push(50);
                v.push(48);
                v.push(48);
                v.push(32);
                v.push(79);
                v.push(75);
            },
            HttpStatusCode::NotFound => {
                v.push(52);
                v.push(48);
                v.push(52);
                v.push(32);
                v.push(78);
                v.push(111);
                v.push(116);
                v.push(32);
                v.push(70);
                v.push(111);
                v.push(117);
                v.push(110);
                v.push(100);
            },
            HttpStatusCode::Created => {
                v.push(50);
                v.push(48);
                v.push(49);
                v.push(32);
                v.push(67);
                v.push(114);
                v.push(101);
                v.push(97);
                v.push(116);
                v.push(101);
                v.push(100);
            },
        }
        proof {
            assert(v@ =~= status_text(*self));
        }
        v
    }
}

/// The views of a vector of byte vectors.
pub open spec fn views_of(ls: Seq<Vec<u8>>) -> Seq<Seq<u8>> {
    Seq::new(ls.len(), |i: int| ls[i]@)
}

/// The views of a vector of header pairs.
pub open spec fn pairs_view(hs: Seq<(Vec<u8>, Vec<u8>)>) -> Seq<(Seq<u8>, Seq<u8>)> {
    Seq::new(hs.len(), |i: int| (hs[i].0@, hs[i].1@))
}

/// The view of an optional byte vector.
pub open spec fn opt_view(b: Option<Vec<u8>>) -> Option<Seq<u8>> {
    match b {
        Some(v) => Some(v@),
        None => None,
    }
}

/// The mapping a list of header pairs denotes: a later pair with the same
/// key overrides an earlier one.
pub open spec fn map_of(ps: Seq<(Seq<u8>, Seq<u8>)>) -> Map<Seq<u8>, Seq<u8>>
    decreases ps.len(),
{
    if ps.len() == 0 {
        Map::empty()
    } else {
        map_of(ps.drop_last()).insert(ps.last().0, ps.last().1)
    }
}

/// The abstract value of a decoded request.
#[verifier::ext_equal]
pub struct ReqModel {
    pub method: HttpMethod,
    pub url: Seq<u8>,
    pub headers: Map<Seq<u8>, Seq<u8>>,
    pub body: Option<Seq<u8>>,
}

/// Parse one header line into its key and value: the line must be UTF-8
/// and is split once on the first `": "`; the value is all that follows.
pub open spec fn parse_header_line(l: Seq<u8>) -> Option<(Seq<u8>, Seq<u8>)> {
    if !is_utf8(l) {
        None
    } else {
        let i = find_sep(l);
        if i < 0 {
            None
        } else {
            Some((l.take(i), l.skip(i + 2)))
        }
    }
}

/// Parse the header block that starts at line `i`: header lines up to the
/// first empty line, whose successor, if present, is the body.
pub open spec fn header_section(ls: Seq<Seq<u8>>, i: int) -> Result<
    (Seq<(Seq<u8>, Seq<u8>)>, Option<Seq<u8>>),
    HttpError,
>
    decreases ls.len() - i,
{
    if i < 0 || i >= ls.len() {
        Ok((Seq::empty(), None))
    } else if ls[i].len() == 0 {
        Ok(
            (
                Seq::empty(),
                if i + 1 < ls.len() {
                    Some(ls[i + 1])
                } else {
                    None
                },
            ),
        )
    } else {
        match parse_header_line(ls[i]) {
            None => Err(HttpError::HeaderError),
            Some(kv) => match header_section(ls, i + 1) {
                Err(e) => Err(e),
                Ok(rest) => Ok((seq![kv] + rest.0, rest.1)),
            },
        }
    }
}

/// What decoding a raw message yields: the request line gives method and
/// url, the following lines up to an empty line give the headers, and the
/// single line after the empty line, if any, gives the body.
pub open spec fn spec_decode(input: Seq<u8>) -> Result<ReqModel, HttpError> {
    let ls = message_lines(input);
    if ls.len() == 0 {
        Err(HttpError::ProtocolError)
    } else {
        let toks = split_byte(ls[0], 32u8);
        match method_of(toks[0]) {
            None => Err(HttpError::MethodError),
            Some(m) => if toks.len() < 2 {
                Err(HttpError::ProtocolError)
            } else if !is_utf8(toks[1]) {
                Err(HttpError::UrlError)
            } else {
                match header_section(ls, 1) {
                    Err(e) => Err(e),
                    Ok(hb) => Ok(
                        ReqModel { method: m, url: toks[1], headers: map_of(hb.0), body: hb.1 },
                    ),
                }
            },
        }
    }
}

/// Split raw bytes into their stripped lines.
fn to_lines(input: &[u8]) -> (lines: Vec<Vec<u8>>)
    ensures
        views_of(lines@) == message_lines(input@),
{
    let n = input.len();
    let mut lines: Vec<Vec<u8>> = Vec::new();
    if n == 0 {
        proof {
            assert(views_of(lines@) =~= message_lines(input@));
        }
        return lines;
    }
    let mut i: usize = 0;
    proof {
        assert(input@.skip(0) =~= input@);
        assert(views_of(lines@) =~= Seq::<Seq<u8>>::empty());
        assert(strip_all(split_byte(input@, 10u8)) =~= views_of(lines@) + strip_all(
            split_byte(input@.skip(0), 10u8),
        ));
    }
    loop
        invariant
            0 <= i < n,
            n == input@.len(),
            n > 0,
            strip_all(split_byte(input@, 10u8)) =~= views_of(lines@) + strip_all(
                split_byte(input@.skip(i as int), 10u8),
            ),
        decreases n - i,
    {
        let j = scan_byte(input, i, 10);
        let mut piece = copy_range(input, i, j);
        if piece.len() > 0 && piece[piece.len() - 1] == 13 {
            piece.pop();
        }
        proof {
            assert(piece@ =~= strip_cr(input@.subrange(i as int, j as int)));
            lemma_scan_find_byte(input@, i as int, j as int, 10u8);
        }
        let ghost old_views = views_of(lines@);
        if j < n {
            lines.push(piece);
            proof {
                let suf = input@.skip(i as int);
                let f = find_byte(suf, 10u8);
                assert(f == j - i);
                assert(0 <= f < suf.len());
                assert(suf.take(f) =~= input@.subrange(i as int, j as int));
                assert(suf.skip(f + 1) =~= input@.skip(j + 1));
                assert(split_byte(suf, 10u8) == seq![suf.take(f)] + split_byte(
                    input@.skip(j + 1),
                    10u8,
                ));
                assert(strip_all(split_byte(suf, 10u8)) =~= seq![piece@] + strip_all(
                    split_byte(input@.skip(j + 1), 10u8),
                ));
                assert(views_of(lines@) =~= old_views + seq![piece@]);
                assert(strip_all(split_byte(input@, 10u8)) =~= views_of(lines@) + strip_all(
                    split_byte(input@.skip(j + 1), 10u8),
                ));
            }
            i = j + 1;
            if i == n {
                proof {
                    assert(input@[n - 1] == 10u8);
                    assert(input@.skip(n as int) =~= Seq::<u8>::empty());
                    lemma_find_byte(Seq::<u8>::empty(), 10u8);
                    assert(split_byte(input@.skip(n as int), 10u8) == seq![Seq::<u8>::empty()]);
                    assert(strip_all(split_byte(input@.skip(n as int), 10u8)) =~= seq![
                        Seq::<u8>::empty(),
                    ]);
                    // the trailing empty piece is dropped by message_lines
                    lemma_split_byte_drop_trailing(input@, 10u8);
                    let core = strip_all(split_byte(input@.take(n - 1), 10u8));
                    assert(strip_all(split_byte(input@, 10u8)) =~= core + seq![
                        Seq::<u8>::empty(),
                    ]);
                    assert(strip_all(split_byte(input@, 10u8)) =~= views_of(lines@) + seq![
                        Seq::<u8>::empty(),
                    ]);
                    assert(message_lines(input@) == core);
                    assert forall|k: int| 0 <= k < core.len() implies views_of(lines@)[k]
                        == core[k] by {
                        assert((core + seq![Seq::<u8>::empty()])[k] == core[k]);
                        assert((views_of(lines@) + seq![Seq::<u8>::empty()])[k] == views_of(
                            lines@,
                        )[k]);
                    }
                    assert(views_of(lines@) =~= message_lines(input@));
                }
                return lines;
            }
        } else {
            // no further line feed: the rest is the final line
            lines.push(piece);
            proof {
                let suf = input@.skip(i as int);
                assert(find_byte(suf, 10u8) < 0);
                assert(suf =~= input@.subrange(i as int, n as int));
                assert(split_byte(suf, 10u8) == seq![suf]);
                assert(strip_all(split_byte(suf, 10u8)) =~= seq![piece@]);
                assert(views_of(lines@) =~= old_views + seq![piece@]);
                assert(strip_all(split_byte(input@, 10u8)) =~= views_of(lines@));
                assert(input@.last() != 10u8) by {
                    lemma_find_byte(suf, 10u8);
                    assert(input@[n - 1] == suf[n - 1 - i as int]);
                }
                assert(views_of(lines@) =~= message_lines(input@));
            }
            return lines;
        }
    }
}

/// A decoded request. The `headers` list keeps the pairs in arrival
/// order; the mapping it denotes lets a later pair override an earlier
/// one, as `map_of` states.
#[derive(Debug)]
pub struct HttpRequest {
    pub method: HttpMethod,
    pub url: Vec<u8>,
    pub headers: Vec<(Vec<u8>, Vec<u8>)>,
    pub body: Option<Vec<u8>>,
}

impl HttpRequest {
    /// The abstract value this request denotes.
    pub open spec fn model(self) -> ReqModel {
        ReqModel {
            method: self.method,
            url: self.url@,
            headers: map_of(pairs_view(self.headers@)),
            body: opt_view(self.body),
        }
    }

    /// Decode a raw message, exactly as `spec_decode` states.
    pub fn decode(input: &[u8]) -> (r: Result<HttpRequest, HttpError>)
        ensures
            match r {
                Ok(req) => spec_decode(input@) == Ok::<ReqModel, HttpError>(req.model()),
                Err(e) => spec_decode(input@) == Err::<ReqModel, HttpError>(e),
            },
    {
        let lines = to_lines(input);
        let ghost lsv = message_lines(input@);
        if lines.len() == 0 {
            return Err(HttpError::ProtocolError);
        }
        let flen = lines[0].len();
        let p = scan_byte(lines[0].as_slice(), 0, 32);
        let ghost toks = split_byte(lsv[0], 32u8);
        proof {
            assert(lsv[0] == lines@[0]@);
            lemma_scan_find_byte(lsv[0], 0, p as int, 32u8);
            assert(lsv[0].skip(0) =~= lsv[0]);
            if p < flen {
                assert(find_byte(lsv[0], 32u8) == p);
                assert(toks == seq![lsv[0].take(p as int)] + split_byte(
                    lsv[0].skip(p as int + 1),
                    32u8,
                ));
                assert(toks[0] =~= lsv[0].subrange(0, p as int));
            } else {
                assert(find_byte(lsv[0], 32u8) < 0);
                assert(toks == seq![lsv[0]]);
                assert(toks[0] =~= lsv[0].subrange(0, p as int));
            }
        }
        let tok0 = copy_range(lines[0].as_slice(), 0, p);
        let m = match HttpMethod::encode(tok0.as_slice()) {
            Ok(mm) => mm,
            Err(e) => {
                return Err(e);
            },
        };
        if p == flen {
            return Err(HttpError::ProtocolError);
        }
        let q = scan_byte(lines[0].as_slice(), p + 1, 32);
        proof {
            lemma_scan_find_byte(lsv[0], p as int + 1, q as int, 32u8);
            let rest = lsv[0].skip(p as int + 1);
            lemma_split_byte_len(rest, 32u8);
            let f2 = find_byte(rest, 32u8);
            if q < flen {
                assert(f2 == q - p - 1);
                assert(split_byte(rest, 32u8) == seq![rest.take(f2)] + split_byte(
                    rest.skip(f2 + 1),
                    32u8,
                ));
                assert(rest.take(f2) =~= lsv[0].subrange(p as int + 1, q as int));
            } else {
                assert(f2 < 0);
                assert(split_byte(rest, 32u8) == seq![rest]);
                assert(rest =~= lsv[0].subrange(p as int + 1, q as int));
            }
            assert(toks[1] == lsv[0].subrange(p as int + 1, q as int));
        }
        let url = copy_range(lines[0].as_slice(), p + 1, q);
        if !check_utf8(url.as_slice()) {
            return Err(HttpError::UrlError);
        }
        let mut headers: Vec<(Vec<u8>, Vec<u8>)> = Vec::new();
        let mut i: usize = 1;
        loop
            invariant
                1 <= i <= lines@.len(),
                lsv == message_lines(input@),
                views_of(lines@) == lsv,
                lsv.len() > 0,
                toks == split_byte(lsv[0], 32u8),
                method_of(toks[0]) == Some(m),
                toks.len() >= 2,
                url@ == toks[1],
                is_utf8(toks[1]),
                match header_section(lsv, i as int) {
                    Ok(rest) => header_section(lsv, 1) == Ok::<
                        (Seq<(Seq<u8>, Seq<u8>)>, Option<Seq<u8>>),
                        HttpError,
                    >((pairs_view(headers@) + rest.0, rest.1)),
                    Err(e) => header_section(lsv, 1) == Err::<
                        (Seq<(Seq<u8>, Seq<u8>)>, Option<Seq<u8>>),
                        HttpError,
                    >(e),
                },
            decreases lines@.len() - i,
        {
            if i == lines.len() {
                proof {
                    assert(header_section(lsv, i as int) == Ok::<
                        (Seq<(Seq<u8>, Seq<u8>)>, Option<Seq<u8>>),
                        HttpError,
                    >((Seq::empty(), None)));
                    assert(pairs_view(headers@) + Seq::<(Seq<u8>, Seq<u8>)>::empty() =~= pairs_view(
                        headers@,
                    ));
                }
                let req = HttpRequest { method: m, url, headers, body: None };
                proof {
                    assert(spec_decode(input@) == Ok::<ReqModel, HttpError>(req.model()));
                }
                return Ok(req);
            }
            if lines[i].len() == 0 {
                let body: Option<Vec<u8>> = if i + 1 < lines.len() {
                    Some(copy_bytes(lines[i + 1].as_slice()))
                } else {
                    None
                };
                proof {
                    assert(lsv[i as int].len() == 0);
                    assert(pairs_view(headers@) + Seq::<(Seq<u8>, Seq<u8>)>::empty() =~= pairs_view(
                        headers@,
                    ));
                    if i + 1 < lines@.len() {
                        assert(lsv[i + 1] == lines@[i + 1]@);
                    }
                }
                let req = HttpRequest { method: m, url, headers, body };
                proof {
                    assert(spec_decode(input@) == Ok::<ReqModel, HttpError>(req.model()));
                }
                return Ok(req);
            }
            let ghost line = lsv[i as int];
            proof {
                assert(line == lines@[i as int]@);
                assert(line.len() > 0);
            }
            if !check_utf8(lines[i].as_slice()) {
                proof {
                    assert(parse_header_line(line) is None);
                }
                return Err(HttpError::HeaderError);
            }
            let llen = lines[i].len();
            let sp = scan_sep(lines[i].as_slice());
            proof {
                lemma_find_sep(line);
            }
            if sp == llen {
                proof {
                    assert(find_sep(line) < 0);
                    assert(parse_header_line(line) is None);
                }
                return Err(HttpError::HeaderError);
            }
            proof {
                assert(find_sep(line) == sp);
                assert(sp + 2 <= line.len());
            }
            let k = copy_range(lines[i].as_slice(), 0, sp);
            let v = copy_range(lines[i].as_slice(), sp + 2, llen);
            proof {
                assert(k@ =~= line.take(sp as int));
                assert(v@ =~= line.skip(sp as int + 2));
                assert(parse_header_line(line) == Some((k@, v@)));
            }
            let ghost old_pairs = pairs_view(headers@);
            headers.push((k, v));
            proof {
                assert(pairs_view(headers@) =~= old_pairs + seq![(k@, v@)]);
                match header_section(lsv, i + 1) {
                    Ok(rest) => {
                        assert(header_section(lsv, i as int) == Ok::<
                            (Seq<(Seq<u8>, Seq<u8>)>, Option<Seq<u8>>),
                            HttpError,
                        >((seq![(k@, v@)] + rest.0, rest.1)));
                        assert(old_pairs + (seq![(k@, v@)] + rest.0) =~= pairs_view(headers@)
                            + rest.0);
                    },
                    Err(_e) => {
                        assert(header_section(lsv, i as int) == header_section(lsv, i + 1));
                    },
                }
            }
            i = i + 1;
        }
    }
}

/// The two-byte line terminator.
pub open spec fn crlf() -> Seq<u8> {
    seq![13u8, 10u8]
}

/// The two-byte `": "` separator of a header line.
pub open spec fn sep_bytes() -> Seq<u8> {
    seq![58u8, 32u8]
}

/// The protocol version token `HTTP/1.1`.
pub open spec fn http11() -> Seq<u8> {
    seq![72u8, 84u8, 84u8, 80u8, 47u8, 49u8, 46u8, 49u8]
}

/// One emitted header line, terminator included.
pub open spec fn header_line_bytes(kv: (Seq<u8>, Seq<u8>)) -> Seq<u8> {
    kv.0 + sep_bytes() + kv.1 + crlf()
}

/// The emitted header block: one line per pair, in list order.
pub open spec fn header_block_bytes(hs: Seq<(Seq<u8>, Seq<u8>)>) -> Seq<u8>
    decreases hs.len(),
{
    if hs.len() == 0 {
        Seq::empty()
    } else {
        header_block_bytes(hs.drop_last()) + header_line_bytes(hs.last())
    }
}

/// What encoding a request yields: the request line, the header lines, an
/// empty line, and the body line, if any.
pub open spec fn spec_encode_request(
    m: HttpMethod,
    url: Seq<u8>,
    hs: Seq<(Seq<u8>, Seq<u8>)>,
    body: Option<Seq<u8>>,
) -> Seq<u8> {
    method_token(m) + seq![32u8] + url + seq![32u8] + http11() + crlf() + header_block_bytes(hs)
        + crlf() + (match body {
        Some(b) => b + crlf(),
        None => Seq::empty(),
    })
}

/// The decimal digits of `n`, most significant first.
pub open spec fn dec_digits(n: nat) -> Seq<u8>
    decreases n,
{
    if n < 10 {
        seq![(48 + n) as u8]
    } else {
        dec_digits(n / 10) + seq![(48 + n % 10) as u8]
    }
}

/// The byte length of an optional body.
pub open spec fn spec_body_len(body: Option<Seq<u8>>) -> nat {
    match body {
        Some(b) => b.len(),
        None => 0,
    }
}

/// The emitted `Content-Length` header line for a body of `n` bytes.
pub open spec fn content_length_line(n: nat) -> Seq<u8> {
    seq![
        67u8,
        111u8,
        110u8,
        116u8,
        101u8,
        110u8,
        116u8,
        45u8,
        76u8,
        101u8,
        110u8,
        103u8,
        116u8,
        104u8,
        58u8,
        32u8,
    ] + dec_digits(n) + crlf()
}

/// The default `Content-Type: text/plain` line emitted when a response
/// carries no headers of its own.
pub open spec fn default_content_type_line() -> Seq<u8> {
    seq![
        67u8,
        111u8,
        110u8,
        116u8,
        101u8,
        110u8,
        116u8,
        45u8,
        84u8,
        121u8,
        112u8,
        101u8,
        58u8,
        32u8,
        116u8,
        101u8,
        120u8,
        116u8,
        47u8,
        112u8,
        108u8,
        97u8,
        105u8,
        110u8,
    ] + crlf()
}

/// What encoding a response yields: status line, `Content-Length`, the
/// caller's headers in list order or the default `Content-Type`, an empty
/// line, and the raw body bytes.
pub open spec fn spec_encode_response(
    st: HttpStatusCode,
    hs: Option<Seq<(Seq<u8>, Seq<u8>)>>,
    body: Option<Seq<u8>>,
) -> Seq<u8> {
    seq![72u8, 84u8, 84u8, 80u8, 47u8, 49u8, 46u8, 49u8, 32u8] + status_text(st) + crlf()
        + content_length_line(spec_body_len(body)) + (match hs {
        Some(h) => header_block_bytes(h),
        None => default_content_type_line(),
    }) + crlf() + (match body {
        Some(b) => b,
        None => Seq::empty(),
    })
}

/// Append one emitted header line to `buf`.
fn push_header_line(buf: &mut Vec<u8>, k: &Vec<u8>, v: &Vec<u8>)
    ensures
        final(buf)@ == old(buf)@ + header_line_bytes((k@, v@)),
{
    push_bytes(buf, k.as_slice());
    buf.push(58);
    buf.push(32);
    push_bytes(buf, v.as_slice());
    buf.push(13);
    buf.push(10);
    proof {
        assert(buf@ =~= old(buf)@ + header_line_bytes((k@, v@)));
    }
}

/// Append the whole header block to `buf`.
fn push_header_block(buf: &mut Vec<u8>, hs: &Vec<(Vec<u8>, Vec<u8>)>)
    ensures
        final(buf)@ == old(buf)@ + header_block_bytes(pairs_view(hs@)),
{
    let n = hs.len();
    let mut i: usize = 0;
    proof {
        assert(pairs_view(hs@).take(0) =~= Seq::<(Seq<u8>, Seq<u8>)>::empty());
    }
    while i < n
        invariant
            0 <= i <= n,
            n == hs@.len(),
            buf@ == old(buf)@ + header_block_bytes(pairs_view(hs@).take(i as int)),
        decreases n - i,
    {
        push_header_line(buf, &hs[i].0, &hs[i].1);
        proof {
            let pv = pairs_view(hs@);
            assert(pv.take(i + 1).drop_last() =~= pv.take(i as int));
            assert(pv.take(i + 1).last() == (hs@[i as int].0@, hs@[i as int].1@));
            assert(header_block_bytes(pv.take(i + 1)) == header_block_bytes(pv.take(i as int))
                + header_line_bytes(pv[i as int]));
        }
        i = i + 1;
    }
    proof {
        assert(pairs_view(hs@).take(n as int) =~= pairs_view(hs@));
    }
}

/// Append the decimal digits of `n` to `buf`.
fn push_decimal(buf: &mut Vec<u8>, n: usize)
    ensures
        final(buf)@ == old(buf)@ + dec_digits(n as nat),
{
    if n < 10 {
        buf.push(48 + n as u8);
        proof {
            assert(buf@ =~= old(buf)@ + dec_digits(n as nat));
        }
        return ;
    }
    let mut tmp: Vec<u8> = Vec::new();
    let mut m = n;
    while m > 0
        invariant
            dec_digits(n as nat) == if m > 0 {
                dec_digits(m as nat) + tmp@.reverse()
            } else {
                tmp@.reverse()
            },
        decreases m,
    {
        let d: u8 = (m % 10) as u8;
        tmp.push(48 + d);
        proof {
            let prev = tmp@.drop_last();
            assert(tmp@.reverse() =~= seq![(48 + (m as nat) % 10) as u8] + prev.reverse());
            if m >= 10 {
                assert(dec_digits(m as nat) == dec_digits((m as nat) / 10) + seq![
                    (48 + (m as nat) % 10) as u8,
                ]);
                assert(dec_digits((m as nat) / 10) + (seq![(48 + (m as nat) % 10) as u8]
                    + prev.reverse()) =~= (dec_digits((m as nat) / 10) + seq![
                    (48 + (m as nat) % 10) as u8,
                ]) + prev.reverse());
            } else {
                assert(dec_digits(m as nat) == seq![(48 + (m as nat)) as u8]);
                assert((m as nat) % 10 == m as nat);
                assert(dec_digits(m as nat) + prev.reverse() =~= seq![(48 + (m as nat) % 10) as u8]
                    + prev.reverse());
            }
        }
        m = m / 10;
    }
    let k = tmp.len();
    let mut j: usize = 0;
    while j < k
        invariant
            0 <= j <= k,
            k == tmp@.len(),
            tmp@.reverse().len() == k,
            buf@ == old(buf)@ + tmp@.reverse().take(j as int),
        decreases k - j,
    {
        buf.push(tmp[k - 1 - j]);
        proof {
            assert(tmp@.reverse()[j as int] == tmp@[k - 1 - j]);
            assert(tmp@.reverse().take(j + 1) =~= tmp@.reverse().take(j as int) + seq![
                tmp@.reverse()[j as int],
            ]);
            assert(old(buf)@ + tmp@.reverse().take(j + 1) =~= (old(buf)@ + tmp@.reverse().take(
                j as int,
            )) + seq![tmp@[k - 1 - j]]);
        }
        j = j + 1;
    }
    proof {
        assert(tmp@.reverse().take(k as int) =~= tmp@.reverse());
        assert(buf@ == old(buf)@ + dec_digits(n as nat));
    }
}

/// An encodable response. `headers`, when present, is kept strictly
/// sorted by key, so encoding emits header lines in key order.
#[derive(Debug)]
pub struct HttpResponse {
    pub status_code: HttpStatusCode,
    pub body: Option<Vec<u8>>,
    pub headers: Option<Vec<(Vec<u8>, Vec<u8>)>>,
}

impl HttpResponse {
    /// The header list this response carries, if any, as sequences.
    pub open spec fn headers_view(self) -> Option<Seq<(Seq<u8>, Seq<u8>)>> {
        match self.headers {
            Some(h) => Some(pairs_view(h@)),
            None => None,
        }
    }

    /// The mapping the headers denote; empty when none were ever set.
    pub open spec fn headers_map(self) -> Map<Seq<u8>, Seq<u8>> {
        match self.headers {
            Some(h) => map_of(pairs_view(h@)),
            None => Map::empty(),
        }
    }

    /// Well-formed: the header list, when present, is strictly sorted by
    /// key in byte order, so every key occurs once.
    pub open spec fn wf(self) -> bool {
        match self.headers {
            Some(h) => forall|i: int, j: int|
                0 <= i < j < h@.len() ==> lex_lt(#[trigger] h@[i].0@, #[trigger] h@[j].0@),
            None => true,
        }
    }

    /// A response with the given status and neither body nor headers.
    pub fn new(status_code: HttpStatusCode) -> (r: HttpResponse)
        ensures
            r.status_code == status_code,
            r.body is None,
            r.headers is None,
            r.wf(),
    {
        HttpResponse { status_code, body: None, headers: None }
    }

    /// An empty `200 OK` response.
    pub fn new_ok() -> (r: HttpResponse)
        ensures
            r.status_code == HttpStatusCode::Okay,
            r.body is None,
            r.headers is None,
            r.wf(),
    {
        HttpResponse { status_code: HttpStatusCode::Okay, body: None, headers: None }
    }

    /// An empty `201 Created` response.
    pub fn new_created() -> (r: HttpResponse)
        ensures
            r.status_code == HttpStatusCode::Created,
            r.body is None,
            r.headers is None,
            r.wf(),
    {
        HttpResponse { status_code: HttpStatusCode::Created, body: None, headers: None }
    }

    /// An empty `404 Not Found` response.
    pub fn new_not_found() -> (r: HttpResponse)
        ensures
            r.status_code == HttpStatusCode::NotFound,
            r.body is None,
            r.headers is None,
            r.wf(),
    {
        HttpResponse { status_code: HttpStatusCode::NotFound, body: None, headers: None }
    }

    /// The same response carrying `body`.
    pub fn with_body(self, body: Vec<u8>) -> (r: HttpResponse)
        ensures
            r.status_code == self.status_code,
            r.headers == self.headers,
            r.body == Some(body),
            self.wf() ==> r.wf(),
    {
        HttpResponse { status_code: self.status_code, body: Some(body), headers: self.headers }
    }

    /// The same response with `key` mapped to `value`: a fresh key is
    /// added at its place in key order, a present one has its value
    /// replaced.
    #[verifier::rlimit(100)]
    pub fn set_header(self, key: &[u8], value: &[u8]) -> (r: HttpResponse)
        requires
            self.wf(),
        ensures
            r.status_code == self.status_code,
            r.body == self.body,
            r.headers is Some,
            r.wf(),
            r.headers_map() == self.headers_map().insert(key@, value@),
            self.headers is None ==> r.headers_view() == Some(seq![(key@, value@)]),
    {
        let ghost old_map = self.headers_map();
        let mut hs: Vec<(Vec<u8>, Vec<u8>)> = match self.headers {
            Some(h) => h,
            None => Vec::new(),
        };
        let ghost pv = pairs_view(hs@);
        proof {
            assert(map_of(pv) == old_map) by {
                if self.headers is None {
                    assert(pv =~= Seq::<(Seq<u8>, Seq<u8>)>::empty());
                }
            }
            assert(forall|i: int, j: int|
                0 <= i < j < pv.len() ==> lex_lt(#[trigger] pv[i].0, #[trigger] pv[j].0));
            lemma_sorted_unique(pv);
            lemma_map_of_props(pv);
        }
        let n = hs.len();
        let mut idx: usize = 0;
        while idx < n && bytes_lt(hs[idx].0.as_slice(), key)
            invariant
                0 <= idx <= n,
                n == hs@.len(),
                forall|j: int| 0 <= j < idx ==> lex_lt(#[trigger] hs@[j].0@, key@),
            decreases n - idx,
    {
            idx = idx + 1;
        }
        let replace = idx < n && bytes_eq(hs[idx].0.as_slice(), key);
        if replace {
            hs.remove(idx);
            hs.insert(idx, (copy_bytes(key), copy_bytes(value)));
        } else {
            hs.insert(idx, (copy_bytes(key), copy_bytes(value)));
        }
        let ghost nv = pairs_view(hs@);
        proof {
            if replace {
                assert(nv =~= pv.update(idx as int, (key@, value@)));
                assert(pv[idx as int].0 == key@);
            } else {
                assert(nv =~= pv.take(idx as int) + seq![(key@, value@)] + pv.skip(idx as int));
                if idx < pv.len() {
                    lemma_lex_total(pv[idx as int].0, key@);
                    assert(!lex_lt(pv[idx as int].0, key@));
                    assert(pv[idx as int].0 != key@);
                    assert(lex_lt(key@, pv[idx as int].0));
                }
            }
            // sortedness of the new list
            assert forall|i: int, j: int| 0 <= i < j < nv.len() implies lex_lt(
                #[trigger] nv[i].0,
                #[trigger] nv[j].0,
            ) by {
                if replace {
                    assert(nv[i].0 == pv[i].0 && nv[j].0 == pv[j].0);
                } else {
                    if j < idx {
                    } else if i < idx && j == idx {
                        assert(nv[j].0 == key@);
                    } else if i < idx && j > idx {
                        assert(nv[j].0 == pv[j - 1].0);
                        if j - 1 == idx as int - 1 {
                        } else {
                        }
                        if i < j - 1 {
                            assert(lex_lt(pv[i].0, pv[j - 1].0));
                        } else {
                            // i == j - 1 >= idx impossible since i < idx
                        }
                    } else if i == idx {
                        assert(nv[i].0 == key@);
                        assert(nv[j].0 == pv[j - 1].0);
                        if j - 1 == idx as int {
                            assert(lex_lt(key@, pv[idx as int].0));
                        } else {
                            assert(lex_lt(key@, pv[idx as int].0));
                            assert(lex_lt(pv[idx as int].0, pv[j - 1].0));
                            lemma_lex_trans(key@, pv[idx as int].0, pv[j - 1].0);
                        }
                    } else {
                        assert(nv[i].0 == pv[i - 1].0 && nv[j].0 == pv[j - 1].0);
                    }
                }
            }
            assert forall|i: int, j: int| 0 <= i < j < hs@.len() implies lex_lt(
                #[trigger] hs@[i].0@,
                #[trigger] hs@[j].0@,
            ) by {
                assert(nv[i].0 == hs@[i].0@);
                assert(nv[j].0 == hs@[j].0@);
            }
            lemma_sorted_unique(nv);
            lemma_map_of_props(nv);
            // the two maps agree on every key
            assert forall|k: Seq<u8>| #[trigger] map_of(nv).contains_key(k) implies map_of(
                pv,
            ).insert(key@, value@).contains_key(k) && map_of(nv)[k] == map_of(pv).insert(
                key@,
                value@,
            )[k] by {
                let i = choose|i: int| 0 <= i < nv.len() && nv[i].0 == k;
                assert(map_of(nv)[k] == nv[i].1);
                if k == key@ {
                    if replace {
                        assert(nv[idx as int] == (key@, value@));
                        assert(nv[i].1 == value@) by {
                            if i != idx {
                                assert(nv[i].0 != nv[idx as int].0);
                            }
                        }
                    } else {
                        assert(nv[idx as int] == (key@, value@));
                        if i != idx {
                            assert(nv[i].0 != nv[idx as int].0);
                        }
                        assert(nv[i].1 == value@);
                    }
                } else {
                    // k comes from the old list unchanged
                    if replace {
                        assert(i != idx);
                        assert(nv[i] == pv[i]);
                        assert(map_of(pv).contains_key(k) && map_of(pv)[k] == pv[i].1);
                    } else {
                        assert(i != idx);
                        let oi = if i < idx as int {
                            i
                        } else {
                            i - 1
                        };
                        assert(nv[i] == pv[oi]);
                        assert(map_of(pv).contains_key(k) && map_of(pv)[k] == pv[oi].1);
                    }
                }
            }
            assert forall|k: Seq<u8>| #[trigger] map_of(pv).insert(key@, value@).contains_key(
                k,
            ) implies map_of(nv).contains_key(k) by {
                if k == key@ {
                    assert(nv[idx as int].0 == key@);
                } else {
                    let i = choose|i: int| 0 <= i < pv.len() && pv[i].0 == k;
                    if replace {
                        assert(i != idx);
                        assert(nv[i].0 == k);
                    } else {
                        let ni = if i < idx as int {
                            i
                        } else {
                            i + 1
                        };
                        assert(nv[ni].0 == k);
                    }
                }
            }
            assert(map_of(nv) =~= map_of(pv).insert(key@, value@));
            if self.headers is None {
                assert(nv =~= seq![(key@, value@)]);
            }
        }
        HttpResponse { status_code: self.status_code, body: self.body, headers: Some(hs) }
    }

    /// Encode the response, exactly as `spec_encode_response` states.
    pub fn encode(self) -> (r: Vec<u8>)
        ensures
            r@ == spec_encode_response(self.status_code, self.headers_view(), opt_view(self.body)),
    {
        let mut buf: Vec<u8> = Vec::new();
        let pre: [u8; 9] = [72, 84, 84, 80, 47, 49, 46, 49, 32];
        push_bytes(&mut buf, pre.as_slice());
        let st = self.status_code.as_bytes();
        push_bytes(&mut buf, st.as_slice());
        buf.push(13);
        buf.push(10);
        let cl: [u8; 16] = [67, 111, 110, 116, 101, 110, 116, 45, 76, 101, 110, 103, 116, 104, 58, 32];
        push_bytes(&mut buf, cl.as_slice());
        let blen = match &self.body {
            Some(b) => b.len(),
            None => 0,
        };
        push_decimal(&mut buf, blen);
        buf.push(13);
        buf.push(10);
        match &self.headers {
            Some(h) => {
                push_header_block(&mut buf, h);
            },
            None => {
                let ct: [u8; 24] = [67, 111, 110, 116, 101, 110, 116, 45, 84, 121, 112, 101, 58, 32, 116, 101, 120, 116, 47, 112, 108, 97, 105, 110];
                push_bytes(&mut buf, ct.as_slice());
                buf.push(13);
                buf.push(10);
            },
        }
        buf.push(13);
        buf.push(10);
        match &self.body {
            Some(b) => {
                push_bytes(&mut buf, b.as_slice());
            },
            None => {},
        }
        proof {
            assert(buf@ =~= spec_encode_response(
                self.status_code,
                self.headers_view(),
                opt_view(self.body),
            ));
        }
        buf
    }
}

/// In a list with pairwise distinct keys, `map_of` holds exactly the
/// pairs of the list.
pub proof fn lemma_map_of_props(ps: Seq<(Seq<u8>, Seq<u8>)>)
    requires
        forall|i: int, j: int| 0 <= i < j < ps.len() ==> (#[trigger] ps[i]).0 != (#[trigger] ps[j]).0,
    ensures
        forall|i: int|
            0 <= i < ps.len() ==> map_of(ps).contains_key((#[trigger] ps[i]).0) && map_of(ps)[ps[i].0]
                == ps[i].1,
        forall|k: Seq<u8>|
            #[trigger] map_of(ps).contains_key(k) ==> exists|i: int|
                0 <= i < ps.len() && (#[trigger] ps[i]).0 == k,
    decreases ps.len(),
{
    if ps.len() > 0 {
        let prev = ps.drop_last();
        lemma_map_of_props(prev);
        assert(forall|i: int| 0 <= i < prev.len() ==> prev[i] == ps[i]);
        assert forall|i: int| 0 <= i < ps.len() implies map_of(ps).contains_key(
            (#[trigger] ps[i]).0,
        ) && map_of(ps)[ps[i].0] == ps[i].1 by {
            if i < ps.len() - 1 {
                assert(ps[i].0 != ps.last().0);
                assert(map_of(prev).contains_key(ps[i].0) && map_of(prev)[ps[i].0] == ps[i].1);
            }
        }
        assert forall|k: Seq<u8>| #[trigger] map_of(ps).contains_key(k) implies exists|i: int|
            0 <= i < ps.len() && (#[trigger] ps[i]).0 == k by {
            if k == ps.last().0 {
                assert(ps[ps.len() - 1].0 == k);
            } else {
                assert(map_of(prev).contains_key(k));
                let i = choose|i: int| 0 <= i < prev.len() && prev[i].0 == k;
                assert(ps[i].0 == k);
            }
        }
    }
}

/// Strictly sorted keys are pairwise distinct.
pub proof fn lemma_sorted_unique(ps: Seq<(Seq<u8>, Seq<u8>)>)
    requires
        forall|i: int, j: int|
            0 <= i < j < ps.len() ==> lex_lt((#[trigger] ps[i]).0, (#[trigger] ps[j]).0),
    ensures
        forall|i: int, j: int| 0 <= i < j < ps.len() ==> (#[trigger] ps[i]).0 != (#[trigger] ps[j]).0,
{
    assert forall|i: int, j: int| 0 <= i < j < ps.len() implies (#[trigger] ps[i]).0 != (
    #[trigger] ps[j]).0 by {
        if ps[i].0 == ps[j].0 {
            assert(lex_lt(ps[i].0, ps[j].0));
            lemma_lex_irrefl(ps[i].0);
        }
    }
}

impl HttpRequest {
    /// Encode the request, exactly as `spec_encode_request` states.
    pub fn encode(self) -> (r: Vec<u8>)
        ensures
            r@ == spec_encode_request(
                self.method,
                self.url@,
                pairs_view(self.headers@),
                opt_view(self.body),
            ),
    {
        let mut buf: Vec<u8> = self.method.as_bytes();
        buf.push(32);
        push_bytes(&mut buf, self.url.as_slice());
        buf.push(32);
        let ver: [u8; 8] = [72, 84, 84, 80, 47, 49, 46, 49];
        push_bytes(&mut buf, ver.as_slice());
        buf.push(13);
        buf.push(10);
        push_header_block(&mut buf, &self.headers);
        buf.push(13);
        buf.push(10);
        match &self.body {
            Some(b) => {
                push_bytes(&mut buf, b.as_slice());
                buf.push(13);
                buf.push(10);
            },
            None => {},
        }
        proof {
            assert(buf@ =~= spec_encode_request(
                self.method,
                self.url@,
                pairs_view(self.headers@),
                opt_view(self.body),
            ));
        }
        buf
    }
}

/// The concatenation of lines, each closed by the line terminator.
pub open spec fn crlf_join(ls: Seq<Seq<u8>>) -> Seq<u8>
    decreases ls.len(),
{
    if ls.len() == 0 {
        Seq::empty()
    } else {
        (ls[0] + crlf()) + crlf_join(ls.skip(1))
    }
}

/// The header lines of a header list, without terminators.
pub open spec fn header_lines(hs: Seq<(Seq<u8>, Seq<u8>)>) -> Seq<Seq<u8>> {
    Seq::new(hs.len(), |i: int| hs[i].0 + sep_bytes() + hs[i].1)
}

proof fn lemma_crlf_join_concat(a: Seq<Seq<u8>>, b: Seq<Seq<u8>>)
    ensures
        crlf_join(a + b) == crlf_join(a) + crlf_join(b),
    decreases a.len(),
{
    if a.len() == 0 {
        assert(a + b =~= b);
        assert(crlf_join(a) + crlf_join(b) =~= crlf_join(b));
    } else {
        assert((a + b)[0] == a[0]);
        assert((a + b).skip(1) =~= a.skip(1) + b);
        lemma_crlf_join_concat(a.skip(1), b);
        assert((a[0] + crlf()) + (crlf_join(a.skip(1)) + crlf_join(b)) =~= ((a[0] + crlf())
            + crlf_join(a.skip(1))) + crlf_join(b));
    }
}

proof fn lemma_crlf_join_one(l: Seq<u8>)
    ensures
        crlf_join(seq![l]) == l + crlf(),
{
    assert(seq![l].skip(1) =~= Seq::<Seq<u8>>::empty());
    assert(crlf_join(Seq::<Seq<u8>>::empty()) == Seq::<u8>::empty());
    assert(crlf_join(seq![l]) == (l + crlf()) + crlf_join(seq![l].skip(1)));
    assert((l + crlf()) + Seq::<u8>::empty() =~= l + crlf());
}

proof fn lemma_header_block_is_join(hs: Seq<(Seq<u8>, Seq<u8>)>)
    ensures
        header_block_bytes(hs) == crlf_join(header_lines(hs)),
    decreases hs.len(),
{
    if hs.len() == 0 {
        assert(header_lines(hs) =~= Seq::<Seq<u8>>::empty());
    } else {
        let prev = hs.drop_last();
        lemma_header_block_is_join(prev);
        assert(header_lines(hs) =~= header_lines(prev) + seq![
            hs.last().0 + sep_bytes() + hs.last().1,
        ]);
        lemma_crlf_join_concat(header_lines(prev), seq![hs.last().0 + sep_bytes() + hs.last().1]);
        lemma_crlf_join_one(hs.last().0 + sep_bytes() + hs.last().1);
        assert(header_line_bytes(hs.last()) =~= (hs.last().0 + sep_bytes() + hs.last().1)
            + crlf());
    }
}

proof fn lemma_split_crlf_join(ls: Seq<Seq<u8>>)
    requires
        forall|i: int| 0 <= i < ls.len() ==> find_byte(#[trigger] ls[i], 10u8) < 0,
    ensures
        split_byte(crlf_join(ls), 10u8).len() == ls.len() + 1,
        split_byte(crlf_join(ls), 10u8).last() == Seq::<u8>::empty(),
        forall|i: int|
            0 <= i < ls.len() ==> split_byte(crlf_join(ls), 10u8)[i] == #[trigger] ls[i] + seq![
                13u8,
            ],
    decreases ls.len(),
{
    if ls.len() == 0 {
        lemma_find_byte(Seq::<u8>::empty(), 10u8);
        assert(split_byte(Seq::<u8>::empty(), 10u8) == seq![Seq::<u8>::empty()]);
    } else {
        let a = ls[0] + seq![13u8];
        assert(find_byte(seq![13u8], 10u8) < 0) by {
            lemma_find_byte_absent(seq![13u8], 10u8);
        }
        lemma_find_byte_concat_clean(ls[0], seq![13u8], 10u8);
        assert(crlf_join(ls) =~= a + seq![10u8] + crlf_join(ls.skip(1)));
        lemma_split_byte_append(a, 10u8, crlf_join(ls.skip(1)));
        lemma_split_crlf_join(ls.skip(1));
        assert forall|i: int| 0 <= i < ls.len() implies split_byte(crlf_join(ls), 10u8)[i]
            == #[trigger] ls[i] + seq![13u8] by {
            if i > 0 {
                assert(split_byte(crlf_join(ls), 10u8)[i] == split_byte(
                    crlf_join(ls.skip(1)),
                    10u8,
                )[i - 1]);
                assert(ls.skip(1)[i - 1] == ls[i]);
            }
        }
    }
}

proof fn lemma_crlf_join_last(ls: Seq<Seq<u8>>)
    requires
        ls.len() > 0,
    ensures
        crlf_join(ls).len() > 0,
        crlf_join(ls).last() == 10u8,
    decreases ls.len(),
{
    if ls.len() == 1 {
        assert(crlf_join(ls.skip(1)) =~= Seq::<u8>::empty());
        assert(crlf_join(ls) =~= ls[0] + crlf());
    } else {
        lemma_crlf_join_last(ls.skip(1));
    }
}

/// Joining lines that hold no line feed and splitting the result gives
/// the lines back.
proof fn lemma_message_lines_join(ls: Seq<Seq<u8>>)
    requires
        ls.len() > 0,
        forall|i: int| 0 <= i < ls.len() ==> find_byte(#[trigger] ls[i], 10u8) < 0,
    ensures
        message_lines(crlf_join(ls)) == ls,
{
    let s = crlf_join(ls);
    lemma_split_crlf_join(ls);
    lemma_crlf_join_last(ls);
    lemma_split_byte_drop_trailing(s, 10u8);
    let core = split_byte(s.take(s.len() - 1), 10u8);
    assert(split_byte(s, 10u8) == core + seq![Seq::<u8>::empty()]);
    assert(core.len() == ls.len());
    assert forall|i: int| 0 <= i < ls.len() implies core[i] == #[trigger] ls[i] + seq![13u8] by {
        assert((core + seq![Seq::<u8>::empty()])[i] == core[i]);
    }
    assert(message_lines(s) == strip_all(core));
    assert forall|i: int| 0 <= i < ls.len() implies strip_all(core)[i] == ls[i] by {
        assert(strip_all(core)[i] == strip_cr(ls[i] + seq![13u8]));
        assert((ls[i] + seq![13u8]).last() == 13u8);
        assert(strip_cr(ls[i] + seq![13u8]) =~= ls[i]);
    }
    assert(message_lines(s) =~= ls);
}

/// The method tokens hold neither a space nor a line feed.
proof fn lemma_method_token_clean(m: HttpMethod)
    ensures
        find_byte(method_token(m), 32u8) < 0,
        find_byte(method_token(m), 10u8) < 0,
{
    lemma_find_byte_absent(method_token(m), 32u8);
    lemma_find_byte_absent(method_token(m), 10u8);
}

/// A well-formed header pair: both sides UTF-8 and free of line feeds,
/// and the key free of the `": "` separator.
pub open spec fn wf_header_pair(kv: (Seq<u8>, Seq<u8>)) -> bool {
    &&& is_utf8(kv.0)
    &&& is_utf8(kv.1)
    &&& find_byte(kv.0, 10u8) < 0
    &&& find_byte(kv.1, 10u8) < 0
    &&& find_sep(kv.0) < 0
}

/// Components from which a request encodes so that decoding recovers it:
/// a url that starts with `/`, is UTF-8 and holds no space or line feed;
/// well-formed header pairs; and a body, if any, that is nonempty and
/// holds no line feed.
pub open spec fn spec_req_wf(
    m: HttpMethod,
    url: Seq<u8>,
    hs: Seq<(Seq<u8>, Seq<u8>)>,
    body: Option<Seq<u8>>,
) -> bool {
    &&& url.len() > 0
    &&& url[0] == 47u8
    &&& is_utf8(url)
    &&& find_byte(url, 32u8) < 0
    &&& find_byte(url, 10u8) < 0
    &&& forall|i: int| 0 <= i < hs.len() ==> wf_header_pair(#[trigger] hs[i])
    &&& match body {
        Some(b) => b.len() > 0 && find_byte(b, 10u8) < 0,
        None => true,
    }
}

proof fn lemma_header_section_round(
    ls: Seq<Seq<u8>>,
    i: int,
    hs: Seq<(Seq<u8>, Seq<u8>)>,
    body: Option<Seq<u8>>,
)
    requires
        0 <= i,
        ls.len() == i + hs.len() + 1 + (match body {
            Some(_) => 1int,
            None => 0int,
        }),
        forall|j: int|
            0 <= j < hs.len() ==> ls[i + j] == (#[trigger] hs[j]).0 + sep_bytes() + hs[j].1,
        ls[i + hs.len()].len() == 0,
        match body {
            Some(b) => ls[i + hs.len() + 1] == b,
            None => true,
        },
        forall|j: int| 0 <= j < hs.len() ==> wf_header_pair(#[trigger] hs[j]),
    ensures
        header_section(ls, i) == Ok::<(Seq<(Seq<u8>, Seq<u8>)>, Option<Seq<u8>>), HttpError>(
            (hs, body),
        ),
    decreases hs.len(),
{
    if hs.len() == 0 {
        assert(ls[i].len() == 0);
        match body {
            Some(b) => {
                assert(i + 1 < ls.len());
                assert(header_section(ls, i) == Ok::<
                    (Seq<(Seq<u8>, Seq<u8>)>, Option<Seq<u8>>),
                    HttpError,
                >((Seq::empty(), Some(ls[i + 1]))));
                assert(hs =~= Seq::<(Seq<u8>, Seq<u8>)>::empty());
            },
            None => {
                assert(i + 1 == ls.len());
                assert(hs =~= Seq::<(Seq<u8>, Seq<u8>)>::empty());
            },
        }
    } else {
        let k = hs[0].0;
        let v = hs[0].1;
        let line = ls[i];
        assert(line == k + sep_bytes() + v);
        assert(line.len() >= 2);
        assert(is_utf8(line)) by {
            lemma_utf8_ascii(sep_bytes());
            lemma_utf8_append(sep_bytes(), v);
            lemma_utf8_append(k, sep_bytes() + v);
            assert(k + (sep_bytes() + v) =~= line);
        }
        assert(find_sep(line) == k.len()) by {
            lemma_find_sep_append(k, v);
            assert(k + seq![58u8, 32u8] + v =~= line);
        }
        assert(line.take(k.len() as int) =~= k);
        assert(line.skip(k.len() as int + 2) =~= v);
        assert(parse_header_line(line) == Some((k, v)));
        lemma_header_section_round(ls, i + 1, hs.skip(1), body);
        assert(seq![(k, v)] + hs.skip(1) =~= hs);
    }
}

/// Round trip: encoding a request built from well-formed components and
/// decoding the bytes recovers the method, the url, the body, and the
/// mapping the headers denote.
pub proof fn lemma_request_round_trip(
    m: HttpMethod,
    url: Seq<u8>,
    hs: Seq<(Seq<u8>, Seq<u8>)>,
    body: Option<Seq<u8>>,
)
    requires
        spec_req_wf(m, url, hs, body),
    ensures
        spec_decode(spec_encode_request(m, url, hs, body)) == Ok::<ReqModel, HttpError>(
            ReqModel { method: m, url: url, headers: map_of(hs), body: body },
        ),
{
    let reqline = method_token(m) + seq![32u8] + url + seq![32u8] + http11();
    let hlines = header_lines(hs);
    let bodyl: Seq<Seq<u8>> = match body {
        Some(b) => seq![b],
        None => Seq::empty(),
    };
    let all = seq![reqline] + hlines + seq![Seq::<u8>::empty()] + bodyl;
    let enc = spec_encode_request(m, url, hs, body);

    // the encoding is the joined lines
    assert(enc == crlf_join(all)) by {
        lemma_crlf_join_concat(seq![reqline] + hlines + seq![Seq::<u8>::empty()], bodyl);
        lemma_crlf_join_concat(seq![reqline] + hlines, seq![Seq::<u8>::empty()]);
        lemma_crlf_join_concat(seq![reqline], hlines);
        lemma_crlf_join_one(reqline);
        lemma_crlf_join_one(Seq::<u8>::empty());
        lemma_header_block_is_join(hs);
        match body {
            Some(b) => {
                lemma_crlf_join_one(b);
                assert(crlf_join(all) =~= ((reqline + crlf()) + header_block_bytes(hs) + (
                Seq::<u8>::empty() + crlf())) + (b + crlf()));
                assert(enc =~= crlf_join(all));
            },
            None => {
                assert(crlf_join(bodyl) =~= Seq::<u8>::empty());
                assert(crlf_join(all) =~= ((reqline + crlf()) + header_block_bytes(hs) + (
                Seq::<u8>::empty() + crlf())));
                assert(enc =~= crlf_join(all));
            },
        }
    }

    // every line is free of line feeds
    assert forall|i: int| 0 <= i < all.len() implies find_byte(#[trigger] all[i], 10u8) < 0 by {
        lemma_method_token_clean(m);
        lemma_find_byte_absent(seq![32u8], 10u8);
        lemma_find_byte_absent(http11(), 10u8);
        lemma_find_byte_absent(Seq::<u8>::empty(), 10u8);
        lemma_find_byte_absent(sep_bytes(), 10u8);
        if i == 0 {
            lemma_find_byte_concat_clean(method_token(m), seq![32u8], 10u8);
            lemma_find_byte_concat_clean(method_token(m) + seq![32u8], url, 10u8);
            lemma_find_byte_concat_clean(method_token(m) + seq![32u8] + url, seq![32u8], 10u8);
            lemma_find_byte_concat_clean(
                method_token(m) + seq![32u8] + url + seq![32u8],
                http11(),
                10u8,
            );
        } else if i < 1 + hs.len() {
            let j = i - 1;
            assert(all[i] == hlines[j]);
            assert(hlines[j] == hs[j].0 + sep_bytes() + hs[j].1);
            assert(wf_header_pair(hs[j]));
            lemma_find_byte_concat_clean(hs[j].0, sep_bytes(), 10u8);
            lemma_find_byte_concat_clean(hs[j].0 + sep_bytes(), hs[j].1, 10u8);
        } else if i == 1 + hs.len() {
            assert(all[i] == Seq::<u8>::empty());
        } else {
            match body {
                Some(b) => {
                    assert(all[i] == b);
                },
                None => {},
            }
        }
    }

    lemma_message_lines_join(all);
    let ls = message_lines(enc);
    assert(ls == all);
    assert(ls.len() > 0);
    assert(ls[0] == reqline);

    // the request line splits into the three tokens
    let toks = split_byte(reqline, 32u8);
    assert(toks =~= seq![method_token(m), url, http11()]) by {
        lemma_method_token_clean(m);
        lemma_split_byte_append(method_token(m), 32u8, url + seq![32u8] + http11());
        assert(method_token(m) + seq![32u8] + (url + seq![32u8] + http11()) =~= reqline);
        lemma_split_byte_append(url, 32u8, http11());
        lemma_find_byte_absent(http11(), 32u8);
        lemma_split_byte_clean(http11(), 32u8);
    }
    lemma_method_of_token(m);
    assert(method_of(toks[0]) == Some(m));
    assert(toks.len() == 3);
    assert(toks[1] == url);

    // the header block parses back
    assert forall|j: int| 0 <= j < hs.len() implies ls[1 + j] == (#[trigger] hs[j]).0
        + sep_bytes() + hs[j].1 by {
        assert(ls[1 + j] == hlines[j]);
    }
    assert(ls[1 + hs.len() as int].len() == 0);
    match body {
        Some(b) => {
            assert(ls[1 + hs.len() as int + 1] == b);
        },
        None => {},
    }
    lemma_header_section_round(ls, 1, hs, body);
    assert(spec_decode(enc) == Ok::<ReqModel, HttpError>(
        ReqModel { method: m, url: url, headers: map_of(hs), body: body },
    ));
}

/// Every encoded response carries a `Content-Length` line whose decimal
/// value is the byte length of the body, `0` when the body is absent.
pub proof fn lemma_response_content_length(
    st: HttpStatusCode,
    hs: Option<Seq<(Seq<u8>, Seq<u8>)>>,
    body: Option<Seq<u8>>,
)
    ensures
        ({
            let enc = spec_encode_response(st, hs, body);
            let cl = content_length_line(spec_body_len(body));
            exists|i: int|
                0 <= i && i + cl.len() <= enc.len() && #[trigger] enc.subrange(i, i + cl.len())
                    == cl
        }),
{
    let enc = spec_encode_response(st, hs, body);
    let cl = content_length_line(spec_body_len(body));
    let pre = seq![72u8, 84u8, 84u8, 80u8, 47u8, 49u8, 46u8, 49u8, 32u8] + status_text(st)
        + crlf();
    let i = pre.len() as int;
    assert(enc.subrange(i, i + cl.len()) =~= cl);
}

} // verus!
