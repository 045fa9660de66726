//! The start-line grammar of HTTP/1.x messages, as this server recognizes it.
//!
//! A request line is `method SP target SP version CRLF`, where the method is
//! one of the eight request methods, the target is a run of path bytes
//! (`/ . 0-9 a-z A-Z`) optionally followed by `?` and a nonempty run of query
//! bytes (`0-9 a-z A-Z & =`), and the version is one of `HTTP/1.0`,
//! `HTTP/1.1`, `HTTP/2.0`. A response line is `version SP code SP msg CRLF`
//! with the code drawn from a fixed set and the message drawn from the same
//! character classes as the target. The predicates here are the single
//! definition; the executable recognizers are proved against them.
//!
//! The separator is deliberately the space byte alone, not the wider
//! whitespace class a regex `\s` would admit. Start lines are read up to
//! the first LF, so a newline can never separate tokens; and the codec
//! carves the line at single spaces, which a tab-separated line would
//! break — the looser class would accept lines whose method, target and
//! version the parser cannot recover. A line with any other whitespace
//! between its tokens is therefore not a start line here.
use vstd::prelude::*;

verus! {

pub open spec fn is_alpha(b: u8) -> bool {
    (('A' as u8) <= b && b <= ('Z' as u8)) || (('a' as u8) <= b && b <= ('z' as u8))
}

/// Bytes allowed in the path part of a request target: `/ . 0-9 a-z A-Z`.
pub open spec fn is_path_byte(b: u8) -> bool {
    b == ('/' as u8) || b == ('.' as u8) || crate::ascii::is_digit(b) || is_alpha(b)
}

/// Bytes allowed in the query part of a request target: `0-9 a-z A-Z & =`.
pub open spec fn is_query_byte(b: u8) -> bool {
    crate::ascii::is_digit(b) || is_alpha(b) || b == ('&' as u8) || b == ('=' as u8)
}

pub open spec fn tok_get() -> Seq<u8> {
    seq![('G' as u8), ('E' as u8), ('T' as u8)]
}

pub open spec fn tok_head() -> Seq<u8> {
    seq![('H' as u8), ('E' as u8), ('A' as u8), ('D' as u8)]
}

pub open spec fn tok_post() -> Seq<u8> {
    seq![('P' as u8), ('O' as u8), ('S' as u8), ('T' as u8)]
}

pub open spec fn tok_put() -> Seq<u8> {
    seq![('P' as u8), ('U' as u8), ('T' as u8)]
}

pub open spec fn tok_delete() -> Seq<u8> {
    seq![('D' as u8), ('E' as u8), ('L' as u8), ('E' as u8), ('T' as u8), ('E' as u8)]
}

pub open spec fn tok_connect() -> Seq<u8> {
    seq![('C' as u8), ('O' as u8), ('N' as u8), ('N' as u8), ('E' as u8), ('C' as u8), ('T' as u8)]
}

pub open spec fn tok_options() -> Seq<u8> {
    seq![('O' as u8), ('P' as u8), ('T' as u8), ('I' as u8), ('O' as u8), ('N' as u8), ('S' as u8)]
}

pub open spec fn tok_trace() -> Seq<u8> {
    seq![('T' as u8), ('R' as u8), ('A' as u8), ('C' as u8), ('E' as u8)]
}

pub open spec fn is_method_token(s: Seq<u8>) -> bool {
    ||| s == tok_get()
    ||| s == tok_head()
    ||| s == tok_post()
    ||| s == tok_put()
    ||| s == tok_delete()
    ||| s == tok_connect()
    ||| s == tok_options()
    ||| s == tok_trace()
}

/// The token `HTTP/1.0`.
pub open spec fn version_10() -> Seq<u8> {
    seq![
        ('H' as u8),
        ('T' as u8),
        ('T' as u8),
        ('P' as u8),
        ('/' as u8),
        ('1' as u8),
        ('.' as u8),
        ('0' as u8),
    ]
}

/// The token `HTTP/1.1`.
pub open spec fn version_11() -> Seq<u8> {
    seq![
        ('H' as u8),
        ('T' as u8),
        ('T' as u8),
        ('P' as u8),
        ('/' as u8),
        ('1' as u8),
        ('.' as u8),
        ('1' as u8),
    ]
}

/// The token `HTTP/2.0`.
pub open spec fn version_20() -> Seq<u8> {
    seq![
        ('H' as u8),
        ('T' as u8),
        ('T' as u8),
        ('P' as u8),
        ('/' as u8),
        ('2' as u8),
        ('.' as u8),
        ('0' as u8),
    ]
}

pub open spec fn is_version_token(s: Seq<u8>) -> bool {
    s == version_10() || s == version_11() || s == version_20()
}

pub open spec fn sp() -> u8 {
    ' ' as u8
}

pub open spec fn cr() -> u8 {
    0x0d
}

pub open spec fn lf() -> u8 {
    0x0a
}

pub open spec fn starts_with(s: Seq<u8>, p: Seq<u8>) -> bool {
    p.len() <= s.len() && s.subrange(0, p.len() as int) == p
}

/// Length of the method token when `s` opens with a method and a space;
/// -1 otherwise. The eight tokens are prefix-free, so at most one fits.
pub open spec fn method_sp_len(s: Seq<u8>) -> int {
    if starts_with(s, tok_get().push(sp())) {
        3
    } else if starts_with(s, tok_head().push(sp())) {
        4
    } else if starts_with(s, tok_post().push(sp())) {
        4
    } else if starts_with(s, tok_put().push(sp())) {
        3
    } else if starts_with(s, tok_delete().push(sp())) {
        6
    } else if starts_with(s, tok_connect().push(sp())) {
        7
    } else if starts_with(s, tok_options().push(sp())) {
        7
    } else if starts_with(s, tok_trace().push(sp())) {
        5
    } else {
        -1
    }
}

/// The first index at or after `from` that does not hold a path byte;
/// `t.len()` when all of them do.
pub open spec fn path_end(t: Seq<u8>, from: int) -> int
    decreases t.len() - from,
{
    if from < 0 || from >= t.len() {
        t.len() as int
    } else if is_path_byte(t[from]) {
        path_end(t, from + 1)
    } else {
        from
    }
}

pub proof fn lemma_path_end(t: Seq<u8>, from: int)
    requires
        0 <= from <= t.len(),
    ensures
        from <= path_end(t, from) <= t.len(),
        path_end(t, from) < t.len() ==> !is_path_byte(t[path_end(t, from)]),
        forall|i: int| from <= i < path_end(t, from) ==> is_path_byte(#[trigger] t[i]),
    decreases t.len() - from,
{
    if from < t.len() && is_path_byte(t[from]) {
        lemma_path_end(t, from + 1);
    }
}

/// A valid request target: a run of path bytes, optionally followed by `?`
/// and at least one query byte. Both parts may be empty together.
pub open spec fn valid_target(t: Seq<u8>) -> bool {
    let k = path_end(t, 0);
    k == t.len() || (t[k] == ('?' as u8) && k + 1 < t.len() && (forall|i: int|
        k < i < t.len() ==> is_query_byte(#[trigger] t[i])))
}

/// A valid request start line: `method SP target SP version CRLF`.
pub open spec fn valid_request_line(s: Seq<u8>) -> bool {
    let ml = method_sp_len(s);
    &&& ml >= 0
    &&& s.len() >= ml + 12
    &&& s[s.len() - 11] == sp()
    &&& is_version_token(s.subrange(s.len() - 10, s.len() - 2))
    &&& s[s.len() - 2] == cr()
    &&& s[s.len() - 1] == lf()
    &&& valid_target(s.subrange(ml + 1, s.len() - 11))
}

/// The method token of a valid request line.
pub open spec fn req_method_token(s: Seq<u8>) -> Seq<u8> {
    s.subrange(0, method_sp_len(s))
}

/// The target of a valid request line: everything between the two spaces.
pub open spec fn req_target(s: Seq<u8>) -> Seq<u8> {
    s.subrange(method_sp_len(s) + 1, s.len() - 11)
}

/// The version token of a valid request line, without the trailing CRLF.
pub open spec fn req_version(s: Seq<u8>) -> Seq<u8> {
    s.subrange(s.len() - 10, s.len() - 2)
}

pub open spec fn code_of(a: char, b: char, c: char) -> Seq<u8> {
    seq![a as u8, b as u8, c as u8]
}

/// The response status codes the wire grammar accepts.
pub open spec fn is_status_code(s: Seq<u8>) -> bool {
    ||| s == code_of('2', '0', '0')
    ||| s == code_of('4', '0', '0')
    ||| s == code_of('4', '0', '1')
    ||| s == code_of('4', '0', '3')
    ||| s == code_of('4', '0', '4')
    ||| s == code_of('5', '0', '0')
    ||| s == code_of('5', '0', '3')
}

/// A valid response start line: `version SP code SP msg CRLF`, the message
/// drawn from the same character classes as a request target.
pub open spec fn valid_response_line(s: Seq<u8>) -> bool {
    &&& s.len() >= 15
    &&& is_version_token(s.subrange(0, 8))
    &&& s[8] == sp()
    &&& is_status_code(s.subrange(9, 12))
    &&& s[12] == sp()
    &&& valid_target(s.subrange(13, s.len() - 2))
    &&& s[s.len() - 2] == cr()
    &&& s[s.len() - 1] == lf()
}

/// The version token of a valid response line.
pub open spec fn resp_version(s: Seq<u8>) -> Seq<u8> {
    s.subrange(0, 8)
}

/// The status code of a valid response line.
pub open spec fn resp_code(s: Seq<u8>) -> Seq<u8> {
    s.subrange(9, 12)
}

/// The status message of a valid response line, without the trailing CRLF.
pub open spec fn resp_msg(s: Seq<u8>) -> Seq<u8> {
    s.subrange(13, s.len() - 2)
}

/// Executable twin of `is_path_byte`.
pub fn path_byte(b: u8) -> (r: bool)
    ensures
        r == is_path_byte(b),
{
    b == ('/' as u8) || b == ('.' as u8) || (('0' as u8) <= b && b <= ('9' as u8)) || (('A' as u8)
        <= b && b <= ('Z' as u8)) || (('a' as u8) <= b && b <= ('z' as u8))
}

/// Executable twin of `is_query_byte`.
pub fn query_byte(b: u8) -> (r: bool)
    ensures
        r == is_query_byte(b),
{
    (('0' as u8) <= b && b <= ('9' as u8)) || (('A' as u8) <= b && b <= ('Z' as u8)) || (('a'
        as u8) <= b && b <= ('z' as u8)) || b == ('&' as u8) || b == ('=' as u8)
}

fn has_prefix(s: &[u8], p: &Vec<u8>) -> (r: bool)
    ensures
        r == starts_with(s@, p@),
{
    if p.len() > s.len() {
        return false;
    }
    let mut i: usize = 0;
    while i < p.len()
        invariant
            0 <= i <= p@.len() <= s@.len(),
            forall|j: int| 0 <= j < i ==> s@[j] == p@[j],
        decreases p@.len() - i,
    {
        if s[i] != p[i] {
            assert(s@.subrange(0, p@.len() as int)[i as int] != p@[i as int]);
            return false;
        }
        i += 1;
    }
    assert(s@.subrange(0, p@.len() as int) =~= p@);
    true
}

/// Recognizes a method token followed by a space at the head of `s` and
/// hands back the token's length.
pub(crate) fn method_sp_prefix(s: &[u8]) -> (r: Option<usize>)
    ensures
        match r {
            Some(m) => m as int == method_sp_len(s@),
            None => method_sp_len(s@) == -1,
        },
{
    let t_get: Vec<u8> = vec![('G' as u8), ('E' as u8), ('T' as u8), (' ' as u8)];
    let t_head: Vec<u8> = vec![('H' as u8), ('E' as u8), ('A' as u8), ('D' as u8), (' ' as u8)];
    let t_post: Vec<u8> = vec![('P' as u8), ('O' as u8), ('S' as u8), ('T' as u8), (' ' as u8)];
    let t_put: Vec<u8> = vec![('P' as u8), ('U' as u8), ('T' as u8), (' ' as u8)];
    let t_delete: Vec<u8> = vec![
        ('D' as u8),
        ('E' as u8),
        ('L' as u8),
        ('E' as u8),
        ('T' as u8),
        ('E' as u8),
        (' ' as u8),
    ];
    let t_connect: Vec<u8> = vec![
        ('C' as u8),
        ('O' as u8),
        ('N' as u8),
        ('N' as u8),
        ('E' as u8),
        ('C' as u8),
        ('T' as u8),
        (' ' as u8),
    ];
    let t_options: Vec<u8> = vec![
        ('O' as u8),
        ('P' as u8),
        ('T' as u8),
        ('I' as u8),
        ('O' as u8),
        ('N' as u8),
        ('S' as u8),
        (' ' as u8),
    ];
    let t_trace: Vec<u8> = vec![
        ('T' as u8),
        ('R' as u8),
        ('A' as u8),
        ('C' as u8),
        ('E' as u8),
        (' ' as u8),
    ];
    proof {
        assert(t_get@ =~= tok_get().push(sp()));
        assert(t_head@ =~= tok_head().push(sp()));
        assert(t_post@ =~= tok_post().push(sp()));
        assert(t_put@ =~= tok_put().push(sp()));
        assert(t_delete@ =~= tok_delete().push(sp()));
        assert(t_connect@ =~= tok_connect().push(sp()));
        assert(t_options@ =~= tok_options().push(sp()));
        assert(t_trace@ =~= tok_trace().push(sp()));
    }
    if has_prefix(s, &t_get) {
        Some(3)
    } else if has_prefix(s, &t_head) {
        Some(4)
    } else if has_prefix(s, &t_post) {
        Some(4)
    } else if has_prefix(s, &t_put) {
        Some(3)
    } else if has_prefix(s, &t_delete) {
        Some(6)
    } else if has_prefix(s, &t_connect) {
        Some(7)
    } else if has_prefix(s, &t_options) {
        Some(7)
    } else if has_prefix(s, &t_trace) {
        Some(5)
    } else {
        None
    }
}

/// Checks the target grammar on `s[lo..hi]`.
fn target_ok(s: &[u8], lo: usize, hi: usize) -> (r: bool)
    requires
        lo <= hi <= s@.len(),
    ensures
        r == valid_target(s@.subrange(lo as int, hi as int)),
{
    let ghost t = s@.subrange(lo as int, hi as int);
    proof {
        lemma_path_end(t, 0);
    }
    let mut k: usize = lo;
    while k < hi && path_byte(s[k])
        invariant
            lo <= k <= hi <= s@.len(),
            t == s@.subrange(lo as int, hi as int),
            forall|i: int| 0 <= i < k - lo ==> is_path_byte(#[trigger] t[i]),
        decreases hi - k,
    {
        assert(t[k - lo] == s@[k as int]);
        k += 1;
    }
    let ghost pe = path_end(t, 0);
    proof {
        lemma_path_end(t, 0);
        if k < hi {
            assert(t[k - lo] == s@[k as int]);
            assert(!is_path_byte(t[k - lo]));
            assert(pe == k - lo);
        } else {
            assert(pe == t.len());
        }
    }
    if k == hi {
        return true;
    }
    assert(t[k - lo] == s@[k as int]);
    if s[k] != ('?' as u8) {
        return false;
    }
    if k + 1 >= hi {
        return false;
    }
    let mut j: usize = k + 1;
    while j < hi
        invariant
            lo <= k < k + 1 <= j <= hi <= s@.len(),
            t == s@.subrange(lo as int, hi as int),
            path_end(t, 0) == k - lo,
            forall|i: int| k - lo < i < j - lo ==> is_query_byte(#[trigger] t[i]),
        decreases hi - j,
    {
        assert(t[j - lo] == s@[j as int]);
        if !query_byte(s[j]) {
            proof {
                assert(!is_query_byte(t[j - lo]));
                assert(!valid_target(t));
            }
            return false;
        }
        j += 1;
    }
    true
}

/// Executable twin of `is_version_token` on `s[i..i+8]`.
fn version_at(s: &[u8], i: usize) -> (r: bool)
    requires
        i + 8 <= s@.len(),
    ensures
        r == is_version_token(s@.subrange(i as int, i + 8)),
{
    let ghost v = s@.subrange(i as int, i + 8);
    proof {
        assert(forall|j: int| 0 <= j < 8 ==> v[j] == s@[i + j]);
    }
    let ok = s[i] == ('H' as u8) && s[i + 1] == ('T' as u8) && s[i + 2] == ('T' as u8) && s[i + 3]
        == ('P' as u8) && s[i + 4] == ('/' as u8) && s[i + 6] == ('.' as u8) && ((s[i + 5] == ('1'
        as u8) && (s[i + 7] == ('0' as u8) || s[i + 7] == ('1' as u8))) || (s[i + 5] == ('2' as u8)
        && s[i + 7] == ('0' as u8)));
    proof {
        if ok {
            if s@[i + 5] == ('1' as u8) && s@[i + 7] == ('0' as u8) {
                assert(v =~= version_10());
            } else if s@[i + 5] == ('1' as u8) && s@[i + 7] == ('1' as u8) {
                assert(v =~= version_11());
            } else {
                assert(v =~= version_20());
            }
        }
    }
    ok
}

/// Executable twin of `is_status_code` on `s[i..i+3]`.
fn status_code_at(s: &[u8], i: usize) -> (r: bool)
    requires
        i + 3 <= s@.len(),
    ensures
        r == is_status_code(s@.subrange(i as int, i + 3)),
{
    let ghost c = s@.subrange(i as int, i + 3);
    proof {
        assert(forall|j: int| 0 <= j < 3 ==> c[j] == s@[i + j]);
    }
    let b0 = s[i];
    let b1 = s[i + 1];
    let b2 = s[i + 2];
    let ok = (b0 == ('2' as u8) && b1 == ('0' as u8) && b2 == ('0' as u8)) || (b0 == ('4' as u8)
        && b1 == ('0' as u8) && (b2 == ('0' as u8) || b2 == ('1' as u8) || b2 == ('3' as u8) || b2
        == ('4' as u8))) || (b0 == ('5' as u8) && b1 == ('0' as u8) && (b2 == ('0' as u8) || b2
        == ('3' as u8)));
    proof {
        if ok {
            assert(c =~= code_of(c[0] as char, c[1] as char, c[2] as char));
        }
    }
    ok
}

/// Whether `line` is a well-formed request start line. The connection
/// handler uses this to tell HTTP requests from arbitrary probe bytes.
pub fn is_request_line(line: &[u8]) -> (r: bool)
    ensures
        r == valid_request_line(line@),
{
    match method_sp_prefix(line) {
        None => false,
        Some(ml) => {
            if line.len() < ml + 12 {
                return false;
            }
            let n = line.len();
            if line[n - 11] != (' ' as u8) {
                return false;
            }
            if !version_at(line, n - 10) {
                return false;
            }
            if line[n - 2] != 0x0d || line[n - 1] != 0x0a {
                return false;
            }
            target_ok(line, ml + 1, n - 11)
        },
    }
}

/// Whether `line` is a well-formed response start line.
pub fn is_response_line(line: &[u8]) -> (r: bool)
    ensures
        r == valid_response_line(line@),
{
    if line.len() < 15 {
        return false;
    }
    let n = line.len();
    if !version_at(line, 0) {
        return false;
    }
    if line[8] != (' ' as u8) {
        return false;
    }
    if !status_code_at(line, 9) {
        return false;
    }
    if line[12] != (' ' as u8) {
        return false;
    }
    if line[n - 2] != 0x0d || line[n - 1] != 0x0a {
        return false;
    }
    target_ok(line, 13, n - 2)
}

} // verus!
