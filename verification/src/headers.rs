//! The header block of an HTTP message: lines up to a blank `\r\n` line.
//!
//! Each line is split once on `:`; the name is trimmed, the value is trimmed
//! and has embedded CR and LF removed; a line without `:` is skipped. A line
//! named `Cookie` additionally has its raw value parsed as `;`-separated
//! `name=value` pairs, both sides trimmed. Duplicate names follow
//! last-write-wins. The block may end without a blank line when the input
//! runs out; the unterminated last line still counts as a header line.
use crate::ascii::{find_from, trim};
use crate::dict::{spec_insert, Dict};
use vstd::prelude::*;

verus! {

/// Index just past the line starting at `pos`: past the first LF at or
/// after `pos`, or the end of input when no LF remains.
pub open spec fn line_end(s: Seq<u8>, pos: int) -> int {
    let nl = find_from(s, pos, crate::grammar::lf());
    if nl == s.len() {
        s.len() as int
    } else {
        nl + 1
    }
}

pub proof fn lemma_line_end(s: Seq<u8>, pos: int)
    requires
        0 <= pos <= s.len(),
    ensures
        pos <= line_end(s, pos) <= s.len(),
        pos < s.len() ==> line_end(s, pos) > pos,
{
    crate::ascii::lemma_find_from(s, pos, crate::grammar::lf());
}

/// The blank line that ends a header block.
pub open spec fn crlf_line() -> Seq<u8> {
    seq![crate::grammar::cr(), crate::grammar::lf()]
}

/// Index just past the header block that starts at `pos`: past the blank
/// line, or the end of input when the block is not terminated.
pub open spec fn hb_end(s: Seq<u8>, pos: int) -> int
    decreases s.len() - pos,
{
    if pos < 0 || pos >= s.len() {
        pos
    } else {
        let e = line_end(s, pos);
        if s.subrange(pos, e) == crlf_line() {
            e
        } else if pos < e && e <= s.len() {
            hb_end(s, e)
        } else {
            e
        }
    }
}

/// Whether the header block that starts at `pos` reaches its blank line.
pub open spec fn hb_reached(s: Seq<u8>, pos: int) -> bool
    decreases s.len() - pos,
{
    if pos < 0 || pos >= s.len() {
        false
    } else {
        let e = line_end(s, pos);
        if s.subrange(pos, e) == crlf_line() {
            true
        } else if pos < e && e <= s.len() {
            hb_reached(s, e)
        } else {
            false
        }
    }
}

pub proof fn lemma_hb_end_bounds(s: Seq<u8>, pos: int)
    requires
        0 <= pos <= s.len(),
    ensures
        pos <= hb_end(s, pos) <= s.len(),
    decreases s.len() - pos,
{
    if pos < s.len() {
        lemma_line_end(s, pos);
        let e = line_end(s, pos);
        if s.subrange(pos, e) == crlf_line() {
        } else if pos < e && e <= s.len() {
            lemma_hb_end_bounds(s, e);
        } else {
        }
    }
}

/// Cutting the input after a line boundary does not move the boundaries
/// before the cut: on the prefix, a line ends where it ended, or at the cut
/// when its terminator lay beyond it.
pub proof fn lemma_line_end_prefix(s: Seq<u8>, cut: int, pos: int)
    requires
        0 <= pos <= cut <= s.len(),
    ensures
        line_end(s.subrange(0, cut), pos) == if line_end(s, pos) <= cut {
            line_end(s, pos)
        } else {
            cut
        },
{
    let r = s.subrange(0, cut);
    let nl = crate::ascii::find_from(s, pos, crate::grammar::lf());
    crate::ascii::lemma_find_from(s, pos, crate::grammar::lf());
    if nl < cut {
        crate::ascii::lemma_find_from_is(r, pos, crate::grammar::lf(), nl);
    } else {
        assert(forall|j: int| pos <= j < r.len() ==> r[j] != crate::grammar::lf());
        crate::ascii::lemma_find_from_absent(r, pos, crate::grammar::lf());
    }
}

/// Cutting the input anywhere at or past the end of the header block leaves
/// the whole block intact: its end, whether it was terminated, and both
/// entry folds read the same on the prefix.
pub proof fn lemma_block_prefix(
    s: Seq<u8>,
    cut: int,
    pos: int,
    es: Seq<(Seq<u8>, Seq<u8>)>,
    cs: Seq<(Seq<u8>, Seq<u8>)>,
)
    requires
        0 <= pos <= cut <= s.len(),
        hb_end(s, pos) <= cut,
    ensures
        hb_end(s.subrange(0, cut), pos) == hb_end(s, pos),
        hb_reached(s.subrange(0, cut), pos) == hb_reached(s, pos),
        head_entries_from(s.subrange(0, cut), pos, es) == head_entries_from(s, pos, es),
        cookie_entries_from(s.subrange(0, cut), pos, cs) == cookie_entries_from(s, pos, cs),
    decreases s.len() - pos,
{
    let r = s.subrange(0, cut);
    if pos >= s.len() {
    } else if pos == cut {
        lemma_line_end(s, pos);
        lemma_hb_end_bounds(s, line_end(s, pos));
        assert(false);
    } else {
        let e = line_end(s, pos);
        lemma_line_end(s, pos);
        if e > cut {
            lemma_hb_end_bounds(s, e);
            if s.subrange(pos, e) == crlf_line() {
                assert(hb_end(s, pos) == e);
            }
            assert(false);
        }
        lemma_line_end_prefix(s, cut, pos);
        assert(line_end(r, pos) == e);
        assert(r.subrange(pos, e) =~= s.subrange(pos, e));
        if s.subrange(pos, e) == crlf_line() {
        } else {
            assert(hb_end(s, pos) == hb_end(s, e));
            lemma_block_prefix(s, cut, e, head_step(es, s.subrange(pos, e)), cookie_step(cs, s.subrange(pos, e)));
        }
    }
}

/// A header value as stored: trimmed, with embedded CR and LF removed.
pub open spec fn clean_value(v: Seq<u8>) -> Seq<u8> {
    trim(v).filter(|b: u8| crate::ascii::not_cr_lf(b))
}

/// The entry a header line contributes: name before the first `:`, value
/// after it; `None` for a line without `:`.
pub open spec fn head_line_entry(line: Seq<u8>) -> Option<(Seq<u8>, Seq<u8>)> {
    let c = find_from(line, 0, ':' as u8);
    if c == line.len() {
        None
    } else {
        Some((trim(line.subrange(0, c)), clean_value(line.subrange(c + 1, line.len() as int))))
    }
}

pub open spec fn head_step(es: Seq<(Seq<u8>, Seq<u8>)>, line: Seq<u8>) -> Seq<(Seq<u8>, Seq<u8>)> {
    match head_line_entry(line) {
        None => es,
        Some(p) => spec_insert(es, p.0, p.1),
    }
}

/// The header entries accumulated from `pos` to the end of the block,
/// starting from `es`.
pub open spec fn head_entries_from(s: Seq<u8>, pos: int, es: Seq<(Seq<u8>, Seq<u8>)>) -> Seq<
    (Seq<u8>, Seq<u8>),
>
    decreases s.len() - pos,
{
    if pos < 0 || pos >= s.len() {
        es
    } else {
        let e = line_end(s, pos);
        if s.subrange(pos, e) == crlf_line() {
            es
        } else if pos < e && e <= s.len() {
            head_entries_from(s, e, head_step(es, s.subrange(pos, e)))
        } else {
            es
        }
    }
}

/// A `name=value` pair from one cookie segment: name before the first `=`,
/// value between the first and the second `=` (or the end), both trimmed;
/// `None` for a segment without `=`.
pub open spec fn eq_pair_trim(seg: Seq<u8>) -> Option<(Seq<u8>, Seq<u8>)> {
    let e = find_from(seg, 0, '=' as u8);
    if e == seg.len() {
        None
    } else {
        let e2 = find_from(seg, e + 1, '=' as u8);
        Some((trim(seg.subrange(0, e)), trim(seg.subrange(e + 1, e2))))
    }
}

/// Cookie pairs accumulated from the `;`-separated segments of `v` at and
/// after `pos`.
pub open spec fn cookie_pairs_fold(v: Seq<u8>, pos: int, es: Seq<(Seq<u8>, Seq<u8>)>) -> Seq<
    (Seq<u8>, Seq<u8>),
>
    decreases v.len() - pos,
{
    if pos < 0 || pos > v.len() {
        es
    } else {
        let sc = find_from(v, pos, ';' as u8);
        let es1 = match eq_pair_trim(v.subrange(pos, sc)) {
            None => es,
            Some(p) => spec_insert(es, p.0, p.1),
        };
        if pos <= sc && sc < v.len() {
            cookie_pairs_fold(v, sc + 1, es1)
        } else {
            es1
        }
    }
}

/// The name of the header whose value carries cookies.
pub open spec fn cookie_key() -> Seq<u8> {
    seq![('C' as u8), ('o' as u8), ('o' as u8), ('k' as u8), ('i' as u8), ('e' as u8)]
}

/// The name of the header that gives a body's length.
pub open spec fn content_length_key() -> Seq<u8> {
    seq![
        ('C' as u8),
        ('o' as u8),
        ('n' as u8),
        ('t' as u8),
        ('e' as u8),
        ('n' as u8),
        ('t' as u8),
        ('-' as u8),
        ('L' as u8),
        ('e' as u8),
        ('n' as u8),
        ('g' as u8),
        ('t' as u8),
        ('h' as u8),
    ]
}

pub open spec fn cookie_step(es: Seq<(Seq<u8>, Seq<u8>)>, line: Seq<u8>) -> Seq<
    (Seq<u8>, Seq<u8>),
> {
    let c = find_from(line, 0, ':' as u8);
    if c == line.len() {
        es
    } else if trim(line.subrange(0, c)) == cookie_key() {
        cookie_pairs_fold(line.subrange(c + 1, line.len() as int), 0, es)
    } else {
        es
    }
}

/// The cookie entries accumulated from `pos` to the end of the block.
pub open spec fn cookie_entries_from(s: Seq<u8>, pos: int, es: Seq<(Seq<u8>, Seq<u8>)>) -> Seq<
    (Seq<u8>, Seq<u8>),
>
    decreases s.len() - pos,
{
    if pos < 0 || pos >= s.len() {
        es
    } else {
        let e = line_end(s, pos);
        if s.subrange(pos, e) == crlf_line() {
            es
        } else if pos < e && e <= s.len() {
            cookie_entries_from(s, e, cookie_step(es, s.subrange(pos, e)))
        } else {
            es
        }
    }
}

/// The executable cookie name.
pub fn cookie_key_vec() -> (v: Vec<u8>)
    ensures
        v@ == cookie_key(),
{
    let v: Vec<u8> = vec![('C' as u8), ('o' as u8), ('o' as u8), ('k' as u8), ('i' as u8), ('e' as u8)];
    proof {
        assert(v@ =~= cookie_key());
    }
    v
}

/// The executable `Content-Length` name.
pub fn content_length_vec() -> (v: Vec<u8>)
    ensures
        v@ == content_length_key(),
{
    let v: Vec<u8> = vec![
        ('C' as u8),
        ('o' as u8),
        ('n' as u8),
        ('t' as u8),
        ('e' as u8),
        ('n' as u8),
        ('t' as u8),
        ('-' as u8),
        ('L' as u8),
        ('e' as u8),
        ('n' as u8),
        ('g' as u8),
        ('t' as u8),
        ('h' as u8),
    ];
    proof {
        assert(v@ =~= content_length_key());
    }
    v
}

/// Parses one cookie segment into the table.
fn apply_cookie_seg(seg: &[u8], cookie: &mut Dict)
    requires
        old(cookie).wf(),
    ensures
        final(cookie).wf(),
        final(cookie).entries() == match eq_pair_trim(seg@) {
            None => old(cookie).entries(),
            Some(p) => spec_insert(old(cookie).entries(), p.0, p.1),
        },
{
    let e = crate::ascii::find_byte(seg, 0, '=' as u8);
    if e == seg.len() {
        return ;
    }
    let e2 = crate::ascii::find_byte(seg, e + 1, '=' as u8);
    let kv = crate::ascii::sub_vec(seg, 0, e);
    let vv = crate::ascii::sub_vec(seg, e + 1, e2);
    let k = crate::ascii::trim_bytes(kv.as_slice());
    let v = crate::ascii::trim_bytes(vv.as_slice());
    cookie.insert(k, v);
}

/// Parses the `;`-separated segments of `v` at and after `pos`.
fn apply_cookie_from(v: &[u8], pos: usize, cookie: &mut Dict)
    requires
        pos <= v@.len(),
        old(cookie).wf(),
    ensures
        final(cookie).wf(),
        final(cookie).entries() == cookie_pairs_fold(v@, pos as int, old(cookie).entries()),
    decreases v@.len() - pos,
{
    let sc = crate::ascii::find_byte(v, pos, ';' as u8);
    let seg = crate::ascii::sub_vec(v, pos, sc);
    apply_cookie_seg(seg.as_slice(), cookie);
    if sc < v.len() {
        apply_cookie_from(v, sc + 1, cookie);
    }
}

/// Applies one header line to the header and cookie tables.
pub(crate) fn apply_head_line(line: &[u8], head: &mut Dict, cookie: &mut Dict)
    requires
        old(head).wf(),
        old(cookie).wf(),
    ensures
        final(head).wf(),
        final(cookie).wf(),
        final(head).entries() == head_step(old(head).entries(), line@),
        final(cookie).entries() == cookie_step(old(cookie).entries(), line@),
{
    let c = crate::ascii::find_byte(line, 0, ':' as u8);
    if c == line.len() {
        return ;
    }
    let name_raw = crate::ascii::sub_vec(line, 0, c);
    let value_raw = crate::ascii::sub_vec(line, c + 1, line.len());
    let name = crate::ascii::trim_bytes(name_raw.as_slice());
    let trimmed = crate::ascii::trim_bytes(value_raw.as_slice());
    let value = crate::ascii::strip_cr_lf(trimmed.as_slice());
    let ck = cookie_key_vec();
    if crate::ascii::bytes_eq(name.as_slice(), ck.as_slice()) {
        apply_cookie_from(value_raw.as_slice(), 0, cookie);
    }
    head.insert(name, value);
}

/// Parses a header block: returns the header table, the cookie table, the
/// index just past the block, and whether the blank line was reached.
pub fn parse_head_block(input: &[u8], start: usize) -> (r: (Dict, Dict, usize, bool))
    requires
        start <= input@.len(),
    ensures
        r.0.wf(),
        r.1.wf(),
        r.0.entries() == head_entries_from(input@, start as int, Seq::<(Seq<u8>, Seq<u8>)>::empty()),
        r.1.entries() == cookie_entries_from(
            input@,
            start as int,
            Seq::<(Seq<u8>, Seq<u8>)>::empty(),
        ),
        r.2 == hb_end(input@, start as int),
        r.3 == hb_reached(input@, start as int),
        start <= r.2 <= input@.len(),
{
    let mut head = Dict::new();
    let mut cookie = Dict::new();
    let mut pos: usize = start;
    proof {
        lemma_hb_end_bounds(input@, start as int);
    }
    while pos < input.len()
        invariant
            start <= pos <= input@.len(),
            head.wf(),
            cookie.wf(),
            hb_end(input@, start as int) == hb_end(input@, pos as int),
            hb_reached(input@, start as int) == hb_reached(input@, pos as int),
            head_entries_from(input@, start as int, Seq::<(Seq<u8>, Seq<u8>)>::empty())
                == head_entries_from(input@, pos as int, head.entries()),
            cookie_entries_from(input@, start as int, Seq::<(Seq<u8>, Seq<u8>)>::empty())
                == cookie_entries_from(input@, pos as int, cookie.entries()),
        decreases input@.len() - pos,
    {
        let nl = crate::ascii::find_byte(input, pos, 0x0a);
        let lend: usize = if nl == input.len() {
            input.len()
        } else {
            nl + 1
        };
        proof {
            lemma_line_end(input@, pos as int);
            assert(lend as int == line_end(input@, pos as int));
        }
        if lend - pos == 2 && input[pos] == 0x0d && input[pos + 1] == 0x0a {
            proof {
                assert(input@.subrange(pos as int, lend as int) =~= crlf_line());
            }
            return (head, cookie, lend, true);
        }
        proof {
            let line = input@.subrange(pos as int, lend as int);
            if line.len() == 2 {
                assert(line[0] == input@[pos as int]);
                assert(line[1] == input@[pos + 1]);
            }
            assert(line != crlf_line());
        }
        let line = crate::ascii::sub_vec(input, pos, lend);
        apply_head_line(line.as_slice(), &mut head, &mut cookie);
        pos = lend;
    }
    (head, cookie, pos, false)
}

} // verus!
