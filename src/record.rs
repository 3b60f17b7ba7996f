//! The grammar of one zone line: its owner name, the `AAAA` type marker and
//! the address literal that follows it.
use vstd::prelude::*;

use vstd::std_specs::iter::IteratorSpec;

use crate::address::{format_address, ipv6_net_reading, ipv6_text, parse_address, HostAddress, Ipv6Address};

verus! {

/// Characters that separate the fields of a zone line.
pub open spec fn is_space(c: char) -> bool {
    c == ' ' || c == '\t' || c == '\r'
}

/// An `AAAA` field at index `p`, with a separator before it and a separator
/// or the line's end after it.
pub open spec fn marker_at(line: Seq<char>, p: int) -> bool {
    &&& 0 < p
    &&& p + 4 <= line.len()
    &&& is_space(line[p - 1])
    &&& line[p] == 'A' && line[p + 1] == 'A' && line[p + 2] == 'A' && line[p + 3] == 'A'
    &&& (p + 4 == line.len() || is_space(line[p + 4]))
}

/// The first index from `p` on where an `AAAA` field starts, or -1.
pub open spec fn marker_from(line: Seq<char>, p: int) -> int
    decreases line.len() - p,
{
    if p < 0 || p >= line.len() {
        -1
    } else if marker_at(line, p) {
        p
    } else {
        marker_from(line, p + 1)
    }
}

/// An index that `marker_from` gives is where an `AAAA` field starts, and no
/// field starts between the search's start and it.
pub proof fn lemma_marker_from(line: Seq<char>, q: int)
    requires
        0 <= q,
    ensures
        marker_from(line, q) >= 0 ==> q <= marker_from(line, q) && marker_at(
            line,
            marker_from(line, q),
        ),
        marker_from(line, q) >= 0 ==> forall|z: int|
            q <= z < marker_from(line, q) ==> !marker_at(line, z),
    decreases line.len() - q,
{
    if q < line.len() && !marker_at(line, q) {
        lemma_marker_from(line, q + 1);
    }
}

/// The first index from `k` on that holds no separator (or the line's end).
pub open spec fn skip_spaces(line: Seq<char>, k: int) -> int
    decreases line.len() - k,
{
    if 0 <= k < line.len() && is_space(line[k]) {
        skip_spaces(line, k + 1)
    } else {
        k
    }
}

/// The first index from `k` on that holds a separator (or the line's end).
pub open spec fn skip_field(line: Seq<char>, k: int) -> int
    decreases line.len() - k,
{
    if 0 <= k < line.len() && !is_space(line[k]) {
        skip_field(line, k + 1)
    } else {
        k
    }
}

/// Where the address literal of a record line stands: the field that follows
/// the first `AAAA` field.
pub open spec fn literal_span(line: Seq<char>) -> Option<(int, int)> {
    let p = marker_from(line, 0);
    if p < 0 {
        None
    } else {
        let s = skip_spaces(line, p + 4);
        let e = skip_field(line, s);
        if s < e {
            Some((s, e))
        } else {
            None
        }
    }
}

/// The address that the literal of a record line denotes, if it has one.
pub open spec fn literal_address(line: Seq<char>) -> Option<Seq<u16>> {
    match literal_span(line) {
        Some((s, e)) => match ipv6_net_reading(line.subrange(s, e) + "/128"@) {
            Some((segments, _)) => Some(segments@),
            None => None,
        },
        None => None,
    }
}

/// The line is a comment.
pub open spec fn is_comment(line: Seq<char>) -> bool {
    line.len() > 0 && line[0] == ';'
}

/// The line's owner field is `host`, written with or without a final dot.
pub open spec fn owner_is(line: Seq<char>, host: Seq<char>) -> bool {
    let h = host.len() as int;
    &&& h > 0
    &&& h <= line.len()
    &&& line.subrange(0, h) == host
    &&& ((h < line.len() && is_space(line[h])) || (h + 1 < line.len() && line[h] == '.'
        && is_space(line[h + 1])))
}

/// The line declares an AAAA record for `host`.
pub open spec fn is_host_record(line: Seq<char>, host: Seq<char>) -> bool {
    !is_comment(line) && owner_is(line, host) && marker_from(line, 0) >= 0
}

/// The characters of `s`, in order.
pub(crate) fn chars_of(s: &str) -> (r: Vec<char>)
    ensures
        r@ == s@,
{
    broadcast use vstd::string::group_string_axioms;

    let mut it = s.chars();
    let mut r: Vec<char> = Vec::new();
    loop
        invariant
            r@ + it.remaining() == s@,
            it.decrease() is Some,
        decreases it.decrease()->0,
    {
        match it.next() {
            Some(c) => {
                assert(r@.push(c) + it.remaining() =~= s@);
                r.push(c);
            },
            None => {
                assert(r@ =~= s@);
                return r;
            },
        }
    }
}

/// Relies on `String: FromIterator<char>`: the string of these characters.
#[verifier::external_body]
pub(crate) fn string_of(chars: &Vec<char>) -> (r: String)
    ensures
        r@ == chars@,
{
    chars.iter().collect()
}

pub(crate) fn is_space_char(c: char) -> (r: bool)
    ensures
        r == is_space(c),
{
    c == ' ' || c == '\t' || c == '\r'
}

fn marker_here(line: &Vec<char>, p: usize) -> (r: bool)
    requires
        p < line@.len(),
    ensures
        r == marker_at(line@, p as int),
{
    if p == 0 || line.len() < 4 || p > line.len() - 4 {
        return false;
    }
    is_space_char(line[p - 1]) && line[p] == 'A' && line[p + 1] == 'A' && line[p + 2] == 'A'
        && line[p + 3] == 'A' && (p + 4 == line.len() || is_space_char(line[p + 4]))
}

/// The index where the first `AAAA` field of `line` starts.
pub fn find_marker(line: &Vec<char>) -> (r: Option<usize>)
    ensures
        match r {
            Some(p) => p as int == marker_from(line@, 0),
            None => marker_from(line@, 0) < 0,
        },
{
    let mut p: usize = 0;
    while p < line.len()
        invariant
            p <= line@.len(),
            marker_from(line@, 0) == marker_from(line@, p as int),
        decreases line@.len() - p,
    {
        if marker_here(line, p) {
            return Some(p);
        }
        p = p + 1;
    }
    None
}

fn skip_spaces_from(line: &Vec<char>, k: usize) -> (r: usize)
    requires
        k <= line@.len(),
    ensures
        r as int == skip_spaces(line@, k as int),
        k <= r <= line@.len(),
{
    let mut i = k;
    while i < line.len() && is_space_char(line[i])
        invariant
            k <= i <= line@.len(),
            skip_spaces(line@, k as int) == skip_spaces(line@, i as int),
        decreases line@.len() - i,
    {
        i = i + 1;
    }
    i
}

fn skip_field_from(line: &Vec<char>, k: usize) -> (r: usize)
    requires
        k <= line@.len(),
    ensures
        r as int == skip_field(line@, k as int),
        k <= r <= line@.len(),
{
    let mut i = k;
    while i < line.len() && !is_space_char(line[i])
        invariant
            k <= i <= line@.len(),
            skip_field(line@, k as int) == skip_field(line@, i as int),
        decreases line@.len() - i,
    {
        i = i + 1;
    }
    i
}

/// Where the address literal of `line` starts and ends.
pub fn find_literal(line: &Vec<char>) -> (r: Option<(usize, usize)>)
    ensures
        match r {
            Some((s, e)) => literal_span(line@) == Some((s as int, e as int)) && s < e <= line@.len(),
            None => literal_span(line@) is None,
        },
{
    match find_marker(line) {
        None => None,
        Some(p) => {
            proof {
                lemma_marker_from(line@, 0);
            }
            let n = line.len();
            assert(p + 4 <= n);
            let s = skip_spaces_from(line, p + 4);
            let e = skip_field_from(line, s);
            if s < e {
                Some((s, e))
            } else {
                None
            }
        },
    }
}


/// `line` with the characters from `s` to `e` replaced by `text`.
pub open spec fn spliced(line: Seq<char>, s: int, e: int, text: Seq<char>) -> Seq<char> {
    line.subrange(0, s) + text + line.subrange(e, line.len() as int)
}

/// `line` with its address literal replaced by the text of `segments`.
pub open spec fn with_literal(line: Seq<char>, segments: Seq<u16>) -> Seq<char> {
    let (s, e) = literal_span(line)->0;
    spliced(line, s, e, ipv6_text(segments))
}

pub(crate) fn owner_matches(line: &Vec<char>, host: &Vec<char>) -> (r: bool)
    ensures
        r == owner_is(line@, host@),
{
    let h = host.len();
    if h == 0 || h > line.len() {
        return false;
    }
    let mut i: usize = 0;
    while i < h
        invariant
            h == host@.len(),
            h <= line@.len(),
            i <= h,
            forall|k: int| 0 <= k < i ==> line@[k] == host@[k],
        decreases h - i,
    {
        if line[i] != host[i] {
            assert(line@.subrange(0, h as int)[i as int] != host@[i as int]);
            return false;
        }
        i = i + 1;
    }
    assert(line@.subrange(0, h as int) =~= host@);
    if h == line.len() {
        return false;
    }
    is_space_char(line[h]) || (h < line.len() - 1 && line[h] == '.' && is_space_char(line[h + 1]))
}

/// Whether `line` declares an AAAA record for `host`.
pub(crate) fn host_record_line(line: &Vec<char>, host: &Vec<char>) -> (r: bool)
    ensures
        r == is_host_record(line@, host@),
{
    let comment = line.len() > 0 && line[0] == ';';
    !comment && owner_matches(line, host) && find_marker(line).is_some()
}

pub(crate) fn copy_range(line: &Vec<char>, s: usize, e: usize) -> (r: Vec<char>)
    requires
        s <= e <= line@.len(),
    ensures
        r@ == line@.subrange(s as int, e as int),
{
    let mut r: Vec<char> = Vec::new();
    let mut i = s;
    while i < e
        invariant
            s <= i <= e,
            e <= line@.len(),
            r@ == line@.subrange(s as int, i as int),
        decreases e - i,
    {
        r.push(line[i]);
        i = i + 1;
        assert(r@ =~= line@.subrange(s as int, i as int));
    }
    r
}

pub(crate) fn splice(line: &Vec<char>, s: usize, e: usize, text: &Vec<char>) -> (r: Vec<char>)
    requires
        s <= e <= line@.len(),
    ensures
        r@ == spliced(line@, s as int, e as int, text@),
{
    let mut r = copy_range(line, 0, s);
    let mut i: usize = 0;
    while i < text.len()
        invariant
            i <= text@.len(),
            r@ == line@.subrange(0, s as int) + text@.subrange(0, i as int),
        decreases text@.len() - i,
    {
        r.push(text[i]);
        i = i + 1;
        assert(r@ =~= line@.subrange(0, s as int) + text@.subrange(0, i as int));
    }
    let tail = copy_range(line, e, line.len());
    let mut j: usize = 0;
    while j < tail.len()
        invariant
            j <= tail@.len(),
            r@ == line@.subrange(0, s as int) + text@ + tail@.subrange(0, j as int),
        decreases tail@.len() - j,
    {
        r.push(tail[j]);
        j = j + 1;
        assert(r@ =~= line@.subrange(0, s as int) + text@ + tail@.subrange(0, j as int));
    }
    assert(text@.subrange(0, text@.len() as int) =~= text@);
    assert(tail@.subrange(0, tail@.len() as int) =~= tail@);
    r
}

/// The address that the literal of `line` denotes.
pub(crate) fn literal_of(line: &Vec<char>) -> (r: Option<Ipv6Address>)
    ensures
        match r {
            Some(a) => literal_address(line@) == Some(a.segments@),
            None => literal_address(line@) is None,
        },
{
    match find_literal(line) {
        None => None,
        Some((s, e)) => {
            let text = string_of(&copy_range(line, s, e));
            parse_address(text.as_str())
        },
    }
}

/// Reads the address of a record line, taken under the prefix length
/// `prefix_size`.
pub fn get_ipv6_address_from_record_db_line(record_db_line: &str, prefix_size: u8) -> (r: Option<
    HostAddress,
>)
    ensures
        match r {
            Some(h) => literal_address(record_db_line@) == Some(h.address.segments@) && h.prefix_len
                == prefix_size,
            None => literal_address(record_db_line@) is None,
        },
{
    let line = chars_of(record_db_line);
    match literal_of(&line) {
        Some(address) => Some(HostAddress { address, prefix_len: prefix_size }),
        None => None,
    }
}

/// Rewrites the address literal of a record line from `old_address` to
/// `new_address`, leaving every other character as it was; gives nothing
/// where the line's literal is not `old_address`.
pub fn update_ipv6_address_in_record_db_line(
    record_db_line: &str,
    old_address: &Ipv6Address,
    new_address: &Ipv6Address,
) -> (r: Option<String>)
    ensures
        match r {
            Some(t) => literal_address(record_db_line@) == Some(old_address.segments@) && t@
                == with_literal(record_db_line@, new_address.segments@),
            None => literal_address(record_db_line@) != Some(old_address.segments@),
        },
{
    let line = chars_of(record_db_line);
    match find_literal(&line) {
        None => None,
        Some((s, e)) => {
            let text = string_of(&copy_range(&line, s, e));
            match parse_address(text.as_str()) {
                None => None,
                Some(a) => {
                    if !same_segments(&a, old_address) {
                        return None;
                    }
                    let new_text = chars_of(format_address(new_address).as_str());
                    Some(string_of(&splice(&line, s, e, &new_text)))
                },
            }
        },
    }
}

fn same_segments(a: &Ipv6Address, b: &Ipv6Address) -> (r: bool)
    ensures
        r == (a.segments@ == b.segments@),
{
    let mut i: usize = 0;
    while i < 8
        invariant
            i <= 8,
            forall|k: int| 0 <= k < i ==> a.segments@[k] == b.segments@[k],
        decreases 8 - i,
    {
        if a.segments[i] != b.segments[i] {
            return false;
        }
        i = i + 1;
    }
    assert(a.segments@ =~= b.segments@);
    true
}

} // verus!
