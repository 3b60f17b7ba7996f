//! A zone file as a sequence of lines, and the reconciliation of its AAAA
//! records with a newly discovered network prefix.
use vstd::prelude::*;

use crate::address::{
    change_ipv6_prefix, compare_prefixes, format_address, recombined, same_network,
    valid_prefix_len, HostAddress, Ipv6Address,
};
use crate::record::{
    chars_of, copy_range, find_literal, find_marker, host_record_line, is_comment,
    is_host_record, literal_address, literal_of, marker_from, splice, string_of, with_literal,
};

verus! {

/// The lines of `t` from index `k` on, where `current` holds the part of the
/// line read so far; lines end at `\n`, which belongs to neither of them.
pub open spec fn split_from(t: Seq<char>, k: int, current: Seq<char>) -> Seq<Seq<char>>
    decreases t.len() - k,
{
    if k < 0 || k >= t.len() {
        seq![current]
    } else if t[k] == '\n' {
        seq![current] + split_from(t, k + 1, Seq::empty())
    } else {
        split_from(t, k + 1, current.push(t[k]))
    }
}

/// The lines of a text: one more than it has line breaks.
pub open spec fn lines_of(t: Seq<char>) -> Seq<Seq<char>> {
    split_from(t, 0, Seq::empty())
}

/// The lines put back together, with a line break between each two.
pub open spec fn join_lines(lines: Seq<Seq<char>>) -> Seq<char>
    decreases lines.len(),
{
    if lines.len() == 0 {
        Seq::empty()
    } else if lines.len() == 1 {
        lines[0]
    } else {
        join_lines(lines.drop_last()) + seq!['\n'] + lines.last()
    }
}

pub proof fn lemma_join_cons(first: Seq<char>, rest: Seq<Seq<char>>)
    requires
        rest.len() >= 1,
    ensures
        join_lines(seq![first] + rest) == first + seq!['\n'] + join_lines(rest),
    decreases rest.len(),
{
    let all = seq![first] + rest;
    assert(all.last() == rest.last());
    if rest.len() == 1 {
        assert(all.drop_last() =~= seq![first]);
        assert(join_lines(all) == first + seq!['\n'] + rest.last());
    } else {
        assert(all.drop_last() =~= seq![first] + rest.drop_last());
        lemma_join_cons(first, rest.drop_last());
        assert(join_lines(all) == join_lines(all.drop_last()) + seq!['\n'] + rest.last());
        assert(join_lines(rest) == join_lines(rest.drop_last()) + seq!['\n'] + rest.last());
        assert(first + seq!['\n'] + join_lines(rest.drop_last()) + seq!['\n'] + rest.last() =~= first
            + seq!['\n'] + (join_lines(rest.drop_last()) + seq!['\n'] + rest.last()));
    }
}

pub proof fn lemma_split_nonempty(t: Seq<char>, k: int, current: Seq<char>)
    ensures
        split_from(t, k, current).len() >= 1,
    decreases t.len() - k,
{
    if k < 0 || k >= t.len() {
    } else if t[k] == '\n' {
        lemma_split_nonempty(t, k + 1, Seq::empty());
    } else {
        lemma_split_nonempty(t, k + 1, current.push(t[k]));
    }
}

proof fn lemma_join_split(t: Seq<char>, k: int, current: Seq<char>)
    requires
        0 <= k <= t.len(),
    ensures
        join_lines(split_from(t, k, current)) == current + t.subrange(k, t.len() as int),
    decreases t.len() - k,
{
    if k >= t.len() {
        assert(current + t.subrange(k, t.len() as int) =~= current);
    } else if t[k] == '\n' {
        lemma_split_nonempty(t, k + 1, Seq::empty());
        lemma_join_cons(current, split_from(t, k + 1, Seq::empty()));
        lemma_join_split(t, k + 1, Seq::empty());
        assert(current + seq!['\n'] + (Seq::<char>::empty() + t.subrange(k + 1, t.len() as int))
            =~= current + t.subrange(k, t.len() as int));
    } else {
        lemma_join_split(t, k + 1, current.push(t[k]));
        assert(current.push(t[k]) + t.subrange(k + 1, t.len() as int) =~= current + t.subrange(
            k,
            t.len() as int,
        ));
    }
}

/// Splitting a text into lines and joining them gives the text back.
pub proof fn lemma_join_lines_of(t: Seq<char>)
    ensures
        join_lines(lines_of(t)) == t,
{
    lemma_join_split(t, 0, Seq::empty());
    assert(Seq::<char>::empty() + t.subrange(0, t.len() as int) =~= t);
}

/// The views of a vector of lines.
pub open spec fn line_views(lines: Seq<Vec<char>>) -> Seq<Seq<char>> {
    lines.map_values(|l: Vec<char>| l@)
}

/// Splits `text` at its line breaks.
pub fn split_lines(text: &Vec<char>) -> (r: Vec<Vec<char>>)
    ensures
        line_views(r@) == lines_of(text@),
{
    let mut done: Vec<Vec<char>> = Vec::new();
    let mut current: Vec<char> = Vec::new();
    let mut i: usize = 0;
    while i < text.len()
        invariant
            i <= text@.len(),
            lines_of(text@) == line_views(done@) + split_from(text@, i as int, current@),
        decreases text@.len() - i,
    {
        if text[i] == '\n' {
            let line = current;
            current = Vec::new();
            proof {
                assert(line_views(done@.push(line)) =~= line_views(done@) + seq![line@]);
            }
            done.push(line);
        } else {
            current.push(text[i]);
        }
        i = i + 1;
    }
    proof {
        assert(line_views(done@.push(current)) =~= line_views(done@) + seq![current@]);
    }
    done.push(current);
    assert(line_views(done@) =~= lines_of(text@));
    done
}

/// Joins `lines` with a line break between each two.
pub fn join_all(lines: &Vec<Vec<char>>) -> (r: Vec<char>)
    ensures
        r@ == join_lines(line_views(lines@)),
{
    let mut r: Vec<char> = Vec::new();
    let mut i: usize = 0;
    while i < lines.len()
        invariant
            i <= lines@.len(),
            r@ == join_lines(line_views(lines@).subrange(0, i as int)),
        decreases lines@.len() - i,
    {
        let ghost before = line_views(lines@).subrange(0, i as int);
        if i > 0 {
            r.push('\n');
        }
        let line = &lines[i];
        let mut k: usize = 0;
        let ghost start = r@;
        while k < line.len()
            invariant
                k <= line@.len(),
                r@ == start + line@.subrange(0, k as int),
            decreases line@.len() - k,
        {
            r.push(line[k]);
            k = k + 1;
            assert(r@ =~= start + line@.subrange(0, k as int));
        }
        i = i + 1;
        proof {
            let after = line_views(lines@).subrange(0, i as int);
            assert(after.drop_last() =~= before);
            assert(line@.subrange(0, line@.len() as int) =~= line@);
            if i == 1 {
                assert(before =~= Seq::<Seq<char>>::empty());
                assert(r@ =~= line@);
            } else {
                assert(r@ =~= join_lines(before) + seq!['\n'] + line@);
            }
        }
    }
    assert(line_views(lines@).subrange(0, lines@.len() as int) =~= line_views(lines@));
    r
}


/// Why a run stops before anything is written.
#[derive(Clone, Debug, PartialEq, Eq)]
pub enum ZoneError {
    /// The prefix length is over 128 or not a multiple of 16.
    InvalidPrefixLength { prefix_len: u8 },
    /// No line of the zone declares an AAAA record for the host.
    RecordNotFound { host: String },
    /// The host's record line holds no address literal that can be read.
    MalformedRecord { host: String, line_index: usize },
}

/// One line that a run rewrites.
#[derive(Clone, Debug, PartialEq, Eq)]
pub struct PlannedEdit {
    pub line_index: usize,
    pub old_line: String,
    pub new_line: String,
}

/// The outcome of a run: the new zone text and the lines it changed.
#[derive(Clone, Debug, PartialEq, Eq)]
pub struct Reconciliation {
    pub new_text: String,
    pub plan: Vec<PlannedEdit>,
}

/// The index of the last line before `n` that declares an AAAA record for
/// `host`, or -1.
pub open spec fn record_before(lines: Seq<Seq<char>>, host: Seq<char>, n: int) -> int
    decreases n,
{
    if n <= 0 || n > lines.len() {
        -1
    } else if is_host_record(lines[n - 1], host) {
        n - 1
    } else {
        record_before(lines, host, n - 1)
    }
}

/// The index of the line that declares `host`'s AAAA record: the last one
/// that does, or -1.
pub open spec fn record_index(lines: Seq<Seq<char>>, host: Seq<char>) -> int {
    record_before(lines, host, lines.len() as int)
}

/// `host` has a record line whose address can be read.
pub open spec fn resolves(lines: Seq<Seq<char>>, host: Seq<char>) -> bool {
    let i = record_index(lines, host);
    i >= 0 && literal_address(lines[i]) is Some
}

/// The first host from `j` on that does not resolve, or -1.
pub open spec fn first_unresolved(lines: Seq<Seq<char>>, hosts: Seq<Seq<char>>, j: int) -> int
    decreases hosts.len() - j,
{
    if j < 0 || j >= hosts.len() {
        -1
    } else if !resolves(lines, hosts[j]) {
        j
    } else {
        first_unresolved(lines, hosts, j + 1)
    }
}

/// The line's address lies outside the network `desired` of length `len`.
pub open spec fn is_stale(line: Seq<char>, len: u8, desired: Seq<u16>) -> bool {
    match literal_address(line) {
        Some(a) => !same_network(a, desired, len),
        None => false,
    }
}

/// The line with its address moved into the network `desired`.
pub open spec fn updated_line(line: Seq<char>, len: u8, desired: Seq<u16>) -> Seq<char> {
    with_literal(line, recombined(desired, literal_address(line)->0, len))
}

/// Line `i` is the record line of one of the first `m` hosts, and stale.
pub open spec fn stale_among(
    lines: Seq<Seq<char>>,
    hosts: Seq<Seq<char>>,
    len: u8,
    desired: Seq<u16>,
    i: int,
    m: int,
) -> bool {
    exists|j: int|
        0 <= j < m && #[trigger] record_index(lines, hosts[j]) == i && is_stale(
            lines[i],
            len,
            desired,
        )
}

/// Line `i` is the record line of a listed host, and stale.
pub open spec fn listed_stale(
    lines: Seq<Seq<char>>,
    hosts: Seq<Seq<char>>,
    len: u8,
    desired: Seq<u16>,
    i: int,
) -> bool {
    stale_among(lines, hosts, len, desired, i, hosts.len() as int)
}

/// The lines after a run: each stale record line of a listed host updated,
/// every other line as it was.
pub open spec fn reconciled(
    lines: Seq<Seq<char>>,
    hosts: Seq<Seq<char>>,
    len: u8,
    desired: Seq<u16>,
) -> Seq<Seq<char>> {
    Seq::new(
        lines.len(),
        |i: int|
            if listed_stale(lines, hosts, len, desired, i) {
                updated_line(lines[i], len, desired)
            } else {
                lines[i]
            },
    )
}

/// The views of the listed host names.
pub open spec fn host_views(hosts: Seq<String>) -> Seq<Seq<char>> {
    hosts.map_values(|h: String| h@)
}

/// The plan lists, in order of their lines, exactly the lines that a run
/// updates, each with its old and its new text.
pub open spec fn plan_matches(
    plan: Seq<PlannedEdit>,
    lines: Seq<Seq<char>>,
    hosts: Seq<Seq<char>>,
    len: u8,
    desired: Seq<u16>,
) -> bool {
    &&& forall|k: int|
        0 <= k < plan.len() ==> {
            let i = #[trigger] plan[k].line_index as int;
            &&& i < lines.len()
            &&& listed_stale(lines, hosts, len, desired, i)
            &&& plan[k].old_line@ == lines[i]
            &&& plan[k].new_line@ == updated_line(lines[i], len, desired)
        }
    &&& forall|k1: int, k2: int|
        0 <= k1 < k2 < plan.len() ==> plan[k1].line_index < plan[k2].line_index
    &&& forall|i: int|
        0 <= i < lines.len() && listed_stale(lines, hosts, len, desired, i) ==> exists|k: int|
            0 <= k < plan.len() && #[trigger] plan[k].line_index == i
}

fn last_record(lines: &Vec<Vec<char>>, host: &Vec<char>) -> (r: Option<usize>)
    ensures
        match r {
            Some(i) => i as int == record_index(line_views(lines@), host@) && i < lines@.len(),
            None => record_index(line_views(lines@), host@) == -1,
        },
{
    let ghost ls = line_views(lines@);
    let mut n = lines.len();
    while n > 0
        invariant
            n <= lines@.len(),
            ls == line_views(lines@),
            record_index(ls, host@) == record_before(ls, host@, n as int),
        decreases n,
    {
        assert(ls[n - 1] == lines@[n - 1]@);
        if host_record_line(&lines[n - 1], host) {
            return Some(n - 1);
        }
        n = n - 1;
    }
    None
}

/// The line with its address literal moved into the network `desired`.
fn rewrite_line(line: &Vec<char>, prefix_len: u8, desired: &Ipv6Address) -> (r: Vec<char>)
    requires
        valid_prefix_len(prefix_len),
        literal_address(line@) is Some,
    ensures
        r@ == updated_line(line@, prefix_len, desired.segments@),
{
    let address = literal_of(line).unwrap();
    let (s, e) = find_literal(line).unwrap();
    let moved = change_ipv6_prefix(&address, desired, prefix_len);
    let text = chars_of(format_address(&moved).as_str());
    splice(line, s, e, &text)
}


/// One run over a zone: finds each listed host's AAAA record, and where its
/// address lies outside the network `discovered` of length `prefix_len`,
/// moves it there, keeping its host segments and every other character.
/// Fails, with nothing changed, on a bad prefix length or on the first host
/// whose record is missing or unreadable.
pub fn update_config(
    config: &str,
    hosts: &Vec<String>,
    prefix_len: u8,
    discovered: &Ipv6Address,
) -> (r: Result<Reconciliation, ZoneError>)
    ensures
        !valid_prefix_len(prefix_len) ==> r == Err::<Reconciliation, ZoneError>(
            ZoneError::InvalidPrefixLength { prefix_len },
        ),
        valid_prefix_len(prefix_len) ==> {
            let lines = lines_of(config@);
            let hs = host_views(hosts@);
            let j = first_unresolved(lines, hs, 0);
            match r {
                Ok(rec) => {
                    &&& j == -1
                    &&& rec.new_text@ == join_lines(
                        reconciled(lines, hs, prefix_len, discovered.segments@),
                    )
                    &&& plan_matches(rec.plan@, lines, hs, prefix_len, discovered.segments@)
                },
                Err(ZoneError::RecordNotFound { host }) => {
                    &&& 0 <= j < hs.len()
                    &&& host@ == hs[j]
                    &&& record_index(lines, hs[j]) == -1
                },
                Err(ZoneError::MalformedRecord { host, line_index }) => {
                    &&& 0 <= j < hs.len()
                    &&& host@ == hs[j]
                    &&& record_index(lines, hs[j]) == line_index
                    &&& literal_address(lines[line_index as int]) is None
                },
                Err(ZoneError::InvalidPrefixLength { .. }) => false,
            }
        },
{
    if prefix_len > 128 || prefix_len % 16 != 0 {
        return Err(ZoneError::InvalidPrefixLength { prefix_len });
    }
    let text = chars_of(config);
    let lines = split_lines(&text);
    let ghost ls = line_views(lines@);
    let ghost hs = host_views(hosts@);
    let ghost d = discovered.segments@;
    let n = lines.len();
    let mut marks: Vec<bool> = Vec::new();
    while marks.len() < n
        invariant
            marks@.len() <= n,
            forall|i: int| 0 <= i < marks@.len() ==> !marks@[i],
        decreases n - marks@.len(),
    {
        marks.push(false);
    }
    let mut j: usize = 0;
    while j < hosts.len()
        invariant
            n == lines@.len() == ls.len(),
            ls == line_views(lines@),
            ls == lines_of(config@),
            hs == host_views(hosts@),
            d == discovered.segments@,
            valid_prefix_len(prefix_len),
            j <= hosts@.len(),
            marks@.len() == n,
            first_unresolved(ls, hs, 0) == first_unresolved(ls, hs, j as int),
            forall|i: int|
                0 <= i < n ==> marks@[i] == stale_among(ls, hs, prefix_len, d, i, j as int),
        decreases hosts@.len() - j,
    {
        assert(hs[j as int] == hosts@[j as int]@);
        let host = chars_of(hosts[j].as_str());
        match last_record(&lines, &host) {
            None => {
                let name = hosts[j].clone();
                assert(!resolves(ls, hs[j as int]));
                assert(first_unresolved(ls, hs, j as int) == j);
                return Err(ZoneError::RecordNotFound { host: name });
            },
            Some(i) => {
                assert(ls[i as int] == lines@[i as int]@);
                match literal_of(&lines[i]) {
                    None => {
                        let name = hosts[j].clone();
                        assert(!resolves(ls, hs[j as int]));
                        assert(first_unresolved(ls, hs, j as int) == j);
                        return Err(ZoneError::MalformedRecord { host: name, line_index: i });
                    },
                    Some(a) => {
                        assert(resolves(ls, hs[j as int]));
                        let stale = !compare_prefixes(&a, discovered, prefix_len);
                        let ghost before = marks@;
                        if stale {
                            marks.set(i, true);
                        }
                        proof {
                            assert forall|k: int| 0 <= k < n implies marks@[k] == stale_among(
                                ls,
                                hs,
                                prefix_len,
                                d,
                                k,
                                j + 1,
                            ) by {
                                if stale && k == i {
                                    assert(record_index(ls, hs[j as int]) == k);
                                } else if stale_among(ls, hs, prefix_len, d, k, j + 1) {
                                    let w = choose|w: int|
                                        0 <= w < j + 1 && #[trigger] record_index(ls, hs[w]) == k
                                            && is_stale(ls[k], prefix_len, d);
                                    if w == j {
                                        assert(false);
                                    }
                                    assert(stale_among(ls, hs, prefix_len, d, k, j as int));
                                }
                            }
                        }
                    },
                }
            },
        }
        j = j + 1;
    }
    let mut out: Vec<Vec<char>> = Vec::new();
    let mut plan: Vec<PlannedEdit> = Vec::new();
    let ghost target = reconciled(ls, hs, prefix_len, d);
    let mut i: usize = 0;
    while i < n
        invariant
            n == lines@.len() == ls.len(),
            ls == line_views(lines@),
            ls == lines_of(config@),
            hs == host_views(hosts@),
            d == discovered.segments@,
            valid_prefix_len(prefix_len),
            target == reconciled(ls, hs, prefix_len, d),
            marks@.len() == n,
            forall|k: int| 0 <= k < n ==> marks@[k] == listed_stale(ls, hs, prefix_len, d, k),
            i <= n,
            out@.len() == i,
            forall|k: int| 0 <= k < i ==> (#[trigger] out@[k])@ == target[k],
            forall|k: int|
                0 <= k < plan@.len() ==> {
                    let x = #[trigger] plan@[k].line_index as int;
                    &&& x < i
                    &&& listed_stale(ls, hs, prefix_len, d, x)
                    &&& plan@[k].old_line@ == ls[x]
                    &&& plan@[k].new_line@ == updated_line(ls[x], prefix_len, d)
                },
            forall|k1: int, k2: int|
                0 <= k1 < k2 < plan@.len() ==> plan@[k1].line_index < plan@[k2].line_index,
            forall|x: int|
                0 <= x < i && listed_stale(ls, hs, prefix_len, d, x) ==> exists|k: int|
                    0 <= k < plan@.len() && #[trigger] plan@[k].line_index == x,
        decreases n - i,
    {
        let line = &lines[i];
        assert(ls[i as int] == line@);
        let ghost old_plan = plan@;
        if marks[i] {
            assert(literal_address(line@) is Some);
            let updated = rewrite_line(line, prefix_len, discovered);
            let edit = PlannedEdit {
                line_index: i,
                old_line: string_of(line),
                new_line: string_of(&updated),
            };
            plan.push(edit);
            out.push(updated);
            assert(plan@[plan@.len() - 1].line_index == i);
        } else {
            out.push(copy_range(line, 0, line.len()));
            assert(line@.subrange(0, line@.len() as int) =~= line@);
        }
        proof {
            assert forall|x: int|
                0 <= x < i + 1 && listed_stale(ls, hs, prefix_len, d, x) implies exists|k: int|
                0 <= k < plan@.len() && #[trigger] plan@[k].line_index == x by {
                if x == i {
                    assert(plan@[plan@.len() - 1].line_index == x);
                } else {
                    let k = choose|k: int|
                        0 <= k < old_plan.len() && #[trigger] old_plan[k].line_index == x;
                    assert(plan@[k] == old_plan[k]);
                }
            }
        }
        i = i + 1;
    }
    assert(line_views(out@) =~= target);
    let new_text = string_of(&join_all(&out));
    Ok(Reconciliation { new_text, plan })
}


/// A run alters only record lines of listed hosts whose address lies outside
/// the discovered network; every other line comes out as it went in, and no
/// line is added or lost.
pub proof fn lemma_selective_rewrite(
    config: Seq<char>,
    hosts: Seq<Seq<char>>,
    prefix_len: u8,
    discovered: Seq<u16>,
)
    ensures
        ({
            let lines = lines_of(config);
            let out = reconciled(lines, hosts, prefix_len, discovered);
            &&& out.len() == lines.len()
            &&& forall|i: int|
                0 <= i < lines.len() && out[i] != lines[i] ==> exists|j: int|
                    0 <= j < hosts.len() && #[trigger] record_index(lines, hosts[j]) == i
                        && is_stale(lines[i], prefix_len, discovered)
        }),
{
}

/// Where no listed record is stale, a run gives back the zone text
/// unchanged, character for character.
pub proof fn lemma_current_zone_unchanged(
    config: Seq<char>,
    hosts: Seq<Seq<char>>,
    prefix_len: u8,
    discovered: Seq<u16>,
)
    requires
        forall|i: int|
            0 <= i < lines_of(config).len() ==> !listed_stale(
                lines_of(config),
                hosts,
                prefix_len,
                discovered,
                i,
            ),
    ensures
        join_lines(reconciled(lines_of(config), hosts, prefix_len, discovered)) == config,
{
    let lines = lines_of(config);
    assert(reconciled(lines, hosts, prefix_len, discovered) =~= lines);
    lemma_join_lines_of(config);
}


/// The line declares an AAAA record, for whatever owner.
pub open spec fn is_record_line(line: Seq<char>) -> bool {
    !is_comment(line) && marker_from(line, 0) >= 0
}

/// The addresses of the record lines among the first `n` lines, in order.
pub open spec fn record_addresses(lines: Seq<Seq<char>>, n: int) -> Seq<Seq<u16>>
    decreases n,
{
    if n <= 0 || n > lines.len() {
        Seq::empty()
    } else if is_record_line(lines[n - 1]) {
        record_addresses(lines, n - 1).push(literal_address(lines[n - 1])->0)
    } else {
        record_addresses(lines, n - 1)
    }
}

/// The first record line from `i` on whose address cannot be read, or -1.
pub open spec fn first_unreadable(lines: Seq<Seq<char>>, i: int) -> int
    decreases lines.len() - i,
{
    if i < 0 || i >= lines.len() {
        -1
    } else if is_record_line(lines[i]) && literal_address(lines[i]) is None {
        i
    } else {
        first_unreadable(lines, i + 1)
    }
}

/// Appends to `ipv6_addresses` the address of every AAAA record line of the
/// zone, in order, each under `prefix_size`; where a record line's address
/// cannot be read, appends nothing and gives that line's index.
pub fn get_ipv6_addresses_from_config(
    config: &str,
    ipv6_addresses: &mut Vec<HostAddress>,
    prefix_size: u8,
) -> (r: Result<(), usize>)
    ensures
        ({
            let lines = lines_of(config@);
            let found = record_addresses(lines, lines.len() as int);
            let bad = first_unreadable(lines, 0);
            match r {
                Ok(()) => {
                    &&& bad == -1
                    &&& final(ipv6_addresses)@.len() == old(ipv6_addresses)@.len() + found.len()
                    &&& final(ipv6_addresses)@.subrange(0, old(ipv6_addresses)@.len() as int)
                        == old(ipv6_addresses)@
                    &&& forall|k: int|
                        0 <= k < found.len() ==> {
                            let h = #[trigger] final(ipv6_addresses)@[old(ipv6_addresses)@.len()
                                + k];
                            h.address.segments@ == found[k] && h.prefix_len == prefix_size
                        }
                },
                Err(i) => bad == i && final(ipv6_addresses)@ == old(ipv6_addresses)@,
            }
        }),
{
    let text = chars_of(config);
    let lines = split_lines(&text);
    let ghost ls = line_views(lines@);
    let mut found: Vec<HostAddress> = Vec::new();
    let mut i: usize = 0;
    while i < lines.len()
        invariant
            ls == line_views(lines@),
            ls == lines_of(config@),
            i <= ls.len(),
            first_unreadable(ls, 0) == first_unreadable(ls, i as int),
            found@.len() == record_addresses(ls, i as int).len(),
            forall|k: int|
                0 <= k < found@.len() ==> (#[trigger] found@[k]).address.segments@
                    == record_addresses(ls, i as int)[k] && found@[k].prefix_len == prefix_size,
        decreases ls.len() - i,
    {
        let line = &lines[i];
        assert(ls[i as int] == line@);
        let record = !(line.len() > 0 && line[0] == ';') && find_marker(line).is_some();
        if record {
            match literal_of(line) {
                None => {
                    return Err(i);
                },
                Some(address) => {
                    found.push(HostAddress { address, prefix_len: prefix_size });
                },
            }
        }
        i = i + 1;
    }
    let ghost before = ipv6_addresses@;
    let mut k: usize = 0;
    while k < found.len()
        invariant
            k <= found@.len(),
            ipv6_addresses@.len() == before.len() + k,
            ipv6_addresses@.subrange(0, before.len() as int) == before,
            forall|m: int|
                0 <= m < k ==> #[trigger] ipv6_addresses@[before.len() + m] == found@[m],
        decreases found@.len() - k,
    {
        ipv6_addresses.push(found[k]);
        k = k + 1;
        assert(ipv6_addresses@.subrange(0, before.len() as int) =~= before);
    }
    Ok(())
}

} // verus!
