//! Why a second run with the same discovered prefix finds nothing to do.
use vstd::prelude::*;

use crate::address::{ipv6_net_reading, ipv6_text, recombined, same_network, valid_prefix_len};
use crate::record::{
    is_comment, is_host_record, is_space, lemma_marker_from, literal_address, literal_span,
    marker_at, marker_from, owner_is, skip_field, skip_spaces, spliced, with_literal,
};
use crate::zone::{
    first_unresolved, is_stale, join_lines, lemma_join_cons, lemma_split_nonempty, lines_of,
    listed_stale, reconciled, record_before, record_index, resolves, split_from, updated_line,
};

verus! {

/// No character of `s` is a line break.
pub open spec fn no_break(s: Seq<char>) -> bool {
    forall|k: int| 0 <= k < s.len() ==> s[k] != '\n'
}

proof fn lemma_split_shift(t: Seq<char>, m: int, k: int, c: Seq<char>)
    requires
        0 <= m <= k <= t.len(),
    ensures
        split_from(t, k, c) == split_from(t.subrange(m, t.len() as int), k - m, c),
    decreases t.len() - k,
{
    let u = t.subrange(m, t.len() as int);
    if k < t.len() {
        assert(u[k - m] == t[k]);
        if t[k] == '\n' {
            lemma_split_shift(t, m, k + 1, Seq::empty());
        } else {
            lemma_split_shift(t, m, k + 1, c.push(t[k]));
        }
    }
}

proof fn lemma_split_skip(t: Seq<char>, k: int, j: int, c: Seq<char>)
    requires
        0 <= k <= j <= t.len(),
        no_break(t.subrange(k, j)),
    ensures
        split_from(t, k, c) == split_from(t, j, c + t.subrange(k, j)),
    decreases j - k,
{
    if k == j {
        assert(c + t.subrange(k, j) =~= c);
    } else {
        assert(t.subrange(k, j)[0] == t[k]);
        assert(t.subrange(k + 1, j) =~= t.subrange(k, j).subrange(1, j - k));
        lemma_split_skip(t, k + 1, j, c.push(t[k]));
        assert(c.push(t[k]) + t.subrange(k + 1, j) =~= c + t.subrange(k, j));
    }
}

/// Joining lines that hold no line break and splitting the result again
/// gives the same lines.
pub proof fn lemma_lines_of_join(ls: Seq<Seq<char>>)
    requires
        ls.len() >= 1,
        forall|i: int| 0 <= i < ls.len() ==> no_break(#[trigger] ls[i]),
    ensures
        lines_of(join_lines(ls)) == ls,
    decreases ls.len(),
{
    let x = ls[0];
    if ls.len() == 1 {
        assert(x.subrange(0, x.len() as int) =~= x);
        lemma_split_skip(x, 0, x.len() as int, Seq::empty());
        assert(Seq::<char>::empty() + x =~= x);
        assert(lines_of(join_lines(ls)) =~= ls);
    } else {
        let rest = ls.drop_first();
        assert(seq![x] + rest =~= ls);
        lemma_join_cons(x, rest);
        let t = join_lines(ls);
        let y = join_lines(rest);
        assert(t == x + seq!['\n'] + y);
        assert(t.subrange(0, x.len() as int) =~= x);
        lemma_split_skip(t, 0, x.len() as int, Seq::empty());
        assert(Seq::<char>::empty() + x =~= x);
        assert(t[x.len() as int] == '\n');
        lemma_split_shift(t, x.len() as int + 1, x.len() as int + 1, Seq::empty());
        assert(t.subrange(x.len() as int + 1, t.len() as int) =~= y);
        assert forall|i: int| 0 <= i < rest.len() implies no_break(#[trigger] rest[i]) by {
            assert(rest[i] == ls[i + 1]);
        }
        lemma_lines_of_join(rest);
        assert(lines_of(t) =~= seq![x] + rest);
    }
}

proof fn lemma_split_no_break(t: Seq<char>, k: int, c: Seq<char>)
    requires
        no_break(c),
    ensures
        forall|i: int|
            0 <= i < split_from(t, k, c).len() ==> no_break(#[trigger] split_from(t, k, c)[i]),
    decreases t.len() - k,
{
    if k < 0 || k >= t.len() {
        assert(split_from(t, k, c) =~= seq![c]);
    } else if t[k] == '\n' {
        lemma_split_no_break(t, k + 1, Seq::empty());
        let rest = split_from(t, k + 1, Seq::empty());
        assert(split_from(t, k, c) == seq![c] + rest);
        assert forall|i: int| 0 <= i < split_from(t, k, c).len() implies no_break(
            #[trigger] split_from(t, k, c)[i],
        ) by {
            if i > 0 {
                assert(split_from(t, k, c)[i] == rest[i - 1]);
            } else {
                assert(split_from(t, k, c)[i] == c);
            }
        }
    } else {
        assert(no_break(c.push(t[k])));
        lemma_split_no_break(t, k + 1, c.push(t[k]));
        assert(split_from(t, k, c) == split_from(t, k + 1, c.push(t[k])));
    }
}

/// No line of a text holds a line break.
pub proof fn lemma_lines_no_break(t: Seq<char>)
    ensures
        forall|i: int| 0 <= i < lines_of(t).len() ==> no_break(#[trigger] lines_of(t)[i]),
{
    lemma_split_no_break(t, 0, Seq::empty());
}


/// The text form of `a` is a single field, free of separators and line
/// breaks, that reads back as `a`.
pub open spec fn text_reads_back(a: Seq<u16>) -> bool {
    let t = ipv6_text(a);
    &&& t.len() > 0
    &&& forall|k: int| 0 <= k < t.len() ==> !is_space(#[trigger] t[k]) && t[k] != '\n'
    &&& match ipv6_net_reading(t + "/128"@) {
        Some((segments, _)) => segments@ == a,
        None => false,
    }
}

/// A name with no separator in it.
pub open spec fn single_field(name: Seq<char>) -> bool {
    forall|k: int| 0 <= k < name.len() ==> !is_space(#[trigger] name[k])
}

proof fn lemma_skip_spaces_props(x: Seq<char>, k: int)
    requires
        0 <= k <= x.len(),
    ensures
        k <= skip_spaces(x, k) <= x.len(),
        forall|q: int| k <= q < skip_spaces(x, k) ==> is_space(#[trigger] x[q]),
        skip_spaces(x, k) < x.len() ==> !is_space(x[skip_spaces(x, k)]),
    decreases x.len() - k,
{
    if k < x.len() && is_space(x[k]) {
        lemma_skip_spaces_props(x, k + 1);
    }
}

proof fn lemma_skip_spaces_at(x: Seq<char>, k: int, r: int)
    requires
        0 <= k <= r <= x.len(),
        forall|q: int| k <= q < r ==> is_space(#[trigger] x[q]),
        r < x.len() ==> !is_space(x[r]),
    ensures
        skip_spaces(x, k) == r,
    decreases r - k,
{
    if k < r {
        lemma_skip_spaces_at(x, k + 1, r);
    }
}

proof fn lemma_skip_field_props(x: Seq<char>, k: int)
    requires
        0 <= k <= x.len(),
    ensures
        k <= skip_field(x, k) <= x.len(),
        forall|q: int| k <= q < skip_field(x, k) ==> !is_space(#[trigger] x[q]),
        skip_field(x, k) < x.len() ==> is_space(x[skip_field(x, k)]),
    decreases x.len() - k,
{
    if k < x.len() && !is_space(x[k]) {
        lemma_skip_field_props(x, k + 1);
    }
}

proof fn lemma_skip_field_at(x: Seq<char>, k: int, r: int)
    requires
        0 <= k <= r <= x.len(),
        forall|q: int| k <= q < r ==> !is_space(#[trigger] x[q]),
        r < x.len() ==> is_space(x[r]),
    ensures
        skip_field(x, k) == r,
    decreases r - k,
{
    if k < r {
        lemma_skip_field_at(x, k + 1, r);
    }
}

proof fn lemma_marker_same(x: Seq<char>, y: Seq<char>, q: int, p: int, bound: int)
    requires
        0 <= q <= p,
        marker_from(x, q) == p,
        p + 5 <= bound <= x.len(),
        bound <= y.len(),
        forall|i: int| 0 <= i < bound ==> x[i] == y[i],
    ensures
        marker_from(y, q) == p,
    decreases p - q,
{
    lemma_marker_from(x, q);
    assert(marker_at(x, q) == marker_at(y, q));
    if q < p {
        lemma_marker_same(x, y, q + 1, p, bound);
    }
}

/// Writing the text form of `b` over the literal of a record line leaves
/// everything before the literal as it was, so the line still declares the
/// same owner's record, and its literal now reads as `b`.
pub proof fn lemma_with_literal(line: Seq<char>, b: Seq<u16>)
    requires
        literal_address(line) is Some,
        text_reads_back(b),
    ensures
        literal_address(with_literal(line, b)) == Some(b),
        forall|h: Seq<char>|
            single_field(h) ==> (is_host_record(with_literal(line, b), h) == is_host_record(
                line,
                h,
            )),
        no_break(line) ==> no_break(with_literal(line, b)),
{
    let n = with_literal(line, b);
    let t = ipv6_text(b);
    let p = marker_from(line, 0);
    lemma_marker_from(line, 0);
    lemma_skip_spaces_props(line, p + 4);
    let s = skip_spaces(line, p + 4);
    lemma_skip_field_props(line, s);
    let e = skip_field(line, s);
    assert(literal_span(line) == Some((s, e)));
    assert(p + 5 <= s);
    assert(n == spliced(line, s, e, t));
    assert(n.len() == s + t.len() + (line.len() - e));
    assert forall|i: int| 0 <= i < s implies n[i] == line[i] by {}
    assert forall|i: int| s <= i < s + t.len() implies n[i] == t[i - s] by {}
    assert forall|i: int| s + t.len() <= i < n.len() implies n[i] == line[i - t.len() - s + e] by {}
    lemma_marker_same(line, n, 0, p, s);
    assert forall|q: int| p + 4 <= q < s implies is_space(#[trigger] n[q]) by {
        assert(is_space(line[q]));
    }
    assert(!is_space(n[s])) by {
        assert(n[s] == t[0]);
    }
    lemma_skip_spaces_at(n, p + 4, s);
    assert forall|q: int| s <= q < s + t.len() implies !is_space(#[trigger] n[q]) by {
        assert(n[q] == t[q - s]);
    }
    if s + t.len() < n.len() {
        assert(n[s + t.len()] == line[e]);
    }
    lemma_skip_field_at(n, s, s + t.len());
    assert(literal_span(n) == Some((s, s + t.len())));
    assert(n.subrange(s, s + t.len()) =~= t);
    assert forall|h: Seq<char>| single_field(h) implies (is_host_record(n, h) == is_host_record(line, h)) by {
        assert(is_comment(n) == is_comment(line));
        if owner_is(line, h) {
            if h.len() >= p {
                assert(line[p - 1] == h[p - 1]);
            }
        }
        if owner_is(n, h) {
            if h.len() >= p {
                assert(n[p - 1] == h[p - 1]);
            }
        }
        if h.len() < p {
            assert(n.subrange(0, h.len() as int) =~= line.subrange(0, h.len() as int));
        }
    }
    if no_break(line) {
        assert forall|k: int| 0 <= k < n.len() implies n[k] != '\n' by {
            if s <= k < s + t.len() {
                assert(n[k] == t[k - s]);
            }
        }
    }
}


proof fn lemma_record_before_same(x: Seq<Seq<char>>, y: Seq<Seq<char>>, h: Seq<char>, n: int)
    requires
        x.len() == y.len(),
        0 <= n <= x.len(),
        forall|i: int| 0 <= i < x.len() ==> is_host_record(x[i], h) == is_host_record(y[i], h),
    ensures
        record_before(x, h, n) == record_before(y, h, n),
        -1 <= record_before(x, h, n) < n,
    decreases n,
{
    if n > 0 {
        lemma_record_before_same(x, y, h, n - 1);
    }
}

proof fn lemma_all_resolve(lines: Seq<Seq<char>>, hosts: Seq<Seq<char>>, j: int)
    requires
        0 <= j,
        first_unresolved(lines, hosts, j) == -1,
    ensures
        forall|k: int| j <= k < hosts.len() ==> resolves(lines, #[trigger] hosts[k]),
    decreases hosts.len() - j,
{
    if j < hosts.len() {
        lemma_all_resolve(lines, hosts, j + 1);
    }
}

proof fn lemma_none_unresolved(lines: Seq<Seq<char>>, hosts: Seq<Seq<char>>, j: int)
    requires
        0 <= j,
        forall|k: int| j <= k < hosts.len() ==> resolves(lines, #[trigger] hosts[k]),
    ensures
        first_unresolved(lines, hosts, j) == -1,
    decreases hosts.len() - j,
{
    if j < hosts.len() {
        lemma_none_unresolved(lines, hosts, j + 1);
    }
}

/// Given that the text form of every address is a single field that reads
/// back as that address, and that no host name holds a separator: after a
/// run that succeeded, a second run on its output with the same discovered
/// network succeeds too, finds no stale record, and gives the text back
/// unchanged.
pub proof fn lemma_second_run_changes_nothing(
    config: Seq<char>,
    hosts: Seq<Seq<char>>,
    prefix_len: u8,
    discovered: Seq<u16>,
)
    requires
        valid_prefix_len(prefix_len),
        first_unresolved(lines_of(config), hosts, 0) == -1,
        forall|j: int| 0 <= j < hosts.len() ==> single_field(#[trigger] hosts[j]),
        forall|a: Seq<u16>| a.len() == 8 ==> #[trigger] text_reads_back(a),
    ensures
        ({
            let once = join_lines(reconciled(lines_of(config), hosts, prefix_len, discovered));
            &&& first_unresolved(lines_of(once), hosts, 0) == -1
            &&& forall|i: int|
                0 <= i < lines_of(once).len() ==> !listed_stale(
                    lines_of(once),
                    hosts,
                    prefix_len,
                    discovered,
                    i,
                )
            &&& join_lines(reconciled(lines_of(once), hosts, prefix_len, discovered)) == once
        }),
{
    let d = discovered;
    let ls = lines_of(config);
    let out = reconciled(ls, hosts, prefix_len, d);
    let once = join_lines(out);
    lemma_lines_no_break(config);
    lemma_split_nonempty(config, 0, Seq::empty());
    assert forall|i: int| 0 <= i < out.len() implies {
        &&& no_break(#[trigger] out[i])
        &&& literal_address(out[i]) is Some || literal_address(ls[i]) is None
        &&& forall|h: Seq<char>|
            single_field(h) ==> (is_host_record(out[i], h) == is_host_record(ls[i], h))
        &&& listed_stale(ls, hosts, prefix_len, d, i) ==> literal_address(out[i]) == Some(
            recombined(d, literal_address(ls[i])->0, prefix_len),
        )
        &&& !listed_stale(ls, hosts, prefix_len, d, i) ==> out[i] == ls[i]
    } by {
        if listed_stale(ls, hosts, prefix_len, d, i) {
            let b = recombined(d, literal_address(ls[i])->0, prefix_len);
            assert(text_reads_back(b));
            lemma_with_literal(ls[i], b);
            assert(out[i] == updated_line(ls[i], prefix_len, d));
        }
    }
    lemma_lines_of_join(out);
    assert(lines_of(once) == out);
    lemma_all_resolve(ls, hosts, 0);
    assert forall|k: int| 0 <= k < hosts.len() implies resolves(out, #[trigger] hosts[k]) && record_index(out, hosts[k]) == record_index(ls, hosts[k]) by {
        let h = hosts[k];
        assert(single_field(h));
        assert forall|i: int| 0 <= i < ls.len() implies is_host_record(ls[i], h) == is_host_record(
            out[i],
            h,
        ) by {
            assert(no_break(out[i]));
        }
        lemma_record_before_same(ls, out, h, ls.len() as int);
        assert(resolves(ls, h));
        let ri = record_index(ls, h);
        assert(no_break(out[ri]));
    }
    lemma_none_unresolved(out, hosts, 0);
    assert forall|i: int| 0 <= i < out.len() implies !listed_stale(out, hosts, prefix_len, d, i) by {
        if listed_stale(out, hosts, prefix_len, d, i) {
            let j = choose|j: int|
                0 <= j < hosts.len() && #[trigger] record_index(out, hosts[j]) == i && is_stale(
                    out[i],
                    prefix_len,
                    d,
                );
            assert(record_index(ls, hosts[j]) == i);
            if listed_stale(ls, hosts, prefix_len, d, i) {
                let b = recombined(d, literal_address(ls[i])->0, prefix_len);
                assert(same_network(b, d, prefix_len));
            } else {
                assert(listed_stale(ls, hosts, prefix_len, d, i));
            }
        }
    }
    assert(reconciled(out, hosts, prefix_len, d) =~= out);
}

} // verus!
