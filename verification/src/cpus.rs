//! The machine's cpus as sysfs lists them: cpu-list text ("0,12",
//! "0-2,6"), which cpu of a core is its primary, the order a measurement
//! takes partners in, and the default base cpu. The text is read
//! elsewhere; these functions decide.

use vstd::prelude::*;
use vstd::string::StrSliceExecFns;
use vstd::relations::{sorted_by, total_ordering};

verus! {

/// Whitespace as Unicode's White_Space property has it, what `str::trim`
/// trims.
pub open spec fn is_white_space(c: char) -> bool {
    let u = c as u32;
    ||| 9 <= u <= 13
    ||| u == 32
    ||| u == 0x85
    ||| u == 0xa0
    ||| u == 0x1680
    ||| 0x2000 <= u <= 0x200a
    ||| u == 0x2028
    ||| u == 0x2029
    ||| u == 0x202f
    ||| u == 0x205f
    ||| u == 0x3000
}

/// `s` without its leading whitespace.
pub open spec fn trim_start(s: Seq<char>) -> Seq<char>
    decreases s.len(),
{
    if s.len() > 0 && is_white_space(s[0]) {
        trim_start(s.drop_first())
    } else {
        s
    }
}

/// `s` without its trailing whitespace.
pub open spec fn trim_end(s: Seq<char>) -> Seq<char>
    decreases s.len(),
{
    if s.len() > 0 && is_white_space(s.last()) {
        trim_end(s.drop_last())
    } else {
        s
    }
}

/// `s` without whitespace at either end.
pub open spec fn trim(s: Seq<char>) -> Seq<char> {
    trim_end(trim_start(s))
}

/// Every char of `d` is an ASCII digit.
pub open spec fn all_digits(d: Seq<char>) -> bool {
    forall|i: int| 0 <= i < d.len() ==> '0' <= #[trigger] d[i] <= '9'
}

/// The number the ASCII digits `d` spell, most significant first.
pub open spec fn digits_value(d: Seq<char>) -> nat
    decreases d.len(),
{
    if d.len() == 0 {
        0
    } else {
        digits_value(d.drop_last()) * 10 + (d.last() as nat - 48) as nat
    }
}

/// What parsing `p` as a `usize` gives: an optional `+`, then one or more
/// ASCII digits whose value fits.
pub open spec fn parse_usize(p: Seq<char>) -> Option<usize> {
    let d = if p.len() > 0 && p[0] == '+' { p.drop_first() } else { p };
    if d.len() > 0 && all_digits(d) && digits_value(d) <= usize::MAX {
        Some(digits_value(d) as usize)
    } else {
        None
    }
}

/// The index of the first `c` in `t` from `from` on, or `t`'s length.
pub open spec fn find(t: Seq<char>, c: char, from: int) -> int
    decreases t.len() - from,
{
    if from < 0 || from >= t.len() {
        t.len() as int
    } else if t[from] == c {
        from
    } else {
        find(t, c, from + 1)
    }
}

/// `lo` to `hi` inclusive, nothing when `lo > hi`.
pub open spec fn range_incl(lo: usize, hi: usize) -> Seq<usize> {
    Seq::new(if lo <= hi { (hi - lo + 1) as nat } else { 0 }, |i: int| (lo + i) as usize)
}

/// The cpus one comma-separated piece names: `lo-hi` (split at the first
/// `-`) is the range, a number is itself, and a malformed piece nothing.
pub open spec fn piece_cpus(p: Seq<char>) -> Seq<usize> {
    let j = find(p, '-', 0);
    if j < p.len() {
        match (parse_usize(p.subrange(0, j)), parse_usize(p.subrange(j + 1, p.len() as int))) {
            (Some(lo), Some(hi)) => range_incl(lo, hi),
            _ => Seq::empty(),
        }
    } else {
        match parse_usize(p) {
            Some(n) => seq![n],
            None => Seq::empty(),
        }
    }
}

/// The cpus of `t` from the piece that started at `start`, scanning from
/// `i`: each comma ends a piece.
pub open spec fn pieces_from(t: Seq<char>, start: int, i: int) -> Seq<usize>
    decreases t.len() - i,
{
    if i >= t.len() {
        piece_cpus(t.subrange(start, t.len() as int))
    } else if t[i] == ',' {
        piece_cpus(t.subrange(start, i)) + pieces_from(t, i + 1, i + 1)
    } else {
        pieces_from(t, start, i + 1)
    }
}

/// The cpus a cpu-list text names, in its order: the text trimmed, split
/// at commas, each piece's cpus.
pub open spec fn cpu_list(s: Seq<char>) -> Seq<usize> {
    pieces_from(trim(s), 0, 0)
}

/// Whether `c` is Unicode whitespace.
fn white_space(c: char) -> (r: bool)
    ensures
        r == is_white_space(c),
{
    let u = c as u32;
    (9 <= u && u <= 13) || u == 32 || u == 0x85 || u == 0xa0 || u == 0x1680 || (0x2000 <= u && u <= 0x200a)
        || u == 0x2028 || u == 0x2029 || u == 0x202f || u == 0x205f || u == 0x3000
}

/// A value of digits is at least the value of any prefix of them.
proof fn lemma_digits_prefix(d: Seq<char>, i: int)
    requires
        0 <= i <= d.len(),
        all_digits(d),
    ensures
        digits_value(d.take(i)) <= digits_value(d),
    decreases d.len() - i,
{
    if i < d.len() {
        lemma_digits_prefix(d, i + 1);
        assert(d.take(i + 1).drop_last() =~= d.take(i));
        let v = digits_value(d.take(i));
        let w = digits_value(d.take(i + 1));
        assert(w == v * 10 + (d.take(i + 1).last() as nat - 48) as nat);
        assert(v <= v * 10) by (nonlinear_arith)
            requires v >= 0;
    } else {
        assert(d.take(i) =~= d);
    }
}

/// Parse `t[lo..hi]` as a `usize`.
fn parse_piece_number(t: &Vec<char>, lo: usize, hi: usize) -> (r: Option<usize>)
    requires
        lo <= hi <= t@.len(),
    ensures
        r == parse_usize(t@.subrange(lo as int, hi as int)),
{
    let ghost p = t@.subrange(lo as int, hi as int);
    let mut i = lo;
    if i < hi && t[i] == '+' {
        i = i + 1;
    }
    let ghost d = t@.subrange(i as int, hi as int);
    proof {
        assert(d =~= if p.len() > 0 && p[0] == '+' { p.drop_first() } else { p });
    }
    if i == hi {
        return None;
    }
    let start = i;
    let mut value: usize = 0;
    while i < hi
        invariant
            start <= i <= hi <= t@.len(),
            d == t@.subrange(start as int, hi as int),
            d.len() > 0,
            p == t@.subrange(lo as int, hi as int),
            d == if p.len() > 0 && p[0] == '+' { p.drop_first() } else { p },
            all_digits(d.take(i - start)),
            value == digits_value(d.take(i - start)),
        decreases hi - i,
    {
        let c = t[i];
        let ghost k = (i - start) as int;
        proof {
            assert(d[k] == c);
        }
        if !('0' <= c && c <= '9') {
            proof {
                assert(!all_digits(d));
            }
            return None;
        }
        let dig = (c as u32 - 48) as usize;
        proof {
            assert(d.take(k + 1).drop_last() =~= d.take(k));
            assert(all_digits(d.take(k + 1)));
        }
        if value > (usize::MAX - dig) / 10 {
            proof {
                assert(digits_value(d.take(k + 1)) == value * 10 + dig);
                assert(value * 10 + dig > usize::MAX) by (nonlinear_arith)
                    requires value > (usize::MAX - dig) / 10, dig <= 9;
                if all_digits(d) {
                    lemma_digits_prefix(d, k + 1);
                }
            }
            return None;
        }
        proof {
            assert(value * 10 + dig <= usize::MAX) by (nonlinear_arith)
                requires value <= (usize::MAX - dig) / 10, dig <= 9;
        }
        value = value * 10 + dig;
        i = i + 1;
    }
    proof {
        assert(d.take(d.len() as int) =~= d);
    }
    Some(value)
}

/// Append `t[lo..hi]`'s cpus to `out`.
fn push_piece(t: &Vec<char>, lo: usize, hi: usize, out: &mut Vec<usize>)
    requires
        lo <= hi <= t@.len(),
    ensures
        final(out)@ == old(out)@ + piece_cpus(t@.subrange(lo as int, hi as int)),
{
    let ghost p = t@.subrange(lo as int, hi as int);
    let mut j = lo;
    while j < hi && t[j] != '-'
        invariant
            lo <= j <= hi <= t@.len(),
            p == t@.subrange(lo as int, hi as int),
            find(p, '-', 0) == find(p, '-', j - lo),
        decreases hi - j,
    {
        j = j + 1;
    }
    if j < hi {
        proof {
            assert(find(p, '-', j - lo) == j - lo);
            assert(p.subrange(0, j - lo) =~= t@.subrange(lo as int, j as int));
            assert(p.subrange(j - lo + 1, p.len() as int) =~= t@.subrange(j + 1, hi as int));
        }
        let a = parse_piece_number(t, lo, j);
        let b = parse_piece_number(t, j + 1, hi);
        match (a, b) {
            (Some(x), Some(y)) => {
                if x <= y {
                    let ghost o = out@;
                    let mut v = x;
                    loop
                        invariant_except_break
                            x <= v <= y,
                            out@ == o + range_incl(x, y).take(v - x),
                        ensures
                            out@ == o + range_incl(x, y),
                        decreases y - v,
                    {
                        out.push(v);
                        proof {
                            assert(range_incl(x, y).take(v - x + 1) =~= range_incl(x, y).take(v - x).push(v));
                        }
                        if v == y {
                            proof {
                                assert(range_incl(x, y).take(v - x + 1) =~= range_incl(x, y));
                            }
                            break;
                        }
                        v = v + 1;
                    }
                } else {
                    proof {
                        assert(range_incl(x, y) =~= Seq::<usize>::empty());
                        assert(out@ + Seq::<usize>::empty() =~= out@);
                    }
                }
            },
            _ => {
                proof {
                    assert(out@ + Seq::<usize>::empty() =~= out@);
                }
            },
        }
    } else {
        proof {
            assert(find(p, '-', j - lo) == p.len());
        }
        match parse_piece_number(t, lo, hi) {
            Some(n) => {
                out.push(n);
                proof {
                    assert(seq![n] =~= Seq::empty().push(n));
                }
            },
            None => {
                proof {
                    assert(out@ + Seq::<usize>::empty() =~= out@);
                }
            },
        }
    }
}

/// Dropping leading whitespace up to the first other char is what
/// `trim_start` does.
proof fn lemma_trim_start(s: Seq<char>, a: int)
    requires
        0 <= a <= s.len(),
        forall|i: int| 0 <= i < a ==> is_white_space(#[trigger] s[i]),
        a == s.len() || !is_white_space(s[a]),
    ensures
        trim_start(s) == s.subrange(a, s.len() as int),
    decreases a,
{
    if a == 0 {
        assert(s.subrange(0, s.len() as int) =~= s);
    } else {
        let r = s.drop_first();
        assert forall|i: int| 0 <= i < a - 1 implies is_white_space(#[trigger] r[i]) by {
            assert(r[i] == s[i + 1]);
        }
        lemma_trim_start(r, a - 1);
        assert(r.subrange(a - 1, r.len() as int) =~= s.subrange(a, s.len() as int));
    }
}

/// Dropping trailing whitespace back to the last other char is what
/// `trim_end` does.
proof fn lemma_trim_end(u: Seq<char>, m: int)
    requires
        0 <= m <= u.len(),
        forall|i: int| m <= i < u.len() ==> is_white_space(#[trigger] u[i]),
        m == 0 || !is_white_space(u[m - 1]),
    ensures
        trim_end(u) == u.subrange(0, m),
    decreases u.len() - m,
{
    if m == u.len() {
        assert(u.subrange(0, m) =~= u);
    } else {
        let r = u.drop_last();
        assert forall|i: int| m <= i < r.len() implies is_white_space(#[trigger] r[i]) by {
            assert(r[i] == u[i]);
        }
        lemma_trim_end(r, m);
        assert(r.subrange(0, m) =~= u.subrange(0, m));
    }
}

/// Parse a sysfs cpu-list text ("0,12" or "0-2,6") into cpu numbers, in
/// its order. Malformed pieces are skipped.
pub fn parse_cpu_list(s: &str) -> (out: Vec<usize>)
    ensures
        out@ == cpu_list(s@),
{
    let n = s.unicode_len();
    let mut a: usize = 0;
    while a < n && white_space(s.get_char(a))
        invariant
            a <= n,
            n == s@.len(),
            forall|i: int| 0 <= i < a ==> is_white_space(#[trigger] s@[i]),
        decreases n - a,
    {
        a = a + 1;
    }
    proof {
        lemma_trim_start(s@, a as int);
    }
    let ghost u = s@.subrange(a as int, n as int);
    let mut b: usize = n;
    while b > a && white_space(s.get_char(b - 1))
        invariant
            a <= b <= n,
            n == s@.len(),
            u == s@.subrange(a as int, n as int),
            forall|i: int| b - a <= i < u.len() ==> is_white_space(#[trigger] u[i]),
        decreases b,
    {
        proof {
            assert(u[b - 1 - a] == s@[b - 1]);
        }
        b = b - 1;
    }
    proof {
        if b > a {
            assert(u[b - 1 - a] == s@[b - 1]);
        }
        lemma_trim_end(u, b - a);
    }
    let mut t: Vec<char> = Vec::new();
    let mut k = a;
    while k < b
        invariant
            a <= k <= b <= n,
            n == s@.len(),
            t@ == s@.subrange(a as int, k as int),
        decreases b - k,
    {
        t.push(s.get_char(k));
        proof {
            assert(t@ =~= s@.subrange(a as int, k + 1));
        }
        k = k + 1;
    }
    proof {
        assert(t@ =~= trim(s@));
    }
    let tn = t.len();
    let mut out: Vec<usize> = Vec::new();
    let mut start: usize = 0;
    let mut i: usize = 0;
    while i < tn
        invariant
            start <= i <= tn,
            tn == t@.len(),
            t@ == trim(s@),
            out@ + pieces_from(t@, start as int, i as int) == cpu_list(s@),
        decreases tn - i,
    {
        if t[i] == ',' {
            let ghost before = out@;
            push_piece(&t, start, i, &mut out);
            proof {
                assert(before + pieces_from(t@, start as int, i as int) =~= out@ + pieces_from(t@, i + 1, i + 1));
            }
            start = i + 1;
        }
        i = i + 1;
    }
    let ghost before = out@;
    push_piece(&t, start, tn, &mut out);
    proof {
        assert(out@ =~= before + pieces_from(t@, start as int, tn as int));
    }
    out
}

/// Whether `cpu` is its core's primary cpu, the lowest of its SMT
/// siblings, given the sibling list read for it: an empty list (none
/// read) stands for the cpu alone.
pub open spec fn primary_by(cpu: usize, siblings: Seq<usize>) -> bool {
    siblings.len() == 0 || (siblings.contains(cpu) && forall|i: int| 0 <= i < siblings.len() ==> cpu <= #[trigger] siblings[i])
}

/// Whether `cpu` is its core's primary cpu, from its sibling list as
/// read (empty when it could not be read).
pub fn is_primary_cpu(cpu: usize, siblings: &[usize]) -> (r: bool)
    ensures
        r == primary_by(cpu, siblings@),
{
    if siblings.len() == 0 {
        return true;
    }
    let mut found = false;
    let mut i: usize = 0;
    while i < siblings.len()
        invariant
            i <= siblings@.len(),
            found == exists|j: int| 0 <= j < i && siblings@[j] == cpu,
            forall|j: int| 0 <= j < i ==> cpu <= #[trigger] siblings@[j],
        decreases siblings@.len() - i,
    {
        if siblings[i] < cpu {
            return false;
        }
        if siblings[i] == cpu {
            found = true;
        }
        i = i + 1;
    }
    proof {
        if found {
            let j = choose|j: int| 0 <= j < siblings@.len() && siblings@[j] == cpu;
            assert(siblings@.contains(cpu));
        } else {
            assert(!siblings@.contains(cpu));
        }
    }
    found
}

/// The highest primary cpu among `cpus`, each given with whether it is
/// its core's primary, if there is one.
pub open spec fn highest_primary(cpus: Seq<(usize, bool)>) -> Option<usize>
    decreases cpus.len(),
{
    if cpus.len() == 0 {
        None
    } else {
        let rest = highest_primary(cpus.drop_last());
        let (c, primary) = cpus.last();
        if !primary {
            rest
        } else {
            match rest {
                Some(b) => Some(if c > b { c } else { b }),
                None => Some(c),
            }
        }
    }
}

/// The default base cpu: the last core's primary cpu, the highest
/// primary cpu online, or 0 when there is none.
pub fn default_base_cpu(cpus: &[(usize, bool)]) -> (r: usize)
    ensures
        r == match highest_primary(cpus@) {
            Some(c) => c,
            None => 0,
        },
{
    let mut best: Option<usize> = None;
    let mut i: usize = 0;
    while i < cpus.len()
        invariant
            i <= cpus@.len(),
            best == highest_primary(cpus@.take(i as int)),
        decreases cpus@.len() - i,
    {
        let (c, primary) = cpus[i];
        proof {
            assert(cpus@.take(i + 1).drop_last() =~= cpus@.take(i as int));
        }
        if primary {
            match best {
                Some(b) => {
                    if c > b {
                        best = Some(c);
                    }
                },
                None => {
                    best = Some(c);
                },
            }
        }
        i = i + 1;
    }
    proof {
        assert(cpus@.take(cpus@.len() as int) =~= cpus@);
    }
    match best {
        Some(b) => b,
        None => 0,
    }
}

/// Partner order on `(cpu, primary)`: primary cpus first, then the
/// highest cpu first.
pub open spec fn partner_le(a: (usize, bool), b: (usize, bool)) -> bool {
    (a.1 && !b.1) || (a.1 == b.1 && a.0 >= b.0)
}

/// The partner order is a total order.
proof fn lemma_partner_total()
    ensures
        total_ordering(|a: (usize, bool), b: (usize, bool)| partner_le(a, b)),
{
}

/// The cpus in partner order: each core's primary before its secondary,
/// and the highest cpu number first, equal keys in their given order.
pub open spec fn quiet_order(cpus: Seq<(usize, bool)>) -> Seq<usize> {
    cpus.sort_by(|a: (usize, bool), b: (usize, bool)| partner_le(a, b)).map_values(|p: (usize, bool)| p.0)
}

/// Partner order: a core's primary cpu before its secondary, and the
/// highest cpu number first. The scheduler fills cpus from the bottom,
/// so the top is the quiet end.
pub fn quiet_first(cpus: &[(usize, bool)]) -> (out: Vec<usize>)
    ensures
        out@ == quiet_order(cpus@),
{
    let ghost leq = |a: (usize, bool), b: (usize, bool)| partner_le(a, b);
    let mut v: Vec<(usize, bool)> = Vec::new();
    let mut i: usize = 0;
    proof {
        assert(cpus@.take(0) =~= v@);
    }
    while i < cpus.len()
        invariant
            i <= cpus@.len(),
            v@.to_multiset() == cpus@.take(i as int).to_multiset(),
            leq == (|a: (usize, bool), b: (usize, bool)| partner_le(a, b)),
            sorted_by(v@, leq),
        decreases cpus@.len() - i,
    {
        let e = cpus[i];
        let mut pos: usize = 0;
        while pos < v.len() && !(
            (e.1 && !v[pos].1) || (e.1 == v[pos].1 && e.0 > v[pos].0))
            invariant
                pos <= v@.len(),
                forall|k: int| 0 <= k < pos ==> #[trigger] partner_le(v@[k], e),
            decreases v@.len() - pos,
        {
            pos = pos + 1;
        }
        let ghost old_v = v@;
        v.insert(pos, e);
        proof {
            broadcast use vstd::seq_lib::to_multiset_insert;
            broadcast use vstd::seq_lib::to_multiset_build;
            assert(cpus@.take(i + 1) =~= cpus@.take(i as int).push(e));
            assert(v@.to_multiset() == old_v.to_multiset().insert(e));
            assert forall|a: int, b: int| 0 <= a < b < v@.len() implies #[trigger] leq(v@[a], v@[b]) by {
                if b < pos {
                    assert(v@[a] == old_v[a] && v@[b] == old_v[b]);
                    assert(leq(old_v[a], old_v[b]));
                } else if b == pos {
                    assert(v@[a] == old_v[a] && v@[b] == e);
                    assert(partner_le(old_v[a], e));
                    assert(leq(old_v[a], e));
                } else if a < pos {
                    assert(v@[a] == old_v[a] && v@[b] == old_v[b - 1]);
                    assert(leq(old_v[a], old_v[b - 1]));
                } else if a == pos {
                    assert(v@[a] == e && v@[b] == old_v[b - 1]);
                    assert(pos < old_v.len());
                    assert((e.1 && !old_v[pos as int].1) || (e.1 == old_v[pos as int].1 && e.0 > old_v[pos as int].0));
                    if pos < b - 1 {
                        assert(leq(old_v[pos as int], old_v[b - 1]));
                    }
                    assert(partner_le(e, old_v[b - 1]));
                    assert(leq(e, old_v[b - 1]));
                } else {
                    assert(v@[a] == old_v[a - 1] && v@[b] == old_v[b - 1]);
                    assert(leq(old_v[a - 1], old_v[b - 1]));
                }
            }
        }
        i = i + 1;
    }
    let mut out: Vec<usize> = Vec::new();
    let mut k: usize = 0;
    while k < v.len()
        invariant
            k <= v@.len(),
            out@ == v@.take(k as int).map_values(|p: (usize, bool)| p.0),
        decreases v@.len() - k,
    {
        out.push(v[k].0);
        proof {
            assert(v@.take(k + 1).map_values(|p: (usize, bool)| p.0) =~= v@.take(k as int).map_values(|p: (usize, bool)| p.0).push(v@[k as int].0));
        }
        k = k + 1;
    }
    proof {
        lemma_partner_total();
        assert(cpus@.take(cpus@.len() as int) =~= cpus@);
        assert(v@.take(v@.len() as int) =~= v@);
        cpus@.lemma_sort_by_ensures(leq);
        vstd::seq_lib::lemma_sorted_unique(v@, cpus@.sort_by(leq), leq);
    }
    out
}

/// The first of `s` that is not `skip` (when given) and not among
/// `avoid`.
pub open spec fn first_other(s: Seq<usize>, skip: Option<usize>, avoid: Seq<usize>) -> Option<usize>
    decreases s.len(),
{
    if s.len() == 0 {
        None
    } else if skip != Some(s[0]) && !avoid.contains(s[0]) {
        Some(s[0])
    } else {
        first_other(s.drop_first(), skip, avoid)
    }
}

/// Past a prefix where every cpu is skipped or avoided, the first other
/// cpu is the same.
proof fn lemma_first_other_skip(s: Seq<usize>, skip: Option<usize>, avoid: Seq<usize>, i: int)
    requires
        0 <= i <= s.len(),
        forall|k: int| 0 <= k < i ==> skip == Some(#[trigger] s[k]) || avoid.contains(s[k]),
    ensures
        first_other(s, skip, avoid) == first_other(s.subrange(i, s.len() as int), skip, avoid),
    decreases i,
{
    if i == 0 {
        assert(s.subrange(0, s.len() as int) =~= s);
    } else {
        let t = s.drop_first();
        assert forall|k: int| 0 <= k < i - 1 implies skip == Some(#[trigger] t[k]) || avoid.contains(t[k]) by {
            assert(t[k] == s[k + 1]);
        }
        assert(skip == Some(s[0]) || avoid.contains(s[0]));
        lemma_first_other_skip(t, skip, avoid, i - 1);
        assert(t.subrange(i - 1, t.len() as int) =~= s.subrange(i, s.len() as int));
    }
}

/// The cpus of `(cpu, primary)` pairs.
pub open spec fn cpus_of(s: Seq<(usize, bool)>) -> Seq<usize> {
    s.map_values(|c: (usize, bool)| c.0)
}

/// Where a two-thread run may sit beside `base`, given `base`'s SMT
/// siblings, the cpus sharing its L3 and the online cpus (each with
/// whether it is its core's primary): the CCX partner, the quietest cpu
/// sharing the L3 that is neither `base` nor its sibling; the cross-CCX
/// partner, the quietest online cpu outside the L3; and the SMT partner,
/// the first sibling that is not `base`. Each is absent where no cpu
/// qualifies.
pub open spec fn partners(base: usize, siblings: Seq<usize>, l3: Seq<(usize, bool)>, online: Seq<(usize, bool)>)
    -> (Option<usize>, Option<usize>, Option<usize>)
{
    (
        first_other(quiet_order(l3), Some(base), siblings),
        first_other(quiet_order(online), None, cpus_of(l3)),
        first_other(siblings, Some(base), Seq::empty()),
    )
}

/// Whether `x` is among `v`.
fn holds(v: &[usize], x: usize) -> (r: bool)
    ensures
        r == v@.contains(x),
{
    let mut i: usize = 0;
    while i < v.len()
        invariant
            i <= v@.len(),
            forall|k: int| 0 <= k < i ==> v@[k] != x,
        decreases v@.len() - i,
    {
        if v[i] == x {
            return true;
        }
        i = i + 1;
    }
    false
}

/// The first of `cands` that is not `skip` (when given) and not among
/// `avoid`.
fn first_outside(cands: &[usize], skip: Option<usize>, avoid: &[usize]) -> (r: Option<usize>)
    ensures
        r == first_other(cands@, skip, avoid@),
{
    let mut i: usize = 0;
    while i < cands.len()
        invariant
            i <= cands@.len(),
            forall|k: int| 0 <= k < i ==> skip == Some(#[trigger] cands@[k]) || avoid@.contains(cands@[k]),
        decreases cands@.len() - i,
    {
        let c = cands[i];
        let is_skip = match skip {
            Some(b) => b == c,
            None => false,
        };
        if !is_skip && !holds(avoid, c) {
            proof {
                lemma_first_other_skip(cands@, skip, avoid@, i as int);
                assert(cands@.subrange(i as int, cands@.len() as int)[0] == c);
            }
            return Some(c);
        }
        i = i + 1;
    }
    proof {
        lemma_first_other_skip(cands@, skip, avoid@, i as int);
    }
    None
}

/// The partners of a two-thread run beside `base`: CCX, cross-CCX and
/// SMT, in that order, as [`partners`] states.
pub fn placement_partners(base: usize, siblings: &[usize], l3: &[(usize, bool)], online: &[(usize, bool)])
    -> (r: (Option<usize>, Option<usize>, Option<usize>))
    ensures
        r == partners(base, siblings@, l3@, online@),
{
    let near = quiet_first(l3);
    let ccx = first_outside(near.as_slice(), Some(base), siblings);
    let mut l3_cpus: Vec<usize> = Vec::new();
    let mut i: usize = 0;
    while i < l3.len()
        invariant
            i <= l3@.len(),
            l3_cpus@ == cpus_of(l3@.take(i as int)),
        decreases l3@.len() - i,
    {
        l3_cpus.push(l3[i].0);
        proof {
            assert(cpus_of(l3@.take(i + 1)) =~= cpus_of(l3@.take(i as int)).push(l3@[i as int].0));
        }
        i = i + 1;
    }
    proof {
        assert(l3@.take(l3@.len() as int) =~= l3@);
    }
    let all = quiet_first(online);
    let xccx = first_outside(all.as_slice(), None, l3_cpus.as_slice());
    let none: Vec<usize> = Vec::new();
    let smt = first_outside(siblings, Some(base), none.as_slice());
    proof {
        assert(none@ =~= Seq::<usize>::empty());
    }
    (ccx, xccx, smt)
}

} // verus!
