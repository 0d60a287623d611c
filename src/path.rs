//! Canonical key paths: a location inside a document written as field names
//! joined by `.`, each followed by any number of `[n]` array indices.

use vstd::prelude::*;
use crate::text::{chars_of, slice_chars};

verus! {

/// One navigation step, as contracts see it.
pub ghost enum PathStep {
    Field(Seq<char>),
    Index(nat),
    /// A bracketed segment without any usable index; it never resolves.
    Malformed,
}

/// One navigation step of a decoded path.
#[derive(Debug, Clone)]
pub enum Step {
    Field(String),
    Index(usize),
    Malformed,
}

impl View for Step {
    type V = PathStep;

    open spec fn view(&self) -> PathStep {
        match self {
            Step::Field(k) => PathStep::Field(k@),
            Step::Index(i) => PathStep::Index(*i as nat),
            Step::Malformed => PathStep::Malformed,
        }
    }
}

/// The steps of a vector, as contracts see them.
pub open spec fn steps_view(v: Seq<Step>) -> Seq<PathStep> {
    v.map_values(|s: Step| s@)
}

pub open spec fn digit_char(d: nat) -> char {
    seq!['0', '1', '2', '3', '4', '5', '6', '7', '8', '9'][(d % 10) as int]
}

/// The decimal digits of `n`, without leading zeros.
pub open spec fn decimal(n: nat) -> Seq<char>
    decreases n,
{
    if n < 10 {
        seq![digit_char(n)]
    } else {
        decimal(n / 10).push(digit_char(n % 10))
    }
}

/// The canonical text of a step sequence: each field after the first is
/// preceded by `.`, each index is written `[n]` right after what it indexes.
pub open spec fn encode(steps: Seq<PathStep>) -> Seq<char>
    decreases steps.len(),
{
    if steps.len() == 0 {
        Seq::empty()
    } else {
        let prev = encode(steps.drop_last());
        match steps.last() {
            PathStep::Field(k) => if steps.len() == 1 {
                k
            } else {
                prev + seq!['.'] + k
            },
            PathStep::Index(n) => prev + seq!['['] + decimal(n) + seq![']'],
            PathStep::Malformed => prev,
        }
    }
}

fn digit_text(d: usize) -> (r: String)
    requires
        d < 10,
    ensures
        r@ == seq![digit_char(d as nat)],
{
    proof {
        reveal_strlit("0");
        reveal_strlit("1");
        reveal_strlit("2");
        reveal_strlit("3");
        reveal_strlit("4");
        reveal_strlit("5");
        reveal_strlit("6");
        reveal_strlit("7");
        reveal_strlit("8");
        reveal_strlit("9");
    }
    let s = if d == 0 {
        "0"
    } else if d == 1 {
        "1"
    } else if d == 2 {
        "2"
    } else if d == 3 {
        "3"
    } else if d == 4 {
        "4"
    } else if d == 5 {
        "5"
    } else if d == 6 {
        "6"
    } else if d == 7 {
        "7"
    } else if d == 8 {
        "8"
    } else {
        "9"
    };
    let r = s.to_string();
    assert(r@ =~= seq![digit_char(d as nat)]);
    r
}

/// The decimal text of `n`.
pub fn decimal_text(n: usize) -> (r: String)
    ensures
        r@ == decimal(n as nat),
    decreases n,
{
    if n < 10 {
        digit_text(n)
    } else {
        let head = decimal_text(n / 10);
        let last = digit_text(n % 10);
        let r = head.concat(last.as_str());
        assert(r@ =~= decimal(n as nat));
        r
    }
}

/// `key_path` extended by the field `key`.
pub(crate) fn join_field(key_path: &String, at_root: bool, key: &String) -> (r: String)
    ensures
        at_root ==> r@ == key@,
        !at_root ==> r@ == key_path@ + seq!['.'] + key@,
{
    if at_root {
        key.clone()
    } else {
        proof {
            reveal_strlit(".");
        }
        let r = key_path.clone().concat(".").concat(key.as_str());
        r
    }
}

/// `key_path` extended by the array index `i`.
pub(crate) fn join_index(key_path: &String, i: usize) -> (r: String)
    ensures
        r@ == key_path@ + seq!['['] + decimal(i as nat) + seq![']'],
{
    proof {
        reveal_strlit("[");
        reveal_strlit("]");
    }
    let d = decimal_text(i);
    let r = key_path.clone().concat("[").concat(d.as_str()).concat("]");
    r
}

/// The text split at every `.`; always at least one part.
pub open spec fn split_dots(s: Seq<char>) -> Seq<Seq<char>>
    decreases s.len(),
{
    if s.len() == 0 {
        seq![Seq::empty()]
    } else {
        let init = split_dots(s.drop_last());
        if s.last() == '.' {
            init.push(Seq::empty())
        } else {
            init.update(init.len() - 1, init.last().push(s.last()))
        }
    }
}

pub open spec fn is_ascii_digit(c: char) -> bool {
    '0' <= c && c <= '9'
}

/// How many ASCII digits follow position `i` of `r`, from `i` on.
pub open spec fn digit_run(r: Seq<char>, i: int) -> nat
    decreases r.len() - i,
{
    if 0 <= i < r.len() && is_ascii_digit(r[i]) {
        1 + digit_run(r, i + 1)
    } else {
        0
    }
}

/// The number that a string of ASCII digits denotes.
pub open spec fn digits_value(ds: Seq<char>) -> nat
    decreases ds.len(),
{
    if ds.len() == 0 {
        0
    } else {
        digits_value(ds.drop_last()) * 10 + (ds.last() as nat - '0' as nat) as nat
    }
}

/// The indices written as `[digits]` in `r`, read left to right; a group
/// whose number does not fit in `usize` is passed over.
pub open spec fn bracket_indices(r: Seq<char>) -> Seq<nat>
    decreases r.len(),
{
    if r.len() == 0 {
        Seq::empty()
    } else if r[0] == '[' && digit_run(r, 1) > 0 && 1 + digit_run(r, 1) < r.len() && r[1
        + digit_run(r, 1) as int] == ']' {
        let d = digit_run(r, 1) as int;
        let v = digits_value(r.subrange(1, 1 + d));
        let rest = bracket_indices(r.subrange(2 + d, r.len() as int));
        if v <= usize::MAX {
            seq![v] + rest
        } else {
            rest
        }
    } else {
        bracket_indices(r.drop_first())
    }
}

/// Position of the first `[` in `s` at or after `i`, if any.
pub open spec fn first_bracket(s: Seq<char>, i: int) -> Option<int>
    decreases s.len() - i,
{
    if i < 0 || i >= s.len() {
        None
    } else if s[i] == '[' {
        Some(i)
    } else {
        first_bracket(s, i + 1)
    }
}

/// The steps of one dot-separated segment: a field name, or an optional
/// field name followed by its bracketed indices.
pub open spec fn segment_steps(seg: Seq<char>) -> Seq<PathStep> {
    match first_bracket(seg, 0) {
        None => seq![PathStep::Field(seg)],
        Some(p) => {
            let ns = bracket_indices(seg.subrange(p, seg.len() as int));
            if ns.len() == 0 {
                seq![PathStep::Malformed]
            } else {
                let head = if p == 0 {
                    Seq::empty()
                } else {
                    seq![PathStep::Field(seg.subrange(0, p))]
                };
                head + ns.map_values(|n: nat| PathStep::Index(n))
            }
        },
    }
}

/// The steps of the parts, in order.
pub open spec fn flat_steps(parts: Seq<Seq<char>>) -> Seq<PathStep>
    decreases parts.len(),
{
    if parts.len() == 0 {
        Seq::empty()
    } else {
        flat_steps(parts.drop_last()) + segment_steps(parts.last())
    }
}

/// The steps that a key path text denotes.
pub open spec fn decode(s: Seq<char>) -> Seq<PathStep> {
    flat_steps(split_dots(s))
}

proof fn lemma_split_nonempty(s: Seq<char>)
    ensures
        split_dots(s).len() >= 1,
    decreases s.len(),
{
    if s.len() > 0 {
        lemma_split_nonempty(s.drop_last());
    }
}

proof fn lemma_digits_value_grows(ds: Seq<char>, c: char)
    requires
        is_ascii_digit(c),
    ensures
        digits_value(ds.push(c)) >= digits_value(ds),
        digits_value(ds.push(c)) == digits_value(ds) * 10 + (c as nat - '0' as nat),
{
    assert(ds.push(c).drop_last() =~= ds);
}

proof fn lemma_digit_run_all(r: Seq<char>, i: int, j: int)
    requires
        0 <= i <= j <= r.len(),
        forall|k: int| i <= k < j ==> is_ascii_digit(r[k]),
        j == r.len() || !is_ascii_digit(r[j]),
    ensures
        digit_run(r, i) == j - i,
    decreases j - i,
{
    if i < j {
        lemma_digit_run_all(r, i + 1, j);
    }
}

/// Reads the indices of the bracket groups in `r[lo..]`.
fn read_indices(r: &Vec<char>, lo: usize) -> (ns: Vec<usize>)
    requires
        lo <= r@.len(),
    ensures
        ns@.map_values(|n: usize| n as nat) == bracket_indices(r@.subrange(lo as int, r@.len() as int)),
{
    let n = r.len();
    let mut ns: Vec<usize> = Vec::new();
    let mut i: usize = lo;
    while i < n
        invariant
            lo <= i <= n == r@.len(),
            ns@.map_values(|n: usize| n as nat) + bracket_indices(r@.subrange(i as int, n as int))
                == bracket_indices(r@.subrange(lo as int, n as int)),
        decreases n - i,
    {
        let ghost t = r@.subrange(i as int, n as int);
        let mut found = false;
        if r[i] == '[' {
            let mut j: usize = i + 1;
            let mut v: usize = 0;
            let mut over = false;
            while j < n && '0' <= r[j] && r[j] <= '9'
                invariant
                    i + 1 <= j <= n == r@.len(),
                    t == r@.subrange(i as int, n as int),
                    forall|k: int| i + 1 <= k < j ==> is_ascii_digit(r@[k]),
                    !over ==> v == digits_value(r@.subrange(i + 1, j as int)),
                    over ==> digits_value(r@.subrange(i + 1, j as int)) > usize::MAX,
                decreases n - j,
            {
                let d = (r[j] as u32 - '0' as u32) as usize;
                proof {
                    assert(r@.subrange(i + 1, j + 1) =~= r@.subrange(i + 1, j as int).push(r@[j as int]));
                    lemma_digits_value_grows(r@.subrange(i + 1, j as int), r@[j as int]);
                }
                if !over {
                    if v > (usize::MAX - d) / 10 {
                        over = true;
                    } else {
                        v = v * 10 + d;
                    }
                }
                j = j + 1;
            }
            proof {
                lemma_digit_run_all(t, 1, j - i);
            }
            if j > i + 1 && j < n && r[j] == ']' {
                proof {
                    assert(t.subrange(1, 1 + digit_run(t, 1) as int) =~= r@.subrange(i + 1, j as int));
                    assert(t.subrange(2 + digit_run(t, 1) as int, t.len() as int) =~= r@.subrange(j + 1, n as int));
                }
                if !over {
                    proof {
                        assert(ns@.push(v).map_values(|n: usize| n as nat) =~= ns@.map_values(|n: usize| n as nat) + seq![v as nat]);
                    }
                    ns.push(v);
                }
                i = j + 1;
                found = true;
            }
        }
        if !found {
            proof {
                assert(t.drop_first() =~= r@.subrange(i + 1, n as int));
            }
            i = i + 1;
        }
    }
    proof {
        assert(r@.subrange(n as int, n as int).len() == 0);
        assert(ns@.map_values(|n: usize| n as nat) + bracket_indices(r@.subrange(n as int, n as int)) =~= ns@.map_values(|n: usize| n as nat));
    }
    ns
}

fn find_bracket(s: &Vec<char>, lo: usize, hi: usize) -> (r: Option<usize>)
    requires
        lo <= hi <= s@.len(),
    ensures
        r matches Some(p) ==> lo <= p < hi && first_bracket(s@.subrange(lo as int, hi as int), 0)
            == Some(p - lo),
        r is None ==> first_bracket(s@.subrange(lo as int, hi as int), 0) is None,
{
    let ghost seg = s@.subrange(lo as int, hi as int);
    let mut i: usize = lo;
    while i < hi
        invariant
            lo <= i <= hi <= s@.len(),
            seg == s@.subrange(lo as int, hi as int),
            first_bracket(seg, 0) == first_bracket(seg, i - lo),
        decreases hi - i,
    {
        if s[i] == '[' {
            return Some(i);
        }
        i = i + 1;
    }
    None
}

/// Appends the steps of the segment `path[lo..hi]` to `out`.
fn push_segment(path: &str, c: &Vec<char>, lo: usize, hi: usize, out: &mut Vec<Step>)
    requires
        c@ == path@,
        lo <= hi <= c@.len(),
    ensures
        steps_view(final(out)@) == steps_view(old(out)@) + segment_steps(c@.subrange(lo as int, hi as int)),
{
    let ghost seg = c@.subrange(lo as int, hi as int);
    let ghost start = steps_view(out@);
    match find_bracket(c, lo, hi) {
        None => {
            let name = path.substring_char(lo, hi).to_string();
            out.push(Step::Field(name));
            assert(steps_view(out@) =~= start + seq![PathStep::Field(seg)]);
        },
        Some(p) => {
            let tail = slice_chars(c, p, hi);
            let ns = read_indices(&tail, 0);
            proof {
                assert(tail@.subrange(0, tail@.len() as int) =~= seg.subrange(p - lo, seg.len() as int));
            }
            let ghost ns_nat = ns@.map_values(|n: usize| n as nat);
            if ns.len() == 0 {
                out.push(Step::Malformed);
                assert(steps_view(out@) =~= start + seq![PathStep::Malformed]);
            } else {
                let ghost head: Seq<PathStep> = if p == lo {
                    Seq::empty()
                } else {
                    seq![PathStep::Field(seg.subrange(0, p - lo))]
                };
                if p > lo {
                    let name = path.substring_char(lo, p).to_string();
                    assert(name@ =~= seg.subrange(0, p - lo));
                    out.push(Step::Field(name));
                }
                assert(steps_view(out@) =~= start + head);
                let mut k: usize = 0;
                while k < ns.len()
                    invariant
                        0 <= k <= ns@.len(),
                        ns_nat == ns@.map_values(|n: usize| n as nat),
                        steps_view(out@) =~= start + head + ns_nat.subrange(0, k as int).map_values(|n: nat| PathStep::Index(n)),
                    decreases ns.len() - k,
                {
                    let ghost before = out@;
                    out.push(Step::Index(ns[k]));
                    assert(steps_view(out@) =~= steps_view(before).push(PathStep::Index(ns[k as int] as nat)));
                    assert(ns_nat.subrange(0, k + 1).map_values(|n: nat| PathStep::Index(n)) =~= ns_nat.subrange(0, k as int).map_values(|n: nat| PathStep::Index(n)).push(PathStep::Index(ns[k as int] as nat)));
                    k = k + 1;
                }
                assert(ns_nat.subrange(0, ns@.len() as int) =~= ns_nat);
            }
        },
    }
}

/// The navigation steps that `path` denotes. Decoding never fails; a
/// segment with brackets but no readable index becomes a malformed step.
pub fn decode_path(path: &str) -> (r: Vec<Step>)
    ensures
        steps_view(r@) == decode(path@),
{
    let c = chars_of(path);
    let n = c.len();
    let mut out: Vec<Step> = Vec::new();
    let mut st: usize = 0;
    let mut i: usize = 0;
    proof {
        assert(c@.subrange(0, 0) =~= Seq::<char>::empty());
    }
    while i < n
        invariant
            c@ == path@,
            n == c@.len(),
            st <= i <= n,
            split_dots(c@.subrange(0, i as int)).len() >= 1,
            steps_view(out@) == flat_steps(split_dots(c@.subrange(0, i as int)).drop_last()),
            split_dots(c@.subrange(0, i as int)).last() == c@.subrange(st as int, i as int),
        decreases n - i,
    {
        let ghost pre = c@.subrange(0, i as int);
        let ghost parts = split_dots(pre);
        assert(c@.subrange(0, i + 1).drop_last() =~= pre);
        if c[i] == '.' {
            push_segment(path, &c, st, i, &mut out);
            proof {
                assert(split_dots(c@.subrange(0, i + 1)) == parts.push(Seq::empty()));
                assert(parts.push(Seq::<char>::empty()).drop_last() =~= parts);
                assert(c@.subrange(i + 1, i + 1) =~= Seq::<char>::empty());
            }
            st = i + 1;
        } else {
            proof {
                let next = parts.update(parts.len() - 1, parts.last().push(c@[i as int]));
                assert(split_dots(c@.subrange(0, i + 1)) == next);
                assert(next.drop_last() =~= parts.drop_last());
                assert(next.last() =~= c@.subrange(st as int, i + 1));
            }
        }
        i = i + 1;
    }
    push_segment(path, &c, st, n, &mut out);
    proof {
        assert(c@.subrange(0, n as int) =~= c@);
    }
    out
}

/// A step sequence that the codec writes and reads back unchanged: not
/// empty, field names non-empty and free of `.` and `[`, indices that fit in
/// `usize`, and no malformed step.
pub open spec fn round_trips(steps: Seq<PathStep>) -> bool {
    &&& steps.len() > 0
    &&& forall|i: int|
        0 <= i < steps.len() ==> match #[trigger] steps[i] {
            PathStep::Field(k) => k.len() > 0 && !k.contains('.') && !k.contains('['),
            PathStep::Index(n) => n <= usize::MAX,
            PathStep::Malformed => false,
        }
}

/// The text `[n]`.
pub open spec fn group(n: nat) -> Seq<char> {
    seq!['['] + decimal(n) + seq![']']
}

/// The texts `[n]` of all indices, in order.
pub open spec fn groups(ns: Seq<nat>) -> Seq<char>
    decreases ns.len(),
{
    if ns.len() == 0 {
        Seq::empty()
    } else {
        group(ns[0]) + groups(ns.drop_first())
    }
}

/// The field name that opens the last dot-separated segment of `steps`.
pub open spec fn last_name(steps: Seq<PathStep>) -> Seq<char>
    decreases steps.len(),
{
    if steps.len() == 0 {
        Seq::empty()
    } else {
        match steps.last() {
            PathStep::Field(k) => k,
            _ => last_name(steps.drop_last()),
        }
    }
}

/// The indices that close the last dot-separated segment of `steps`.
pub open spec fn last_indices(steps: Seq<PathStep>) -> Seq<nat>
    decreases steps.len(),
{
    if steps.len() == 0 {
        Seq::empty()
    } else {
        match steps.last() {
            PathStep::Index(n) => last_indices(steps.drop_last()).push(n),
            _ => Seq::empty(),
        }
    }
}

pub open spec fn last_segment(steps: Seq<PathStep>) -> Seq<char> {
    last_name(steps) + groups(last_indices(steps))
}

/// The dot-separated segments of `encode(steps)` before the last one.
pub open spec fn segments_before(steps: Seq<PathStep>) -> Seq<Seq<char>>
    decreases steps.len(),
{
    if steps.len() == 0 {
        Seq::empty()
    } else {
        match steps.last() {
            PathStep::Field(_) => if steps.len() == 1 {
                Seq::empty()
            } else {
                segments_before(steps.drop_last()).push(last_segment(steps.drop_last()))
            },
            _ => segments_before(steps.drop_last()),
        }
    }
}

pub open spec fn name_steps(name: Seq<char>) -> Seq<PathStep> {
    if name.len() == 0 {
        Seq::empty()
    } else {
        seq![PathStep::Field(name)]
    }
}

pub open spec fn index_steps(ns: Seq<nat>) -> Seq<PathStep> {
    ns.map_values(|n: nat| PathStep::Index(n))
}

proof fn lemma_groups_push(ns: Seq<nat>, n: nat)
    ensures
        groups(ns.push(n)) == groups(ns) + group(n),
    decreases ns.len(),
{
    if ns.len() == 0 {
        assert(ns.push(n).drop_first() =~= Seq::<nat>::empty());
        assert(ns.push(n)[0] == n);
        assert(groups(Seq::<nat>::empty()) == Seq::<char>::empty());
        assert(groups(ns.push(n)) =~= group(n));
    } else {
        assert(ns.push(n).drop_first() =~= ns.drop_first().push(n));
        lemma_groups_push(ns.drop_first(), n);
        assert(groups(ns.push(n)) =~= groups(ns) + group(n));
    }
}

proof fn lemma_digit_char(d: nat)
    requires
        d < 10,
    ensures
        is_ascii_digit(digit_char(d)),
        digit_char(d) as nat - '0' as nat == d,
        digit_char(d) != '.' && digit_char(d) != '[',
{
    let t = seq!['0', '1', '2', '3', '4', '5', '6', '7', '8', '9'];
    assert(t[0] == '0' && t[1] == '1' && t[2] == '2' && t[3] == '3' && t[4] == '4');
    assert(t[5] == '5' && t[6] == '6' && t[7] == '7' && t[8] == '8' && t[9] == '9');
}

proof fn lemma_decimal(n: nat)
    ensures
        decimal(n).len() >= 1,
        forall|i: int| 0 <= i < decimal(n).len() ==> is_ascii_digit(#[trigger] decimal(n)[i]),
        digits_value(decimal(n)) == n,
    decreases n,
{
    if n < 10 {
        lemma_digit_char(n);
        assert(seq![digit_char(n)].drop_last() =~= Seq::<char>::empty());
        assert(digits_value(Seq::<char>::empty()) == 0);
        assert(seq![digit_char(n)].last() == digit_char(n));
    } else {
        lemma_decimal(n / 10);
        lemma_digit_char(n % 10);
        assert(decimal(n).drop_last() =~= decimal(n / 10));
        assert(decimal(n).last() == digit_char(n % 10));
        assert(digits_value(decimal(n)) == digits_value(decimal(n / 10)) * 10 + n % 10);
        assert((n / 10) * 10 + n % 10 == n) by (nonlinear_arith);
    }
}

proof fn lemma_no_dot_in_decimal(n: nat)
    ensures
        !decimal(n).contains('.'),
        !decimal(n).contains('['),
        !decimal(n).contains(']'),
{
    lemma_decimal(n);
    assert forall|i: int| 0 <= i < decimal(n).len() implies decimal(n)[i] != '.' && decimal(n)[i]
        != '[' && decimal(n)[i] != ']' by {
        assert(is_ascii_digit(decimal(n)[i]));
    }
}

proof fn lemma_group_indices(n: nat, rest: Seq<char>)
    requires
        n <= usize::MAX,
    ensures
        bracket_indices(group(n) + rest) == seq![n] + bracket_indices(rest),
{
    let r = group(n) + rest;
    let d = decimal(n);
    lemma_decimal(n);
    assert forall|k: int| 1 <= k < 1 + d.len() implies is_ascii_digit(r[k]) by {
        assert(r[k] == d[k - 1]);
    }
    assert(r[1 + d.len() as int] == ']');
    lemma_digit_run_all(r, 1, 1 + d.len() as int);
    assert(r.subrange(1, 1 + d.len() as int) =~= d);
    assert(r.subrange(2 + d.len() as int, r.len() as int) =~= rest);
}

proof fn lemma_groups_indices(ns: Seq<nat>)
    requires
        forall|i: int| 0 <= i < ns.len() ==> ns[i] <= usize::MAX,
    ensures
        bracket_indices(groups(ns)) == ns,
    decreases ns.len(),
{
    if ns.len() > 0 {
        lemma_groups_indices(ns.drop_first());
        lemma_group_indices(ns[0], groups(ns.drop_first()));
        assert(seq![ns[0]] + ns.drop_first() =~= ns);
    } else {
        assert(bracket_indices(Seq::empty()) == Seq::<nat>::empty());
    }
}

proof fn lemma_groups_chars(ns: Seq<nat>)
    ensures
        !groups(ns).contains('.'),
        ns.len() > 0 ==> groups(ns).len() > 0 && groups(ns)[0] == '[',
    decreases ns.len(),
{
    if ns.len() > 0 {
        lemma_groups_chars(ns.drop_first());
        lemma_no_dot_in_decimal(ns[0]);
        let g = group(ns[0]);
        let t = groups(ns.drop_first());
        assert forall|i: int| 0 <= i < (g + t).len() implies (g + t)[i] != '.' by {
            if i < g.len() {
                if 0 < i < g.len() - 1 {
                    assert(g[i] == decimal(ns[0])[i - 1]);
                }
            } else {
                assert((g + t)[i] == t[i - g.len()]);
            }
        }
    }
}

proof fn lemma_split_no_dot(a: Seq<char>, b: Seq<char>)
    requires
        !b.contains('.'),
    ensures
        split_dots(a + b) == split_dots(a).update(
            split_dots(a).len() - 1,
            split_dots(a).last() + b,
        ),
    decreases b.len(),
{
    lemma_split_nonempty(a);
    if b.len() == 0 {
        assert(a + b =~= a);
        assert(split_dots(a).last() + b =~= split_dots(a).last());
        assert(split_dots(a).update(split_dots(a).len() - 1, split_dots(a).last()) =~= split_dots(a));
    } else {
        let b0 = b.drop_last();
        assert(!b0.contains('.')) by {
            assert forall|i: int| 0 <= i < b0.len() implies b0[i] != '.' by {
                assert(b0[i] == b[i]);
            }
        }
        lemma_split_no_dot(a, b0);
        assert((a + b).drop_last() =~= a + b0);
        assert((a + b).last() == b.last());
        assert(b.last() != '.') by {
            assert(b[b.len() - 1] == b.last());
        }
        lemma_split_nonempty(a + b0);
        let s0 = split_dots(a);
        assert(split_dots(a + b) =~= s0.update(s0.len() - 1, s0.last() + b0).update(
            s0.len() - 1,
            (s0.last() + b0).push(b.last()),
        ));
        assert((s0.last() + b0).push(b.last()) =~= s0.last() + b);
        assert(split_dots(a + b) =~= s0.update(s0.len() - 1, s0.last() + b));
    }
}

proof fn lemma_split_dot(a: Seq<char>, b: Seq<char>)
    requires
        !b.contains('.'),
    ensures
        split_dots(a + seq!['.'] + b) == split_dots(a).push(b),
{
    let ad = a + seq!['.'];
    assert(ad.drop_last() =~= a);
    lemma_split_nonempty(a);
    assert(split_dots(ad) == split_dots(a).push(Seq::empty()));
    lemma_split_no_dot(ad, b);
    assert(Seq::<char>::empty() + b =~= b);
    assert(split_dots(a).push(Seq::empty()).update(split_dots(a).len() as int, b) =~= split_dots(
        a,
    ).push(b));
}

proof fn lemma_flat_push(parts: Seq<Seq<char>>, x: Seq<char>)
    ensures
        flat_steps(parts.push(x)) == flat_steps(parts) + segment_steps(x),
{
    assert(parts.push(x).drop_last() =~= parts);
}

proof fn lemma_segment(name: Seq<char>, ns: Seq<nat>)
    requires
        !name.contains('['),
        name.len() > 0 || ns.len() > 0,
        forall|i: int| 0 <= i < ns.len() ==> ns[i] <= usize::MAX,
    ensures
        segment_steps(name + groups(ns)) == name_steps(name) + index_steps(ns),
{
    let seg = name + groups(ns);
    lemma_groups_chars(ns);
    if ns.len() == 0 {
        assert(groups(ns) =~= Seq::<char>::empty());
        assert(seg =~= name);
        assert forall|i: int| 0 <= i <= name.len() implies first_bracket(name, i) is None by {
            lemma_first_bracket_none(name, i);
        }
        assert(index_steps(ns) =~= Seq::<PathStep>::empty());
        assert(name_steps(name) + index_steps(ns) =~= seq![PathStep::Field(name)]);
    } else {
        lemma_first_bracket_at(seg, name.len() as int, 0);
        assert(seg.subrange(name.len() as int, seg.len() as int) =~= groups(ns));
        lemma_groups_indices(ns);
        assert(seg.subrange(0, name.len() as int) =~= name);
        assert(index_steps(ns) =~= ns.map_values(|n: nat| PathStep::Index(n)));
    }
}

proof fn lemma_first_bracket_none(s: Seq<char>, i: int)
    requires
        !s.contains('['),
        0 <= i <= s.len(),
    ensures
        first_bracket(s, i) is None,
    decreases s.len() - i,
{
    if i < s.len() {
        assert(s[i] != '[');
        lemma_first_bracket_none(s, i + 1);
    }
}

proof fn lemma_first_bracket_at(s: Seq<char>, p: int, i: int)
    requires
        0 <= i <= p < s.len(),
        s[p] == '[',
        forall|q: int| i <= q < p ==> s[q] != '[',
    ensures
        first_bracket(s, i) == Some(p),
    decreases p - i,
{
    if i < p {
        lemma_first_bracket_at(s, p, i + 1);
    }
}

proof fn lemma_segments(steps: Seq<PathStep>)
    requires
        forall|i: int|
            0 <= i < steps.len() ==> match #[trigger] steps[i] {
                PathStep::Field(k) => k.len() > 0 && !k.contains('.') && !k.contains('['),
                PathStep::Index(n) => n <= usize::MAX,
                PathStep::Malformed => false,
            },
    ensures
        split_dots(encode(steps)) == segments_before(steps).push(last_segment(steps)),
        steps.len() > 0 ==> flat_steps(segments_before(steps)) + segment_steps(last_segment(steps))
            == steps,
        !last_name(steps).contains('['),
        forall|i: int| 0 <= i < last_indices(steps).len() ==> last_indices(steps)[i] <= usize::MAX,
    decreases steps.len(),
{
    if steps.len() == 0 {
        assert(groups(Seq::<nat>::empty()) =~= Seq::<char>::empty());
        assert(last_segment(steps) =~= Seq::<char>::empty());
        assert(split_dots(Seq::<char>::empty()) =~= seq![Seq::<char>::empty()]);
        assert(segments_before(steps).push(last_segment(steps)) =~= seq![Seq::<char>::empty()]);
    } else {
        let init = steps.drop_last();
        assert forall|i: int| 0 <= i < init.len() implies match #[trigger] init[i] {
            PathStep::Field(k) => k.len() > 0 && !k.contains('.') && !k.contains('['),
            PathStep::Index(n) => n <= usize::MAX,
            PathStep::Malformed => false,
        } by {
            assert(init[i] == steps[i]);
        }
        lemma_segments(init);
        let last = steps.last();
        assert(last == steps[steps.len() - 1]);
        let prev = encode(init);
        lemma_split_nonempty(prev);
        match last {
            PathStep::Field(k) => {
                assert(last_indices(steps) =~= Seq::<nat>::empty());
                assert(groups(Seq::<nat>::empty()) =~= Seq::<char>::empty());
                assert(last_segment(steps) =~= k);
                if steps.len() == 1 {
                    assert(encode(steps) == k);
                    lemma_split_no_dot(Seq::empty(), k);
                    assert(Seq::<char>::empty() + k =~= k);
                    assert(split_dots(Seq::<char>::empty()) =~= seq![Seq::<char>::empty()]);
                    assert(seq![Seq::<char>::empty()].update(0, Seq::<char>::empty() + k) =~= seq![k]);
                    assert(segments_before(steps).push(last_segment(steps)) =~= seq![k]);
                    lemma_segment(k, Seq::empty());
                    assert(name_steps(k) + index_steps(Seq::<nat>::empty()) =~= steps);
                    assert(flat_steps(Seq::<Seq<char>>::empty()) == Seq::<PathStep>::empty());
                    assert(Seq::<PathStep>::empty() + steps =~= steps);
                } else {
                    assert(encode(steps) == prev + seq!['.'] + k);
                    lemma_split_dot(prev, k);
                    lemma_flat_push(segments_before(init), last_segment(init));
                    assert(init.len() > 0);
                    lemma_segment(k, Seq::empty());
                    assert(name_steps(k) + index_steps(Seq::<nat>::empty()) =~= seq![last]);
                    assert(init.push(last) =~= steps);
                }
            },
            PathStep::Index(n) => {
                assert(encode(steps) == prev + group(n)) by {
                    assert(prev + seq!['['] + decimal(n) + seq![']'] =~= prev + group(n));
                }
                lemma_groups_chars(seq![n]);
                assert(groups(seq![n]) =~= group(n)) by {
                    assert(seq![n].drop_first() =~= Seq::<nat>::empty());
                    assert(seq![n][0] == n);
                    assert(groups(Seq::<nat>::empty()) == Seq::<char>::empty());
                }
                lemma_split_no_dot(prev, group(n));
                lemma_groups_push(last_indices(init), n);
                assert(last_segment(steps) =~= last_segment(init) + group(n));
                assert(split_dots(encode(steps)) =~= segments_before(steps).push(last_segment(steps)));
                assert forall|i: int| 0 <= i < last_indices(steps).len() implies last_indices(steps)[i] <= usize::MAX by {
                    if i < last_indices(init).len() {
                        assert(last_indices(steps)[i] == last_indices(init)[i]);
                    }
                }
                lemma_segment(last_name(steps), last_indices(steps));
                if init.len() > 0 {
                    lemma_segment(last_name(init), last_indices(init));
                } else {
                    assert(last_name(init) =~= Seq::<char>::empty());
                    assert(last_indices(init) =~= Seq::<nat>::empty());
                    assert(segments_before(init) =~= Seq::<Seq<char>>::empty());
                }
                assert(last_name(steps) == last_name(init));
                assert(index_steps(last_indices(steps)) =~= index_steps(last_indices(init)).push(last));
                if init.len() > 0 {
                    assert(flat_steps(segments_before(init)) + name_steps(last_name(init)) + index_steps(last_indices(init)) =~= init);
                } else {
                    assert(name_steps(last_name(init)) =~= Seq::<PathStep>::empty());
                }
                assert(flat_steps(segments_before(steps)) + segment_steps(last_segment(steps)) =~= init.push(last));
                assert(init.push(last) =~= steps);
            },
            PathStep::Malformed => {},
        }
    }
}

/// Decoding the encoding of a step sequence gives the sequence back, for
/// every sequence whose field names hold no `.` or `[`.
pub proof fn lemma_round_trip(steps: Seq<PathStep>)
    requires
        round_trips(steps),
    ensures
        decode(encode(steps)) == steps,
{
    lemma_segments(steps);
    lemma_flat_push(segments_before(steps), last_segment(steps));
}

} // verus!
