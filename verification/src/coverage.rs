//! The printed tree accounts for every entry: with no depth limit and no
//! collapsing, each entry of the report is printed on exactly one line, and a
//! summary line counts the lines that it stands for.

use vstd::prelude::*;
use crate::text::{spaces, decimal, trim_end, trim_start};
use crate::human::human;
use crate::parser::{SizeUnit, scan, lines, pieces, strip_cr, parse_report, path_field, law_parsed_report_is_a_tree, last_slash, lemma_last_slash, EntryView, distinct_paths, has_path, parent_of, lemma_parent_shorter};
use crate::printer::{PrintOptions, render_json_below, hidden_json, other_line, size_sum, limited, render, render_below, render_kids, roots_text, tree_text, entry_line, pad10, base_name, shown_only, hidden_count, lemma_kids_deeper, max_path_len, below, count_below, desc_count, count_under, child_lines, counts_fit, kids, roots, is_child, is_root, select_sorted, insert_sorted, lemma_select_members, lemma_insert_members, sib_before, SortMode};

verus! {

/// How many of `0..m` satisfy `p`.
pub open spec fn count_of(m: nat, p: spec_fn(int) -> bool) -> nat
    decreases m,
{
    if m == 0 {
        0
    } else {
        count_of((m - 1) as nat, p) + if p(m - 1) {
            1nat
        } else {
            0nat
        }
    }
}

/// `f` summed over the first `k` elements of `l`.
pub open spec fn sum_over(l: Seq<int>, f: spec_fn(int) -> nat, k: nat) -> nat
    decreases k,
{
    if k == 0 || k > l.len() {
        0
    } else {
        sum_over(l, f, (k - 1) as nat) + f(l[k - 1])
    }
}

/// A longer prefix sums to at least as much.
pub proof fn lemma_sum_grows(l: Seq<int>, f: spec_fn(int) -> nat, k1: nat, k2: nat)
    requires
        k1 <= k2 <= l.len(),
    ensures
        sum_over(l, f, k1) <= sum_over(l, f, k2),
    decreases k2,
{
    if k1 < k2 {
        lemma_sum_grows(l, f, k1, (k2 - 1) as nat);
    }
}

/// At most `m` of the first `m` entries lie below anything.
pub proof fn lemma_count_below_at_most(es: Seq<EntryView>, t: Seq<char>, m: nat)
    ensures
        count_below(es, t, m) <= m,
    decreases m,
{
    if m > 0 {
        lemma_count_below_at_most(es, t, (m - 1) as nat);
    }
}

/// Sums of sums.
proof fn lemma_sum_add(l: Seq<int>, f: spec_fn(int) -> nat, g: spec_fn(int) -> nat, k: nat)
    requires
        k <= l.len(),
    ensures
        sum_over(l, |c: int| f(c) + g(c), k) == sum_over(l, f, k) + sum_over(l, g, k),
    decreases k,
{
    if k > 0 {
        lemma_sum_add(l, f, g, (k - 1) as nat);
    }
}

/// A sum of 0/1 values at most one of which is 1.
proof fn lemma_sum_indicators(l: Seq<int>, q: spec_fn(int) -> bool, k: nat)
    requires
        k <= l.len(),
        forall|a: int, b: int| 0 <= a < k && 0 <= b < k && q(l[a]) && q(l[b]) ==> a == b,
    ensures
        sum_over(l, |c: int| if q(c) { 1nat } else { 0nat }, k) == if exists|a: int|
            0 <= a < k && q(#[trigger] l[a]) {
            1nat
        } else {
            0nat
        },
    decreases k,
{
    if k > 0 {
        lemma_sum_indicators(l, q, (k - 1) as nat);
        if exists|a: int| 0 <= a < k - 1 && q(#[trigger] l[a]) {
            let a = choose|a: int| 0 <= a < k - 1 && q(#[trigger] l[a]);
            assert(q(l[a]));
        }
        if q(l[k - 1]) {
            assert(q(l[k - 1]));
        }
    }
}

/// Counting a union of disjoint parts, one part per element of `l`.
pub proof fn lemma_count_partition(
    m: nat,
    p: spec_fn(int) -> bool,
    l: Seq<int>,
    part: spec_fn(int, int) -> bool,
)
    requires
        forall|j: int| 0 <= j < m ==> (#[trigger] p(j) <==> exists|a: int| 0 <= a < l.len() && #[trigger] part(l[a], j)),
        forall|j: int, a: int, b: int|
            0 <= j < m && 0 <= a < l.len() && 0 <= b < l.len() && #[trigger] part(l[a], j)
                && #[trigger] part(l[b], j) ==> a == b,
    ensures
        count_of(m, p) == sum_over(l, |c: int| count_of(m, |j: int| part(c, j)), l.len()),
    decreases m,
{
    let f = |c: int| count_of(m, |j: int| part(c, j));
    if m == 0 {
        lemma_sum_zero(l, f, l.len());
    } else {
        let m0 = (m - 1) as nat;
        lemma_count_partition(m0, p, l, part);
        let g = |c: int| count_of(m0, |j: int| part(c, j));
        let q = |c: int| part(c, m0 as int);
        let h = |c: int| if q(c) { 1nat } else { 0nat };
        let gh = |c: int| g(c) + h(c);
        assert forall|c: int| #[trigger] f(c) == gh(c) by {
            assert(count_of(m, |j: int| part(c, j)) == count_of(m0, |j: int| part(c, j)) + (if part(
                c,
                m0 as int,
            ) {
                1nat
            } else {
                0nat
            }));
        }
        lemma_sum_add(l, g, h, l.len());
        lemma_sum_ext(l, f, gh, l.len());
        assert forall|a: int, b: int| 0 <= a < l.len() && 0 <= b < l.len() && q(l[a]) && q(
            l[b],
        ) implies a == b by {
            assert(part(l[a], m0 as int) && part(l[b], m0 as int));
        }
        lemma_sum_indicators(l, q, l.len());
        assert(p(m0 as int) <==> exists|a: int| 0 <= a < l.len() && q(#[trigger] l[a])) by {
            if p(m0 as int) {
                let a = choose|a: int| 0 <= a < l.len() && #[trigger] part(l[a], m0 as int);
                assert(q(l[a]));
            }
            if exists|a: int| 0 <= a < l.len() && q(#[trigger] l[a]) {
                let a = choose|a: int| 0 <= a < l.len() && q(#[trigger] l[a]);
                assert(part(l[a], m0 as int));
            }
        }
        assert(count_of(m, p) == count_of(m0, p) + (if p(m0 as int) {
            1nat
        } else {
            0nat
        }));
    }
}

/// A sum of zeros.
proof fn lemma_sum_zero(l: Seq<int>, f: spec_fn(int) -> nat, k: nat)
    requires
        forall|c: int| #[trigger] f(c) == 0,
    ensures
        sum_over(l, f, k) == 0,
    decreases k,
{
    if k > 0 {
        lemma_sum_zero(l, f, (k - 1) as nat);
    }
}

/// Sums of equal functions are equal.
proof fn lemma_sum_ext(l: Seq<int>, f: spec_fn(int) -> nat, g: spec_fn(int) -> nat, k: nat)
    requires
        forall|c: int| #[trigger] f(c) == g(c),
    ensures
        sum_over(l, f, k) == sum_over(l, g, k),
    decreases k,
{
    if k > 0 {
        lemma_sum_ext(l, f, g, (k - 1) as nat);
    }
}

} // verus!

verus! {

/// What lies below a directory has a longer path than it.
pub proof fn lemma_below_shorter(es: Seq<EntryView>, p: Seq<char>, t: Seq<char>)
    ensures
        below(es, p, t) ==> t.len() < p.len(),
    decreases p.len(),
{
    lemma_parent_shorter(p);
    if let Some(q) = parent_of(p) {
        if q != t && has_path(es, q) {
            lemma_below_shorter(es, q, t);
        }
    }
}

/// The directories above a path form a chain: of two of them, one is above
/// the other, or they are the same.
pub proof fn lemma_below_linear(es: Seq<EntryView>, p: Seq<char>, t1: Seq<char>, t2: Seq<char>)
    requires
        below(es, p, t1),
        below(es, p, t2),
    ensures
        t1 == t2 || below(es, t1, t2) || below(es, t2, t1),
    decreases p.len(),
{
    lemma_parent_shorter(p);
    let q = parent_of(p)->0;
    if q != t1 && q != t2 {
        lemma_below_linear(es, q, t1, t2);
    }
}

/// Below a child is below its parent.
pub proof fn lemma_below_through_child(es: Seq<EntryView>, p: Seq<char>, c: Seq<char>, t: Seq<char>)
    requires
        below(es, p, c),
        has_path(es, c),
        parent_of(c) == Some(t),
    ensures
        below(es, p, t),
    decreases p.len(),
{
    lemma_parent_shorter(p);
    let q = parent_of(p)->0;
    if q != c {
        lemma_below_through_child(es, q, c, t);
    } else {
        assert(below(es, c, t));
    }
}

/// Nothing in the report lies above a root.
pub proof fn lemma_root_below_nothing(es: Seq<EntryView>, r: int, t: Seq<char>)
    requires
        0 <= r < es.len(),
        is_root(es, r),
        has_path(es, t),
    ensures
        !below(es, es[r].path, t),
{
}

/// Whether no element occurs twice in `s`.
pub open spec fn no_repeats(s: Seq<int>) -> bool {
    forall|a: int, b: int| 0 <= a < s.len() && 0 <= b < s.len() && a != b ==> s[a] != s[b]
}

/// Placing `x` puts it at some position.
proof fn lemma_insert_shape(es: Seq<EntryView>, mode: SortMode, s: Seq<int>, x: int)
    ensures
        exists|p: int| 0 <= p <= s.len() && insert_sorted(es, mode, s, x) == #[trigger] s.insert(p, x),
    decreases s.len(),
{
    if s.len() == 0 {
        assert(insert_sorted(es, mode, s, x) == s.insert(0, x));
    } else if sib_before(es, mode, x, s[0]) {
        assert(insert_sorted(es, mode, s, x) =~= s.insert(0, x));
    } else {
        let t = s.drop_first();
        lemma_insert_shape(es, mode, t, x);
        let p = choose|p: int| 0 <= p <= t.len() && insert_sorted(es, mode, t, x) == #[trigger] t.insert(p, x);
        assert(insert_sorted(es, mode, s, x) =~= s.insert(p + 1, x));
    }
}

/// A selection holds each picked entry exactly once.
pub proof fn lemma_select_complete(
    es: Seq<EntryView>,
    mode: SortMode,
    sel: spec_fn(int) -> bool,
    j: nat,
)
    ensures
        no_repeats(select_sorted(es, mode, sel, j)),
        forall|k: int| 0 <= k < j && sel(k) ==> select_sorted(es, mode, sel, j).contains(k),
    decreases j,
{
    if j > 0 {
        let prev = select_sorted(es, mode, sel, (j - 1) as nat);
        lemma_select_complete(es, mode, sel, (j - 1) as nat);
        lemma_select_members(es, mode, sel, (j - 1) as nat);
        if sel(j - 1) {
            lemma_insert_shape(es, mode, prev, j - 1);
            let p = choose|p: int|
                0 <= p <= prev.len() && insert_sorted(es, mode, prev, j - 1) == #[trigger] prev.insert(
                    p,
                    j - 1,
                );
            let r = prev.insert(p, j - 1);
            assert forall|a: int, b: int|
                0 <= a < r.len() && 0 <= b < r.len() && a != b implies r[a] != r[b] by {
                let ia = if a < p { a } else { a - 1 };
                let ib = if b < p { b } else { b - 1 };
                if a != p && b != p {
                    assert(r[a] == prev[ia] && r[b] == prev[ib]);
                } else if a == p {
                    assert(r[b] == prev[ib]);
                } else {
                    assert(r[a] == prev[ia]);
                }
            }
            assert forall|k: int| 0 <= k < j && sel(k) implies r.contains(k) by {
                if k == j - 1 {
                    assert(r[p] == k);
                } else {
                    assert(prev.contains(k));
                    let w = choose|w: int| 0 <= w < prev.len() && prev[w] == k;
                    if w < p {
                        assert(r[w] == k);
                    } else {
                        assert(r[w + 1] == k);
                    }
                }
            }
        }
    }
}

} // verus!

verus! {

/// `count_below` counts what lies below `t`.
proof fn lemma_count_below_is_count(es: Seq<EntryView>, t: Seq<char>, m: nat)
    ensures
        count_below(es, t, m) == count_of(m, |j: int| below(es, es[j].path, t)),
    decreases m,
{
    if m > 0 {
        lemma_count_below_is_count(es, t, (m - 1) as nat);
    }
}

/// Counting `c` itself along with what satisfies `b`.
proof fn lemma_count_with_self(m: nat, c: int, b: spec_fn(int) -> bool)
    requires
        0 <= c < m,
        !b(c),
    ensures
        count_of(m, |j: int| j == c || b(j)) == 1 + count_of(m, b),
    decreases m,
{
    let m0 = (m - 1) as nat;
    if c < m0 {
        lemma_count_with_self(m0, c, b);
    } else {
        lemma_count_ext(m0, |j: int| j == c || b(j), b);
    }
}

/// Counts of equal predicates are equal.
proof fn lemma_count_ext(m: nat, p: spec_fn(int) -> bool, q: spec_fn(int) -> bool)
    requires
        forall|j: int| 0 <= j < m ==> #[trigger] p(j) == q(j),
    ensures
        count_of(m, p) == count_of(m, q),
    decreases m,
{
    if m > 0 {
        lemma_count_ext((m - 1) as nat, p, q);
    }
}

/// Counting everything.
proof fn lemma_count_all(m: nat)
    ensures
        count_of(m, |j: int| true) == m,
    decreases m,
{
    if m > 0 {
        lemma_count_all((m - 1) as nat);
    }
}

/// The entry at `j`, or what lies below entry `c`.
pub open spec fn in_subtree(es: Seq<EntryView>, c: int, j: int) -> bool {
    j == c || below(es, es[j].path, es[c].path)
}

/// What lies below `i` lies in the subtree of one of `i`'s children.
proof fn lemma_below_some_child(es: Seq<EntryView>, p: Seq<char>, i: int) -> (c: int)
    requires
        0 <= i < es.len(),
        has_path(es, p),
        below(es, p, es[i].path),
    ensures
        0 <= c < es.len(),
        is_child(es, c, i),
        p == es[c].path || below(es, p, es[c].path),
    decreases p.len(),
{
    lemma_parent_shorter(p);
    let q = parent_of(p)->0;
    if q == es[i].path {
        let k = choose|k: int| 0 <= k < es.len() && #[trigger] es[k].path == p;
        k
    } else {
        let c = lemma_below_some_child(es, q, i);
        c
    }
}

/// An entry lies above its children.
proof fn lemma_child_below(es: Seq<EntryView>, c: int, i: int)
    requires
        0 <= c < es.len(),
        0 <= i < es.len(),
        is_child(es, c, i),
    ensures
        below(es, es[c].path, es[i].path),
{
}

/// Nothing is in the subtrees of two children of one entry.
proof fn lemma_subtrees_apart(es: Seq<EntryView>, c1: int, c2: int, i: int, j: int)
    requires
        distinct_paths(es),
        0 <= c1 < es.len(),
        0 <= c2 < es.len(),
        0 <= i < es.len(),
        0 <= j < es.len(),
        is_child(es, c1, i),
        is_child(es, c2, i),
        in_subtree(es, c1, j),
        in_subtree(es, c2, j),
    ensures
        c1 == c2,
{
    let pi = es[i].path;
    lemma_parent_shorter(es[c1].path);
    lemma_parent_shorter(es[c2].path);
    lemma_below_shorter(es, pi, es[c1].path);
    lemma_below_shorter(es, pi, es[c2].path);
    if c1 != c2 {
        assert(es[c1].path != es[c2].path);
        if j == c1 {
            assert(!below(es, es[c1].path, es[c2].path));
        } else if j == c2 {
            assert(!below(es, es[c2].path, es[c1].path));
        } else {
            lemma_below_linear(es, es[j].path, es[c1].path, es[c2].path);
            assert(!below(es, es[c1].path, es[c2].path));
            assert(!below(es, es[c2].path, es[c1].path));
        }
    }
}

/// What lies below an entry is its children and what lies below them, each
/// once.
pub proof fn lemma_kids_partition(es: Seq<EntryView>, mode: SortMode, i: int)
    requires
        distinct_paths(es),
        0 <= i < es.len(),
    ensures
        count_under(es, i) == sum_over(
            kids(es, mode, i),
            |c: int| 1 + count_under(es, c),
            kids(es, mode, i).len(),
        ),
{
    let n = es.len();
    let ks = kids(es, mode, i);
    let sel = |j: int| is_child(es, j, i);
    lemma_select_complete(es, mode, sel, n);
    lemma_select_members(es, mode, sel, n);
    let p = |j: int| below(es, es[j].path, es[i].path);
    let part = |c: int, j: int| in_subtree(es, c, j);
    assert forall|j: int| 0 <= j < n implies (#[trigger] p(j) <==> exists|a: int|
        0 <= a < ks.len() && #[trigger] part(ks[a], j)) by {
        if p(j) {
            let c = lemma_below_some_child(es, es[j].path, i);
            assert(sel(c));
            assert(ks.contains(c));
            let a = choose|a: int| 0 <= a < ks.len() && ks[a] == c;
            if es[j].path == es[c].path {
                assert(j == c);
            }
            assert(part(ks[a], j));
        }
        if exists|a: int| 0 <= a < ks.len() && #[trigger] part(ks[a], j) {
            let a = choose|a: int| 0 <= a < ks.len() && #[trigger] part(ks[a], j);
            let c = ks[a];
            assert(is_child(es, c, i));
            if j == c {
                lemma_child_below(es, c, i);
            } else {
                lemma_below_through_child(es, es[j].path, es[c].path, es[i].path);
            }
        }
    }
    assert forall|j: int, a: int, b: int|
        0 <= j < n && 0 <= a < ks.len() && 0 <= b < ks.len() && #[trigger] part(ks[a], j)
            && #[trigger] part(ks[b], j) implies a == b by {
        lemma_subtrees_apart(es, ks[a], ks[b], i, j);
    }
    lemma_count_partition(n, p, ks, part);
    lemma_count_below_is_count(es, es[i].path, n);
    let f = |c: int| count_of(n, |j: int| part(c, j));
    let g = |c: int| 1 + count_under(es, c);
    assert forall|a: int| 0 <= a < ks.len() implies f(#[trigger] ks[a]) == g(ks[a]) by {
        let c = ks[a];
        assert(0 <= c < n);
        let b = |j: int| below(es, es[j].path, es[c].path);
        lemma_below_shorter(es, es[c].path, es[c].path);
        assert(!b(c));
        lemma_count_with_self(n, c, b);
        lemma_count_ext(n, |j: int| part(c, j), |j: int| j == c || b(j));
        lemma_count_below_is_count(es, es[c].path, n);
        assert(f(c) == count_of(n, |j: int| part(c, j)));
        assert(count_of(n, b) == count_below(es, es[c].path, n));
    }
    lemma_sum_ext_on(ks, f, g, ks.len());
}

/// Sums of functions equal on the summed elements are equal.
proof fn lemma_sum_ext_on(l: Seq<int>, f: spec_fn(int) -> nat, g: spec_fn(int) -> nat, k: nat)
    requires
        k <= l.len(),
        forall|a: int| 0 <= a < l.len() ==> f(#[trigger] l[a]) == g(l[a]),
    ensures
        sum_over(l, f, k) == sum_over(l, g, k),
    decreases k,
{
    if k > 0 {
        lemma_sum_ext_on(l, f, g, (k - 1) as nat);
        assert(f(l[k - 1]) == g(l[k - 1]));
    }
}

/// A sum over `a` followed by `t` is `a`'s term plus the sum over `t`.
proof fn lemma_sum_cons(a: int, t: Seq<int>, g: spec_fn(int) -> nat, k: nat)
    requires
        k <= t.len(),
    ensures
        sum_over(seq![a] + t, g, k + 1) == g(a) + sum_over(t, g, k),
    decreases k,
{
    let l = seq![a] + t;
    assert(l.len() == t.len() + 1);
    if k > 0 {
        lemma_sum_cons(a, t, g, (k - 1) as nat);
        assert(l[k as int] == t[k - 1]);
        assert(sum_over(l, g, k + 1) == sum_over(l, g, k) + g(l[k as int]));
        assert(sum_over(t, g, k) == sum_over(t, g, (k - 1) as nat) + g(t[k - 1]));
    } else {
        assert(l[0] == a);
        assert(sum_over(l, g, 1) == sum_over(l, g, 0) + g(l[0]));
    }
}

/// Placing `x` into a list adds `x`'s term to the list's sum.
proof fn lemma_sum_insert(es: Seq<EntryView>, mode: SortMode, s: Seq<int>, x: int, g: spec_fn(int) -> nat)
    ensures
        sum_over(insert_sorted(es, mode, s, x), g, s.len() + 1) == sum_over(s, g, s.len()) + g(x),
    decreases s.len(),
{
    if s.len() == 0 {
        lemma_sum_cons(x, s, g, 0);
        assert(seq![x] + s =~= seq![x]);
    } else if sib_before(es, mode, x, s[0]) {
        lemma_sum_cons(x, s, g, s.len());
    } else {
        let t = s.drop_first();
        let r = insert_sorted(es, mode, t, x);
        lemma_sum_insert(es, mode, t, x, g);
        lemma_insert_members(es, mode, t, x);
        lemma_sum_cons(s[0], r, g, t.len() + 1);
        lemma_sum_cons(s[0], t, g, t.len());
        assert(seq![s[0]] + t =~= s);
    }
}

/// The children of `i` among the first `j` entries, in sibling order, sum to
/// the lines they and what lies below them take.
proof fn lemma_select_child_lines(es: Seq<EntryView>, mode: SortMode, i: int, j: nat)
    requires
        j <= es.len(),
    ensures
        ({
            let s = select_sorted(es, mode, |c: int| is_child(es, c, i), j);
            sum_over(s, |c: int| 1 + desc_count(es, c), s.len()) == child_lines(es, i, j)
        }),
    decreases j,
{
    let g = |c: int| 1 + desc_count(es, c);
    let sel = |c: int| is_child(es, c, i);
    if j > 0 {
        let prev = select_sorted(es, mode, sel, (j - 1) as nat);
        lemma_select_child_lines(es, mode, i, (j - 1) as nat);
        assert(child_lines(es, i, j) == child_lines(es, i, (j - 1) as nat) + if is_child(
            es,
            j - 1,
            i,
        ) {
            1 + desc_count(es, j - 1)
        } else {
            0nat
        });
        if sel(j - 1) {
            lemma_sum_insert(es, mode, prev, j - 1, g);
            lemma_insert_members(es, mode, prev, j - 1);
            let cur = select_sorted(es, mode, sel, j);
            assert(cur == insert_sorted(es, mode, prev, j - 1));
            assert(sum_over(cur, g, cur.len()) == sum_over(prev, g, prev.len()) + g(j - 1));
            assert(g(j - 1) == 1 + desc_count(es, j - 1));
            assert(sum_over(cur, g, cur.len()) == child_lines(es, i, j));
        } else {
            assert(select_sorted(es, mode, sel, j) == prev);
        }
    } else {
        assert(select_sorted(es, mode, sel, 0) =~= Seq::<int>::empty());
    }
}

/// What lies below entry `i` takes as many lines as its children, in sibling
/// order, and what lies below each of them.
pub proof fn lemma_desc_count_kids(es: Seq<EntryView>, mode: SortMode, i: int)
    ensures
        desc_count(es, i) == sum_over(
            kids(es, mode, i),
            |c: int| 1 + desc_count(es, c),
            kids(es, mode, i).len(),
        ),
{
    lemma_select_child_lines(es, mode, i, es.len());
}

/// In a report without repeated paths, the lines below an entry are the
/// entries below it, one each.
pub proof fn lemma_desc_count_entries(es: Seq<EntryView>, i: int)
    requires
        distinct_paths(es),
        0 <= i < es.len(),
    ensures
        desc_count(es, i) == count_under(es, i),
        desc_count(es, i) <= es.len(),
    decreases max_path_len(es) - es[i].path.len(),
{
    let mode = SortMode::Size;
    let ks = kids(es, mode, i);
    lemma_desc_count_kids(es, mode, i);
    lemma_kids_partition(es, mode, i);
    lemma_kids_deeper(es, mode, i);
    let g = |c: int| 1 + desc_count(es, c);
    let h = |c: int| 1 + count_under(es, c);
    assert forall|a: int| 0 <= a < ks.len() implies g(#[trigger] ks[a]) == h(ks[a]) by {
        lemma_desc_count_entries(es, ks[a]);
    }
    lemma_sum_ext_on(ks, g, h, ks.len());
    lemma_count_below_at_most(es, es[i].path, es.len());
}

/// A report without repeated paths, of at most `usize::MAX` entries, meets
/// what the printers require of the counts they show.
pub proof fn lemma_tree_counts_fit(es: Seq<EntryView>)
    requires
        distinct_paths(es),
        es.len() <= usize::MAX,
    ensures
        counts_fit(es),
{
    assert forall|i: int| 0 <= i < es.len() implies #[trigger] desc_count(es, i) <= usize::MAX by {
        lemma_desc_count_entries(es, i);
    }
}

} // verus!

verus! {

/// Every entry is a root or lies below one.
proof fn lemma_under_some_root(es: Seq<EntryView>, p: Seq<char>) -> (r: int)
    requires
        has_path(es, p),
    ensures
        0 <= r < es.len(),
        is_root(es, r),
        p == es[r].path || below(es, p, es[r].path),
    decreases p.len(),
{
    let k = choose|k: int| 0 <= k < es.len() && #[trigger] es[k].path == p;
    if is_root(es, k) {
        k
    } else {
        lemma_parent_shorter(p);
        let q = parent_of(p)->0;
        let r = lemma_under_some_root(es, q);
        r
    }
}

/// The roots and what lies below them are every entry, each once.
pub proof fn lemma_roots_partition(es: Seq<EntryView>, mode: SortMode)
    requires
        distinct_paths(es),
    ensures
        es.len() == sum_over(
            roots(es, mode),
            |c: int| 1 + count_under(es, c),
            roots(es, mode).len(),
        ),
{
    let n = es.len();
    let rs = roots(es, mode);
    let sel = |j: int| is_root(es, j);
    lemma_select_complete(es, mode, sel, n);
    lemma_select_members(es, mode, sel, n);
    let p = |j: int| true;
    let part = |c: int, j: int| in_subtree(es, c, j);
    assert forall|j: int| 0 <= j < n implies (#[trigger] p(j) <==> exists|a: int|
        0 <= a < rs.len() && #[trigger] part(rs[a], j)) by {
        assert(has_path(es, es[j].path));
        let r = lemma_under_some_root(es, es[j].path);
        assert(sel(r));
        assert(rs.contains(r));
        let a = choose|a: int| 0 <= a < rs.len() && rs[a] == r;
        if es[j].path == es[r].path {
            assert(j == r);
        }
        assert(part(rs[a], j));
    }
    assert forall|j: int, a: int, b: int|
        0 <= j < n && 0 <= a < rs.len() && 0 <= b < rs.len() && #[trigger] part(rs[a], j)
            && #[trigger] part(rs[b], j) implies a == b by {
        let r1 = rs[a];
        let r2 = rs[b];
        if r1 != r2 {
            assert(has_path(es, es[r1].path));
            assert(has_path(es, es[r2].path));
            lemma_root_below_nothing(es, r1, es[r2].path);
            lemma_root_below_nothing(es, r2, es[r1].path);
            if j != r1 && j != r2 {
                lemma_below_linear(es, es[j].path, es[r1].path, es[r2].path);
                assert(es[r1].path != es[r2].path);
            }
        }
    }
    lemma_count_partition(n, p, rs, part);
    lemma_count_all(n);
    let f = |c: int| count_of(n, |j: int| part(c, j));
    let g = |c: int| 1 + count_under(es, c);
    assert forall|a: int| 0 <= a < rs.len() implies f(#[trigger] rs[a]) == g(rs[a]) by {
        let c = rs[a];
        assert(0 <= c < n);
        let b = |j: int| below(es, es[j].path, es[c].path);
        lemma_below_shorter(es, es[c].path, es[c].path);
        assert(!b(c));
        lemma_count_with_self(n, c, b);
        lemma_count_ext(n, |j: int| part(c, j), |j: int| j == c || b(j));
        lemma_count_below_is_count(es, es[c].path, n);
        assert(f(c) == count_of(n, |j: int| part(c, j)));
        assert(count_of(n, b) == count_below(es, es[c].path, n));
    }
    lemma_sum_ext_on(rs, f, g, rs.len());
}

} // verus!

verus! {

/// How many newline characters `s` holds.
pub open spec fn newlines(s: Seq<char>) -> nat
    decreases s.len(),
{
    if s.len() == 0 {
        0
    } else {
        newlines(s.drop_last()) + if s.last() == '\n' {
            1nat
        } else {
            0nat
        }
    }
}

/// Whether `s` holds no newline character.
pub open spec fn one_line(s: Seq<char>) -> bool {
    forall|k: int| 0 <= k < s.len() ==> #[trigger] s[k] != '\n'
}

/// Newlines add up over concatenation.
proof fn lemma_newlines_add(a: Seq<char>, b: Seq<char>)
    ensures
        newlines(a + b) == newlines(a) + newlines(b),
    decreases b.len(),
{
    if b.len() == 0 {
        assert(a + b =~= a);
    } else {
        assert((a + b).drop_last() =~= a + b.drop_last());
        lemma_newlines_add(a, b.drop_last());
    }
}

/// A line without newline characters holds none.
proof fn lemma_one_line_newlines(s: Seq<char>)
    requires
        one_line(s),
    ensures
        newlines(s) == 0,
    decreases s.len(),
{
    if s.len() > 0 {
        lemma_one_line_newlines(s.drop_last());
    }
}

/// A number is written with digits only.
proof fn lemma_decimal_one_line(n: nat)
    ensures
        one_line(decimal(n)),
    decreases n,
{
    if n >= 10 {
        lemma_decimal_one_line(n / 10);
        let s = decimal(n);
        assert forall|k: int| 0 <= k < s.len() implies #[trigger] s[k] != '\n' by {
            if k < s.len() - 1 {
                assert(s[k] == decimal(n / 10)[k]);
            }
        }
    }
}

/// A size written for people is one line.
proof fn lemma_human_one_line(n: nat)
    ensures
        one_line(human(n)),
{
    if n < 1024 {
        lemma_decimal_one_line(n);
        let s = human(n);
        assert forall|k: int| 0 <= k < s.len() implies #[trigger] s[k] != '\n' by {
            if k < decimal(n).len() {
                assert(s[k] == decimal(n)[k]);
            }
        }
    } else {
        let s = human(n);
        let m = crate::human::nearest_double(n);
        let u = crate::human::unit_of(m, 0);
        let t = crate::human::round_half_even(10 * m, crate::human::pow1024(u));
        let a = decimal(t / 10);
        lemma_decimal_one_line(t / 10);
        assert forall|k: int| 0 <= k < s.len() implies #[trigger] s[k] != '\n' by {
            if k < a.len() {
                assert(s[k] == a[k]);
            }
        }
    }
}

/// An entry's text line holds exactly one newline, when its path holds none.
proof fn lemma_entry_line_newlines(e: EntryView, depth: nat)
    requires
        one_line(e.path),
    ensures
        newlines(entry_line(e, depth)) == 1,
{
    let h = pad10(human(e.size as nat));
    lemma_human_one_line(e.size as nat);
    assert(one_line(h)) by {
        let hs = human(e.size as nat);
        if hs.len() < 10 {
            let sp = spaces((10 - hs.len()) as nat);
            assert forall|k: int| 0 <= k < h.len() implies #[trigger] h[k] != '\n' by {
                if k < sp.len() {
                    assert(h[k] == sp[k]);
                } else {
                    assert(h[k] == hs[k - sp.len()]);
                }
            }
        }
    }
    let b = base_name(e.path);
    assert(one_line(b)) by {
        lemma_last_slash(e.path);
        if let Some(k) = last_slash(e.path) {
            if k + 1 < e.path.len() {
                assert forall|x: int| 0 <= x < b.len() implies #[trigger] b[x] != '\n' by {
                    assert(b[x] == e.path[x + k + 1]);
                }
            }
        }
    }
    let sp = spaces(2 * depth);
    assert(one_line(sp));
    assert(one_line(seq![' ', ' ']));
    lemma_one_line_newlines(sp);
    lemma_one_line_newlines(h);
    lemma_one_line_newlines(seq![' ', ' ']);
    lemma_one_line_newlines(b);
    lemma_newlines_add(sp, h);
    lemma_newlines_add(sp + h, seq![' ', ' ']);
    lemma_newlines_add(sp + h + seq![' ', ' '], b);
    lemma_newlines_add(sp + h + seq![' ', ' '] + b, seq!['\n']);
    assert(newlines(seq!['\n']) == 1) by {
        let nl = seq!['\n'];
        assert(nl.drop_last() =~= Seq::<char>::empty());
        assert(nl.last() == '\n');
        assert(newlines(nl.drop_last()) == 0);
    }
}

/// With nothing folded, every child is printed and none is summarized.
proof fn lemma_nothing_folded(es: Seq<EntryView>, ks: Seq<int>)
    ensures
        shown_only(es, None, ks) == ks,
        hidden_count(es, None, ks) == 0,
    decreases ks.len(),
{
    if ks.len() > 0 {
        lemma_nothing_folded(es, ks.drop_last());
        assert(ks.drop_last().push(ks.last()) =~= ks);
    }
}

/// Whether nothing is folded away: no depth limit, no collapsing.
pub open spec fn prints_everything(opts: PrintOptions) -> bool {
    opts.max_depth is None && opts.collapse_under is None
}

/// Whether no path of the report holds a newline character (as none does
/// in a parsed report).
pub open spec fn paths_one_line(es: Seq<EntryView>) -> bool {
    forall|k: int| 0 <= k < es.len() ==> one_line(#[trigger] es[k].path)
}

/// With nothing folded, entry `i` and what lies below it take one line each.
proof fn lemma_render_lines(es: Seq<EntryView>, opts: PrintOptions, i: int, depth: nat)
    requires
        paths_one_line(es),
        prints_everything(opts),
        0 <= i < es.len(),
    ensures
        newlines(render(es, opts, i, depth)) == 1 + desc_count(es, i),
    decreases max_path_len(es) - es[i].path.len(), 1int, 0int,
{
    let ks = kids(es, opts.sort, i);
    lemma_nothing_folded(es, ks);
    lemma_entry_line_newlines(es[i], depth);
    lemma_desc_count_kids(es, opts.sort, i);
    lemma_kids_lines(es, opts, i, depth, ks.len());
    lemma_newlines_add(entry_line(es[i], depth), render_below(es, opts, i, depth));
    if ks.len() > 0 {
        assert(render_below(es, opts, i, depth) =~= render_kids(es, opts, i, depth, ks.len() as int));
    }
}

/// With nothing folded, the first `k` children of `i` and what lies below
/// them take one line each.
proof fn lemma_kids_lines(es: Seq<EntryView>, opts: PrintOptions, i: int, depth: nat, k: nat)
    requires
        paths_one_line(es),
        prints_everything(opts),
        0 <= i < es.len(),
        k <= kids(es, opts.sort, i).len(),
    ensures
        newlines(render_kids(es, opts, i, depth, k as int)) == sum_over(
            kids(es, opts.sort, i),
            |c: int| 1 + desc_count(es, c),
            k,
        ),
    decreases max_path_len(es) - es[i].path.len(), 0int, k,
{
    let ks = kids(es, opts.sort, i);
    lemma_nothing_folded(es, ks);
    if k > 0 {
        lemma_kids_deeper(es, opts.sort, i);
        let c = ks[k - 1];
        lemma_kids_lines(es, opts, i, depth, (k - 1) as nat);
        lemma_render_lines(es, opts, c, depth + 1);
        lemma_newlines_add(render_kids(es, opts, i, depth, k - 1), render(es, opts, c, depth + 1));
    }
}

/// The roots `0..k` and what lies below them take one line each.
proof fn lemma_roots_lines(es: Seq<EntryView>, opts: PrintOptions, k: nat)
    requires
        paths_one_line(es),
        prints_everything(opts),
        k <= roots(es, opts.sort).len(),
    ensures
        newlines(roots_text(es, opts, k as int)) == sum_over(
            roots(es, opts.sort),
            |c: int| 1 + desc_count(es, c),
            k,
        ),
    decreases k,
{
    if k > 0 {
        let rs = roots(es, opts.sort);
        lemma_select_members(es, opts.sort, |j: int| is_root(es, j), es.len());
        lemma_roots_lines(es, opts, (k - 1) as nat);
        lemma_render_lines(es, opts, rs[k - 1], 0);
        lemma_newlines_add(roots_text(es, opts, k - 1), render(es, opts, rs[k - 1], 0));
    }
}

/// With no depth limit and no collapsing, the tree shows every entry of the
/// report exactly once: it has as many lines as the report has entries (the
/// paths, as in any parsed report, holding no newline).
pub proof fn law_every_entry_printed(es: Seq<EntryView>, opts: PrintOptions)
    requires
        distinct_paths(es),
        paths_one_line(es),
        prints_everything(opts),
    ensures
        newlines(tree_text(es, opts)) == es.len(),
{
    let rs = roots(es, opts.sort);
    lemma_roots_lines(es, opts, rs.len());
    lemma_roots_partition(es, opts.sort);
    lemma_select_members(es, opts.sort, |j: int| is_root(es, j), es.len());
    let g = |c: int| 1 + desc_count(es, c);
    let h = |c: int| 1 + count_under(es, c);
    assert forall|a: int| 0 <= a < rs.len() implies g(#[trigger] rs[a]) == h(rs[a]) by {
        lemma_desc_count_entries(es, rs[a]);
    }
    lemma_sum_ext_on(rs, g, h, rs.len());
}

} // verus!

verus! {

/// Dropping the last character keeps a line a line.
proof fn lemma_one_line_drop_last(s: Seq<char>)
    requires
        one_line(s),
        s.len() > 0,
    ensures
        one_line(s.drop_last()),
{
    assert forall|k: int| 0 <= k < s.len() - 1 implies #[trigger] s.drop_last()[k] != '\n' by {
        assert(s.drop_last()[k] == s[k]);
    }
}

/// Trimming keeps a line a line.
proof fn lemma_trim_one_line(s: Seq<char>)
    requires
        one_line(s),
    ensures
        one_line(trim_end(s)),
        one_line(trim_start(s)),
    decreases s.len(),
{
    if s.len() > 0 {
        lemma_one_line_drop_last(s);
        assert(one_line(s.drop_first())) by {
            assert forall|k: int| 0 <= k < s.len() - 1 implies #[trigger] s.drop_first()[k] != '\n' by {
                assert(s.drop_first()[k] == s[k + 1]);
            }
        }
        lemma_trim_one_line(s.drop_last());
        lemma_trim_one_line(s.drop_first());
    }
}

/// The pieces between newlines hold no newline.
proof fn lemma_pieces_one_line(s: Seq<char>)
    ensures
        forall|q: int| 0 <= q < pieces(s).len() ==> one_line(#[trigger] pieces(s)[q]),
    decreases s.len(),
{
    if s.len() > 0 {
        let prev = pieces(s.drop_last());
        lemma_pieces_one_line(s.drop_last());
        crate::parser::lemma_pieces_len(s.drop_last());
        if s.last() != '\n' {
            let p = prev.update(prev.len() - 1, prev.last().push(s.last()));
            assert forall|q: int| 0 <= q < p.len() implies one_line(#[trigger] p[q]) by {
                if q == prev.len() - 1 {
                    let l = prev.last().push(s.last());
                    assert(one_line(prev[q]));
                    assert forall|k: int| 0 <= k < l.len() implies #[trigger] l[k] != '\n' by {
                        if k < l.len() - 1 {
                            assert(l[k] == prev[q][k]);
                        }
                    }
                }
            }
        } else {
            let p = prev.push(Seq::<char>::empty());
            assert forall|q: int| 0 <= q < p.len() implies one_line(#[trigger] p[q]) by {
                if q < prev.len() {
                    assert(p[q] == prev[q]);
                }
            }
        }
    }
}

/// The lines of a text hold no newline.
proof fn lemma_lines_one_line(s: Seq<char>)
    ensures
        forall|q: int| 0 <= q < lines(s).len() ==> one_line(#[trigger] lines(s)[q]),
{
    let p = pieces(s);
    lemma_pieces_one_line(s);
    crate::parser::lemma_pieces_len(s);
    assert forall|q: int| 0 <= q < lines(s).len() implies one_line(#[trigger] lines(s)[q]) by {
        if q < p.len() - 1 {
            let l = p[q];
            assert(one_line(l));
            if l.len() > 0 {
                lemma_one_line_drop_last(l);
            }
            assert(lines(s)[q] == strip_cr(l));
        } else {
            assert(lines(s)[q] == p.last());
            assert(one_line(p[p.len() - 1]));
        }
    }
}

/// Entries read from newline-free lines have newline-free paths.
proof fn lemma_scan_one_line(ls: Seq<Seq<char>>, unit: SizeUnit)
    requires
        forall|q: int| 0 <= q < ls.len() ==> one_line(#[trigger] ls[q]),
    ensures
        scan(ls, unit) matches Ok(es) ==> paths_one_line(es),
    decreases ls.len(),
{
    if ls.len() > 0 {
        let prev = ls.drop_last();
        assert forall|q: int| 0 <= q < prev.len() implies one_line(#[trigger] prev[q]) by {
            assert(prev[q] == ls[q]);
        }
        lemma_scan_one_line(prev, unit);
        let raw = ls.last();
        assert(one_line(ls[ls.len() - 1]));
        lemma_trim_one_line(raw);
        let t = trim_end(raw);
        let k = crate::parser::first_ws(t) as int;
        if k < t.len() {
            assert(one_line(t.skip(k + 1))) by {
                assert forall|x: int| 0 <= x < t.skip(k + 1).len() implies #[trigger] t.skip(
                    k + 1,
                )[x] != '\n' by {
                    assert(t.skip(k + 1)[x] == t[x + k + 1]);
                }
            }
            lemma_trim_one_line(t.skip(k + 1));
        } else {
            assert(one_line(Seq::<char>::empty()));
        }
        assert(one_line(path_field(t)));
        if let Ok(es) = scan(ls, unit) {
            let es0 = scan(prev, unit)->Ok_0;
            assert forall|q: int| 0 <= q < es.len() implies one_line(#[trigger] es[q].path) by {
                if q < es0.len() {
                    assert(es[q] == es0[q]);
                }
            }
        }
    }
}

/// A parsed report, printed with no depth limit and no collapsing, shows
/// each of its entries on a line of its own: the tree has exactly as many
/// lines as the report has entries.
pub proof fn law_parsed_report_printed_in_full(input: Seq<char>, unit: SizeUnit, opts: PrintOptions)
    requires
        prints_everything(opts),
    ensures
        parse_report(input, unit) matches Ok(es) ==> distinct_paths(es) && newlines(
            tree_text(es, opts),
        ) == es.len(),
{
    law_parsed_report_is_a_tree(input, unit);
    lemma_lines_one_line(input);
    lemma_scan_one_line(lines(input), unit);
    if let Ok(es) = parse_report(input, unit) {
        law_every_entry_printed(es, opts);
    }
}

} // verus!

verus! {

/// The same options with nothing folded.
pub open spec fn unfolded(opts: PrintOptions) -> PrintOptions {
    PrintOptions { max_depth: None, collapse_under: None, sort: opts.sort }
}

/// A depth-limited entry's summary stands for what it hides, rather than
/// dropping it silently: in the text and in the JSON alike, the summary's
/// count is the number of lines that printing with no limit would show below
/// the entry, and its size is the total size of the entry's children.
pub proof fn law_summary_counts_what_is_hidden(
    es: Seq<EntryView>,
    opts: PrintOptions,
    i: int,
    depth: nat,
)
    requires
        paths_one_line(es),
        0 <= i < es.len(),
        limited(opts, depth),
        kids(es, opts.sort, i).len() > 0,
    ensures
        ({
            let hidden = (newlines(render(es, unfolded(opts), i, depth)) - 1) as nat;
            let size = size_sum(es, kids(es, opts.sort, i));
            &&& render_below(es, opts, i, depth) == other_line(hidden, size, depth + 1)
            &&& render_json_below(es, opts, i, depth) == ",\"children\":[]"@ + hidden_json(
                hidden,
                size,
            ) + seq!['}']
        }),
{
    lemma_render_lines(es, unfolded(opts), i, depth);
}

} // verus!
