//! Turns the flat entry list back into an indented tree with human-readable
//! sizes, biggest child first by default, which is the layout you want when
//! hunting for what is eating a disk; or into a JSON array of the same nodes.

use vstd::prelude::*;
use crate::parser::{lemma_last_slash, Entry, EntryView, parent_of, has_path, last_slash, lemma_parent_shorter, parent_len, views, path_chars};
use crate::index::{PathTable, table_of};
use crate::coverage::{sum_over, lemma_desc_count_kids, lemma_sum_grows};
use crate::text::{copy_range, decimal, digit_char, digit_char_of, spaces, push_spaces, push_str, push_range, push_all, push_decimal, string_of};
use crate::human::{human, push_human};

verus! {

/// How siblings are ordered: biggest first (ties by path), or by name.
#[derive(Debug, Clone, Copy, PartialEq, Eq, Structural)]
pub enum SortMode {
    Size,
    Name,
}

impl Default for SortMode {
    fn default() -> (m: Self)
        ensures
            m == SortMode::Size,
    {
        SortMode::Size
    }
}

/// `max_depth` counts from the roots (depth 0): a root's direct children are at
/// depth 1, and once a printed entry sits at `max_depth` its own descendants
/// are summarized rather than printed. `collapse_under` hides the children
/// smaller than the threshold, folding them into one summary line per
/// directory.
#[derive(Debug, Clone, Copy)]
pub struct PrintOptions {
    pub max_depth: Option<usize>,
    pub collapse_under: Option<u64>,
    pub sort: SortMode,
}

impl Default for PrintOptions {
    fn default() -> (o: Self)
        ensures
            o.max_depth is None,
            o.collapse_under is None,
            o.sort == SortMode::Size,
    {
        PrintOptions { max_depth: None, collapse_under: None, sort: SortMode::Size }
    }
}

/// The last component of `p`: what follows its last `/`, or `p` itself when
/// nothing follows (as for `/`) or there is no `/`.
pub open spec fn base_name(p: Seq<char>) -> Seq<char> {
    match last_slash(p) {
        Some(k) => if k + 1 < p.len() {
            p.skip(k + 1)
        } else {
            p
        },
        None => p,
    }
}

/// A path is its parent directory, a `/` and its last component, which holds
/// no `/` (under the root `/`, the path is `/` and its last component), and
/// the parent is strictly shorter. This holds of a path without a trailing
/// `/` and without `//`.
pub proof fn law_path_is_parent_slash_name(p: Seq<char>)
    requires
        p.len() > 0,
        p.last() != '/',
        forall|k: int| 0 <= k < p.len() - 1 ==> !(#[trigger] p[k] == '/' && p[k + 1] == '/'),
        parent_of(p) is Some,
    ensures
        ({
            let q = parent_of(p)->0;
            &&& q.len() < p.len()
            &&& p == (if q == seq!['/'] {
                Seq::<char>::empty()
            } else {
                q
            }) + seq!['/'] + base_name(p)
            &&& !base_name(p).contains('/')
        }),
{
    lemma_last_slash(p);
    lemma_parent_shorter(p);
    let k = last_slash(p)->0;
    let q = parent_of(p)->0;
    assert(k < p.len() - 1);
    let b = p.skip(k + 1);
    assert(base_name(p) == b);
    assert(!b.contains('/')) by {
        if b.contains('/') {
            let w = choose|w: int| 0 <= w < b.len() && b[w] == '/';
            assert(p[k + 1 + w] == '/');
        }
    }
    if k == 0 {
        assert(q == seq!['/']);
        assert(p =~= Seq::<char>::empty() + seq!['/'] + b);
    } else {
        assert(q == p.take(k));
        assert(q != seq!['/']) by {
            if q == seq!['/'] {
                assert(q.len() == 1);
                assert(p[0] == q[0]);
                assert(p[0] == '/' && p[1] == '/');
            }
        }
        assert(p =~= q + seq!['/'] + b);
    }
}

/// Whether `a` comes strictly before `b` in the order of `str`: character by
/// character by code point, a proper prefix first.
pub open spec fn lex_lt(a: Seq<char>, b: Seq<char>) -> bool
    decreases a.len(),
{
    if a.len() == 0 {
        b.len() > 0
    } else if b.len() == 0 {
        false
    } else if a[0] != b[0] {
        (a[0] as u32) < (b[0] as u32)
    } else {
        lex_lt(a.drop_first(), b.drop_first())
    }
}

/// Whether entry `a` sorts strictly before entry `b` among siblings.
pub open spec fn sib_before(es: Seq<EntryView>, mode: SortMode, a: int, b: int) -> bool {
    match mode {
        SortMode::Size => es[a].size > es[b].size || (es[a].size == es[b].size && lex_lt(
            es[a].path,
            es[b].path,
        )),
        SortMode::Name => lex_lt(base_name(es[a].path), base_name(es[b].path)),
    }
}

/// `s` with `x` placed after every element that `x` does not sort before.
pub open spec fn insert_sorted(es: Seq<EntryView>, mode: SortMode, s: Seq<int>, x: int) -> Seq<
    int,
>
    decreases s.len(),
{
    if s.len() == 0 {
        seq![x]
    } else if sib_before(es, mode, x, s[0]) {
        seq![x] + s
    } else {
        seq![s[0]] + insert_sorted(es, mode, s.drop_first(), x)
    }
}

/// The entries below `j` that `sel` picks, sorted stably: entries that sort
/// alike keep their report order.
pub open spec fn select_sorted(
    es: Seq<EntryView>,
    mode: SortMode,
    sel: spec_fn(int) -> bool,
    j: nat,
) -> Seq<int>
    decreases j,
{
    if j == 0 {
        Seq::empty()
    } else {
        let prev = select_sorted(es, mode, sel, (j - 1) as nat);
        if sel(j - 1) {
            insert_sorted(es, mode, prev, j - 1)
        } else {
            prev
        }
    }
}

/// Whether entry `j` sits directly in the directory that entry `i` is.
pub open spec fn is_child(es: Seq<EntryView>, j: int, i: int) -> bool {
    parent_of(es[j].path) == Some(es[i].path)
}

/// Whether entry `j` starts a tree of its own: it has no parent directory, or
/// its parent directory is not in the report.
pub open spec fn is_root(es: Seq<EntryView>, j: int) -> bool {
    match parent_of(es[j].path) {
        Some(q) => !has_path(es, q),
        None => true,
    }
}

/// The children of entry `i`, in sibling order.
pub open spec fn kids(es: Seq<EntryView>, mode: SortMode, i: int) -> Seq<int> {
    select_sorted(es, mode, |j: int| is_child(es, j, i), es.len())
}

/// The roots of the report, in sibling order.
pub open spec fn roots(es: Seq<EntryView>, mode: SortMode) -> Seq<int> {
    select_sorted(es, mode, |j: int| is_root(es, j), es.len())
}

/// The length of the longest path of `es`.
pub open spec fn max_path_len(es: Seq<EntryView>) -> nat
    decreases es.len(),
{
    if es.len() == 0 {
        0
    } else {
        let m = max_path_len(es.drop_last());
        if es.last().path.len() > m {
            es.last().path.len()
        } else {
            m
        }
    }
}

/// Every path is at most `max_path_len` long.
pub proof fn lemma_max_path_len(es: Seq<EntryView>, i: int)
    requires
        0 <= i < es.len(),
    ensures
        es[i].path.len() <= max_path_len(es),
    decreases es.len(),
{
    if i < es.len() - 1 {
        lemma_max_path_len(es.drop_last(), i);
    }
}

/// Placing `x` keeps every element and adds `x`.
pub proof fn lemma_insert_members(es: Seq<EntryView>, mode: SortMode, s: Seq<int>, x: int)
    ensures
        insert_sorted(es, mode, s, x).len() == s.len() + 1,
        forall|k: int|
            0 <= k < s.len() + 1 ==> #[trigger] insert_sorted(es, mode, s, x)[k] == x || s.contains(
                insert_sorted(es, mode, s, x)[k],
            ),
    decreases s.len(),
{
    if s.len() > 0 && !sib_before(es, mode, x, s[0]) {
        lemma_insert_members(es, mode, s.drop_first(), x);
        let r = insert_sorted(es, mode, s, x);
        assert forall|k: int| 0 <= k < s.len() + 1 implies #[trigger] r[k] == x || s.contains(
            r[k],
        ) by {
            if k > 0 {
                let t = insert_sorted(es, mode, s.drop_first(), x);
                assert(r[k] == t[k - 1]);
                if t[k - 1] != x {
                    let w = choose|w: int| 0 <= w < s.drop_first().len() && s.drop_first()[w] == t[k - 1];
                    assert(s[w + 1] == r[k]);
                }
            } else {
                assert(s[0] == r[0]);
            }
        }
    } else if s.len() > 0 {
        let r = insert_sorted(es, mode, s, x);
        assert forall|k: int| 0 <= k < s.len() + 1 implies #[trigger] r[k] == x || s.contains(
            r[k],
        ) by {
            if k > 0 {
                assert(s[k - 1] == r[k]);
            }
        }
    }
}

/// The selection holds entries below `j` that `sel` picks.
pub proof fn lemma_select_members(
    es: Seq<EntryView>,
    mode: SortMode,
    sel: spec_fn(int) -> bool,
    j: nat,
)
    ensures
        forall|k: int|
            0 <= k < select_sorted(es, mode, sel, j).len() ==> 0 <= #[trigger] select_sorted(
                es,
                mode,
                sel,
                j,
            )[k] < j && sel(select_sorted(es, mode, sel, j)[k]),
    decreases j,
{
    if j > 0 {
        lemma_select_members(es, mode, sel, (j - 1) as nat);
        let prev = select_sorted(es, mode, sel, (j - 1) as nat);
        if sel(j - 1) {
            lemma_insert_members(es, mode, prev, j - 1);
        }
    }
}

/// The children of `i` are entries whose paths are longer than `i`'s, and no
/// longer than the longest.
pub proof fn lemma_kids_deeper(es: Seq<EntryView>, mode: SortMode, i: int)
    ensures
        forall|k: int|
            0 <= k < kids(es, mode, i).len() ==> 0 <= #[trigger] kids(es, mode, i)[k] < es.len()
                && is_child(es, kids(es, mode, i)[k], i) && es[i].path.len() < es[kids(
                es,
                mode,
                i,
            )[k]].path.len() <= max_path_len(es),
{
    lemma_select_members(es, mode, |j: int| is_child(es, j, i), es.len());
    assert forall|k: int| 0 <= k < kids(es, mode, i).len() implies es[i].path.len() < es[#[trigger] kids(
        es,
        mode,
        i,
    )[k]].path.len() <= max_path_len(es) by {
        let c = kids(es, mode, i)[k];
        lemma_parent_shorter(es[c].path);
        lemma_max_path_len(es, c);
    }
}

} // verus!

verus! {

/// Whether the entry at path `p` lies below the directory `target` in the
/// tree: walking up from `p` reaches `target`, through directories that are
/// all in the report.
pub open spec fn below(es: Seq<EntryView>, p: Seq<char>, target: Seq<char>) -> bool
    decreases p.len(),
{
    match parent_of(p) {
        None => false,
        Some(q) => q == target || (has_path(es, q) && {
            proof {
                lemma_parent_shorter(p);
            }
            below(es, q, target)
        }),
    }
}

/// How many of the first `m` entries lie below `target`.
pub open spec fn count_below(es: Seq<EntryView>, target: Seq<char>, m: nat) -> nat
    decreases m,
{
    if m == 0 {
        0
    } else {
        count_below(es, target, (m - 1) as nat) + if below(es, es[m - 1].path, target) {
            1nat
        } else {
            0nat
        }
    }
}

/// How many entries lie below entry `i`.
pub open spec fn count_under(es: Seq<EntryView>, i: int) -> nat {
    count_below(es, es[i].path, es.len())
}

/// How many lines what lies below entry `i` takes when nothing is folded:
/// one per child, and what lies below each child. (An entry whose path occurs
/// twice in the report is a child twice over.)
pub open spec fn desc_count(es: Seq<EntryView>, i: int) -> nat
    decreases max_path_len(es) - es[i].path.len(), 1int, 0int,
{
    child_lines(es, i, es.len())
}

/// How many lines the children of entry `i` among the first `m` entries, and
/// what lies below them, take when nothing is folded.
pub open spec fn child_lines(es: Seq<EntryView>, i: int, m: nat) -> nat
    decreases max_path_len(es) - es[i].path.len(), 0int, m,
{
    if m == 0 || m > es.len() {
        0
    } else {
        child_lines(es, i, (m - 1) as nat) + if is_child(es, m - 1, i) {
            proof {
                lemma_parent_shorter(es[m - 1].path);
                lemma_max_path_len(es, m - 1);
            }
            1 + desc_count(es, m - 1)
        } else {
            0nat
        }
    }
}

/// Every entry's count of lines below it fits in a `usize`, as the summary
/// line that shows such a count needs. A report without repeated paths has
/// at most one line per entry below any entry (`lemma_desc_count_entries`).
pub open spec fn counts_fit(es: Seq<EntryView>) -> bool {
    forall|i: int| 0 <= i < es.len() ==> #[trigger] desc_count(es, i) <= usize::MAX
}

/// The total size of the entries `ks`.
pub open spec fn size_sum(es: Seq<EntryView>, ks: Seq<int>) -> nat
    decreases ks.len(),
{
    if ks.len() == 0 {
        0
    } else {
        size_sum(es, ks.drop_last()) + es[ks.last()].size as nat
    }
}

/// Whether an entry of this size is printed rather than folded away.
pub open spec fn shown(cu: Option<u64>, size: u64) -> bool {
    match cu {
        Some(t) => size >= t,
        None => true,
    }
}

/// How many of the entries `ks` are folded away.
pub open spec fn hidden_count(es: Seq<EntryView>, cu: Option<u64>, ks: Seq<int>) -> nat
    decreases ks.len(),
{
    if ks.len() == 0 {
        0
    } else {
        hidden_count(es, cu, ks.drop_last()) + if shown(cu, es[ks.last()].size) {
            0nat
        } else {
            1nat
        }
    }
}

/// The total size of the entries of `ks` that are folded away.
pub open spec fn hidden_size(es: Seq<EntryView>, cu: Option<u64>, ks: Seq<int>) -> nat
    decreases ks.len(),
{
    if ks.len() == 0 {
        0
    } else {
        hidden_size(es, cu, ks.drop_last()) + if shown(cu, es[ks.last()].size) {
            0nat
        } else {
            es[ks.last()].size as nat
        }
    }
}

/// Whether the descendants of an entry printed at `depth` are summarized.
pub open spec fn limited(opts: PrintOptions, depth: nat) -> bool {
    opts.max_depth matches Some(m) && depth >= m
}

/// `s` right-aligned in a field 10 characters wide, as `{:>10}` does.
pub open spec fn pad10(s: Seq<char>) -> Seq<char> {
    if s.len() < 10 {
        spaces((10 - s.len()) as nat) + s
    } else {
        s
    }
}

/// The text line of an entry printed at `depth`.
pub open spec fn entry_line(e: EntryView, depth: nat) -> Seq<char> {
    spaces(2 * depth) + pad10(human(e.size as nat)) + seq![' ', ' '] + base_name(e.path) + seq![
        '\n',
    ]
}

/// The text line that stands for `count` hidden entries of `size` bytes in
/// all, at `depth`: `... N more entries`, whatever the count.
pub open spec fn other_line(count: nat, size: nat, depth: nat) -> Seq<char> {
    spaces(2 * depth) + pad10(human(size)) + "  ... "@ + decimal(count) + " more entries\n"@
}

/// The entries of `ks` that are printed rather than folded away, in order.
pub open spec fn shown_only(es: Seq<EntryView>, cu: Option<u64>, ks: Seq<int>) -> Seq<int>
    decreases ks.len(),
{
    if ks.len() == 0 {
        Seq::empty()
    } else {
        let p = shown_only(es, cu, ks.drop_last());
        if shown(cu, es[ks.last()].size) {
            p.push(ks.last())
        } else {
            p
        }
    }
}

/// What is printed of entry `i`'s children below its line, at `depth`.
pub open spec fn render_below(es: Seq<EntryView>, opts: PrintOptions, i: int, depth: nat) -> Seq<
    char,
>
    decreases max_path_len(es) - es[i].path.len(), 2int, 0int,
{
    let ks = kids(es, opts.sort, i);
    if ks.len() == 0 {
        Seq::empty()
    } else if limited(opts, depth) {
        other_line(desc_count(es, i), size_sum(es, ks), depth + 1)
    } else {
        let cu = opts.collapse_under;
        render_kids(es, opts, i, depth, shown_only(es, cu, ks).len() as int) + if hidden_count(
            es,
            cu,
            ks,
        ) > 0 {
            other_line(hidden_count(es, cu, ks), hidden_size(es, cu, ks), depth + 1)
        } else {
            Seq::empty()
        }
    }
}

/// The text of entry `i` printed at `depth`, with what is printed below it.
pub open spec fn render(es: Seq<EntryView>, opts: PrintOptions, i: int, depth: nat) -> Seq<char>
    decreases max_path_len(es) - es[i].path.len(), 3int, 0int,
{
    entry_line(es[i], depth) + render_below(es, opts, i, depth)
}

/// The text of the first `k` printed children of entry `i` (printed at
/// `depth`).
pub open spec fn render_kids(
    es: Seq<EntryView>,
    opts: PrintOptions,
    i: int,
    depth: nat,
    k: int,
) -> Seq<char>
    decreases max_path_len(es) - es[i].path.len(), 1int, k,
{
    let sk = shown_only(es, opts.collapse_under, kids(es, opts.sort, i));
    if k <= 0 || k > sk.len() {
        Seq::empty()
    } else {
        render_kids(es, opts, i, depth, k - 1) + {
            proof {
                lemma_shown_deeper(es, opts, i);
            }
            render(es, opts, sk[k - 1], depth + 1)
        }
    }
}

/// The printed entries of `ks` are entries of `ks`.
pub proof fn lemma_shown_members(es: Seq<EntryView>, cu: Option<u64>, ks: Seq<int>)
    ensures
        shown_only(es, cu, ks).len() <= ks.len(),
        forall|k: int|
            0 <= k < shown_only(es, cu, ks).len() ==> ks.contains(
                #[trigger] shown_only(es, cu, ks)[k],
            ),
    decreases ks.len(),
{
    if ks.len() > 0 {
        lemma_shown_members(es, cu, ks.drop_last());
        let p = shown_only(es, cu, ks.drop_last());
        assert forall|k: int| 0 <= k < shown_only(es, cu, ks).len() implies ks.contains(
            #[trigger] shown_only(es, cu, ks)[k],
        ) by {
            if k < p.len() {
                let w = choose|w: int| 0 <= w < ks.drop_last().len() && ks.drop_last()[w] == p[k];
                assert(ks[w] == p[k]);
            } else {
                assert(ks[ks.len() - 1] == ks.last());
            }
        }
    }
}

/// The printed children of `i` are entries with longer paths than `i`'s.
pub proof fn lemma_shown_deeper(es: Seq<EntryView>, opts: PrintOptions, i: int)
    ensures
        forall|k: int|
            0 <= k < shown_only(es, opts.collapse_under, kids(es, opts.sort, i)).len() ==> {
                let c = #[trigger] shown_only(es, opts.collapse_under, kids(es, opts.sort, i))[k];
                &&& 0 <= c < es.len()
                &&& is_child(es, c, i)
                &&& es[i].path.len() < es[c].path.len() <= max_path_len(es)
            },
{
    let ks = kids(es, opts.sort, i);
    lemma_shown_members(es, opts.collapse_under, ks);
    lemma_kids_deeper(es, opts.sort, i);
    assert forall|k: int| 0 <= k < shown_only(es, opts.collapse_under, ks).len() implies {
        let c = #[trigger] shown_only(es, opts.collapse_under, ks)[k];
        &&& 0 <= c < es.len()
        &&& is_child(es, c, i)
        &&& es[i].path.len() < es[c].path.len() <= max_path_len(es)
    } by {
        let c = shown_only(es, opts.collapse_under, ks)[k];
        let w = choose|w: int| 0 <= w < ks.len() && ks[w] == c;
        assert(ks[w] == c);
    }
}

} // verus!

verus! {

/// Whether `a[alo..]` comes strictly before `b[blo..]` in the order of `str`.
fn lex_less(a: &Vec<char>, alo: usize, b: &Vec<char>, blo: usize) -> (r: bool)
    requires
        alo <= a@.len(),
        blo <= b@.len(),
    ensures
        r == lex_lt(a@.skip(alo as int), b@.skip(blo as int)),
{
    let ghost x = a@.skip(alo as int);
    let ghost y = b@.skip(blo as int);
    let mut i = alo;
    let mut j = blo;
    assert(x.skip(0) =~= x && y.skip(0) =~= y);
    while i < a.len() && j < b.len() && a[i] == b[j]
        invariant
            alo <= i <= a@.len(),
            blo <= j <= b@.len(),
            i - alo == j - blo,
            x == a@.skip(alo as int),
            y == b@.skip(blo as int),
            lex_lt(x, y) == lex_lt(x.skip(i - alo), y.skip(j - blo)),
        decreases a@.len() - i,
    {
        assert(x.skip(i - alo).drop_first() =~= x.skip(i - alo + 1));
        assert(y.skip(j - blo).drop_first() =~= y.skip(j - blo + 1));
        i = i + 1;
        j = j + 1;
    }
    if i >= a.len() {
        j < b.len()
    } else if j >= b.len() {
        false
    } else {
        assert(x.skip(i - alo)[0] == a@[i as int]);
        assert(y.skip(j - blo)[0] == b@[j as int]);
        (a[i] as u32) < (b[j] as u32)
    }
}

/// Where the last component of `p` starts.
fn basename_start(p: &Vec<char>) -> (s: usize)
    ensures
        s <= p@.len(),
        p@.skip(s as int) == base_name(p@),
{
    let n = p.len();
    let mut k = n;
    assert(p@.take(n as int) =~= p@);
    while k > 0 && p[k - 1] != '/'
        invariant
            k <= n == p@.len(),
            last_slash(p@) == last_slash(p@.take(k as int)),
        decreases k,
    {
        assert(p@.take(k as int).drop_last() =~= p@.take(k - 1));
        k = k - 1;
    }
    if k == 0 {
        assert(p@.skip(0) =~= p@);
        0
    } else {
        assert(last_slash(p@.take(k as int)) == Some(k - 1));
        if k < n {
            k
        } else {
            assert(p@.skip(0) =~= p@);
            0
        }
    }
}

/// Whether entry `a` sorts strictly before entry `b` among siblings.
fn before(
    paths: &Vec<Vec<char>>,
    sizes: &Vec<u64>,
    Ghost(es): Ghost<Seq<EntryView>>,
    mode: SortMode,
    a: usize,
    b: usize,
) -> (r: bool)
    requires
        a < es.len(),
        b < es.len(),
        paths@.len() == es.len(),
        sizes@.len() == es.len(),
        forall|i: int| 0 <= i < es.len() ==> #[trigger] paths@[i]@ == es[i].path,
        forall|i: int| 0 <= i < es.len() ==> #[trigger] sizes@[i] == es[i].size,
    ensures
        r == sib_before(es, mode, a as int, b as int),
{
    match mode {
        SortMode::Size => {
            if sizes[a] != sizes[b] {
                sizes[a] > sizes[b]
            } else {
                let r = lex_less(&paths[a], 0, &paths[b], 0);
                assert(paths@[a as int]@.skip(0) =~= es[a as int].path);
                assert(paths@[b as int]@.skip(0) =~= es[b as int].path);
                r
            }
        },
        SortMode::Name => {
            let sa = basename_start(&paths[a]);
            let sb = basename_start(&paths[b]);
            lex_less(&paths[a], sa, &paths[b], sb)
        },
    }
}

/// The integers of a list of indices.
pub open spec fn ints(v: Seq<usize>) -> Seq<int> {
    v.map_values(|x: usize| x as int)
}

/// Placing `x` at the first position whose element it sorts before.
pub proof fn lemma_insert_at(es: Seq<EntryView>, mode: SortMode, s: Seq<int>, x: int, p: int)
    requires
        0 <= p <= s.len(),
        forall|q: int| 0 <= q < p ==> !sib_before(es, mode, x, #[trigger] s[q]),
        p == s.len() || sib_before(es, mode, x, s[p]),
    ensures
        insert_sorted(es, mode, s, x) == s.insert(p, x),
    decreases s.len(),
{
    if p == 0 {
        if s.len() == 0 {
            assert(s.insert(0, x) =~= seq![x]);
        } else {
            assert(s.insert(0, x) =~= seq![x] + s);
        }
    } else {
        assert(!sib_before(es, mode, x, s[0]));
        let t = s.drop_first();
        assert forall|q: int| 0 <= q < p - 1 implies !sib_before(es, mode, x, #[trigger] t[q]) by {
            assert(t[q] == s[q + 1]);
        }
        lemma_insert_at(es, mode, t, x, p - 1);
        assert(s.insert(p, x) =~= seq![s[0]] + t.insert(p - 1, x));
    }
}

/// Places entry `x` into the sorted list `list`.
fn insert_by(
    paths: &Vec<Vec<char>>,
    sizes: &Vec<u64>,
    Ghost(es): Ghost<Seq<EntryView>>,
    mode: SortMode,
    list: &mut Vec<usize>,
    x: usize,
)
    requires
        x < es.len(),
        forall|q: int| 0 <= q < old(list)@.len() ==> #[trigger] old(list)@[q] < es.len(),
        paths@.len() == es.len(),
        sizes@.len() == es.len(),
        forall|i: int| 0 <= i < es.len() ==> #[trigger] paths@[i]@ == es[i].path,
        forall|i: int| 0 <= i < es.len() ==> #[trigger] sizes@[i] == es[i].size,
        in_order(es, mode, ints(old(list)@)),
    ensures
        ints(final(list)@) == insert_sorted(es, mode, ints(old(list)@), x as int),
        forall|q: int| 0 <= q < final(list)@.len() ==> #[trigger] final(list)@[q] < es.len(),
{
    let ghost s = ints(list@);
    let mut lo: usize = 0;
    let mut hi: usize = list.len();
    while lo < hi
        invariant
            lo <= hi <= list@.len(),
            list@ == old(list)@,
            s == ints(list@),
            in_order(es, mode, s),
            x < es.len(),
            forall|q: int| 0 <= q < list@.len() ==> #[trigger] list@[q] < es.len(),
            paths@.len() == es.len(),
            sizes@.len() == es.len(),
            forall|i: int| 0 <= i < es.len() ==> #[trigger] paths@[i]@ == es[i].path,
            forall|i: int| 0 <= i < es.len() ==> #[trigger] sizes@[i] == es[i].size,
            forall|q: int| 0 <= q < lo ==> !sib_before(es, mode, x as int, #[trigger] s[q]),
            forall|q: int| hi <= q < s.len() ==> sib_before(es, mode, x as int, #[trigger] s[q]),
        decreases hi - lo,
    {
        let mid = lo + (hi - lo) / 2;
        if before(paths, sizes, Ghost(es), mode, x, list[mid]) {
            assert forall|q: int| mid <= q < s.len() implies sib_before(
                es,
                mode,
                x as int,
                #[trigger] s[q],
            ) by {
                if q > mid {
                    assert(!sib_before(es, mode, s[q], s[mid as int]));
                    lemma_sib_before_neg_trans(es, mode, x as int, s[q], s[mid as int]);
                }
            }
            hi = mid;
        } else {
            assert forall|q: int| 0 <= q < mid + 1 implies !sib_before(
                es,
                mode,
                x as int,
                #[trigger] s[q],
            ) by {
                if q < mid && sib_before(es, mode, x as int, s[q]) {
                    assert(!sib_before(es, mode, s[mid as int], s[q]));
                    lemma_sib_before_neg_trans(es, mode, x as int, s[mid as int], s[q]);
                }
            }
            lo = mid + 1;
        }
    }
    let p = lo;
    proof {
        lemma_insert_at(es, mode, s, x as int, p as int);
    }
    list.insert(p, x);
    assert(ints(list@) =~= s.insert(p as int, x as int));
}

} // verus!

verus! {

/// Whether `p` is what the parent index of entry `j` should be: the first
/// entry of its parent directory, or none for a root.
pub open spec fn parent_ok(es: Seq<EntryView>, j: int, p: Option<usize>) -> bool {
    match p {
        Some(k) => k < es.len() && parent_of(es[j].path) == Some(es[k as int].path) && first_of(
            es,
            k as int,
        ),
        None => is_root(es, j),
    }
}

/// Whether entry `k` is the first entry with its path.
pub open spec fn first_of(es: Seq<EntryView>, k: int) -> bool {
    forall|j: int| 0 <= j < k ==> #[trigger] es[j].path != es[k].path
}

/// The entries as a forest: sizes, paths, the parent of each entry, the
/// children of each entry in sibling order, and the roots in sibling order.
struct Forest {
    es: Ghost<Seq<EntryView>>,
    mode: SortMode,
    sizes: Vec<u64>,
    paths: Vec<Vec<char>>,
    parent: Vec<Option<usize>>,
    kids: Vec<Vec<usize>>,
    roots: Vec<usize>,
}

impl Forest {
    /// The forest holds the entries `es` as the fields say.
    spec fn wf(&self) -> bool {
        let es = self.es@;
        let n = es.len();
        &&& self.sizes@.len() == n
        &&& self.paths@.len() == n
        &&& self.parent@.len() == n
        &&& self.kids@.len() == n
        &&& forall|i: int| 0 <= i < n ==> #[trigger] self.paths@[i]@ == es[i].path
        &&& forall|i: int| 0 <= i < n ==> #[trigger] self.sizes@[i] == es[i].size
        &&& forall|j: int| 0 <= j < n ==> parent_ok(es, j, #[trigger] self.parent@[j])
        &&& forall|i: int| 0 <= i < n ==> ints(#[trigger] self.kids@[i]@) == kids(es, self.mode, i)
        &&& ints(self.roots@) == roots(es, self.mode)
    }
}

/// The parent index of each entry.
fn parent_indices(
    paths: &Vec<Vec<char>>,
    table: &PathTable,
    Ghost(es): Ghost<Seq<EntryView>>,
) -> (parent: Vec<Option<usize>>)
    requires
        paths@.len() == es.len(),
        forall|i: int| 0 <= i < es.len() ==> #[trigger] paths@[i]@ == es[i].path,
        table.wf(),
        table@ == paths@.map_values(|p: Vec<char>| p@),
    ensures
        parent@.len() == es.len(),
        forall|j: int| 0 <= j < es.len() ==> parent_ok(es, j, #[trigger] parent@[j]),
{
    let n = paths.len();
    let mut parent: Vec<Option<usize>> = Vec::new();
    let mut j: usize = 0;
    while j < n
        invariant
            j <= n == paths@.len() == es.len(),
            table.wf(),
            table@ == paths@.map_values(|p: Vec<char>| p@),
            parent@.len() == j,
            forall|i: int| 0 <= i < es.len() ==> #[trigger] paths@[i]@ == es[i].path,
            forall|q: int| 0 <= q < j ==> parent_ok(es, q, #[trigger] parent@[q]),
        decreases n - j,
    {
        let found = match parent_len(&paths[j]) {
            None => None,
            Some(l) => {
                let parent_path = copy_range(&paths[j], 0, l);
                match table.find(&parent_path) {
                    Some(k) => {
                        assert(table@[k as int] == paths@[k as int]@);
                        assert forall|i: int| 0 <= i < k implies #[trigger] es[i].path
                            != es[k as int].path by {
                            assert(table@[i] == paths@[i]@);
                        }
                        Some(k)
                    },
                    None => {
                        assert forall|i: int| 0 <= i < es.len() implies #[trigger] es[i].path
                            != parent_path@ by {
                            assert(table@[i] == paths@[i]@);
                        }
                        None
                    },
                }
            },
        };
        parent.push(found);
        j = j + 1;
    }
    parent
}

/// The entries that `flags` picks, in sibling order.
fn sorted_selection(
    paths: &Vec<Vec<char>>,
    sizes: &Vec<u64>,
    Ghost(es): Ghost<Seq<EntryView>>,
    mode: SortMode,
    flags: &Vec<bool>,
    Ghost(sel): Ghost<spec_fn(int) -> bool>,
) -> (list: Vec<usize>)
    requires
        paths@.len() == es.len(),
        sizes@.len() == es.len(),
        flags@.len() == es.len(),
        forall|i: int| 0 <= i < es.len() ==> #[trigger] paths@[i]@ == es[i].path,
        forall|i: int| 0 <= i < es.len() ==> #[trigger] sizes@[i] == es[i].size,
        forall|i: int| 0 <= i < es.len() ==> #[trigger] flags@[i] == sel(i),
    ensures
        ints(list@) == select_sorted(es, mode, sel, es.len()),
{
    let n = flags.len();
    let mut list: Vec<usize> = Vec::new();
    let mut j: usize = 0;
    assert(ints(list@) =~= Seq::<int>::empty());
    while j < n
        invariant
            j <= n == es.len() == paths@.len() == sizes@.len() == flags@.len(),
            forall|i: int| 0 <= i < es.len() ==> #[trigger] paths@[i]@ == es[i].path,
            forall|i: int| 0 <= i < es.len() ==> #[trigger] sizes@[i] == es[i].size,
            forall|i: int| 0 <= i < es.len() ==> #[trigger] flags@[i] == sel(i),
            ints(list@) == select_sorted(es, mode, sel, j as nat),
            forall|q: int| 0 <= q < list@.len() ==> #[trigger] list@[q] < es.len(),
        decreases n - j,
    {
        if flags[j] {
            proof {
                lemma_select_in_order(es, mode, sel, j as nat);
            }
            insert_by(paths, sizes, Ghost(es), mode, &mut list, j);
        }
        j = j + 1;
    }
    list
}

/// A copy of a list of indices.
fn copy_list(v: &Vec<usize>) -> (w: Vec<usize>)
    ensures
        w@ == v@,
{
    let mut w: Vec<usize> = Vec::new();
    let mut k: usize = 0;
    while k < v.len()
        invariant
            k <= v@.len(),
            w@ == v@.take(k as int),
        decreases v@.len() - k,
    {
        w.push(v[k]);
        k = k + 1;
        assert(w@ =~= v@.take(k as int));
    }
    assert(v@.take(k as int) =~= v@);
    w
}

/// The entries as a forest, siblings in `mode` order.
fn build_tree(entries: &[Entry], mode: SortMode) -> (t: Forest)
    ensures
        t.wf(),
        t.es@ == views(entries@),
        t.mode == mode,
{
    let ghost es = views(entries@);
    let paths = path_chars(entries);
    let n = entries.len();
    let mut sizes: Vec<u64> = Vec::new();
    let mut k: usize = 0;
    while k < n
        invariant
            k <= n == entries@.len(),
            es == views(entries@),
            sizes@.len() == k,
            forall|i: int| 0 <= i < k ==> #[trigger] sizes@[i] == es[i].size,
        decreases n - k,
    {
        sizes.push(entries[k].size);
        k = k + 1;
    }
    let table = table_of(&paths);
    let parent = parent_indices(&paths, &table, Ghost(es));
    let mut kids_all: Vec<Vec<usize>> = Vec::new();
    let mut i: usize = 0;
    while i < n
        invariant
            i <= n,
            kids_all@.len() == i,
            forall|q: int| 0 <= q < i ==> #[trigger] kids_all@[q]@ == Seq::<usize>::empty(),
        decreases n - i,
    {
        kids_all.push(Vec::new());
        i = i + 1;
    }
    let mut j: usize = 0;
    proof {
        assert forall|q: int| 0 <= q < n implies ints(#[trigger] kids_all@[q]@) == select_sorted(
            es,
            mode,
            |c: int| is_child(es, c, q),
            0,
        ) by {
            assert(ints(kids_all@[q]@) =~= Seq::<int>::empty());
        }
    }
    // The children of a path are gathered at the first entry with that path.
    while j < n
        invariant
            j <= n == es.len() == paths@.len() == sizes@.len() == parent@.len(),
            forall|q: int| 0 <= q < es.len() ==> #[trigger] paths@[q]@ == es[q].path,
            forall|q: int| 0 <= q < es.len() ==> #[trigger] sizes@[q] == es[q].size,
            forall|q: int| 0 <= q < es.len() ==> parent_ok(es, q, #[trigger] parent@[q]),
            kids_all@.len() == n,
            forall|q: int|
                0 <= q < n && first_of(es, q) ==> ints(#[trigger] kids_all@[q]@) == select_sorted(
                    es,
                    mode,
                    |c: int| is_child(es, c, q),
                    j as nat,
                ),
            forall|q: int, r: int|
                0 <= q < n && 0 <= r < kids_all@[q]@.len() ==> #[trigger] kids_all@[q]@[r] < n,
        decreases n - j,
    {
        let ghost before = kids_all@;
        match parent[j] {
            Some(p) => {
                assert(parent_ok(es, j as int, parent@[j as int]));
                proof {
                    lemma_select_in_order(es, mode, |c: int| is_child(es, c, p as int), j as nat);
                }
                insert_by(&paths, &sizes, Ghost(es), mode, &mut kids_all[p], j);
                proof {
                    assert forall|q: int| 0 <= q < n && q != p && first_of(es, q) implies !is_child(
                        es,
                        j as int,
                        q,
                    ) by {
                        if q < p {
                            assert(es[q].path != es[p as int].path);
                        } else {
                            assert(es[p as int].path != es[q].path);
                        }
                    }
                }
            },
            None => {
                proof {
                    assert(parent_ok(es, j as int, parent@[j as int]));
                    assert forall|q: int| 0 <= q < n implies !is_child(es, j as int, q) by {
                        if is_child(es, j as int, q) {
                            assert(has_path(es, es[q].path));
                        }
                    }
                }
            },
        }
        j = j + 1;
    }
    // Every later entry with the same path gets a copy of those children.
    let mut i: usize = 0;
    while i < n
        invariant
            i <= n == es.len() == paths@.len(),
            forall|q: int| 0 <= q < es.len() ==> #[trigger] paths@[q]@ == es[q].path,
            table.wf(),
            table@ == paths@.map_values(|p: Vec<char>| p@),
            kids_all@.len() == n,
            forall|q: int|
                0 <= q < n && (first_of(es, q) || q < i) ==> ints(#[trigger] kids_all@[q]@)
                    == kids(es, mode, q),
            forall|q: int, r: int|
                0 <= q < n && 0 <= r < kids_all@[q]@.len() ==> #[trigger] kids_all@[q]@[r] < n,
        decreases n - i,
    {
        match table.find(&paths[i]) {
            Some(k) => {
                assert(table@[k as int] == paths@[k as int]@);
                assert(es[k as int].path == es[i as int].path);
                assert(first_of(es, k as int)) by {
                    assert forall|q: int| 0 <= q < k implies #[trigger] es[q].path
                        != es[k as int].path by {
                        assert(table@[q] == paths@[q]@);
                    }
                }
                if k != i {
                    let copy = copy_list(&kids_all[k]);
                    proof {
                        assert((|c: int| is_child(es, c, i as int)) =~= (|c: int| is_child(
                            es,
                            c,
                            k as int,
                        )));
                    }
                    kids_all.set(i, copy);
                }
            },
            None => {
                assert(table@[i as int] == paths@[i as int]@);
            },
        }
        i = i + 1;
    }
    let mut rflags: Vec<bool> = Vec::new();
    let mut j: usize = 0;
    while j < n
        invariant
            j <= n == es.len() == parent@.len(),
            forall|q: int| 0 <= q < es.len() ==> parent_ok(es, q, #[trigger] parent@[q]),
            rflags@.len() == j,
            forall|q: int| 0 <= q < j ==> #[trigger] rflags@[q] == is_root(es, q),
        decreases n - j,
    {
        rflags.push(parent[j].is_none());
        j = j + 1;
    }
    let roots = sorted_selection(
        &paths,
        &sizes,
        Ghost(es),
        mode,
        &rflags,
        Ghost(|q: int| is_root(es, q)),
    );
    Forest { es: Ghost(es), mode, sizes, paths, parent, kids: kids_all, roots }
}

} // verus!

verus! {

/// How many lines lie below entry `i` when nothing is folded: each child and
/// what lies below it.
fn count_descendants(t: &Forest, i: usize) -> (c: usize)
    requires
        t.wf(),
        counts_fit(t.es@),
        i < t.es@.len(),
    ensures
        c == desc_count(t.es@, i as int),
    decreases max_path_len(t.es@) - t.es@[i as int].path.len(),
{
    let ghost es = t.es@;
    let ghost ks = kids(es, t.mode, i as int);
    let ghost g = |c: int| 1 + desc_count(es, c);
    let n = t.paths.len();
    proof {
        lemma_desc_count_kids(es, t.mode, i as int);
        lemma_kids_deeper(es, t.mode, i as int);
        assert(desc_count(es, i as int) <= usize::MAX);
    }
    let kid_list = &t.kids[i];
    assert(ints(kid_list@) == ks);
    let mut c: usize = 0;
    let mut k: usize = 0;
    while k < kid_list.len()
        invariant
            t.wf(),
            counts_fit(t.es@),
            es == t.es@,
            n == es.len(),
            i < n,
            ints(kid_list@) == ks,
            ks == kids(es, t.mode, i as int),
            forall|q: int|
                0 <= q < ks.len() ==> 0 <= #[trigger] ks[q] < es.len() && es[i as int].path.len()
                    < es[ks[q]].path.len() <= max_path_len(es),
            g == (|c: int| 1 + desc_count(es, c)),
            desc_count(es, i as int) == sum_over(ks, g, ks.len()),
            desc_count(es, i as int) <= usize::MAX,
            k <= kid_list@.len(),
            c == sum_over(ks, g, k as nat),
        decreases kid_list@.len() - k,
    {
        let kid = kid_list[k];
        assert(ks[k as int] == kid as int);
        let d = count_descendants(t, kid);
        proof {
            lemma_sum_grows(ks, g, (k + 1) as nat, ks.len());
            assert(sum_over(ks, g, (k + 1) as nat) == sum_over(ks, g, k as nat) + g(ks[k as int]));
            assert(d == desc_count(es, kid as int));
            assert(ks[k as int] == kid as int);
            assert(g(kid as int) == 1 + desc_count(es, kid as int));
        }
        c = c + 1 + d;
        k = k + 1;
    }
    c
}

/// The total size of the entries `list`.
fn sum_sizes(t: &Forest, list: &Vec<usize>) -> (s: u128)
    requires
        t.wf(),
        forall|q: int| 0 <= q < list@.len() ==> #[trigger] list@[q] < t.es@.len(),
    ensures
        s == size_sum(t.es@, ints(list@)),
{
    let ghost ks = ints(list@);
    let mut s: u128 = 0;
    let mut k: usize = 0;
    while k < list.len()
        invariant
            t.wf(),
            ks == ints(list@),
            forall|q: int| 0 <= q < list@.len() ==> #[trigger] list@[q] < t.es@.len(),
            k <= list@.len(),
            s == size_sum(t.es@, ks.take(k as int)),
            s <= k * 0xffff_ffff_ffff_ffffu128,
        decreases list@.len() - k,
    {
        let x = t.sizes[list[k]];
        assert(ks.take(k + 1).drop_last() =~= ks.take(k as int));
        assert(s + x <= (k + 1) * 0xffff_ffff_ffff_ffffu128) by (nonlinear_arith)
            requires
                s <= k * 0xffff_ffff_ffff_ffffu128,
                x <= 0xffff_ffff_ffff_ffffu64,
        ;
        assert((k + 1) * 0xffff_ffff_ffff_ffffu128 <= 0xffff_ffff_ffff_ffffu128
            * 0xffff_ffff_ffff_ffffu128) by (nonlinear_arith)
            requires
                k + 1 <= 0xffff_ffff_ffff_ffffu128,
        ;
        s = s + x as u128;
        k = k + 1;
    }
    assert(ks.take(k as int) =~= ks);
    s
}

/// Splits the sorted children `kids` into the ones printed (in the same
/// order, so no re-sort is ever needed) and, when some are folded away, how
/// many those are and their total size.
fn split_for_collapse(t: &Forest, kids: &Vec<usize>, threshold: Option<u64>) -> (r: (
    Vec<usize>,
    Option<(usize, u128)>,
))
    requires
        t.wf(),
        forall|q: int| 0 <= q < kids@.len() ==> #[trigger] kids@[q] < t.es@.len(),
    ensures
        ({
            let ks = ints(kids@);
            &&& ints(r.0@) == shown_only(t.es@, threshold, ks)
            &&& forall|q: int| 0 <= q < r.0@.len() ==> #[trigger] r.0@[q] < t.es@.len()
            &&& match r.1 {
                Some((c, s)) => hidden_count(t.es@, threshold, ks) > 0 && c == hidden_count(
                    t.es@,
                    threshold,
                    ks,
                ) && s == hidden_size(t.es@, threshold, ks),
                None => hidden_count(t.es@, threshold, ks) == 0,
            }
        }),
{
    let ghost ks = ints(kids@);
    let mut shown_list: Vec<usize> = Vec::new();
    let mut other_count: usize = 0;
    let mut other_size: u128 = 0;
    let mut k: usize = 0;
    assert(ints(shown_list@) =~= shown_only(t.es@, threshold, ks.take(0)));
    while k < kids.len()
        invariant
            t.wf(),
            ks == ints(kids@),
            forall|q: int| 0 <= q < kids@.len() ==> #[trigger] kids@[q] < t.es@.len(),
            forall|q: int| 0 <= q < shown_list@.len() ==> #[trigger] shown_list@[q] < t.es@.len(),
            k <= kids@.len(),
            ints(shown_list@) == shown_only(t.es@, threshold, ks.take(k as int)),
            other_count == hidden_count(t.es@, threshold, ks.take(k as int)),
            other_size == hidden_size(t.es@, threshold, ks.take(k as int)),
            other_count <= k,
            other_size <= k * 0xffff_ffff_ffff_ffffu128,
        decreases kids@.len() - k,
    {
        let c = kids[k];
        let x = t.sizes[c];
        assert(ks.take(k + 1).drop_last() =~= ks.take(k as int));
        let keep = match threshold {
            Some(th) => x >= th,
            None => true,
        };
        if keep {
            let ghost before_push = shown_list@;
            shown_list.push(c);
            assert(ints(shown_list@) =~= ints(before_push).push(c as int));
        } else {
            assert(other_size + x <= (k + 1) * 0xffff_ffff_ffff_ffffu128) by (nonlinear_arith)
                requires
                    other_size <= k * 0xffff_ffff_ffff_ffffu128,
                    x <= 0xffff_ffff_ffff_ffffu64,
            ;
            assert((k + 1) * 0xffff_ffff_ffff_ffffu128 <= 0xffff_ffff_ffff_ffffu128
                * 0xffff_ffff_ffff_ffffu128) by (nonlinear_arith)
                requires
                    k + 1 <= 0xffff_ffff_ffff_ffffu128,
            ;
            other_count = other_count + 1;
            other_size = other_size + x as u128;
        }
        k = k + 1;
    }
    assert(ks.take(k as int) =~= ks);
    let other = if other_count > 0 {
        Some((other_count, other_size))
    } else {
        None
    };
    (shown_list, other)
}

} // verus!

verus! {

/// Appends `n` bytes written for people, right-aligned in 10 columns.
fn push_padded_human(out: &mut Vec<char>, n: u128)
    ensures
        final(out)@ == old(out)@ + pad10(human(n as nat)),
{
    let mut h: Vec<char> = Vec::new();
    push_human(&mut h, n);
    assert(h@ =~= human(n as nat));
    if h.len() < 10 {
        push_spaces(out, 10 - h.len());
    }
    push_all(out, &h);
    assert(out@ =~= old(out)@ + pad10(human(n as nat)));
}

/// Appends the indentation of `depth`.
fn push_indent(out: &mut Vec<char>, depth: usize)
    ensures
        final(out)@ == old(out)@ + spaces(2 * depth as nat),
{
    push_spaces(out, depth);
    push_spaces(out, depth);
    assert(out@ =~= old(out)@ + spaces(2 * depth as nat));
}

/// Appends the line that stands for `count` hidden entries of `size` bytes.
fn write_other_line(count: usize, size: u128, depth: usize, out: &mut Vec<char>)
    ensures
        final(out)@ == old(out)@ + other_line(count as nat, size as nat, depth as nat),
{
    push_indent(out, depth);
    push_padded_human(out, size);
    push_str(out, "  ... ");
    push_decimal(out, count as u128);
    push_str(out, " more entries\n");
    assert(out@ =~= old(out)@ + other_line(count as nat, size as nat, depth as nat));
}

/// Appends the text of entry `i` printed at `depth`, and what is printed
/// below it.
fn write_entry(t: &Forest, i: usize, depth: usize, opts: &PrintOptions, out: &mut Vec<char>)
    requires
        t.wf(),
        t.mode == opts.sort,
        opts.max_depth is Some ==> counts_fit(t.es@),
        i < t.es@.len(),
        depth <= t.es@[i as int].path.len(),
    ensures
        final(out)@ == old(out)@ + render(t.es@, *opts, i as int, depth as nat),
    decreases max_path_len(t.es@) - t.es@[i as int].path.len(), 3int,
{
    let ghost es = t.es@;
    let ghost start = out@;
    push_indent(out, depth);
    push_padded_human(out, t.sizes[i] as u128);
    out.push(' ');
    out.push(' ');
    let b = basename_start(&t.paths[i]);
    push_range(out, &t.paths[i], b, t.paths[i].len());
    out.push('\n');
    assert(t.paths@[i as int]@.subrange(b as int, t.paths@[i as int]@.len() as int)
        =~= t.paths@[i as int]@.skip(b as int));
    assert(out@ =~= start + entry_line(es[i as int], depth as nat));
    let ghost line_end = out@;
    write_below(t, i, depth, opts, out);
    assert(out@ =~= start + render(es, *opts, i as int, depth as nat));
}

/// Appends what is printed below entry `i`, printed at `depth`.
fn write_below(t: &Forest, i: usize, depth: usize, opts: &PrintOptions, out: &mut Vec<char>)
    requires
        t.wf(),
        t.mode == opts.sort,
        opts.max_depth is Some ==> counts_fit(t.es@),
        i < t.es@.len(),
        depth <= t.es@[i as int].path.len(),
    ensures
        final(out)@ == old(out)@ + render_below(t.es@, *opts, i as int, depth as nat),
    decreases max_path_len(t.es@) - t.es@[i as int].path.len(), 2int,
{
    let ghost es = t.es@;
    let ghost start = out@;
    let kid_list = &t.kids[i];
    let ghost ks = kids(es, opts.sort, i as int);
    assert(ints(kid_list@) == ks);
    proof {
        lemma_kids_deeper(es, opts.sort, i as int);
    }
    assert forall|q: int| 0 <= q < kid_list@.len() implies #[trigger] kid_list@[q] < es.len() by {
        assert(ints(kid_list@)[q] == ks[q]);
    }
    if kid_list.len() == 0 {
        assert(out@ =~= start + render_below(es, *opts, i as int, depth as nat));
        return;
    }
    let first = kid_list[0];
    assert(ks[0] == first as int);
    let first_len = t.paths[first].len();
    assert(depth < first_len);
    match opts.max_depth {
        Some(m) => {
            if depth >= m {
                let c = count_descendants(t, i);
                let s = sum_sizes(t, kid_list);
                write_other_line(c, s, depth + 1, out);
                assert(out@ =~= start + render_below(es, *opts, i as int, depth as nat));
                return;
            }
        },
        None => {},
    }
    let (shown_list, other) = split_for_collapse(t, kid_list, opts.collapse_under);
    write_kids(t, i, depth, opts, &shown_list, out);
    match other {
        Some((count, size)) => {
            write_other_line(count, size, depth + 1, out);
        },
        None => {},
    }
    assert(out@ =~= start + render_below(es, *opts, i as int, depth as nat));
}

/// Appends the text of the printed children `shown_list` of entry `i`.
fn write_kids(
    t: &Forest,
    i: usize,
    depth: usize,
    opts: &PrintOptions,
    shown_list: &Vec<usize>,
    out: &mut Vec<char>,
)
    requires
        t.wf(),
        t.mode == opts.sort,
        opts.max_depth is Some ==> counts_fit(t.es@),
        i < t.es@.len(),
        depth < usize::MAX,
        depth <= t.es@[i as int].path.len(),
        ints(shown_list@) == shown_only(
            t.es@,
            opts.collapse_under,
            kids(t.es@, opts.sort, i as int),
        ),
    ensures
        final(out)@ == old(out)@ + render_kids(
            t.es@,
            *opts,
            i as int,
            depth as nat,
            shown_list@.len() as int,
        ),
    decreases max_path_len(t.es@) - t.es@[i as int].path.len(), 1int,
{
    let ghost es = t.es@;
    let ghost start = out@;
    let ghost sk = ints(shown_list@);
    proof {
        lemma_shown_deeper(es, *opts, i as int);
    }
    let mut k: usize = 0;
    assert(out@ =~= start + render_kids(es, *opts, i as int, depth as nat, 0));
    while k < shown_list.len()
        invariant
            t.wf(),
            es == t.es@,
            t.mode == opts.sort,
            opts.max_depth is Some ==> counts_fit(t.es@),
            i < es.len(),
            depth < usize::MAX,
            depth <= es[i as int].path.len(),
            sk == ints(shown_list@),
            sk == shown_only(es, opts.collapse_under, kids(es, opts.sort, i as int)),
            k <= shown_list@.len(),
            forall|q: int|
                0 <= q < sk.len() ==> {
                    let c = #[trigger] sk[q];
                    &&& 0 <= c < es.len()
                    &&& es[i as int].path.len() < es[c].path.len() <= max_path_len(es)
                },
            out@ == start + render_kids(es, *opts, i as int, depth as nat, k as int),
        decreases shown_list@.len() - k,
    {
        let c = shown_list[k];
        assert(sk[k as int] == c as int);
        write_entry(t, c, depth + 1, opts, out);
        k = k + 1;
    }
}

/// The text of the roots `0..k` of the report, each with what is printed
/// below it.
pub open spec fn roots_text(es: Seq<EntryView>, opts: PrintOptions, k: int) -> Seq<char>
    decreases k,
{
    let rs = roots(es, opts.sort);
    if k <= 0 || k > rs.len() {
        Seq::empty()
    } else {
        roots_text(es, opts, k - 1) + render(es, opts, rs[k - 1], 0)
    }
}

/// The indented text tree of the report: each root, then what is printed
/// below it, in sibling order.
pub open spec fn tree_text(es: Seq<EntryView>, opts: PrintOptions) -> Seq<char> {
    roots_text(es, opts, roots(es, opts.sort).len() as int)
}

/// Prints the entries as an indented tree: one line per printed entry, its
/// size right-aligned in 10 columns then its name, each level indented two
/// more spaces; siblings in `opts.sort` order; entries beyond
/// `opts.max_depth`, or below `opts.collapse_under`, folded into
/// `... N more entries` lines.
pub fn print_tree(entries: &[Entry], opts: &PrintOptions) -> (s: String)
    requires
        opts.max_depth is Some ==> counts_fit(views(entries@)),
    ensures
        s@ == tree_text(views(entries@), *opts),
{
    let t = build_tree(entries, opts.sort);
    let ghost es = t.es@;
    let mut out: Vec<char> = Vec::new();
    let ghost rs = roots(es, opts.sort);
    proof {
        lemma_select_members(es, opts.sort, |j: int| is_root(es, j), es.len());
    }
    let mut k: usize = 0;
    assert(out@ =~= roots_text(es, *opts, 0));
    while k < t.roots.len()
        invariant
            t.wf(),
            es == t.es@,
            t.mode == opts.sort,
            opts.max_depth is Some ==> counts_fit(t.es@),
            rs == roots(es, opts.sort),
            ints(t.roots@) == rs,
            k <= t.roots@.len(),
            forall|q: int| 0 <= q < rs.len() ==> 0 <= #[trigger] rs[q] < es.len(),
            out@ == roots_text(es, *opts, k as int),
        decreases t.roots@.len() - k,
    {
        let r = t.roots[k];
        assert(rs[k as int] == r as int);
        write_entry(&t, r, 0, opts, &mut out);
        k = k + 1;
    }
    string_of(&out)
}

} // verus!

verus! {

/// The lower-case hexadecimal digit of `d < 16`.
pub open spec fn hex_digit(d: nat) -> char {
    if d < 10 {
        digit_char(d)
    } else if d == 10 {
        'a'
    } else if d == 11 {
        'b'
    } else if d == 12 {
        'c'
    } else if d == 13 {
        'd'
    } else if d == 14 {
        'e'
    } else {
        'f'
    }
}

/// How `c` is written inside a JSON string: `"` and `\` escaped with `\`,
/// newline, carriage return and tab as `\n`, `\r`, `\t`, other control
/// characters below U+0020 as `\u00XX`, everything else as it is.
pub open spec fn escape_char(c: char) -> Seq<char> {
    let v = c as u32;
    if c == '"' {
        seq!['\\', '"']
    } else if c == '\\' {
        seq!['\\', '\\']
    } else if c == '\n' {
        seq!['\\', 'n']
    } else if c == '\r' {
        seq!['\\', 'r']
    } else if c == '\t' {
        seq!['\\', 't']
    } else if v < 0x20 {
        seq!['\\', 'u', '0', '0', hex_digit((v / 16) as nat), hex_digit((v % 16) as nat)]
    } else {
        seq![c]
    }
}

/// The characters of `s`, each as `escape_char` writes it.
pub open spec fn json_escape(s: Seq<char>) -> Seq<char>
    decreases s.len(),
{
    if s.len() == 0 {
        Seq::empty()
    } else {
        json_escape(s.drop_last()) + escape_char(s.last())
    }
}

/// `s` as a JSON string literal.
pub open spec fn json_string(s: Seq<char>) -> Seq<char> {
    seq!['"'] + json_escape(s) + seq!['"']
}

/// The value of the hexadecimal digit `c`, in either case.
pub open spec fn hex_value(c: char) -> Option<nat> {
    let v = c as u32;
    if 0x30 <= v <= 0x39 {
        Some((v - 0x30) as nat)
    } else if 0x61 <= v <= 0x66 {
        Some((v - 0x61 + 10) as nat)
    } else if 0x41 <= v <= 0x46 {
        Some((v - 0x41 + 10) as nat)
    } else {
        None
    }
}

/// The number that the four hexadecimal digits `t[0..4]` write.
pub open spec fn hex4(t: Seq<char>) -> Option<nat> {
    match (hex_value(t[0]), hex_value(t[1]), hex_value(t[2]), hex_value(t[3])) {
        (Some(a), Some(b), Some(c), Some(d)) => Some(((a * 16 + b) * 16 + c) * 16 + d),
        _ => None,
    }
}

/// `c` followed by what `rest` stands for, if it stands for something.
pub open spec fn cons_some(c: char, rest: Option<Seq<char>>) -> Option<Seq<char>> {
    match rest {
        Some(r) => Some(seq![c] + r),
        None => None,
    }
}

/// The character that the two-character escape `\e` stands for in JSON.
pub open spec fn short_escape(e: char) -> Option<char> {
    if e == '"' {
        Some('"')
    } else if e == '\\' {
        Some('\\')
    } else if e == '/' {
        Some('/')
    } else if e == 'b' {
        Some('\x08')
    } else if e == 'f' {
        Some('\x0c')
    } else if e == 'n' {
        Some('\n')
    } else if e == 'r' {
        Some('\r')
    } else if e == 't' {
        Some('\t')
    } else {
        None
    }
}

/// What the body of a JSON string (what stands between its quotes) stands
/// for, as RFC 8259 reads it: the escapes `\"`, `\\`, `\/`, `\b`, `\f`, `\n`,
/// `\r`, `\t`; `\uXXXX` for a character outside the surrogates, and two of them
/// for a surrogate pair; any other character but `"`, `\` and those below
/// U+0020 as itself. None when the body is malformed.
pub open spec fn json_unescape(t: Seq<char>) -> Option<Seq<char>>
    decreases t.len(),
{
    if t.len() == 0 {
        Some(Seq::empty())
    } else if t[0] == '\\' {
        if t.len() < 2 {
            None
        } else if short_escape(t[1]) is Some {
            cons_some(short_escape(t[1])->0, json_unescape(t.skip(2)))
        } else if t[1] == 'u' && t.len() >= 6 && hex4(t.subrange(2, 6)) is Some {
            let v = hex4(t.subrange(2, 6))->0;
            if v < 0xd800 || v >= 0xe000 {
                cons_some((v as u32) as char, json_unescape(t.skip(6)))
            } else if v < 0xdc00 && t.len() >= 12 && t[6] == '\\' && t[7] == 'u' && hex4(
                t.subrange(8, 12),
            ) is Some {
                let w = hex4(t.subrange(8, 12))->0;
                if 0xdc00 <= w < 0xe000 {
                    cons_some(
                        ((0x10000 + (v - 0xd800) * 0x400 + (w - 0xdc00)) as u32) as char,
                        json_unescape(t.skip(12)),
                    )
                } else {
                    None
                }
            } else {
                None
            }
        } else {
            None
        }
    } else if t[0] == '"' || (t[0] as u32) < 0x20 {
        None
    } else {
        cons_some(t[0], json_unescape(t.skip(1)))
    }
}

/// The string that the JSON string literal `lit` stands for, if it is one.
pub open spec fn json_string_value(lit: Seq<char>) -> Option<Seq<char>> {
    if lit.len() >= 2 && lit[0] == '"' && lit.last() == '"' {
        json_unescape(lit.subrange(1, lit.len() - 1))
    } else {
        None
    }
}

/// Escaping character by character, read from the front.
proof fn lemma_json_escape_front(s: Seq<char>)
    requires
        s.len() > 0,
    ensures
        json_escape(s) == escape_char(s[0]) + json_escape(s.drop_first()),
    decreases s.len(),
{
    if s.len() == 1 {
        assert(s.drop_last() =~= Seq::<char>::empty());
        assert(s.drop_first() =~= Seq::<char>::empty());
        assert(json_escape(s) =~= escape_char(s[0]) + json_escape(s.drop_first()));
    } else {
        let d = s.drop_last();
        lemma_json_escape_front(d);
        assert(d.drop_first() =~= s.drop_first().drop_last());
        assert(s.drop_first().last() == s.last());
        assert(json_escape(s) =~= escape_char(s[0]) + json_escape(s.drop_first()));
    }
}

/// The hexadecimal digit written for `d` reads back as `d`.
proof fn lemma_hex_digit_value(d: nat)
    requires
        d < 16,
    ensures
        hex_value(hex_digit(d)) == Some(d),
{
}

/// A character as escaped here reads back as itself, before what follows.
proof fn lemma_unescape_char(c: char, rest: Seq<char>)
    ensures
        json_unescape(escape_char(c) + rest) == cons_some(c, json_unescape(rest)),
{
    let t = escape_char(c) + rest;
    let v = c as u32;
    if c == '"' || c == '\\' || c == '\n' || c == '\r' || c == '\t' {
        assert(t.skip(2) =~= rest);
    } else if v < 0x20 {
        let h = (v / 16) as nat;
        let l = (v % 16) as nat;
        lemma_hex_digit_value(h);
        lemma_hex_digit_value(l);
        assert(t.subrange(2, 6) =~= seq!['0', '0', hex_digit(h), hex_digit(l)]);
        assert(hex4(t.subrange(2, 6)) == Some(h * 16 + l));
        assert(h * 16 + l == v);
        vstd::utf8::char_u32_cast(c, v);
        assert(t.skip(6) =~= rest);
    } else {
        assert(t.skip(1) =~= rest);
    }
}

/// The escaped characters of `s` read back as `s`.
proof fn lemma_unescape_escape(s: Seq<char>)
    ensures
        json_unescape(json_escape(s)) == Some(s),
    decreases s.len(),
{
    if s.len() > 0 {
        lemma_json_escape_front(s);
        lemma_unescape_escape(s.drop_first());
        lemma_unescape_char(s[0], json_escape(s.drop_first()));
        assert(seq![s[0]] + s.drop_first() =~= s);
    }
}

/// A JSON string as written here reads back, by RFC 8259, as exactly the
/// string it was written from; and every character other than `"`, `\` and
/// those below U+0020 is written as it is.
pub proof fn law_json_string_reads_back(s: Seq<char>)
    ensures
        json_string_value(json_string(s)) == Some(s),
        forall|c: char|
            c != '"' && c != '\\' && (c as u32) >= 0x20 ==> #[trigger] escape_char(c) == seq![c],
{
    let lit = json_string(s);
    assert(lit.subrange(1, lit.len() - 1) =~= json_escape(s));
    lemma_unescape_escape(s);
}

/// The `hidden` member that stands for `count` entries of `size` bytes.
pub open spec fn hidden_json(count: nat, size: nat) -> Seq<char> {
    ",\"hidden\":{\"count\":"@ + decimal(count) + ",\"size\":"@ + decimal(size) + seq!['}']
}

/// The JSON node of entry `i` at `depth`.
pub open spec fn render_json(es: Seq<EntryView>, opts: PrintOptions, i: int, depth: nat) -> Seq<
    char,
>
    decreases max_path_len(es) - es[i].path.len(), 3int, 0int,
{
    "{\"path\":"@ + json_string(es[i].path) + ",\"name\":"@ + json_string(base_name(es[i].path))
        + ",\"size\":"@ + decimal(es[i].size as nat) + render_json_below(es, opts, i, depth)
}

/// The rest of the JSON node of entry `i` at `depth`: its `children`, the
/// `hidden` member when some are folded away, and the closing brace.
pub open spec fn render_json_below(
    es: Seq<EntryView>,
    opts: PrintOptions,
    i: int,
    depth: nat,
) -> Seq<char>
    decreases max_path_len(es) - es[i].path.len(), 2int, 0int,
{
    let ks = kids(es, opts.sort, i);
    let cu = opts.collapse_under;
    if ks.len() == 0 {
        ",\"children\":[]}"@
    } else if limited(opts, depth) {
        ",\"children\":[]"@ + hidden_json(desc_count(es, i), size_sum(es, ks)) + seq!['}']
    } else {
        ",\"children\":["@ + render_json_kids(es, opts, i, depth, shown_only(es, cu, ks).len() as int)
            + seq![']'] + (if hidden_count(es, cu, ks) > 0 {
            hidden_json(hidden_count(es, cu, ks), hidden_size(es, cu, ks))
        } else {
            Seq::empty()
        }) + seq!['}']
    }
}

/// The JSON nodes of the first `k` printed children of entry `i`, separated
/// by commas.
pub open spec fn render_json_kids(
    es: Seq<EntryView>,
    opts: PrintOptions,
    i: int,
    depth: nat,
    k: int,
) -> Seq<char>
    decreases max_path_len(es) - es[i].path.len(), 1int, k,
{
    let sk = shown_only(es, opts.collapse_under, kids(es, opts.sort, i));
    if k <= 0 || k > sk.len() {
        Seq::empty()
    } else {
        render_json_kids(es, opts, i, depth, k - 1) + (if k > 1 {
            seq![',']
        } else {
            Seq::empty()
        }) + {
            proof {
                lemma_shown_deeper(es, opts, i);
            }
            render_json(es, opts, sk[k - 1], depth + 1)
        }
    }
}

/// The JSON nodes of the roots `0..k`, separated by commas.
pub open spec fn json_roots(es: Seq<EntryView>, opts: PrintOptions, k: int) -> Seq<char>
    decreases k,
{
    let rs = roots(es, opts.sort);
    if k <= 0 || k > rs.len() {
        Seq::empty()
    } else {
        json_roots(es, opts, k - 1) + (if k > 1 {
            seq![',']
        } else {
            Seq::empty()
        }) + render_json(es, opts, rs[k - 1], 0)
    }
}

/// The report as a JSON array of its root nodes.
pub open spec fn tree_json(es: Seq<EntryView>, opts: PrintOptions) -> Seq<char> {
    seq!['['] + json_roots(es, opts, roots(es, opts.sort).len() as int) + seq![']']
}

} // verus!

verus! {

/// The lower-case hexadecimal digit of `d`.
fn hex_digit_of(d: u32) -> (c: char)
    requires
        d < 16,
    ensures
        c == hex_digit(d as nat),
{
    if d < 10 {
        digit_char_of(d as u128)
    } else if d == 10 {
        'a'
    } else if d == 11 {
        'b'
    } else if d == 12 {
        'c'
    } else if d == 13 {
        'd'
    } else if d == 14 {
        'e'
    } else {
        'f'
    }
}

/// Appends `s[lo..]` as a JSON string literal.
fn push_json_string(s: &Vec<char>, lo: usize, out: &mut Vec<char>)
    requires
        lo <= s@.len(),
    ensures
        final(out)@ == old(out)@ + json_string(s@.skip(lo as int)),
{
    let ghost start = out@;
    let ghost x = s@.skip(lo as int);
    out.push('"');
    let mut k = lo;
    assert(x.take(0) =~= Seq::<char>::empty());
    while k < s.len()
        invariant
            lo <= k <= s@.len(),
            x == s@.skip(lo as int),
            out@ == start + seq!['"'] + json_escape(x.take(k - lo)),
        decreases s@.len() - k,
    {
        let c = s[k];
        let v = c as u32;
        assert(x.take(k - lo + 1).drop_last() =~= x.take(k - lo));
        assert(x.take(k - lo + 1).last() == c);
        if c == '"' {
            out.push('\\');
            out.push('"');
        } else if c == '\\' {
            out.push('\\');
            out.push('\\');
        } else if c == '\n' {
            out.push('\\');
            out.push('n');
        } else if c == '\r' {
            out.push('\\');
            out.push('r');
        } else if c == '\t' {
            out.push('\\');
            out.push('t');
        } else if v < 0x20 {
            out.push('\\');
            out.push('u');
            out.push('0');
            out.push('0');
            let h = hex_digit_of(v / 16);
            out.push(h);
            let l = hex_digit_of(v % 16);
            out.push(l);
        } else {
            out.push(c);
        }
        k = k + 1;
        assert(out@ =~= start + seq!['"'] + json_escape(x.take(k - lo)));
    }
    assert(x.take(k - lo) =~= x);
    out.push('"');
    assert(out@ =~= start + json_string(x));
}

/// Appends the `hidden` member for `count` entries of `size` bytes.
fn push_json_hidden(count: usize, size: u128, out: &mut Vec<char>)
    ensures
        final(out)@ == old(out)@ + hidden_json(count as nat, size as nat),
{
    push_str(out, ",\"hidden\":{\"count\":");
    push_decimal(out, count as u128);
    push_str(out, ",\"size\":");
    push_decimal(out, size);
    out.push('}');
    assert(out@ =~= old(out)@ + hidden_json(count as nat, size as nat));
}

/// Appends the JSON node of entry `i` at `depth`.
fn write_json_entry(t: &Forest, i: usize, depth: usize, opts: &PrintOptions, out: &mut Vec<char>)
    requires
        t.wf(),
        t.mode == opts.sort,
        opts.max_depth is Some ==> counts_fit(t.es@),
        i < t.es@.len(),
        depth <= t.es@[i as int].path.len(),
    ensures
        final(out)@ == old(out)@ + render_json(t.es@, *opts, i as int, depth as nat),
    decreases max_path_len(t.es@) - t.es@[i as int].path.len(), 3int,
{
    let ghost es = t.es@;
    let ghost start = out@;
    push_str(out, "{\"path\":");
    push_json_string(&t.paths[i], 0, out);
    assert(t.paths@[i as int]@.skip(0) =~= es[i as int].path);
    push_str(out, ",\"name\":");
    let b = basename_start(&t.paths[i]);
    push_json_string(&t.paths[i], b, out);
    push_str(out, ",\"size\":");
    push_decimal(out, t.sizes[i] as u128);
    write_json_below(t, i, depth, opts, out);
    assert(out@ =~= start + render_json(es, *opts, i as int, depth as nat));
}

/// Appends the rest of the JSON node of entry `i` at `depth`.
fn write_json_below(t: &Forest, i: usize, depth: usize, opts: &PrintOptions, out: &mut Vec<char>)
    requires
        t.wf(),
        t.mode == opts.sort,
        opts.max_depth is Some ==> counts_fit(t.es@),
        i < t.es@.len(),
        depth <= t.es@[i as int].path.len(),
    ensures
        final(out)@ == old(out)@ + render_json_below(t.es@, *opts, i as int, depth as nat),
    decreases max_path_len(t.es@) - t.es@[i as int].path.len(), 2int,
{
    let ghost es = t.es@;
    let ghost start = out@;
    let kid_list = &t.kids[i];
    let ghost ks = kids(es, opts.sort, i as int);
    assert(ints(kid_list@) == ks);
    proof {
        lemma_kids_deeper(es, opts.sort, i as int);
    }
    assert forall|q: int| 0 <= q < kid_list@.len() implies #[trigger] kid_list@[q] < es.len() by {
        assert(ints(kid_list@)[q] == ks[q]);
    }
    if kid_list.len() == 0 {
        push_str(out, ",\"children\":[]}");
        return;
    }
    let first = kid_list[0];
    assert(ks[0] == first as int);
    let first_len = t.paths[first].len();
    assert(depth < first_len);
    match opts.max_depth {
        Some(m) => {
            if depth >= m {
                let c = count_descendants(t, i);
                let s = sum_sizes(t, kid_list);
                push_str(out, ",\"children\":[]");
                push_json_hidden(c, s, out);
                out.push('}');
                assert(out@ =~= start + render_json_below(es, *opts, i as int, depth as nat));
                return;
            }
        },
        None => {},
    }
    let (shown_list, other) = split_for_collapse(t, kid_list, opts.collapse_under);
    push_str(out, ",\"children\":[");
    write_json_kids(t, i, depth, opts, &shown_list, out);
    out.push(']');
    match other {
        Some((count, size)) => {
            push_json_hidden(count, size, out);
        },
        None => {},
    }
    out.push('}');
    assert(out@ =~= start + render_json_below(es, *opts, i as int, depth as nat));
}

/// Appends the JSON nodes of the printed children `shown_list` of entry `i`.
fn write_json_kids(
    t: &Forest,
    i: usize,
    depth: usize,
    opts: &PrintOptions,
    shown_list: &Vec<usize>,
    out: &mut Vec<char>,
)
    requires
        t.wf(),
        t.mode == opts.sort,
        opts.max_depth is Some ==> counts_fit(t.es@),
        i < t.es@.len(),
        depth < usize::MAX,
        depth <= t.es@[i as int].path.len(),
        ints(shown_list@) == shown_only(
            t.es@,
            opts.collapse_under,
            kids(t.es@, opts.sort, i as int),
        ),
    ensures
        final(out)@ == old(out)@ + render_json_kids(
            t.es@,
            *opts,
            i as int,
            depth as nat,
            shown_list@.len() as int,
        ),
    decreases max_path_len(t.es@) - t.es@[i as int].path.len(), 1int,
{
    let ghost es = t.es@;
    let ghost start = out@;
    let ghost sk = ints(shown_list@);
    proof {
        lemma_shown_deeper(es, *opts, i as int);
    }
    let mut k: usize = 0;
    assert(out@ =~= start + render_json_kids(es, *opts, i as int, depth as nat, 0));
    while k < shown_list.len()
        invariant
            t.wf(),
            es == t.es@,
            t.mode == opts.sort,
            opts.max_depth is Some ==> counts_fit(t.es@),
            i < es.len(),
            depth < usize::MAX,
            depth <= es[i as int].path.len(),
            sk == ints(shown_list@),
            sk == shown_only(es, opts.collapse_under, kids(es, opts.sort, i as int)),
            k <= shown_list@.len(),
            forall|q: int|
                0 <= q < sk.len() ==> {
                    let c = #[trigger] sk[q];
                    &&& 0 <= c < es.len()
                    &&& es[i as int].path.len() < es[c].path.len() <= max_path_len(es)
                },
            out@ == start + render_json_kids(es, *opts, i as int, depth as nat, k as int),
        decreases shown_list@.len() - k,
    {
        let c = shown_list[k];
        assert(sk[k as int] == c as int);
        if k > 0 {
            out.push(',');
        }
        write_json_entry(t, c, depth + 1, opts, out);
        k = k + 1;
    }
}

/// Prints the entries as a JSON array of root nodes. Each node has `path`,
/// `name` (the last component), `size` and `children`; what `opts` folds away
/// shows up as a `hidden` member (`count` and total `size`) on the node whose
/// descendants were folded, instead of being dropped.
pub fn print_tree_json(entries: &[Entry], opts: &PrintOptions) -> (s: String)
    requires
        opts.max_depth is Some ==> counts_fit(views(entries@)),
    ensures
        s@ == tree_json(views(entries@), *opts),
{
    let t = build_tree(entries, opts.sort);
    let ghost es = t.es@;
    let mut out: Vec<char> = Vec::new();
    out.push('[');
    let ghost rs = roots(es, opts.sort);
    proof {
        lemma_select_members(es, opts.sort, |j: int| is_root(es, j), es.len());
    }
    let mut k: usize = 0;
    assert(out@ =~= seq!['['] + json_roots(es, *opts, 0));
    while k < t.roots.len()
        invariant
            t.wf(),
            es == t.es@,
            t.mode == opts.sort,
            opts.max_depth is Some ==> counts_fit(t.es@),
            rs == roots(es, opts.sort),
            ints(t.roots@) == rs,
            k <= t.roots@.len(),
            forall|q: int| 0 <= q < rs.len() ==> 0 <= #[trigger] rs[q] < es.len(),
            out@ == seq!['['] + json_roots(es, *opts, k as int),
        decreases t.roots@.len() - k,
    {
        let r = t.roots[k];
        assert(rs[k as int] == r as int);
        if k > 0 {
            out.push(',');
        }
        write_json_entry(&t, r, 0, opts, &mut out);
        k = k + 1;
        assert(out@ =~= seq!['['] + json_roots(es, *opts, k as int));
    }
    out.push(']');
    assert(out@ =~= tree_json(es, *opts));
    string_of(&out)
}

} // verus!

verus! {

/// The last component of `path`.
pub fn basename(path: &str) -> (r: String)
    ensures
        r@ == base_name(path@),
{
    let p = crate::text::chars_of(path);
    let b = basename_start(&p);
    let mut v: Vec<char> = Vec::new();
    push_range(&mut v, &p, b, p.len());
    assert(p@.subrange(b as int, p@.len() as int) =~= p@.skip(b as int));
    string_of(&v)
}

} // verus!

verus! {

/// No element of `s` is followed by one that sorts strictly before it.
pub open spec fn in_order(es: Seq<EntryView>, mode: SortMode, s: Seq<int>) -> bool {
    forall|a: int, b: int| 0 <= a < b < s.len() ==> !sib_before(es, mode, #[trigger] s[b], #[trigger] s[a])
}

/// `lex_lt` is irreflexive and transitive.
pub proof fn lemma_lex_lt_order(a: Seq<char>, b: Seq<char>, c: Seq<char>)
    ensures
        !lex_lt(a, a),
        lex_lt(a, b) && lex_lt(b, c) ==> lex_lt(a, c),
    decreases a.len(),
{
    if a.len() > 0 {
        lemma_lex_lt_order(a.drop_first(), a.drop_first(), a.drop_first());
        if b.len() > 0 && c.len() > 0 {
            lemma_lex_lt_order(a.drop_first(), b.drop_first(), c.drop_first());
        }
    }
}

/// Sorting before is irreflexive and transitive.
pub proof fn lemma_sib_before_order(es: Seq<EntryView>, mode: SortMode, a: int, b: int, c: int)
    ensures
        !sib_before(es, mode, a, a),
        sib_before(es, mode, a, b) && sib_before(es, mode, b, c) ==> sib_before(es, mode, a, c),
{
    lemma_lex_lt_order(es[a].path, es[b].path, es[c].path);
    lemma_lex_lt_order(base_name(es[a].path), base_name(es[b].path), base_name(es[c].path));
}

/// Of two different texts, one comes before the other.
pub proof fn lemma_lex_lt_total(a: Seq<char>, b: Seq<char>)
    ensures
        a == b || lex_lt(a, b) || lex_lt(b, a),
    decreases a.len(),
{
    if a.len() > 0 && b.len() > 0 && a[0] == b[0] {
        lemma_lex_lt_total(a.drop_first(), b.drop_first());
        if a.drop_first() == b.drop_first() {
            assert forall|k: int| 0 <= k < a.len() implies a[k] == b[k] by {
                if k > 0 {
                    assert(a[k] == a.drop_first()[k - 1]);
                    assert(b[k] == b.drop_first()[k - 1]);
                }
            }
            assert(a =~= b);
        }
    } else if a.len() > 0 && b.len() > 0 {
        vstd::utf8::char_u32_cast(a[0], a[0] as u32);
        vstd::utf8::char_u32_cast(b[0], b[0] as u32);
    } else if a.len() == 0 && b.len() == 0 {
        assert(a =~= b);
    }
}

/// Whatever sorts between two entries sorts after the first or before the
/// last (sorting before is a strict weak order).
pub proof fn lemma_sib_before_neg_trans(es: Seq<EntryView>, mode: SortMode, a: int, b: int, c: int)
    requires
        sib_before(es, mode, a, c),
    ensures
        sib_before(es, mode, a, b) || sib_before(es, mode, b, c),
{
    let (pa, pb, pc) = match mode {
        SortMode::Size => (es[a].path, es[b].path, es[c].path),
        SortMode::Name => (base_name(es[a].path), base_name(es[b].path), base_name(es[c].path)),
    };
    lemma_lex_lt_total(pa, pb);
    lemma_lex_lt_order(pb, pa, pc);
}

/// Placing an entry into a sorted list keeps it sorted.
pub proof fn lemma_insert_in_order(es: Seq<EntryView>, mode: SortMode, s: Seq<int>, x: int)
    requires
        in_order(es, mode, s),
    ensures
        in_order(es, mode, insert_sorted(es, mode, s, x)),
    decreases s.len(),
{
    let r = insert_sorted(es, mode, s, x);
    if s.len() == 0 {
    } else if sib_before(es, mode, x, s[0]) {
        assert forall|a: int, b: int| 0 <= a < b < r.len() implies !sib_before(
            es,
            mode,
            #[trigger] r[b],
            #[trigger] r[a],
        ) by {
            if a == 0 {
                lemma_sib_before_order(es, mode, s[b - 1], x, s[0]);
                lemma_sib_before_order(es, mode, x, s[0], x);
                if b - 1 > 0 {
                    assert(!sib_before(es, mode, s[b - 1], s[0]));
                }
            } else {
                assert(r[b] == s[b - 1] && r[a] == s[a - 1]);
            }
        }
    } else {
        let t = s.drop_first();
        assert(in_order(es, mode, t)) by {
            assert forall|a: int, b: int| 0 <= a < b < t.len() implies !sib_before(
                es,
                mode,
                #[trigger] t[b],
                #[trigger] t[a],
            ) by {
                assert(t[b] == s[b + 1] && t[a] == s[a + 1]);
            }
        }
        lemma_insert_in_order(es, mode, t, x);
        lemma_insert_members(es, mode, t, x);
        let rt = insert_sorted(es, mode, t, x);
        assert forall|a: int, b: int| 0 <= a < b < r.len() implies !sib_before(
            es,
            mode,
            #[trigger] r[b],
            #[trigger] r[a],
        ) by {
            if a == 0 {
                assert(r[b] == rt[b - 1]);
                if rt[b - 1] != x {
                    let w = choose|w: int| 0 <= w < t.len() && t[w] == rt[b - 1];
                    assert(s[w + 1] == r[b]);
                }
            } else {
                assert(r[b] == rt[b - 1] && r[a] == rt[a - 1]);
            }
        }
    }
}

/// A stable selection comes out sorted.
pub proof fn lemma_select_in_order(
    es: Seq<EntryView>,
    mode: SortMode,
    sel: spec_fn(int) -> bool,
    j: nat,
)
    ensures
        in_order(es, mode, select_sorted(es, mode, sel, j)),
    decreases j,
{
    if j > 0 {
        lemma_select_in_order(es, mode, sel, (j - 1) as nat);
        if sel(j - 1) {
            lemma_insert_in_order(es, mode, select_sorted(es, mode, sel, (j - 1) as nat), j - 1);
        }
    }
}

/// Folding away small children keeps the printed ones in their order.
pub proof fn lemma_shown_in_order(es: Seq<EntryView>, mode: SortMode, cu: Option<u64>, ks: Seq<int>)
    requires
        in_order(es, mode, ks),
    ensures
        in_order(es, mode, shown_only(es, cu, ks)),
    decreases ks.len(),
{
    if ks.len() > 0 {
        let prev = ks.drop_last();
        assert(in_order(es, mode, prev)) by {
            assert forall|a: int, b: int| 0 <= a < b < prev.len() implies !sib_before(
                es,
                mode,
                #[trigger] prev[b],
                #[trigger] prev[a],
            ) by {
                assert(prev[b] == ks[b] && prev[a] == ks[a]);
            }
        }
        lemma_shown_in_order(es, mode, cu, prev);
        lemma_shown_members(es, cu, prev);
        let p = shown_only(es, cu, prev);
        let r = shown_only(es, cu, ks);
        assert forall|a: int, b: int| 0 <= a < b < r.len() implies !sib_before(
            es,
            mode,
            #[trigger] r[b],
            #[trigger] r[a],
        ) by {
            if b == p.len() {
                let w = choose|w: int| 0 <= w < prev.len() && prev[w] == p[a];
                assert(ks[w] == r[a]);
                assert(r[b] == ks[ks.len() - 1]);
            } else {
                assert(r[b] == p[b] && r[a] == p[a]);
            }
        }
    }
}

/// Of the entries `ks`, the printed ones are those at least the threshold,
/// and together with the folded ones they account for all of `ks` and for
/// their total size.
proof fn lemma_shown_and_hidden(es: Seq<EntryView>, cu: Option<u64>, ks: Seq<int>)
    ensures
        shown_only(es, cu, ks).len() + hidden_count(es, cu, ks) == ks.len(),
        size_sum(es, shown_only(es, cu, ks)) + hidden_size(es, cu, ks) == size_sum(es, ks),
        forall|k: int|
            0 <= k < shown_only(es, cu, ks).len() ==> shown(
                cu,
                es[#[trigger] shown_only(es, cu, ks)[k]].size,
            ),
        forall|k: int|
            0 <= k < ks.len() && shown(cu, es[ks[k]].size) ==> shown_only(es, cu, ks).contains(
                #[trigger] ks[k],
            ),
    decreases ks.len(),
{
    if ks.len() > 0 {
        let prev = ks.drop_last();
        let x = ks.last();
        lemma_shown_and_hidden(es, cu, prev);
        let p = shown_only(es, cu, prev);
        let r = shown_only(es, cu, ks);
        if shown(cu, es[x].size) {
            assert(r.drop_last() =~= p);
            assert(r.last() == x);
        }
        assert forall|k: int| 0 <= k < ks.len() && shown(cu, es[ks[k]].size) implies r.contains(
            #[trigger] ks[k],
        ) by {
            if k < prev.len() {
                assert(prev[k] == ks[k]);
                assert(p.contains(prev[k]));
                let w = choose|w: int| 0 <= w < p.len() && p[w] == prev[k];
                assert(r[w] == p[w]);
            } else {
                assert(r[r.len() - 1] == x);
            }
        }
        assert forall|k: int| 0 <= k < r.len() implies shown(cu, es[#[trigger] r[k]].size) by {
            if k < p.len() {
                assert(r[k] == p[k]);
            }
        }
    }
}

/// `collapse_under` drops nothing silently: of an entry's children, exactly
/// those whose size is at least the threshold are printed (all of them when
/// there is no threshold), each of the others is counted in
/// the summary line, and the printed children and the summary together
/// account for every child and for the children's total size.
pub proof fn law_collapse_accounts_for_every_child(
    es: Seq<EntryView>,
    mode: SortMode,
    cu: Option<u64>,
    i: int,
)
    ensures
        ({
            let ks = kids(es, mode, i);
            let sh = shown_only(es, cu, ks);
            &&& sh.len() + hidden_count(es, cu, ks) == ks.len()
            &&& size_sum(es, sh) + hidden_size(es, cu, ks) == size_sum(es, ks)
            &&& forall|k: int|
                0 <= k < sh.len() ==> match cu {
                    Some(t) => es[#[trigger] sh[k]].size >= t,
                    None => true,
                }
            &&& forall|k: int|
                0 <= k < ks.len() && match cu {
                    Some(t) => es[ks[k]].size >= t,
                    None => true,
                } ==> sh.contains(#[trigger] ks[k])
        }),
{
    lemma_shown_and_hidden(es, cu, kids(es, mode, i));
}

/// Siblings, and roots, are printed in sort order: by default biggest first
/// (equal sizes by path), with `--sort=name` alphabetically by name: no entry
/// is printed after a sibling that sorts strictly before it, also when
/// `collapse_under` folds some of them away.
pub proof fn law_siblings_in_order(es: Seq<EntryView>, mode: SortMode, cu: Option<u64>, i: int)
    ensures
        in_order(es, mode, kids(es, mode, i)),
        in_order(es, mode, shown_only(es, cu, kids(es, mode, i))),
        in_order(es, mode, roots(es, mode)),
{
    lemma_select_in_order(es, mode, |j: int| is_child(es, j, i), es.len());
    lemma_select_in_order(es, mode, |j: int| is_root(es, j), es.len());
    lemma_shown_in_order(es, mode, cu, kids(es, mode, i));
}

} // verus!

verus! {

/// An entry whose path is another entry's path, a `/` and a name without
/// `/` hangs under that entry: it is one of its children, in every sort
/// order, and not a root.
pub proof fn law_entry_hangs_under_its_directory(
    es: Seq<EntryView>,
    mode: SortMode,
    i: int,
    j: int,
    name: Seq<char>,
)
    requires
        0 <= i < es.len(),
        0 <= j < es.len(),
        es[i].path.len() > 0,
        name.len() > 0,
        !name.contains('/'),
        es[j].path == es[i].path + seq!['/'] + name,
    ensures
        is_child(es, j, i),
        kids(es, mode, i).contains(j),
        !is_root(es, j),
{
    crate::parser::law_parent_is_what_precedes_the_last_slash(es[i].path, name, es[i].path);
    crate::coverage::lemma_select_complete(es, mode, |c: int| is_child(es, c, i), es.len());
    assert(has_path(es, es[i].path));
}

/// Whether `a` and `b` agree on their first `k` characters and then `a`
/// ends while `b` goes on, or `a`'s next character has the smaller code
/// point: the order of `str::cmp`.
pub open spec fn str_before_at(a: Seq<char>, b: Seq<char>, k: int) -> bool {
    &&& 0 <= k <= a.len()
    &&& k <= b.len()
    &&& a.take(k) == b.take(k)
    &&& ((k == a.len() && k < b.len()) || (k < a.len() && k < b.len() && (a[k] as u32) < (
        b[k] as u32)))
}

/// Names are ordered as `str::cmp` orders strings: `a` comes before `b`
/// exactly when, after their common first characters, `a` ends while `b` goes
/// on or `a`'s next character has the smaller code point. So a proper prefix
/// comes first: `lib` before `lib64`.
pub proof fn law_name_order_is_str_order(a: Seq<char>, b: Seq<char>, s: Seq<char>)
    ensures
        lex_lt(a, b) <==> exists|k: int| #[trigger] str_before_at(a, b, k),
        s.len() > 0 ==> lex_lt(a, a + s) && !lex_lt(a + s, a),
    decreases a.len(),
{
    if a.len() == 0 {
        if b.len() > 0 {
            assert(a.take(0) =~= b.take(0));
            assert(str_before_at(a, b, 0));
        }
    } else if b.len() == 0 {
        if exists|k: int| #[trigger] str_before_at(a, b, k) {
            let k = choose|k: int| #[trigger] str_before_at(a, b, k);
            assert(k == 0);
        }
    } else if a[0] != b[0] {
        assert(a.take(0) =~= b.take(0));
        if (a[0] as u32) < (b[0] as u32) {
            assert(str_before_at(a, b, 0));
        }
        if exists|k: int| #[trigger] str_before_at(a, b, k) {
            let k = choose|k: int| #[trigger] str_before_at(a, b, k);
            if k > 0 {
                assert(a.take(k)[0] == b.take(k)[0]);
            }
        }
    } else {
        let a1 = a.drop_first();
        let b1 = b.drop_first();
        law_name_order_is_str_order(a1, b1, s);
        if lex_lt(a1, b1) {
            let k = choose|k: int| #[trigger] str_before_at(a1, b1, k);
            assert(a.take(k + 1) =~= seq![a[0]] + a1.take(k));
            assert(b.take(k + 1) =~= seq![b[0]] + b1.take(k));
            assert(str_before_at(a, b, k + 1));
        }
        if exists|k: int| #[trigger] str_before_at(a, b, k) {
            let k = choose|k: int| #[trigger] str_before_at(a, b, k);
            assert(k > 0);
            assert(a1.take(k - 1) =~= a.take(k).drop_first());
            assert(b1.take(k - 1) =~= b.take(k).drop_first());
            assert(str_before_at(a1, b1, k - 1));
        }
    }
    if s.len() > 0 {
        let t = a + s;
        assert(t.take(a.len() as int) =~= a);
        assert(a.take(a.len() as int) =~= a);
        assert(str_before_at(a, t, a.len() as int));
        lemma_name_order_prefix(a, s);
    }
}

/// How siblings are ordered, in plain terms: by size, a bigger entry comes
/// before a smaller one, and of two of the same size the one whose path comes
/// first in `str` order; by name, the one whose last component comes first
/// in `str` order.
pub proof fn law_sibling_order_is_size_then_path(es: Seq<EntryView>, a: int, b: int)
    ensures
        es[a].size > es[b].size ==> sib_before(es, SortMode::Size, a, b),
        es[a].size < es[b].size ==> !sib_before(es, SortMode::Size, a, b),
        es[a].size == es[b].size ==> (sib_before(es, SortMode::Size, a, b) <==> exists|k: int|
            #[trigger] str_before_at(es[a].path, es[b].path, k)),
        sib_before(es, SortMode::Name, a, b) <==> exists|k: int|
            #[trigger] str_before_at(base_name(es[a].path), base_name(es[b].path), k),
{
    let e = Seq::<char>::empty();
    law_name_order_is_str_order(es[a].path, es[b].path, e);
    law_name_order_is_str_order(base_name(es[a].path), base_name(es[b].path), e);
}

/// A string is first among itself extended.
proof fn lemma_name_order_prefix(a: Seq<char>, s: Seq<char>)
    requires
        s.len() > 0,
    ensures
        lex_lt(a, a + s),
        !lex_lt(a + s, a),
    decreases a.len(),
{
    if a.len() > 0 {
        lemma_name_order_prefix(a.drop_first(), s);
        assert((a + s).drop_first() =~= a.drop_first() + s);
        assert((a + s)[0] == a[0]);
    }
}

} // verus!

verus! {

/// The roots of the tree are exactly the entries whose parent directory is
/// not the path of any entry (or that have none), each printed as a root in
/// every sort order.
pub proof fn law_roots_are_entries_without_parent_entry(es: Seq<EntryView>, mode: SortMode, j: int)
    requires
        0 <= j < es.len(),
    ensures
        is_root(es, j) <==> (parent_of(es[j].path) is None || forall|k: int|
            0 <= k < es.len() ==> es[k].path != parent_of(es[j].path)->0),
        is_root(es, j) <==> roots(es, mode).contains(j),
{
    crate::coverage::lemma_select_complete(es, mode, |c: int| is_root(es, c), es.len());
    lemma_select_members(es, mode, |c: int| is_root(es, c), es.len());
    if let Some(q) = parent_of(es[j].path) {
        if has_path(es, q) {
            let k = choose|k: int| 0 <= k < es.len() && #[trigger] es[k].path == q;
            assert(es[k].path == q);
        }
    }
    if roots(es, mode).contains(j) {
        let w = choose|w: int| 0 <= w < roots(es, mode).len() && roots(es, mode)[w] == j;
        assert(is_root(es, roots(es, mode)[w]));
    }
}

} // verus!
