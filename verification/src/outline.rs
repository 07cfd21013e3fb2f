//! The text tree and the JSON array show one outline: the same entries, in
//! the same order and nesting, with the same summaries of what is folded.

use vstd::prelude::*;
use crate::parser::EntryView;
use crate::text::decimal;
use crate::printer::{PrintOptions, kids, roots, is_root, limited, shown_only, hidden_count, hidden_size, desc_count, size_sum, lemma_shown_deeper, lemma_select_members, max_path_len, entry_line, other_line, render, render_kids, roots_text, tree_text, render_json, render_json_below, render_json_kids, json_roots, tree_json, json_string, base_name, hidden_json};

verus! {

/// What printing an entry shows: the entry, the shapes of its printed
/// children in order, and the count and total size of what is folded away
/// below it, if anything is.
pub struct Shape {
    pub entry: int,
    pub kids: Seq<Shape>,
    pub hidden: Option<(nat, nat)>,
}

/// The shape of entry `i` printed at `depth` with the options `opts`.
pub open spec fn shape_of(es: Seq<EntryView>, opts: PrintOptions, i: int, depth: nat) -> Shape
    decreases max_path_len(es) - es[i].path.len(), 3int, 0int,
{
    let ks = kids(es, opts.sort, i);
    let cu = opts.collapse_under;
    Shape {
        entry: i,
        kids: if ks.len() == 0 || limited(opts, depth) {
            Seq::empty()
        } else {
            shape_kids(es, opts, i, depth, shown_only(es, cu, ks).len() as int)
        },
        hidden: if ks.len() == 0 {
            None
        } else if limited(opts, depth) {
            Some((desc_count(es, i), size_sum(es, ks)))
        } else if hidden_count(es, cu, ks) > 0 {
            Some((hidden_count(es, cu, ks), hidden_size(es, cu, ks)))
        } else {
            None
        },
    }
}

/// The shapes of the first `k` printed children of entry `i` (printed at
/// `depth`).
pub open spec fn shape_kids(es: Seq<EntryView>, opts: PrintOptions, i: int, depth: nat, k: int) -> Seq<
    Shape,
>
    decreases max_path_len(es) - es[i].path.len(), 1int, k,
{
    let sk = shown_only(es, opts.collapse_under, kids(es, opts.sort, i));
    if k <= 0 || k > sk.len() {
        Seq::empty()
    } else {
        shape_kids(es, opts, i, depth, k - 1).push(
            {
                proof {
                    lemma_shown_deeper(es, opts, i);
                }
                shape_of(es, opts, sk[k - 1], depth + 1)
            },
        )
    }
}

/// The shapes of the first `k` roots.
pub open spec fn root_shapes(es: Seq<EntryView>, opts: PrintOptions, k: int) -> Seq<Shape>
    decreases k,
{
    let rs = roots(es, opts.sort);
    if k <= 0 || k > rs.len() {
        Seq::empty()
    } else {
        root_shapes(es, opts, k - 1).push(shape_of(es, opts, rs[k - 1], 0))
    }
}

/// The text lines of a shape at `depth`: the entry's line, its children's
/// lines one level deeper, then the summary line, if any.
pub open spec fn shape_text(es: Seq<EntryView>, s: Shape, depth: nat) -> Seq<char>
    decreases s, 1int, 0int,
{
    entry_line(es[s.entry], depth) + shapes_text(es, s.kids, depth + 1, s.kids.len() as int) + match s.hidden {
        Some((c, z)) => other_line(c, z, depth + 1),
        None => Seq::empty(),
    }
}

/// The text lines of the first `k` shapes of `ks`, at `depth`.
pub open spec fn shapes_text(es: Seq<EntryView>, ks: Seq<Shape>, depth: nat, k: int) -> Seq<char>
    decreases ks, 0int, k,
{
    if k <= 0 || k > ks.len() {
        Seq::empty()
    } else {
        shapes_text(es, ks, depth, k - 1) + shape_text(es, ks[k - 1], depth)
    }
}

/// The JSON node of a shape: the entry's path, name and size, its children's
/// nodes, then the `hidden` member, if any.
pub open spec fn shape_json(es: Seq<EntryView>, s: Shape) -> Seq<char>
    decreases s, 1int, 0int,
{
    let e = es[s.entry];
    "{\"path\":"@ + json_string(e.path) + ",\"name\":"@ + json_string(base_name(e.path))
        + ",\"size\":"@ + decimal(e.size as nat) + ",\"children\":["@ + shapes_json(
        es,
        s.kids,
        s.kids.len() as int,
    ) + seq![']'] + match s.hidden {
        Some((c, z)) => hidden_json(c, z),
        None => Seq::empty(),
    } + seq!['}']
}

/// The JSON nodes of the first `k` shapes of `ks`, separated by commas.
pub open spec fn shapes_json(es: Seq<EntryView>, ks: Seq<Shape>, k: int) -> Seq<char>
    decreases ks, 0int, k,
{
    if k <= 0 || k > ks.len() {
        Seq::empty()
    } else {
        shapes_json(es, ks, k - 1) + (if k > 1 {
            seq![',']
        } else {
            Seq::empty()
        }) + shape_json(es, ks[k - 1])
    }
}

/// The first `k` children's shapes are the shapes of the first `k` printed
/// children.
proof fn lemma_shape_kids(es: Seq<EntryView>, opts: PrintOptions, i: int, depth: nat, k: int)
    requires
        0 <= k <= shown_only(es, opts.collapse_under, kids(es, opts.sort, i)).len(),
    ensures
        ({
            let sk = shown_only(es, opts.collapse_under, kids(es, opts.sort, i));
            let s = shape_kids(es, opts, i, depth, k);
            &&& s.len() == k
            &&& forall|j: int| 0 <= j < k ==> #[trigger] s[j] == shape_of(es, opts, sk[j], depth + 1)
        }),
    decreases k,
{
    if k > 0 {
        lemma_shape_kids(es, opts, i, depth, k - 1);
    }
}

/// A prefix of shapes prints as the same prefix of a longer list.
proof fn lemma_shapes_prefix(es: Seq<EntryView>, a: Seq<Shape>, b: Seq<Shape>, depth: nat, k: int)
    requires
        0 <= k <= a.len(),
        k <= b.len(),
        forall|j: int| 0 <= j < k ==> #[trigger] a[j] == b[j],
    ensures
        shapes_text(es, a, depth, k) == shapes_text(es, b, depth, k),
        shapes_json(es, a, k) == shapes_json(es, b, k),
    decreases k,
{
    if k > 0 {
        lemma_shapes_prefix(es, a, b, depth, k - 1);
        assert(a[k - 1] == b[k - 1]);
    }
}

/// Entry `i`'s text is its shape's text, and its JSON node its shape's node.
proof fn lemma_render_shape(es: Seq<EntryView>, opts: PrintOptions, i: int, depth: nat)
    requires
        0 <= i < es.len(),
    ensures
        render(es, opts, i, depth) == shape_text(es, shape_of(es, opts, i, depth), depth),
        render_json(es, opts, i, depth) == shape_json(es, shape_of(es, opts, i, depth)),
    decreases max_path_len(es) - es[i].path.len(), 1int, 0int,
{
    let ks = kids(es, opts.sort, i);
    let cu = opts.collapse_under;
    let s = shape_of(es, opts, i, depth);
    if ks.len() == 0 || limited(opts, depth) {
        assert(shapes_text(es, s.kids, depth + 1, 0) =~= Seq::<char>::empty());
        assert(render(es, opts, i, depth) =~= shape_text(es, s, depth));
        assert(shapes_json(es, s.kids, 0) =~= Seq::<char>::empty());
        reveal_strlit(",\"children\":[]}");
        reveal_strlit(",\"children\":[]");
        reveal_strlit(",\"children\":[");
        assert(",\"children\":[]}"@ =~= ",\"children\":["@ + seq![']'] + seq!['}']);
        assert(",\"children\":[]"@ =~= ",\"children\":["@ + seq![']']);
        assert(render_json(es, opts, i, depth) =~= shape_json(es, s));
    } else {
        let n = shown_only(es, cu, ks).len() as int;
        lemma_shape_kids(es, opts, i, depth, n);
        lemma_kids_shape(es, opts, i, depth, n);
        assert(render(es, opts, i, depth) =~= shape_text(es, s, depth));
        assert(s.kids.len() == n);
        let hid = match s.hidden {
            Some((c, z)) => hidden_json(c, z),
            None => Seq::<char>::empty(),
        };
        assert(render_json_kids(es, opts, i, depth, n) == shapes_json(es, s.kids, n));
        assert(render_json_below(es, opts, i, depth) == ",\"children\":["@ + shapes_json(
            es,
            s.kids,
            n,
        ) + seq![']'] + hid + seq!['}']);
        assert(render_json(es, opts, i, depth) =~= shape_json(es, s));
    }
}

/// The printed children of `i` print as their shapes do.
proof fn lemma_kids_shape(es: Seq<EntryView>, opts: PrintOptions, i: int, depth: nat, k: int)
    requires
        0 <= i < es.len(),
        0 <= k <= shown_only(es, opts.collapse_under, kids(es, opts.sort, i)).len(),
    ensures
        ({
            let ss = shape_kids(
                es,
                opts,
                i,
                depth,
                shown_only(es, opts.collapse_under, kids(es, opts.sort, i)).len() as int,
            );
            &&& render_kids(es, opts, i, depth, k) == shapes_text(es, ss, depth + 1, k)
            &&& render_json_kids(es, opts, i, depth, k) == shapes_json(es, ss, k)
        }),
    decreases max_path_len(es) - es[i].path.len(), 0int, k,
{
    let sk = shown_only(es, opts.collapse_under, kids(es, opts.sort, i));
    let ss = shape_kids(es, opts, i, depth, sk.len() as int);
    if k > 0 {
        lemma_shape_kids(es, opts, i, depth, sk.len() as int);
        lemma_shown_deeper(es, opts, i);
        lemma_kids_shape(es, opts, i, depth, k - 1);
        lemma_render_shape(es, opts, sk[k - 1], depth + 1);
        assert(ss[k - 1] == shape_of(es, opts, sk[k - 1], depth + 1));
    }
}

/// The roots print as their shapes do.
proof fn lemma_roots_shape(es: Seq<EntryView>, opts: PrintOptions, k: int)
    requires
        0 <= k <= roots(es, opts.sort).len(),
    ensures
        ({
            let all = root_shapes(es, opts, roots(es, opts.sort).len() as int);
            &&& roots_text(es, opts, k) == shapes_text(es, all, 0, k)
            &&& json_roots(es, opts, k) == shapes_json(es, all, k)
        }),
    decreases k,
{
    let rs = roots(es, opts.sort);
    let all = root_shapes(es, opts, rs.len() as int);
    if k > 0 {
        lemma_roots_shape(es, opts, k - 1);
        lemma_root_shapes(es, opts, rs.len() as int);
        lemma_select_members(es, opts.sort, |j: int| is_root(es, j), es.len());
        lemma_render_shape(es, opts, rs[k - 1], 0);
        assert(all[k - 1] == shape_of(es, opts, rs[k - 1], 0));
    }
}

/// The first `k` root shapes are the shapes of the first `k` roots.
proof fn lemma_root_shapes(es: Seq<EntryView>, opts: PrintOptions, k: int)
    requires
        0 <= k <= roots(es, opts.sort).len(),
    ensures
        root_shapes(es, opts, k).len() == k,
        forall|j: int|
            0 <= j < k ==> #[trigger] root_shapes(es, opts, k)[j] == shape_of(
                es,
                opts,
                roots(es, opts.sort)[j],
                0,
            ),
    decreases k,
{
    if k > 0 {
        lemma_root_shapes(es, opts, k - 1);
    }
}

/// The JSON array and the text tree show the same outline: both print one
/// list of root shapes, so the JSON nodes, taken in order, are the text's
/// entry lines, each at the nesting of its line's indentation, and a node
/// has a `hidden` member with a count and a size exactly when its entry's
/// lines end with a summary line of that count and size.
pub proof fn law_json_and_text_show_one_outline(es: Seq<EntryView>, opts: PrintOptions)
    ensures
        ({
            let shapes = root_shapes(es, opts, roots(es, opts.sort).len() as int);
            &&& tree_text(es, opts) == shapes_text(es, shapes, 0, shapes.len() as int)
            &&& tree_json(es, opts) == seq!['['] + shapes_json(es, shapes, shapes.len() as int)
                + seq![']']
        }),
{
    let n = roots(es, opts.sort).len() as int;
    lemma_root_shapes(es, opts, n);
    lemma_roots_shape(es, opts, n);
}

} // verus!
