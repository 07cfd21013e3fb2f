//! The command line: one optional input path and `--flag=value` options.
//! Only one positional argument (the report path) is accepted; everything else
//! must be a recognized flag, so typos fail loudly instead of being read as a
//! second file path.

use vstd::prelude::*;
use crate::parser::SizeUnit;
use crate::printer::{PrintOptions, SortMode};
use crate::text::{chars_of, string_of, push_str, push_all, push_range, copy_range, debug_quote, debug_quoted, parse_unsigned, parse_unsigned_at};

verus! {

/// What the command line asks for.
#[derive(Debug)]
pub struct CommandLine {
    pub opts: PrintOptions,
    pub unit: SizeUnit,
    pub json: bool,
    pub path: Option<String>,
}

/// What the command line asks for, as plain values.
pub struct CommandView {
    pub max_depth: Option<usize>,
    pub collapse_under: Option<u64>,
    pub sort: SortMode,
    pub unit: SizeUnit,
    pub json: bool,
    pub path: Option<Seq<char>>,
}

/// The plain values of a command line.
pub open spec fn command_view(c: CommandLine) -> CommandView {
    CommandView {
        max_depth: c.opts.max_depth,
        collapse_under: c.opts.collapse_under,
        sort: c.opts.sort,
        unit: c.unit,
        json: c.json,
        path: match c.path {
            Some(p) => Some(p@),
            None => None,
        },
    }
}

/// Before any argument: no limits, biggest first, sizes in bytes, text
/// output, standard input.
pub open spec fn command_start() -> CommandView {
    CommandView {
        max_depth: None,
        collapse_under: None,
        sort: SortMode::Size,
        unit: SizeUnit::Bytes,
        json: false,
        path: None,
    }
}

/// Whether `s` starts with `p`.
pub open spec fn has_prefix(s: Seq<char>, p: Seq<char>) -> bool {
    p.len() <= s.len() && s.take(p.len() as int) == p
}

/// What one argument changes, or the message it is refused with.
pub open spec fn command_step(st: CommandView, arg: Seq<char>) -> Result<CommandView, Seq<char>> {
    if has_prefix(arg, "--max-depth="@) {
        let value = arg.skip("--max-depth="@.len() as int);
        match parse_unsigned(value, usize::MAX as nat) {
            Some(d) => Ok(CommandView { max_depth: Some(d as usize), ..st }),
            None => Err("invalid --max-depth value "@ + debug_quoted(value)),
        }
    } else if has_prefix(arg, "--collapse-under="@) {
        let value = arg.skip("--collapse-under="@.len() as int);
        match parse_unsigned(value, u64::MAX as nat) {
            Some(t) => Ok(CommandView { collapse_under: Some(t as u64), ..st }),
            None => Err("invalid --collapse-under value "@ + debug_quoted(value)),
        }
    } else if has_prefix(arg, "--sort="@) {
        let value = arg.skip("--sort="@.len() as int);
        if value == "size"@ {
            Ok(CommandView { sort: SortMode::Size, ..st })
        } else if value == "name"@ {
            Ok(CommandView { sort: SortMode::Name, ..st })
        } else {
            Err("invalid --sort value "@ + debug_quoted(value) + " (expected \"size\" or \"name\")"@)
        }
    } else if has_prefix(arg, "--size-unit="@) {
        let value = arg.skip("--size-unit="@.len() as int);
        if value == "bytes"@ {
            Ok(CommandView { unit: SizeUnit::Bytes, ..st })
        } else if value == "blocks"@ {
            Ok(CommandView { unit: SizeUnit::Blocks512, ..st })
        } else {
            Err("invalid --size-unit value "@ + debug_quoted(value)
                + " (expected \"bytes\" or \"blocks\")"@)
        }
    } else if arg == "--json"@ {
        Ok(CommandView { json: true, ..st })
    } else if has_prefix(arg, "--"@) {
        Err("unknown flag --"@ + arg.skip("--"@.len() as int))
    } else if st.path is Some {
        Err("only one input path may be given"@)
    } else {
        Ok(CommandView { path: Some(arg), ..st })
    }
}

/// What the arguments `args` ask for, read in order; the first refused one
/// stops the reading.
pub open spec fn read_command(args: Seq<Seq<char>>) -> Result<CommandView, Seq<char>>
    decreases args.len(),
{
    if args.len() == 0 {
        Ok(command_start())
    } else {
        match read_command(args.drop_last()) {
            Err(m) => Err(m),
            Ok(st) => command_step(st, args.last()),
        }
    }
}

/// The characters of each argument.
pub open spec fn arg_views(args: Seq<String>) -> Seq<Seq<char>> {
    args.map_values(|a: String| a@)
}

/// Whether `s` starts with `p`.
fn starts_with(s: &Vec<char>, p: &Vec<char>) -> (r: bool)
    ensures
        r == has_prefix(s@, p@),
{
    if p.len() > s.len() {
        return false;
    }
    let mut i: usize = 0;
    while i < p.len()
        invariant
            p@.len() <= s@.len(),
            i <= p@.len(),
            forall|j: int| 0 <= j < i ==> s@[j] == p@[j],
        decreases p@.len() - i,
    {
        if s[i] != p[i] {
            assert(s@.take(p@.len() as int)[i as int] != p@[i as int]);
            return false;
        }
        i = i + 1;
    }
    assert(s@.take(p@.len() as int) =~= p@);
    true
}

/// Whether `s[lo..]` is `w`.
fn rest_is(s: &Vec<char>, lo: usize, w: &str) -> (r: bool)
    requires
        lo <= s@.len(),
    ensures
        r == (s@.skip(lo as int) == w@),
{
    let rest = copy_range(s, lo, s.len());
    assert(rest@ =~= s@.skip(lo as int));
    let wc = chars_of(w);
    if rest.len() != wc.len() {
        return false;
    }
    let r = starts_with(&rest, &wc);
    assert(rest@.take(wc@.len() as int) =~= rest@);
    r
}

/// `prefix` followed by the quoted `s[lo..]`.
fn refuse_value(prefix: &str, s: &Vec<char>, lo: usize) -> (m: Vec<char>)
    requires
        lo <= s@.len(),
    ensures
        m@ == prefix@ + debug_quoted(s@.skip(lo as int)),
{
    let value = copy_range(s, lo, s.len());
    assert(value@ =~= s@.skip(lo as int));
    let mut msg: Vec<char> = Vec::new();
    push_str(&mut msg, prefix);
    let q = debug_quote(&value);
    push_all(&mut msg, &q);
    msg
}

/// Applies one argument to what the command line asks for so far.
fn apply_arg(cmd: &mut CommandLine, arg: &String) -> (r: Result<(), String>)
    ensures
        match command_step(command_view(*old(cmd)), arg@) {
            Ok(v) => r is Ok && command_view(*final(cmd)) == v,
            Err(m) => r matches Err(e) && e@ == m,
        },
{
    let a = chars_of(arg.as_str());
    let max_depth = chars_of("--max-depth=");
    let collapse = chars_of("--collapse-under=");
    let sort = chars_of("--sort=");
    let unit = chars_of("--size-unit=");
    let dashes = chars_of("--");
    if starts_with(&a, &max_depth) {
        match parse_unsigned_at(&a, max_depth.len(), a.len(), usize::MAX as u64) {
            Some(d) => {
                cmd.opts.max_depth = Some(d as usize);
                Ok(())
            },
            None => Err(string_of(&refuse_value("invalid --max-depth value ", &a, max_depth.len()))),
        }
    } else if starts_with(&a, &collapse) {
        match parse_unsigned_at(&a, collapse.len(), a.len(), u64::MAX) {
            Some(t) => {
                cmd.opts.collapse_under = Some(t);
                Ok(())
            },
            None => Err(
                string_of(&refuse_value("invalid --collapse-under value ", &a, collapse.len())),
            ),
        }
    } else if starts_with(&a, &sort) {
        if rest_is(&a, sort.len(), "size") {
            cmd.opts.sort = SortMode::Size;
            Ok(())
        } else if rest_is(&a, sort.len(), "name") {
            cmd.opts.sort = SortMode::Name;
            Ok(())
        } else {
            let mut m = refuse_value("invalid --sort value ", &a, sort.len());
            push_str(&mut m, " (expected \"size\" or \"name\")");
            Err(string_of(&m))
        }
    } else if starts_with(&a, &unit) {
        if rest_is(&a, unit.len(), "bytes") {
            cmd.unit = SizeUnit::Bytes;
            Ok(())
        } else if rest_is(&a, unit.len(), "blocks") {
            cmd.unit = SizeUnit::Blocks512;
            Ok(())
        } else {
            let mut m = refuse_value("invalid --size-unit value ", &a, unit.len());
            push_str(&mut m, " (expected \"bytes\" or \"blocks\")");
            Err(string_of(&m))
        }
    } else if rest_is(&a, 0, "--json") {
        assert(a@.skip(0) =~= a@);
        cmd.json = true;
        Ok(())
    } else if starts_with(&a, &dashes) {
        assert(a@.skip(0) =~= a@);
        let mut m: Vec<char> = chars_of("unknown flag --");
        push_range(&mut m, &a, dashes.len(), a.len());
        assert(a@.subrange(dashes@.len() as int, a@.len() as int) =~= a@.skip(dashes@.len() as int));
        Err(string_of(&m))
    } else if cmd.path.is_some() {
        assert(a@.skip(0) =~= a@);
        Err(string_of(&chars_of("only one input path may be given")))
    } else {
        assert(a@.skip(0) =~= a@);
        cmd.path = Some(arg.clone());
        Ok(())
    }
}

/// Reads the command line `args` (without the program name): the print
/// options, the unit of the report's sizes, whether to print JSON, and the
/// report's path (standard input when there is none). Refuses it at the first
/// argument that is not a recognized `--flag=value` with a valid value, or
/// that is a second path.
pub fn parse_command_line(args: &[String]) -> (r: Result<CommandLine, String>)
    ensures
        match read_command(arg_views(args@)) {
            Ok(v) => r matches Ok(c) && command_view(c) == v,
            Err(m) => r matches Err(e) && e@ == m,
        },
{
    let mut cmd = CommandLine {
        opts: PrintOptions { max_depth: None, collapse_under: None, sort: SortMode::Size },
        unit: SizeUnit::Bytes,
        json: false,
        path: None,
    };
    let ghost views = arg_views(args@);
    let mut k: usize = 0;
    assert(views.take(0) =~= Seq::<Seq<char>>::empty());
    while k < args.len()
        invariant
            k <= args@.len(),
            views == arg_views(args@),
            read_command(views.take(k as int)) == Ok::<CommandView, Seq<char>>(command_view(cmd)),
        decreases args@.len() - k,
    {
        assert(views.take(k + 1).drop_last() =~= views.take(k as int));
        assert(views.take(k + 1).last() == args@[k as int]@);
        match apply_arg(&mut cmd, &args[k]) {
            Err(e) => {
                proof {
                    lemma_read_refusal_stays(views.take(k + 1), views);
                }
                return Err(e);
            },
            Ok(()) => {},
        }
        k = k + 1;
    }
    assert(views.take(k as int) =~= views);
    Ok(cmd)
}

/// A refused argument refuses every longer command line that starts the same.
pub proof fn lemma_read_refusal_stays(first: Seq<Seq<char>>, all: Seq<Seq<char>>)
    requires
        first.len() <= all.len(),
        all.take(first.len() as int) == first,
        read_command(first) is Err,
    ensures
        read_command(all) == read_command(first),
    decreases all.len(),
{
    if all.len() > first.len() {
        assert(all.drop_last().take(first.len() as int) =~= first);
        lemma_read_refusal_stays(first, all.drop_last());
    } else {
        assert(all =~= first);
    }
}

/// Reads the command line `args` (without the program name) into the print
/// options and the report's path, as `parse_command_line` does.
pub fn parse_args(args: &[String]) -> (r: Result<(PrintOptions, Option<String>), String>)
    ensures
        match read_command(arg_views(args@)) {
            Ok(v) => r matches Ok((opts, path)) && opts.max_depth == v.max_depth
                && opts.collapse_under == v.collapse_under && opts.sort == v.sort && match path {
                Some(p) => v.path == Some(p@),
                None => v.path is None,
            },
            Err(m) => r matches Err(e) && e@ == m,
        },
{
    match parse_command_line(args) {
        Ok(cmd) => Ok((cmd.opts, cmd.path)),
        Err(e) => Err(e),
    }
}

} // verus!

verus! {

/// Whether an argument is the report's path rather than a flag.
pub open spec fn positional(a: Seq<char>) -> bool {
    !has_prefix(a, "--"@)
}

/// Whether an argument is one of the recognized flags (its value aside).
pub open spec fn known_flag(a: Seq<char>) -> bool {
    ||| has_prefix(a, "--max-depth="@)
    ||| has_prefix(a, "--collapse-under="@)
    ||| has_prefix(a, "--sort="@)
    ||| has_prefix(a, "--size-unit="@)
    ||| a == "--json"@
}

/// A prefix of a prefix is a prefix.
proof fn lemma_prefix_trans(a: Seq<char>, p: Seq<char>, q: Seq<char>)
    requires
        has_prefix(a, p),
        has_prefix(p, q),
    ensures
        has_prefix(a, q),
{
    assert(a.take(q.len() as int) =~= p.take(q.len() as int));
}

/// Every recognized flag starts with `--`.
proof fn lemma_flags_start_with_dashes(a: Seq<char>)
    ensures
        known_flag(a) ==> !positional(a),
{
    reveal_strlit("--");
    reveal_strlit("--max-depth=");
    reveal_strlit("--collapse-under=");
    reveal_strlit("--sort=");
    reveal_strlit("--size-unit=");
    reveal_strlit("--json");
    let d = "--"@;
    assert(has_prefix("--max-depth="@, d)) by {
        assert("--max-depth="@.take(2) =~= d);
    }
    assert(has_prefix("--collapse-under="@, d)) by {
        assert("--collapse-under="@.take(2) =~= d);
    }
    assert(has_prefix("--sort="@, d)) by {
        assert("--sort="@.take(2) =~= d);
    }
    assert(has_prefix("--size-unit="@, d)) by {
        assert("--size-unit="@.take(2) =~= d);
    }
    assert(has_prefix("--json"@, d)) by {
        assert("--json"@.take(2) =~= d);
    }
    if has_prefix(a, "--max-depth="@) {
        lemma_prefix_trans(a, "--max-depth="@, d);
    }
    if has_prefix(a, "--collapse-under="@) {
        lemma_prefix_trans(a, "--collapse-under="@, d);
    }
    if has_prefix(a, "--sort="@) {
        lemma_prefix_trans(a, "--sort="@, d);
    }
    if has_prefix(a, "--size-unit="@) {
        lemma_prefix_trans(a, "--size-unit="@, d);
    }
}

/// Only one positional argument is accepted: a command line that is read has
/// at most one, and it is the report's path.
pub proof fn law_one_input_path(args: Seq<Seq<char>>)
    ensures
        read_command(args) matches Ok(v) ==> {
            &&& forall|a: int, b: int|
                0 <= a < b < args.len() && positional(#[trigger] args[a]) ==> !positional(
                    #[trigger] args[b],
                )
            &&& forall|k: int| 0 <= k < args.len() && positional(#[trigger] args[k]) ==> v.path
                == Some(args[k])
            &&& v.path is Some ==> exists|k: int| 0 <= k < args.len() && positional(#[trigger] args[k])
        },
    decreases args.len(),
{
    if args.len() > 0 {
        let prev = args.drop_last();
        law_one_input_path(prev);
        let a = args.last();
        lemma_flags_start_with_dashes(a);
        if let Ok(v0) = read_command(prev) {
            if let Ok(v) = read_command(args) {
                assert forall|k: int| 0 <= k < args.len() - 1 implies #[trigger] args[k] == prev[k] by {}
                if positional(a) {
                    assert(v0.path is None);
                    assert(v.path == Some(a));
                    assert forall|k: int| 0 <= k < args.len() && positional(#[trigger] args[k])
                        implies k == args.len() - 1 by {
                        if k < args.len() - 1 {
                            assert(positional(prev[k]));
                        }
                    }
                } else {
                    assert(v.path == v0.path);
                    if v.path is Some {
                        let k = choose|k: int| 0 <= k < prev.len() && positional(#[trigger] prev[k]);
                        assert(positional(args[k]));
                    }
                }
            }
        }
    }
}

/// Typos fail loudly: an argument that starts with `--` but is not a
/// recognized flag makes the whole command line refused.
pub proof fn law_unknown_flags_refused(args: Seq<Seq<char>>, k: int)
    requires
        0 <= k < args.len(),
        !positional(args[k]),
        !known_flag(args[k]),
    ensures
        read_command(args) is Err,
    decreases args.len(),
{
    if k < args.len() - 1 {
        assert(args.drop_last()[k] == args[k]);
        law_unknown_flags_refused(args.drop_last(), k);
    }
}

} // verus!

verus! {

/// Which part of the command line an argument sets: 0 `--max-depth=`, 1
/// `--collapse-under=`, 2 `--sort=`, 3 `--size-unit=`, 4 `--json`, 5 any other
/// `--` argument (refused), 6 the report's path.
pub open spec fn arg_kind(a: Seq<char>) -> int {
    if has_prefix(a, "--max-depth="@) {
        0
    } else if has_prefix(a, "--collapse-under="@) {
        1
    } else if has_prefix(a, "--sort="@) {
        2
    } else if has_prefix(a, "--size-unit="@) {
        3
    } else if a == "--json"@ {
        4
    } else if has_prefix(a, "--"@) {
        5
    } else {
        6
    }
}

/// What the argument `a` asks for on a command line of its own.
pub open spec fn alone(a: Seq<char>) -> Result<CommandView, Seq<char>> {
    command_step(command_start(), a)
}

/// Whether no two arguments of `args` are of kind `k`.
pub open spec fn kind_once(args: Seq<Seq<char>>, k: int) -> bool {
    forall|a: int, b: int|
        0 <= a < b < args.len() && arg_kind(#[trigger] args[a]) == k ==> arg_kind(
            #[trigger] args[b],
        ) != k
}

/// Whether no argument after the `k`-th is of the same kind.
pub open spec fn last_of_kind(args: Seq<Seq<char>>, k: int) -> bool {
    forall|j: int| k < j < args.len() ==> arg_kind(#[trigger] args[j]) != arg_kind(args[k])
}

/// What the command line is once the arguments `args` are read: accepted
/// exactly when each argument is acceptable on its own and at most one is a
/// path; then each part is set by the last argument of its kind, and is
/// left at its start value when there is none.
proof fn lemma_read_shape(args: Seq<Seq<char>>)
    ensures
        read_command(args) is Ok <==> (forall|k: int| 0 <= k < args.len() ==> #[trigger] alone(
            args[k],
        ) is Ok) && kind_once(args, 6),
        read_command(args) matches Ok(v) ==> {
            &&& forall|k: int|
                0 <= k < args.len() && last_of_kind(args, k) ==> {
                    let w = #[trigger] alone(args[k])->Ok_0;
                    &&& arg_kind(args[k]) == 0 ==> v.max_depth == w.max_depth
                    &&& arg_kind(args[k]) == 1 ==> v.collapse_under == w.collapse_under
                    &&& arg_kind(args[k]) == 2 ==> v.sort == w.sort
                    &&& arg_kind(args[k]) == 3 ==> v.unit == w.unit
                    &&& arg_kind(args[k]) == 6 ==> v.path == w.path
                }
            &&& (forall|k: int| 0 <= k < args.len() ==> arg_kind(#[trigger] args[k]) != 0)
                ==> v.max_depth is None
            &&& (forall|k: int| 0 <= k < args.len() ==> arg_kind(#[trigger] args[k]) != 1)
                ==> v.collapse_under is None
            &&& (forall|k: int| 0 <= k < args.len() ==> arg_kind(#[trigger] args[k]) != 2)
                ==> v.sort == SortMode::Size
            &&& (forall|k: int| 0 <= k < args.len() ==> arg_kind(#[trigger] args[k]) != 3)
                ==> v.unit == SizeUnit::Bytes
            &&& (forall|k: int| 0 <= k < args.len() ==> arg_kind(#[trigger] args[k]) != 6)
                ==> v.path is None
            &&& v.json == exists|k: int| 0 <= k < args.len() && arg_kind(#[trigger] args[k]) == 4
        },
    decreases args.len(),
{
    if args.len() > 0 {
        let prev = args.drop_last();
        let a = args.last();
        let n = args.len() - 1;
        lemma_read_shape(prev);
        lemma_flags_start_with_dashes(a);
        assert forall|k: int| 0 <= k < n implies #[trigger] args[k] == prev[k] by {}
        assert(args[n] == a);
        match read_command(prev) {
            Err(_) => {
                let k = choose|k: int| !(0 <= k < prev.len() ==> #[trigger] alone(prev[k]) is Ok)
                    || !kind_once(prev, 6);
                if !kind_once(prev, 6) {
                    let (x, y) = choose|x: int, y: int|
                        0 <= x < y < prev.len() && arg_kind(#[trigger] prev[x]) == 6 && arg_kind(
                            #[trigger] prev[y],
                        ) == 6;
                    assert(args[x] == prev[x] && args[y] == prev[y]);
                } else {
                    let k = choose|k: int| 0 <= k < prev.len() && !(#[trigger] alone(prev[k]) is Ok);
                    assert(args[k] == prev[k]);
                }
            },
            Ok(st) => {
                let has_path = exists|k: int| 0 <= k < n && arg_kind(#[trigger] prev[k]) == 6;
                assert(st.path is Some <==> has_path) by {
                    if has_path {
                        let k = choose|k: int| 0 <= k < n && arg_kind(#[trigger] prev[k]) == 6;
                        assert(last_of_kind(prev, k)) by {
                            assert forall|j: int| k < j < n implies arg_kind(#[trigger] prev[j])
                                != arg_kind(prev[k]) by {}
                        }
                        assert(alone(prev[k])->Ok_0.path == Some(prev[k]));
                    }
                }
                if read_command(args) is Ok {
                    assert forall|k: int| 0 <= k < args.len() implies #[trigger] alone(args[k]) is Ok by {
                        if k == n {
                        } else {
                            assert(args[k] == prev[k]);
                        }
                    }
                    assert(kind_once(args, 6)) by {
                        assert forall|x: int, y: int|
                            0 <= x < y < args.len() && arg_kind(#[trigger] args[x]) == 6 implies arg_kind(
                            #[trigger] args[y],
                        ) != 6 by {
                            if y == n && arg_kind(args[y]) == 6 {
                                assert(prev[x] == args[x]);
                            } else if y < n {
                                assert(prev[x] == args[x] && prev[y] == args[y]);
                            }
                        }
                    }
                    let v = read_command(args)->Ok_0;
                    assert forall|k: int| 0 <= k < args.len() && last_of_kind(args, k) implies {
                        let w = #[trigger] alone(args[k])->Ok_0;
                        &&& arg_kind(args[k]) == 0 ==> v.max_depth == w.max_depth
                        &&& arg_kind(args[k]) == 1 ==> v.collapse_under == w.collapse_under
                        &&& arg_kind(args[k]) == 2 ==> v.sort == w.sort
                        &&& arg_kind(args[k]) == 3 ==> v.unit == w.unit
                        &&& arg_kind(args[k]) == 6 ==> v.path == w.path
                    } by {
                        if k < n {
                            assert(args[k] == prev[k]);
                            assert(arg_kind(a) != arg_kind(args[k]));
                            assert(last_of_kind(prev, k)) by {
                                assert forall|j: int| k < j < n implies arg_kind(#[trigger] prev[j])
                                    != arg_kind(prev[k]) by {
                                    assert(args[j] == prev[j]);
                                }
                            }
                        }
                    }
                } else {
                    if forall|k: int| 0 <= k < args.len() ==> #[trigger] alone(args[k]) is Ok {
                        assert(alone(args[n]) is Ok);
                        assert(arg_kind(a) == 6 && has_path);
                        let k = choose|k: int| 0 <= k < n && arg_kind(#[trigger] prev[k]) == 6;
                        assert(args[k] == prev[k]);
                        assert(!kind_once(args, 6));
                    }
                }
            },
        }
    }
}

/// Whether `x` occurs twice in `s` when it occurs at least twice in the
/// multiset of `s`.
proof fn lemma_count_two(s: Seq<Seq<char>>, x: Seq<char>)
    requires
        s.to_multiset().count(x) >= 2,
    ensures
        exists|a: int, b: int| 0 <= a < b < s.len() && #[trigger] s[a] == x && #[trigger] s[b] == x,
    decreases s.len(),
{
    broadcast use vstd::seq_lib::group_to_multiset_ensures;

    if s.len() == 0 {
        assert(s.to_multiset() =~= vstd::multiset::Multiset::empty());
    } else {
        let p = s.drop_last();
        assert(p.push(s.last()) =~= s);
        assert(s.to_multiset() =~= p.to_multiset().insert(s.last()));
        if s.last() == x {
            assert(p.to_multiset().count(x) >= 1);
            assert(p.contains(x));
            let a = choose|a: int| 0 <= a < p.len() && p[a] == x;
            assert(s[a] == x && s[s.len() - 1] == x);
        } else {
            lemma_count_two(p, x);
            let (a, b) = choose|a: int, b: int| 0 <= a < b < p.len() && #[trigger] p[a] == x && #[trigger] p[b] == x;
            assert(s[a] == x && s[b] == x);
        }
    }
}

/// Sequences with the same multiset hold the same elements.
proof fn lemma_same_members(a: Seq<Seq<char>>, b: Seq<Seq<char>>, x: Seq<char>)
    requires
        a.to_multiset() == b.to_multiset(),
    ensures
        a.contains(x) == b.contains(x),
{
    broadcast use vstd::seq_lib::group_to_multiset_ensures;

    assert(a.contains(x) <==> a.to_multiset().count(x) > 0);
    assert(b.contains(x) <==> b.to_multiset().count(x) > 0);
}

/// Once is once in any order.
proof fn lemma_kind_once_moves(args: Seq<Seq<char>>, args2: Seq<Seq<char>>, k: int)
    requires
        args.to_multiset() == args2.to_multiset(),
        kind_once(args, k),
    ensures
        kind_once(args2, k),
{
    broadcast use vstd::seq_lib::group_to_multiset_ensures;

    assert forall|x: int, y: int|
        0 <= x < y < args2.len() && arg_kind(#[trigger] args2[x]) == k implies arg_kind(
        #[trigger] args2[y],
    ) != k by {
        if arg_kind(args2[y]) == k {
            if args2[x] == args2[y] {
                assert(args2.to_multiset().count(args2[x]) >= 2) by {
                    let s0 = args2.subrange(0, y);
                    let s1 = args2.subrange(y, args2.len() as int);
                    assert(args2 == s0 + s1);
                    vstd::seq_lib::lemma_multiset_commutative(s0, s1);
                    assert(s0[x] == args2[x]);
                    assert(s1[0] == args2[y]);
                    assert(s0.contains(args2[x]));
                    assert(s1.contains(args2[x]));
                }
                lemma_count_two(args, args2[x]);
            } else {
                lemma_same_members(args, args2, args2[x]);
                lemma_same_members(args, args2, args2[y]);
                assert(args2.contains(args2[x]));
                assert(args2.contains(args2[y]));
                let a = choose|a: int| 0 <= a < args.len() && args[a] == args2[x];
                let b = choose|b: int| 0 <= b < args.len() && args[b] == args2[y];
                if a < b {
                    assert(arg_kind(args[a]) == k);
                } else {
                    assert(arg_kind(args[b]) == k);
                }
            }
        }
    }
}

/// With the same arguments in another order, an accepted command line sets
/// a part given at most once the same way.
proof fn lemma_same_part(args: Seq<Seq<char>>, args2: Seq<Seq<char>>, kind: int)
    requires
        args.to_multiset() == args2.to_multiset(),
        kind_once(args, kind),
        read_command(args) is Ok,
        read_command(args2) is Ok,
    ensures
        ({
            let v = read_command(args)->Ok_0;
            let v2 = read_command(args2)->Ok_0;
            &&& kind == 0 ==> v.max_depth == v2.max_depth
            &&& kind == 1 ==> v.collapse_under == v2.collapse_under
            &&& kind == 2 ==> v.sort == v2.sort
            &&& kind == 3 ==> v.unit == v2.unit
            &&& kind == 6 ==> v.path == v2.path
        }),
{
    broadcast use vstd::seq_lib::group_to_multiset_ensures;

    lemma_read_shape(args);
    lemma_read_shape(args2);
    lemma_kind_once_moves(args, args2, kind);
    assert forall|x: Seq<char>| args.contains(x) <==> args2.contains(x) by {
        lemma_same_members(args, args2, x);
    }
    if exists|k: int| 0 <= k < args.len() && arg_kind(#[trigger] args[k]) == kind {
        let k = choose|k: int| 0 <= k < args.len() && arg_kind(#[trigger] args[k]) == kind;
        assert(args2.contains(args[k]));
        let w = choose|w: int| 0 <= w < args2.len() && args2[w] == args[k];
        assert(last_of_kind(args, k)) by {
            assert forall|j: int| k < j < args.len() implies arg_kind(#[trigger] args[j])
                != arg_kind(args[k]) by {}
        }
        assert(last_of_kind(args2, w)) by {
            assert forall|j: int| w < j < args2.len() implies arg_kind(#[trigger] args2[j])
                != arg_kind(args2[w]) by {}
        }
        assert(alone(args[k]) == alone(args2[w]));
    } else {
        assert forall|j: int| 0 <= j < args2.len() implies arg_kind(#[trigger] args2[j])
            != kind by {
            assert(args.contains(args2[j]));
            let a = choose|a: int| 0 <= a < args.len() && args[a] == args2[j];
            assert(arg_kind(args[a]) != kind);
        }
    }
}

/// The order of the arguments does not matter: flags and the path may come
/// in any order. Two command lines with the same arguments, each as often,
/// with no `--max-depth=`, `--collapse-under=` or `--sort=` flag given twice,
/// are both accepted or both refused, and when accepted they ask for the same
/// depth limit, threshold, sort order, output kind and path (and the same
/// unit, when `--size-unit=` is not given twice either).
pub proof fn law_argument_order_is_free(args: Seq<Seq<char>>, args2: Seq<Seq<char>>)
    requires
        args.to_multiset() == args2.to_multiset(),
        kind_once(args, 0),
        kind_once(args, 1),
        kind_once(args, 2),
    ensures
        read_command(args) is Ok <==> read_command(args2) is Ok,
        read_command(args) matches Ok(v) ==> read_command(args2) matches Ok(v2) && {
            &&& v.max_depth == v2.max_depth
            &&& v.collapse_under == v2.collapse_under
            &&& v.sort == v2.sort
            &&& v.json == v2.json
            &&& v.path == v2.path
            &&& kind_once(args, 3) ==> v.unit == v2.unit
        },
{
    broadcast use vstd::seq_lib::group_to_multiset_ensures;

    lemma_read_shape(args);
    lemma_read_shape(args2);
    lemma_kind_once_moves(args, args2, 0);
    lemma_kind_once_moves(args, args2, 1);
    lemma_kind_once_moves(args, args2, 2);
    assert forall|x: Seq<char>| args.contains(x) <==> args2.contains(x) by {
        lemma_same_members(args, args2, x);
    }
    if read_command(args) is Ok {
        lemma_kind_once_moves(args, args2, 6);
        assert forall|k: int| 0 <= k < args2.len() implies #[trigger] alone(args2[k]) is Ok by {
            assert(args.contains(args2[k]));
            let a = choose|a: int| 0 <= a < args.len() && args[a] == args2[k];
            assert(alone(args[a]) is Ok);
        }
    }
    if read_command(args2) is Ok {
        assert(args2.to_multiset() == args.to_multiset());
        lemma_kind_once_moves(args2, args, 6);
        assert forall|k: int| 0 <= k < args.len() implies #[trigger] alone(args[k]) is Ok by {
            assert(args2.contains(args[k]));
            let a = choose|a: int| 0 <= a < args2.len() && args2[a] == args[k];
            assert(alone(args2[a]) is Ok);
        }
    }
    if read_command(args) is Ok {
        let v = read_command(args)->Ok_0;
        let v2 = read_command(args2)->Ok_0;
        lemma_same_part(args, args2, 0);
        lemma_same_part(args, args2, 1);
        lemma_same_part(args, args2, 2);
        lemma_same_part(args, args2, 6);
        if kind_once(args, 3) {
            lemma_same_part(args, args2, 3);
        }
        assert(v.json == v2.json) by {
            if v.json {
                let k = choose|k: int| 0 <= k < args.len() && arg_kind(#[trigger] args[k]) == 4;
                assert(args2.contains(args[k]));
                let w = choose|w: int| 0 <= w < args2.len() && args2[w] == args[k];
                assert(arg_kind(args2[w]) == 4);
            }
            if v2.json {
                let k = choose|k: int| 0 <= k < args2.len() && arg_kind(#[trigger] args2[k]) == 4;
                assert(args.contains(args2[k]));
                let w = choose|w: int| 0 <= w < args.len() && args[w] == args2[k];
                assert(arg_kind(args[w]) == 4);
            }
        }
        assert(v.max_depth == v2.max_depth);
        assert(v.collapse_under == v2.collapse_under);
        assert(v.sort == v2.sort);
        assert(v.path == v2.path);
    }
}

} // verus!

verus! {

/// Each flag sets what it names to the value it carries, and that value is
/// the one its text writes: after any accepted arguments, a last
/// `--max-depth=d`, where `d` writes a number `v` that fits in a `usize`,
/// limits the depth to exactly `v` (0 included); `--collapse-under=d` sets
/// the threshold to `d`'s number; `--sort=size` and `--sort=name`,
/// `--size-unit=bytes` and `--size-unit=blocks`, and `--json` set the order,
/// the unit and JSON output; and none of them changes the report's path.
pub proof fn law_flags_set_what_they_say(args: Seq<Seq<char>>, d: Seq<char>, v: nat)
    requires
        read_command(args) is Ok,
    ensures
        parse_unsigned(d, usize::MAX as nat) == Some(v) ==> (read_command(
            args.push("--max-depth="@ + d),
        ) matches Ok(c) && c.max_depth == Some(v as usize) && c.path == read_command(
            args,
        )->Ok_0.path),
        parse_unsigned(d, u64::MAX as nat) == Some(v) ==> (read_command(
            args.push("--collapse-under="@ + d),
        ) matches Ok(c) && c.collapse_under == Some(v as u64) && c.path == read_command(
            args,
        )->Ok_0.path),
        read_command(args.push("--sort=size"@)) matches Ok(c) && c.sort == SortMode::Size,
        read_command(args.push("--sort=name"@)) matches Ok(c) && c.sort == SortMode::Name,
        read_command(args.push("--size-unit=bytes"@)) matches Ok(c) && c.unit == SizeUnit::Bytes,
        read_command(args.push("--size-unit=blocks"@)) matches Ok(c) && c.unit
            == SizeUnit::Blocks512,
        read_command(args.push("--json"@)) matches Ok(c) && c.json,
{
    reveal_strlit("--max-depth=");
    reveal_strlit("--collapse-under=");
    reveal_strlit("--sort=");
    reveal_strlit("--size-unit=");
    reveal_strlit("--json");
    reveal_strlit("--");
    reveal_strlit("--sort=size");
    reveal_strlit("--sort=name");
    reveal_strlit("--size-unit=bytes");
    reveal_strlit("--size-unit=blocks");
    reveal_strlit("size");
    reveal_strlit("name");
    reveal_strlit("bytes");
    reveal_strlit("blocks");
    let md = "--max-depth="@ + d;
    let cu = "--collapse-under="@ + d;
    assert(args.push(md).drop_last() =~= args);
    assert(args.push(cu).drop_last() =~= args);
    assert(md.take(12) =~= "--max-depth="@);
    assert(md.skip(12) =~= d);
    assert(cu.take(17) =~= "--collapse-under="@);
    assert(!has_prefix(cu, "--max-depth="@)) by {
        assert(cu.take(12)[2] != "--max-depth="@[2]);
    }
    assert(cu.skip(17) =~= d);
    let ss = "--sort=size"@;
    let sn = "--sort=name"@;
    let ub = "--size-unit=bytes"@;
    let uk = "--size-unit=blocks"@;
    let js = "--json"@;
    assert(args.push(ss).drop_last() =~= args);
    assert(args.push(sn).drop_last() =~= args);
    assert(args.push(ub).drop_last() =~= args);
    assert(args.push(uk).drop_last() =~= args);
    assert(args.push(js).drop_last() =~= args);
    assert(!has_prefix(ss, "--max-depth="@));
    assert(!has_prefix(ss, "--collapse-under="@));
    assert(ss.take(7) =~= "--sort="@ && ss.skip(7) =~= "size"@);
    assert(!has_prefix(sn, "--max-depth="@));
    assert(!has_prefix(sn, "--collapse-under="@));
    assert(sn.take(7) =~= "--sort="@ && sn.skip(7) =~= "name"@);
    assert("name"@ != "size"@) by {
        assert("name"@[0] != "size"@[0]);
    }
    assert(!has_prefix(ub, "--max-depth="@)) by {
        assert(ub.take(12)[2] != "--max-depth="@[2]);
    }
    assert(!has_prefix(ub, "--collapse-under="@)) by {
        assert(ub.take(17)[2] != "--collapse-under="@[2]);
    }
    assert(!has_prefix(ub, "--sort="@)) by {
        assert(ub.take(7)[3] != "--sort="@[3]);
    }
    assert(ub.take(12) =~= "--size-unit="@ && ub.skip(12) =~= "bytes"@);
    assert(!has_prefix(uk, "--max-depth="@)) by {
        assert(uk.take(12)[2] != "--max-depth="@[2]);
    }
    assert(!has_prefix(uk, "--collapse-under="@)) by {
        assert(uk.take(17)[2] != "--collapse-under="@[2]);
    }
    assert(!has_prefix(uk, "--sort="@)) by {
        assert(uk.take(7)[3] != "--sort="@[3]);
    }
    assert(uk.take(12) =~= "--size-unit="@ && uk.skip(12) =~= "blocks"@);
    assert("blocks"@ != "bytes"@) by {
        assert("blocks"@.len() != "bytes"@.len());
    }
    assert(!has_prefix(js, "--max-depth="@));
    assert(!has_prefix(js, "--collapse-under="@));
    assert(!has_prefix(js, "--sort="@));
    assert(!has_prefix(js, "--size-unit="@));
}

} // verus!

verus! {

/// A flag is recognized by how its argument begins: `s` starts with `p`
/// exactly when `s` is `p` followed by something.
pub proof fn law_prefix_is_a_beginning(s: Seq<char>, p: Seq<char>, t: Seq<char>)
    ensures
        has_prefix(s, p) <==> s == p + s.skip(p.len() as int),
        has_prefix(p + t, p),
{
    if has_prefix(s, p) {
        assert(s =~= p + s.skip(p.len() as int));
    }
    if s == p + s.skip(p.len() as int) {
        assert(s.take(p.len() as int) =~= p);
    }
    assert((p + t).take(p.len() as int) =~= p);
}

} // verus!
