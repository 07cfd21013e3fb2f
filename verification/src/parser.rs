//! Parses the flat "<size><whitespace><path>" lines that `du -a` and `du -ab`
//! print, and checks that the result actually forms a tree before anything
//! trusts it.

use vstd::prelude::*;
use crate::index::{PathTable, table_of};
use crate::text::{push_all, copy_range, chars_of, string_of, push_str, debug_quote, debug_quoted, trim_end, trim_start, trim_end_at, trim_start_at, is_ws, is_whitespace, parse_unsigned, parse_unsigned_at};
use crate::coverage::newlines;

verus! {

/// One line of the report: a size in bytes, a path, and the line it came from
/// (counting from 1).
#[derive(Debug, Clone)]
pub struct Entry {
    pub size: u64,
    pub path: String,
    pub line: usize,
}

/// An entry as plain values.
pub struct EntryView {
    pub size: u64,
    pub path: Seq<char>,
    pub line: nat,
}

impl View for Entry {
    type V = EntryView;

    open spec fn view(&self) -> EntryView {
        EntryView { size: self.size, path: self.path@, line: self.line as nat }
    }
}

/// Why a report was refused, and on which line (counting from 1).
#[derive(Debug)]
pub struct ParseError {
    pub line: usize,
    pub message: String,
}

/// The unit of the report's size column: bytes (`du -ab`) or 512-byte blocks
/// (plain `du -a`, on both GNU and BSD du).
#[derive(Debug, Clone, Copy, PartialEq, Eq, Structural)]
pub enum SizeUnit {
    Bytes,
    Blocks512,
}

impl Default for SizeUnit {
    fn default() -> (u: Self)
        ensures
            u == SizeUnit::Bytes,
    {
        SizeUnit::Bytes
    }
}

/// The size in bytes of `count` units, if it fits in a `u64`.
pub open spec fn scaled(unit: SizeUnit, count: u64) -> Option<u64> {
    match unit {
        SizeUnit::Bytes => Some(count),
        SizeUnit::Blocks512 => if count * 512 <= u64::MAX {
            Some((count * 512) as u64)
        } else {
            None
        },
    }
}

impl SizeUnit {
    /// The size in bytes of `count` units, or why it cannot be had.
    pub fn scale(self, count: u64) -> (r: Result<u64, &'static str>)
        ensures
            match r {
                Ok(v) => scaled(self, count) == Some(v),
                Err(m) => scaled(self, count) is None && m@
                    == "size overflows after applying block size"@,
            },
    {
        match self {
            SizeUnit::Bytes => Ok(count),
            SizeUnit::Blocks512 => match count.checked_mul(512) {
                Some(v) => Ok(v),
                None => Err("size overflows after applying block size"),
            },
        }
    }
}

/// The position of the last `/` in `p`.
pub open spec fn last_slash(p: Seq<char>) -> Option<int>
    decreases p.len(),
{
    if p.len() == 0 {
        None
    } else if p.last() == '/' {
        Some(p.len() - 1)
    } else {
        last_slash(p.drop_last())
    }
}

/// The directory that holds `p`: what is before its last `/` (or `/` itself
/// when that is the first character). The roots `/` and `.`, and paths
/// without a `/`, have none.
pub open spec fn parent_of(p: Seq<char>) -> Option<Seq<char>> {
    if p == seq!['/'] || p == seq!['.'] {
        None
    } else {
        match last_slash(p) {
            None => None,
            Some(k) => if k == 0 {
                Some(seq!['/'])
            } else {
                Some(p.take(k))
            },
        }
    }
}

/// `last_slash` finds a `/` inside `p`, and no later one.
pub proof fn lemma_last_slash(p: Seq<char>)
    ensures
        match last_slash(p) {
            Some(k) => 0 <= k < p.len() && p[k] == '/' && forall|j: int|
                k < j < p.len() ==> p[j] != '/',
            None => forall|j: int| 0 <= j < p.len() ==> p[j] != '/',
        },
    decreases p.len(),
{
    if p.len() > 0 && p.last() != '/' {
        lemma_last_slash(p.drop_last());
        assert forall|j: int| 0 <= j < p.len() - 1 implies p[j] == p.drop_last()[j] by {}
    }
}

/// A parent is a proper prefix of its child: strictly shorter.
pub proof fn lemma_parent_shorter(p: Seq<char>)
    ensures
        parent_of(p) matches Some(q) ==> q.len() < p.len() && q.len() >= 1,
{
    lemma_last_slash(p);
    if let Some(k) = last_slash(p) {
        if k == 0 && p.len() == 1 {
            assert(p =~= seq!['/']);
        }
    }
}

/// The length of the path of the directory that holds `p`, which is a
/// prefix of `p`.
pub fn parent_len(p: &Vec<char>) -> (r: Option<usize>)
    ensures
        match r {
            None => parent_of(p@) is None,
            Some(l) => l <= p@.len() && parent_of(p@) == Some(p@.take(l as int)),
        },
{
    let n = p.len();
    if n == 1 && (p[0] == '/' || p[0] == '.') {
        proof {
            if p[0] == '/' {
                assert(p@ =~= seq!['/']);
            } else {
                assert(p@ =~= seq!['.']);
            }
        }
        return None;
    }
    assert(p@ != seq!['/'] && p@ != seq!['.']) by {
        if p@ == seq!['/'] || p@ == seq!['.'] {
            assert(p@[0] == '/' || p@[0] == '.');
        }
    }
    let mut k = n;
    assert(p@.take(n as int) =~= p@);
    while k > 0 && p[k - 1] != '/'
        invariant
            k <= n == p@.len(),
            last_slash(p@) == last_slash(p@.take(k as int)),
        decreases k,
    {
        assert(p@.take(k as int).drop_last() =~= p@.take(k - 1));
        k = k - 1;
    }
    if k == 0 {
        assert(last_slash(p@.take(0)) is None);
        None
    } else {
        assert(last_slash(p@.take(k as int)) == Some(k - 1));
        if k == 1 {
            assert(p@.take(1) =~= seq!['/']);
            Some(1)
        } else {
            Some(k - 1)
        }
    }
}

} // verus!

verus! {

/// What is wrong with a report.
pub enum Fault {
    /// The line starts with whitespace, so it has no size.
    MissingSize,
    /// The size field is not an unsigned decimal that fits in a `u64`.
    BadSize(Seq<char>),
    /// The size, scaled to bytes, does not fit in a `u64`.
    SizeOverflow(Seq<char>),
    /// Nothing follows the size.
    MissingPath,
    /// The path ends with `/` (and is not `/` itself).
    TrailingSlash(Seq<char>),
    /// The path was already given on an earlier line.
    Duplicate(Seq<char>),
    /// The path's parent directory (the second field) has no line of its own.
    NoParent(Seq<char>, Seq<char>),
}

/// A fault and the line (counting from 1) that it is reported on.
pub struct FaultAt {
    pub line: nat,
    pub fault: Fault,
}

/// The message that a fault is reported with.
pub open spec fn message_of(f: Fault) -> Seq<char> {
    match f {
        Fault::MissingSize => "missing size field"@,
        Fault::BadSize(field) => "size "@ + debug_quoted(field) + " is not a non-negative integer"@,
        Fault::SizeOverflow(field) => "size overflows after applying block size"@ + " ("@
            + debug_quoted(field) + ")"@,
        Fault::MissingPath => "missing path field"@,
        Fault::TrailingSlash(path) => "path "@ + debug_quoted(path) + " has a trailing slash"@,
        Fault::Duplicate(path) => "duplicate path "@ + debug_quoted(path),
        Fault::NoParent(path, parent) => "path "@ + debug_quoted(path)
            + " has no matching parent entry "@ + debug_quoted(parent),
    }
}

/// Whether the error `e` reports the fault `f`.
pub open spec fn reports(e: ParseError, f: FaultAt) -> bool {
    e.line as nat == f.line && e.message@ == message_of(f.fault)
}

/// The position of the first whitespace character of `s`, or its length.
pub open spec fn first_ws(s: Seq<char>) -> nat
    decreases s.len(),
{
    if s.len() == 0 || is_ws(s[0]) {
        0
    } else {
        1 + first_ws(s.drop_first())
    }
}

/// What one line of the report says.
pub enum LineOutcome {
    /// The line is empty or all whitespace, and is skipped.
    Blank,
    Bad(Fault),
    /// A size in bytes and a path.
    Good(u64, Seq<char>),
}

/// The size field of a line: what comes before its first whitespace.
pub open spec fn size_field(t: Seq<char>) -> Seq<char> {
    t.take(first_ws(t) as int)
}

/// The path field of a line: what follows the first whitespace character,
/// without leading whitespace.
pub open spec fn path_field(t: Seq<char>) -> Seq<char> {
    let k = first_ws(t) as int;
    trim_start(
        if k < t.len() {
            t.skip(k + 1)
        } else {
            Seq::empty()
        },
    )
}

/// What the line `raw` says, sizes read in `unit`. Trailing whitespace is
/// ignored; the size comes first, then whitespace, then the path.
pub open spec fn classify(raw: Seq<char>, unit: SizeUnit) -> LineOutcome {
    let t = trim_end(raw);
    if t.len() == 0 {
        LineOutcome::Blank
    } else {
        let size = size_field(t);
        let path = path_field(t);
        if size.len() == 0 {
            LineOutcome::Bad(Fault::MissingSize)
        } else {
            match parse_unsigned(size, u64::MAX as nat) {
                None => LineOutcome::Bad(Fault::BadSize(size)),
                Some(count) => match scaled(unit, count as u64) {
                    None => LineOutcome::Bad(Fault::SizeOverflow(size)),
                    Some(bytes) => if path.len() == 0 {
                        LineOutcome::Bad(Fault::MissingPath)
                    } else if path.len() > 1 && path.last() == '/' {
                        LineOutcome::Bad(Fault::TrailingSlash(path))
                    } else {
                        LineOutcome::Good(bytes, path)
                    },
                },
            }
        }
    }
}

/// Whether some entry of `es` has the path `p`.
pub open spec fn has_path(es: Seq<EntryView>, p: Seq<char>) -> bool {
    exists|k: int| 0 <= k < es.len() && #[trigger] es[k].path == p
}

/// The entries read so far, `es`, after the line `raw`, number `line_no`.
pub open spec fn scan_step(es: Seq<EntryView>, raw: Seq<char>, line_no: nat, unit: SizeUnit) -> Result<
    Seq<EntryView>,
    FaultAt,
> {
    match classify(raw, unit) {
        LineOutcome::Blank => Ok(es),
        LineOutcome::Bad(f) => Err(FaultAt { line: line_no, fault: f }),
        LineOutcome::Good(size, path) => if has_path(es, path) {
            Err(FaultAt { line: line_no, fault: Fault::Duplicate(path) })
        } else {
            Ok(es.push(EntryView { size, path, line: line_no }))
        },
    }
}

/// The entries that the lines `ls` give, or the first fault among them.
pub open spec fn scan(ls: Seq<Seq<char>>, unit: SizeUnit) -> Result<Seq<EntryView>, FaultAt>
    decreases ls.len(),
{
    if ls.len() == 0 {
        Ok(Seq::empty())
    } else {
        match scan(ls.drop_last(), unit) {
            Err(f) => Err(f),
            Ok(es) => scan_step(es, ls.last(), ls.len(), unit),
        }
    }
}

/// The pieces of `s` between its `\n` characters (one more than there are
/// `\n`s), as `str::split('\n')` gives them.
pub open spec fn pieces(s: Seq<char>) -> Seq<Seq<char>>
    decreases s.len(),
{
    if s.len() == 0 {
        seq![Seq::empty()]
    } else if s.last() == '\n' {
        pieces(s.drop_last()).push(Seq::empty())
    } else {
        let p = pieces(s.drop_last());
        p.update(p.len() - 1, p.last().push(s.last()))
    }
}

/// A line without the `\r` of a `\r\n` ending.
pub open spec fn strip_cr(l: Seq<char>) -> Seq<char> {
    if l.len() > 0 && l.last() == '\r' {
        l.drop_last()
    } else {
        l
    }
}

/// The lines of `s`, as `str::lines` gives them: the pieces between `\n`s,
/// a `\r` before the `\n` dropped, and no empty last line after a final `\n`.
pub open spec fn lines(s: Seq<char>) -> Seq<Seq<char>> {
    let p = pieces(s);
    let ended = p.drop_last().map_values(|l: Seq<char>| strip_cr(l));
    if p.last().len() == 0 {
        ended
    } else {
        ended.push(p.last())
    }
}

/// Whether entry `j`'s parent directory is missing from the report. The
/// filesystem root `/` need not have a line of its own: a report of `du -ab
/// /var` starts its tree at `/var`.
pub open spec fn orphan(es: Seq<EntryView>, j: int) -> bool {
    match parent_of(es[j].path) {
        Some(q) => q != seq!['/'] && !has_path(es, q),
        None => false,
    }
}

/// The first entry from `j` on whose parent directory is missing.
pub open spec fn first_orphan(es: Seq<EntryView>, j: int) -> Option<int>
    decreases es.len() - j,
{
    if j < 0 || j >= es.len() {
        None
    } else if orphan(es, j) {
        Some(j)
    } else {
        first_orphan(es, j + 1)
    }
}

/// Whether no entry of `es` misses its parent directory.
pub open spec fn valid_tree(es: Seq<EntryView>) -> bool {
    first_orphan(es, 0) is None
}

/// The first entry whose parent directory is missing, as a fault.
pub open spec fn orphan_fault(es: Seq<EntryView>, j: int) -> FaultAt {
    FaultAt { line: es[j].line, fault: Fault::NoParent(es[j].path, parent_of(es[j].path)->0) }
}

/// What a report says: its entries, or the first fault in it. Faults within
/// lines come first; only a report whose every line is sound is checked for
/// missing parents.
pub open spec fn parse_report(s: Seq<char>, unit: SizeUnit) -> Result<Seq<EntryView>, FaultAt> {
    match scan(lines(s), unit) {
        Err(f) => Err(f),
        Ok(es) => match first_orphan(es, 0) {
            Some(j) => Err(orphan_fault(es, j)),
            None => Ok(es),
        },
    }
}

/// The paths of a list of entries.
pub open spec fn entry_paths(es: Seq<EntryView>) -> Seq<Seq<char>> {
    es.map_values(|e: EntryView| e.path)
}

/// The plain values of a list of entries.
pub open spec fn views(v: Seq<Entry>) -> Seq<EntryView> {
    v.map_values(|e: Entry| e@)
}

} // verus!

verus! {

/// A position `k` with no whitespace before it and whitespace (or the end) at
/// it is where `first_ws` points.
pub proof fn lemma_first_ws_unique(s: Seq<char>, k: int)
    requires
        0 <= k <= s.len(),
        forall|j: int| 0 <= j < k ==> !is_ws(#[trigger] s[j]),
        k == s.len() || is_ws(s[k]),
    ensures
        first_ws(s) == k,
    decreases s.len(),
{
    if k > 0 {
        let t = s.drop_first();
        assert forall|j: int| 0 <= j < k - 1 implies !is_ws(#[trigger] t[j]) by {
            assert(t[j] == s[j + 1]);
        }
        assert(!is_ws(s[0]));
        lemma_first_ws_unique(t, k - 1);
    }
}

/// The position of the first whitespace character in `chars[lo..hi]`, or `hi`.
fn first_ws_at(chars: &Vec<char>, lo: usize, hi: usize) -> (k: usize)
    requires
        lo <= hi <= chars@.len(),
    ensures
        lo <= k <= hi,
        k - lo == first_ws(chars@.subrange(lo as int, hi as int)),
{
    let ghost s = chars@.subrange(lo as int, hi as int);
    let mut k = lo;
    while k < hi && !is_whitespace(chars[k])
        invariant
            lo <= k <= hi <= chars@.len(),
            s == chars@.subrange(lo as int, hi as int),
            forall|j: int| 0 <= j < k - lo ==> !is_ws(#[trigger] s[j]),
        decreases hi - k,
    {
        k = k + 1;
    }
    proof {
        lemma_first_ws_unique(s, k - lo);
    }
    k
}

/// `prefix` + the quoted `field` + `suffix`, as a `String`.
fn quoted_message(prefix: &str, field: &Vec<char>, suffix: &str) -> (m: String)
    ensures
        m@ == prefix@ + debug_quoted(field@) + suffix@,
{
    let mut msg: Vec<char> = Vec::new();
    push_str(&mut msg, prefix);
    let q = debug_quote(field);
    push_all(&mut msg, &q);
    push_str(&mut msg, suffix);
    string_of(&msg)
}

/// Reads the line `chars[lo..hi]`, number `line_no`, after the entries read so
/// far: adds its entry to `entries`, or reports what is wrong with it.
fn read_line(
    chars: &Vec<char>,
    lo: usize,
    hi: usize,
    line_no: usize,
    unit: SizeUnit,
    entries: &mut Vec<Entry>,
    seen: &mut PathTable,
) -> (r: Result<(), ParseError>)
    requires
        lo <= hi <= chars@.len(),
        old(seen).wf(),
        old(seen)@ == entry_paths(views(old(entries)@)),
    ensures
        match scan_step(views(old(entries)@), chars@.subrange(lo as int, hi as int), line_no as nat, unit) {
            Ok(es) => r is Ok && views(final(entries)@) == es && final(seen).wf() && final(seen)@
                == entry_paths(es),
            Err(f) => r matches Err(e) && reports(e, f),
        },
{
    let ghost raw = chars@.subrange(lo as int, hi as int);
    let e = trim_end_at(chars, lo, hi);
    let ghost t = chars@.subrange(lo as int, e as int);
    if e == lo {
        return Ok(());
    }
    let k = first_ws_at(chars, lo, e);
    let field = copy_range(chars, lo, k);
    assert(field@ =~= size_field(t));
    let ps = if k < e { k + 1 } else { e };
    let b = trim_start_at(chars, ps, e);
    assert(chars@.subrange(b as int, e as int) == path_field(t)) by {
        if k < e {
            assert(t.skip(k - lo + 1) =~= chars@.subrange(ps as int, e as int));
        } else {
            assert(chars@.subrange(ps as int, e as int) =~= Seq::<char>::empty());
        }
    }
    if k == lo {
        let m = string_of(&chars_of("missing size field"));
        return Err(ParseError { line: line_no, message: m });
    }
    let count = match parse_unsigned_at(chars, lo, k, u64::MAX) {
        Some(c) => c,
        None => {
            let m = quoted_message("size ", &field, " is not a non-negative integer");
            return Err(ParseError { line: line_no, message: m });
        },
    };
    let size = match unit.scale(count) {
        Ok(v) => v,
        Err(why) => {
            let mut head: Vec<char> = chars_of(why);
            push_str(&mut head, " (");
            let q = debug_quote(&field);
            push_all(&mut head, &q);
            push_str(&mut head, ")");
            let m = string_of(&head);
            return Err(ParseError { line: line_no, message: m });
        },
    };
    if b == e {
        let m = string_of(&chars_of("missing path field"));
        return Err(ParseError { line: line_no, message: m });
    }
    let path_chars = copy_range(chars, b, e);
    if e - b > 1 && chars[e - 1] == '/' {
        let m = quoted_message("path ", &path_chars, " has a trailing slash");
        return Err(ParseError { line: line_no, message: m });
    }
    let path = string_of(&path_chars);
    assert(classify(raw, unit) == LineOutcome::Good(size, path_chars@));
    let ghost es = views(entries@);
    match seen.find(&path_chars) {
        Some(j) => {
            let m = quoted_message("duplicate path ", &path_chars, "");
            assert(es[j as int].path == path@);
            assert("duplicate path "@ + debug_quoted(path@) + ""@ =~= "duplicate path "@
                + debug_quoted(path@)) by {
                reveal_strlit("");
            }
            return Err(ParseError { line: line_no, message: m });
        },
        None => {
            assert(!has_path(es, path@)) by {
                if has_path(es, path@) {
                    let k = choose|k: int| 0 <= k < es.len() && #[trigger] es[k].path == path@;
                    assert(seen@[k] == path_chars@);
                }
            }
        },
    }
    seen.add(path_chars);
    let ghost pv = path@;
    entries.push(Entry { size, path, line: line_no });
    assert(views(entries@) =~= es.push(EntryView { size, path: pv, line: line_no as nat }));
    assert(seen@ =~= entry_paths(views(entries@)));
    Ok(())
}

} // verus!

verus! {

/// The characters of each entry's path.
pub(crate) fn path_chars(entries: &[Entry]) -> (paths: Vec<Vec<char>>)
    ensures
        paths@.len() == entries@.len(),
        forall|k: int| 0 <= k < entries@.len() ==> #[trigger] paths@[k]@ == entries@[k].path@,
{
    let mut paths: Vec<Vec<char>> = Vec::new();
    let mut k: usize = 0;
    while k < entries.len()
        invariant
            k <= entries@.len(),
            paths@.len() == k,
            forall|j: int| 0 <= j < k ==> #[trigger] paths@[j]@ == entries@[j].path@,
        decreases entries@.len() - k,
    {
        let cs = chars_of(entries[k].path.as_str());
        paths.push(cs);
        k = k + 1;
    }
    paths
}

/// Checks that every entry except a root has its parent directory present as
/// an entry of its own; otherwise the tree has a hole in it. Reports the first
/// entry, in report order, whose parent is missing.
pub fn validate_tree(entries: &[Entry]) -> (r: Result<(), ParseError>)
    ensures
        match first_orphan(views(entries@), 0) {
            None => r is Ok,
            Some(j) => r matches Err(e) && reports(e, orphan_fault(views(entries@), j)),
        },
{
    let ghost es = views(entries@);
    let paths = path_chars(entries);
    let table = table_of(&paths);
    let n = entries.len();
    let mut j: usize = 0;
    while j < n
        invariant
            j <= n == entries@.len() == paths@.len(),
            es == views(entries@),
            forall|k: int| 0 <= k < n ==> #[trigger] paths@[k]@ == entries@[k].path@,
            first_orphan(es, 0) == first_orphan(es, j as int),
            table.wf(),
            table@ == paths@.map_values(|p: Vec<char>| p@),
        decreases n - j,
    {
        match parent_len(&paths[j]) {
            None => {},
            Some(l) => {
                let ghost q = paths@[j as int]@.take(l as int);
                let mut found = false;
                if l == 1 && paths[j][0] == '/' {
                    assert(q =~= seq!['/']);
                    found = true;
                } else {
                    assert(q != seq!['/']) by {
                        if q == seq!['/'] {
                            assert(q[0] == paths@[j as int]@[0]);
                        }
                    }
                    let parent = copy_range(&paths[j], 0, l);
                    assert(parent@ =~= q);
                    match table.find(&parent) {
                        Some(k) => {
                            assert(table@[k as int] == paths@[k as int]@);
                            assert(es[k as int].path == q);
                            found = true;
                        },
                        None => {
                            assert forall|i: int| 0 <= i < n implies #[trigger] es[i].path != q by {
                                assert(table@[i] == paths@[i]@);
                            }
                        },
                    }
                }
                if !found {
                    assert(orphan(es, j as int));
                    let parent = copy_range(&paths[j], 0, l);
                    assert(parent@ =~= q);
                    let mut msg: Vec<char> = Vec::new();
                    push_str(&mut msg, "path ");
                    let qp = debug_quote(&paths[j]);
                    push_all(&mut msg, &qp);
                    push_str(&mut msg, " has no matching parent entry ");
                    let qq = debug_quote(&parent);
                    push_all(&mut msg, &qq);
                    let m = string_of(&msg);
                    return Err(ParseError { line: entries[j].line, message: m });
                }
            },
        }
        j = j + 1;
    }
    Ok(())
}

} // verus!

verus! {

/// There is always at least one piece.
pub proof fn lemma_pieces_len(s: Seq<char>)
    ensures
        pieces(s).len() >= 1,
    decreases s.len(),
{
    if s.len() > 0 {
        lemma_pieces_len(s.drop_last());
    }
}

/// Reading further never changes a piece that a `\n` has already ended.
pub proof fn lemma_pieces_grow(s: Seq<char>, i: int, j: int)
    requires
        0 <= i <= j <= s.len(),
    ensures
        pieces(s.take(i)).len() <= pieces(s.take(j)).len(),
        forall|m: int|
            0 <= m < pieces(s.take(i)).len() - 1 ==> #[trigger] pieces(s.take(j))[m] == pieces(
                s.take(i),
            )[m],
    decreases j - i,
{
    if i < j {
        lemma_pieces_grow(s, i, j - 1);
        let t = s.take(j);
        assert(t.drop_last() =~= s.take(j - 1));
        lemma_pieces_len(s.take(j - 1));
    }
}

/// A fault among the first lines is the fault of every longer run of lines.
pub proof fn lemma_scan_fault_stays(ls: Seq<Seq<char>>, more: Seq<Seq<char>>, unit: SizeUnit)
    requires
        ls.len() <= more.len(),
        more.take(ls.len() as int) == ls,
        scan(ls, unit) is Err,
    ensures
        scan(more, unit) == scan(ls, unit),
    decreases more.len(),
{
    if more.len() > ls.len() {
        assert(more.drop_last().take(ls.len() as int) =~= ls);
        lemma_scan_fault_stays(ls, more.drop_last(), unit);
    } else {
        assert(more =~= ls);
    }
}

/// The lines that end before position `i`, read in order, begin `lines(s)`.
pub proof fn lemma_ended_lines_prefix(s: Seq<char>, i: int)
    requires
        0 <= i <= s.len(),
    ensures
        ({
            let ended = pieces(s.take(i)).drop_last().map_values(|l: Seq<char>| strip_cr(l));
            ended.len() <= lines(s).len() && lines(s).take(ended.len() as int) == ended
        }),
{
    lemma_pieces_grow(s, i, s.len() as int);
    lemma_pieces_len(s.take(i));
    lemma_pieces_len(s);
    assert(s.take(s.len() as int) =~= s);
    let ended = pieces(s.take(i)).drop_last().map_values(|l: Seq<char>| strip_cr(l));
    let all = pieces(s).drop_last().map_values(|l: Seq<char>| strip_cr(l));
    assert(lines(s).take(ended.len() as int) =~= ended) by {
        assert forall|m: int| 0 <= m < ended.len() implies lines(s)[m] == ended[m] by {
            assert(pieces(s)[m] == pieces(s.take(i))[m]);
            assert(lines(s)[m] == all[m]);
        }
    }
}

/// Parses a `du` report whose sizes are in `unit`: one entry per non-blank
/// line, in report order, each numbered by its line. Refuses the report at its
/// first fault: a malformed line, a duplicate path, or (once every line is
/// sound) an entry whose parent directory has no line of its own.
pub fn parse(input: &str, unit: SizeUnit) -> (r: Result<Vec<Entry>, ParseError>)
    ensures
        match parse_report(input@, unit) {
            Ok(es) => r matches Ok(v) && views(v@) == es,
            Err(f) => r matches Err(e) && reports(e, f),
        },
{
    let chars = chars_of(input);
    let n = chars.len();
    let mut entries: Vec<Entry> = Vec::new();
    let mut seen = PathTable::new(if n / 16 < 1_000_000 { n / 16 + 1 } else { 1_000_000 });
    let ghost mut ls: Seq<Seq<char>> = Seq::empty();
    let mut start: usize = 0;
    let mut i: usize = 0;
    let mut count: usize = 0;
    proof {
        assert(chars@.take(0) =~= Seq::<char>::empty());
        assert(chars@.subrange(0, 0) =~= Seq::<char>::empty());
        assert(pieces(chars@.take(0)).drop_last() =~= Seq::<Seq<char>>::empty());
        assert(ls =~= pieces(chars@.take(0)).drop_last().map_values(|l: Seq<char>| strip_cr(l)));
        assert(views(entries@) =~= Seq::<EntryView>::empty());
        assert(entry_paths(views(entries@)) =~= Seq::<Seq<char>>::empty());
    }
    while i < n
        invariant
            start <= i <= n == chars@.len(),
            chars@ == input@,
            pieces(chars@.take(i as int)).len() >= 1,
            pieces(chars@.take(i as int)).last() == chars@.subrange(start as int, i as int),
            ls == pieces(chars@.take(i as int)).drop_last().map_values(|l: Seq<char>| strip_cr(l)),
            count == ls.len(),
            count <= start,
            scan(ls, unit) == Ok::<Seq<EntryView>, FaultAt>(views(entries@)),
            seen.wf(),
            seen@ == entry_paths(views(entries@)),
        decreases n - i,
    {
        let ghost prev = pieces(chars@.take(i as int));
        assert(chars@.take(i + 1).drop_last() =~= chars@.take(i as int));
        if chars[i] == '\n' {
            let end = if start < i && chars[i - 1] == '\r' {
                i - 1
            } else {
                i
            };
            let ghost piece = chars@.subrange(start as int, i as int);
            assert(chars@.subrange(start as int, end as int) == strip_cr(piece)) by {
                if start < i && chars@[i - 1] == '\r' {
                    assert(piece.drop_last() =~= chars@.subrange(start as int, end as int));
                }
            }
            count = count + 1;
            let ghost next = ls.push(strip_cr(piece));
            assert(pieces(chars@.take(i + 1)) == prev.push(Seq::<char>::empty()));
            assert(pieces(chars@.take(i + 1)).drop_last() =~= prev);
            assert(next =~= prev.map_values(|l: Seq<char>| strip_cr(l))) by {
                assert(prev =~= prev.drop_last().push(piece));
            }
            assert(next.drop_last() =~= ls);
            let res = read_line(&chars, start, end, count, unit, &mut entries, &mut seen);
            proof {
                ls = next;
            }
            match res {
                Err(e) => {
                    proof {
                        lemma_ended_lines_prefix(chars@, i + 1);
                        lemma_scan_fault_stays(ls, lines(chars@), unit);
                    }
                    return Err(e);
                },
                Ok(()) => {},
            }
            start = i + 1;
            assert(chars@.subrange(start as int, i + 1) =~= Seq::<char>::empty());
        } else {
            assert(pieces(chars@.take(i + 1)) == prev.update(
                prev.len() - 1,
                prev.last().push(chars@[i as int]),
            ));
            assert(pieces(chars@.take(i + 1)).drop_last() =~= prev.drop_last());
            assert(chars@.subrange(start as int, i + 1) =~= chars@.subrange(
                start as int,
                i as int,
            ).push(chars@[i as int]));
        }
        i = i + 1;
    }
    assert(chars@.take(n as int) =~= chars@);
    if start < n {
        count = count + 1;
        let ghost last = chars@.subrange(start as int, n as int);
        assert(lines(chars@) == ls.push(last));
        let res = read_line(&chars, start, n, count, unit, &mut entries, &mut seen);
        proof {
            assert(ls.push(last).drop_last() =~= ls);
            ls = ls.push(last);
        }
        match res {
            Err(e) => {
                return Err(e);
            },
            Ok(()) => {},
        }
    } else {
        assert(chars@.subrange(start as int, n as int) =~= Seq::<char>::empty());
        assert(lines(chars@) == ls);
    }
    assert(scan(lines(chars@), unit) == Ok::<Seq<EntryView>, FaultAt>(views(entries@)));
    match validate_tree(&entries) {
        Err(e) => Err(e),
        Ok(()) => Ok(entries),
    }
}

} // verus!

verus! {

impl ParseError {
    /// The error as it is shown to people: `line N: message`.
    pub fn describe(&self) -> (s: String)
        ensures
            s@ == "line "@ + crate::text::decimal(self.line as nat) + ": "@ + self.message@,
    {
        let mut v: Vec<char> = chars_of("line ");
        crate::text::push_decimal(&mut v, self.line as u128);
        push_str(&mut v, ": ");
        let m = chars_of(self.message.as_str());
        push_all(&mut v, &m);
        string_of(&v)
    }
}

} // verus!

verus! {

/// No entry from `j` on misses its parent directory exactly when
/// `first_orphan` finds none from `j` on.
proof fn lemma_first_orphan_none(es: Seq<EntryView>, j: int)
    requires
        0 <= j <= es.len(),
    ensures
        first_orphan(es, j) is None <==> forall|k: int| j <= k < es.len() ==> !#[trigger] orphan(es, k),
    decreases es.len() - j,
{
    if j < es.len() {
        lemma_first_orphan_none(es, j + 1);
    }
}

/// The tree check does not depend on the order of the report: a parent may
/// come before or after its children. Two reports with the same entries, each
/// as often, pass or fail it alike.
pub proof fn law_tree_check_ignores_order(a: Seq<EntryView>, b: Seq<EntryView>)
    requires
        a.to_multiset() == b.to_multiset(),
    ensures
        valid_tree(a) == valid_tree(b),
{
    broadcast use vstd::seq_lib::group_to_multiset_ensures;

    lemma_first_orphan_none(a, 0);
    lemma_first_orphan_none(b, 0);
    assert forall|q: Seq<char>| has_path(a, q) == has_path(b, q) by {
        if has_path(a, q) {
            let k = choose|k: int| 0 <= k < a.len() && #[trigger] a[k].path == q;
            assert(a.to_multiset().count(a[k]) > 0);
            assert(b.contains(a[k]));
            let w = choose|w: int| 0 <= w < b.len() && b[w] == a[k];
            assert(b[w].path == q);
        }
        if has_path(b, q) {
            let k = choose|k: int| 0 <= k < b.len() && #[trigger] b[k].path == q;
            assert(b.to_multiset().count(b[k]) > 0);
            assert(a.contains(b[k]));
            let w = choose|w: int| 0 <= w < a.len() && a[w] == b[k];
            assert(a[w].path == q);
        }
    }
    if valid_tree(a) {
        assert forall|k: int| 0 <= k < b.len() implies !#[trigger] orphan(b, k) by {
            assert(b.to_multiset().count(b[k]) > 0);
            assert(a.contains(b[k]));
            let w = choose|w: int| 0 <= w < a.len() && a[w] == b[k];
            assert(!orphan(a, w));
        }
    }
    if valid_tree(b) {
        assert forall|k: int| 0 <= k < a.len() implies !#[trigger] orphan(a, k) by {
            assert(a.to_multiset().count(a[k]) > 0);
            assert(b.contains(a[k]));
            let w = choose|w: int| 0 <= w < b.len() && b[w] == a[k];
            assert(!orphan(b, w));
        }
    }
}

/// No two entries have the same path.
pub open spec fn distinct_paths(es: Seq<EntryView>) -> bool {
    forall|a: int, b: int|
        0 <= a < es.len() && 0 <= b < es.len() && a != b ==> #[trigger] es[a].path
            != #[trigger] es[b].path
}

/// Scanning lines gives entries with distinct paths, numbered by strictly
/// increasing lines between 1 and the number of lines.
proof fn lemma_scan_entries(ls: Seq<Seq<char>>, unit: SizeUnit)
    ensures
        scan(ls, unit) matches Ok(es) ==> {
            &&& distinct_paths(es)
            &&& forall|k: int| 0 <= k < es.len() ==> 1 <= #[trigger] es[k].line <= ls.len()
            &&& forall|a: int, b: int|
                0 <= a < b < es.len() ==> #[trigger] es[a].line < #[trigger] es[b].line
        },
    decreases ls.len(),
{
    if ls.len() > 0 {
        lemma_scan_entries(ls.drop_last(), unit);
        if let Ok(es0) = scan(ls.drop_last(), unit) {
            if let LineOutcome::Good(size, path) = classify(ls.last(), unit) {
                if !has_path(es0, path) {
                    let es = es0.push(EntryView { size, path, line: ls.len() });
                    assert forall|a: int, b: int|
                        0 <= a < es.len() && 0 <= b < es.len() && a != b implies #[trigger] es[a].path
                        != #[trigger] es[b].path by {
                        if a == es0.len() {
                            assert(es0[b].path == es[b].path);
                        } else if b == es0.len() {
                            assert(es0[a].path == es[a].path);
                        } else {
                            assert(es0[a] == es[a] && es0[b] == es[b]);
                        }
                    }
                    assert forall|a: int, b: int|
                        0 <= a < b < es.len() implies #[trigger] es[a].line < #[trigger] es[b].line by {
                        assert(es[a] == es0[a]);
                        if b < es0.len() {
                            assert(es[b] == es0[b]);
                        }
                    }
                    assert forall|k: int| 0 <= k < es.len() implies 1 <= #[trigger] es[k].line
                        <= ls.len() by {
                        if k < es0.len() {
                            assert(es[k] == es0[k]);
                        }
                    }
                }
            }
        }
    }
}

/// A report that parses gives a tree: no two entries share a path, every
/// entry's parent directory (the filesystem root `/` aside) is an entry of its
/// own, and the entries come in report order, numbered by strictly increasing
/// lines between 1 and the number of lines.
pub proof fn law_parsed_report_is_a_tree(input: Seq<char>, unit: SizeUnit)
    ensures
        parse_report(input, unit) matches Ok(es) ==> {
            &&& distinct_paths(es)
            &&& valid_tree(es)
            &&& forall|k: int| 0 <= k < es.len() ==> 1 <= #[trigger] es[k].line <= lines(input).len()
            &&& forall|a: int, b: int|
                0 <= a < b < es.len() ==> #[trigger] es[a].line < #[trigger] es[b].line
        },
{
    lemma_scan_entries(lines(input), unit);
}

} // verus!

verus! {

/// `blocks` is `bytes` with every size multiplied by 512.
pub open spec fn scaled_by_512(bytes: Seq<EntryView>, blocks: Seq<EntryView>) -> bool {
    &&& bytes.len() == blocks.len()
    &&& forall|k: int|
        0 <= k < bytes.len() ==> {
            &&& #[trigger] blocks[k].path == bytes[k].path
            &&& blocks[k].line == bytes[k].line
            &&& blocks[k].size == 512 * bytes[k].size
        }
}

/// Every size, counted in 512-byte blocks, still fits in a `u64` as bytes.
pub open spec fn blocks_fit(es: Seq<EntryView>) -> bool {
    forall|k: int| 0 <= k < es.len() ==> #[trigger] es[k].size * 512 <= u64::MAX
}

/// Entries with the same paths have the same paths present.
proof fn lemma_same_paths_has_path(a: Seq<EntryView>, b: Seq<EntryView>, p: Seq<char>)
    requires
        a.len() == b.len(),
        forall|k: int| 0 <= k < a.len() ==> #[trigger] b[k].path == a[k].path,
    ensures
        has_path(a, p) == has_path(b, p),
{
    if has_path(a, p) {
        let k = choose|k: int| 0 <= k < a.len() && #[trigger] a[k].path == p;
        assert(b[k].path == p);
    }
    if has_path(b, p) {
        let k = choose|k: int| 0 <= k < b.len() && #[trigger] b[k].path == p;
        assert(a[k].path == p);
    }
}

/// Entries with the same paths miss the same parents.
proof fn lemma_same_paths_orphans(a: Seq<EntryView>, b: Seq<EntryView>, j: int)
    requires
        a.len() == b.len(),
        forall|k: int| 0 <= k < a.len() ==> #[trigger] b[k].path == a[k].path,
    ensures
        first_orphan(a, j) == first_orphan(b, j),
    decreases a.len() - j,
{
    if 0 <= j < a.len() {
        assert(b[j].path == a[j].path);
        if let Some(q) = parent_of(a[j].path) {
            lemma_same_paths_has_path(a, b, q);
        }
        lemma_same_paths_orphans(a, b, j + 1);
    }
}

/// A line reads the same in blocks as in bytes, but for its size.
proof fn lemma_classify_units(raw: Seq<char>)
    ensures
        classify(raw, SizeUnit::Blocks512) is Blank <==> classify(raw, SizeUnit::Bytes) is Blank,
        match classify(raw, SizeUnit::Blocks512) {
            LineOutcome::Good(s2, p) => classify(raw, SizeUnit::Bytes) matches LineOutcome::Good(
                s1,
                q,
            ) && q == p && s2 == 512 * s1,
            _ => true,
        },
        match classify(raw, SizeUnit::Bytes) {
            LineOutcome::Good(s1, p) => s1 * 512 <= u64::MAX ==> classify(raw, SizeUnit::Blocks512)
                == LineOutcome::Good((s1 * 512) as u64, p),
            _ => true,
        },
{
}

/// Reading lines in blocks gives the entries that reading them in bytes
/// gives, sizes times 512, when those fit.
#[verifier::spinoff_prover]
proof fn lemma_scan_units(ls: Seq<Seq<char>>)
    ensures
        match scan(ls, SizeUnit::Blocks512) {
            Ok(e2) => scan(ls, SizeUnit::Bytes) matches Ok(e1) && scaled_by_512(e1, e2),
            Err(_) => true,
        },
        match scan(ls, SizeUnit::Bytes) {
            Ok(e1) => blocks_fit(e1) ==> (scan(ls, SizeUnit::Blocks512) matches Ok(e2)
                && scaled_by_512(e1, e2)),
            Err(_) => true,
        },
    decreases ls.len(),
{
    if ls.len() > 0 {
        let prev = ls.drop_last();
        lemma_scan_units(prev);
        let raw = ls.last();
        let n = ls.len();
        lemma_classify_units(raw);
        if let Ok(e2) = scan(ls, SizeUnit::Blocks512) {
            let e2p = scan(prev, SizeUnit::Blocks512)->Ok_0;
            let e1p = scan(prev, SizeUnit::Bytes)->Ok_0;
            match classify(raw, SizeUnit::Blocks512) {
                LineOutcome::Good(s2, p) => {
                    lemma_same_paths_has_path(e1p, e2p, p);
                    let s1 = classify(raw, SizeUnit::Bytes)->Good_0;
                    let e1 = e1p.push(EntryView { size: s1, path: p, line: n });
                    assert(scan(ls, SizeUnit::Bytes) == Ok::<Seq<EntryView>, FaultAt>(e1));
                    assert forall|k: int| 0 <= k < e1.len() implies {
                        &&& #[trigger] e2[k].path == e1[k].path
                        &&& e2[k].line == e1[k].line
                        &&& e2[k].size == 512 * e1[k].size
                    } by {
                        if k < e1p.len() {
                            assert(e1[k] == e1p[k] && e2[k] == e2p[k]);
                        }
                    }
                },
                _ => {},
            }
        }
        if let Ok(e1) = scan(ls, SizeUnit::Bytes) {
            if blocks_fit(e1) {
                let e1p = scan(prev, SizeUnit::Bytes)->Ok_0;
                assert(blocks_fit(e1p)) by {
                    assert forall|k: int| 0 <= k < e1p.len() implies #[trigger] e1p[k].size * 512
                        <= u64::MAX by {
                        assert(e1[k] == e1p[k]);
                    }
                }
                let e2p = scan(prev, SizeUnit::Blocks512)->Ok_0;
                match classify(raw, SizeUnit::Bytes) {
                    LineOutcome::Good(s1, p) => {
                        lemma_same_paths_has_path(e1p, e2p, p);
                        assert(e1[e1.len() - 1].size == s1);
                        let e2 = e2p.push(EntryView { size: (s1 * 512) as u64, path: p, line: n });
                        assert(scan(ls, SizeUnit::Blocks512) == Ok::<Seq<EntryView>, FaultAt>(e2));
                        assert forall|k: int| 0 <= k < e1.len() implies {
                            &&& #[trigger] e2[k].path == e1[k].path
                            &&& e2[k].line == e1[k].line
                            &&& e2[k].size == 512 * e1[k].size
                        } by {
                            if k < e1p.len() {
                                assert(e1[k] == e1p[k] && e2[k] == e2p[k]);
                            }
                        }
                    },
                    _ => {},
                }
            }
        }
    }
}

/// `--size-unit=blocks` only scales: a report read in 512-byte blocks gives
/// the entries (paths, lines, order) of the same report read in bytes, each
/// size times 512; and a report that reads in bytes reads in blocks whenever
/// its sizes, times 512, fit in a `u64`.
pub proof fn law_blocks_are_512_bytes(input: Seq<char>)
    ensures
        match parse_report(input, SizeUnit::Blocks512) {
            Ok(e2) => parse_report(input, SizeUnit::Bytes) matches Ok(e1) && scaled_by_512(e1, e2),
            Err(_) => true,
        },
        match parse_report(input, SizeUnit::Bytes) {
            Ok(e1) => blocks_fit(e1) ==> (parse_report(input, SizeUnit::Blocks512) matches Ok(e2)
                && scaled_by_512(e1, e2)),
            Err(_) => true,
        },
{
    let ls = lines(input);
    lemma_scan_units(ls);
    if let (Ok(e1), Ok(e2)) = (scan(ls, SizeUnit::Bytes), scan(ls, SizeUnit::Blocks512)) {
        if scaled_by_512(e1, e2) {
            lemma_same_paths_orphans(e1, e2, 0);
        }
    }
}

} // verus!

verus! {

/// `x`, a `/`, then `n`: its last `/` is the one after `x`, when `n` holds
/// none.
proof fn lemma_last_slash_after(x: Seq<char>, n: Seq<char>)
    requires
        !n.contains('/'),
    ensures
        last_slash(x + seq!['/'] + n) == Some(x.len() as int),
    decreases n.len(),
{
    let p = x + seq!['/'] + n;
    if n.len() == 0 {
        assert(p.last() == '/');
    } else {
        assert(p.last() == n.last());
        assert(n[n.len() - 1] == n.last());
        assert(!n.drop_last().contains('/')) by {
            if n.drop_last().contains('/') {
                let w = choose|w: int| 0 <= w < n.drop_last().len() && n.drop_last()[w] == '/';
                assert(n[w] == '/');
            }
        }
        lemma_last_slash_after(x, n.drop_last());
        assert(p.drop_last() =~= x + seq!['/'] + n.drop_last());
    }
}

/// The directory that holds a path is what precedes its last `/`: a path
/// made of a directory `q`, a `/` and a name without `/` has the parent `q`,
/// whatever `q` is (`.`, a relative path, an absolute one); a name right
/// under the root has the parent `/`; and exactly `/`, `.` and the paths
/// without any `/` have no parent.
pub proof fn law_parent_is_what_precedes_the_last_slash(q: Seq<char>, name: Seq<char>, p: Seq<char>)
    requires
        q.len() > 0,
        name.len() > 0,
        !name.contains('/'),
    ensures
        parent_of(q + seq!['/'] + name) == Some(q),
        parent_of(seq!['/'] + name) == Some(seq!['/']),
        parent_of(p) is None <==> (p == seq!['/'] || p == seq!['.'] || !p.contains('/')),
{
    let a = q + seq!['/'] + name;
    lemma_last_slash_after(q, name);
    assert(a.len() >= 3);
    assert(a != seq!['/'] && a != seq!['.']) by {
        if a == seq!['/'] || a == seq!['.'] {
            assert(a.len() == 1);
        }
    }
    assert(a.take(q.len() as int) =~= q);
    let e = Seq::<char>::empty();
    lemma_last_slash_after(e, name);
    let b = seq!['/'] + name;
    assert(e + seq!['/'] + name =~= b);
    assert(b != seq!['/'] && b != seq!['.']) by {
        if b == seq!['/'] || b == seq!['.'] {
            assert(b.len() == 1);
        }
    }
    lemma_last_slash(p);
    if p.contains('/') && p != seq!['/'] && p != seq!['.'] {
        let w = choose|w: int| 0 <= w < p.len() && p[w] == '/';
        assert(last_slash(p) is Some);
    }
    if !p.contains('/') {
        if last_slash(p) is Some {
            let k = last_slash(p)->0;
            assert(p[k] == '/');
        }
    }
}

/// The number of pieces is one more than the number of `\n`s, and the last
/// piece is empty exactly when `s` is empty or ends with `\n`; it is what
/// follows the last `\n` (or all of `s`).
proof fn lemma_pieces_shape(s: Seq<char>)
    ensures
        pieces(s).len() == newlines(s) + 1,
        pieces(s).last().len() == 0 <==> (s.len() == 0 || s.last() == '\n'),
        exists|k: int|
            0 <= k <= s.len() && (k == 0 || s[k - 1] == '\n') && #[trigger] s.skip(k)
                == pieces(s).last() && !s.skip(k).contains('\n'),
    decreases s.len(),
{
    if s.len() == 0 {
        assert(s.skip(0) =~= pieces(s).last());
    } else {
        let d = s.drop_last();
        lemma_pieces_shape(d);
        let k0 = choose|k: int|
            0 <= k <= d.len() && (k == 0 || d[k - 1] == '\n') && #[trigger] d.skip(k)
                == pieces(d).last() && !d.skip(k).contains('\n');
        if s.last() == '\n' {
            let k = s.len() as int;
            assert(s.skip(k) =~= Seq::<char>::empty());
            assert(s.skip(k) == pieces(s).last());
        } else {
            assert(s.skip(k0) =~= d.skip(k0).push(s.last()));
            assert(s.skip(k0) == pieces(s).last());
            assert(!s.skip(k0).contains('\n')) by {
                if s.skip(k0).contains('\n') {
                    let w = choose|w: int| 0 <= w < s.skip(k0).len() && s.skip(k0)[w] == '\n';
                    if w < d.skip(k0).len() {
                        assert(d.skip(k0)[w] == '\n');
                    }
                }
            }
            if k0 > 0 {
                assert(s[k0 - 1] == d[k0 - 1]);
            }
        }
    }
}

/// The lines are what `str::lines` gives: one per `\n`, and one more for the
/// text after the last `\n` when the input does not end with `\n`; that last
/// line is all of what follows the last `\n`.
pub proof fn law_lines_are_str_lines(s: Seq<char>)
    ensures
        lines(s).len() == newlines(s) + (if s.len() > 0 && s.last() != '\n' {
            1nat
        } else {
            0nat
        }),
        s.len() > 0 && s.last() != '\n' ==> exists|k: int|
            0 <= k <= s.len() && (k == 0 || s[k - 1] == '\n') && #[trigger] s.skip(k)
                == lines(s).last() && !s.skip(k).contains('\n'),
{
    lemma_pieces_shape(s);
}

/// What scanning the lines gives: every line that is not blank gives an
/// entry numbered by that line, and a blank one gives none.
proof fn lemma_scan_lines_read(ls: Seq<Seq<char>>, unit: SizeUnit)
    ensures
        scan(ls, unit) matches Ok(es) ==> forall|k: int|
            0 <= k < ls.len() ==> (trim_end(#[trigger] ls[k]).len() > 0 <==> exists|j: int|
                0 <= j < es.len() && es[j].line == k + 1),
        scan(ls, unit) matches Ok(es) ==> forall|j: int|
            0 <= j < es.len() ==> 1 <= #[trigger] es[j].line <= ls.len(),
    decreases ls.len(),
{
    if ls.len() > 0 {
        let prev = ls.drop_last();
        lemma_scan_lines_read(prev, unit);
        if let Ok(es) = scan(ls, unit) {
            let es0 = scan(prev, unit)->Ok_0;
            let n = ls.len() - 1;
            assert forall|j: int| 0 <= j < es.len() implies 1 <= #[trigger] es[j].line <= ls.len() by {
                if j < es0.len() {
                    assert(es[j] == es0[j]);
                }
            }
            assert forall|k: int| 0 <= k < ls.len() implies (trim_end(#[trigger] ls[k]).len() > 0
                <==> exists|j: int| 0 <= j < es.len() && es[j].line == k + 1) by {
                if k < n {
                    assert(ls[k] == prev[k]);
                    if exists|j: int| 0 <= j < es.len() && es[j].line == k + 1 {
                        let j = choose|j: int| 0 <= j < es.len() && es[j].line == k + 1;
                        if j < es0.len() {
                            assert(es[j] == es0[j]);
                        }
                    }
                    if exists|j: int| 0 <= j < es0.len() && es0[j].line == k + 1 {
                        let j = choose|j: int| 0 <= j < es0.len() && es0[j].line == k + 1;
                        assert(es[j] == es0[j]);
                    }
                } else {
                    assert(ls[k] == ls.last());
                    if trim_end(ls.last()).len() > 0 {
                        assert(es[es.len() - 1].line == k + 1);
                    } else {
                        assert(es == es0);
                        if exists|j: int| 0 <= j < es.len() && es[j].line == k + 1 {
                            let j = choose|j: int| 0 <= j < es.len() && es[j].line == k + 1;
                            assert(1 <= es0[j].line <= prev.len());
                        }
                    }
                }
            }
        }
    }
}

/// A report that parses gives one entry for each line that is not blank,
/// numbered by that line (the last line too, with or without a final
/// newline), and none for a blank line.
pub proof fn law_every_line_is_read(input: Seq<char>, unit: SizeUnit)
    ensures
        parse_report(input, unit) matches Ok(es) ==> forall|k: int|
            0 <= k < lines(input).len() ==> (trim_end(#[trigger] lines(input)[k]).len() > 0
                <==> exists|j: int| 0 <= j < es.len() && es[j].line == k + 1),
{
    lemma_scan_lines_read(lines(input), unit);
}

/// A report passes the tree check exactly when the parent directory of each
/// entry, but the filesystem root `/`, is the path of some entry.
pub proof fn law_tree_means_parents_present(es: Seq<EntryView>)
    ensures
        valid_tree(es) <==> forall|j: int|
            0 <= j < es.len() && #[trigger] parent_of(es[j].path) is Some && parent_of(
                es[j].path,
            )->0 != seq!['/'] ==> exists|k: int|
                0 <= k < es.len() && es[k].path == parent_of(es[j].path)->0,
{
    lemma_first_orphan_none(es, 0);
    if valid_tree(es) {
        assert forall|j: int|
            0 <= j < es.len() && #[trigger] parent_of(es[j].path) is Some && parent_of(
                es[j].path,
            )->0 != seq!['/'] implies exists|k: int|
            0 <= k < es.len() && es[k].path == parent_of(es[j].path)->0 by {
            assert(!orphan(es, j));
        }
    }
    if forall|j: int|
        0 <= j < es.len() && #[trigger] parent_of(es[j].path) is Some && parent_of(
            es[j].path,
        )->0 != seq!['/'] ==> exists|k: int|
            0 <= k < es.len() && es[k].path == parent_of(es[j].path)->0 {
        assert forall|j: int| 0 <= j < es.len() implies !#[trigger] orphan(es, j) by {
            if let Some(q) = parent_of(es[j].path) {
                if q != seq!['/'] {
                    assert(parent_of(es[j].path) is Some);
                    let k = choose|k: int| 0 <= k < es.len() && es[k].path == q;
                    assert(es[k].path == q);
                    assert(has_path(es, q));
                }
            }
        }
    }
}

} // verus!

verus! {

/// The pieces `ps` with a `\n` between each two.
pub open spec fn joined(ps: Seq<Seq<char>>) -> Seq<char>
    decreases ps.len(),
{
    if ps.len() == 0 {
        Seq::empty()
    } else if ps.len() == 1 {
        ps[0]
    } else {
        joined(ps.drop_last()) + seq!['\n'] + ps.last()
    }
}

/// The input is split at its newlines and nowhere else: its pieces hold no
/// `\n` and, joined with `\n` between them, give the input back; its lines
/// are those pieces, each one that a newline ends without a final `\r`.
pub proof fn law_lines_split_at_newlines(s: Seq<char>)
    ensures
        joined(pieces(s)) == s,
        forall|m: int| 0 <= m < pieces(s).len() ==> !(#[trigger] pieces(s)[m]).contains('\n'),
        forall|m: int| 0 <= m < newlines(s) ==> #[trigger] lines(s)[m] == strip_cr(pieces(s)[m]),
    decreases s.len(),
{
    lemma_pieces_shape(s);
    if s.len() > 0 {
        let d = s.drop_last();
        let c = s.last();
        law_lines_split_at_newlines(d);
        lemma_pieces_len(d);
        let p = pieces(d);
        let r = pieces(s);
        assert(d.push(c) =~= s);
        if c == '\n' {
            assert(r == p.push(Seq::<char>::empty()));
            assert(r.drop_last() =~= p);
            assert(joined(r) =~= d + seq!['\n'] + Seq::<char>::empty());
            assert forall|m: int| 0 <= m < r.len() implies !(#[trigger] r[m]).contains('\n') by {
                if m < p.len() {
                    assert(r[m] == p[m]);
                }
            }
        } else {
            assert(r == p.update(p.len() - 1, p.last().push(c)));
            if p.len() == 1 {
                assert(joined(p) == p[0]);
                assert(joined(r) =~= d.push(c));
            } else {
                assert(r.drop_last() =~= p.drop_last());
                assert(joined(r) =~= joined(p.drop_last()) + seq!['\n'] + p.last().push(c));
                assert(joined(p) == joined(p.drop_last()) + seq!['\n'] + p.last());
                assert(joined(r) =~= joined(p).push(c));
            }
            assert forall|m: int| 0 <= m < r.len() implies !(#[trigger] r[m]).contains('\n') by {
                if m < p.len() - 1 {
                    assert(r[m] == p[m]);
                } else {
                    assert(!p[p.len() - 1].contains('\n'));
                    if r[m].contains('\n') {
                        let w = choose|w: int| 0 <= w < r[m].len() && r[m][w] == '\n';
                        if w < p.last().len() {
                            assert(p.last()[w] == '\n');
                        }
                    }
                }
            }
        }
    }
}

} // verus!

verus! {

/// A line's fields: the size is everything before the first whitespace
/// character, and the path is what follows that one character, leading
/// whitespace removed; a line without whitespace is all size and no path.
pub proof fn law_line_fields(size: Seq<char>, w: char, rest: Seq<char>)
    requires
        forall|i: int| 0 <= i < size.len() ==> !is_ws(#[trigger] size[i]),
    ensures
        is_ws(w) ==> size_field(size + seq![w] + rest) == size && path_field(size + seq![w] + rest)
            == trim_start(rest),
        size_field(size) == size && path_field(size) == Seq::<char>::empty(),
{
    let t = size + seq![w] + rest;
    if is_ws(w) {
        assert forall|j: int| 0 <= j < size.len() implies !is_ws(#[trigger] t[j]) by {
            assert(t[j] == size[j]);
        }
        assert(t[size.len() as int] == w);
        lemma_first_ws_unique(t, size.len() as int);
        assert(t.take(size.len() as int) =~= size);
        assert(t.skip(size.len() as int + 1) =~= rest);
    }
    lemma_first_ws_unique(size, size.len() as int);
    assert(size.take(size.len() as int) =~= size);
}

} // verus!
