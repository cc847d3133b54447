//! The text form of a sheet: one line per row, the cells of a row
//! separated by `|`, each cell's text trimmed, empty cells left out.
use vstd::prelude::*;

use crate::common_types::{Cell, Index, Numeric};
use crate::dependancy_graph::{edge, lemma_added_node_exact};
use crate::parser::{cell_outcome, raw_is_readable, raw_readable};
use crate::spreadsheet::{deps_of, same_reading_of, SpreadSheet};
use crate::text::{chars_of, is_whitespace, run_end, string_from_range, unicode_whitespace};

verus! {

/// The pieces of `s` between the separators `sep`, as `str::split` gives
/// them: always at least one, possibly empty.
pub open spec fn split_on(s: Seq<char>, sep: char) -> Seq<Seq<char>>
    decreases s.len(),
{
    if s.len() == 0 {
        seq![Seq::empty()]
    } else {
        let r = split_on(s.drop_last(), sep);
        if s.last() == sep {
            r.push(Seq::empty())
        } else {
            r.update(r.len() - 1, r.last().push(s.last()))
        }
    }
}

/// `l` without one carriage return at its end.
pub open spec fn strip_cr(l: Seq<char>) -> Seq<char> {
    if l.len() > 0 && l.last() == '\r' {
        l.drop_last()
    } else {
        l
    }
}

/// The lines of `t` as `str::lines` gives them: split at each line feed,
/// a carriage return before it dropped, no line after a final line feed.
pub open spec fn text_lines(t: Seq<char>) -> Seq<Seq<char>> {
    let p = split_on(t, '\n');
    let n = p.len() as int;
    let count = if p[n - 1].len() == 0 {
        n - 1
    } else {
        n
    };
    Seq::new(
        count as nat,
        |k: int|
            if k < n - 1 {
                strip_cr(p[k])
            } else {
                p[k]
            },
    )
}

/// Where the whitespace at the end of `f[..j]` starts.
pub open spec fn back_end(f: Seq<char>, j: int) -> int
    decreases j,
{
    if j <= 0 || j > f.len() || !unicode_whitespace(f[j - 1]) {
        j
    } else {
        back_end(f, j - 1)
    }
}

/// `f` without whitespace at either end, as `str::trim` gives it.
pub open spec fn trimmed(f: Seq<char>) -> Seq<char> {
    let a = run_end(f, 0, |c: char| unicode_whitespace(c));
    if a >= f.len() {
        Seq::empty()
    } else {
        f.subrange(a, back_end(f, f.len() as int))
    }
}

/// The trimmed text of field `x` of line `y` of `t`, if there is one.
pub open spec fn sheet_field(t: Seq<char>, x: int, y: int) -> Option<Seq<char>> {
    let ls = text_lines(t);
    if 0 <= y < ls.len() {
        let fs = split_on(ls[y], '|');
        if 0 <= x < fs.len() {
            Some(trimmed(fs[x]))
        } else {
            None
        }
    } else {
        None
    }
}

/// The text `t` has a cell at `k`: a field there that is not empty once
/// trimmed.
pub open spec fn holds_cell(t: Seq<char>, k: Index) -> bool {
    sheet_field(t, k.x as int, k.y as int) matches Some(f) && f.len() > 0
}

/// Every cell of `t` can be read by `parse_cell`.
pub open spec fn text_readable(t: Seq<char>) -> bool {
    forall|k: Index| #[trigger] holds_cell(t, k) ==> raw_readable(sheet_field(t, k.x as int, k.y as int)->Some_0)
}

/// The views of the vectors `v`.
pub open spec fn views(v: Seq<Vec<char>>) -> Seq<Seq<char>> {
    v.map_values(|x: Vec<char>| x@)
}

/// A split always has a last piece.
proof fn lemma_split_nonempty(s: Seq<char>, sep: char)
    ensures
        split_on(s, sep).len() >= 1,
    decreases s.len(),
{
    if s.len() > 0 {
        lemma_split_nonempty(s.drop_last(), sep);
    }
}

/// The pieces of `cs` between the separators `sep`.
fn split_chars(cs: &Vec<char>, sep: char) -> (r: Vec<Vec<char>>)
    ensures
        views(r@) == split_on(cs@, sep),
{
    let mut pieces: Vec<Vec<char>> = Vec::new();
    let mut cur: Vec<char> = Vec::new();
    let mut i: usize = 0;
    proof {
        assert(cs@.take(0) =~= Seq::<char>::empty());
        assert(views(pieces@).push(cur@) =~= split_on(cs@.take(0), sep));
    }
    while i < cs.len()
        invariant
            i <= cs@.len(),
            views(pieces@).push(cur@) == split_on(cs@.take(i as int), sep),
        decreases cs@.len() - i,
    {
        let c = cs[i];
        let ghost before = views(pieces@).push(cur@);
        proof {
            assert(cs@.take(i + 1).drop_last() =~= cs@.take(i as int));
            assert(cs@.take(i + 1).last() == c);
            lemma_split_nonempty(cs@.take(i as int), sep);
        }
        if c == sep {
            let done = cur;
            pieces.push(done);
            cur = Vec::new();
            proof {
                assert(views(pieces@) =~= before);
                assert(views(pieces@).push(cur@) =~= before.push(Seq::empty()));
            }
        } else {
            cur.push(c);
            proof {
                assert(views(pieces@).push(cur@) =~= before.update(
                    before.len() - 1,
                    before.last().push(c),
                ));
            }
        }
        i = i + 1;
    }
    proof {
        assert(cs@.take(cs@.len() as int) =~= cs@);
    }
    let ghost before = views(pieces@).push(cur@);
    pieces.push(cur);
    proof {
        assert(views(pieces@) =~= before);
    }
    pieces
}

/// The lines of `cs`, as `text_lines` says.
fn split_lines(cs: &Vec<char>) -> (r: Vec<Vec<char>>)
    ensures
        views(r@) == text_lines(cs@),
{
    let pieces = split_chars(cs, '\n');
    let ghost p = views(pieces@);
    proof {
        lemma_split_nonempty(cs@, '\n');
    }
    let n = pieces.len();
    let count = if pieces[n - 1].len() == 0 {
        n - 1
    } else {
        n
    };
    let mut lines: Vec<Vec<char>> = Vec::new();
    let mut k: usize = 0;
    while k < count
        invariant
            p == views(pieces@),
            p == split_on(cs@, '\n'),
            n == p.len(),
            n >= 1,
            count <= n,
            count == if p[n - 1].len() == 0 {
                n - 1
            } else {
                n as int
            },
            k <= count,
            views(lines@) == text_lines(cs@).take(k as int),
        decreases count - k,
    {
        let piece = &pieces[k];
        assert(piece@ == p[k as int]);
        let mut line: Vec<char> = Vec::new();
        let len = piece.len();
        let end = if k < n - 1 && len > 0 && piece[len - 1] == '\r' {
            len - 1
        } else {
            len
        };
        let mut j: usize = 0;
        while j < end
            invariant
                end <= len,
                len == piece@.len(),
                j <= end,
                line@ == piece@.take(j as int),
            decreases end - j,
        {
            line.push(piece[j]);
            j = j + 1;
            assert(line@ =~= piece@.take(j as int));
        }
        let ghost before = views(lines@);
        lines.push(line);
        proof {
            assert(line@ =~= text_lines(cs@)[k as int]);
            assert(views(lines@) =~= before.push(line@));
            assert(views(lines@) =~= text_lines(cs@).take(k + 1));
        }
        k = k + 1;
    }
    proof {
        assert(text_lines(cs@).take(count as int) =~= text_lines(cs@));
    }
    lines
}

/// `f` without whitespace at either end.
pub(crate) fn trim_chars(f: &Vec<char>) -> (r: Vec<char>)
    ensures
        r@ == trimmed(f@),
{
    let ghost s = f@;
    let n = f.len();
    let mut a: usize = 0;
    while a < n && is_whitespace(f[a])
        invariant
            n == s.len(),
            s == f@,
            a <= n,
            run_end(s, a as int, |c: char| unicode_whitespace(c)) == run_end(
                s,
                0,
                |c: char| unicode_whitespace(c),
            ),
        decreases n - a,
    {
        a = a + 1;
    }
    assert(run_end(s, a as int, |c: char| unicode_whitespace(c)) == a);
    if a == n {
        return Vec::new();
    }
    let mut b: usize = n;
    while b > a + 1 && is_whitespace(f[b - 1])
        invariant
            n == s.len(),
            s == f@,
            a < b <= n,
            !unicode_whitespace(s[a as int]),
            back_end(s, b as int) == back_end(s, n as int),
        decreases b,
    {
        b = b - 1;
    }
    assert(back_end(s, b as int) == b);
    let mut r: Vec<char> = Vec::new();
    let mut i: usize = a;
    while i < b
        invariant
            a <= i <= b <= n,
            n == s.len(),
            s == f@,
            r@ == s.subrange(a as int, i as int),
        decreases b - i,
    {
        r.push(f[i]);
        i = i + 1;
        assert(r@ =~= s.subrange(a as int, i as int));
    }
    r
}

/// Position `k` comes before field `x` of line `y` in reading order.
pub open spec fn read_before(k: Index, x: int, y: int) -> bool {
    k.y < y || (k.y == y && k.x < x)
}

/// The cells of a sheet read from text, as far as `(x, y)`: the cells of
/// `t` read so far, each holding its trimmed field, read and not yet
/// computed; the graph has an edge into each cell from each cell it refers
/// to and no other, and its nodes are the cells and what they refer to.
pub open spec fn read_so_far<N: Numeric>(s: SpreadSheet<N>, t: Seq<char>, x: int, y: int) -> bool {
    &&& forall|k: Index| #[trigger] s@.contains_key(k) <==> holds_cell(t, k) && read_before(k, x, y)
    &&& forall|k: Index| #[trigger]
        s@.contains_key(k) ==> {
            let f = sheet_field(t, k.x as int, k.y as int)->Some_0;
            &&& s@[k].raw_representation@ == f
            &&& s@[k].parsed_representation matches Some(r) && cell_outcome(f, r)
            &&& s@[k].computed_value is None
            &&& s@[k].needs_compute
        }
    &&& forall|u: Index, v: Index| #[trigger]
        edge(s.graph(), u, v) <==> s@.contains_key(v) && deps_of(s@[v]).contains(u)
    &&& forall|u: Index| #[trigger]
        s.graph().contains_key(u) <==> s@.contains_key(u) || exists|v: Index|
            s@.contains_key(v) && #[trigger] deps_of(s@[v]).contains(u)
}

impl<N: Numeric> SpreadSheet<N> {
    /// The sheet whose text form is `text`, its cells read but not computed.
    pub fn from_text(text: &str) -> (r: Self)
        requires
            text_readable(text@),
        ensures
            r.wf(),
            read_so_far(r, text@, 0, text_lines(text@).len() as int),
            forall|k: Index| #[trigger] r@.contains_key(k) <==> holds_cell(text@, k),
    {
        let cs = chars_of(text);
        let lines = split_lines(&cs);
        let mut sheet: Self = Self::default();
        let ghost t = text@;
        let mut y: usize = 0;
        while y < lines.len()
            invariant
                t == text@,
                cs@ == t,
                views(lines@) == text_lines(t),
                text_readable(t),
                y <= lines@.len(),
                sheet.wf(),
                read_so_far(sheet, t, 0, y as int),
            decreases lines@.len() - y,
        {
            let fields = split_chars(&lines[y], '|');
            assert(lines@[y as int]@ == text_lines(t)[y as int]);
            let mut x: usize = 0;
            while x < fields.len()
                invariant
                    t == text@,
                    views(lines@) == text_lines(t),
                    text_readable(t),
                    y < lines@.len(),
                    views(fields@) == split_on(text_lines(t)[y as int], '|'),
                    x <= fields@.len(),
                    sheet.wf(),
                    read_so_far(sheet, t, x as int, y as int),
                decreases fields@.len() - x,
            {
                let f = trim_chars(&fields[x]);
                assert(fields@[x as int]@ == split_on(text_lines(t)[y as int], '|')[x as int]);
                let index = Index { x, y };
                assert(sheet_field(t, x as int, y as int) == Some(f@));
                if f.len() > 0 {
                    assert(holds_cell(t, index));
                    let raw = string_from_range(&f, 0, f.len());
                    assert(f@.subrange(0, f@.len() as int) =~= f@);
                    let ghost before = sheet;
                    let fresh = Cell::from_raw(raw);
                    let ghost fresh_cell = fresh;
                    sheet.parse_and_add_raw(index, fresh);
                    proof {
                        let c = choose|c: Cell<N>|
                            {
                                &&& same_reading_of(c, fresh_cell)
                                &&& sheet@ == before@.insert(index, c)
                                &&& sheet.graph() == crate::dependancy_graph::added_node(
                                    before.graph(),
                                    index,
                                    deps_of(c),
                                )
                            };
                        lemma_read_step(before, sheet, t, x as int, y as int, index, c);
                    }
                } else {
                    proof {
                        assert forall|k: Index| #[trigger]
                            sheet@.contains_key(k) <==> holds_cell(t, k) && read_before(
                                k,
                                x + 1,
                                y as int,
                            ) by {
                            if k == index {
                                assert(!holds_cell(t, k));
                            }
                        }
                    }
                }
                x = x + 1;
            }
            proof {
                assert forall|k: Index| #[trigger]
                    sheet@.contains_key(k) <==> holds_cell(t, k) && read_before(k, 0, y + 1) by {
                    if holds_cell(t, k) && k.y == y {
                        assert(k.x < fields@.len());
                    }
                }
            }
            y = y + 1;
        }
        proof {
            assert forall|k: Index| #[trigger] sheet@.contains_key(k) <==> holds_cell(t, k) by {
                if holds_cell(t, k) {
                    assert(k.y < lines@.len());
                }
            }
        }
        sheet
    }

    /// Whether every cell of `text` can be read by `parse_cell`: what
    /// `from_text` needs.
    pub fn text_is_readable(text: &str) -> (r: bool)
        ensures
            r == text_readable(text@),
    {
        let cs = chars_of(text);
        let lines = split_lines(&cs);
        let ghost t = text@;
        let mut y: usize = 0;
        while y < lines.len()
            invariant
                t == text@,
                cs@ == t,
                views(lines@) == text_lines(t),
                y <= lines@.len(),
                forall|k: Index|
                    #[trigger] holds_cell(t, k) && k.y < y ==> raw_readable(
                        sheet_field(t, k.x as int, k.y as int)->Some_0,
                    ),
            decreases lines@.len() - y,
        {
            let fields = split_chars(&lines[y], '|');
            assert(lines@[y as int]@ == text_lines(t)[y as int]);
            let mut x: usize = 0;
            while x < fields.len()
                invariant
                    t == text@,
                    views(lines@) == text_lines(t),
                    y < lines@.len(),
                    views(fields@) == split_on(text_lines(t)[y as int], '|'),
                    x <= fields@.len(),
                    forall|k: Index|
                        #[trigger] holds_cell(t, k) && read_before(k, x as int, y as int)
                            ==> raw_readable(sheet_field(t, k.x as int, k.y as int)->Some_0),
                decreases fields@.len() - x,
            {
                let f = trim_chars(&fields[x]);
                assert(fields@[x as int]@ == split_on(text_lines(t)[y as int], '|')[x as int]);
                let index = Index { x, y };
                assert(sheet_field(t, x as int, y as int) == Some(f@));
                if f.len() > 0 {
                    let raw = string_from_range(&f, 0, f.len());
                    assert(f@.subrange(0, f@.len() as int) =~= f@);
                    if !raw_is_readable::<N>(raw.as_str()) {
                        assert(holds_cell(t, index));
                        return false;
                    }
                }
                x = x + 1;
            }
            proof {
                assert forall|k: Index|
                    #[trigger] holds_cell(t, k) && k.y < y + 1 implies raw_readable(
                        sheet_field(t, k.x as int, k.y as int)->Some_0,
                    ) by {
                    if k.y == y {
                        assert(k.x < fields@.len());
                        assert(read_before(k, x as int, y as int));
                    }
                }
            }
            y = y + 1;
        }
        proof {
            assert forall|k: Index| #[trigger] holds_cell(t, k) implies raw_readable(
                sheet_field(t, k.x as int, k.y as int)->Some_0,
            ) by {
                assert(k.y < lines@.len());
            }
        }
        true
    }
}

/// Reading one more cell keeps what `read_so_far` says, one field further.
proof fn lemma_read_step<N: Numeric>(
    before: SpreadSheet<N>,
    after: SpreadSheet<N>,
    t: Seq<char>,
    x: int,
    y: int,
    index: Index,
    c: Cell<N>,
)
    requires
        read_so_far(before, t, x, y),
        index.x == x,
        index.y == y,
        holds_cell(t, index),
        c.raw_representation@ == sheet_field(t, x, y)->Some_0,
        c.parsed_representation matches Some(r) && cell_outcome(c.raw_representation@, r),
        c.computed_value is None,
        c.needs_compute,
        after@ == before@.insert(index, c),
        after.graph() == crate::dependancy_graph::added_node(before.graph(), index, deps_of(c)),
    ensures
        read_so_far(after, t, x + 1, y),
{
    assert(!before@.contains_key(index));
    assert forall|u: Index, v: Index| #[trigger]
        edge(after.graph(), u, v) <==> after@.contains_key(v) && deps_of(after@[v]).contains(u) by {
        lemma_added_node_exact(before.graph(), index, deps_of(c), u, v);
    }
    assert forall|u: Index| #[trigger]
        after.graph().contains_key(u) <==> after@.contains_key(u) || exists|v: Index|
            after@.contains_key(v) && #[trigger] deps_of(after@[v]).contains(u) by {
        lemma_added_node_exact(before.graph(), index, deps_of(c), u, u);
        if exists|v: Index| after@.contains_key(v) && #[trigger] deps_of(after@[v]).contains(u) {
            let v = choose|v: Index| after@.contains_key(v) && #[trigger] deps_of(after@[v]).contains(u);
            if v != index {
                assert(before@.contains_key(v) && deps_of(before@[v]).contains(u));
            } else {
                assert(deps_of(c).contains(u));
            }
        }
        if deps_of(c).contains(u) {
            assert(after@.contains_key(index) && deps_of(after@[index]).contains(u));
        }
        assert(before.graph().contains_key(u) == (before@.contains_key(u) || exists|v: Index|
            before@.contains_key(v) && #[trigger] deps_of(before@[v]).contains(u)));
        if exists|v: Index| before@.contains_key(v) && #[trigger] deps_of(before@[v]).contains(u) {
            let v = choose|v: Index| before@.contains_key(v) && #[trigger] deps_of(before@[v]).contains(u);
            assert(after@.contains_key(v) && deps_of(after@[v]).contains(u));
        }
    }
}

} // verus!
