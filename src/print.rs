use vstd::prelude::*;
use crate::text::push_text;
use crate::tree::TreeNode;
use std::fmt::Display;
use vstd::arithmetic::power2::{pow2, lemma2_to64, lemma_pow2_unfold, lemma_pow2_strictly_increases};

verus! {

/// The two children of each tree in `s`, left to right, with two empty trees
/// standing in under an empty tree.
pub open spec fn children<T: Ord>(s: Seq<TreeNode<T>>) -> Seq<TreeNode<T>>
    decreases s.len(),
{
    if s.len() == 0 {
        Seq::empty()
    } else {
        children(s.drop_last()) + match s.last() {
            TreeNode::Leaf => seq![TreeNode::Leaf, TreeNode::Leaf],
            TreeNode::Node(_, l, r) => seq![*l, *r],
        }
    }
}

/// The `2^d` positions at depth `d` of `t`, left to right.
pub open spec fn level<T: Ord>(t: TreeNode<T>, d: nat) -> Seq<TreeNode<T>>
    decreases d,
{
    if d == 0 {
        seq![t]
    } else {
        children(level(t, (d - 1) as nat))
    }
}

/// The value at a position, if it holds one.
pub open spec fn label<T: Ord>(t: TreeNode<T>) -> Option<T> {
    match t {
        TreeNode::Leaf => None,
        TreeNode::Node(v, _, _) => Some(v),
    }
}

/// The value behind a cell, if it holds one.
pub open spec fn cell_value<T>(c: Option<&T>) -> Option<T> {
    match c {
        Some(v) => Some(*v),
        None => None,
    }
}

/// The values behind a row of cells.
pub open spec fn cell_values<T>(row: Seq<Option<&T>>) -> Seq<Option<T>> {
    row.map_values(|c: Option<&T>| cell_value(c))
}

/// The values at the positions at depth `d` of `t`.
pub open spec fn level_labels<T: Ord>(t: TreeNode<T>, d: nat) -> Seq<Option<T>> {
    level(t, d).map_values(|n: TreeNode<T>| label(n))
}

/// The trees that a sequence of references points to.
pub open spec fn targets<T: Ord>(s: Seq<&TreeNode<T>>) -> Seq<TreeNode<T>> {
    s.map_values(|r: &TreeNode<T>| *r)
}

/// `s` with `count` copies of `sep` between each two neighbouring items.
pub open spec fn interspersed<X>(s: Seq<X>, sep: X, count: nat) -> Seq<X>
    decreases s.len(),
{
    if s.len() <= 1 {
        s
    } else {
        interspersed(s.drop_last(), sep, count) + Seq::new(count, |_i: int| sep) + seq![s.last()]
    }
}

/// `n` empty cells.
pub open spec fn blanks<X>(n: nat) -> Seq<Option<X>> {
    Seq::new(n, |_i: int| None)
}

/// A row of cells laid out `k` rows above the bottom one: `2^k - 1` empty
/// cells on each side and `2^(k+1) - 1` between each two cells.
pub open spec fn padded_row<X>(row: Seq<Option<X>>, k: nat) -> Seq<Option<X>> {
    let around = (pow2(k) - 1) as nat;
    blanks(around) + interspersed(row, None, (pow2(k + 1) - 1) as nat) + blanks(around)
}

/// The layout of `t`: row `d` holds the positions at depth `d`, padded so
/// that each value stands centred above its two children.
pub open spec fn grid<T: Ord>(t: TreeNode<T>) -> Seq<Seq<Option<T>>> {
    let h = t.spec_height();
    Seq::new(
        h,
        |d: int|
            padded_row(
                level_labels(t, d as nat),
                (h - 1 - d) as nat,
            ),
    )
}

proof fn lemma_interspersed_cells<T>(s: Seq<Option<&T>>, count: nat)
    ensures
        cell_values(interspersed(s, None, count)) == interspersed(cell_values(s), None, count),
    decreases s.len(),
{
    let f = |c: Option<&T>| cell_value(c);
    if s.len() > 1 {
        lemma_interspersed_cells(s.drop_last(), count);
        assert(s.map_values(f).drop_last() =~= s.drop_last().map_values(f));
        assert(interspersed(s, None, count).map_values(f) =~= interspersed(
            s.map_values(f),
            None,
            count,
        ));
    } else {
        assert(interspersed(s, None, count).map_values(f) =~= s.map_values(f));
    }
}

/// The items of `v` with `count` copies of `sep` between each two neighbours.
fn intersperse<X: Copy>(v: &Vec<X>, sep: X, count: usize) -> (r: Vec<X>)
    ensures
        r@ == interspersed(v@, sep, count as nat),
{
    let mut result: Vec<X> = Vec::new();
    for i in 0..v.len()
        invariant
            result@ == interspersed(v@.take(i as int), sep, count as nat),
    {
        let ghost before = result@;
        proof {
            assert(before =~= before + Seq::new(0, |_i: int| sep));
        }
        if i > 0 {
            for j in 0..count
                invariant
                    result@ == before + Seq::new(j as nat, |_i: int| sep),
            {
                result.push(sep);
                proof {
                    assert(result@ =~= before + Seq::new((j + 1) as nat, |_i: int| sep));
                }
            }

        }
        result.push(v[i]);
        proof {
            let p = v@.take(i + 1);
            assert(p.drop_last() =~= v@.take(i as int));
            if i == 0 {
                assert(result@ =~= p);
            } else {
                assert(result@ =~= interspersed(p, sep, count as nat));
            }
        }
    }
    proof {
        assert(v@.take(v@.len() as int) =~= v@);
    }
    result
}

/// Appends `n` empty cells to `v`.
fn push_blanks<X: Copy>(v: &mut Vec<Option<X>>, n: usize)
    ensures
        final(v)@ == old(v)@ + blanks::<X>(n as nat),
{
    for i in 0..n
        invariant
            v@ == old(v)@ + blanks::<X>(i as nat),
    {
        v.push(None);
        proof {
            assert(v@ =~= old(v)@ + blanks::<X>((i + 1) as nat));
        }
    }
}

/// Appends the items of `w` to `v`.
fn push_all<X: Copy>(v: &mut Vec<X>, w: &Vec<X>)
    ensures
        final(v)@ == old(v)@ + w@,
{
    for i in 0..w.len()
        invariant
            v@ == old(v)@ + w@.take(i as int),
    {
        v.push(w[i]);
        proof {
            assert(v@ =~= old(v)@ + w@.take(i + 1));
        }
    }
    proof {
        assert(w@.take(w@.len() as int) =~= w@);
    }
}

/// Lays out `rows` (top row first) for display; the result lists the padded
/// rows bottom row first.
fn padded_rows<X: Copy>(rows: &Vec<Vec<Option<X>>>) -> (r: Vec<Vec<Option<X>>>)
    requires
        pow2(rows@.len() as nat) <= usize::MAX,
    ensures
        r@.len() == rows@.len(),
        forall|k: int| #![trigger r@[k]] 0 <= k < r@.len() ==> r@[k]@ == padded_row(
            rows@[rows@.len() - 1 - k]@,
            k as nat,
        ),
{
    let n = rows.len();
    let mut with_padding: Vec<Vec<Option<X>>> = Vec::new();
    let mut around_padding_count: usize = 0;
    let mut inter_padding_count: usize = 1;
    proof {
        lemma2_to64();
    }
    for k in 0..n
        invariant
            n == rows@.len(),
            pow2(n as nat) <= usize::MAX,
            with_padding@.len() == k,
            k < n ==> around_padding_count == pow2(k as nat) - 1,
            k < n ==> inter_padding_count == pow2(k as nat + 1) - 1,
            forall|j: int| #![trigger with_padding@[j]]
                0 <= j < k ==> with_padding@[j]@ == padded_row(
                rows@[n - 1 - j]@,
                j as nat,
            ),
    {
        let mut padded: Vec<Option<X>> = Vec::new();
        push_blanks(&mut padded, around_padding_count);
        let middle = intersperse(&rows[n - 1 - k], None, inter_padding_count);
        push_all(&mut padded, &middle);
        push_blanks(&mut padded, around_padding_count);
        proof {
            assert(padded@ =~= padded_row(rows@[n - 1 - k]@, k as nat));
        }
        with_padding.push(padded);
        if k + 1 < n {
            proof {
                lemma_pow2_unfold(k as nat + 2);
                lemma_pow2_unfold(k as nat + 1);
                if k + 2 < n {
                    lemma_pow2_strictly_increases(k as nat + 2, n as nat);
                }
            }
            around_padding_count = inter_padding_count;
            inter_padding_count = inter_padding_count * 2 + 1;
        }
    }
    with_padding
}

/// The texts of `parts`, one after another.
pub open spec fn concat(parts: Seq<Seq<char>>) -> Seq<char>
    decreases parts.len(),
{
    if parts.len() == 0 {
        Seq::empty()
    } else {
        concat(parts.drop_last()) + parts.last()
    }
}

/// The texts of `lines`, with a line break between each two of them.
pub open spec fn join_lines(lines: Seq<Seq<char>>) -> Seq<char>
    decreases lines.len(),
{
    if lines.len() <= 1 {
        concat(lines)
    } else {
        join_lines(lines.drop_last()) + seq!['\n'] + lines.last()
    }
}

/// `cells` gives one text to each cell of `g`, and the text of each empty
/// cell is `width` spaces.
pub open spec fn texts_fit<X>(
    g: Seq<Seq<Option<X>>>,
    cells: Seq<Seq<Seq<char>>>,
    width: nat,
) -> bool {
    &&& cells.len() == g.len()
    &&& forall|d: int|
        #![trigger cells[d]]
        0 <= d < g.len() ==> {
            &&& cells[d].len() == g[d].len()
            &&& forall|i: int|
                0 <= i < g[d].len() && (#[trigger] g[d][i]) is None ==> cells[d][i] == Seq::new(
                    width,
                    |_i: int| ' ',
                )
        }
}

/// The text shown for `cells`: each row's cell texts side by side, one row
/// per line.
pub open spec fn shown(cells: Seq<Seq<Seq<char>>>) -> Seq<char> {
    join_lines(cells.map_values(|row: Seq<Seq<char>>| concat(row)))
}

/// Relies on `format!` with `{: ^width$}`: the `Display` text of `v`, centred
/// in a field of `width` characters where the type's formatting honours it.
#[verifier::external_body]
fn centered<T: Display>(v: &T, width: usize) -> (s: String) {
    format!("{: ^width$}", v, width = width)
}

/// Relies on `str::repeat`: `width` spaces.
#[verifier::external_body]
fn spaces(width: usize) -> (s: String)
    ensures
        s@ == Seq::new(width as nat, |_i: int| ' '),
{
    " ".repeat(width)
}

proof fn lemma_padded_cells<T: Ord>(row: Seq<Option<&T>>, k: nat)
    ensures
        cell_values(padded_row(row, k)) == padded_row(cell_values(row), k),
{
    let f = |c: Option<&T>| cell_value(c);
    let around = (pow2(k) - 1) as nat;
    let inter = (pow2(k + 1) - 1) as nat;
    lemma_interspersed_cells(row, inter);
    let a = blanks::<&T>(around);
    let m = interspersed(row, None, inter);
    assert((a + m + a).map_values(f) =~= a.map_values(f) + m.map_values(f) + a.map_values(f));
    assert(a.map_values(f) =~= blanks::<T>(around));
}

proof fn lemma_pow2_exceeds(e: nat)
    ensures
        e < pow2(e),
    decreases e,
{
    if e == 0 {
        lemma2_to64();
    } else {
        lemma_pow2_exceeds((e - 1) as nat);
        lemma_pow2_unfold(e);
    }
}

impl<T: Ord + Display> TreeNode<T> {
    /// Renders the tree level by level, top row first, each value centred in
    /// a cell of `width` characters above its two children.
    pub fn show(&self, width: usize) -> (s: String)
        requires
            pow2(self.spec_height()) <= usize::MAX,
        ensures
            exists|cells: Seq<Seq<Seq<char>>>|
                texts_fit(grid(*self), cells, width as nat) && s@ == shown(cells),
    {
        proof {
            lemma_pow2_exceeds(self.spec_height());
        }
        let rows = self.rows();
        let with_padding = padded_rows(&rows);
        let n = with_padding.len();
        let ghost g = grid(*self);
        proof {
            assert forall|k: int| #![trigger with_padding@[k]]
                0 <= k < n implies cell_values(with_padding@[k]@) == g[n - 1 - k] by {
                let d = n - 1 - k;
                let row = rows@[d]@;
                assert(cell_values(row) =~= level_labels(*self, d as nat));
                lemma_padded_cells(row, k as nat);
            }
        }
        let ghost mut cells: Seq<Seq<Seq<char>>> = Seq::empty();
        let mut out = String::new();
        for d in 0..n
            invariant
                n == with_padding@.len(),
                n == g.len(),
                g == grid(*self),
                cells.len() == d,
                texts_fit(g.take(d as int), cells, width as nat),
                out@ == shown(cells),
                forall|k: int| #![trigger with_padding@[k]]
                    0 <= k < n ==> cell_values(with_padding@[k]@) == g[n - 1 - k],
        {
            let row = &with_padding[n - 1 - d];
            let mut line = String::new();
            let ghost mut cur: Seq<Seq<char>> = Seq::empty();
            for i in 0..row.len()
                invariant
                    cur.len() == i,
                    line@ == concat(cur),
                    forall|j: int|
                        0 <= j < i && (#[trigger] row@[j]) is None ==> cur[j] == Seq::new(
                            width as nat,
                            |_i: int| ' ',
                        ),
            {
                let text = match row[i] {
                    Some(v) => centered(v, width),
                    None => spaces(width),
                };
                push_text(&mut line, text.as_str());
                proof {
                    assert((cur.push(text@)).drop_last() =~= cur);
                    cur = cur.push(text@);
                }
            }
            if d > 0 {
                push_text(&mut out, "\n");
            }
            push_text(&mut out, line.as_str());
            proof {
                let old_cells = cells;
                cells = cells.push(cur);
                let lines = cells.map_values(|r: Seq<Seq<char>>| concat(r));
                assert(lines.drop_last() =~= old_cells.map_values(
                    |r: Seq<Seq<char>>| concat(r),
                ));
                if d == 0 {
                    assert(concat(lines) == concat(lines.drop_last()) + lines.last());
                    assert(out@ =~= shown(cells));
                } else {
                    reveal_strlit("\n");
                    assert(lines.last() == concat(cur));
                    assert(join_lines(lines) == join_lines(lines.drop_last()) + seq!['\n']
                        + lines.last());
                    assert(out@ =~= shown(cells));
                }
                assert(g.take(d + 1).drop_last() =~= g.take(d as int));
                assert forall|j: int|
                    0 <= j < row@.len() && (#[trigger] g[d as int][j]) is None implies cur[j]
                        == Seq::new(width as nat, |_i: int| ' ') by {
                    assert(cell_values(row@)[j] == g[d as int][j]);
                }
                assert(texts_fit(g.take(d + 1), cells, width as nat));
            }
        }
        proof {
            assert(g.take(n as int) =~= g);
        }
        out
    }
}

impl<T: Ord> TreeNode<T> {
    /// The values of the tree level by level, top level first, with an empty
    /// cell for each position that holds none.
    fn rows<'a>(&'a self) -> (rows: Vec<Vec<Option<&'a T>>>)
        requires
            self.spec_height() <= usize::MAX,
        ensures
            rows@.len() == self.spec_height(),
            forall|d: int| #![trigger rows@[d]] 0 <= d < rows@.len() ==> {
                &&& rows@[d]@.len() == level(*self, d as nat).len()
                &&& forall|i: int| 0 <= i < rows@[d]@.len() ==> cell_value(#[trigger] rows@[d]@[i])
                    == label(level(*self, d as nat)[i])
            },
    {
        let height = self.height();
        let mut rows: Vec<Vec<Option<&'a T>>> = Vec::new();
        let mut current: Vec<&'a TreeNode<T>> = Vec::new();
        current.push(self);
        proof {
            assert(targets(current@) =~= level(*self, 0));
        }
        for depth in 0..height
            invariant
                rows@.len() == depth,
                targets(current@) == level(*self, depth as nat),
                forall|d: int| #![trigger rows@[d]] 0 <= d < rows@.len() ==> {
                    &&& rows@[d]@.len() == level(*self, d as nat).len()
                    &&& forall|i: int| 0 <= i < rows@[d]@.len() ==> cell_value(
                        #[trigger] rows@[d]@[i],
                    ) == label(level(*self, d as nat)[i])
                },
        {
            let mut row: Vec<Option<&'a T>> = Vec::new();
            let mut next: Vec<&'a TreeNode<T>> = Vec::new();
            for i in 0..current.len()
                invariant
                    row@.len() == i,
                    forall|j: int|
                        0 <= j < i ==> cell_value(#[trigger] row@[j]) == label(*current@[j]),
                    targets(next@) == children(targets(current@).take(i as int)),
            {
                let node: &'a TreeNode<T> = current[i];
                proof {
                    assert(targets(current@).take(i + 1).drop_last() =~= targets(current@).take(
                        i as int,
                    ));
                }
                match node {
                    TreeNode::Leaf => {
                        row.push(None);
                        next.push(node);
                        next.push(node);
                    },
                    TreeNode::Node(value, left, right) => {
                        row.push(Some(value));
                        next.push(left);
                        next.push(right);
                    },
                }
                proof {
                    assert(targets(next@) =~= children(targets(current@).take(i + 1)));
                }
            }
            proof {
                assert(targets(current@).take(current@.len() as int) =~= targets(current@));
            }
            rows.push(row);
            current = next;
        }
        rows
    }
}

} // verus!
