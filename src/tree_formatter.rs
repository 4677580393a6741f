//! Renders an ordered list of (depth, text) lines as an indented tree with box-drawing
//! connectors.
use vstd::prelude::*;
use crate::text::copy_str;

verus! {

broadcast use vstd::std_specs::vec::group_vec_axioms, vstd::seq::group_seq_axioms;

pub type Lines = Seq<(usize, Seq<char>)>;

/// Whether no later line sits at `level` before one shallower than `level`, looking
/// from index `j` on.
pub open spec fn last_from(lines: Lines, j: int, level: usize) -> bool
    decreases lines.len() - j,
{
    if j < 0 || j >= lines.len() {
        true
    } else if lines[j].0 < level {
        true
    } else if lines[j].0 == level {
        false
    } else {
        last_from(lines, j + 1, level)
    }
}

/// Whether line `i` is the last child of its parent.
pub open spec fn is_last(lines: Lines, i: int) -> bool {
    last_from(lines, i + 1, lines[i].0)
}

/// Whether the nearest line at or before `i` with depth `level` was a last child,
/// so that its column is left blank below it.
pub open spec fn closed_at(lines: Lines, i: int, level: usize) -> bool
    decreases i + 1,
{
    if i < 0 {
        false
    } else if lines[i].0 == level {
        is_last(lines, i)
    } else {
        closed_at(lines, i - 1, level)
    }
}

/// The columns for levels `1 .. k` in front of line `i`.
pub open spec fn indent(lines: Lines, i: int, k: int) -> Seq<char>
    decreases k,
{
    if k <= 1 {
        Seq::empty()
    } else {
        indent(lines, i, k - 1) + if closed_at(lines, i, (k - 1) as usize) {
            "    "@
        } else {
            "|   "@
        }
    }
}

/// Line `i` as it is printed.
pub open spec fn render_line(lines: Lines, i: int) -> Seq<char> {
    let d = lines[i].0;
    indent(lines, i, d as int) + (if d == 0 {
        Seq::empty()
    } else if is_last(lines, i) {
        "└── "@
    } else {
        "├── "@
    }) + lines[i].1
}

/// The first `n` lines as printed, separated by newlines.
pub open spec fn render_prefix(lines: Lines, n: int) -> Seq<char>
    decreases n,
{
    if n <= 0 {
        Seq::empty()
    } else if n == 1 {
        render_line(lines, 0)
    } else {
        render_prefix(lines, n - 1) + "\n"@ + render_line(lines, n - 1)
    }
}

pub open spec fn render_tree(lines: Lines) -> Seq<char> {
    render_prefix(lines, lines.len() as int)
}

pub open spec fn max_of(a: usize, b: usize) -> usize {
    if a >= b {
        a
    } else {
        b
    }
}

/// Collects lines, each with a depth (0 for the root), and prints them as a tree.
pub struct TreeFormatter {
    lines: Vec<(usize, String)>,
    max_depth: usize,
}

impl View for TreeFormatter {
    type V = Lines;

    closed spec fn view(&self) -> Lines {
        self.lines@.map_values(|l: (usize, String)| (l.0, l.1@))
    }
}

impl TreeFormatter {
    /// The greatest depth added so far (0 when empty).
    pub closed spec fn deepest(&self) -> usize {
        self.max_depth
    }

    pub fn new() -> (r: Self)
        ensures
            r@ == Seq::<(usize, Seq<char>)>::empty(),
            r.deepest() == 0,
    {
        let r = TreeFormatter { lines: Vec::new(), max_depth: 0 };
        assert(r@ =~= Seq::<(usize, Seq<char>)>::empty());
        r
    }

    /// Adds a line at `depth` (0 = root, 1 = its children, ...).
    pub fn add_line(&mut self, depth: usize, text: &str)
        ensures
            final(self)@ == old(self)@.push((depth, text@)),
            final(self).deepest() == max_of(old(self).deepest(), depth),
    {
        self.lines.push((depth, String::from_str(text)));
        if depth > self.max_depth {
            self.max_depth = depth;
        }
        assert(self@ =~= old(self)@.push((depth, text@)));
    }

    /// Adds every line of `tree`, each `depth` levels deeper than it stood there.
    pub fn add_tree(&mut self, depth: usize, tree: &TreeFormatter)
        requires
            forall|i: int| 0 <= i < tree@.len() ==> depth + (#[trigger] tree@[i]).0 <= usize::MAX,
        ensures
            final(self)@ == old(self)@ + tree@.map_values(|l: (usize, Seq<char>)| ((depth + l.0) as usize, l.1)),
            final(self).deepest() >= old(self).deepest(),
    {
        let ghost start = self@;
        for i in 0..tree.lines.len()
            invariant
                forall|k: int| 0 <= k < tree@.len() ==> depth + (#[trigger] tree@[k]).0 <= usize::MAX,
                self.max_depth >= old(self).max_depth,
                self@ == start + tree@.take(i as int).map_values(|l: (usize, Seq<char>)| ((depth + l.0) as usize, l.1)),
        {
            assert(tree@[i as int] == (tree.lines@[i as int].0, tree.lines@[i as int].1@));
            let d = depth + tree.lines[i].0;
            let ghost before = self@;
            self.lines.push((d, copy_str(&tree.lines[i].1)));
            if d > self.max_depth {
                self.max_depth = d;
            }
            assert(self@ =~= before.push((d, tree@[i as int].1)));
            assert(tree@.take(i + 1).map_values(|l: (usize, Seq<char>)| ((depth + l.0) as usize, l.1))
                =~= tree@.take(i as int).map_values(|l: (usize, Seq<char>)| ((depth + l.0) as usize, l.1)).push((d, tree@[i as int].1)));
        }
        assert(tree@.take(tree@.len() as int) =~= tree@);
    }

    pub fn max_depth(&self) -> (r: usize)
        ensures
            r == self.deepest(),
    {
        self.max_depth
    }

    /// Whether line `i` is the last child of its parent.
    fn is_last_sibling(&self, i: usize) -> (r: bool)
        requires
            i < self@.len(),
        ensures
            r == is_last(self@, i as int),
    {
        let level = self.lines[i].0;
        let n = self.lines.len();
        assert(self@.len() == n);
        let mut j = i + 1;
        while j < self.lines.len()
            invariant
                i < j <= self@.len(),
                self@.len() == self.lines@.len(),
                level == self@[i as int].0,
                is_last(self@, i as int) == last_from(self@, j as int, level),
            decreases self@.len() - j,
        {
            let d = self.lines[j].0;
            assert(d == self@[j as int].0);
            if d < level {
                return true;
            }
            if d == level {
                return false;
            }
            j = j + 1;
        }
        true
    }

    /// Whether the column of `level` is blank in front of line `i`.
    fn closed_column(&self, i: usize, level: usize, last: &Vec<bool>) -> (r: bool)
        requires
            i < self@.len(),
            last@.len() == self@.len(),
            forall|k: int| 0 <= k < last@.len() ==> last@[k] == is_last(self@, k),
        ensures
            r == closed_at(self@, i as int, level),
    {
        let mut k: usize = i;
        loop
            invariant
                k <= i < self@.len(),
                self@.len() == self.lines@.len(),
                last@.len() == self@.len(),
                forall|m: int| 0 <= m < last@.len() ==> last@[m] == is_last(self@, m),
                closed_at(self@, i as int, level) == closed_at(self@, k as int, level),
            decreases k,
        {
            assert(self@[k as int].0 == self.lines@[k as int].0);
            if self.lines[k].0 == level {
                return last[k];
            }
            if k == 0 {
                assert(closed_at(self@, -1, level) == false);
                return false;
            }
            k = k - 1;
        }
    }

    /// Line `i` with its indentation and connector, given which lines are last children.
    fn format_line(&self, i: usize, last: &Vec<bool>) -> (r: String)
        requires
            i < self@.len(),
            last@.len() == self@.len(),
            forall|k: int| 0 <= k < last@.len() ==> last@[k] == is_last(self@, k),
        ensures
            r@ == render_line(self@, i as int),
    {
        let ghost lines = self@;
        let depth = self.lines[i].0;
        let mut out = String::new();
        let mut level: usize = 1;
        while level < depth
            invariant
                lines == self@,
                i < lines.len(),
                depth == lines[i as int].0,
                1 <= level <= depth || depth == 0,
                last@.len() == lines.len(),
                forall|k: int| 0 <= k < last@.len() ==> last@[k] == is_last(lines, k),
                depth > 0 ==> out@ == indent(lines, i as int, level as int),
                depth == 0 ==> out@ == Seq::<char>::empty(),
            decreases depth - level,
        {
            let closed = self.closed_column(i, level, last);
            if closed {
                out.append("    ");
            } else {
                out.append("|   ");
            }
            level = level + 1;
        }
        if depth > 0 {
            if last[i] {
                out.append("└── ");
            } else {
                out.append("├── ");
            }
        }
        out.append(self.lines[i].1.as_str());
        out
    }

    /// The whole tree, one line per added line.
    pub fn to_string(&self) -> (r: String)
        ensures
            r@ == render_tree(self@),
    {
        let n = self.lines.len();
        let mut last: Vec<bool> = Vec::new();
        for i in 0..n
            invariant
                n == self@.len(),
                last@.len() == i,
                forall|k: int| 0 <= k < i ==> last@[k] == is_last(self@, k),
        {
            last.push(self.is_last_sibling(i));
        }
        let mut out = String::new();
        for i in 0..n
            invariant
                n == self@.len(),
                last@.len() == n,
                forall|k: int| 0 <= k < n ==> last@[k] == is_last(self@, k),
                out@ == render_prefix(self@, i as int),
        {
            let line = self.format_line(i, &last);
            if i > 0 {
                out.append("\n");
            }
            out.append(line.as_str());
        }
        out
    }
}


impl Default for TreeFormatter {
    fn default() -> (r: Self)
        ensures
            r@ == Seq::<(usize, Seq<char>)>::empty(),
            r.deepest() == 0,
    {
        Self::new()
    }
}

} // verus!
