//! The tree walk: which children of a directory are shown and in which order,
//! the tree-drawing prefixes and connectors, and the closing summary.
use crate::file::{File, rendering};
use crate::icons::Icons;
use crate::order::{name_less, name_lt};
use vstd::prelude::*;

verus! {

/// How many children of one directory the overview mode shows.
pub const OVERVIEW_LIMIT: usize = 5;

/// What one rendering of a tree is asked for.
pub struct Config {
    /// The directory at the root of the tree.
    pub directory: String,
    /// Show entries whose name starts with `.`.
    pub all: bool,
    /// Show directories only.
    pub directory_only: bool,
    /// The deepest level whose directories are listed.
    pub limit: u32,
    /// Label each child by its full path instead of its name.
    pub full_path: bool,
    /// Show at most `OVERVIEW_LIMIT` children of each directory.
    pub overview: bool,
}

/// An entry with the entries listed under it.
pub struct Node {
    pub file: File,
    pub children: Vec<Node>,
}

/// One listing in progress: the directory, its depth and the prefix of its
/// children's lines.
pub struct State {
    pub depth: u32,
    pub dir: String,
    pub prefix: String,
}

impl State {
    pub fn new(dir: String, depth: u32, prefix: String) -> (r: State)
        ensures
            r.depth == depth,
            r.dir@ == dir@,
            r.prefix@ == prefix@,
    {
        State { dir, depth, prefix }
    }
}

/// How many directories and how many other entries were shown.
pub struct Summary {
    pub dirs: usize,
    pub files: usize,
}

pub struct Tree {
    pub config: Config,
}

pub open spec fn starts_with_dot(n: Seq<char>) -> bool {
    n.len() > 0 && n[0] == '.'
}

/// Whether a child survives the filters of `cfg`.
pub open spec fn keeps(cfg: Config, f: File) -> bool {
    (!cfg.directory_only || f.ftype is Directory) && (cfg.all || !starts_with_dot(f.name@))
}

pub open spec fn name_at(kids: Seq<Node>, i: usize) -> Seq<char> {
    kids[i as int].file.name@
}

/// `x` put into the sorted index list `r` before the first index whose name
/// sorts after its own.
pub open spec fn insert_sorted(kids: Seq<Node>, r: Seq<usize>, x: usize) -> Seq<usize>
    decreases r.len(),
{
    if r.len() == 0 {
        seq![x]
    } else if name_lt(name_at(kids, x), name_at(kids, r[0])) {
        seq![x] + r
    } else {
        seq![r[0]] + insert_sorted(kids, r.drop_first(), x)
    }
}

/// The indices of the first `n` children that survive the filters, sorted by
/// name.
pub open spec fn survivors(cfg: Config, kids: Seq<Node>, n: nat) -> Seq<usize>
    decreases n,
{
    if n == 0 {
        Seq::empty()
    } else {
        let r = survivors(cfg, kids, (n - 1) as nat);
        if keeps(cfg, kids[n - 1].file) {
            insert_sorted(kids, r, (n - 1) as usize)
        } else {
            r
        }
    }
}

/// The surviving children of a directory, in display order (a list too
/// long to index by `usize` has none).
pub open spec fn selection(cfg: Config, kids: Seq<Node>) -> Seq<usize> {
    if kids.len() <= usize::MAX {
        survivors(cfg, kids, kids.len())
    } else {
        Seq::empty()
    }
}

proof fn lemma_insert_at(kids: Seq<Node>, r: Seq<usize>, x: usize, j: int)
    requires
        0 <= j <= r.len(),
        forall|k: int| 0 <= k < j ==> !name_lt(name_at(kids, x), #[trigger] name_at(kids, r[k])),
        j < r.len() ==> name_lt(name_at(kids, x), name_at(kids, r[j])),
    ensures
        insert_sorted(kids, r, x) == r.insert(j, x),
    decreases j,
{
    if j == 0 {
        if r.len() == 0 {
            assert(r.insert(0, x) =~= seq![x]);
        } else {
            assert(r.insert(0, x) =~= seq![x] + r);
        }
    } else {
        let t = r.drop_first();
        assert forall|k: int| 0 <= k < j - 1 implies !name_lt(
            name_at(kids, x),
            #[trigger] name_at(kids, t[k]),
        ) by {
            assert(t[k] == r[k + 1]);
        }
        lemma_insert_at(kids, t, x, j - 1);
        assert(r.insert(j, x) =~= seq![r[0]] + t.insert(j - 1, x));
    }
}


/// One emitted line of a listing, before it is drawn: an entry, or the
/// placeholder that stands for the children that overview mode leaves out.
/// `lasts` holds, for each enclosing level below the root, whether that
/// level's entry was the last of its siblings.
pub enum Row {
    Item { lasts: Seq<bool>, last: bool, file: File },
    More { lasts: Seq<bool> },
}

impl Row {
    pub open spec fn lasts(self) -> Seq<bool> {
        match self {
            Row::Item { lasts, .. } => lasts,
            Row::More { lasts } => lasts,
        }
    }
}

/// How many of `n` surviving children are shown.
pub open spec fn shown_count(cfg: Config, n: nat) -> nat {
    if cfg.overview && n > OVERVIEW_LIMIT {
        OVERVIEW_LIMIT as nat
    } else {
        n
    }
}

/// The rows of a directory's listing below its own line, with the number of
/// directories and of other entries shown in it.
pub open spec fn frame(cfg: Config, node: Node, lasts: Seq<bool>) -> (Seq<Row>, nat, nat)
    decreases cfg.limit + 1 - lasts.len(), 1int, 0int,
{
    let kids = node.children@;
    let sel = selection(cfg, kids);
    let g = group(cfg, kids, sel, lasts, shown_count(cfg, sel.len()));
    if shown_count(cfg, sel.len()) < sel.len() {
        (g.0.push(Row::More { lasts }), g.1, g.2)
    } else {
        g
    }
}

/// The rows, directory count and other count of the first `i` shown
/// children `sel` of a directory whose listing is at `lasts`.
pub open spec fn group(cfg: Config, kids: Seq<Node>, sel: Seq<usize>, lasts: Seq<bool>, i: nat) -> (
    Seq<Row>,
    nat,
    nat,
)
    decreases cfg.limit + 1 - lasts.len(), 0int, i,
{
    if i == 0 || lasts.len() > cfg.limit {
        (Seq::empty(), 0, 0)
    } else {
        let prev = group(cfg, kids, sel, lasts, (i - 1) as nat);
        let kid = kids[sel[i - 1] as int];
        let last = i - 1 == sel.len() - 1;
        let row = Row::Item { lasts, last, file: kid.file };
        if kid.file.ftype.spec_is_dir() {
            let sub = if lasts.len() < cfg.limit {
                frame(cfg, kid, lasts.push(last))
            } else {
                (Seq::empty(), 0, 0)
            };
            (prev.0.push(row) + sub.0, prev.1 + 1 + sub.1, prev.2 + sub.2)
        } else {
            (prev.0.push(row), prev.1, prev.2 + 1)
        }
    }
}

/// The drawing in front of a row's connector.
pub open spec fn prefix_of(lasts: Seq<bool>) -> Seq<char>
    decreases lasts.len(),
{
    if lasts.len() == 0 {
        Seq::empty()
    } else {
        prefix_of(lasts.drop_last()) + if lasts.last() {
            "    "@
        } else {
            "\u{2502}   "@
        }
    }
}

pub open spec fn connector(last: bool) -> Seq<char> {
    if last {
        "\u{2514}\u{2500}\u{2500}"@
    } else {
        "\u{251c}\u{2500}\u{2500}"@
    }
}

/// The text of one row.
pub open spec fn row_line(r: Row, icons: Icons, full: bool) -> Seq<char> {
    match r {
        Row::Item { lasts, last, file } => prefix_of(lasts) + connector(last) + " "@ + rendering(
            file,
            icons.names(),
            icons.extensions(),
            full,
        ),
        Row::More { lasts } => prefix_of(lasts) + "    ..."@,
    }
}

pub open spec fn lines_of(rows: Seq<Row>, icons: Icons, full: bool) -> Seq<Seq<char>> {
    rows.map_values(|r: Row| row_line(r, icons, full))
}

pub open spec fn texts(v: Seq<String>) -> Seq<Seq<char>> {
    v.map_values(|s: String| s@)
}

/// The decimal digits of `n`.
pub open spec fn decimal(n: nat) -> Seq<char>
    decreases n,
{
    if n < 10 {
        seq![digit(n)]
    } else {
        decimal(n / 10).push(digit(n % 10))
    }
}

pub open spec fn digit(d: nat) -> char {
    if d == 0 { '0' } else if d == 1 { '1' } else if d == 2 { '2' } else if d == 3 { '3' }
    else if d == 4 { '4' } else if d == 5 { '5' } else if d == 6 { '6' } else if d == 7 { '7' }
    else if d == 8 { '8' } else { '9' }
}

/// `"<dirs> directories and <files> files"`.
pub open spec fn summary_line(dirs: nat, files: nat) -> Seq<char> {
    decimal(dirs) + " directories and "@ + decimal(files) + " files"@
}

/// Every line of a rendering: the root's own line, its listing, the summary.
pub open spec fn tree_lines(cfg: Config, root: Node, icons: Icons) -> Seq<Seq<char>> {
    let f = frame(cfg, root, Seq::empty());
    seq![rendering(root.file, icons.names(), icons.extensions(), false)] + lines_of(
        f.0,
        icons,
        cfg.full_path,
    ) + seq![summary_line(f.1, f.2)]
}

fn digit_str(d: usize) -> (r: &'static str)
    requires
        d < 10,
    ensures
        r@ == seq![digit(d as nat)],
{
    proof {
        reveal_strlit("0");
        reveal_strlit("1");
        reveal_strlit("2");
        reveal_strlit("3");
        reveal_strlit("4");
        reveal_strlit("5");
        reveal_strlit("6");
        reveal_strlit("7");
        reveal_strlit("8");
        reveal_strlit("9");
    }
    let r = if d == 0 { "0" } else if d == 1 { "1" } else if d == 2 { "2" } else if d == 3 { "3" }
    else if d == 4 { "4" } else if d == 5 { "5" } else if d == 6 { "6" } else if d == 7 { "7" }
    else if d == 8 { "8" } else { "9" };
    assert(r@ =~= seq![digit(d as nat)]);
    r
}

/// The decimal digits of `n`.
pub fn to_decimal(n: usize) -> (r: String)
    ensures
        r@ == decimal(n as nat),
    decreases n,
{
    if n < 10 {
        String::from_str(digit_str(n))
    } else {
        let mut s = to_decimal(n / 10);
        s.append(digit_str(n % 10));
        s
    }
}

/// The closing line of a rendering.
pub fn summary(dirs: usize, files: usize) -> (r: String)
    ensures
        r@ == summary_line(dirs as nat, files as nat),
{
    let mut s = to_decimal(dirs);
    s.append(" directories and ");
    let f = to_decimal(files);
    s.append(f.as_str());
    s.append(" files");
    s
}

impl Tree {
    pub fn new(config: Config) -> (r: Tree)
        ensures
            r.config == config,
    {
        Tree { config }
    }

    /// Whether a child survives the hidden-entry and directories-only filters.
    pub fn entry_predicate(&self, file: &File) -> (r: bool)
        ensures
            r == keeps(self.config, *file),
    {
        if self.config.directory_only && !file.ftype.is_directory() {
            return false;
        }
        if !self.config.all {
            let name = file.name.as_str();
            if name.unicode_len() > 0 && name.get_char(0) == '.' {
                return false;
            }
        }
        true
    }

    /// How many of `n` surviving children of one directory are shown.
    pub fn shown(&self, n: usize) -> (r: usize)
        ensures
            r == shown_count(self.config, n as nat),
    {
        if self.config.overview && n > OVERVIEW_LIMIT {
            OVERVIEW_LIMIT
        } else {
            n
        }
    }

    /// The indices of the surviving children, sorted by name.
    pub fn select(&self, kids: &Vec<Node>) -> (r: Vec<usize>)
        ensures
            r@ == selection(self.config, kids@),
            forall|k: int| 0 <= k < r@.len() ==> r@[k] < kids@.len(),
    {
        let mut out: Vec<usize> = Vec::new();
        let n = kids.len();
        let mut i: usize = 0;
        while i < n
            invariant
                n == kids@.len(),
                i <= n,
                out@ == survivors(self.config, kids@, i as nat),
                forall|k: int| 0 <= k < out@.len() ==> out@[k] < i,
            decreases n - i,
        {
            if self.entry_predicate(&kids[i].file) {
                let mut j: usize = 0;
                while j < out.len()
                    invariant
                        i < n == kids@.len(),
                        j <= out@.len(),
                        forall|k: int| 0 <= k < out@.len() ==> out@[k] < i,
                        forall|k: int|
                            0 <= k < j ==> !name_lt(
                                name_at(kids@, i),
                                #[trigger] name_at(kids@, out@[k]),
                            ),
                    ensures
                        j <= out@.len(),
                        forall|k: int|
                            0 <= k < j ==> !name_lt(
                                name_at(kids@, i),
                                #[trigger] name_at(kids@, out@[k]),
                            ),
                        j < out@.len() ==> name_lt(name_at(kids@, i), name_at(kids@, out@[j as int])),
                    decreases out@.len() - j,
                {
                    if name_less(kids[i].file.name.as_str(), kids[out[j]].file.name.as_str()) {
                        break;
                    }
                    j = j + 1;
                }
                proof {
                    lemma_insert_at(kids@, out@, i, j as int);
                    out@.insert_ensures(j as int, i);
                }
                out.insert(j, i);
            }
            i = i + 1;
        }
        out
    }

    /// Appends the listing of `node`, whose own line is already out, and
    /// adds what it shows to `sum`.
    fn tree_rec(
        &self,
        node: &Node,
        state: &State,
        lasts: Ghost<Seq<bool>>,
        icons: &Icons,
        out: &mut Vec<String>,
        sum: &mut Summary,
    )
        requires
            state.depth as int == lasts@.len(),
            state.depth <= self.config.limit,
            state.prefix@ == prefix_of(lasts@),
            old(sum).dirs + old(sum).files < old(out)@.len(),
        ensures
            texts(final(out)@) == texts(old(out)@) + lines_of(
                frame(self.config, *node, lasts@).0,
                *icons,
                self.config.full_path,
            ),
            final(sum).dirs == old(sum).dirs + frame(self.config, *node, lasts@).1,
            final(sum).files == old(sum).files + frame(self.config, *node, lasts@).2,
            final(sum).dirs + final(sum).files < final(out)@.len(),
        decreases self.config.limit - state.depth,
    {
        let ghost cfg = self.config;
        let ghost full = self.config.full_path;
        let ghost out0 = texts(out@);
        let ghost dirs0 = sum.dirs;
        let ghost files0 = sum.files;
        let ghost kids = node.children@;
        let sel = self.select(&node.children);
        let n = sel.len();
        let shown = self.shown(n);
        let mut i: usize = 0;
        while i < shown
            invariant
                cfg == self.config,
                full == cfg.full_path,
                kids == node.children@,
                sel@ == selection(cfg, kids),
                forall|k: int| 0 <= k < sel@.len() ==> sel@[k] < kids.len(),
                n == sel@.len(),
                shown == shown_count(cfg, n as nat),
                shown <= n,
                i <= shown,
                state.depth as int == lasts@.len(),
                state.depth <= cfg.limit,
                state.prefix@ == prefix_of(lasts@),
                texts(out@) == out0 + lines_of(group(cfg, kids, sel@, lasts@, i as nat).0, *icons, full),
                sum.dirs == dirs0 + group(cfg, kids, sel@, lasts@, i as nat).1,
                sum.files == files0 + group(cfg, kids, sel@, lasts@, i as nat).2,
                sum.dirs + sum.files < out@.len(),
            decreases shown - i,
        {
            let ghost before = texts(out@);
            let ghost g = group(cfg, kids, sel@, lasts@, i as nat);
            let kid = &node.children[sel[i]];
            let last = i == n - 1;
            let mut line = state.prefix.clone();
            line.append(
                if last {
                    "\u{2514}\u{2500}\u{2500}"
                } else {
                    "\u{251c}\u{2500}\u{2500}"
                },
            );
            line.append(" ");
            let text = kid.file.display(icons, self.config.full_path);
            line.append(text.as_str());
            let ghost row = Row::Item { lasts: lasts@, last, file: kid.file };
            assert(line@ == row_line(row, *icons, full));
            out.push(line);
            let _ = out.len();
            assert(texts(out@) =~= before.push(row_line(row, *icons, full)));
            assert(lines_of(g.0.push(row), *icons, full) =~= lines_of(g.0, *icons, full).push(
                row_line(row, *icons, full),
            ));
            if kid.file.is_dir() {
                sum.dirs = sum.dirs + 1;
                if state.depth < self.config.limit {
                    let mut p = state.prefix.clone();
                    p.append(
                        if last {
                            "    "
                        } else {
                            "\u{2502}   "
                        },
                    );
                    let ghost sub_lasts = lasts@.push(last);
                    assert(sub_lasts.drop_last() =~= lasts@);
                    let sub_state = State::new(kid.file.path.clone(), state.depth + 1, p);
                    let ghost mid = texts(out@);
                    self.tree_rec(kid, &sub_state, Ghost(sub_lasts), icons, out, sum);
                    let ghost sub = frame(cfg, *kid, sub_lasts);
                    assert(lines_of(g.0.push(row) + sub.0, *icons, full) =~= lines_of(
                        g.0.push(row),
                        *icons,
                        full,
                    ) + lines_of(sub.0, *icons, full));
                }
            } else {
                sum.files = sum.files + 1;
            }
            i = i + 1;
        }
        if shown < n {
            let mut line = state.prefix.clone();
            line.append("    ...");
            let ghost g = group(cfg, kids, sel@, lasts@, shown as nat);
            let ghost row = Row::More { lasts: lasts@ };
            let ghost before = texts(out@);
            out.push(line);
            assert(texts(out@) =~= before.push(row_line(row, *icons, full)));
            assert(lines_of(g.0.push(row), *icons, full) =~= lines_of(g.0, *icons, full).push(
                row_line(row, *icons, full),
            ));
        }
    }

    /// Renders the tree under `root`: the root's line, the listing, and the
    /// summary line.
    pub fn tree(&self, root: &Node, icons: &Icons) -> (r: Vec<String>)
        ensures
            texts(r@) == tree_lines(self.config, *root, *icons),
    {
        let mut out: Vec<String> = Vec::new();
        out.push(root.file.display(icons, false));
        assert(texts(out@) =~= seq![rendering(root.file, icons.names(), icons.extensions(), false)]);
        let mut sum = Summary { dirs: 0, files: 0 };
        let state = State::new(root.file.path.clone(), 0, String::new());
        proof {
            assert(prefix_of(Seq::<bool>::empty()) == Seq::<char>::empty());
        }
        self.tree_rec(root, &state, Ghost(Seq::empty()), icons, &mut out, &mut sum);
        let ghost before = texts(out@);
        out.push(summary(sum.dirs, sum.files));
        assert(texts(out@) =~= before.push(summary_line(sum.dirs as nat, sum.files as nat)));
        assert(texts(out@) =~= tree_lines(self.config, *root, *icons));
        out
    }
}

} // verus!
