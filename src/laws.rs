//! Properties of every rendering, stated over the rows that the renderer
//! draws and proved from their definitions.
use crate::order::{lemma_name_lt_total, lemma_name_lt_transitive, name_lt};
use crate::tree::{
    Config, Node, OVERVIEW_LIMIT, Row, frame, group, insert_sorted, keeps, name_at, selection, shown_count,
    starts_with_dot, survivors,
};
use vstd::prelude::*;

verus! {

/// The names of the listed children strictly increase.
pub open spec fn strictly_sorted(kids: Seq<Node>, r: Seq<usize>) -> bool {
    forall|i: int, j: int|
        0 <= i < j < r.len() ==> name_lt(#[trigger] name_at(kids, r[i]), #[trigger] name_at(kids, r[j]))
}

/// No two children of a directory share a name.
pub open spec fn distinct_names(kids: Seq<Node>) -> bool {
    forall|i: int, j: int|
        0 <= i < kids.len() && 0 <= j < kids.len() && i != j ==> #[trigger] kids[i].file.name@
            != #[trigger] kids[j].file.name@
}

proof fn lemma_insert_members(kids: Seq<Node>, r: Seq<usize>, x: usize)
    ensures
        insert_sorted(kids, r, x).len() == r.len() + 1,
        forall|y: usize| #[trigger] insert_sorted(kids, r, x).contains(y) <==> (r.contains(y) || y == x),
    decreases r.len(),
{
    let res = insert_sorted(kids, r, x);
    if r.len() == 0 {
        assert(res[0] == x);
    } else if name_lt(name_at(kids, x), name_at(kids, r[0])) {
        assert(res == seq![x] + r);
        assert forall|y: usize| res.contains(y) <==> (r.contains(y) || y == x) by {
            if res.contains(y) {
                let k = choose|k: int| 0 <= k < res.len() && res[k] == y;
                if k > 0 {
                    assert(r[k - 1] == y);
                }
            }
            if r.contains(y) {
                let k = choose|k: int| 0 <= k < r.len() && r[k] == y;
                assert(res[k + 1] == y);
            }
            if y == x {
                assert(res[0] == x);
            }
        }
    } else {
        let t = r.drop_first();
        lemma_insert_members(kids, t, x);
        let sub = insert_sorted(kids, t, x);
        assert(res == seq![r[0]] + sub);
        assert forall|y: usize| res.contains(y) <==> (r.contains(y) || y == x) by {
            if res.contains(y) {
                let k = choose|k: int| 0 <= k < res.len() && res[k] == y;
                if k > 0 {
                    assert(sub[k - 1] == y);
                    assert(sub.contains(y));
                    if t.contains(y) {
                        let m = choose|m: int| 0 <= m < t.len() && t[m] == y;
                        assert(r[m + 1] == y);
                    }
                } else {
                    assert(r[0] == y);
                }
            }
            if r.contains(y) {
                let k = choose|k: int| 0 <= k < r.len() && r[k] == y;
                if k == 0 {
                    assert(res[0] == y);
                } else {
                    assert(t[k - 1] == y);
                    assert(sub.contains(y));
                    let m = choose|m: int| 0 <= m < sub.len() && sub[m] == y;
                    assert(res[m + 1] == y);
                }
            }
            if y == x {
                assert(sub.contains(x));
                let m = choose|m: int| 0 <= m < sub.len() && sub[m] == x;
                assert(res[m + 1] == x);
            }
        }
    }
}

proof fn lemma_insert_sorted(kids: Seq<Node>, r: Seq<usize>, x: usize)
    requires
        strictly_sorted(kids, r),
        forall|k: int| 0 <= k < r.len() ==> name_at(kids, #[trigger] r[k]) != name_at(kids, x),
    ensures
        strictly_sorted(kids, insert_sorted(kids, r, x)),
    decreases r.len(),
{
    let res = insert_sorted(kids, r, x);
    lemma_insert_members(kids, r, x);
    if r.len() == 0 {
    } else if name_lt(name_at(kids, x), name_at(kids, r[0])) {
        assert forall|i: int, j: int| 0 <= i < j < res.len() implies name_lt(
            #[trigger] name_at(kids, res[i]),
            #[trigger] name_at(kids, res[j]),
        ) by {
            if i == 0 {
                if j > 1 {
                    assert(name_lt(name_at(kids, r[0]), name_at(kids, r[j - 1])));
                    lemma_name_lt_transitive(name_at(kids, x), name_at(kids, r[0]), name_at(kids, r[j - 1]));
                }
            } else {
                assert(name_lt(name_at(kids, r[i - 1]), name_at(kids, r[j - 1])));
            }
        }
    } else {
        let t = r.drop_first();
        assert(name_at(kids, r[0]) != name_at(kids, x));
        lemma_name_lt_total(name_at(kids, r[0]), name_at(kids, x));
        assert forall|i: int, j: int| 0 <= i < j < t.len() implies name_lt(
            #[trigger] name_at(kids, t[i]),
            #[trigger] name_at(kids, t[j]),
        ) by {
            assert(name_lt(name_at(kids, r[i + 1]), name_at(kids, r[j + 1])));
        }
        assert forall|k: int| 0 <= k < t.len() implies name_at(kids, #[trigger] t[k]) != name_at(kids, x) by {
            assert(t[k] == r[k + 1]);
        }
        lemma_insert_sorted(kids, t, x);
        lemma_insert_members(kids, t, x);
        let sub = insert_sorted(kids, t, x);
        assert(res == seq![r[0]] + sub);
        assert forall|i: int, j: int| 0 <= i < j < res.len() implies name_lt(
            #[trigger] name_at(kids, res[i]),
            #[trigger] name_at(kids, res[j]),
        ) by {
            if i == 0 {
                let y = sub[j - 1];
                assert(sub.contains(y));
                if y != x {
                    let m = choose|m: int| 0 <= m < t.len() && t[m] == y;
                    assert(name_lt(name_at(kids, r[0]), name_at(kids, r[m + 1])));
                }
            } else {
                assert(name_lt(name_at(kids, sub[i - 1]), name_at(kids, sub[j - 1])));
            }
        }
    }
}

proof fn lemma_survivors(cfg: Config, kids: Seq<Node>, n: nat)
    requires
        n <= kids.len() <= usize::MAX,
    ensures
        distinct_names(kids) ==> strictly_sorted(kids, survivors(cfg, kids, n)),
        forall|y: usize| #[trigger] survivors(cfg, kids, n).contains(y) <==> (y < n && keeps(cfg, kids[y as int].file)),
    decreases n,
{
    if n > 0 {
        let r = survivors(cfg, kids, (n - 1) as nat);
        lemma_survivors(cfg, kids, (n - 1) as nat);
        let x = (n - 1) as usize;
        if keeps(cfg, kids[n - 1].file) {
            lemma_insert_members(kids, r, x);
            if distinct_names(kids) {
                assert forall|k: int| 0 <= k < r.len() implies name_at(kids, #[trigger] r[k]) != name_at(kids, x) by {
                    assert(r.contains(r[k]));
                    assert(kids[r[k] as int].file.name@ != kids[x as int].file.name@);
                }
                lemma_insert_sorted(kids, r, x);
            }
        }
    }
}

/// Siblings are listed in strictly increasing order of name, and they are
/// exactly the children that pass the filters.
pub proof fn siblings_in_name_order(cfg: Config, kids: Seq<Node>)
    requires
        kids.len() <= usize::MAX,
        distinct_names(kids),
    ensures
        strictly_sorted(kids, selection(cfg, kids)),
        forall|y: usize| #[trigger] selection(cfg, kids).contains(y) <==> (y < kids.len() && keeps(cfg, kids[y as int].file)),
{
    lemma_survivors(cfg, kids, kids.len());
}

proof fn lemma_selection_members(cfg: Config, kids: Seq<Node>)
    ensures
        forall|k: int|
            0 <= k < selection(cfg, kids).len() ==> #[trigger] selection(cfg, kids)[k] < kids.len()
                && keeps(cfg, kids[selection(cfg, kids)[k] as int].file),
{
    if kids.len() <= usize::MAX {
        lemma_survivors(cfg, kids, kids.len());
    }
    assert forall|k: int| 0 <= k < selection(cfg, kids).len() implies #[trigger] selection(cfg, kids)[k]
        < kids.len() && keeps(cfg, kids[selection(cfg, kids)[k] as int].file) by {
        assert(selection(cfg, kids).contains(selection(cfg, kids)[k]));
    }
}

/// A row drawn within the listing at `lasts`: at least as deep, no deeper
/// than the limit, and (for an entry) a child that passed the filters.
pub open spec fn row_ok(cfg: Config, r: Row, lasts: Seq<bool>) -> bool {
    &&& lasts.len() <= r.lasts().len() <= cfg.limit
    &&& match r {
        Row::Item { file, .. } => keeps(cfg, file),
        Row::More { .. } => true,
    }
}

proof fn lemma_frame_rows(cfg: Config, node: Node, lasts: Seq<bool>)
    requires
        lasts.len() <= cfg.limit,
    ensures
        forall|k: int| 0 <= k < frame(cfg, node, lasts).0.len() ==> row_ok(cfg, #[trigger] frame(cfg, node, lasts).0[k], lasts),
        cfg.directory_only ==> frame(cfg, node, lasts).2 == 0,
    decreases cfg.limit + 1 - lasts.len(), 1int, 0int,
{
    let kids = node.children@;
    let sel = selection(cfg, kids);
    lemma_selection_members(cfg, kids);
    let g = group(cfg, kids, sel, lasts, shown_count(cfg, sel.len()));
    lemma_group_rows(cfg, kids, sel, lasts, shown_count(cfg, sel.len()));
    if shown_count(cfg, sel.len()) < sel.len() {
        let all = g.0.push(Row::More { lasts });
        assert forall|k: int| 0 <= k < all.len() implies row_ok(cfg, #[trigger] all[k], lasts) by {
            if k < g.0.len() {
                assert(all[k] == g.0[k]);
            }
        }
    }
}

proof fn lemma_group_rows(cfg: Config, kids: Seq<Node>, sel: Seq<usize>, lasts: Seq<bool>, i: nat)
    requires
        lasts.len() <= cfg.limit,
        i <= sel.len(),
        forall|k: int| 0 <= k < sel.len() ==> #[trigger] sel[k] < kids.len() && keeps(cfg, kids[sel[k] as int].file),
    ensures
        forall|k: int| 0 <= k < group(cfg, kids, sel, lasts, i).0.len() ==> row_ok(cfg, #[trigger] group(cfg, kids, sel, lasts, i).0[k], lasts),
        cfg.directory_only ==> group(cfg, kids, sel, lasts, i).2 == 0,
    decreases cfg.limit + 1 - lasts.len(), 0int, i,
{
    if i > 0 {
        lemma_group_rows(cfg, kids, sel, lasts, (i - 1) as nat);
        let kid = kids[sel[i - 1] as int];
        let last = i - 1 == sel.len() - 1;
        let prev = group(cfg, kids, sel, lasts, (i - 1) as nat);
        let row = Row::Item { lasts, last, file: kid.file };
        assert(keeps(cfg, kid.file));
        if kid.file.ftype.spec_is_dir() && lasts.len() < cfg.limit {
            let sl = lasts.push(last);
            lemma_frame_rows(cfg, kid, sl);
            let sub = frame(cfg, kid, sl);
            let all = prev.0.push(row) + sub.0;
            assert forall|k: int| 0 <= k < all.len() implies row_ok(cfg, #[trigger] all[k], lasts) by {
                if k >= prev.0.len() + 1 {
                    assert(all[k] == sub.0[k - prev.0.len() - 1]);
                    assert(row_ok(cfg, sub.0[k - prev.0.len() - 1], sl));
                } else if k < prev.0.len() {
                    assert(all[k] == prev.0[k]);
                }
            }
        } else {
            let all = prev.0.push(row);
            assert forall|k: int| 0 <= k < all.len() implies row_ok(cfg, #[trigger] all[k], lasts) by {
                if k < prev.0.len() {
                    assert(all[k] == prev.0[k]);
                }
            }
        }
    }
}

/// No drawn row is nested deeper than the depth limit: each row's prefix is
/// made of at most `cfg.limit` segments.
pub proof fn depth_is_limited(cfg: Config, root: Node)
    ensures
        forall|k: int| 0 <= k < frame(cfg, root, Seq::empty()).0.len() ==> (#[trigger] frame(cfg, root, Seq::empty()).0[k]).lasts().len() <= cfg.limit,
{
    lemma_frame_rows(cfg, root, Seq::empty());
    assert forall|k: int| 0 <= k < frame(cfg, root, Seq::empty()).0.len() implies (#[trigger] frame(cfg, root, Seq::empty()).0[k]).lasts().len() <= cfg.limit by {
        assert(row_ok(cfg, frame(cfg, root, Seq::empty()).0[k], Seq::empty()));
    }
}

/// Without `all`, no drawn entry's name starts with a dot.
pub proof fn hidden_entries_are_left_out(cfg: Config, root: Node)
    requires
        !cfg.all,
    ensures
        forall|k: int| 0 <= k < frame(cfg, root, Seq::empty()).0.len() ==> match #[trigger] frame(cfg, root, Seq::empty()).0[k] {
            Row::Item { file, .. } => !starts_with_dot(file.name@),
            Row::More { .. } => true,
        },
{
    lemma_frame_rows(cfg, root, Seq::empty());
    assert forall|k: int| 0 <= k < frame(cfg, root, Seq::empty()).0.len() implies match #[trigger] frame(cfg, root, Seq::empty()).0[k] {
        Row::Item { file, .. } => !starts_with_dot(file.name@),
        Row::More { .. } => true,
    } by {
        assert(row_ok(cfg, frame(cfg, root, Seq::empty()).0[k], Seq::empty()));
    }
}

/// With `all`, a child whose name starts with a dot is listed like any
/// other: the siblings listed are exactly those that pass the
/// directories-only filter, in strictly increasing order of name.
pub proof fn hidden_entries_are_shown_with_all(cfg: Config, kids: Seq<Node>)
    requires
        cfg.all,
        kids.len() <= usize::MAX,
        distinct_names(kids),
    ensures
        strictly_sorted(kids, selection(cfg, kids)),
        forall|y: usize| #[trigger] selection(cfg, kids).contains(y) <==> (y < kids.len() && (!cfg.directory_only || kids[y as int].file.ftype is Directory)),
{
    lemma_survivors(cfg, kids, kids.len());
}

/// In directories-only mode every drawn entry is a directory and no other
/// entry is counted.
pub proof fn directories_only_shows_directories(cfg: Config, root: Node)
    requires
        cfg.directory_only,
    ensures
        forall|k: int| 0 <= k < frame(cfg, root, Seq::empty()).0.len() ==> match #[trigger] frame(cfg, root, Seq::empty()).0[k] {
            Row::Item { file, .. } => file.ftype is Directory,
            Row::More { .. } => true,
        },
        frame(cfg, root, Seq::empty()).2 == 0,
{
    lemma_frame_rows(cfg, root, Seq::empty());
    assert forall|k: int| 0 <= k < frame(cfg, root, Seq::empty()).0.len() implies match #[trigger] frame(cfg, root, Seq::empty()).0[k] {
        Row::Item { file, .. } => file.ftype is Directory,
        Row::More { .. } => true,
    } by {
        assert(row_ok(cfg, frame(cfg, root, Seq::empty()).0[k], Seq::empty()));
    }
}

/// How many of `rows` satisfy `p`.
pub open spec fn count_rows(rows: Seq<Row>, p: spec_fn(Row) -> bool) -> nat
    decreases rows.len(),
{
    if rows.len() == 0 {
        0
    } else {
        count_rows(rows.drop_last(), p) + if p(rows.last()) {
            1nat
        } else {
            0nat
        }
    }
}

/// An entry row directly in the listing at `lasts`.
pub open spec fn entry_at(lasts: Seq<bool>) -> spec_fn(Row) -> bool {
    |r: Row| r is Item && r.lasts() == lasts
}

/// An entry row directly in the listing at `lasts` drawn with the corner
/// connector.
pub open spec fn corner_at(lasts: Seq<bool>) -> spec_fn(Row) -> bool {
    |r: Row|
        match r {
            Row::Item { lasts: l, last, .. } => last && l == lasts,
            Row::More { .. } => false,
        }
}

/// A placeholder row directly in the listing at `lasts`.
pub open spec fn placeholder_at(lasts: Seq<bool>) -> spec_fn(Row) -> bool {
    |r: Row| r is More && r.lasts() == lasts
}

proof fn lemma_count_concat(a: Seq<Row>, b: Seq<Row>, p: spec_fn(Row) -> bool)
    ensures
        count_rows(a + b, p) == count_rows(a, p) + count_rows(b, p),
    decreases b.len(),
{
    if b.len() > 0 {
        assert((a + b).drop_last() =~= a + b.drop_last());
        lemma_count_concat(a, b.drop_last(), p);
    } else {
        assert(a + b =~= a);
    }
}

proof fn lemma_count_none(b: Seq<Row>, p: spec_fn(Row) -> bool)
    requires
        forall|k: int| 0 <= k < b.len() ==> !p(#[trigger] b[k]),
    ensures
        count_rows(b, p) == 0,
    decreases b.len(),
{
    if b.len() > 0 {
        lemma_count_none(b.drop_last(), p);
    }
}

proof fn lemma_count_push(a: Seq<Row>, r: Row, p: spec_fn(Row) -> bool)
    ensures
        count_rows(a.push(r), p) == count_rows(a, p) + if p(r) {
            1nat
        } else {
            0nat
        },
{
    assert(a.push(r).drop_last() =~= a);
}

proof fn lemma_group_levels(cfg: Config, kids: Seq<Node>, sel: Seq<usize>, lasts: Seq<bool>, i: nat)
    requires
        lasts.len() <= cfg.limit,
        i <= sel.len(),
        forall|k: int| 0 <= k < sel.len() ==> #[trigger] sel[k] < kids.len() && keeps(cfg, kids[sel[k] as int].file),
    ensures
        count_rows(group(cfg, kids, sel, lasts, i).0, entry_at(lasts)) == i,
        count_rows(group(cfg, kids, sel, lasts, i).0, corner_at(lasts)) == if i > 0 && i == sel.len() {
            1nat
        } else {
            0nat
        },
        count_rows(group(cfg, kids, sel, lasts, i).0, placeholder_at(lasts)) == 0,
    decreases i,
{
    if i > 0 {
        lemma_group_levels(cfg, kids, sel, lasts, (i - 1) as nat);
        let kid = kids[sel[i - 1] as int];
        let last = i - 1 == sel.len() - 1;
        let prev = group(cfg, kids, sel, lasts, (i - 1) as nat);
        let row = Row::Item { lasts, last, file: kid.file };
        assert(count_rows(prev.0, corner_at(lasts)) == 0);
        lemma_count_push(prev.0, row, entry_at(lasts));
        lemma_count_push(prev.0, row, corner_at(lasts));
        lemma_count_push(prev.0, row, placeholder_at(lasts));
        if kid.file.ftype.spec_is_dir() && lasts.len() < cfg.limit {
            let sl = lasts.push(last);
            lemma_frame_rows(cfg, kid, sl);
            let sub = frame(cfg, kid, sl);
            assert forall|k: int| 0 <= k < sub.0.len() implies (#[trigger] sub.0[k]).lasts() != lasts by {
                assert(row_ok(cfg, sub.0[k], sl));
            }
            lemma_count_none(sub.0, entry_at(lasts));
            lemma_count_none(sub.0, corner_at(lasts));
            lemma_count_none(sub.0, placeholder_at(lasts));
            lemma_count_concat(prev.0.push(row), sub.0, entry_at(lasts));
            lemma_count_concat(prev.0.push(row), sub.0, corner_at(lasts));
            lemma_count_concat(prev.0.push(row), sub.0, placeholder_at(lasts));
        }
    }
}

/// Each sibling group that overview mode does not cut has exactly one entry
/// drawn with the corner connector (none if the group is empty), and one
/// drawn row per surviving child.
pub proof fn one_corner_per_sibling_group(cfg: Config, node: Node, lasts: Seq<bool>)
    requires
        lasts.len() <= cfg.limit,
        shown_count(cfg, selection(cfg, node.children@).len()) == selection(cfg, node.children@).len(),
    ensures
        count_rows(frame(cfg, node, lasts).0, corner_at(lasts)) == if selection(cfg, node.children@).len() > 0 {
            1nat
        } else {
            0nat
        },
        count_rows(frame(cfg, node, lasts).0, entry_at(lasts)) == selection(cfg, node.children@).len(),
        count_rows(frame(cfg, node, lasts).0, placeholder_at(lasts)) == 0,
{
    let kids = node.children@;
    let sel = selection(cfg, kids);
    lemma_selection_members(cfg, kids);
    lemma_group_levels(cfg, kids, sel, lasts, sel.len());
}

/// In overview mode a directory with more than `OVERVIEW_LIMIT` surviving
/// children gets exactly that many entry rows and one placeholder row at its
/// level, the placeholder last; its counts are those of the shown children
/// alone.
pub proof fn overview_cuts_long_listings(cfg: Config, node: Node, lasts: Seq<bool>)
    requires
        lasts.len() <= cfg.limit,
        cfg.overview,
        selection(cfg, node.children@).len() > OVERVIEW_LIMIT,
    ensures
        count_rows(frame(cfg, node, lasts).0, entry_at(lasts)) == OVERVIEW_LIMIT,
        count_rows(frame(cfg, node, lasts).0, placeholder_at(lasts)) == 1,
        count_rows(frame(cfg, node, lasts).0, corner_at(lasts)) == 0,
        frame(cfg, node, lasts).0.last() == (Row::More { lasts }),
        frame(cfg, node, lasts).1 == group(cfg, node.children@, selection(cfg, node.children@), lasts, OVERVIEW_LIMIT as nat).1,
        frame(cfg, node, lasts).2 == group(cfg, node.children@, selection(cfg, node.children@), lasts, OVERVIEW_LIMIT as nat).2,
{
    let kids = node.children@;
    let sel = selection(cfg, kids);
    lemma_selection_members(cfg, kids);
    lemma_group_levels(cfg, kids, sel, lasts, OVERVIEW_LIMIT as nat);
    let g = group(cfg, kids, sel, lasts, OVERVIEW_LIMIT as nat);
    lemma_count_push(g.0, Row::More { lasts }, entry_at(lasts));
    lemma_count_push(g.0, Row::More { lasts }, corner_at(lasts));
    lemma_count_push(g.0, Row::More { lasts }, placeholder_at(lasts));
}

/// An entry row at nesting depth `d` drawn with the corner connector.
pub open spec fn corner_at_depth(d: nat) -> spec_fn(Row) -> bool {
    |r: Row|
        match r {
            Row::Item { lasts, last, .. } => last && lasts.len() == d,
            Row::More { .. } => false,
        }
}

/// How many directories in the listing of `node` at `lasts`, itself
/// included, have their children drawn at depth `d` and at least one
/// surviving child.
pub open spec fn busy_listings(cfg: Config, node: Node, lasts: Seq<bool>, d: nat) -> nat
    decreases cfg.limit + 1 - lasts.len(), 1int, 0int,
{
    let kids = node.children@;
    let sel = selection(cfg, kids);
    (if lasts.len() == d && sel.len() > 0 {
        1nat
    } else {
        0nat
    }) + busy_group(cfg, kids, sel, lasts, shown_count(cfg, sel.len()), d)
}

/// `busy_listings` summed over the first `i` shown children.
pub open spec fn busy_group(cfg: Config, kids: Seq<Node>, sel: Seq<usize>, lasts: Seq<bool>, i: nat, d: nat) -> nat
    decreases cfg.limit + 1 - lasts.len(), 0int, i,
{
    if i == 0 || lasts.len() > cfg.limit {
        0
    } else {
        let kid = kids[sel[i - 1] as int];
        let last = i - 1 == sel.len() - 1;
        busy_group(cfg, kids, sel, lasts, (i - 1) as nat, d) + if kid.file.ftype.spec_is_dir()
            && lasts.len() < cfg.limit {
            busy_listings(cfg, kid, lasts.push(last), d)
        } else {
            0
        }
    }
}

proof fn lemma_frame_corners(cfg: Config, node: Node, lasts: Seq<bool>, d: nat)
    requires
        !cfg.overview,
        lasts.len() <= cfg.limit,
    ensures
        count_rows(frame(cfg, node, lasts).0, corner_at_depth(d)) == busy_listings(cfg, node, lasts, d),
    decreases cfg.limit + 1 - lasts.len(), 1int, 0int,
{
    let kids = node.children@;
    let sel = selection(cfg, kids);
    lemma_group_corners(cfg, kids, sel, lasts, sel.len(), d);
}

proof fn lemma_group_corners(cfg: Config, kids: Seq<Node>, sel: Seq<usize>, lasts: Seq<bool>, i: nat, d: nat)
    requires
        !cfg.overview,
        lasts.len() <= cfg.limit,
        i <= sel.len(),
    ensures
        count_rows(group(cfg, kids, sel, lasts, i).0, corner_at_depth(d)) == (if lasts.len() == d && i
            == sel.len() && i > 0 {
            1nat
        } else {
            0nat
        }) + busy_group(cfg, kids, sel, lasts, i, d),
    decreases cfg.limit + 1 - lasts.len(), 0int, i,
{
    if i > 0 {
        lemma_group_corners(cfg, kids, sel, lasts, (i - 1) as nat, d);
        let kid = kids[sel[i - 1] as int];
        let last = i - 1 == sel.len() - 1;
        let prev = group(cfg, kids, sel, lasts, (i - 1) as nat);
        let row = Row::Item { lasts, last, file: kid.file };
        lemma_count_push(prev.0, row, corner_at_depth(d));
        if kid.file.ftype.spec_is_dir() && lasts.len() < cfg.limit {
            let sl = lasts.push(last);
            lemma_frame_corners(cfg, kid, sl, d);
            lemma_count_concat(prev.0.push(row), frame(cfg, kid, sl).0, corner_at_depth(d));
        }
    }
}

/// Without overview cuts, the number of corner connectors drawn at any
/// nesting depth equals the number of directories whose children are drawn
/// at that depth and that have at least one surviving child.
pub proof fn corners_match_listings(cfg: Config, root: Node, d: nat)
    requires
        !cfg.overview,
    ensures
        count_rows(frame(cfg, root, Seq::empty()).0, corner_at_depth(d)) == busy_listings(cfg, root, Seq::empty(), d),
{
    lemma_frame_corners(cfg, root, Seq::empty(), d);
}

} // verus!
