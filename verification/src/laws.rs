//! What holds of every walk and every run.

use crate::cli::{
    admitted, joined, lemma_first_unshowable_at, lines_of, read_until, selected, shown_as,
};
use crate::entry::{EntryView, Node};
use crate::pattern::name_matches;
use crate::walk::{child_emitted, found_below, found_here, goes_on, walk, walk_from, Rules, Walked};
use vstd::prelude::*;

verus! {

/// Whether `full` begins with the names of `start`.
pub open spec fn starts_with(full: Seq<Seq<char>>, start: Seq<Seq<char>>) -> bool {
    &&& start.len() <= full.len()
    &&& forall|k: int| 0 <= k < start.len() ==> #[trigger] full[k] == start[k]
}

/// Whether `e` can have been found by a walk from the directory at `path`:
/// it lies below that directory, no directory between the two has an
/// ignored name, it is of the kind that the walk looks for, and unless it
/// is a directory its own name is not ignored either.
pub open spec fn found_under(e: EntryView, path: Seq<Seq<char>>, rules: Rules) -> bool {
    &&& starts_with(e.path, path)
    &&& e.path.len() > path.len()
    &&& forall|k: int|
        path.len() <= k < e.path.len() - 1 ==> !name_matches(rules.ignore, #[trigger] e.path[k])
    &&& e.is_dir == rules.dirs_only
    &&& !e.is_dir ==> !name_matches(rules.ignore, e.path.last())
}

/// Whether the name that `e` has right below the directory at `path` is
/// that of a child of `d` at or after `from`.
pub open spec fn enters_by(e: EntryView, d: Node, from: int, path: Seq<Seq<char>>) -> bool {
    exists|j: int|
        from <= j < d.children@.len() && e.path.len() > path.len() && e.path[path.len() as int]
            == (#[trigger] d.children@[j]).name@
}

/// Membership in two sequences put together.
pub proof fn lemma_contains_add<A>(a: Seq<A>, b: Seq<A>, x: A)
    ensures
        (a + b).contains(x) <==> a.contains(x) || b.contains(x),
{
    if a.contains(x) {
        let i = a.index_of(x);
        assert((a + b)[i] == x);
    }
    if b.contains(x) {
        let i = b.index_of(x);
        assert((a + b)[a.len() + i] == x);
    }
    if (a + b).contains(x) {
        let i = (a + b).index_of(x);
        if i < a.len() {
            assert(a[i] == x);
        } else {
            assert(b[i - a.len()] == x);
        }
    }
}

/// Every entry that the walk of `d`'s children from `from` on finds lies
/// below `d`, behind no ignored directory, and is entered by one of those
/// children.
pub proof fn lemma_walk_from_found(
    d: Node,
    from: int,
    path: Seq<Seq<char>>,
    rules: Rules,
    e: EntryView,
)
    requires
        0 <= from,
        walk_from(d, from, path, rules).emitted.contains(e),
    ensures
        found_under(e, path, rules),
        enters_by(e, d, from, path),
    decreases d, d.children@.len() - from,
{
    if from < d.children@.len() {
        let c = d.children@[from];
        let here = found_here(c, path, rules);
        let below = found_below(c, path, rules);
        let rest = walk_from(d, from + 1, path, rules);
        let w = walk_from(d, from, path, rules);
        if goes_on(rules, below.failure) {
            assert(w.emitted == (here + below.emitted) + rest.emitted);
            lemma_contains_add(here + below.emitted, rest.emitted, e);
        } else {
            assert(w.emitted == here + below.emitted);
        }
        lemma_contains_add(here, below.emitted, e);
        if here.contains(e) {
            assert(e == EntryView { path: path.push(c.name@), is_dir: c.is_dir });
            assert(e.path[path.len() as int] == d.children@[from].name@);
        } else if below.emitted.contains(e) {
            assert(c.is_dir);
            assert(below == walk(c, path, rules));
            lemma_walk_found(c, path, rules, e);
            let deeper = path.push(c.name@);
            assert(e.path[path.len() as int] == deeper[path.len() as int]);
            assert(e.path[path.len() as int] == d.children@[from].name@);
            assert forall|k: int| 0 <= k < path.len() implies #[trigger] e.path[k] == path[k] by {
                assert(e.path[k] == deeper[k]);
            }
        } else {
            lemma_walk_from_found(d, from + 1, path, rules, e);
            let j = choose|j: int|
                from + 1 <= j < d.children@.len() && e.path.len() > path.len() && e.path[path.len() as int]
                    == (#[trigger] d.children@[j]).name@;
            assert(from <= j < d.children@.len() && e.path[path.len() as int]
                == d.children@[j].name@);
        }
    }
}

/// Every entry that the walk of `d` finds lies below `d`, behind no
/// ignored directory; and `d` itself is not ignored.
pub proof fn lemma_walk_found(d: Node, parent: Seq<Seq<char>>, rules: Rules, e: EntryView)
    requires
        walk(d, parent, rules).emitted.contains(e),
    ensures
        !name_matches(rules.ignore, d.name@),
        found_under(e, parent.push(d.name@), rules),
    decreases d, d.children@.len() + 1,
{
    lemma_walk_from_found(d, 0, parent.push(d.name@), rules, e);
}

/// An ignored directory hides all that is in it. Whatever a walk finds
/// lies below the root of the walk; no directory from the root down to the
/// one that holds it has an ignored name; and what is found that is no
/// directory has no ignored name itself. Directories are found only where
/// they are asked for, so without that no name on the whole way, the last
/// included, is ignored.
pub proof fn law_ignored_left_out(root: Node, parent: Seq<Seq<char>>, rules: Rules, e: EntryView)
    requires
        walk(root, parent, rules).emitted.contains(e),
    ensures
        starts_with(e.path, parent.push(root.name@)),
        e.path.len() > parent.len() + 1,
        forall|k: int|
            parent.len() <= k < e.path.len() - 1 ==> !name_matches(rules.ignore, #[trigger] e.path[k]),
        !e.is_dir ==> !name_matches(rules.ignore, e.path.last()),
        !rules.dirs_only ==> !e.is_dir,
{
    lemma_walk_found(root, parent, rules, e);
    let at = parent.push(root.name@);
    assert forall|k: int| parent.len() <= k < e.path.len() - 1 implies !name_matches(
        rules.ignore,
        #[trigger] e.path[k],
    ) by {
        if k == parent.len() {
            assert(e.path[k] == at[k]);
        }
    }
}

/// The rules of a walk in which the first failure ends everything.
pub open spec fn in_turn(ignore: Option<Seq<char>>, dirs_only: bool) -> Rules {
    Rules { ignore, dirs_only, is_async: false }
}

/// The rules of a walk in which every directory has a task of its own.
pub open spec fn in_tasks(ignore: Option<Seq<char>>, dirs_only: bool) -> Rules {
    Rules { ignore, dirs_only, is_async: true }
}

/// Whether a walk under `rules` that ended as `w` did has looked at
/// everything that it could enter.
pub open spec fn ran_through(rules: Rules, w: Walked) -> bool {
    rules.is_async || w.failure is None
}

/// From any child on, the walk in turn finds a beginning of what the walk
/// in tasks finds, and all of it where it meets no failure.
pub proof fn lemma_modes_agree_from(
    d: Node,
    from: int,
    path: Seq<Seq<char>>,
    ignore: Option<Seq<char>>,
    dirs_only: bool,
)
    requires
        0 <= from,
    ensures
        walk_from(d, from, path, in_turn(ignore, dirs_only)).emitted.is_prefix_of(
            walk_from(d, from, path, in_tasks(ignore, dirs_only)).emitted,
        ),
        walk_from(d, from, path, in_turn(ignore, dirs_only)).failure is None ==> walk_from(
            d,
            from,
            path,
            in_turn(ignore, dirs_only),
        ).emitted == walk_from(d, from, path, in_tasks(ignore, dirs_only)).emitted,
    decreases d, d.children@.len() - from,
{
    let turn = in_turn(ignore, dirs_only);
    let tasks = in_tasks(ignore, dirs_only);
    if from < d.children@.len() {
        let c = d.children@[from];
        let here = found_here(c, path, turn);
        assert(here == found_here(c, path, tasks));
        let below_s = found_below(c, path, turn);
        let below_a = found_below(c, path, tasks);
        if c.is_dir {
            lemma_modes_agree(c, path, ignore, dirs_only);
        }
        assert(below_s.emitted.is_prefix_of(below_a.emitted));
        lemma_modes_agree_from(d, from + 1, path, ignore, dirs_only);
        let rest_s = walk_from(d, from + 1, path, turn);
        let rest_a = walk_from(d, from + 1, path, tasks);
        let s = walk_from(d, from, path, turn);
        let a = walk_from(d, from, path, tasks);
        assert(a.emitted == here + below_a.emitted + rest_a.emitted);
        if below_s.failure is None {
            assert(s.emitted == here + below_s.emitted + rest_s.emitted);
            assert(s.emitted =~= a.emitted.subrange(0, s.emitted.len() as int));
        } else {
            assert(s.emitted == here + below_s.emitted);
            assert(s.emitted =~= a.emitted.subrange(0, s.emitted.len() as int));
        }
    }
}

/// The walk in turn finds a beginning of what the walk in tasks finds, and
/// all of it where it meets no failure.
pub proof fn lemma_modes_agree(
    d: Node,
    parent: Seq<Seq<char>>,
    ignore: Option<Seq<char>>,
    dirs_only: bool,
)
    ensures
        walk(d, parent, in_turn(ignore, dirs_only)).emitted.is_prefix_of(
            walk(d, parent, in_tasks(ignore, dirs_only)).emitted,
        ),
        walk(d, parent, in_turn(ignore, dirs_only)).failure is None ==> walk(
            d,
            parent,
            in_turn(ignore, dirs_only),
        ).emitted == walk(d, parent, in_tasks(ignore, dirs_only)).emitted,
    decreases d, d.children@.len() + 1,
{
    lemma_modes_agree_from(d, 0, parent.push(d.name@), ignore, dirs_only);
}

/// Both ways of walking find the same. Over one tree and with the same
/// patterns, a walk in turn that meets no failed listing finds exactly
/// what a walk in tasks finds, so the two sets are one. Where a listing
/// fails, the walk in turn stops there, and what it found until then is
/// the beginning of what the walk in tasks finds.
pub proof fn law_modes_find_the_same(
    root: Node,
    parent: Seq<Seq<char>>,
    ignore: Option<Seq<char>>,
    dirs_only: bool,
)
    ensures
        walk(root, parent, in_turn(ignore, dirs_only)).emitted.is_prefix_of(
            walk(root, parent, in_tasks(ignore, dirs_only)).emitted,
        ),
        walk(root, parent, in_turn(ignore, dirs_only)).failure is None ==> walk(
            root,
            parent,
            in_turn(ignore, dirs_only),
        ).emitted.to_set() == walk(root, parent, in_tasks(ignore, dirs_only)).emitted.to_set(),
{
    lemma_modes_agree(root, parent, ignore, dirs_only);
}

/// A walk that ran through the children of `d` from `from` on has found
/// the child at `j` if it is one to be found, and all that the walk below
/// that child finds; and a walk in turn met no failure below it.
pub proof fn lemma_child_reached(
    d: Node,
    from: int,
    j: int,
    path: Seq<Seq<char>>,
    rules: Rules,
    e: EntryView,
)
    requires
        0 <= from <= j < d.children@.len(),
        ran_through(rules, walk_from(d, from, path, rules)),
        found_here(d.children@[j], path, rules).contains(e) || found_below(
            d.children@[j],
            path,
            rules,
        ).emitted.contains(e),
    ensures
        walk_from(d, from, path, rules).emitted.contains(e),
    decreases j - from,
{
    let c = d.children@[from];
    let here = found_here(c, path, rules);
    let below = found_below(c, path, rules);
    let rest = walk_from(d, from + 1, path, rules);
    let w = walk_from(d, from, path, rules);
    assert(goes_on(rules, below.failure));
    assert(w.emitted == (here + below.emitted) + rest.emitted);
    lemma_contains_add(here + below.emitted, rest.emitted, e);
    lemma_contains_add(here, below.emitted, e);
    if from < j {
        lemma_child_reached(d, from + 1, j, path, rules, e);
    }
}

/// A walk in turn that ran through the children of `d` from `from` on met
/// no failure below any of them.
pub proof fn lemma_child_ran_through(
    d: Node,
    from: int,
    j: int,
    path: Seq<Seq<char>>,
    rules: Rules,
)
    requires
        0 <= from <= j < d.children@.len(),
        ran_through(rules, walk_from(d, from, path, rules)),
    ensures
        ran_through(rules, found_below(d.children@[j], path, rules)),
    decreases j - from,
{
    let below = found_below(d.children@[from], path, rules);
    assert(goes_on(rules, below.failure));
    if from < j {
        lemma_child_ran_through(d, from + 1, j, path, rules);
    }
}

/// A failed listing stays with its own directory. Where every directory
/// has a task of its own, all that is found below a child of a directory
/// that the walk enters, and that child itself where it is one to be
/// found, is found by the walk of the directory too: whatever becomes of
/// the listings of its siblings, or of its own.
pub proof fn law_failure_spares_siblings(
    d: Node,
    parent: Seq<Seq<char>>,
    ignore: Option<Seq<char>>,
    dirs_only: bool,
    j: int,
    e: EntryView,
)
    requires
        !name_matches(ignore, d.name@),
        0 <= j < d.children@.len(),
        found_here(d.children@[j], parent.push(d.name@), in_tasks(ignore, dirs_only)).contains(e)
            || found_below(
            d.children@[j],
            parent.push(d.name@),
            in_tasks(ignore, dirs_only),
        ).emitted.contains(e),
    ensures
        walk(d, parent, in_tasks(ignore, dirs_only)).emitted.contains(e),
{
    lemma_child_reached(d, 0, j, parent.push(d.name@), in_tasks(ignore, dirs_only), e);
}

/// Whether the steps `way` lead from the directory `d` to something a
/// walk looks at: `d` is not ignored, each step is the position of a child
/// in the listing of the directory reached so far, and every child on the
/// way but the last is a directory whose name is not ignored.
pub open spec fn open_way(d: Node, way: Seq<int>, rules: Rules) -> bool
    decreases way.len(),
{
    &&& !name_matches(rules.ignore, d.name@)
    &&& way.len() > 0
    &&& 0 <= way[0] < d.children@.len()
    &&& way.len() > 1 ==> d.children@[way[0]].is_dir && open_way(
        d.children@[way[0]],
        way.drop_first(),
        rules,
    )
}

/// What the steps `way` lead to from `d`.
pub open spec fn node_at(d: Node, way: Seq<int>) -> Node
    decreases way.len(),
{
    if way.len() == 0 {
        d
    } else {
        node_at(d.children@[way[0]], way.drop_first())
    }
}

/// The path of what the steps `way` lead to from `d`, which lies in the
/// directory at `parent`.
pub open spec fn path_at(d: Node, parent: Seq<Seq<char>>, way: Seq<int>) -> Seq<Seq<char>>
    decreases way.len(),
{
    if way.len() == 0 {
        parent.push(d.name@)
    } else {
        path_at(d.children@[way[0]], parent.push(d.name@), way.drop_first())
    }
}

/// The entry that stands for what the steps `way` lead to from `d`.
pub open spec fn entry_at(d: Node, parent: Seq<Seq<char>>, way: Seq<int>) -> EntryView {
    EntryView { path: path_at(d, parent, way), is_dir: node_at(d, way).is_dir }
}

/// Whether no directory in the tree at `d` lists one name twice.
pub open spec fn distinct_names(d: Node) -> bool
    decreases d,
{
    &&& forall|i: int, j: int|
        0 <= i < j < d.children@.len() ==> (#[trigger] d.children@[i]).name@ != (
        #[trigger] d.children@[j]).name@
    &&& forall|i: int| 0 <= i < d.children@.len() ==> distinct_names(#[trigger] d.children@[i])
}

/// A walk that ran through finds whatever an open way leads to, if it is
/// of the kind to be found.
pub proof fn lemma_found_at(d: Node, parent: Seq<Seq<char>>, way: Seq<int>, rules: Rules)
    requires
        open_way(d, way, rules),
        ran_through(rules, walk(d, parent, rules)),
        child_emitted(
            rules.ignore,
            rules.dirs_only,
            node_at(d, way).name@,
            node_at(d, way).is_dir,
        ),
    ensures
        walk(d, parent, rules).emitted.contains(entry_at(d, parent, way)),
    decreases way.len(),
{
    let path = parent.push(d.name@);
    let c = d.children@[way[0]];
    let e = entry_at(d, parent, way);
    let tail = way.drop_first();
    assert(walk(d, parent, rules) == walk_from(d, 0, path, rules));
    if way.len() == 1 {
        assert(tail.len() == 0);
        assert(node_at(d, way) == node_at(c, tail));
        assert(node_at(c, tail) == c);
        assert(path_at(d, parent, way) == path_at(c, path, tail));
        assert(path_at(c, path, tail) == path.push(c.name@));
        assert(found_here(c, path, rules)[0] == e);
    } else {
        lemma_child_ran_through(d, 0, way[0], path, rules);
        assert(found_below(c, path, rules) == walk(c, path, rules));
        assert(node_at(d, way) == node_at(c, tail));
        assert(path_at(d, parent, way) == path_at(c, path, tail));
        lemma_found_at(c, path, tail, rules);
    }
    lemma_child_reached(d, 0, way[0], path, rules, e);
}

/// In a tree whose directories list no name twice, the walk of `d`'s
/// children from `from` on finds nothing twice.
pub proof fn lemma_walk_from_finds_once(d: Node, from: int, path: Seq<Seq<char>>, rules: Rules)
    requires
        0 <= from,
        distinct_names(d),
    ensures
        walk_from(d, from, path, rules).emitted.no_duplicates(),
    decreases d, d.children@.len() - from,
{
    if from < d.children@.len() {
        let c = d.children@[from];
        let here = found_here(c, path, rules);
        let below = found_below(c, path, rules);
        let rest = walk_from(d, from + 1, path, rules);
        let w = walk_from(d, from, path, rules);
        let first = here + below.emitted;
        assert(distinct_names(c));
        if c.is_dir {
            lemma_walk_finds_once(c, path, rules);
        }
        assert(below.emitted.no_duplicates());
        lemma_walk_from_finds_once(d, from + 1, path, rules);
        assert forall|x: int, y: int| 0 <= x < first.len() && 0 <= y < first.len() && x
            != y implies first[x] != first[y] by {
            if x < here.len() && y >= here.len() {
                assert(below.emitted.contains(first[y]));
                lemma_walk_found(c, path, rules, first[y]);
            } else if y < here.len() && x >= here.len() {
                assert(below.emitted.contains(first[x]));
                lemma_walk_found(c, path, rules, first[x]);
            } else if x >= here.len() {
                assert(first[x] == below.emitted[x - here.len()]);
                assert(first[y] == below.emitted[y - here.len()]);
            }
        }
        assert(first.no_duplicates());
        assert forall|x: int| 0 <= x < first.len() implies (#[trigger] first[x]).path.len()
            > path.len() && first[x].path[path.len() as int] == c.name@ by {
            if x >= here.len() {
                assert(below.emitted.contains(first[x]));
                lemma_walk_found(c, path, rules, first[x]);
                assert(first[x].path[path.len() as int] == path.push(c.name@)[path.len() as int]);
            }
        }
        if goes_on(rules, below.failure) {
            assert(w.emitted == first + rest.emitted);
            assert forall|x: int, y: int|
                0 <= x < w.emitted.len() && 0 <= y < w.emitted.len() && x != y implies w.emitted[x]
                != w.emitted[y] by {
                let (lo, hi) = if x < y {
                    (x, y)
                } else {
                    (y, x)
                };
                if hi < first.len() {
                    assert(w.emitted[lo] == first[lo] && w.emitted[hi] == first[hi]);
                } else if lo >= first.len() {
                    assert(w.emitted[lo] == rest.emitted[lo - first.len()]);
                    assert(w.emitted[hi] == rest.emitted[hi - first.len()]);
                } else {
                    let late = w.emitted[hi];
                    assert(late == rest.emitted[hi - first.len()]);
                    assert(rest.emitted.contains(late));
                    lemma_walk_from_found(d, from + 1, path, rules, late);
                    let j = choose|j: int|
                        from + 1 <= j < d.children@.len() && late.path.len() > path.len()
                            && late.path[path.len() as int] == (#[trigger] d.children@[j]).name@;
                    assert(d.children@[from].name@ != d.children@[j].name@);
                    assert(w.emitted[lo] == first[lo]);
                }
            }
        } else {
            assert(w.emitted == first);
        }
    }
}

/// In a tree whose directories list no name twice, a walk finds nothing twice.
pub proof fn lemma_walk_finds_once(d: Node, parent: Seq<Seq<char>>, rules: Rules)
    requires
        distinct_names(d),
    ensures
        walk(d, parent, rules).emitted.no_duplicates(),
    decreases d, d.children@.len() + 1,
{
    lemma_walk_from_finds_once(d, 0, parent.push(d.name@), rules);
}

/// What passes a filter is in the result, and the result holds nothing
/// else and nothing more often than the sequence did.
pub proof fn lemma_filter_keeps<A>(s: Seq<A>, p: spec_fn(A) -> bool)
    ensures
        forall|x: A| #[trigger] s.filter(p).contains(x) <==> s.contains(x) && p(x),
        s.no_duplicates() ==> s.filter(p).no_duplicates(),
    decreases s.len(),
{
    reveal(Seq::filter);
    if s.len() > 0 {
        let front = s.drop_last();
        lemma_filter_keeps(front, p);
        let kept = front.filter(p);
        assert forall|x: A| #[trigger] s.filter(p).contains(x) <==> s.contains(x) && p(x) by {
            assert(s == front.push(s.last()));
            lemma_contains_add(front, seq![s.last()], x);
            assert(front.push(s.last()) == front + seq![s.last()]);
            if p(s.last()) {
                assert(s.filter(p) == kept + seq![s.last()]);
                lemma_contains_add(kept, seq![s.last()], x);
            }
            if seq![s.last()].contains(x) {
                assert(x == s.last());
            }
            if x == s.last() {
                assert(seq![s.last()][0] == x);
            }
        }
        if s.no_duplicates() {
            assert forall|i: int, j: int| 0 <= i < front.len() && 0 <= j < front.len() && i
                != j implies front[i] != front[j] by {
                assert(front[i] == s[i] && front[j] == s[j]);
            }
            if p(s.last()) {
                assert(!front.contains(s.last())) by {
                    if front.contains(s.last()) {
                        let i = front.index_of(s.last());
                        assert(s[i] == s[s.len() - 1]);
                    }
                }
                assert(!kept.contains(s.last()));
                assert forall|i: int, j: int|
                    0 <= i < s.filter(p).len() && 0 <= j < s.filter(p).len() && i
                        != j implies s.filter(p)[i] != s.filter(p)[j] by {
                    if i < kept.len() && j < kept.len() {
                    } else if i < kept.len() {
                        assert(kept.contains(kept[i]));
                    } else {
                        assert(kept.contains(kept[j]));
                    }
                }
            }
        }
    }
}

/// No more is shown than the limit allows: as many entries as pass the
/// match filter, or as many as the limit says if that is fewer.
pub proof fn law_limit_holds(stream: Seq<EntryView>, matchre: Option<Seq<char>>, max_items: usize)
    ensures
        selected(stream, matchre, max_items).len() <= max_items,
        selected(stream, matchre, max_items).len() <= stream.len(),
        selected(stream, matchre, max_items).len() == if passing(
            stream,
            matchre,
            0,
            stream.len() as int,
        ) <= max_items {
            passing(stream, matchre, 0, stream.len() as int)
        } else {
            max_items as nat
        },
{
    stream.lemma_filter_len(|e: EntryView| admitted(matchre, e));
    assert(stream.subrange(0, stream.len() as int) == stream);
}

/// The order of arrival changes nothing but the order. Two streams that
/// hold the same entries, in whatever order each, have the same entries
/// shown, as long as the limit is reached in neither.
pub proof fn law_order_of_arrival(
    a: Seq<EntryView>,
    b: Seq<EntryView>,
    matchre: Option<Seq<char>>,
    max_items: usize,
)
    requires
        a.to_set() == b.to_set(),
        a.filter(|e: EntryView| admitted(matchre, e)).len() <= max_items,
        b.filter(|e: EntryView| admitted(matchre, e)).len() <= max_items,
    ensures
        selected(a, matchre, max_items).to_set() == selected(b, matchre, max_items).to_set(),
{
    let p = |e: EntryView| admitted(matchre, e);
    lemma_filter_keeps(a, p);
    lemma_filter_keeps(b, p);
    assert forall|x: EntryView| a.filter(p).to_set().contains(x) <==> b.filter(
        p,
    ).to_set().contains(x) by {
        assert(a.to_set().contains(x) <==> a.contains(x));
        assert(b.to_set().contains(x) <==> b.contains(x));
        assert(a.filter(p).to_set().contains(x) <==> a.filter(p).contains(x));
        assert(b.filter(p).to_set().contains(x) <==> b.filter(p).contains(x));
    }
    assert(a.filter(p).to_set() =~= b.filter(p).to_set());
}

/// What is to be shown is shown, once. Take a tree whose directories list
/// no name twice, and a way in it that a walk can go: from the root, through
/// directories that are not ignored, to something of the kind that the walk
/// looks for. If the walk ran through, the match filter lets the entry
/// pass, and the limit is not smaller than the number of entries that pass,
/// then the entry is among those shown, and nothing is shown twice.
pub proof fn law_shown_once(
    root: Node,
    parent: Seq<Seq<char>>,
    way: Seq<int>,
    rules: Rules,
    matchre: Option<Seq<char>>,
    max_items: usize,
)
    requires
        distinct_names(root),
        open_way(root, way, rules),
        child_emitted(
            rules.ignore,
            rules.dirs_only,
            node_at(root, way).name@,
            node_at(root, way).is_dir,
        ),
        ran_through(rules, walk(root, parent, rules)),
        admitted(matchre, entry_at(root, parent, way)),
        walk(root, parent, rules).emitted.filter(|e: EntryView| admitted(matchre, e)).len()
            <= max_items,
    ensures
        selected(walk(root, parent, rules).emitted, matchre, max_items).contains(
            entry_at(root, parent, way),
        ),
        selected(walk(root, parent, rules).emitted, matchre, max_items).no_duplicates(),
{
    let found = walk(root, parent, rules).emitted;
    lemma_found_at(root, parent, way, rules);
    lemma_walk_finds_once(root, parent, rules);
    lemma_filter_keeps(found, |e: EntryView| admitted(matchre, e));
}

/// How many of the entries of `stream` from `from` up to `to` the match
/// filter lets pass.
pub open spec fn passing(
    stream: Seq<EntryView>,
    matchre: Option<Seq<char>>,
    from: int,
    to: int,
) -> nat {
    stream.subrange(from, to).filter(|e: EntryView| admitted(matchre, e)).len()
}

proof fn lemma_passing_first(stream: Seq<EntryView>, matchre: Option<Seq<char>>, from: int, to: int)
    requires
        0 <= from < to <= stream.len(),
    ensures
        passing(stream, matchre, from, to) == passing(stream, matchre, from + 1, to) + if admitted(
            matchre,
            stream[from],
        ) {
            1nat
        } else {
            0nat
        },
{
    let p = |e: EntryView| admitted(matchre, e);
    let one = seq![stream[from]];
    assert(stream.subrange(from, to) == one + stream.subrange(from + 1, to));
    Seq::filter_distributes_over_add(one, stream.subrange(from + 1, to), p);
    assert(one.filter(p).len() == if admitted(matchre, stream[from]) {
        1nat
    } else {
        0nat
    }) by {
        reveal(Seq::filter);
        assert(one.drop_last().len() == 0);
        assert(one.drop_last().filter(p).len() == 0);
    }
}

proof fn lemma_passing_none(stream: Seq<EntryView>, matchre: Option<Seq<char>>, at: int)
    requires
        0 <= at <= stream.len(),
    ensures
        passing(stream, matchre, at, at) == 0,
{
    reveal(Seq::filter);
    assert(stream.subrange(at, at).len() == 0);
}

/// From any state on, reading stops no later than the limit asks.
pub proof fn lemma_reading_stops(
    stream: Seq<EntryView>,
    matchre: Option<Seq<char>>,
    max_items: usize,
    root: Seq<Seq<char>>,
    absolute: bool,
    from: int,
    shown: int,
)
    requires
        0 <= from <= stream.len(),
        0 <= shown <= max_items,
    ensures
        ({
            let r = read_until(stream, matchre, max_items, root, absolute, from, shown);
            &&& from <= r <= stream.len()
            &&& shown + passing(stream, matchre, from, r) <= max_items
            &&& r > from ==> shown + passing(stream, matchre, from, r - 1) < max_items
            &&& r == stream.len() || shown + passing(stream, matchre, from, r) == max_items || (r
                > from && admitted(matchre, stream[r - 1]) && shown_as(
                stream[r - 1],
                root,
                absolute,
            ) is None)
        }),
    decreases stream.len() - from,
{
    let r = read_until(stream, matchre, max_items, root, absolute, from, shown);
    lemma_passing_none(stream, matchre, from);
    if from >= stream.len() || shown >= max_items {
    } else if !admitted(matchre, stream[from]) {
        lemma_reading_stops(stream, matchre, max_items, root, absolute, from + 1, shown);
        lemma_passing_first(stream, matchre, from, r);
        if r - 1 > from {
            lemma_passing_first(stream, matchre, from, r - 1);
        }
    } else if shown_as(stream[from], root, absolute) is None {
        lemma_passing_first(stream, matchre, from, from + 1);
        lemma_passing_none(stream, matchre, from + 1);
    } else {
        lemma_reading_stops(stream, matchre, max_items, root, absolute, from + 1, shown + 1);
        lemma_passing_first(stream, matchre, from, r);
        if r - 1 > from {
            lemma_passing_first(stream, matchre, from, r - 1);
        }
    }
}

/// Reading stops at the limit. Of the entries that a run reads no more
/// pass the match filter than the limit allows, and when the run read its
/// last entry the limit was not yet reached. The run stops short of the
/// end of the stream only where the limit is reached or the last entry
/// read cannot be shown.
pub proof fn law_reading_stops_at_limit(
    stream: Seq<EntryView>,
    matchre: Option<Seq<char>>,
    max_items: usize,
    root: Seq<Seq<char>>,
    absolute: bool,
)
    ensures
        ({
            let r = read_until(stream, matchre, max_items, root, absolute, 0, 0);
            &&& 0 <= r <= stream.len()
            &&& passing(stream, matchre, 0, r) <= max_items
            &&& r > 0 ==> passing(stream, matchre, 0, r - 1) < max_items
            &&& r == stream.len() || passing(stream, matchre, 0, r) == max_items || (r > 0
                && admitted(matchre, stream[r - 1]) && shown_as(stream[r - 1], root, absolute)
                is None)
        }),
{
    lemma_reading_stops(stream, matchre, max_items, root, absolute, 0, 0);
}

/// Whether `name` holds no slash, as the name of a file cannot.
pub open spec fn plain(name: Seq<char>) -> bool {
    forall|i: int| 0 <= i < name.len() ==> name[i] != '/'
}

/// Whether no name listed in the tree at `d` holds a slash.
pub open spec fn plain_names(d: Node) -> bool
    decreases d,
{
    forall|i: int|
        0 <= i < d.children@.len() ==> plain((#[trigger] d.children@[i]).name@) && plain_names(
            d.children@[i],
        )
}

/// Whether the names of `path` from the one at `from` on hold no slash.
pub open spec fn plain_from(path: Seq<Seq<char>>, from: int) -> bool {
    forall|k: int| from <= k < path.len() ==> plain(#[trigger] path[k])
}

/// In a tree whose names hold no slash, what the walk of `d`'s children
/// finds has no slash in a name below `d`.
pub proof fn lemma_walk_from_plain(
    d: Node,
    from: int,
    path: Seq<Seq<char>>,
    rules: Rules,
    e: EntryView,
)
    requires
        0 <= from,
        plain_names(d),
        walk_from(d, from, path, rules).emitted.contains(e),
    ensures
        plain_from(e.path, path.len() as int),
    decreases d, d.children@.len() - from,
{
    if from < d.children@.len() {
        let c = d.children@[from];
        let here = found_here(c, path, rules);
        let below = found_below(c, path, rules);
        let rest = walk_from(d, from + 1, path, rules);
        let w = walk_from(d, from, path, rules);
        assert(plain(c.name@) && plain_names(c));
        if goes_on(rules, below.failure) {
            assert(w.emitted == (here + below.emitted) + rest.emitted);
            lemma_contains_add(here + below.emitted, rest.emitted, e);
        } else {
            assert(w.emitted == here + below.emitted);
        }
        lemma_contains_add(here, below.emitted, e);
        if here.contains(e) {
            assert(e.path == path.push(c.name@));
            assert forall|k: int| path.len() <= k < e.path.len() implies plain(
                #[trigger] e.path[k],
            ) by {
                assert(e.path[k] == c.name@);
            }
        } else if below.emitted.contains(e) {
            assert(below == walk(c, path, rules));
            lemma_walk_found(c, path, rules, e);
            lemma_walk_from_plain(c, 0, path.push(c.name@), rules, e);
            assert forall|k: int| path.len() <= k < e.path.len() implies plain(
                #[trigger] e.path[k],
            ) by {
                if k == path.len() {
                    assert(e.path[k] == path.push(c.name@)[k]);
                }
            }
        } else {
            lemma_walk_from_plain(d, from + 1, path, rules, e);
        }
    }
}

/// Joining two runs of names joins what each gives with a slash.
pub proof fn lemma_joined_add(a: Seq<Seq<char>>, b: Seq<Seq<char>>)
    requires
        a.len() > 0,
        b.len() > 0,
    ensures
        joined(a + b) == joined(a) + seq!['/'] + joined(b),
    decreases b.len(),
{
    let ab = a + b;
    assert(ab.drop_last() == a + b.drop_last());
    assert(ab.last() == b.last());
    if b.len() == 1 {
        assert(a + b.drop_last() == a);
    } else {
        lemma_joined_add(a, b.drop_last());
        assert(joined(ab) == (joined(a) + seq!['/'] + joined(b.drop_last())) + seq!['/']
            + b.last());
        assert(joined(b) == joined(b.drop_last()) + seq!['/'] + b.last());
    }
}

/// Names without a slash are read off what joining them gives: two runs
/// of such names that join to the same text are the same run.
pub proof fn lemma_joined_tells_apart(a: Seq<Seq<char>>, b: Seq<Seq<char>>)
    requires
        a.len() > 0,
        b.len() > 0,
        plain_from(a, 0),
        plain_from(b, 0),
        joined(a) == joined(b),
    ensures
        a == b,
    decreases a.len(),
{
    let s = joined(a);
    if a.len() == 1 {
        assert(plain(a[0]));
        if b.len() > 1 {
            let x = joined(b.drop_last());
            assert(joined(b)[x.len() as int] == '/');
        }
        assert(a =~= b);
    } else if b.len() == 1 {
        assert(plain(b[0]));
        let x = joined(a.drop_last());
        assert(joined(a)[x.len() as int] == '/');
    } else {
        let x = joined(a.drop_last());
        let y = joined(b.drop_last());
        assert(plain(a.last()));
        assert(plain(b.last()));
        assert(s == x + seq!['/'] + a.last());
        assert(s == y + seq!['/'] + b.last());
        assert(s.len() == x.len() + 1 + a.last().len());
        assert(s.len() == y.len() + 1 + b.last().len());
        assert(s[x.len() as int] == '/');
        assert((y + seq!['/'] + b.last())[y.len() as int] == '/');
        assert(s[y.len() as int] == '/');
        if x.len() < y.len() {
            assert((x + seq!['/'] + a.last())[y.len() as int] == a.last()[y.len() - x.len() - 1]);
        } else if y.len() < x.len() {
            assert((y + seq!['/'] + b.last())[x.len() as int] == b.last()[x.len() - y.len() - 1]);
        }
        assert(x.len() == y.len());
        assert(x =~= y) by {
            assert forall|i: int| 0 <= i < x.len() implies x[i] == y[i] by {
                assert((x + seq!['/'] + a.last())[i] == x[i]);
                assert((y + seq!['/'] + b.last())[i] == y[i]);
            }
        }
        assert(a.last() =~= b.last()) by {
            assert(a.last().len() == b.last().len());
            assert forall|i: int| 0 <= i < a.last().len() implies a.last()[i] == b.last()[i] by {
                assert((x + seq!['/'] + a.last())[x.len() + 1 + i] == a.last()[i]);
                assert((y + seq!['/'] + b.last())[y.len() + 1 + i] == b.last()[i]);
            }
        }
        assert(plain_from(a.drop_last(), 0)) by {
            assert forall|k: int| 0 <= k < a.drop_last().len() implies plain(
                #[trigger] a.drop_last()[k],
            ) by {
                assert(a.drop_last()[k] == a[k]);
            }
        }
        assert(plain_from(b.drop_last(), 0)) by {
            assert forall|k: int| 0 <= k < b.drop_last().len() implies plain(
                #[trigger] b.drop_last()[k],
            ) by {
                assert(b.drop_last()[k] == b[k]);
            }
        }
        lemma_joined_tells_apart(a.drop_last(), b.drop_last());
        assert(a =~= a.drop_last().push(a.last()));
        assert(b =~= b.drop_last().push(b.last()));
    }
}

/// Two entries below one root whose names below it hold no slash, and
/// that are shown alike, have the same path.
pub proof fn lemma_shown_tells_apart(
    e: EntryView,
    f: EntryView,
    root: Seq<Seq<char>>,
    absolute: bool,
)
    requires
        root.len() > 0,
        starts_with(e.path, root),
        starts_with(f.path, root),
        e.path.len() > root.len(),
        f.path.len() > root.len(),
        plain_from(e.path, root.len() as int),
        plain_from(f.path, root.len() as int),
        shown_as(e, root, absolute) == shown_as(f, root, absolute),
    ensures
        e.path == f.path,
{
    let n = root.len() as int;
    let a = e.path.skip(n);
    let b = f.path.skip(n);
    assert(e.path =~= root + a);
    assert(f.path =~= root + b);
    assert(root.is_prefix_of(e.path)) by {
        assert(root =~= e.path.subrange(0, n));
    }
    assert(root.is_prefix_of(f.path)) by {
        assert(root =~= f.path.subrange(0, n));
    }
    if absolute {
        lemma_joined_add(root, a);
        lemma_joined_add(root, b);
        let head = seq!['/'] + (joined(root) + seq!['/']);
        let l = shown_as(e, root, absolute).unwrap();
        assert(l == head + joined(a));
        assert(l == head + joined(b));
        assert(joined(a) =~= l.skip(head.len() as int));
        assert(joined(b) =~= l.skip(head.len() as int));
    } else {
        let head = seq!['.', '/'];
        let l = shown_as(e, root, absolute).unwrap();
        assert(l == head + joined(a));
        assert(l == head + joined(b));
        assert(joined(a) =~= l.skip(2));
        assert(joined(b) =~= l.skip(2));
    }
    assert(plain_from(a, 0)) by {
        assert forall|k: int| 0 <= k < a.len() implies plain(#[trigger] a[k]) by {
            assert(a[k] == e.path[k + n]);
        }
    }
    assert(plain_from(b, 0)) by {
        assert forall|k: int| 0 <= k < b.len() implies plain(#[trigger] b[k]) by {
            assert(b[k] == f.path[k + n]);
        }
    }
    lemma_joined_tells_apart(a, b);
}

/// No line is written twice. Over a tree whose directories list no name
/// twice and whose names hold no slash, every entry chosen from a walk has
/// its line, and no two of the lines are alike.
pub proof fn law_lines_shown_once(
    root: Node,
    parent: Seq<Seq<char>>,
    rules: Rules,
    matchre: Option<Seq<char>>,
    max_items: usize,
    absolute: bool,
)
    requires
        distinct_names(root),
        plain_names(root),
    ensures
        lines_of(
            selected(walk(root, parent, rules).emitted, matchre, max_items),
            parent.push(root.name@),
            absolute,
        ).len() == selected(walk(root, parent, rules).emitted, matchre, max_items).len(),
        lines_of(
            selected(walk(root, parent, rules).emitted, matchre, max_items),
            parent.push(root.name@),
            absolute,
        ).no_duplicates(),
{
    let found = walk(root, parent, rules).emitted;
    let p = |e: EntryView| admitted(matchre, e);
    let kept = found.filter(p);
    let sel = selected(found, matchre, max_items);
    let at = parent.push(root.name@);
    let lines = lines_of(sel, at, absolute);
    lemma_walk_finds_once(root, parent, rules);
    lemma_filter_keeps(found, p);
    assert forall|i: int| 0 <= i < sel.len() implies found.contains(#[trigger] sel[i])
        && found_under(sel[i], at, rules) && plain_from(sel[i].path, at.len() as int) by {
        assert(sel[i] == kept[i]);
        assert(kept.contains(kept[i]));
        lemma_walk_found(root, parent, rules, sel[i]);
        lemma_walk_from_plain(root, 0, at, rules, sel[i]);
    }
    assert forall|i: int| 0 <= i < sel.len() implies (#[trigger] shown_as(sel[i], at, absolute))
        is Some by {
        assert(found_under(sel[i], at, rules));
        assert(at =~= sel[i].path.subrange(0, at.len() as int));
    }
    lemma_first_unshowable_at(sel, at, absolute, 0, sel.len() as int);
    assert forall|i: int, j: int| 0 <= i < lines.len() && 0 <= j < lines.len() && i
        != j implies lines[i] != lines[j] by {
        assert(sel[i] == kept[i] && sel[j] == kept[j]);
        assert(sel[i] != sel[j]);
        assert(found_under(sel[i], at, rules) && found_under(sel[j], at, rules));
        assert(shown_as(sel[i], at, absolute) is Some);
        assert(shown_as(sel[j], at, absolute) is Some);
        if lines[i] == lines[j] {
            lemma_shown_tells_apart(sel[i], sel[j], at, absolute);
        }
    }
}

} // verus!
