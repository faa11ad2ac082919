//! The walk: which entries of a directory tree are found, in which order,
//! and how a failed listing ends it.
//!
//! A walk in turn has one order, that of the listings. Where every
//! directory has a task of its own the tasks may run side by side, and what
//! they find may arrive in any order that keeps the order of each listing.
//! The walk stated here is the one among them in which each task is done
//! before the task that started it goes on; what is shown of a stream does
//! not depend on the order, as long as the limit is not reached.

use crate::entry::{child_path, entries, names, text_of, Entry, EntryView, FilesError, Node};
use crate::pattern::{is_match, name_matches, source_of, Pattern};
use vstd::prelude::*;

verus! {

/// What steers a walk.
pub struct Rules {
    /// The text of the ignore pattern, if one is set.
    pub ignore: Option<Seq<char>>,
    /// Whether directories are found in place of everything else.
    pub dirs_only: bool,
    /// Whether each directory is walked by a task of its own.
    pub is_async: bool,
}

/// The result of a walk: the entries found, in the order they were found,
/// and the description of the failure that the walk reports, if any.
pub struct Walked {
    pub emitted: Seq<EntryView>,
    pub failure: Option<Seq<char>>,
}

/// Whether a child with this name is itself found. A directory is found
/// exactly when directories are asked for, whatever its name; anything else
/// when they are not and its name is not ignored.
pub open spec fn child_emitted(
    ignore: Option<Seq<char>>,
    dirs_only: bool,
    name: Seq<char>,
    is_dir: bool,
) -> bool {
    if is_dir {
        dirs_only
    } else {
        !dirs_only && !name_matches(ignore, name)
    }
}

/// Where the walk of a child takes place.
#[derive(Debug, Clone, Copy, PartialEq, Eq, Structural)]
pub enum Descend {
    /// Nowhere: the child is no directory.
    No,
    /// Here and now, before the next sibling is looked at; a failure
    /// below ends the walk of the parent too.
    Here,
    /// In a task of its own, which keeps its failure to itself.
    InTask,
}

/// What a walk does with one child of a directory.
#[derive(Debug, Clone, Copy, PartialEq, Eq, Structural)]
pub struct Plan {
    /// Whether the child is itself found.
    pub emit: bool,
    /// Whether and where the child is walked.
    pub descend: Descend,
}

/// What a walk does with a child of this name and kind. Every directory
/// is walked; whether its name is ignored is asked when its walk begins.
pub open spec fn planned(rules: Rules, name: Seq<char>, is_dir: bool) -> Plan {
    Plan {
        emit: child_emitted(rules.ignore, rules.dirs_only, name, is_dir),
        descend: if !is_dir {
            Descend::No
        } else if rules.is_async {
            Descend::InTask
        } else {
            Descend::Here
        },
    }
}

/// Whether a walk goes on with the next sibling after a directory below
/// reported `failure`. A task of its own keeps its failure to itself;
/// without tasks the first failure ends the walk.
pub open spec fn goes_on(rules: Rules, failure: Option<Seq<char>>) -> bool {
    rules.is_async || failure is None
}

/// What the child `c` of the directory at `path` adds to a walk by itself:
/// its own entry, if it is found.
pub open spec fn found_here(c: Node, path: Seq<Seq<char>>, rules: Rules) -> Seq<EntryView> {
    if child_emitted(rules.ignore, rules.dirs_only, c.name@, c.is_dir) {
        seq![EntryView { path: path.push(c.name@), is_dir: c.is_dir }]
    } else {
        Seq::empty()
    }
}

/// The walk of the directory `d`, which lies in the directory at `parent`.
/// An ignored directory is left out whole, before it is listed.
pub open spec fn walk(d: Node, parent: Seq<Seq<char>>, rules: Rules) -> Walked
    decreases d, d.children@.len() + 1,
{
    if name_matches(rules.ignore, d.name@) {
        Walked { emitted: Seq::empty(), failure: None }
    } else {
        walk_from(d, 0, parent.push(d.name@), rules)
    }
}

/// The walk below the child `c` of the directory at `path`: the walk of `c`
/// where it is a directory, nothing otherwise.
pub open spec fn found_below(c: Node, path: Seq<Seq<char>>, rules: Rules) -> Walked
    decreases c, c.children@.len() + 2,
{
    if c.is_dir {
        walk(c, path, rules)
    } else {
        Walked { emitted: Seq::empty(), failure: None }
    }
}

/// The walk of the children of `d` from the one at `from` on, with `path`
/// the path of `d`. Each child is found or not by `child_emitted`; a child
/// directory is then walked before the next sibling is looked at. The
/// failure of `d`'s own listing is reported after its last child.
pub open spec fn walk_from(d: Node, from: int, path: Seq<Seq<char>>, rules: Rules) -> Walked
    decreases d, d.children@.len() - from,
{
    if from < 0 || from >= d.children@.len() {
        Walked { emitted: Seq::empty(), failure: text_of(d.failure) }
    } else {
        let c = d.children@[from];
        let here = found_here(c, path, rules);
        let below = found_below(c, path, rules);
        if goes_on(rules, below.failure) {
            let rest = walk_from(d, from + 1, path, rules);
            Walked { emitted: here + below.emitted + rest.emitted, failure: rest.failure }
        } else {
            Walked { emitted: here + below.emitted, failure: below.failure }
        }
    }
}

/// Decides whether a child is itself found.
pub fn emits(name: &str, child_is_dir: bool, ignore: &Option<Pattern>, is_dir: bool) -> (b: bool)
    ensures
        b == child_emitted(source_of(*ignore), is_dir, name@, child_is_dir),
{
    if child_is_dir {
        is_dir
    } else {
        !is_dir && !is_match(name, ignore)
    }
}

/// Decides what a walk does with one child of a directory.
pub fn plan_child(
    name: &str,
    child_is_dir: bool,
    ignore: &Option<Pattern>,
    is_dir: bool,
    is_async: bool,
) -> (p: Plan)
    ensures
        p == planned(
            Rules { ignore: source_of(*ignore), dirs_only: is_dir, is_async },
            name@,
            child_is_dir,
        ),
{
    Plan {
        emit: emits(name, child_is_dir, ignore, is_dir),
        descend: if !child_is_dir {
            Descend::No
        } else if is_async {
            Descend::InTask
        } else {
            Descend::Here
        },
    }
}

/// Walks the directory `entry`, which lies in the directory at `parent`, and
/// appends what is found to `tx`, in the order of the walk. With `is_async`
/// a failure below `entry` is dropped where it happens and the walk goes on;
/// without it the first failure ends the walk and is returned. The failure
/// of `entry`'s own listing is returned either way.
pub fn files_inner(
    entry: &Node,
    parent: &Vec<String>,
    tx: &mut Vec<Entry>,
    ignore: &Option<Pattern>,
    is_dir: bool,
    is_async: bool,
) -> (r: Result<(), FilesError>)
    ensures
        ({
            let rules = Rules { ignore: source_of(*ignore), dirs_only: is_dir, is_async };
            let w = walk(*entry, names(parent@), rules);
            &&& entries(final(tx)@) == entries(old(tx)@) + w.emitted
            &&& match r {
                Ok(_) => w.failure is None,
                Err(FilesError::IO(m)) => w.failure == Some(m@),
                Err(_) => false,
            }
        }),
    decreases entry,
{
    let ghost rules = Rules { ignore: source_of(*ignore), dirs_only: is_dir, is_async };
    let ghost before = entries(tx@);
    if is_match(entry.name.as_str(), ignore) {
        assert(entries(tx@) == before + Seq::<EntryView>::empty());
        return Ok(());
    }
    let path = child_path(parent, &entry.name);
    let ghost whole = walk(*entry, names(parent@), rules);
    let mut i: usize = 0;
    assert(before + whole.emitted == entries(tx@) + whole.emitted);
    while i < entry.children.len()
        invariant
            i <= entry.children@.len(),
            rules == (Rules { ignore: source_of(*ignore), dirs_only: is_dir, is_async }),
            whole == walk(*entry, names(parent@), rules),
            before == entries(old(tx)@),
            before + whole.emitted == entries(tx@) + walk_from(
                *entry,
                i as int,
                names(path@),
                rules,
            ).emitted,
            whole.failure == walk_from(*entry, i as int, names(path@), rules).failure,
        decreases entry.children@.len() - i,
    {
        let child = &entry.children[i];
        let ghost so_far = entries(tx@);
        let ghost here = found_here(*child, names(path@), rules);
        let ghost under = found_below(*child, names(path@), rules);
        assert(under == if child.is_dir {
            walk(*child, names(path@), rules)
        } else {
            Walked { emitted: Seq::empty(), failure: None }
        });
        let plan = plan_child(child.name.as_str(), child.is_dir, ignore, is_dir, is_async);
        if plan.emit {
            let found = Entry { path: child_path(&path, &child.name), is_dir: child.is_dir };
            let ghost held = tx@;
            tx.push(found);
            assert(entries(tx@) == entries(held).push(found@));
        }
        assert(entries(tx@) == so_far + here);
        match plan.descend {
            Descend::No => {
                assert(entries(tx@) == so_far + (here + Seq::<EntryView>::empty()));
            },
            Descend::Here => {
                let below = files_inner(child, &path, tx, ignore, is_dir, is_async);
                assert(entries(tx@) == so_far + (here + under.emitted));
                if let Err(e) = below {
                    assert(entries(tx@) == before + whole.emitted);
                    return Err(e);
                }
            },
            Descend::InTask => {
                let _ = files_inner(child, &path, tx, ignore, is_dir, is_async);
                assert(entries(tx@) == so_far + (here + under.emitted));
            },
        }
        proof {
            let next = walk_from(*entry, i + 1, names(path@), rules);
            let now = walk_from(*entry, i as int, names(path@), rules);
            assert(entries(tx@) + next.emitted == so_far + now.emitted);
        }
        i += 1;
    }
    match &entry.failure {
        Some(m) => Err(FilesError::IO(m.clone())),
        None => Ok(()),
    }
}

} // verus!
