//! The settings of a run, how they are resolved, and the consumer's side:
//! the match filter, the limit and the rendering of what is shown.

use crate::entry::{child_path, entries, names, text_of, Entry, EntryView, FilesError, Node};
use crate::laws::{law_ignored_left_out, lemma_filter_keeps};
use crate::pattern::{pattern_error, regex_matches, source_of, Pattern};
use crate::text::{decimal, parse_decimal};
use crate::walk::{files_inner, walk, Rules};
use vstd::prelude::*;
use vstd::string::*;

verus! {

/// The ignore pattern that is used where neither the command line nor the
/// environment names one: the directories of the common version control systems.
pub const DEFAULT_IGNORE: &'static str = "^(\\.git|\\.hg|\\.svn|_darcs|\\.bzr)$";

/// What the command line and the environment say, before anything is resolved.
#[derive(Debug)]
pub struct CliArgs {
    /// The match pattern given on the command line.
    pub matches: Option<String>,
    /// The ignore pattern given on the command line.
    pub ignore: Option<String>,
    /// The ignore pattern found in the environment.
    pub env_ignore: Option<String>,
    /// The limit given on the command line, as it was typed.
    pub max_items: Option<String>,
    pub directory: bool,
    pub absolute: bool,
    pub is_async: bool,
}

/// The resolved settings of a run.
#[derive(Debug)]
pub struct Cli {
    pub matchre: Option<Pattern>,
    pub ignore: Option<Pattern>,
    pub is_async: bool,
    pub is_directory: bool,
    pub is_absolute: bool,
    pub max_items: usize,
}

/// What a `Cli` stands for.
pub struct Settings {
    pub matchre: Option<Seq<char>>,
    pub ignore: Option<Seq<char>>,
    pub is_async: bool,
    pub is_directory: bool,
    pub is_absolute: bool,
    pub max_items: usize,
}

impl View for Cli {
    type V = Settings;

    open spec fn view(&self) -> Settings {
        Settings {
            matchre: source_of(self.matchre),
            ignore: source_of(self.ignore),
            is_async: self.is_async,
            is_directory: self.is_directory,
            is_absolute: self.is_absolute,
            max_items: self.max_items,
        }
    }
}

impl Settings {
    /// The part of the settings that steers the walk.
    pub open spec fn rules(self) -> Rules {
        Rules { ignore: self.ignore, dirs_only: self.is_directory, is_async: self.is_async }
    }
}

/// The text of the ignore pattern: the command line's, else the
/// environment's, else the default.
pub open spec fn resolved_ignore(flag: Option<Seq<char>>, env: Option<Seq<char>>) -> Seq<char> {
    match flag {
        Some(f) => f,
        None => match env {
            Some(e) => e,
            None => DEFAULT_IGNORE@,
        },
    }
}

/// The limit: the number typed, or no limit where none was typed or what
/// was typed is no number.
pub open spec fn limit_of(typed: Option<Seq<char>>) -> usize {
    match typed {
        Some(s) => match decimal(s) {
            Some(n) => n,
            None => usize::MAX,
        },
        None => usize::MAX,
    }
}

/// The settings that `args` resolve to. An empty ignore pattern switches
/// ignoring off.
pub open spec fn settings_of(args: CliArgs) -> Settings {
    let ignore = resolved_ignore(text_of(args.ignore), text_of(args.env_ignore));
    Settings {
        matchre: text_of(args.matches),
        ignore: if ignore.len() == 0 {
            None
        } else {
            Some(ignore)
        },
        is_async: args.is_async,
        is_directory: args.directory,
        is_absolute: args.absolute,
        max_items: limit_of(text_of(args.max_items)),
    }
}

/// What stands against the settings `s`: the message of the first pattern
/// that does not compile, the match pattern before the ignore pattern, or
/// nothing where both compile or are not set.
pub open spec fn settings_error(s: Settings) -> Option<Seq<char>> {
    let first = match s.matchre {
        Some(m) => pattern_error(m),
        None => None,
    };
    if first is Some {
        first
    } else {
        match s.ignore {
            Some(i) => pattern_error(i),
            None => None,
        }
    }
}

/// Picks the text of the ignore pattern.
pub fn resolve_ignore<'a>(flag: &'a Option<String>, env: &'a Option<String>) -> (r: &'a str)
    ensures
        r@ == resolved_ignore(text_of(*flag), text_of(*env)),
{
    match flag {
        Some(f) => f.as_str(),
        None => match env {
            Some(e) => e.as_str(),
            None => DEFAULT_IGNORE,
        },
    }
}

/// Reads the limit.
pub fn resolve_limit(typed: &Option<String>) -> (n: usize)
    ensures
        n == limit_of(text_of(*typed)),
{
    match typed {
        Some(s) => match parse_decimal(s.as_str()) {
            Some(n) => n,
            None => usize::MAX,
        },
        None => usize::MAX,
    }
}

/// Turns the outcome of a compilation into a pattern or this library's error.
pub fn compiled(outcome: Result<Pattern, String>) -> (r: Result<Pattern, FilesError>)
    ensures
        match outcome {
            Ok(p) => r == Ok::<Pattern, FilesError>(p),
            Err(e) => r == Err::<Pattern, FilesError>(FilesError::Regex(e)),
        },
{
    match outcome {
        Ok(p) => Ok(p),
        Err(e) => Err(FilesError::Regex(e)),
    }
}

/// Whether the match filter lets an entry through: always without a match
/// pattern, else when the base name matches it.
pub open spec fn admitted(matchre: Option<Seq<char>>, e: EntryView) -> bool {
    match matchre {
        Some(p) => e.path.len() > 0 && regex_matches(p, e.path.last()),
        None => true,
    }
}

/// What is shown of a stream: the admitted entries, in the order of their
/// arrival, and no more of them than the limit.
pub open spec fn selected(stream: Seq<EntryView>, matchre: Option<Seq<char>>, max_items: usize) -> Seq<
    EntryView,
> {
    let kept = stream.filter(|e: EntryView| admitted(matchre, e));
    if kept.len() <= max_items {
        kept
    } else {
        kept.take(max_items as int)
    }
}

/// The names of a path with a slash between each two.
pub open spec fn joined(parts: Seq<Seq<char>>) -> Seq<char>
    decreases parts.len(),
{
    if parts.len() == 0 {
        Seq::empty()
    } else if parts.len() == 1 {
        parts[0]
    } else {
        joined(parts.drop_last()) + seq!['/'] + parts.last()
    }
}

/// How an entry is shown: in full behind a slash, or behind `./` as the
/// rest of its path under `root`. `None` where it is to be shown under
/// `root` and does not lie there.
pub open spec fn shown_as(e: EntryView, root: Seq<Seq<char>>, absolute: bool) -> Option<Seq<char>> {
    if absolute {
        Some(seq!['/'] + joined(e.path))
    } else if root.is_prefix_of(e.path) {
        Some(seq!['.', '/'] + joined(e.path.skip(root.len() as int)))
    } else {
        None
    }
}

/// The first position at or after `from` whose entry cannot be shown; the
/// length of `sel` if every entry from there on can.
pub open spec fn first_unshowable(
    sel: Seq<EntryView>,
    root: Seq<Seq<char>>,
    absolute: bool,
    from: int,
) -> int
    decreases sel.len() - from,
{
    if 0 <= from < sel.len() && shown_as(sel[from], root, absolute) is Some {
        first_unshowable(sel, root, absolute, from + 1)
    } else {
        from
    }
}

/// The lines that are written for `sel`: one for each entry before the
/// first that cannot be shown.
pub open spec fn lines_of(sel: Seq<EntryView>, root: Seq<Seq<char>>, absolute: bool) -> Seq<
    Seq<char>,
> {
    Seq::new(
        first_unshowable(sel, root, absolute, 0) as nat,
        |i: int| shown_as(sel[i], root, absolute).unwrap(),
    )
}

/// Whether every entry of `sel` can be shown.
pub open spec fn all_showable(sel: Seq<EntryView>, root: Seq<Seq<char>>, absolute: bool) -> bool {
    first_unshowable(sel, root, absolute, 0) >= sel.len()
}

/// How many entries of `stream` a run has read when it stops, counted
/// from the state in which it has read `from` of them and shown `shown`.
/// Nothing is read once the limit is reached, nor after the entry that
/// cannot be shown; short of either the stream is read to its end.
pub open spec fn read_until(
    stream: Seq<EntryView>,
    matchre: Option<Seq<char>>,
    max_items: usize,
    root: Seq<Seq<char>>,
    absolute: bool,
    from: int,
    shown: int,
) -> int
    decreases stream.len() - from,
{
    if from < 0 || from >= stream.len() || shown >= max_items {
        from
    } else if !admitted(matchre, stream[from]) {
        read_until(stream, matchre, max_items, root, absolute, from + 1, shown)
    } else if shown_as(stream[from], root, absolute) is None {
        from + 1
    } else {
        read_until(stream, matchre, max_items, root, absolute, from + 1, shown + 1)
    }
}

/// What a run hands back: the lines written, how many entries of the
/// stream were read for them, and how the run ended.
#[derive(Debug)]
pub struct Output {
    pub lines: Vec<String>,
    pub read: usize,
    pub result: Result<(), FilesError>,
}

/// Whether `out` is what a run with the settings `s` yields over the tree
/// at `root`, which lies in the directory at `parent`. Every entry chosen
/// from the walk has its line. The failure that ended a walk in turn is
/// reported where the consumer read the stream to its end, which it does
/// when fewer entries were chosen than the limit allows; once the limit is
/// reached it reads no further and learns of no failure.
pub open spec fn shows(s: Settings, root: Node, parent: Seq<Seq<char>>, out: Output) -> bool {
    let w = walk(root, parent, s.rules());
    let sel = selected(w.emitted, s.matchre, s.max_items);
    &&& names(out.lines@) == lines_of(sel, parent.push(root.name@), s.is_absolute)
    &&& out.lines@.len() == sel.len()
    &&& out.read == read_until(
        w.emitted,
        s.matchre,
        s.max_items,
        parent.push(root.name@),
        s.is_absolute,
        0,
        0,
    )
    &&& match out.result {
        Ok(_) => s.is_async || sel.len() >= s.max_items || w.failure is None,
        Err(FilesError::IO(m)) => !s.is_async && sel.len() < s.max_items && w.failure == Some(m@),
        Err(_) => false,
    }
}

/// Where every entry before `k` can be shown and the one at `k` cannot,
/// or `k` is the end, `k` is the first that cannot be shown.
pub proof fn lemma_first_unshowable_at(
    sel: Seq<EntryView>,
    root: Seq<Seq<char>>,
    absolute: bool,
    from: int,
    k: int,
)
    requires
        0 <= from <= k <= sel.len(),
        forall|j: int| from <= j < k ==> (#[trigger] shown_as(sel[j], root, absolute)) is Some,
        k < sel.len() ==> shown_as(sel[k], root, absolute) is None,
    ensures
        first_unshowable(sel, root, absolute, from) == k,
    decreases k - from,
{
    if from < k {
        assert(shown_as(sel[from], root, absolute) is Some);
        lemma_first_unshowable_at(sel, root, absolute, from + 1, k);
    }
}

proof fn lemma_filter_step(s: Seq<EntryView>, p: spec_fn(EntryView) -> bool, i: int)
    requires
        0 <= i < s.len(),
    ensures
        s.take(i + 1).filter(p) == if p(s[i]) {
            s.take(i).filter(p).push(s[i])
        } else {
            s.take(i).filter(p)
        },
{
    reveal(Seq::filter);
    assert(s.take(i + 1).drop_last() == s.take(i));
    assert(s.take(i + 1).last() == s[i]);
}

proof fn lemma_filter_whole(s: Seq<EntryView>, p: spec_fn(EntryView) -> bool, i: int)
    requires
        0 <= i <= s.len(),
    ensures
        s.filter(p) == s.take(i).filter(p) + s.skip(i).filter(p),
{
    assert(s == s.take(i) + s.skip(i));
    Seq::filter_distributes_over_add(s.take(i), s.skip(i), p);
}

fn join(parts: &Vec<String>, from: usize, out: &mut String)
    requires
        from <= parts@.len(),
    ensures
        final(out)@ == old(out)@ + joined(names(parts@).skip(from as int)),
{
    let ghost start = out@;
    let ghost all = names(parts@).skip(from as int);
    let mut i: usize = from;
    assert(joined(all.take(0)) == Seq::<char>::empty());
    assert(out@ == start + Seq::<char>::empty());
    while i < parts.len()
        invariant
            from <= i <= parts@.len(),
            all == names(parts@).skip(from as int),
            out@ == start + joined(all.take(i - from)),
        decreases parts@.len() - i,
    {
        let ghost prev = all.take(i - from);
        let ghost next = all.take(i - from + 1);
        assert(next.drop_last() == prev);
        assert(next.last() == parts@[i as int]@);
        if i > from {
            proof {
                reveal_strlit("/");
                assert("/"@ == seq!['/']);
            }
            out.append("/");
            assert(out@ == start + (joined(prev) + seq!['/']));
        }
        out.append(parts[i].as_str());
        assert(out@ == start + joined(next));
        i += 1;
    }
    assert(all.take(all.len() as int) == all);
}

fn lies_under(path: &Vec<String>, root: &Vec<String>) -> (b: bool)
    ensures
        b == names(root@).is_prefix_of(names(path@)),
{
    if root.len() > path.len() {
        return false;
    }
    let mut i: usize = 0;
    while i < root.len()
        invariant
            i <= root@.len() <= path@.len(),
            names(root@).take(i as int) == names(path@).take(i as int),
        decreases root@.len() - i,
    {
        if !(path[i] == root[i]) {
            assert(names(root@)[i as int] != names(path@)[i as int]);
            assert(names(path@).subrange(0, root@.len() as int)[i as int] == names(path@)[i as int]);
            return false;
        }
        assert(names(root@).take(i + 1) == names(root@).take(i as int).push(root@[i as int]@));
        assert(names(path@).take(i + 1) == names(path@).take(i as int).push(path@[i as int]@));
        i += 1;
    }
    assert(names(root@).take(root@.len() as int) == names(root@));
    true
}

impl Cli {
    /// Resolves the settings. The match pattern is compiled first, then the
    /// ignore pattern unless its text is empty. It fails exactly when one
    /// of the two does not compile, with the message of the first that
    /// does not.
    pub fn new(args: &CliArgs) -> (r: Result<Cli, FilesError>)
        ensures
            match r {
                Ok(cli) => settings_error(settings_of(*args)) is None && cli@ == settings_of(
                    *args,
                ),
                Err(FilesError::Regex(m)) => settings_error(settings_of(*args)) == Some(m@),
                Err(_) => false,
            },
    {
        let matchre = match &args.matches {
            Some(s) => match compiled(Pattern::new(s.as_str())) {
                Ok(p) => Some(p),
                Err(e) => {
                    return Err(e);
                },
            },
            None => None,
        };
        let source = resolve_ignore(&args.ignore, &args.env_ignore);
        let ignore = if source.unicode_len() != 0 {
            match compiled(Pattern::new(source)) {
                Ok(p) => Some(p),
                Err(e) => {
                    return Err(e);
                },
            }
        } else {
            None
        };
        Ok(
            Cli {
                matchre,
                ignore,
                is_async: args.is_async,
                is_directory: args.directory,
                is_absolute: args.absolute,
                max_items: resolve_limit(&args.max_items),
            },
        )
    }

    /// Whether another entry is wanted after `shown` lines.
    pub fn wants_more(&self, shown: usize) -> (b: bool)
        ensures
            b == (shown < self.max_items),
    {
        shown < self.max_items
    }

    /// The match filter.
    pub fn admits(&self, entry: &Entry) -> (b: bool)
        ensures
            b == admitted(self@.matchre, entry@),
    {
        match &self.matchre {
            Some(p) => match entry.file_name() {
                Some(name) => {
                    assert(entry@.path.last() == name@);
                    p.accepts(name.as_str())
                },
                None => false,
            },
            None => true,
        }
    }

    /// Renders one entry against `root`.
    pub fn render(&self, entry: &Entry, root: &Vec<String>) -> (r: Result<String, FilesError>)
        ensures
            match r {
                Ok(line) => shown_as(entry@, names(root@), self.is_absolute) == Some(line@),
                Err(e) => e is StripPrefix && shown_as(entry@, names(root@), self.is_absolute)
                    is None,
            },
    {
        if self.is_absolute {
            let mut line = String::new();
            proof {
                reveal_strlit("/");
                assert("/"@ == seq!['/']);
            }
            line.append("/");
            assert(names(entry.path@).skip(0) == names(entry.path@));
            join(&entry.path, 0, &mut line);
            Ok(line)
        } else if lies_under(&entry.path, root) {
            let mut line = String::new();
            proof {
                reveal_strlit("./");
                assert("./"@ == seq!['.', '/']);
            }
            line.append("./");
            join(&entry.path, root.len(), &mut line);
            Ok(line)
        } else {
            Err(FilesError::StripPrefix)
        }
    }

    /// What the consumer does with one entry of the stream: nothing where
    /// the match filter holds it back, else its line, or the failure to
    /// render it.
    pub fn step(&self, entry: &Entry, root: &Vec<String>) -> (r: Result<Option<String>, FilesError>)
        ensures
            match r {
                Ok(None) => !admitted(self@.matchre, entry@),
                Ok(Some(line)) => admitted(self@.matchre, entry@) && shown_as(
                    entry@,
                    names(root@),
                    self.is_absolute,
                ) == Some(line@),
                Err(e) => e is StripPrefix && admitted(self@.matchre, entry@) && shown_as(
                    entry@,
                    names(root@),
                    self.is_absolute,
                ) is None,
            },
    {
        if self.admits(entry) {
            match self.render(entry, root) {
                Ok(line) => Ok(Some(line)),
                Err(e) => Err(e),
            }
        } else {
            Ok(None)
        }
    }

    /// Walks the tree at `root`, which lies in the directory at `parent`,
    /// and hands back what was found, in the order of the walk, with the
    /// failure that ended it. Where every directory has a task of its own
    /// no failure ends the walk.
    pub fn files(&self, root: &Node, parent: &Vec<String>) -> (r: (Vec<Entry>, Result<(), FilesError>))
        ensures
            entries(r.0@) == walk(*root, names(parent@), self@.rules()).emitted,
            match r.1 {
                Ok(_) => self.is_async || walk(*root, names(parent@), self@.rules()).failure
                    is None,
                Err(FilesError::IO(m)) => !self.is_async && walk(
                    *root,
                    names(parent@),
                    self@.rules(),
                ).failure == Some(m@),
                Err(_) => false,
            },
    {
        let mut found: Vec<Entry> = Vec::new();
        let walked = files_inner(
            root,
            parent,
            &mut found,
            &self.ignore,
            self.is_directory,
            self.is_async,
        );
        assert(entries(Seq::<Entry>::empty()) + walk(
            *root,
            names(parent@),
            self@.rules(),
        ).emitted == walk(*root, names(parent@), self@.rules()).emitted);
        if self.is_async {
            (found, Ok(()))
        } else {
            (found, walked)
        }
    }

    /// Filters `stream` by the match pattern, stops at the limit, and
    /// renders what is left against `root`. The first entry that cannot be
    /// rendered ends the run with an error; the lines before it stay.
    pub fn run(&self, root: &Vec<String>, stream: &Vec<Entry>) -> (out: Output)
        ensures
            ({
                let sel = selected(entries(stream@), self@.matchre, self.max_items);
                &&& out.lines@.len() <= self.max_items
                &&& names(out.lines@) == lines_of(sel, names(root@), self.is_absolute)
                &&& out.read == read_until(
                    entries(stream@),
                    self@.matchre,
                    self.max_items,
                    names(root@),
                    self.is_absolute,
                    0,
                    0,
                )
                &&& match out.result {
                    Ok(_) => all_showable(sel, names(root@), self.is_absolute),
                    Err(e) => e is StripPrefix && !all_showable(
                        sel,
                        names(root@),
                        self.is_absolute,
                    ),
                }
            }),
    {
        let ghost all = entries(stream@);
        let ghost p = |e: EntryView| admitted(self@.matchre, e);
        let ghost r = names(root@);
        let mut lines: Vec<String> = Vec::new();
        let mut i: usize = 0;
        proof {
            reveal(Seq::filter);
            assert(all.take(0).filter(p) == Seq::<EntryView>::empty());
        }
        while i < stream.len() && self.wants_more(lines.len())
            invariant
                i <= stream@.len(),
                all == entries(stream@),
                p == (|e: EntryView| admitted(self@.matchre, e)),
                r == names(root@),
                all.take(i as int).filter(p).len() == lines@.len(),
                lines@.len() <= self.max_items,
                read_until(
                    all,
                    self@.matchre,
                    self.max_items,
                    r,
                    self.is_absolute,
                    i as int,
                    lines@.len() as int,
                ) == read_until(all, self@.matchre, self.max_items, r, self.is_absolute, 0, 0),
                forall|j: int|
                    0 <= j < lines@.len() ==> #[trigger] shown_as(
                        all.take(i as int).filter(p)[j],
                        r,
                        self.is_absolute,
                    ) == Some(lines@[j]@),
            decreases stream@.len() - i,
        {
            let entry = &stream[i];
            let ghost kept = all.take(i as int).filter(p);
            proof {
                lemma_filter_step(all, p, i as int);
                lemma_filter_whole(all, p, i + 1);
            }
            match self.step(entry, root) {
                Ok(None) => {},
                Ok(Some(line)) => {
                    lines.push(line);
                },
                Err(e) => {
                    proof {
                        let sel = selected(all, self@.matchre, self.max_items);
                        let k = kept.len() as int;
                        assert(sel.len() > k);
                        assert(sel[k] == entry@);
                        assert forall|j: int| 0 <= j < k implies (#[trigger] shown_as(
                            sel[j],
                            r,
                            self.is_absolute,
                        )) is Some by {
                            assert(sel[j] == kept[j]);
                        }
                        lemma_first_unshowable_at(sel, r, self.is_absolute, 0, k);
                        assert forall|j: int| 0 <= j < k implies names(lines@)[j] == lines_of(
                            sel,
                            r,
                            self.is_absolute,
                        )[j] by {
                            assert(sel[j] == kept[j]);
                        }
                        assert(names(lines@) == lines_of(sel, r, self.is_absolute));
                    }
                    return Output { lines, read: i + 1, result: Err(e) };
                },
            }
            i += 1;
        }
        proof {
            let sel = selected(all, self@.matchre, self.max_items);
            let kept = all.take(i as int).filter(p);
            lemma_filter_whole(all, p, i as int);
            if i == stream@.len() {
                assert(all.skip(i as int).filter(p).len() == 0) by {
                    reveal(Seq::filter);
                }
                assert(all.filter(p) == kept);
            }
            assert(sel == kept);
            lemma_first_unshowable_at(sel, r, self.is_absolute, 0, sel.len() as int);
            assert(names(lines@) == lines_of(sel, r, self.is_absolute));
        }
        Output { lines, read: i, result: Ok(()) }
    }

    /// The whole run over the tree at `root`, which lies in the directory
    /// at `parent`: the walk, the match filter and the limit, and a line
    /// for each entry chosen. What a walk finds lies under its root, so
    /// every chosen entry can be rendered.
    pub fn show(&self, root: &Node, parent: &Vec<String>) -> (out: Output)
        ensures
            shows(self@, *root, names(parent@), out),
    {
        let (found, walked) = self.files(root, parent);
        let at = child_path(parent, &root.name);
        let Output { lines, read, result } = self.run(&at, &found);
        proof {
            let w = walk(*root, names(parent@), self@.rules());
            let sel = selected(w.emitted, self@.matchre, self.max_items);
            let kept = w.emitted.filter(|e: EntryView| admitted(self@.matchre, e));
            lemma_filter_keeps(w.emitted, |e: EntryView| admitted(self@.matchre, e));
            assert forall|j: int| 0 <= j < sel.len() implies (#[trigger] shown_as(
                sel[j],
                names(at@),
                self.is_absolute,
            )) is Some by {
                assert(sel[j] == kept[j]);
                assert(kept.contains(kept[j]));
                law_ignored_left_out(*root, names(parent@), self@.rules(), sel[j]);
                assert(names(at@) =~= sel[j].path.subrange(0, names(at@).len() as int));
            }
            lemma_first_unshowable_at(sel, names(at@), self.is_absolute, 0, sel.len() as int);
            assert(names(lines@).len() == lines@.len());
            assert(lines_of(sel, names(at@), self.is_absolute).len() == sel.len());
            assert(all_showable(sel, names(at@), self.is_absolute));
            assert(result is Ok);
        }
        match result {
            Ok(_) => {
                if lines.len() < self.max_items {
                    Output { lines, read, result: walked }
                } else {
                    Output { lines, read, result: Ok(()) }
                }
            },
            Err(e) => Output { lines, read, result: Err(e) },
        }
    }
}

/// Resolves the settings and runs. A pattern that does not compile ends
/// the run with its message before anything is read or written, and
/// nothing else ends it so. Otherwise the run is that of `show` with the
/// settings that `args` resolve to.
pub fn _main(args: &CliArgs, root: &Node, parent: &Vec<String>) -> (out: Output)
    ensures
        match settings_error(settings_of(*args)) {
            Some(message) => {
                &&& out.lines@.len() == 0
                &&& out.read == 0
                &&& out.result matches Err(FilesError::Regex(m))
                &&& m@ == message
            },
            None => shows(settings_of(*args), *root, names(parent@), out),
        },
{
    match Cli::new(args) {
        Ok(cli) => cli.show(root, parent),
        Err(e) => Output { lines: Vec::new(), read: 0, result: Err(e) },
    }
}

} // verus!
