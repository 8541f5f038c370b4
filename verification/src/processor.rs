//! Decisions of a run over a file or a directory: which entries are
//! processed, where the outputs of a recursive walk go, which outputs collide,
//! and how the run is summed up.
use vstd::prelude::*;

use crate::error::MigrateError;
use crate::file_processor::{
    is_supported_js, output_path, output_path_for, supported_js_path, ts_file_name,
};
use crate::paths::{
    component_views, components, file_stem, is_plain_name, lemma_components_push_name,
    lemma_normal_components_plain, path_components, push_name, push_name_exec, Component,
    PathComponent,
};
use crate::text::{decimal, decimal_text};

verus! {

/// Whether a directory entry is a JavaScript source: the same extension test
/// as for a single input file.
pub fn is_js(path: &str) -> (r: bool)
    ensures
        r == supported_js_path(path@),
{
    is_supported_js(path)
}

/// How a run treats its input.
#[derive(Debug, Clone, Copy, PartialEq, Eq, Structural)]
pub enum InputKind {
    /// The input is one file, processed on its own.
    SingleFile,
    /// The input is a directory whose JavaScript files are processed.
    Directory,
}

/// Decides how a run treats an input that is a file (`is_file`) or a
/// directory (`is_dir`); anything else is refused.
pub fn check_input_kind(is_file: bool, is_dir: bool) -> (r: Result<InputKind, MigrateError>)
    ensures
        is_file ==> r == Ok::<InputKind, MigrateError>(InputKind::SingleFile),
        !is_file && is_dir ==> r == Ok::<InputKind, MigrateError>(InputKind::Directory),
        !is_file && !is_dir ==> r == Err::<InputKind, MigrateError>(
            MigrateError::NotFileOrDirectory,
        ),
{
    if is_file {
        Ok(InputKind::SingleFile)
    } else if is_dir {
        Ok(InputKind::Directory)
    } else {
        Err(MigrateError::NotFileOrDirectory)
    }
}

/// The counts of a directory run.
pub struct RunTally {
    pub success_count: usize,
    pub failure_count: usize,
}

/// The summary line of a directory run.
pub open spec fn summary_text(success: nat, failure: nat) -> Seq<char> {
    "summary: "@ + decimal(success) + " succeeded, "@ + decimal(failure) + " failed"@
}

impl RunTally {
    /// A run that has processed nothing yet.
    pub fn new() -> (t: RunTally)
        ensures
            t.success_count == 0,
            t.failure_count == 0,
    {
        RunTally { success_count: 0, failure_count: 0 }
    }

    /// Counts one processed file, as a success or as a failure.
    pub fn record(&mut self, succeeded: bool)
        requires
            succeeded ==> old(self).success_count < usize::MAX,
            !succeeded ==> old(self).failure_count < usize::MAX,
        ensures
            succeeded ==> final(self).success_count == old(self).success_count + 1
                && final(self).failure_count == old(self).failure_count,
            !succeeded ==> final(self).failure_count == old(self).failure_count + 1
                && final(self).success_count == old(self).success_count,
    {
        if succeeded {
            self.success_count = self.success_count + 1;
        } else {
            self.failure_count = self.failure_count + 1;
        }
    }

    /// `summary: <n> succeeded, <n> failed`.
    pub fn summary_line(&self) -> (r: String)
        ensures
            r@ == summary_text(self.success_count as nat, self.failure_count as nat),
    {
        let mut r = "summary: ".to_owned();
        let s = decimal_text(self.success_count);
        r.append(s.as_str());
        r.append(" succeeded, ");
        let f = decimal_text(self.failure_count);
        r.append(f.as_str());
        r.append(" failed");
        r
    }

    /// The result of the run: it fails, with the number of failed files,
    /// exactly when some file failed.
    pub fn outcome(&self) -> (r: Result<(), MigrateError>)
        ensures
            self.failure_count == 0 ==> r is Ok,
            self.failure_count > 0 ==> r == Err::<(), MigrateError>(
                MigrateError::FilesFailed(self.failure_count),
            ),
    {
        if self.failure_count > 0 {
            Err(MigrateError::FilesFailed(self.failure_count))
        } else {
            Ok(())
        }
    }
}

/// The number of successes among the outcomes of a run's files.
pub open spec fn success_count_of(outcomes: Seq<bool>) -> nat
    decreases outcomes.len(),
{
    if outcomes.len() == 0 {
        0
    } else {
        success_count_of(outcomes.drop_last()) + if outcomes.last() {
            1nat
        } else {
            0nat
        }
    }
}

proof fn lemma_success_count_bound(outcomes: Seq<bool>)
    ensures
        success_count_of(outcomes) <= outcomes.len(),
    decreases outcomes.len(),
{
    if outcomes.len() > 0 {
        lemma_success_count_bound(outcomes.drop_last());
    }
}

/// Each outcome is counted on its own: appending a success adds one to the
/// successes, appending a failure adds none, whatever came before.
pub proof fn lemma_success_count_push(outcomes: Seq<bool>, b: bool)
    ensures
        success_count_of(outcomes.push(b)) == success_count_of(outcomes) + if b {
            1int
        } else {
            0int
        },
{
    assert(outcomes.push(b).drop_last() =~= outcomes);
}

/// The successes are the `true` outcomes and the failures the `false` ones.
pub proof fn lemma_success_count_is_true_count(outcomes: Seq<bool>)
    ensures
        success_count_of(outcomes) == outcomes.filter(|b: bool| b).len(),
        outcomes.len() - success_count_of(outcomes) == outcomes.filter(|b: bool| !b).len(),
    decreases outcomes.len(),
{
    reveal(Seq::filter);
    let yes = |b: bool| b;
    let no = |b: bool| !b;
    if outcomes.len() > 0 {
        lemma_success_count_is_true_count(outcomes.drop_last());
        lemma_success_count_bound(outcomes.drop_last());
        assert(outcomes.filter(yes) == if yes(outcomes.last()) {
            outcomes.drop_last().filter(yes).push(outcomes.last())
        } else {
            outcomes.drop_last().filter(yes)
        });
        assert(outcomes.filter(no) == if no(outcomes.last()) {
            outcomes.drop_last().filter(no).push(outcomes.last())
        } else {
            outcomes.drop_last().filter(no)
        });
    } else {
        assert(outcomes.filter(yes) == outcomes);
        assert(outcomes.filter(no) == outcomes);
    }
}

/// The counts of a directory run whose files had these outcomes (`true` for
/// a file processed successfully), in the order they were processed.
pub fn tally_results(outcomes: &Vec<bool>) -> (t: RunTally)
    ensures
        t.success_count == success_count_of(outcomes@),
        t.failure_count == outcomes@.len() - success_count_of(outcomes@),
        (t.failure_count == 0) == (forall|j: int| 0 <= j < outcomes@.len() ==> outcomes@[j]),
{
    let mut t = RunTally::new();
    let n = outcomes.len();
    let mut i: usize = 0;
    while i < n
        invariant
            n == outcomes@.len(),
            i <= n,
            t.success_count == success_count_of(outcomes@.take(i as int)),
            t.failure_count == i - success_count_of(outcomes@.take(i as int)),
        decreases n - i,
    {
        proof {
            let q = outcomes@.take(i as int + 1);
            assert(q.drop_last() =~= outcomes@.take(i as int));
            assert(q.last() == outcomes@[i as int]);
            lemma_success_count_bound(outcomes@.take(i as int));
        }
        t.record(outcomes[i]);
        i = i + 1;
    }
    proof {
        assert(outcomes@.take(n as int) =~= outcomes@);
        lemma_all_succeeded(outcomes@);
    }
    t
}

/// No file of a run failed exactly when every outcome is a success.
pub proof fn lemma_all_succeeded(outcomes: Seq<bool>)
    ensures
        (success_count_of(outcomes) == outcomes.len()) == (forall|j: int|
            0 <= j < outcomes.len() ==> outcomes[j]),
    decreases outcomes.len(),
{
    if outcomes.len() > 0 {
        let d = outcomes.drop_last();
        lemma_all_succeeded(d);
        lemma_success_count_bound(d);
        assert(outcomes.last() == outcomes[outcomes.len() - 1]);
        if forall|j: int| 0 <= j < outcomes.len() ==> outcomes[j] {
            assert forall|j: int| 0 <= j < d.len() implies d[j] by {
                assert(d[j] == outcomes[j]);
            }
        } else if success_count_of(outcomes) == outcomes.len() {
            assert forall|j: int| 0 <= j < outcomes.len() implies outcomes[j] by {
                if j < d.len() {
                    assert(d[j] == outcomes[j]);
                }
            }
        }
    }
}

/// The output paths that a flat directory run has produced so far; no path
/// is held twice.
pub struct OutputRegistry {
    seen: Vec<String>,
}

/// The texts of a list of strings.
pub open spec fn texts(v: Seq<String>) -> Seq<Seq<char>> {
    v.map_values(|s: String| s@)
}

/// The warning for an output path that an earlier file of the run already had.
pub open spec fn collision_warning_text(key: Seq<char>) -> Seq<char> {
    "warn: output collision in non-recursive mode: "@ + key
}

impl OutputRegistry {
    #[verifier::type_invariant]
    spec fn no_path_twice(self) -> bool {
        texts(self.seen@).no_duplicates()
    }

    /// The set of output paths recorded so far.
    pub closed spec fn recorded(self) -> Set<Seq<char>> {
        texts(self.seen@).to_set()
    }

    /// A registry that holds no path.
    pub fn new() -> (r: OutputRegistry)
        ensures
            r.recorded() == Set::<Seq<char>>::empty(),
    {
        let r = OutputRegistry { seen: Vec::new() };
        proof {
            assert(texts(r.seen@) =~= Seq::<Seq<char>>::empty());
            assert(texts(r.seen@).to_set() =~= Set::<Seq<char>>::empty());
        }
        r
    }

    /// Records `key`; returns whether it was new.
    pub fn insert(&mut self, key: String) -> (fresh: bool)
        ensures
            fresh == !old(self).recorded().contains(key@),
            final(self).recorded() == old(self).recorded().insert(key@),
    {
        proof {
            use_type_invariant(&*self);
        }
        let ghost old_texts = texts(self.seen@);
        let n = self.seen.len();
        let mut i: usize = 0;
        while i < n
            invariant
                n == self.seen@.len(),
                i <= n,
                old_texts == texts(self.seen@),
                forall|j: int| 0 <= j < i ==> old_texts[j] != key@,
            decreases n - i,
        {
            if self.seen[i] == key {
                proof {
                    assert(old_texts[i as int] == key@);
                    assert(old_texts.to_set().contains(key@));
                    assert(old_texts.to_set().insert(key@) =~= old_texts.to_set());
                }
                return false;
            }
            i = i + 1;
        }
        proof {
            assert(!old_texts.contains(key@));
            assert(!old_texts.to_set().contains(key@));
        }
        let ghost k = key@;
        let mut seen = Vec::new();
        std::mem::swap(&mut seen, &mut self.seen);
        seen.push(key);
        proof {
            assert(texts(seen@) =~= old_texts.push(k));
            assert(old_texts.push(k).to_set() =~= old_texts.to_set().insert(k)) by {
                assert forall|x: Seq<char>| old_texts.push(k).contains(x) <==> (
                old_texts.contains(x) || x == k) by {
                    if old_texts.push(k).contains(x) {
                        let j = choose|j: int|
                            0 <= j < old_texts.push(k).len() && old_texts.push(k)[j] == x;
                        if j < old_texts.len() {
                            assert(old_texts[j] == x);
                        }
                    }
                    if old_texts.contains(x) {
                        let j = choose|j: int| 0 <= j < old_texts.len() && old_texts[j] == x;
                        assert(old_texts.push(k)[j] == x);
                    }
                    if x == k {
                        assert(old_texts.push(k)[old_texts.len() as int] == x);
                    }
                }
            }
            assert(old_texts.push(k).no_duplicates()) by {
                assert forall|a: int, b: int|
                    0 <= a < old_texts.push(k).len() && 0 <= b < old_texts.push(k).len() && a
                        != b implies old_texts.push(k)[a] != old_texts.push(k)[b] by {
                    if a < old_texts.len() && b < old_texts.len() {
                    } else if a < old_texts.len() {
                        assert(old_texts.contains(old_texts[a]));
                    } else if b < old_texts.len() {
                        assert(old_texts.contains(old_texts[b]));
                    }
                }
            }
        }
        self.seen = seen;
        true
    }

    /// Records the output path of `input_path` in `output_dir`, when it has
    /// one; returns the collision warning when an earlier input of the run
    /// already had that path.
    pub fn note_output(&mut self, input_path: &str, output_dir: &str) -> (warning: Option<String>)
        ensures
            match output_path(input_path@, output_dir@) {
                Some(out) => {
                    &&& final(self).recorded() == old(self).recorded().insert(out)
                    &&& warning is Some <==> old(self).recorded().contains(out)
                    &&& warning is Some ==> warning->0@ == collision_warning_text(out)
                },
                None => final(self).recorded() == old(self).recorded() && warning is None,
            },
    {
        match output_path_for(input_path, output_dir) {
            Ok(out) => {
                let warning = collision_warning(out.as_str());
                if self.insert(out) {
                    None
                } else {
                    Some(warning)
                }
            },
            Err(_) => None,
        }
    }
}

/// Pushing names onto the same directory gives the same path only for the
/// same name.
proof fn lemma_push_name_injective(dir: Seq<char>, x: Seq<char>, y: Seq<char>)
    requires
        push_name(dir, x) == push_name(dir, y),
    ensures
        x == y,
{
    let base = if dir.len() == 0 || dir.last() == '/' {
        dir
    } else {
        dir + seq!['/']
    };
    assert(push_name(dir, x) =~= base + x);
    assert(push_name(dir, y) =~= base + y);
    assert((base + x).skip(base.len() as int) =~= x);
    assert((base + y).skip(base.len() as int) =~= y);
}

/// In a flat run into one directory, two inputs that have output paths share
/// one (and so draw the collision warning) exactly when their file stems are
/// the same.
pub proof fn lemma_collision_iff_same_stem(a: Seq<char>, b: Seq<char>, dir: Seq<char>)
    requires
        output_path(a, dir) is Some,
        output_path(b, dir) is Some,
    ensures
        (output_path(a, dir) == output_path(b, dir)) == (file_stem(a) == file_stem(b)),
{
    let sa = file_stem(a)->0;
    let sb = file_stem(b)->0;
    if output_path(a, dir) == output_path(b, dir) {
        lemma_push_name_injective(dir, ts_file_name(sa), ts_file_name(sb));
        assert(ts_file_name(sa).take(sa.len() as int) =~= sa);
        assert(ts_file_name(sb).take(sb.len() as int) =~= sb);
        assert(sa =~= sb);
    }
}

/// The warning line for an output path that an earlier input already had.
pub fn collision_warning(key: &str) -> (r: String)
    ensures
        r@ == collision_warning_text(key@),
{
    let mut r = "warn: output collision in non-recursive mode: ".to_owned();
    r.append(key);
    r
}

/// `a` is a leading part of `b`.
pub open spec fn is_prefix_of(a: Seq<PathComponent>, b: Seq<PathComponent>) -> bool {
    a.len() <= b.len() && b.take(a.len() as int) == a
}

/// The components of `path` below `input`: what is left of `path` after the
/// components of `input` when they lead it, else all of `path`.
pub open spec fn strip_input(input: Seq<char>, path: Seq<char>) -> Seq<PathComponent> {
    let ic = components(input);
    let pc = components(path);
    if is_prefix_of(ic, pc) {
        pc.skip(ic.len() as int)
    } else {
        pc
    }
}

/// The directory part of `path` below `input`: its components there without
/// the last (none when nothing is left, or only the root).
pub open spec fn relative_dir(input: Seq<char>, path: Seq<char>) -> Seq<PathComponent> {
    let rel = strip_input(input, path);
    if rel.len() == 0 || rel.last() == PathComponent::Root {
        Seq::<PathComponent>::empty()
    } else {
        rel.drop_last()
    }
}

/// The directory part of a file below the input is every component of the
/// file's path after those of the input except the last (the file name),
/// however deep; when the input does not lead the path, it is every component
/// of the path but the last.
pub proof fn lemma_relative_dir_spans_path(input: Seq<char>, path: Seq<char>)
    requires
        components(path).len() > 0,
        components(path).last() != PathComponent::Root,
    ensures
        is_prefix_of(components(input), components(path)) && components(path).len() > components(
            input,
        ).len() ==> relative_dir(input, path) == components(path).subrange(
            components(input).len() as int,
            components(path).len() - 1,
        ),
        !is_prefix_of(components(input), components(path)) ==> relative_dir(input, path)
            == components(path).drop_last(),
{
    let ic = components(input);
    let pc = components(path);
    if is_prefix_of(ic, pc) && pc.len() > ic.len() {
        let rel = pc.skip(ic.len() as int);
        assert(rel.last() == pc.last());
        assert(rel.drop_last() =~= pc.subrange(ic.len() as int, pc.len() - 1));
    }
}

/// The text of one component.
pub open spec fn component_text(c: PathComponent) -> Seq<char> {
    match c {
        PathComponent::Root => seq!['/'],
        PathComponent::Current => seq!['.'],
        PathComponent::Parent => seq!['.', '.'],
        PathComponent::Normal(n) => n,
    }
}

/// `base` with the components `cs` pushed on, one by one.
pub open spec fn join_components(base: Seq<char>, cs: Seq<PathComponent>) -> Seq<char>
    decreases cs.len(),
{
    if cs.len() == 0 {
        base
    } else {
        push_name(join_components(base, cs.drop_last()), component_text(cs.last()))
    }
}

/// The output directory, in a recursive run from `input` into `output_dir`,
/// for the file `path`: `output_dir` joined with the directory of `path`
/// below `input` (a directory part from the root replaces `output_dir`).
pub open spec fn recursive_output_dir_text(
    output_dir: Seq<char>,
    input: Seq<char>,
    path: Seq<char>,
) -> Seq<char> {
    let d = relative_dir(input, path);
    if d.len() > 0 && d[0] == PathComponent::Root {
        join_components(seq!['/'], d.skip(1))
    } else {
        join_components(output_dir, d)
    }
}

/// Components that are all normal names.
pub open spec fn all_normal(cs: Seq<PathComponent>) -> bool {
    forall|j: int| 0 <= j < cs.len() ==> (#[trigger] cs[j]) is Normal
}

/// `c` is a normal component with a plain name.
pub open spec fn is_plain_normal(c: PathComponent) -> bool {
    match c {
        PathComponent::Normal(n) => is_plain_name(n),
        _ => false,
    }
}

proof fn lemma_join_plain_names(base: Seq<char>, cs: Seq<PathComponent>)
    requires
        forall|j: int|
            0 <= j < cs.len() ==> is_plain_normal(#[trigger] cs[j]),
    ensures
        components(join_components(base, cs)) == components(base) + cs,
    decreases cs.len(),
{
    if cs.len() == 0 {
        assert(components(base) + cs =~= components(base));
    } else {
        let d = cs.drop_last();
        assert forall|j: int| 0 <= j < d.len() implies is_plain_normal(#[trigger] d[j]) by {
            assert(d[j] == cs[j]);
        }
        lemma_join_plain_names(base, d);
        assert(cs.last() == cs[cs.len() - 1]);
        let n = component_text(cs.last());
        lemma_components_push_name(join_components(base, d), n);
        assert(PathComponent::Normal(n) == cs.last());
        assert(components(base) + d + seq![cs.last()] =~= components(base) + cs);
        assert((components(base) + d).push(cs.last()) =~= components(base) + cs);
    }
}

/// In a recursive run, the output directory of a file mirrors the file's
/// directory below the input: its components are those of the output
/// directory followed by those between the input and the file, whenever these
/// are all normal names.
pub proof fn lemma_recursive_output_mirrors_input(
    output_dir: Seq<char>,
    input: Seq<char>,
    path: Seq<char>,
)
    requires
        all_normal(relative_dir(input, path)),
    ensures
        components(recursive_output_dir_text(output_dir, input, path)) == components(output_dir)
            + relative_dir(input, path),
{
    let d = relative_dir(input, path);
    let pc = components(path);
    let ic = components(input);
    lemma_normal_components_plain(path);
    assert forall|j: int| 0 <= j < d.len() implies is_plain_normal(#[trigger] d[j]) by {
        let rel = strip_input(input, path);
        assert(d[j] == rel[j]);
        if is_prefix_of(ic, pc) {
            assert(rel[j] == pc[j + ic.len()]);
        } else {
            assert(rel[j] == pc[j]);
        }
        assert(d[j] is Normal);
    }
    if d.len() > 0 {
        assert(d[0] is Normal);
    }
    lemma_join_plain_names(output_dir, d);
}

/// Whether two components are the same.
fn same_component(a: &Component, b: &Component) -> (r: bool)
    ensures
        r == (a@ == b@),
{
    match (a, b) {
        (Component::Root, Component::Root) => true,
        (Component::Current, Component::Current) => true,
        (Component::Parent, Component::Parent) => true,
        (Component::Normal(x), Component::Normal(y)) => {
            let same = *x == *y;
            proof {
                if !same {
                    assert(a@ != b@) by {
                        if a@ == b@ {
                            assert(x@ == y@);
                        }
                    }
                }
            }
            same
        },
        _ => false,
    }
}

/// Whether the components `a` lead the components `b`.
fn components_lead(a: &Vec<Component>, b: &Vec<Component>) -> (r: bool)
    ensures
        r == is_prefix_of(component_views(a@), component_views(b@)),
{
    let ghost av = component_views(a@);
    let ghost bv = component_views(b@);
    if a.len() > b.len() {
        return false;
    }
    let mut i: usize = 0;
    while i < a.len()
        invariant
            a@.len() <= b@.len(),
            av == component_views(a@),
            bv == component_views(b@),
            i <= a@.len(),
            forall|j: int| 0 <= j < i ==> bv[j] == av[j],
        decreases a@.len() - i,
    {
        if !same_component(&a[i], &b[i]) {
            proof {
                assert(av[i as int] == a@[i as int]@);
                assert(bv[i as int] == b@[i as int]@);
                assert(bv.take(av.len() as int)[i as int] == bv[i as int]);
            }
            return false;
        }
        proof {
            assert(av[i as int] == a@[i as int]@);
            assert(bv[i as int] == b@[i as int]@);
        }
        i = i + 1;
    }
    proof {
        assert(bv.take(av.len() as int) =~= av);
    }
    true
}

/// The text of one component.
fn component_text_of(c: &Component) -> (r: &str)
    ensures
        r@ == component_text(c@),
{
    proof {
        reveal_strlit("/");
        reveal_strlit(".");
        reveal_strlit("..");
    }
    match c {
        Component::Root => "/",
        Component::Current => ".",
        Component::Parent => "..",
        Component::Normal(n) => n.as_str(),
    }
}

/// `base` with the components `cs[first..end]` pushed on, one by one.
fn join_range(base: String, cs: &Vec<Component>, first: usize, end: usize) -> (r: String)
    requires
        first <= end <= cs@.len(),
    ensures
        r@ == join_components(base@, component_views(cs@).subrange(first as int, end as int)),
{
    let ghost cv = component_views(cs@);
    let ghost rest = cv.subrange(first as int, end as int);
    let ghost b = base@;
    let mut r = base;
    proof {
        assert(rest.take(0) =~= Seq::<PathComponent>::empty());
    }
    let mut k: usize = first;
    while k < end
        invariant
            first <= k <= end <= cs@.len(),
            cv == component_views(cs@),
            rest == cv.subrange(first as int, end as int),
            r@ == join_components(b, rest.take(k - first)),
        decreases end - k,
    {
        let t = component_text_of(&cs[k]);
        r = push_name_exec(r.as_str(), t);
        proof {
            let q = rest.take(k - first + 1);
            assert(q.drop_last() =~= rest.take(k - first));
            assert(q.last() == cv[k as int]);
            assert(cv[k as int] == cs@[k as int]@);
        }
        k = k + 1;
    }
    proof {
        assert(rest.take(end - first) =~= rest);
    }
    r
}

/// The output directory, in a recursive run from `input` into `output_dir`,
/// for the file at `path`: `output_dir` joined with the directory of `path`
/// below `input`.
pub fn recursive_output_dir(output_dir: &str, input: &str, path: &str) -> (r: String)
    ensures
        r@ == recursive_output_dir_text(output_dir@, input@, path@),
        all_normal(relative_dir(input@, path@)) ==> components(r@) == components(output_dir@)
            + relative_dir(input@, path@),
{
    let ic = path_components(input);
    let pc = path_components(path);
    let ghost pcv = component_views(pc@);
    let prefix = components_lead(&ic, &pc);
    let start = if prefix { ic.len() } else { 0 };
    let rel_len = pc.len() - start;
    let ghost rel = strip_input(input@, path@);
    proof {
        assert(rel =~= pcv.skip(start as int));
    }
    let end = if rel_len == 0 {
        start
    } else {
        match &pc[pc.len() - 1] {
            Component::Root => start,
            _ => pc.len() - 1,
        }
    };
    let ghost d = relative_dir(input@, path@);
    proof {
        if rel_len > 0 {
            assert(rel.last() == pcv[pc.len() - 1]);
            assert(pcv[pc.len() - 1] == pc@[pc.len() - 1]@);
        }
        assert(d =~= pcv.subrange(start as int, end as int));
    }
    let from_root = start < end && match &pc[start] {
        Component::Root => true,
        _ => false,
    };
    proof {
        if start < end {
            assert(d[0] == pcv[start as int]);
            assert(pcv[start as int] == pc@[start as int]@);
        }
    }
    let r = if from_root {
        proof {
            reveal_strlit("/");
            assert(pcv.subrange(start + 1, end as int) =~= d.skip(1));
            assert("/"@ =~= seq!['/']);
        }
        let root = "/".to_owned();
        let r = join_range(root, &pc, start + 1, end);
        proof {
            assert(d.len() > 0 && d[0] == PathComponent::Root);
            assert(r@ == join_components(seq!['/'], d.skip(1)));
        }
        r
    } else {
        let r = join_range(output_dir.to_owned(), &pc, start, end);
        proof {
            if d.len() > 0 {
                assert(d[0] != PathComponent::Root);
            }
            assert(r@ == join_components(output_dir@, d));
        }
        r
    };
    proof {
        if all_normal(d) {
            lemma_recursive_output_mirrors_input(output_dir@, input@, path@);
        }
    }
    r
}

} // verus!
