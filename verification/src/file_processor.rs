//! Per-file migration decisions: which inputs are JavaScript, where the
//! TypeScript output goes, and what is reported for a processed file.
use vstd::prelude::*;

use crate::error::MigrateError;
use crate::text::{decimal, decimal_text};
pub use crate::text::count_lines;
use crate::paths::{
    components, extension, extension_range, extension_of, file_name, file_stem, file_stem_of,
    is_plain_name, last_dot, lemma_components_push_name, lemma_file_name_plain,
    lemma_last_dot_suffix, lemma_stem_plain, push_name, push_name_exec, stem_of, PathComponent,
};


verus! {

/// Settings that hold for a whole run.
pub struct Settings {
    /// Preview only: no output file is written.
    pub dry_run: bool,
}

impl Settings {
    /// Settings of a run that writes its output files.
    pub fn new() -> (s: Settings)
        ensures
            !s.dry_run,
    {
        Settings { dry_run: false }
    }
}

/// Turns the preview mode on or off.
pub fn set_dry_run(settings: &mut Settings, enabled: bool)
    ensures
        final(settings).dry_run == enabled,
{
    settings.dry_run = enabled;
}

/// `c` with an ASCII upper-case letter mapped to its lower-case letter.
pub open spec fn ascii_lower(c: char) -> char {
    if 'A' <= c && c <= 'Z' {
        ((c as u32) + 32) as char
    } else {
        c
    }
}

/// `s` with its ASCII letters in lower case.
pub open spec fn ascii_lowercase(s: Seq<char>) -> Seq<char> {
    s.map_values(|c: char| ascii_lower(c))
}

/// `e` is, ignoring ASCII case, one of the extensions `js`, `jsx`, `mjs`, `cjs`.
pub open spec fn is_js_extension(e: Seq<char>) -> bool {
    let l = ascii_lowercase(e);
    ||| l == seq!['j', 's']
    ||| l == seq!['j', 's', 'x']
    ||| l == seq!['m', 'j', 's']
    ||| l == seq!['c', 'j', 's']
}

/// The path `p` names a JavaScript source file by its extension.
pub open spec fn supported_js_path(p: Seq<char>) -> bool {
    match extension(p) {
        Some(e) => is_js_extension(e),
        None => false,
    }
}

/// Whether a path is a JavaScript input depends on its extension alone: two
/// paths with the same extension are both inputs or both not.
pub proof fn lemma_support_by_extension_only(p: Seq<char>, q: Seq<char>)
    requires
        extension(p) == extension(q),
    ensures
        supported_js_path(p) == supported_js_path(q),
{
}

/// A path is a JavaScript input exactly when it has an extension that is,
/// letter by letter in either ASCII case, `js`, `jsx`, `mjs` or `cjs`.
pub proof fn lemma_supported_extensions(p: Seq<char>)
    ensures
        supported_js_path(p) == (extension(p) matches Some(e) && {
            let j = |c: char| c == 'j' || c == 'J';
            let s = |c: char| c == 's' || c == 'S';
            ||| e.len() == 2 && j(e[0]) && s(e[1])
            ||| e.len() == 3 && j(e[0]) && s(e[1]) && (e[2] == 'x' || e[2] == 'X')
            ||| e.len() == 3 && (e[0] == 'm' || e[0] == 'M') && j(e[1]) && s(e[2])
            ||| e.len() == 3 && (e[0] == 'c' || e[0] == 'C') && j(e[1]) && s(e[2])
        }),
{
    if let Some(e) = extension(p) {
        let l = ascii_lowercase(e);
        assert forall|i: int| 0 <= i < e.len() implies #[trigger] l[i] == ascii_lower(e[i]) by {}
        if e.len() >= 1 {
            lemma_lower_is(e[0], 'j', 'J');
            lemma_lower_is(e[0], 'm', 'M');
            lemma_lower_is(e[0], 'c', 'C');
        }
        if e.len() >= 2 {
            lemma_lower_is(e[1], 's', 'S');
            lemma_lower_is(e[1], 'j', 'J');
        }
        if e.len() >= 3 {
            lemma_lower_is(e[2], 'x', 'X');
            lemma_lower_is(e[2], 's', 'S');
        }
        assert(l.len() == e.len());
        if l == seq!['j', 's'] {
            assert(l[0] == seq!['j', 's'][0] && l[1] == seq!['j', 's'][1]);
        }
        if l == seq!['j', 's', 'x'] {
            assert(l[0] == 'j' && l[1] == 's' && l[2] == 'x') by {
                assert(seq!['j', 's', 'x'][2] == 'x');
            }
        }
        if l == seq!['m', 'j', 's'] {
            assert(l[0] == 'm' && l[1] == 'j' && l[2] == 's') by {
                assert(seq!['m', 'j', 's'][2] == 's');
            }
        }
        if l == seq!['c', 'j', 's'] {
            assert(l[0] == 'c' && l[1] == 'j' && l[2] == 's') by {
                assert(seq!['c', 'j', 's'][2] == 's');
            }
        }
        if e.len() == 2 {
            if l[0] == 'j' && l[1] == 's' {
                assert(l =~= seq!['j', 's']);
            }
        }
        if e.len() == 3 {
            if l[0] == 'j' && l[1] == 's' && l[2] == 'x' {
                assert(l =~= seq!['j', 's', 'x']);
            }
            if l[0] == 'm' && l[1] == 'j' && l[2] == 's' {
                assert(l =~= seq!['m', 'j', 's']);
            }
            if l[0] == 'c' && l[1] == 'j' && l[2] == 's' {
                assert(l =~= seq!['c', 'j', 's']);
            }
        }
    }
}

/// A file name whose last `.` is not its first character and is followed by
/// `js` is a JavaScript input, whatever comes before, a leading `.` included.
pub proof fn lemma_js_name_supported(p: Seq<char>)
    requires
        file_name(p) matches Some(n) && last_dot(n) matches Some(i) && i > 0 && n.skip(i + 1)
            == seq!['j', 's'],
    ensures
        supported_js_path(p),
{
    lemma_supported_extensions(p);
}

/// The output file name for a file stem: the stem followed by `.ts`.
pub open spec fn ts_file_name(stem: Seq<char>) -> Seq<char> {
    stem + seq!['.', 't', 's']
}

/// Where the output of the input file `input` goes in the directory `dir`:
/// the stem of its file name with `.ts`, pushed onto `dir`.
pub open spec fn output_path(input: Seq<char>, dir: Seq<char>) -> Option<Seq<char>> {
    match file_stem(input) {
        Some(stem) => Some(push_name(dir, ts_file_name(stem))),
        None => None,
    }
}

proof fn lemma_lower_is(c: char, l: char, u: char)
    requires
        'a' <= l <= 'z',
        u as u32 == l as u32 - 32,
    ensures
        (ascii_lower(c) == l) == (c == l || c == u),
{
}

/// Whether the chars `a..b` of `s` are, ignoring ASCII case, the text `l`
/// (given in lower case, and in upper case as `u`).
fn range_is_lower(s: &str, a: usize, b: usize, l: &[char], u: &[char]) -> (r: bool)
    requires
        a <= b <= s@.len(),
        u@.len() == l@.len(),
        forall|i: int| 0 <= i < l@.len() ==> 'a' <= #[trigger] l@[i] <= 'z',
        forall|i: int| 0 <= i < l@.len() ==> #[trigger] u@[i] as u32 == l@[i] as u32 - 32,
    ensures
        r == (ascii_lowercase(s@.subrange(a as int, b as int)) == l@),
{
    let ghost e = s@.subrange(a as int, b as int);
    if b - a != l.len() {
        proof {
            assert(ascii_lowercase(e).len() != l@.len());
        }
        return false;
    }
    let mut i: usize = 0;
    while i < l.len()
        invariant
            b - a == l@.len(),
            a <= b <= s@.len(),
            e == s@.subrange(a as int, b as int),
            i <= l@.len(),
            u@.len() == l@.len(),
            forall|j: int| 0 <= j < l@.len() ==> 'a' <= #[trigger] l@[j] <= 'z',
            forall|j: int| 0 <= j < l@.len() ==> #[trigger] u@[j] as u32 == l@[j] as u32 - 32,
            forall|j: int| 0 <= j < i ==> ascii_lower(#[trigger] e[j]) == l@[j],
        decreases l@.len() - i,
    {
        let c = s.get_char(a + i);
        let lc = l[i];
        let uc = u[i];
        proof {
            assert(e[i as int] == c);
            assert('a' <= lc <= 'z');
            assert(uc as u32 == lc as u32 - 32);
            lemma_lower_is(c, lc, uc);
        }
        if c != lc && c != uc {
            proof {
                assert(ascii_lowercase(e)[i as int] != l@[i as int]);
            }
            return false;
        }
        i = i + 1;
    }
    proof {
        assert(ascii_lowercase(e) =~= l@);
    }
    true
}

/// Whether `path` has one of the extensions `.js`, `.jsx`, `.mjs`, `.cjs`, in
/// any ASCII case.
pub fn is_supported_js(path: &str) -> (r: bool)
    ensures
        r == supported_js_path(path@),
{
    match extension_range(path) {
        Some((a, b)) => {
            let js = ['j', 's'];
            let jsx = ['j', 's', 'x'];
            let mjs = ['m', 'j', 's'];
            let cjs = ['c', 'j', 's'];
            let js_upper = ['J', 'S'];
            let jsx_upper = ['J', 'S', 'X'];
            let mjs_upper = ['M', 'J', 'S'];
            let cjs_upper = ['C', 'J', 'S'];
            proof {
                assert(js@ =~= seq!['j', 's']);
                assert(jsx@ =~= seq!['j', 's', 'x']);
                assert(mjs@ =~= seq!['m', 'j', 's']);
                assert(cjs@ =~= seq!['c', 'j', 's']);
            }
            range_is_lower(path, a, b, &js, &js_upper) || range_is_lower(
                path,
                a,
                b,
                &jsx,
                &jsx_upper,
            ) || range_is_lower(path, a, b, &mjs, &mjs_upper) || range_is_lower(
                path,
                a,
                b,
                &cjs,
                &cjs_upper,
            )
        },
        None => false,
    }
}

/// What holds of the output path of an input whose file stem is `stem`: its
/// file name is the stem with `.ts`, it keeps the stem, its extension is
/// `ts` (so it is not a JavaScript input itself), and it lies directly in `dir`.
pub proof fn lemma_output_path_shape(input: Seq<char>, dir: Seq<char>)
    requires
        file_stem(input) is Some,
    ensures
        ({
            let stem = file_stem(input)->0;
            let out = output_path(input, dir)->0;
            &&& is_plain_name(ts_file_name(stem))
            &&& file_name(out) == Some(ts_file_name(stem))
            &&& components(out) == components(dir).push(PathComponent::Normal(ts_file_name(stem)))
            &&& file_stem(out) == file_stem(input)
            &&& extension(out) == Some(seq!['t', 's'])
            &&& !supported_js_path(out)
        }),
{
    let n = file_name(input)->0;
    lemma_file_name_plain(input);
    lemma_stem_plain(n);
    let stem = stem_of(n);
    let name = ts_file_name(stem);
    let ext = seq!['t', 's'];
    assert(name =~= stem + seq!['.'] + ext);
    assert forall|i: int| 0 <= i < name.len() implies name[i] != '/' by {
        if i < stem.len() {
            assert(name[i] == stem[i]);
        }
    }
    assert(name.len() >= 3);
    assert(!(name =~= seq!['.']));
    assert(!(name =~= seq!['.', '.']));
    assert(is_plain_name(name));
    lemma_components_push_name(dir, name);
    assert forall|i: int| 0 <= i < ext.len() implies ext[i] != '.' by {}
    lemma_last_dot_suffix(stem, ext);
    assert(last_dot(name) == Some(stem.len() as int));
    assert(name.take(stem.len() as int) =~= stem);
    assert(name.skip(stem.len() as int + 1) =~= ext);
    assert(stem_of(name) == stem);
    assert(extension_of(name) == Some(ext));
    let l = ascii_lowercase(ext);
    assert(l =~= ext);
    assert(l != seq!['j', 's']) by {
        assert(l[0] != seq!['j', 's'][0]);
    }
    assert(l.len() != seq!['j', 's', 'x'].len());
}

/// The path of the TypeScript output for `input_path` in `output_dir`: the
/// stem of the input's file name with `.ts`, pushed onto the directory. Fails
/// with `InvalidFileName` exactly when the input has no file name.
pub fn output_path_for(input_path: &str, output_dir: &str) -> (r: Result<String, MigrateError>)
    ensures
        match r {
            Ok(out) => output_path(input_path@, output_dir@) == Some(out@),
            Err(e) => e == MigrateError::InvalidFileName && output_path(
                input_path@,
                output_dir@,
            ) is None,
        },
        r is Ok ==> file_stem(r->Ok_0@) == file_stem(input_path@) && extension(r->Ok_0@) == Some(
            seq!['t', 's'],
        ) && !supported_js_path(r->Ok_0@),
{
    match file_stem_of(input_path) {
        Some(stem) => {
            let mut name = stem;
            name.append(".ts");
            proof {
                reveal_strlit(".ts");
                assert(name@ =~= ts_file_name(stem@));
                lemma_output_path_shape(input_path@, output_dir@);
            }
            Ok(push_name_exec(output_dir, name.as_str()))
        },
        None => Err(MigrateError::InvalidFileName),
    }
}

/// What is reported for one processed input file.
pub struct ProcessingStats {
    pub input_path: String,
    pub output_path: String,
    pub line_count: usize,
    pub var_count: usize,
    /// The output file was written (false in a dry run).
    pub wrote_file: bool,
}

impl ProcessingStats {
    /// The report of a file processed under `settings`: a dry run writes no file.
    pub fn for_run(
        settings: &Settings,
        input_path: String,
        output_path: String,
        line_count: usize,
        var_count: usize,
    ) -> (r: ProcessingStats)
        ensures
            r.input_path@ == input_path@,
            r.output_path@ == output_path@,
            r.line_count == line_count,
            r.var_count == var_count,
            r.wrote_file == !settings.dry_run,
    {
        ProcessingStats {
            input_path,
            output_path,
            line_count,
            var_count,
            wrote_file: !settings.dry_run,
        }
    }

    /// The status line of this report:
    /// `ok: <input> -> <output> (<written|dry-run>), vars: <n>, lines: <n>`.
    pub fn status_line(&self) -> (r: String)
        ensures
            r@ == status_line_text(*self),
    {
        let mut r = "ok: ".to_owned();
        r.append(self.input_path.as_str());
        r.append(" -> ");
        r.append(self.output_path.as_str());
        r.append(" (");
        if self.wrote_file {
            r.append("written");
        } else {
            r.append("dry-run");
        }
        r.append("), vars: ");
        let v = decimal_text(self.var_count);
        r.append(v.as_str());
        r.append(", lines: ");
        let l = decimal_text(self.line_count);
        r.append(l.as_str());
        r
    }
}

/// The status line that reports a processed file.
pub open spec fn status_line_text(s: ProcessingStats) -> Seq<char> {
    "ok: "@ + s.input_path@ + " -> "@ + s.output_path@ + " ("@ + (if s.wrote_file {
        "written"@
    } else {
        "dry-run"@
    }) + "), vars: "@ + decimal(s.var_count as nat) + ", lines: "@ + decimal(s.line_count as nat)
}

/// The line that reports a file that failed: `fail: <input> (<reason>)`.
pub open spec fn failure_line_text(input: Seq<char>, reason: Seq<char>) -> Seq<char> {
    "fail: "@ + input + " ("@ + reason + ")"@
}

/// The line that reports that processing `input_path` failed for `reason`.
pub fn failure_line(input_path: &str, reason: &str) -> (r: String)
    ensures
        r@ == failure_line_text(input_path@, reason@),
{
    let mut r = "fail: ".to_owned();
    r.append(input_path);
    r.append(" (");
    r.append(reason);
    r.append(")");
    r
}

/// Checks that `input_path` names a JavaScript source file, as the first step
/// of processing it.
pub fn check_supported_input(input_path: &str) -> (r: Result<(), MigrateError>)
    ensures
        r is Ok <==> supported_js_path(input_path@),
        r is Err ==> r->Err_0 == MigrateError::UnsupportedExtension,
{
    if is_supported_js(input_path) {
        Ok(())
    } else {
        Err(MigrateError::UnsupportedExtension)
    }
}

} // verus!
