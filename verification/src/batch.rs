//! Batch planning: which files are processed and where each result is written.
use vstd::prelude::*;
use crate::path::{
    extension, extension_chars, has_drive, is_absolute, lemma_relative_part_shape, relative_part,
    relative_part_start, is_sep, join, join_chars, lemma_skip_leading_shape, lemma_skip_seps_then_text,
    lemma_trim_trailing_shape, root_len, skip_leading_seps, strip_prefix, strip_prefix_chars,
    trim_trailing_seps,
};
use crate::text::{
    chars_eq_ignore_ascii_case, chars_of, eq_ignore_ascii_case, skip_dots, string_of, to_lowercase, trim_bounds, trim_start_dots, trim_ws,
    unicode_lowercase,
};

verus! {

/// Where results are written.
#[derive(Debug, Clone)]
pub enum OutputMode {
    /// Write into a sibling directory under the input root.
    Sibling { dir_name: String },
    /// Overwrite originals in-place.
    InPlace,
}

impl Default for OutputMode {
    fn default() -> (res: Self)
        ensures
            res matches OutputMode::Sibling { dir_name } && dir_name@ == "_modified"@,
    {
        OutputMode::Sibling { dir_name: String::from_str("_modified") }
    }
}

/// What a batch run works on.
#[derive(Debug, Clone)]
pub struct BatchOptions {
    pub input_dir: String,
    /// Lowercase, without the leading dot.
    pub extensions: Vec<String>,
    pub recursive: bool,
    pub output: OutputMode,
}

/// The extensions processed when none are given: jpg, jpeg, png, webp, bmp.
pub open spec fn default_extension_list() -> Seq<Seq<char>> {
    seq!["jpg"@, "jpeg"@, "png"@, "webp"@, "bmp"@]
}

impl BatchOptions {
    pub fn default_extensions() -> (res: Vec<String>)
        ensures
            res.deep_view() == default_extension_list(),
    {
        let mut v: Vec<String> = Vec::new();
        v.push(String::from_str("jpg"));
        v.push(String::from_str("jpeg"));
        v.push(String::from_str("png"));
        v.push(String::from_str("webp"));
        v.push(String::from_str("bmp"));
        proof {
            assert(v.deep_view() =~= default_extension_list());
        }
        v
    }
}

/// The path of `input` relative to `input_dir`, or `input` whole when it does
/// not lie under `input_dir`.
pub open spec fn source_rel(input: Seq<char>, input_dir: Seq<char>) -> Seq<char> {
    match strip_prefix(input, input_dir) {
        Some(r) => r,
        None => input,
    }
}

/// The place of a copy below the output directory: `source_rel` with any
/// root removed, so that the copy always lands inside that directory.
pub open spec fn output_rel(input: Seq<char>, input_dir: Seq<char>) -> Seq<char> {
    relative_part(source_rel(input, input_dir))
}

/// The path that a batch writes the result for `input` to: `input` itself in
/// place; else `output_rel` below `<input_dir>/<dir_name>/`.
pub open spec fn planned_output(input: Seq<char>, input_dir: Seq<char>, mode: OutputMode) -> Seq<
    char,
> {
    match mode {
        OutputMode::InPlace => input,
        OutputMode::Sibling { dir_name } => join(
            join(input_dir, dir_name@),
            output_rel(input, input_dir),
        ),
    }
}

/// A single plain component: not empty, with no separator and no `:`.
pub open spec fn is_plain_name(n: Seq<char>) -> bool {
    n.len() > 0 && forall|i: int| 0 <= i < n.len() ==> !is_sep(#[trigger] n[i]) && n[i] != ':'
}

pub fn output_path_for(input: &str, opts: &BatchOptions) -> (res: String)
    ensures
        res@ == planned_output(input@, opts.input_dir@, opts.output),
        match opts.output {
            OutputMode::Sibling { dir_name } => is_plain_name(dir_name@) ==> {
                &&& res@ != input@
                &&& strip_prefix(res@, join(opts.input_dir@, dir_name@)) == Some(
                    output_rel(input@, opts.input_dir@),
                )
            },
            OutputMode::InPlace => res@ == input@,
        },
{
    proof {
        if let OutputMode::Sibling { dir_name } = &opts.output {
            if is_plain_name(dir_name@) {
                lemma_copy_mode_never_overwrites(input@, opts.input_dir@, opts.output);
                if opts.input_dir@.len() > 0 {
                    lemma_join_shape(opts.input_dir@, dir_name@);
                }
                lemma_output_inside_output_dir(input@, opts.input_dir@, opts.output);
            }
        }
    }
    match &opts.output {
        OutputMode::InPlace => {
            let c = chars_of(input);
            string_of(c.as_slice())
        },
        OutputMode::Sibling { dir_name } => {
            let inp = chars_of(input);
            let dir = chars_of(opts.input_dir.as_str());
            let name = chars_of(dir_name.as_str());
            let rel = match strip_prefix_chars(&inp, &dir) {
                Some(r) => r,
                None => inp,
            };
            let st = relative_part_start(&rel, 0);
            let mut tail: Vec<char> = Vec::new();
            let mut i = st;
            while i < rel.len()
                invariant
                    st <= i <= rel.len(),
                    tail@ == rel@.subrange(st as int, i as int),
                decreases rel.len() - i,
            {
                tail.push(rel[i]);
                proof {
                    assert(rel@.subrange(st as int, i + 1) =~= rel@.subrange(st as int, i as int).push(
                        rel@[i as int],
                    ));
                }
                i = i + 1;
            }
            proof {
                assert(rel@.skip(0) =~= rel@);
                assert(tail@ =~= rel@.skip(st as int));
            }
            let sub = join_chars(&dir, &name);
            let out = join_chars(&sub, &tail);
            string_of(out.as_slice())
        },
    }
}

/// A relative path neither starts with a separator nor is empty-rooted.
proof fn lemma_relative_first_char(r: Seq<char>)
    requires
        !is_absolute(r),
    ensures
        r.len() > 0 ==> !is_sep(r[0]),
{
}

/// What `join` adds between a non-empty `base` and a relative `rel`.
proof fn lemma_join_shape(base: Seq<char>, rel: Seq<char>)
    requires
        base.len() > 0,
        !is_absolute(rel),
        !has_drive(rel),
    ensures
        join(base, rel) == base + (if is_sep(base.last()) { seq![] } else { seq!['/'] }) + rel,
{
    if !is_sep(base.last()) {
        assert(base + seq!['/'] + rel =~= base + seq!['/'] + rel);
    } else {
        assert(base + seq![] =~= base);
    }
}

/// Stripping `input_dir` from `input_dir` joined with a plain `name` and then a
/// relative `r` leaves `name/r`.
proof fn lemma_strip_dir_from_output(input_dir: Seq<char>, name: Seq<char>, r: Seq<char>)
    requires
        is_plain_name(name),
        !is_absolute(r),
        !has_drive(r),
    ensures
        join(join(input_dir, name), r) == join(input_dir, name) + seq!['/'] + r,
        strip_prefix(join(join(input_dir, name), r), input_dir) == Some(name + seq!['/'] + r),
{
    let j = join(input_dir, name);
    assert(!is_sep(name[0]));
    assert(!is_absolute(name));
    lemma_relative_first_char(r);
    if input_dir.len() == 0 {
        assert(j == name);
        lemma_join_shape(name, r);
        assert(!is_sep(name.last()));
        lemma_trim_trailing_shape(input_dir);
    } else {
        lemma_join_shape(input_dir, name);
        let s1: Seq<char> = if is_sep(input_dir.last()) { seq![] } else { seq!['/'] };
        assert(j == input_dir + s1 + name);
        assert(j.last() == name.last());
        assert(!is_sep(name.last()));
        lemma_join_shape(j, r);
        let out = j + seq!['/'] + r;
        lemma_trim_trailing_shape(input_dir);
        let b = trim_trailing_seps(input_dir);
        assert(out.take(b.len() as int) =~= b);
        let a = input_dir.skip(b.len() as int) + s1;
        assert forall|i: int| 0 <= i < a.len() implies is_sep(#[trigger] a[i]) by {
            if i < input_dir.len() - b.len() {
                assert(a[i] == input_dir[b.len() + i]);
            }
        }
        let tail = name + seq!['/'] + r;
        assert(out.skip(b.len() as int) =~= a + tail);
        lemma_skip_seps_then_text(a, tail);
        if b.len() < input_dir.len() {
            assert(out[b.len() as int] == input_dir[b.len() as int]);
        } else if !is_sep(input_dir.last()) {
            assert(out[b.len() as int] == '/');
        } else {
            assert(b =~= input_dir);
        }
    }
}

/// In copy mode, with an output directory name that is one plain component,
/// the result is never written over the file itself, wherever that file is.
pub proof fn lemma_copy_mode_never_overwrites(
    input: Seq<char>,
    input_dir: Seq<char>,
    mode: OutputMode,
)
    requires
        mode matches OutputMode::Sibling { dir_name } && is_plain_name(dir_name@),
    ensures
        planned_output(input, input_dir, mode) != input,
{
    let name = match mode {
        OutputMode::Sibling { dir_name } => dir_name@,
        OutputMode::InPlace => seq![],
    };
    let rel0 = source_rel(input, input_dir);
    let q = lemma_relative_part_shape(rel0);
    let r = output_rel(input, input_dir);
    lemma_strip_dir_from_output(input_dir, name, r);
    let out = planned_output(input, input_dir, mode);
    if out == input {
        assert(strip_prefix(input, input_dir) == Some(name + seq!['/'] + r));
        assert(rel0 == name + seq!['/'] + r);
        assert(rel0.len() == name.len() + 1 + rel0.len() - q);
        assert(q > 0);
        assert(rel0[0] == name[0]);
        assert(!is_sep(name[0]));
        assert(has_drive(rel0));
        assert(rel0[1] == ':');
        if name.len() >= 2 {
            assert(rel0[1] == name[1]);
        } else {
            assert(rel0[1] == '/');
        }
        assert(false);
    }
}

/// In copy mode the output lies below `<input_dir>/<dir_name>`: stripping that
/// directory from it gives back `output_rel`.
pub proof fn lemma_output_inside_output_dir(input: Seq<char>, input_dir: Seq<char>, mode: OutputMode)
    requires
        mode matches OutputMode::Sibling { dir_name } && join(input_dir, dir_name@).len() > 0,
    ensures
        mode matches OutputMode::Sibling { dir_name } && strip_prefix(
            planned_output(input, input_dir, mode),
            join(input_dir, dir_name@),
        ) == Some(output_rel(input, input_dir)),
{
    let name = match mode {
        OutputMode::Sibling { dir_name } => dir_name@,
        OutputMode::InPlace => seq![],
    };
    let rel = output_rel(input, input_dir);
    let _ = lemma_relative_part_shape(source_rel(input, input_dir));
    let j = join(input_dir, name);
    let out = planned_output(input, input_dir, mode);
    lemma_join_shape(j, rel);
    lemma_trim_trailing_shape(j);
    lemma_relative_first_char(rel);
    let b = trim_trailing_seps(j);
    let sep_part: Seq<char> = if is_sep(j.last()) { seq![] } else { seq!['/'] };
    assert(out == j + sep_part + rel);
    assert(out.take(b.len() as int) =~= b);
    let a = j.skip(b.len() as int) + sep_part;
    assert forall|i: int| 0 <= i < a.len() implies is_sep(#[trigger] a[i]) by {
        if i < j.len() - b.len() {
            assert(a[i] == j[b.len() + i]);
        }
    }
    assert(out.skip(b.len() as int) =~= a + rel);
    lemma_skip_seps_then_text(a, rel);
    if b.len() < j.len() {
        assert(out[b.len() as int] == j[b.len() as int]);
    } else if !is_sep(j.last()) {
        assert(out[b.len() as int] == '/');
    } else {
        assert(b =~= j);
    }
}

/// For a file under the input directory, its place below the output directory
/// is its place below the input directory (the output mirrors the structure).
pub proof fn lemma_output_mirrors_relative_path(input: Seq<char>, input_dir: Seq<char>)
    requires
        strip_prefix(input, input_dir) matches Some(rel) && !is_absolute(rel) && !has_drive(rel),
    ensures
        Some(output_rel(input, input_dir)) == strip_prefix(input, input_dir),
{
    let _ = lemma_relative_part_shape(source_rel(input, input_dir));
}

/// Two files whose places below the output directory differ get different
/// outputs in copy mode; distinct files get distinct outputs in place.
pub proof fn lemma_distinct_files_distinct_outputs(
    input1: Seq<char>,
    input2: Seq<char>,
    input_dir: Seq<char>,
    mode: OutputMode,
)
    requires
        mode is InPlace ==> input1 != input2,
        mode is Sibling ==> output_rel(input1, input_dir) != output_rel(input2, input_dir),
    ensures
        planned_output(input1, input_dir, mode) != planned_output(input2, input_dir, mode),
{
    if mode is Sibling {
        let name = match mode {
            OutputMode::Sibling { dir_name } => dir_name@,
            OutputMode::InPlace => seq![],
        };
        let r1 = output_rel(input1, input_dir);
        let r2 = output_rel(input2, input_dir);
        let _ = lemma_relative_part_shape(source_rel(input1, input_dir));
        let _ = lemma_relative_part_shape(source_rel(input2, input_dir));
        let j = join(input_dir, name);
        let o1 = planned_output(input1, input_dir, mode);
        let o2 = planned_output(input2, input_dir, mode);
        if j.len() == 0 {
            assert(o1 == r1 && o2 == r2);
        } else {
            lemma_join_shape(j, r1);
            lemma_join_shape(j, r2);
            let m: int = j.len() + (if is_sep(j.last()) { 0int } else { 1int });
            if o1 == o2 {
                assert(r1 =~= o1.skip(m));
                assert(r2 =~= o2.skip(m));
                assert(false);
            }
        }
    }
}

/// A batch planned from files whose places below the output directory are
/// pairwise different (copy mode), or from pairwise different files (in
/// place), writes no two results to the same path.
pub proof fn lemma_plan_outputs_pairwise_distinct(
    files: Seq<Seq<char>>,
    input_dir: Seq<char>,
    mode: OutputMode,
)
    requires
        forall|i: int, j: int|
            0 <= i < files.len() && 0 <= j < files.len() && i != j ==> {
                &&& mode is InPlace ==> files[i] != files[j]
                &&& mode is Sibling ==> output_rel(files[i], input_dir) != output_rel(
                    files[j],
                    input_dir,
                )
            },
    ensures
        forall|i: int, j: int|
            0 <= i < files.len() && 0 <= j < files.len() && i != j ==> planned_output(
                #[trigger] files[i],
                input_dir,
                mode,
            ) != planned_output(#[trigger] files[j], input_dir, mode),
{
    assert forall|i: int, j: int|
        0 <= i < files.len() && 0 <= j < files.len() && i != j implies planned_output(
        #[trigger] files[i],
        input_dir,
        mode,
    ) != planned_output(#[trigger] files[j], input_dir, mode) by {
        lemma_distinct_files_distinct_outputs(files[i], files[j], input_dir, mode);
    }
}

/// Whether `file` lies under `input_dir` as a walk of that directory names
/// it: the directory joined with the file's relative path below it.
pub open spec fn walked_under(file: Seq<char>, input_dir: Seq<char>) -> bool {
    strip_prefix(file, input_dir) matches Some(rel) && !is_absolute(rel) && !has_drive(rel) && file
        == join(input_dir, rel)
}

/// Distinct files found under the input directory get distinct outputs, in
/// either mode: no two results of a batch are written to the same path.
pub proof fn lemma_walked_files_distinct_outputs(
    files: Seq<Seq<char>>,
    input_dir: Seq<char>,
    mode: OutputMode,
)
    requires
        forall|i: int| 0 <= i < files.len() ==> walked_under(#[trigger] files[i], input_dir),
        forall|i: int, j: int|
            0 <= i < files.len() && 0 <= j < files.len() && i != j ==> files[i] != files[j],
    ensures
        forall|i: int, j: int|
            0 <= i < files.len() && 0 <= j < files.len() && i != j ==> planned_output(
                #[trigger] files[i],
                input_dir,
                mode,
            ) != planned_output(#[trigger] files[j], input_dir, mode),
{
    assert forall|i: int, j: int|
        0 <= i < files.len() && 0 <= j < files.len() && i != j implies planned_output(
        #[trigger] files[i],
        input_dir,
        mode,
    ) != planned_output(#[trigger] files[j], input_dir, mode) by {
        assert(walked_under(files[i], input_dir));
        assert(walked_under(files[j], input_dir));
        lemma_output_mirrors_relative_path(files[i], input_dir);
        lemma_output_mirrors_relative_path(files[j], input_dir);
        lemma_distinct_files_distinct_outputs(files[i], files[j], input_dir, mode);
    }
}

/// The pieces of `s` between commas, empty pieces included (what `split(',')` gives).
pub open spec fn split_commas(s: Seq<char>) -> Seq<Seq<char>>
    decreases s.len(),
{
    if s.len() == 0 {
        seq![seq![]]
    } else {
        let prev = split_commas(s.drop_last());
        if s.last() == ',' {
            prev.push(seq![])
        } else {
            prev.update(prev.len() - 1, prev.last().push(s.last()))
        }
    }
}

/// One extension as the user wrote it, trimmed: white space around it and the
/// dots that start it removed.
pub open spec fn trimmed_extension(p: Seq<char>) -> Seq<char> {
    trim_start_dots(trim_ws(p))
}

/// Each entry trimmed (see `trimmed_extension`), in order.
pub open spec fn trimmed_entries(xs: Seq<Seq<char>>) -> Seq<Seq<char>>
    decreases xs.len(),
{
    if xs.len() == 0 {
        seq![]
    } else {
        trimmed_entries(xs.drop_last()).push(trimmed_extension(xs.last()))
    }
}

/// Each entry lower-cased as `str::to_lowercase` does, in order.
pub open spec fn lowercased_entries(xs: Seq<Seq<char>>) -> Seq<Seq<char>>
    decreases xs.len(),
{
    if xs.len() == 0 {
        seq![]
    } else {
        lowercased_entries(xs.drop_last()).push(unicode_lowercase(xs.last()))
    }
}

/// The entries of `xs` that are not empty, in order.
pub open spec fn nonempty_entries(xs: Seq<Seq<char>>) -> Seq<Seq<char>>
    decreases xs.len(),
{
    if xs.len() == 0 {
        seq![]
    } else {
        let prev = nonempty_entries(xs.drop_last());
        if xs.last().len() > 0 {
            prev.push(xs.last())
        } else {
            prev
        }
    }
}

/// The extension list written as comma-separated text.
pub open spec fn parsed_extensions(s: Seq<char>) -> Seq<Seq<char>> {
    nonempty_entries(lowercased_entries(trimmed_entries(split_commas(s))))
}

fn trimmed_piece(cs: &Vec<char>, a: usize, b: usize) -> (res: String)
    requires
        a <= b <= cs.len(),
    ensures
        res@ == trimmed_extension(cs@.subrange(a as int, b as int)),
{
    let mut piece: Vec<char> = Vec::new();
    let mut i = a;
    while i < b
        invariant
            a <= i <= b <= cs.len(),
            piece@ == cs@.subrange(a as int, i as int),
        decreases b - i,
    {
        piece.push(cs[i]);
        proof {
            assert(cs@.subrange(a as int, i + 1) =~= cs@.subrange(a as int, i as int).push(
                cs@[i as int],
            ));
        }
        i = i + 1;
    }
    let (ta, tb) = trim_bounds(&piece);
    let d = skip_dots(&piece, ta, tb);
    let trimmed = string_of(&piece.as_slice()[d..tb]);
    proof {
        assert(trimmed@ == piece@.subrange(d as int, tb as int));
    }
    trimmed
}

/// The entries of a comma-separated extension list, each trimmed of white
/// space and of the dots that start it; empty entries stay.
pub fn extension_entries(input: &str) -> (res: Vec<String>)
    ensures
        res.deep_view() == trimmed_entries(split_commas(input@)),
{
    let cs = chars_of(input);
    let mut out: Vec<String> = Vec::new();
    let ghost mut done: Seq<Seq<char>> = seq![];
    let mut start: usize = 0;
    let mut i: usize = 0;
    proof {
        assert(cs@.take(0) =~= seq![]);
        assert(split_commas(cs@.take(0)) =~= done.push(cs@.subrange(0, 0)));
        assert(out.deep_view() =~= trimmed_entries(done));
    }
    while i < cs.len()
        invariant
            start <= i <= cs.len(),
            split_commas(cs@.take(i as int)) == done.push(cs@.subrange(start as int, i as int)),
            out.deep_view() == trimmed_entries(done),
        decreases cs.len() - i,
    {
        proof {
            assert(cs@.take(i + 1).drop_last() =~= cs@.take(i as int));
            assert(cs@.take(i + 1).last() == cs@[i as int]);
        }
        if cs[i] == ',' {
            let n = trimmed_piece(&cs, start, i);
            let ghost piece = cs@.subrange(start as int, i as int);
            out.push(n);
            proof {
                assert(done.push(piece).drop_last() =~= done);
                assert(out.deep_view() =~= trimmed_entries(done.push(piece)));
                done = done.push(piece);
                assert(cs@.subrange(i + 1, i + 1) =~= seq![]);
            }
            start = i + 1;
        } else {
            proof {
                assert(cs@.subrange(start as int, i + 1) =~= cs@.subrange(start as int, i as int).push(
                    cs@[i as int],
                ));
            }
        }
        i = i + 1;
    }
    let n = trimmed_piece(&cs, start, cs.len());
    let ghost piece = cs@.subrange(start as int, cs.len() as int);
    out.push(n);
    proof {
        assert(cs@.take(cs.len() as int) =~= cs@);
        assert(done.push(piece).drop_last() =~= done);
        assert(out.deep_view() =~= trimmed_entries(done.push(piece)));
    }
    out
}

/// The entries of `entries` that are not empty, in order.
pub fn keep_nonempty(entries: &Vec<String>) -> (res: Vec<String>)
    ensures
        res.deep_view() == nonempty_entries(entries.deep_view()),
{
    let mut out: Vec<String> = Vec::new();
    let mut i: usize = 0;
    while i < entries.len()
        invariant
            i <= entries.len(),
            out.deep_view() == nonempty_entries(entries.deep_view().take(i as int)),
        decreases entries.len() - i,
    {
        proof {
            assert(entries.deep_view().take(i + 1).drop_last() =~= entries.deep_view().take(
                i as int,
            ));
            assert(entries.deep_view().take(i + 1).last() == entries@[i as int]@);
        }
        if !entries[i].as_str().is_empty() {
            out.push(entries[i].clone());
        }
        proof {
            assert(out.deep_view() =~= nonempty_entries(entries.deep_view().take(i + 1)));
        }
        i = i + 1;
    }
    proof {
        assert(entries.deep_view().take(entries.len() as int) =~= entries.deep_view());
    }
    out
}

/// Splits a comma-separated extension list, trims white space and leading dots
/// from each entry, lower-cases it, and drops empty entries.
pub fn parse_extensions(input: &str) -> (res: Vec<String>)
    ensures
        res.deep_view() == parsed_extensions(input@),
{
    let entries = extension_entries(input);
    let mut lowered: Vec<String> = Vec::new();
    let mut i: usize = 0;
    while i < entries.len()
        invariant
            i <= entries.len(),
            lowered.deep_view() == lowercased_entries(entries.deep_view().take(i as int)),
        decreases entries.len() - i,
    {
        let n = to_lowercase(entries[i].as_str());
        proof {
            assert(entries.deep_view().take(i + 1).drop_last() =~= entries.deep_view().take(
                i as int,
            ));
            assert(entries.deep_view().take(i + 1).last() == entries@[i as int]@);
        }
        lowered.push(n);
        proof {
            assert(lowered.deep_view() =~= lowercased_entries(entries.deep_view().take(i + 1)));
        }
        i = i + 1;
    }
    proof {
        assert(entries.deep_view().take(entries.len() as int) =~= entries.deep_view());
    }
    keep_nonempty(&lowered)
}

/// Whether the extension of `path` is one of `exts`, ASCII case ignored.
pub open spec fn has_listed_extension(path: Seq<char>, exts: Seq<Seq<char>>) -> bool {
    match extension(path) {
        Some(e) => exists|i: int| 0 <= i < exts.len() && eq_ignore_ascii_case(#[trigger] exts[i], e),
        None => false,
    }
}

/// The paths of `files` whose extension is listed, in their order.
pub open spec fn listed_files(files: Seq<Seq<char>>, exts: Seq<Seq<char>>) -> Seq<Seq<char>> {
    files.filter(|p: Seq<char>| has_listed_extension(p, exts))
}

pub fn matches_extension(path: &str, extensions: &Vec<String>) -> (res: bool)
    ensures
        res == has_listed_extension(path@, extensions.deep_view()),
{
    let cs = chars_of(path);
    let ghost exts = extensions.deep_view();
    match extension_chars(&cs) {
        None => false,
        Some(e) => {
            let mut i: usize = 0;
            while i < extensions.len()
                invariant
                    i <= extensions.len(),
                    exts == extensions.deep_view(),
                    extension(path@) == Some(e@),
                    forall|j: int| 0 <= j < i ==> !eq_ignore_ascii_case(#[trigger] exts[j], e@),
                decreases extensions.len() - i,
            {
                let x = chars_of(extensions[i].as_str());
                if chars_eq_ignore_ascii_case(&x, &e) {
                    proof {
                        assert(exts[i as int] == x@);
                    }
                    return true;
                }
                proof {
                    assert(exts[i as int] == x@);
                }
                i = i + 1;
            }
            false
        },
    }
}

/// The walked paths (in the order given) whose extension is one that `opts` lists.
pub fn collect_files(opts: &BatchOptions, walked: &Vec<String>) -> (res: Vec<String>)
    ensures
        res.deep_view() == listed_files(walked.deep_view(), opts.extensions.deep_view()),
{
    let ghost exts = opts.extensions.deep_view();
    let ghost all = walked.deep_view();
    let mut out: Vec<String> = Vec::new();
    let mut i: usize = 0;
    proof {
        reveal(Seq::filter);
        assert(all.take(0) =~= seq![]);
        assert(out.deep_view() =~= all.take(0).filter(|p: Seq<char>| has_listed_extension(p, exts)));
    }
    while i < walked.len()
        invariant
            i <= walked.len(),
            all == walked.deep_view(),
            exts == opts.extensions.deep_view(),
            out.deep_view() == all.take(i as int).filter(
                |p: Seq<char>| has_listed_extension(p, exts),
            ),
        decreases walked.len() - i,
    {
        let ghost before = out.deep_view();
        proof {
            reveal(Seq::filter);
            assert(all.take(i + 1).drop_last() =~= all.take(i as int));
            assert(all.take(i + 1).last() == walked[i as int]@);
        }
        if matches_extension(walked[i].as_str(), &opts.extensions) {
            let p = string_of_str(walked[i].as_str());
            out.push(p);
            proof {
                assert(out.deep_view() =~= before.push(walked[i as int]@));
            }
        }
        i = i + 1;
    }
    proof {
        assert(all.take(walked.len() as int) =~= all);
    }
    out
}

fn string_of_str(s: &str) -> (res: String)
    ensures
        res@ == s@,
{
    String::from_str(s)
}

/// One file of a batch and where its result goes.
#[derive(Debug, Clone)]
pub struct PlannedFile {
    pub input: String,
    pub output: String,
}

/// The batch for the walked paths: every file with a listed extension, in
/// order, paired with its output path.
pub fn plan_batch(opts: &BatchOptions, walked: &Vec<String>) -> (res: Vec<PlannedFile>)
    ensures
        res.len() == listed_files(walked.deep_view(), opts.extensions.deep_view()).len(),
        forall|i: int|
            0 <= i < res.len() ==> {
                &&& (#[trigger] res[i]).input@ == listed_files(
                    walked.deep_view(),
                    opts.extensions.deep_view(),
                )[i]
                &&& res[i].output@ == planned_output(res[i].input@, opts.input_dir@, opts.output)
            },
{
    let files = collect_files(opts, walked);
    let mut out: Vec<PlannedFile> = Vec::new();
    let mut i: usize = 0;
    while i < files.len()
        invariant
            i <= files.len(),
            out.len() == i,
            forall|j: int|
                0 <= j < i ==> {
                    &&& (#[trigger] out[j]).input@ == files[j]@
                    &&& out[j].output@ == planned_output(out[j].input@, opts.input_dir@, opts.output)
                },
        decreases files.len() - i,
    {
        let output = output_path_for(files[i].as_str(), opts);
        let input = string_of_str(files[i].as_str());
        out.push(PlannedFile { input, output });
        i = i + 1;
    }
    proof {
        assert forall|j: int| 0 <= j < out.len() implies (#[trigger] out[j]).input@ == files.deep_view()[j] by {}
    }
    out
}

impl BatchOptions {
    /// Options from the settings a user gives: the input directory, an optional
    /// comma-separated extension list (the default list when absent), whether to
    /// recurse, and either in-place output or the sibling directory's name.
    pub fn from_settings(
        input_dir: String,
        ext: Option<&str>,
        recursive: bool,
        in_place: bool,
        out_dir: String,
    ) -> (res: BatchOptions)
        ensures
            res.input_dir@ == input_dir@,
            res.extensions.deep_view() == match ext {
                Some(e) => parsed_extensions(e@),
                None => default_extension_list(),
            },
            res.recursive == recursive,
            in_place ==> res.output is InPlace,
            !in_place ==> (res.output matches OutputMode::Sibling { dir_name } && dir_name@
                == out_dir@),
    {
        let extensions = match ext {
            Some(e) => parse_extensions(e),
            None => BatchOptions::default_extensions(),
        };
        let output = if in_place {
            OutputMode::InPlace
        } else {
            OutputMode::Sibling { dir_name: out_dir }
        };
        BatchOptions { input_dir, extensions, recursive, output }
    }
}

/// Outcome of a batch run.
#[derive(Debug, Clone)]
pub struct BatchSummary {
    pub total: usize,
    pub succeeded: usize,
    pub failed: usize,
    /// Each failed file with its error message, in batch order.
    pub errors: Vec<(String, String)>,
}

/// The failed entries of per-file results (path, error if any), in order.
pub open spec fn failures(rs: Seq<(String, Option<String>)>) -> Seq<(Seq<char>, Seq<char>)>
    decreases rs.len(),
{
    if rs.len() == 0 {
        seq![]
    } else {
        let prev = failures(rs.drop_last());
        match rs.last().1 {
            Some(e) => prev.push((rs.last().0@, e@)),
            None => prev,
        }
    }
}

/// How many per-file results carry no error.
pub open spec fn success_count(rs: Seq<(String, Option<String>)>) -> nat
    decreases rs.len(),
{
    if rs.len() == 0 {
        0
    } else {
        success_count(rs.drop_last()) + if rs.last().1 is None {
            1nat
        } else {
            0nat
        }
    }
}

/// The views of an error list.
pub open spec fn error_views(errors: Seq<(String, String)>) -> Seq<(Seq<char>, Seq<char>)> {
    Seq::new(errors.len(), |i: int| (errors[i].0@, errors[i].1@))
}

impl BatchSummary {
    /// Tallies per-file results, each a path with the error that processing it
    /// gave, if any.
    pub fn from_results(results: &Vec<(String, Option<String>)>) -> (res: BatchSummary)
        ensures
            res.total == results.len(),
            res.succeeded == success_count(results@),
            res.failed == failures(results@).len(),
            error_views(res.errors@) == failures(results@),
    {
        let mut succeeded: usize = 0;
        let mut failed: usize = 0;
        let mut errors: Vec<(String, String)> = Vec::new();
        let mut i: usize = 0;
        while i < results.len()
            invariant
                i <= results.len(),
                succeeded == success_count(results@.take(i as int)),
                failed == failures(results@.take(i as int)).len(),
                error_views(errors@) == failures(results@.take(i as int)),
                succeeded + failed == i,
            decreases results.len() - i,
        {
            proof {
                assert(results@.take(i + 1).drop_last() =~= results@.take(i as int));
                assert(results@.take(i + 1).last() == results@[i as int]);
            }
            match &results[i].1 {
                None => {
                    succeeded = succeeded + 1;
                },
                Some(e) => {
                    failed = failed + 1;
                    let p = string_of_str(results[i].0.as_str());
                    let m = string_of_str(e.as_str());
                    let ghost before = errors@;
                    errors.push((p, m));
                    proof {
                        assert(error_views(errors@) =~= error_views(before).push(
                            (results@[i as int].0@, e@),
                        ));
                    }
                },
            }
            i = i + 1;
        }
        proof {
            assert(results@.take(results.len() as int) =~= results@);
        }
        BatchSummary { total: results.len(), succeeded, failed, errors }
    }
}

/// Every file of a batch is counted once: as a success or as a failure.
pub proof fn lemma_summary_counts_every_file(rs: Seq<(String, Option<String>)>)
    ensures
        success_count(rs) + failures(rs).len() == rs.len(),
    decreases rs.len(),
{
    if rs.len() > 0 {
        lemma_summary_counts_every_file(rs.drop_last());
    }
}

/// No entry of a parsed extension list is empty.
pub proof fn lemma_parsed_extensions_nonempty(s: Seq<char>)
    ensures
        forall|i: int|
            0 <= i < parsed_extensions(s).len() ==> (#[trigger] parsed_extensions(s)[i]).len() > 0,
{
    lemma_nonempty_entries(lowercased_entries(trimmed_entries(split_commas(s))));
}

proof fn lemma_nonempty_entries(xs: Seq<Seq<char>>)
    ensures
        forall|i: int|
            0 <= i < nonempty_entries(xs).len() ==> (#[trigger] nonempty_entries(xs)[i]).len() > 0,
    decreases xs.len(),
{
    if xs.len() > 0 {
        let prev = nonempty_entries(xs.drop_last());
        lemma_nonempty_entries(xs.drop_last());
        let all = nonempty_entries(xs);
        assert forall|i: int| 0 <= i < all.len() implies (#[trigger] all[i]).len() > 0 by {
            if i < prev.len() {
                assert(all[i] == prev[i]);
            }
        }
    }
}

/// The pieces joined back with a comma between each two.
pub open spec fn comma_joined(ps: Seq<Seq<char>>) -> Seq<char>
    decreases ps.len(),
{
    if ps.len() == 0 {
        seq![]
    } else if ps.len() == 1 {
        ps[0]
    } else {
        comma_joined(ps.drop_last()) + seq![','] + ps.last()
    }
}

/// Splitting at commas loses nothing and cuts only at commas: no piece holds
/// a comma, and the pieces joined back with commas give the text again.
pub proof fn lemma_split_commas_rejoins(s: Seq<char>)
    ensures
        split_commas(s).len() >= 1,
        forall|i: int|
            0 <= i < split_commas(s).len() ==> !(#[trigger] split_commas(s)[i]).contains(','),
        comma_joined(split_commas(s)) == s,
    decreases s.len(),
{
    if s.len() > 0 {
        let s1 = s.drop_last();
        let c = s.last();
        lemma_split_commas_rejoins(s1);
        let prev = split_commas(s1);
        let all = split_commas(s);
        assert(s1.push(c) =~= s);
        if c == ',' {
            assert(all == prev.push(seq![]));
            assert(all.drop_last() =~= prev);
            assert forall|i: int| 0 <= i < all.len() implies !(#[trigger] all[i]).contains(',') by {
                if i < prev.len() {
                    assert(all[i] == prev[i]);
                } else {
                    assert(all[i] =~= Seq::<char>::empty());
                }
            }
            assert(comma_joined(prev) + seq![','] + Seq::<char>::empty() =~= s);
        } else {
            let x = prev.last().push(c);
            assert(all == prev.update(prev.len() - 1, x));
            assert forall|i: int| 0 <= i < all.len() implies !(#[trigger] all[i]).contains(',') by {
                if i < prev.len() - 1 {
                    assert(all[i] == prev[i]);
                } else {
                    assert(all[i] == x);
                    assert(!prev[prev.len() - 1].contains(','));
                    if x.contains(',') {
                        let j = choose|j: int| 0 <= j < x.len() && x[j] == ',';
                        if j < x.len() - 1 {
                            assert(prev.last()[j] == ',');
                        }
                    }
                }
            }
            if prev.len() == 1 {
                assert(comma_joined(all) == x);
                assert(comma_joined(prev) == prev[0]);
                assert(x =~= s);
            } else {
                assert(all.drop_last() =~= prev.drop_last());
                assert(comma_joined(all) == comma_joined(prev.drop_last()) + seq![','] + x);
                assert(comma_joined(prev.drop_last()) + seq![','] + x =~= (comma_joined(
                    prev.drop_last(),
                ) + seq![','] + prev.last()).push(c));
            }
        }
    }
}

/// Dropping empty entries keeps every other entry, in order: it is the
/// filter of `xs` by being non-empty.
pub proof fn lemma_nonempty_entries_is_filter(xs: Seq<Seq<char>>)
    ensures
        nonempty_entries(xs) == xs.filter(|x: Seq<char>| x.len() > 0),
    decreases xs.len(),
{
    reveal(Seq::filter);
    if xs.len() > 0 {
        lemma_nonempty_entries_is_filter(xs.drop_last());
    }
}

} // verus!
