use vstd::prelude::*;

use crate::model::{
    copy_text, models_view, processes_view, ModelInfo, ModelStatus, ModelView, ProcessInfo, ProcessView,
};
use crate::ollama::bare_row;
use crate::sorting::{lemma_stably_sorted_same_models, sort_models, stably_sorted, SortOrder};
use crate::text::{
    chars_of, chars_equal, contains_str, ends_with_str, has_sub, has_suffix, lowercase,
    split_words, string_from, string_of, to_lower, trim_both, trim_chars, trim_start, words_of,
};

verus! {

/// The provider name of llama.cpp.
pub open spec fn llamacpp_text() -> Seq<char> {
    "llama.cpp"@
}

/// A lower-cased command line that runs llama.cpp: it mentions `llama.cpp`,
/// `llama-server`, `llama-cli` or `/main `, or ends with `/main`.
pub open spec fn is_llamacpp_command(lower: Seq<char>) -> bool {
    ||| has_sub(lower, "llama.cpp"@)
    ||| has_sub(lower, "llama-server"@)
    ||| has_sub(lower, "llama-cli"@)
    ||| has_sub(lower, "/main "@)
    ||| has_suffix(lower, "/main"@)
}

/// Each of the five marks of llama.cpp is enough for a command line to run
/// it, and a line with none of them does not.
pub proof fn lemma_llamacpp_marks(lower: Seq<char>)
    ensures
        has_sub(lower, "llama-cli"@) ==> is_llamacpp_command(lower),
        has_sub(lower, "llama-server"@) ==> is_llamacpp_command(lower),
        has_sub(lower, "llama.cpp"@) ==> is_llamacpp_command(lower),
        has_sub(lower, "/main "@) ==> is_llamacpp_command(lower),
        has_suffix(lower, "/main"@) ==> is_llamacpp_command(lower),
        !has_sub(lower, "llama-cli"@) && !has_sub(lower, "llama-server"@) && !has_sub(
            lower,
            "llama.cpp"@,
        ) && !has_sub(lower, "/main "@) && !has_suffix(lower, "/main"@) ==> !is_llamacpp_command(
            lower,
        ),
{
}

/// Whether a lower-cased command line runs llama.cpp.
pub fn is_llamacpp_lowered(lower: &str) -> (b: bool)
    ensures
        b == is_llamacpp_command(lower@),
{
    let c = chars_of(lower);
    contains_str(&c, "llama.cpp") || contains_str(&c, "llama-server") || contains_str(
        &c,
        "llama-cli",
    ) || contains_str(&c, "/main ") || ends_with_str(&c, "/main")
}

/// Whether a command line runs llama.cpp, whatever its case.
pub fn is_llamacpp_process(command: &str) -> (b: bool)
    ensures
        b == is_llamacpp_command(lowercase(command@)),
{
    let lower = to_lower(command);
    is_llamacpp_lowered(lower.as_str())
}

/// The first of `words` that ends with `.gguf`, if any.
pub open spec fn first_gguf(words: Seq<Seq<char>>) -> Option<Seq<char>>
    decreases words.len(),
{
    if words.len() == 0 {
        None
    } else if has_suffix(words[0], ".gguf"@) {
        Some(words[0])
    } else {
        first_gguf(words.drop_first())
    }
}

/// The model file that a command line names: its first word that ends with
/// `.gguf`, without the double and then the single quotes around it.
pub open spec fn gguf_path(command: Seq<char>) -> Option<Seq<char>> {
    match first_gguf(words_of(command)) {
        Some(w) => Some(trim_both(trim_both(w, '"'), '\'')),
        None => None,
    }
}

/// The model file that a command line names, if any.
pub fn extract_gguf_path(command: &str) -> (path: Option<String>)
    ensures
        match gguf_path(command@) {
            Some(p) => path is Some && path.unwrap()@ == p,
            None => path is None,
        },
{
    let c = chars_of(command);
    let words = split_words(&c);
    let ghost w = words@.map_values(|v: Vec<char>| v@);
    let mut i: usize = 0;
    assert(w.skip(0) =~= w);
    while i < words.len()
        invariant
            i <= words@.len(),
            w == words@.map_values(|v: Vec<char>| v@),
            w == words_of(command@),
            first_gguf(w) == first_gguf(w.skip(i as int)),
        decreases words.len() - i,
    {
        assert(w[i as int] == words@[i as int]@);
        assert(w.skip(i as int)[0] == w[i as int]);
        if ends_with_str(&words[i], ".gguf") {
            let a = trim_chars(&words[i], '"');
            let b = trim_chars(&a, '\'');
            return Some(string_of(&b));
        }
        assert(w.skip(i as int).drop_first() =~= w.skip(i + 1));
        i = i + 1;
    }
    assert(w.skip(i as int) =~= Seq::<Seq<char>>::empty());
    None
}

/// The loaded model that a process runs, if it runs llama.cpp on a model
/// file; its size on disk is left to the caller.
pub open spec fn loaded_row(p: ProcessView) -> Option<ModelView> {
    if is_llamacpp_command(lowercase(p.command)) {
        match gguf_path(p.command) {
            Some(path) => Some(
                ModelView {
                    pid: Some(p.pid),
                    cpu_text: p.cpu_text,
                    memory_bytes: p.memory_bytes,
                    path: Some(path),
                    ..bare_row(llamacpp_text(), path, ModelStatus::Loaded)
                },
            ),
            None => None,
        }
    } else {
        None
    }
}

/// The loaded models that `processes` run, in their order.
pub open spec fn loaded_rows(processes: Seq<ProcessView>) -> Seq<ModelView>
    decreases processes.len(),
{
    if processes.len() == 0 {
        seq![]
    } else {
        match loaded_row(processes[0]) {
            Some(m) => seq![m] + loaded_rows(processes.drop_first()),
            None => loaded_rows(processes.drop_first()),
        }
    }
}

/// The models that llama.cpp processes have loaded. The size of each model
/// file is not read here: `size_bytes` is `None`, for the caller to fill.
pub fn detect_llamacpp_loaded(processes: &Vec<ProcessInfo>) -> (models: Vec<ModelInfo>)
    ensures
        models_view(models@) == loaded_rows(processes_view(processes@)),
{
    let ghost ps = processes_view(processes@);
    let mut models: Vec<ModelInfo> = Vec::new();
    let mut i: usize = 0;
    assert(ps.skip(0) =~= ps);
    assert(models_view(models@) + loaded_rows(ps) =~= loaded_rows(ps));
    while i < processes.len()
        invariant
            i <= processes@.len(),
            ps == processes_view(processes@),
            loaded_rows(ps) == models_view(models@) + loaded_rows(ps.skip(i as int)),
        decreases processes.len() - i,
    {
        let p = &processes[i];
        assert(ps[i as int] == p@);
        assert(ps.skip(i as int)[0] == ps[i as int]);
        assert(ps.skip(i as int).drop_first() =~= ps.skip(i + 1));
        let ghost old_models = models_view(models@);
        if is_llamacpp_process(p.command.as_str()) {
            match extract_gguf_path(p.command.as_str()) {
                Some(path) => {
                    let m = ModelInfo {
                        provider: string_from("llama.cpp"),
                        name: string_from(path.as_str()),
                        status: ModelStatus::Loaded,
                        size_bytes: None,
                        size_text: None,
                        pid: Some(p.pid),
                        cpu_text: copy_text(&p.cpu_text),
                        memory_bytes: p.memory_bytes,
                        path: Some(path),
                    };
                    models.push(m);
                    assert(models_view(models@) =~= old_models + seq![m@]);
                },
                None => {
                    assert(models_view(models@) =~= old_models);
                },
            }
        } else {
            assert(models_view(models@) =~= old_models);
        }
        i = i + 1;
    }
    assert(ps.skip(i as int) =~= Seq::<ProcessView>::empty());
    assert(models_view(models@) + Seq::<ModelView>::empty() =~= models_view(models@));
    models
}

pub proof fn lemma_trim_keeps_suffix(w: Seq<char>, t: Seq<char>, c: char)
    requires
        has_suffix(w, t),
        t.len() > 0,
        forall|k: int| 0 <= k < t.len() ==> t[k] != c,
    ensures
        has_suffix(trim_both(w, c), t),
{
    lemma_trim_start_keeps_suffix(w, t, c);
    let v = trim_start(w, c);
    assert(v.last() == v.skip(v.len() - t.len())[t.len() - 1]);
    assert(v.last() != c);
}

pub proof fn lemma_trim_start_keeps_suffix(w: Seq<char>, t: Seq<char>, c: char)
    requires
        has_suffix(w, t),
        t.len() > 0,
        forall|k: int| 0 <= k < t.len() ==> t[k] != c,
    ensures
        has_suffix(trim_start(w, c), t),
    decreases w.len(),
{
    if w.len() > 0 && w[0] == c {
        if w.len() == t.len() {
            assert(w.skip(0) =~= w);
            assert(t[0] == w[0]);
        }
        assert(w.drop_first().skip(w.drop_first().len() - t.len()) =~= w.skip(w.len() - t.len()));
        lemma_trim_start_keeps_suffix(w.drop_first(), t, c);
    }
}

pub proof fn lemma_first_gguf(words: Seq<Seq<char>>)
    ensures
        first_gguf(words) matches Some(w) ==> has_suffix(w, ".gguf"@),
    decreases words.len(),
{
    if words.len() > 0 {
        lemma_first_gguf(words.drop_first());
    }
}

/// Every model that llama.cpp is found to have loaded is a `.gguf` file
/// named by its path, shown as loaded by llama.cpp with the id of its
/// process.
pub proof fn lemma_loaded_models_are_gguf_files(processes: Seq<ProcessView>)
    ensures
        forall|i: int|
            0 <= i < loaded_rows(processes).len() ==> {
                let m = #[trigger] loaded_rows(processes)[i];
                &&& m.provider == llamacpp_text()
                &&& m.status == ModelStatus::Loaded
                &&& m.pid is Some
                &&& m.path == Some(m.name)
                &&& has_suffix(m.name, ".gguf"@)
            },
    decreases processes.len(),
{
    if processes.len() > 0 {
        lemma_loaded_models_are_gguf_files(processes.drop_first());
        let rows = loaded_rows(processes);
        let rest = loaded_rows(processes.drop_first());
        let p = processes[0];
        reveal_strlit(".gguf");
        let t = ".gguf"@;
        match loaded_row(p) {
            Some(m) => {
                let w = first_gguf(words_of(p.command)).unwrap();
                lemma_first_gguf(words_of(p.command));
                lemma_trim_keeps_suffix(w, t, '"');
                lemma_trim_keeps_suffix(trim_both(w, '"'), t, '\'');
                assert forall|i: int| 0 <= i < rows.len() implies {
                    let m = #[trigger] rows[i];
                    &&& m.provider == llamacpp_text()
                    &&& m.status == ModelStatus::Loaded
                    &&& m.pid is Some
                    &&& m.path == Some(m.name)
                    &&& has_suffix(m.name, ".gguf"@)
                } by {
                    if i > 0 {
                        assert(rows[i] == rest[i - 1]);
                    }
                }
            },
            None => {},
        }
    }
}

/// Detection goes process by process: on two lists joined, it gives the
/// models of the first, then those of the second.
pub proof fn lemma_detection_distributes(a: Seq<ProcessView>, b: Seq<ProcessView>)
    ensures
        loaded_rows(a + b) == loaded_rows(a) + loaded_rows(b),
    decreases a.len(),
{
    if a.len() == 0 {
        assert(a + b =~= b);
        assert(loaded_rows(a) + loaded_rows(b) =~= loaded_rows(b));
    } else {
        lemma_detection_distributes(a.drop_first(), b);
        assert((a + b).drop_first() =~= a.drop_first() + b);
        assert((a + b)[0] == a[0]);
        assert(loaded_rows(a + b) =~= loaded_rows(a) + loaded_rows(b));
    }
}

/// One process gives a loaded model exactly when it runs llama.cpp (in any
/// case) on a command line that names a model file; that model is the file
/// that `extract_gguf_path` finds, shown with the process's id, CPU share and
/// resident memory.
pub proof fn lemma_detection_of_one_process(p: ProcessView)
    ensures
        loaded_rows(seq![p]).len() <= 1,
        loaded_rows(seq![p]).len() == 1 <==> is_llamacpp_command(lowercase(p.command))
            && gguf_path(p.command) is Some,
        loaded_rows(seq![p]).len() == 1 ==> {
            let m = loaded_rows(seq![p])[0];
            &&& m.provider == "llama.cpp"@
            &&& m.status == ModelStatus::Loaded
            &&& Some(m.name) == gguf_path(p.command)
            &&& m.path == Some(m.name)
            &&& m.pid == Some(p.pid)
            &&& m.cpu_text == p.cpu_text
            &&& m.memory_bytes == p.memory_bytes
            &&& m.size_bytes is None
            &&& m.size_text is None
        },
{
    let s = seq![p];
    assert(s[0] == p);
    assert(s.drop_first() =~= Seq::<ProcessView>::empty());
    assert(loaded_rows(Seq::<ProcessView>::empty()) =~= Seq::<ModelView>::empty());
}

/// `m` is a model that `p` runs, shown with the process's id, CPU share and
/// resident memory.
pub open spec fn shows_process(m: ModelView, p: ProcessView) -> bool {
    &&& is_llamacpp_command(lowercase(p.command))
    &&& Some(m.name) == gguf_path(p.command)
    &&& m.pid == Some(p.pid)
    &&& m.cpu_text == p.cpu_text
    &&& m.memory_bytes == p.memory_bytes
}

/// Every detected model comes from one of the processes, and shows that
/// process's id, CPU share and resident memory.
pub proof fn lemma_detected_models_show_their_process(processes: Seq<ProcessView>)
    ensures
        forall|i: int|
            #![trigger loaded_rows(processes)[i]]
            0 <= i < loaded_rows(processes).len() ==> exists|q: int|
                0 <= q < processes.len() && shows_process(
                    loaded_rows(processes)[i],
                    #[trigger] processes[q],
                ),
    decreases processes.len(),
{
    if processes.len() > 0 {
        let rest = processes.drop_first();
        lemma_detected_models_show_their_process(rest);
        let rows = loaded_rows(processes);
        let rest_rows = loaded_rows(rest);
        let p = processes[0];
        assert forall|i: int| #![trigger rows[i]] 0 <= i < rows.len() implies exists|q: int|
            0 <= q < processes.len() && shows_process(rows[i], #[trigger] processes[q]) by {
            let r = if loaded_row(p) is Some {
                i - 1
            } else {
                i
            };
            if loaded_row(p) is Some && i == 0 {
                assert(shows_process(rows[0], processes[0]));
            } else {
                assert(rows[i] == rest_rows[r]);
                assert(0 <= r < rest_rows.len());
                let q = choose|q: int| 0 <= q < rest.len() && shows_process(rest_rows[r], #[trigger] rest[q]);
                assert(processes[q + 1] == rest[q]);
            }
        }
    }
}

// ---------------------------------------------------------------------------
// Model files on disk
// ---------------------------------------------------------------------------

/// A file found under a model directory: its whole path, its file name and
/// its size on disk, when that could be read.
pub struct GgufCandidate {
    pub path: String,
    pub file_name: String,
    pub size_bytes: Option<u64>,
}

/// The index of the last `.` in `s`, if any.
pub open spec fn last_dot(s: Seq<char>) -> Option<int>
    decreases s.len(),
{
    if s.len() == 0 {
        None
    } else if s.last() == '.' {
        Some(s.len() - 1)
    } else {
        last_dot(s.drop_last())
    }
}

/// The extension of a file name, as `Path::extension` gives it: what follows
/// its last `.`, unless that `.` starts the name or there is none.
pub open spec fn extension(name: Seq<char>) -> Option<Seq<char>> {
    match last_dot(name) {
        Some(i) => if i > 0 {
            Some(name.skip(i + 1))
        } else {
            None
        },
        None => None,
    }
}

/// The model that a file is, if its extension is `gguf`.
pub open spec fn gguf_file_row(f: GgufCandidate) -> Option<ModelView> {
    if extension(f.file_name@) == Some("gguf"@) {
        Some(
            ModelView {
                size_bytes: f.size_bytes,
                path: Some(f.path@),
                ..bare_row(llamacpp_text(), f.path@, ModelStatus::Installed)
            },
        )
    } else {
        None
    }
}

/// The models among `files`, in their order.
pub open spec fn gguf_file_rows(files: Seq<GgufCandidate>) -> Seq<ModelView>
    decreases files.len(),
{
    if files.len() == 0 {
        seq![]
    } else {
        match gguf_file_row(files[0]) {
            Some(m) => seq![m] + gguf_file_rows(files.drop_first()),
            None => gguf_file_rows(files.drop_first()),
        }
    }
}

/// `m` lists the model file `f`: named by its path, with its size.
pub open spec fn lists_file(m: ModelView, f: GgufCandidate) -> bool {
    &&& extension(f.file_name@) == Some("gguf"@)
    &&& m.name == f.path@
    &&& m.path == Some(f.path@)
    &&& m.size_bytes == f.size_bytes
}

pub proof fn lemma_gguf_file_rows_members(files: Seq<GgufCandidate>)
    ensures
        forall|m: ModelView|
            #[trigger] gguf_file_rows(files).contains(m) ==> exists|q: int|
                0 <= q < files.len() && gguf_file_row(#[trigger] files[q]) == Some(m),
        forall|q: int|
            0 <= q < files.len() && extension((#[trigger] files[q]).file_name@) == Some("gguf"@)
                ==> gguf_file_rows(files).contains(gguf_file_row(files[q]).unwrap()),
    decreases files.len(),
{
    if files.len() > 0 {
        let rest = files.drop_first();
        lemma_gguf_file_rows_members(rest);
        let rows = gguf_file_rows(files);
        let rest_rows = gguf_file_rows(rest);
        let head = gguf_file_row(files[0]);
        assert(head is Some ==> rows =~= seq![head.unwrap()] + rest_rows);
        assert(head is None ==> rows == rest_rows);
        assert forall|m: ModelView| #[trigger] rows.contains(m) implies exists|q: int|
            0 <= q < files.len() && gguf_file_row(#[trigger] files[q]) == Some(m) by {
            let i = choose|i: int| 0 <= i < rows.len() && rows[i] == m;
            if head is Some && i == 0 {
                assert(gguf_file_row(files[0]) == Some(m));
            } else {
                let r = if head is Some {
                    i - 1
                } else {
                    i
                };
                assert(rest_rows[r] == m);
                assert(rest_rows.contains(m));
                let q = choose|q: int| 0 <= q < rest.len() && gguf_file_row(#[trigger] rest[q]) == Some(m);
                assert(files[q + 1] == rest[q]);
            }
        }
        assert forall|q: int|
            0 <= q < files.len() && extension((#[trigger] files[q]).file_name@) == Some("gguf"@)
                implies rows.contains(gguf_file_row(files[q]).unwrap()) by {
            if q == 0 {
                assert(rows[0] == head.unwrap());
            } else {
                assert(files[q] == rest[q - 1]);
                let m = gguf_file_row(files[q]).unwrap();
                assert(rest_rows.contains(m));
                let i = choose|i: int| 0 <= i < rest_rows.len() && rest_rows[i] == m;
                if head is Some {
                    assert(rows[i + 1] == m);
                } else {
                    assert(rows[i] == m);
                }
            }
        }
    }
}

/// Scanning the model directories finds installed models only: each model
/// it gives is an installed llama.cpp model, not running (no process id, CPU
/// share or memory), that lists one of the files with the extension `gguf`;
/// and each such file is listed.
pub proof fn lemma_scanned_files_are_installed_models(
    files: Seq<GgufCandidate>,
    out: Seq<ModelView>,
)
    requires
        stably_sorted(SortOrder::ByName, out, gguf_file_rows(files)),
    ensures
        forall|i: int|
            #![trigger out[i]]
            0 <= i < out.len() ==> {
                &&& out[i].status == ModelStatus::Installed
                &&& out[i].provider == "llama.cpp"@
                &&& out[i].pid is None
                &&& out[i].cpu_text is None
                &&& out[i].memory_bytes is None
                &&& out[i].size_text is None
                &&& exists|q: int| 0 <= q < files.len() && lists_file(out[i], #[trigger] files[q])
            },
        forall|q: int|
            0 <= q < files.len() && extension((#[trigger] files[q]).file_name@) == Some("gguf"@)
                ==> exists|i: int| 0 <= i < out.len() && lists_file(#[trigger] out[i], files[q]),
{
    lemma_stably_sorted_same_models(SortOrder::ByName, out, gguf_file_rows(files));
    lemma_gguf_file_rows_members(files);
    assert forall|i: int| #![trigger out[i]] 0 <= i < out.len() implies {
        &&& out[i].status == ModelStatus::Installed
        &&& out[i].provider == "llama.cpp"@
        &&& out[i].pid is None
        &&& out[i].cpu_text is None
        &&& out[i].memory_bytes is None
        &&& out[i].size_text is None
        &&& exists|q: int| 0 <= q < files.len() && lists_file(out[i], #[trigger] files[q])
    } by {
        assert(out.contains(out[i]));
        assert(gguf_file_rows(files).contains(out[i]));
        let q = choose|q: int| 0 <= q < files.len() && gguf_file_row(#[trigger] files[q]) == Some(out[i]);
        assert(lists_file(out[i], files[q]));
    }
    assert forall|q: int|
        0 <= q < files.len() && extension((#[trigger] files[q]).file_name@) == Some("gguf"@)
            implies exists|i: int| 0 <= i < out.len() && lists_file(#[trigger] out[i], files[q]) by {
        let m = gguf_file_row(files[q]).unwrap();
        assert(out.contains(m));
        let i = choose|i: int| 0 <= i < out.len() && out[i] == m;
        assert(lists_file(out[i], files[q]));
    }
}

/// Whether a file name has the extension `gguf`.
pub fn has_gguf_extension(name: &str) -> (b: bool)
    ensures
        b == (extension(name@) == Some("gguf"@)),
{
    let c = chars_of(name);
    let n = c.len();
    let mut i = n;
    assert(c@.take(n as int) =~= c@);
    while i > 0 && c[i - 1] != '.'
        invariant
            i <= n == c@.len(),
            last_dot(c@) == last_dot(c@.take(i as int)),
        decreases i,
    {
        assert(c@.take(i as int).drop_last() =~= c@.take(i - 1));
        i = i - 1;
    }
    if i <= 1 {
        // No dot, or only one that starts the name.
        return false;
    }
    assert(last_dot(c@) == Some(i - 1));
    let ext = crate::text::sub_chars(&c, i, n);
    assert(ext@ =~= c@.skip(i as int));
    let gguf = chars_of("gguf");
    chars_equal(&ext, &gguf)
}

/// The llama.cpp model files among `files`, sorted by path.
pub fn scan_llamacpp_files(files: Vec<GgufCandidate>) -> (models: Vec<ModelInfo>)
    ensures
        stably_sorted(SortOrder::ByName, models_view(models@), gguf_file_rows(files@)),
{
    let ghost all = files@;
    let mut files = files;
    let mut rows: Vec<ModelInfo> = Vec::new();
    assert(all.skip(0) =~= all);
    assert(models_view(rows@) + gguf_file_rows(all) =~= gguf_file_rows(all));
    let mut i: usize = 0;
    let n = files.len();
    while i < n
        invariant
            n == all.len(),
            i <= n,
            files@ == all.skip(i as int),
            gguf_file_rows(all) == models_view(rows@) + gguf_file_rows(all.skip(i as int)),
        decreases n - i,
    {
        let ghost rest = files@;
        let f = files.remove(0);
        assert(f == all[i as int]);
        assert(files@ =~= all.skip(i + 1));
        assert(rest.drop_first() =~= files@);
        let ghost old_rows = models_view(rows@);
        if has_gguf_extension(f.file_name.as_str()) {
            let m = ModelInfo {
                provider: string_from("llama.cpp"),
                name: string_from(f.path.as_str()),
                status: ModelStatus::Installed,
                size_bytes: f.size_bytes,
                size_text: None,
                pid: None,
                cpu_text: None,
                memory_bytes: None,
                path: Some(f.path),
            };
            rows.push(m);
            assert(models_view(rows@) =~= old_rows + seq![m@]);
        } else {
            assert(models_view(rows@) =~= old_rows);
        }
        i = i + 1;
    }
    assert(all.skip(n as int) =~= Seq::<GgufCandidate>::empty());
    assert(models_view(rows@) + Seq::<ModelView>::empty() =~= models_view(rows@));
    sort_models(rows, SortOrder::ByName)
}

} // verus!
