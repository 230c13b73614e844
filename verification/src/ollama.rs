use vstd::prelude::*;

use crate::model::{models_view, opt_text, ModelInfo, ModelStatus, ModelView};
use crate::sorting::{sort_models, stably_sorted, SortOrder};
use crate::text::{
    append_chars, chars_of, chars_equal, is_word, join, lemma_find_char_found, lemma_lines_of_append, lemma_words_are_words, lines_of, push_char,
    split_lines, split_words, string_from, string_of, words_of,
};

verus! {

/// The provider name of Ollama.
pub open spec fn ollama_text() -> Seq<char> {
    "ollama"@
}

/// A model row with only a provider, a name and a status filled in.
pub open spec fn bare_row(provider: Seq<char>, name: Seq<char>, status: ModelStatus) -> ModelView {
    ModelView {
        provider,
        name,
        status,
        size_bytes: None,
        size_text: None,
        pid: None,
        cpu_text: None,
        memory_bytes: None,
        path: None,
    }
}

// ---------------------------------------------------------------------------
// `ollama list` and `ollama ps`
// ---------------------------------------------------------------------------

/// The model that a line of `ollama list` or `ollama ps` names: a line of
/// at least four words gives its first word as the name and its third and
/// fourth words, joined by a space, as the size.
pub open spec fn listing_row(line: Seq<char>, status: ModelStatus) -> Option<ModelView> {
    let w = words_of(line);
    if w.len() >= 4 {
        Some(
            ModelView {
                size_text: Some(w[2] + seq![' '] + w[3]),
                ..bare_row(ollama_text(), w[0], status)
            },
        )
    } else {
        None
    }
}

/// The models that `lines` name, in order.
pub open spec fn listing_rows(lines: Seq<Seq<char>>, status: ModelStatus) -> Seq<ModelView>
    decreases lines.len(),
{
    if lines.len() == 0 {
        seq![]
    } else {
        match listing_row(lines[0], status) {
            Some(m) => seq![m] + listing_rows(lines.drop_first(), status),
            None => listing_rows(lines.drop_first(), status),
        }
    }
}

/// The models of a table that `ollama` printed: every line after the header
/// that names one.
pub open spec fn listing(text: Seq<char>, status: ModelStatus) -> Seq<ModelView> {
    let ls = lines_of(text);
    if ls.len() == 0 {
        seq![]
    } else {
        listing_rows(ls.drop_first(), status)
    }
}

fn ollama_string() -> (s: String)
    ensures
        s@ == ollama_text(),
{
    string_from("ollama")
}

fn parse_listing(output: &str, status: ModelStatus) -> (models: Vec<ModelInfo>)
    ensures
        models_view(models@) == listing(output@, status),
{
    let text = chars_of(output);
    let lines = split_lines(&text);
    let ghost ls = lines@.map_values(|l: Vec<char>| l@);
    let mut models: Vec<ModelInfo> = Vec::new();
    if lines.len() == 0 {
        assert(models_view(models@) =~= Seq::<ModelView>::empty());
        return models;
    }
    let mut i: usize = 1;
    assert(ls.skip(1) =~= ls.drop_first());
    assert(models_view(models@) + listing_rows(ls.skip(1), status) =~= listing_rows(
        ls.skip(1),
        status,
    ));
    while i < lines.len()
        invariant
            1 <= i <= lines@.len(),
            ls == lines@.map_values(|l: Vec<char>| l@),
            ls == lines_of(output@),
            listing_rows(ls.drop_first(), status) == models_view(models@) + listing_rows(
                ls.skip(i as int),
                status,
            ),
        decreases lines.len() - i,
    {
        let words = split_words(&lines[i]);
        let ghost w = words@.map_values(|v: Vec<char>| v@);
        let ghost old_models = models_view(models@);
        assert(ls[i as int] == lines@[i as int]@);
        assert(ls.skip(i as int)[0] == ls[i as int]);
        assert(ls.skip(i as int).drop_first() =~= ls.skip(i + 1));
        if words.len() >= 4 {
            let mut size = string_of(&words[2]);
            push_char(&mut size, ' ');
            append_chars(&mut size, &words[3], 0, words[3].len());
            assert(words[3]@.subrange(0, words[3]@.len() as int) =~= words[3]@);
            assert(w[0] == words@[0]@ && w[2] == words@[2]@ && w[3] == words@[3]@);
            assert(w == words_of(ls[i as int]));
            assert(size@ =~= w[2] + seq![' '] + w[3]);
            let m = ModelInfo {
                provider: ollama_string(),
                name: string_of(&words[0]),
                status,
                size_bytes: None,
                size_text: Some(size),
                pid: None,
                cpu_text: None,
                memory_bytes: None,
                path: None,
            };
            models.push(m);
            assert(models_view(models@) =~= old_models + seq![m@]);
            assert(m@ == listing_row(ls[i as int], status).unwrap());
        } else {
            assert(models_view(models@) =~= old_models);
        }
        i = i + 1;
    }
    assert(ls.skip(lines.len() as int) =~= Seq::<Seq<char>>::empty());
    assert(models_view(models@) + Seq::<ModelView>::empty() =~= models_view(models@));
    models
}

/// The installed models that `ollama list` printed.
pub fn parse_ollama_list(output: &str) -> (models: Vec<ModelInfo>)
    ensures
        models_view(models@) == listing(output@, ModelStatus::Installed),
{
    parse_listing(output, ModelStatus::Installed)
}

/// The loaded models that `ollama ps` printed.
pub fn parse_ollama_ps(output: &str) -> (models: Vec<ModelInfo>)
    ensures
        models_view(models@) == listing(output@, ModelStatus::Loaded),
{
    parse_listing(output, ModelStatus::Loaded)
}

/// The installed models that `ollama list` printed, when it exited with
/// success and named at least one; `None` otherwise, for the caller to fall
/// back on the manifest files. Nothing is read when it did not succeed.
pub fn listed_models(exit_ok: bool, stdout: &str) -> (r: Option<Vec<ModelInfo>>)
    ensures
        r is Some <==> exit_ok && listing(stdout@, ModelStatus::Installed).len() > 0,
        r matches Some(models) ==> models_view(models@) == listing(
            stdout@,
            ModelStatus::Installed,
        ),
{
    if !exit_ok {
        return None;
    }
    let models = parse_ollama_list(stdout);
    assert(models_view(models@).len() == models@.len());
    if models.len() == 0 {
        None
    } else {
        Some(models)
    }
}

/// `listing_rows` under one status is `listing_rows` under another with the
/// status replaced.
pub proof fn lemma_listing_rows_status(lines: Seq<Seq<char>>, a: ModelStatus, b: ModelStatus)
    ensures
        listing_rows(lines, b).len() == listing_rows(lines, a).len(),
        forall|i: int|
            0 <= i < listing_rows(lines, a).len() ==> #[trigger] listing_rows(lines, b)[i]
                == (ModelView { status: b, ..listing_rows(lines, a)[i] }),
    decreases lines.len(),
{
    if lines.len() > 0 {
        lemma_listing_rows_status(lines.drop_first(), a, b);
    }
}

/// `ollama ps` and `ollama list` read a table the same way: on the same
/// text, `parse_ollama_ps` gives the models that `parse_ollama_list` gives, in
/// the same order, marked as loaded in place of installed.
pub proof fn lemma_ps_reads_like_list(text: Seq<char>)
    ensures
        listing(text, ModelStatus::Loaded).len() == listing(text, ModelStatus::Installed).len(),
        forall|i: int|
            0 <= i < listing(text, ModelStatus::Installed).len() ==> #[trigger] listing(
                text,
                ModelStatus::Loaded,
            )[i] == (ModelView {
                status: ModelStatus::Loaded,
                ..listing(text, ModelStatus::Installed)[i]
            }),
{
    let ls = lines_of(text);
    if ls.len() > 0 {
        lemma_listing_rows_status(ls.drop_first(), ModelStatus::Installed, ModelStatus::Loaded);
    }
}

/// The first line of an `ollama` table is its header: whatever it says, it
/// is never read as a model, and the models are those of the lines after it.
pub proof fn lemma_header_line_is_skipped(header: Seq<char>, body: Seq<char>, status: ModelStatus)
    requires
        forall|k: int| 0 <= k < header.len() ==> header[k] != '\n',
    ensures
        listing(header + seq!['\n'] + body, status) == listing_rows(lines_of(body), status),
{
    let s = header + seq!['\n'] + body;
    assert(s[header.len() as int] == '\n');
    assert forall|k: int| 0 <= k < header.len() implies s[k] != '\n' by {
        assert(s[k] == header[k]);
    }
    lemma_find_char_found(s, '\n', header.len() as int);
    assert(s.take(header.len() as int) =~= header);
    assert(s.skip(header.len() as int + 1) =~= body);
    assert(lines_of(s).drop_first() =~= lines_of(body));
}

pub proof fn lemma_listing_rows_append(x: Seq<Seq<char>>, y: Seq<Seq<char>>, status: ModelStatus)
    ensures
        listing_rows(x + y, status) == listing_rows(x, status) + listing_rows(y, status),
    decreases x.len(),
{
    if x.len() == 0 {
        assert(x + y =~= y);
        assert(listing_rows(x, status) + listing_rows(y, status) =~= listing_rows(y, status));
    } else {
        lemma_listing_rows_append(x.drop_first(), y, status);
        assert((x + y).drop_first() =~= x.drop_first() + y);
        assert((x + y)[0] == x[0]);
        assert(listing_rows(x + y, status) =~= listing_rows(x, status) + listing_rows(y, status));
    }
}

/// Tables under one header read line by line: the models of a header
/// followed by two blocks of whole lines are the models of the header with
/// the first block, then those of the header with the second.
pub proof fn lemma_table_blocks_read_in_turn(
    header: Seq<char>,
    a: Seq<char>,
    b: Seq<char>,
    status: ModelStatus,
)
    requires
        forall|k: int| 0 <= k < header.len() ==> header[k] != '\n',
        a.len() == 0 || a.last() == '\n',
    ensures
        listing(header + seq!['\n'] + a + b, status) == listing(header + seq!['\n'] + a, status)
            + listing(header + seq!['\n'] + b, status),
{
    assert(header + seq!['\n'] + a + b =~= header + seq!['\n'] + (a + b));
    lemma_header_line_is_skipped(header, a + b, status);
    lemma_header_line_is_skipped(header, a, status);
    lemma_header_line_is_skipped(header, b, status);
    lemma_lines_of_append(a, b);
    lemma_listing_rows_append(lines_of(a), lines_of(b), status);
}

pub proof fn lemma_listing_rows_shape(lines: Seq<Seq<char>>, status: ModelStatus)
    ensures
        forall|i: int|
            0 <= i < listing_rows(lines, status).len() ==> {
                let m = #[trigger] listing_rows(lines, status)[i];
                &&& m.provider == ollama_text()
                &&& m.status == status
                &&& is_word(m.name)
                &&& m.size_text is Some
            },
    decreases lines.len(),
{
    if lines.len() > 0 {
        lemma_listing_rows_shape(lines.drop_first(), status);
        lemma_words_are_words(lines[0]);
        let rows = listing_rows(lines, status);
        let rest = listing_rows(lines.drop_first(), status);
        match listing_row(lines[0], status) {
            Some(m) => {
                assert forall|i: int| 0 <= i < rows.len() implies {
                    let m = #[trigger] rows[i];
                    &&& m.provider == ollama_text()
                    &&& m.status == status
                    &&& is_word(m.name)
                    &&& m.size_text is Some
                } by {
                    if i > 0 {
                        assert(rows[i] == rest[i - 1]);
                    } else {
                        assert(rows[0] == m);
                        assert(m.name == words_of(lines[0])[0]);
                    }
                }
            },
            None => {},
        }
    }
}

/// Every model read from an `ollama` table is an Ollama model with the
/// status asked for, a size as written, and a name that is one word: not
/// empty and free of white space.
pub proof fn lemma_listing_models_are_ollama(text: Seq<char>, status: ModelStatus)
    ensures
        forall|i: int|
            0 <= i < listing(text, status).len() ==> {
                let m = #[trigger] listing(text, status)[i];
                &&& m.provider == ollama_text()
                &&& m.status == status
                &&& is_word(m.name)
                &&& m.size_text is Some
            },
{
    let ls = lines_of(text);
    if ls.len() > 0 {
        lemma_listing_rows_shape(ls.drop_first(), status);
    }
}

/// `m` is what a line of an `ollama` table says: its first word is the name
/// and its third and fourth words, joined by a space, the size.
pub open spec fn reads_table_line(m: ModelView, line: Seq<char>) -> bool {
    let w = words_of(line);
    &&& w.len() >= 4
    &&& m.name == w[0]
    &&& m.size_text == Some(w[2] + seq![' '] + w[3])
    &&& m.size_bytes is None
    &&& m.pid is None
    &&& m.cpu_text is None
    &&& m.memory_bytes is None
    &&& m.path is None
}

pub proof fn lemma_listing_rows_lines(lines: Seq<Seq<char>>, status: ModelStatus)
    ensures
        forall|i: int|
            #![trigger listing_rows(lines, status)[i]]
            0 <= i < listing_rows(lines, status).len() ==> exists|q: int|
                0 <= q < lines.len() && reads_table_line(
                    listing_rows(lines, status)[i],
                    #[trigger] lines[q],
                ),
        forall|q: int|
            #![trigger lines[q]]
            0 <= q < lines.len() && words_of(lines[q]).len() >= 4 ==> exists|i: int|
                0 <= i < listing_rows(lines, status).len() && reads_table_line(
                    #[trigger] listing_rows(lines, status)[i],
                    lines[q],
                ),
    decreases lines.len(),
{
    if lines.len() > 0 {
        let rest = lines.drop_first();
        lemma_listing_rows_lines(rest, status);
        let rows = listing_rows(lines, status);
        let rest_rows = listing_rows(rest, status);
        let head = listing_row(lines[0], status);
        assert forall|i: int| #![trigger rows[i]] 0 <= i < rows.len() implies exists|q: int|
            0 <= q < lines.len() && reads_table_line(rows[i], #[trigger] lines[q]) by {
            let r = if head is Some {
                i - 1
            } else {
                i
            };
            if head is Some && i == 0 {
                assert(reads_table_line(rows[0], lines[0]));
            } else {
                assert(rows[i] == rest_rows[r]);
                let q = choose|q: int|
                    0 <= q < rest.len() && reads_table_line(rest_rows[r], #[trigger] rest[q]);
                assert(lines[q + 1] == rest[q]);
            }
        }
        assert forall|q: int|
            #![trigger lines[q]]
            0 <= q < lines.len() && words_of(lines[q]).len() >= 4 implies exists|i: int|
                0 <= i < rows.len() && reads_table_line(#[trigger] rows[i], lines[q]) by {
            if q == 0 {
                assert(reads_table_line(rows[0], lines[0]));
            } else {
                assert(lines[q] == rest[q - 1]);
                let i = choose|i: int|
                    0 <= i < rest_rows.len() && reads_table_line(#[trigger] rest_rows[i], rest[q - 1]);
                if head is Some {
                    assert(rows[i + 1] == rest_rows[i]);
                } else {
                    assert(rows[i] == rest_rows[i]);
                }
            }
        }
    }
}

/// Each model of an `ollama` table is read from one line after the header,
/// and each line after the header with at least four words gives a model:
/// its name the line's first word, its size the third and fourth words
/// joined by a space.
pub proof fn lemma_table_models_come_from_lines(text: Seq<char>, status: ModelStatus)
    ensures
        lines_of(text).len() > 0 ==> {
            let body = lines_of(text).drop_first();
            &&& forall|i: int|
                #![trigger listing(text, status)[i]]
                0 <= i < listing(text, status).len() ==> exists|q: int|
                    0 <= q < body.len() && reads_table_line(
                        listing(text, status)[i],
                        #[trigger] body[q],
                    )
            &&& forall|q: int|
                #![trigger body[q]]
                0 <= q < body.len() && words_of(body[q]).len() >= 4 ==> exists|i: int|
                    0 <= i < listing(text, status).len() && reads_table_line(
                        #[trigger] listing(text, status)[i],
                        body[q],
                    )
        },
        lines_of(text).len() == 0 ==> listing(text, status).len() == 0,
{
    if lines_of(text).len() > 0 {
        let body = lines_of(text).drop_first();
        let rows = listing(text, status);
        lemma_listing_rows_lines(body, status);
        assert(rows == listing_rows(body, status));
        assert forall|i: int| #![trigger rows[i]] 0 <= i < rows.len() implies exists|q: int|
            0 <= q < body.len() && reads_table_line(rows[i], #[trigger] body[q]) by {
            assert(rows[i] == listing_rows(body, status)[i]);
        }
        assert forall|q: int|
            #![trigger body[q]]
            0 <= q < body.len() && words_of(body[q]).len() >= 4 implies exists|i: int|
                0 <= i < rows.len() && reads_table_line(#[trigger] rows[i], body[q]) by {
            assert(body[q] == body[q]);
        }
    }
}

// ---------------------------------------------------------------------------
// Manifest files
// ---------------------------------------------------------------------------

/// A file under Ollama's manifest directory: the components of its path
/// below that directory, and its whole path.
pub struct ManifestFile {
    pub components: Vec<String>,
    pub path: String,
}

/// The namespace of Ollama's own library of models.
pub open spec fn library_namespace() -> Seq<char> {
    "registry.ollama.ai/library"@
}

/// The model name that a manifest path gives: `.../namespace/model/tag`
/// names `model:tag` in Ollama's own library and `namespace/model:tag`
/// elsewhere; a path of fewer than four components names none.
pub open spec fn manifest_name(parts: Seq<Seq<char>>) -> Option<Seq<char>> {
    if parts.len() < 4 {
        None
    } else {
        let tag = parts.last();
        let model = parts[parts.len() - 2];
        let namespace = join(parts.take(parts.len() - 2), '/');
        if namespace == library_namespace() {
            Some(model + seq![':'] + tag)
        } else {
            Some(namespace + seq!['/'] + model + seq![':'] + tag)
        }
    }
}

/// The model that a manifest file names, if any.
pub open spec fn manifest_row(parts: Seq<Seq<char>>, path: Seq<char>) -> Option<ModelView> {
    match manifest_name(parts) {
        Some(name) => Some(
            ModelView { path: Some(path), ..bare_row(ollama_text(), name, ModelStatus::Installed) },
        ),
        None => None,
    }
}

pub open spec fn components_view(c: Seq<String>) -> Seq<Seq<char>> {
    c.map_values(|s: String| s@)
}

/// The models that `files` name, in the order of the files.
pub open spec fn manifest_rows(files: Seq<ManifestFile>) -> Seq<ModelView>
    decreases files.len(),
{
    if files.len() == 0 {
        seq![]
    } else {
        match manifest_row(components_view(files[0].components@), files[0].path@) {
            Some(m) => seq![m] + manifest_rows(files.drop_first()),
            None => manifest_rows(files.drop_first()),
        }
    }
}

/// `parts[..count]` joined by `/`.
fn join_components(parts: &Vec<String>, count: usize) -> (s: String)
    requires
        count <= parts@.len(),
    ensures
        s@ == join(components_view(parts@).take(count as int), '/'),
{
    let ghost cv = components_view(parts@);
    let mut s = String::new();
    let mut i: usize = 0;
    assert(cv.take(0) =~= Seq::<Seq<char>>::empty());
    while i < count
        invariant
            i <= count <= parts@.len(),
            cv == components_view(parts@),
            s@ == join(cv.take(i as int), '/'),
        decreases count - i,
    {
        if i > 0 {
            push_char(&mut s, '/');
        }
        let part = chars_of(parts[i].as_str());
        append_chars(&mut s, &part, 0, part.len());
        assert(part@.subrange(0, part@.len() as int) =~= part@);
        assert(cv[i as int] == parts@[i as int]@);
        assert(cv.take(i + 1).drop_last() =~= cv.take(i as int));
        if i == 0 {
            assert(s@ =~= cv[0]);
        } else {
            assert(s@ =~= join(cv.take(i as int), '/') + seq!['/'] + cv[i as int]);
        }
        i = i + 1;
    }
    s
}

/// The model name that a manifest path gives, if any.
pub fn manifest_model_name(parts: &Vec<String>) -> (name: Option<String>)
    ensures
        opt_text(name) == manifest_name(components_view(parts@)),
{
    let ghost cv = components_view(parts@);
    let n = parts.len();
    if n < 4 {
        return None;
    }
    let tag = chars_of(parts[n - 1].as_str());
    let model = chars_of(parts[n - 2].as_str());
    assert(tag@ == cv.last() && model@ == cv[n - 2]);
    let namespace = join_components(parts, n - 2);
    let ns_chars = chars_of(namespace.as_str());
    let library = chars_of("registry.ollama.ai/library");
    let mut name = String::new();
    if !chars_equal(&ns_chars, &library) {
        append_chars(&mut name, &ns_chars, 0, ns_chars.len());
        push_char(&mut name, '/');
    }
    append_chars(&mut name, &model, 0, model.len());
    push_char(&mut name, ':');
    append_chars(&mut name, &tag, 0, tag.len());
    assert(ns_chars@.subrange(0, ns_chars@.len() as int) =~= ns_chars@);
    assert(model@.subrange(0, model@.len() as int) =~= model@);
    assert(tag@.subrange(0, tag@.len() as int) =~= tag@);
    assert(name@ =~= manifest_name(cv).unwrap());
    Some(name)
}

pub proof fn lemma_manifest_rows_members(files: Seq<ManifestFile>)
    ensures
        forall|m: ModelView|
            #[trigger] manifest_rows(files).contains(m) ==> exists|q: int|
                0 <= q < files.len() && manifest_row(
                    components_view((#[trigger] files[q]).components@),
                    files[q].path@,
                ) == Some(m),
    decreases files.len(),
{
    if files.len() > 0 {
        let rest = files.drop_first();
        lemma_manifest_rows_members(rest);
        let rows = manifest_rows(files);
        let rest_rows = manifest_rows(rest);
        let head = manifest_row(components_view(files[0].components@), files[0].path@);
        assert forall|m: ModelView| #[trigger] rows.contains(m) implies exists|q: int|
            0 <= q < files.len() && manifest_row(
                components_view((#[trigger] files[q]).components@),
                files[q].path@,
            ) == Some(m) by {
            let i = choose|i: int| 0 <= i < rows.len() && rows[i] == m;
            if head is Some && i == 0 {
                assert(rows[0] == head.unwrap());
            } else {
                let r = if head is Some {
                    i - 1
                } else {
                    i
                };
                assert(rows[i] == rest_rows[r]);
                assert(rest_rows.contains(m));
                let q = choose|q: int|
                    0 <= q < rest.len() && manifest_row(
                        components_view((#[trigger] rest[q]).components@),
                        rest[q].path@,
                    ) == Some(m);
                assert(files[q + 1] == rest[q]);
            }
        }
    }
}

/// The manifest files give installed Ollama models only: each is named as
/// `manifest_model_name` names the path of one of the files, and carries
/// that file's path and nothing of a running process.
pub proof fn lemma_manifest_models_are_installed(files: Seq<ManifestFile>, out: Seq<ModelView>)
    requires
        stably_sorted(SortOrder::ByName, out, manifest_rows(files)),
    ensures
        forall|i: int|
            #![trigger out[i]]
            0 <= i < out.len() ==> {
                &&& out[i].status == ModelStatus::Installed
                &&& out[i].provider == "ollama"@
                &&& out[i].pid is None
                &&& out[i].cpu_text is None
                &&& out[i].memory_bytes is None
                &&& out[i].size_bytes is None
                &&& out[i].size_text is None
                &&& exists|q: int|
                    0 <= q < files.len() && Some(out[i].name) == manifest_name(
                        components_view((#[trigger] files[q]).components@),
                    ) && out[i].path == Some(files[q].path@)
            },
{
    crate::sorting::lemma_stably_sorted_same_models(SortOrder::ByName, out, manifest_rows(files));
    lemma_manifest_rows_members(files);
    assert forall|i: int| #![trigger out[i]] 0 <= i < out.len() implies {
        &&& out[i].status == ModelStatus::Installed
        &&& out[i].provider == "ollama"@
        &&& out[i].pid is None
        &&& out[i].cpu_text is None
        &&& out[i].memory_bytes is None
        &&& out[i].size_bytes is None
        &&& out[i].size_text is None
        &&& exists|q: int|
            0 <= q < files.len() && Some(out[i].name) == manifest_name(
                components_view((#[trigger] files[q]).components@),
            ) && out[i].path == Some(files[q].path@)
    } by {
        assert(out.contains(out[i]));
        assert(manifest_rows(files).contains(out[i]));
        let q = choose|q: int|
            0 <= q < files.len() && manifest_row(
                components_view((#[trigger] files[q]).components@),
                files[q].path@,
            ) == Some(out[i]);
    }
}

/// The installed models that Ollama's manifest files name, sorted by name.
pub fn ollama_models_from_manifests(files: Vec<ManifestFile>) -> (models: Vec<ModelInfo>)
    ensures
        stably_sorted(SortOrder::ByName, models_view(models@), manifest_rows(files@)),
{
    let ghost all = files@;
    let mut files = files;
    let mut rows: Vec<ModelInfo> = Vec::new();
    assert(all.skip(0) =~= all);
    assert(models_view(rows@) + manifest_rows(all) =~= manifest_rows(all));
    let mut i: usize = 0;
    let n = files.len();
    while i < n
        invariant
            n == all.len(),
            i <= n,
            files@ == all.skip(i as int),
            manifest_rows(all) == models_view(rows@) + manifest_rows(all.skip(i as int)),
        decreases n - i,
    {
        let ghost rest = files@;
        let file = files.remove(0);
        assert(file == all[i as int]);
        assert(files@ =~= all.skip(i + 1));
        assert(rest.drop_first() =~= files@);
        let ghost old_rows = models_view(rows@);
        match manifest_model_name(&file.components) {
            Some(name) => {
                let m = ModelInfo {
                    provider: ollama_string(),
                    name,
                    status: ModelStatus::Installed,
                    size_bytes: None,
                    size_text: None,
                    pid: None,
                    cpu_text: None,
                    memory_bytes: None,
                    path: Some(file.path),
                };
                rows.push(m);
                assert(models_view(rows@) =~= old_rows + seq![m@]);
            },
            None => {
                assert(models_view(rows@) =~= old_rows);
            },
        }
        i = i + 1;
    }
    assert(all.skip(n as int) =~= Seq::<ManifestFile>::empty());
    assert(models_view(rows@) + Seq::<ModelView>::empty() =~= models_view(rows@));
    sort_models(rows, SortOrder::ByName)
}

} // verus!
