use vstd::prelude::*;

use crate::model::{models_view, ModelInfo, ModelStatus, ModelView};
use crate::ollama::bare_row;
use crate::sorting::{lemma_stably_sorted_same_models, sort_models, stably_sorted, SortOrder};
use crate::text::{append_str, push_char, string_from};

verus! {

/// The provider name of LM Studio.
pub open spec fn lmstudio_text() -> Seq<char> {
    "lmstudio"@
}

/// A model directory of LM Studio, `<org>/<model>` under its models
/// directory, with its path and the total size of the files under it.
pub struct ModelDir {
    pub org: String,
    pub model: String,
    pub path: String,
    pub size_bytes: u64,
}

/// The model that an LM Studio directory holds, named `<org>/<model>`.
pub open spec fn model_dir_row(d: ModelDir) -> ModelView {
    ModelView {
        size_bytes: Some(d.size_bytes),
        path: Some(d.path@),
        ..bare_row(lmstudio_text(), d.org@ + seq!['/'] + d.model@, ModelStatus::Installed)
    }
}

/// The models that `dirs` hold, in their order.
pub open spec fn model_dir_rows(dirs: Seq<ModelDir>) -> Seq<ModelView> {
    dirs.map_values(|d: ModelDir| model_dir_row(d))
}

/// `m` lists the model directory `d`: named `<org>/<model>`, with its path
/// and its size.
pub open spec fn lists_dir(m: ModelView, d: ModelDir) -> bool {
    &&& m.name == d.org@ + seq!['/'] + d.model@
    &&& m.path == Some(d.path@)
    &&& m.size_bytes == Some(d.size_bytes)
}

/// Some model of `out` lists the directory `d`.
pub open spec fn dir_listed(out: Seq<ModelView>, d: ModelDir) -> bool {
    exists|i: int| 0 <= i < out.len() && lists_dir(#[trigger] out[i], d)
}

proof fn lemma_dir_listed(dirs: Seq<ModelDir>, out: Seq<ModelView>, q: int)
    requires
        stably_sorted(SortOrder::ByName, out, model_dir_rows(dirs)),
        0 <= q < dirs.len(),
    ensures
        dir_listed(out, dirs[q]),
{
    let rows = model_dir_rows(dirs);
    lemma_stably_sorted_same_models(SortOrder::ByName, out, rows);
    let m = model_dir_row(dirs[q]);
    assert(rows[q] == m);
    assert(rows.contains(m));
    assert(out.contains(m));
    let i = choose|i: int| 0 <= i < out.len() && out[i] == m;
    assert(lists_dir(out[i], dirs[q]));
}

/// LM Studio's directories are installed models only: each model listed is
/// an installed LM Studio model, not running (no process id, CPU share or
/// memory), that lists one of the directories; and each directory is listed.
pub proof fn lemma_lmstudio_models_are_installed(dirs: Seq<ModelDir>, out: Seq<ModelView>)
    requires
        stably_sorted(SortOrder::ByName, out, model_dir_rows(dirs)),
    ensures
        forall|i: int|
            #![trigger out[i]]
            0 <= i < out.len() ==> {
                &&& out[i].status == ModelStatus::Installed
                &&& out[i].provider == "lmstudio"@
                &&& out[i].pid is None
                &&& out[i].cpu_text is None
                &&& out[i].memory_bytes is None
                &&& out[i].size_text is None
                &&& exists|q: int| 0 <= q < dirs.len() && lists_dir(out[i], #[trigger] dirs[q])
            },
        forall|q: int|
            0 <= q < dirs.len() ==> #[trigger] dir_listed(out, dirs[q]),
{
    let rows = model_dir_rows(dirs);
    lemma_stably_sorted_same_models(SortOrder::ByName, out, rows);
    assert forall|i: int| #![trigger out[i]] 0 <= i < out.len() implies {
        &&& out[i].status == ModelStatus::Installed
        &&& out[i].provider == "lmstudio"@
        &&& out[i].pid is None
        &&& out[i].cpu_text is None
        &&& out[i].memory_bytes is None
        &&& out[i].size_text is None
        &&& exists|q: int| 0 <= q < dirs.len() && lists_dir(out[i], #[trigger] dirs[q])
    } by {
        assert(out.contains(out[i]));
        let q = choose|q: int| 0 <= q < rows.len() && rows[q] == out[i];
        assert(rows[q] == model_dir_row(dirs[q]));
        assert(lists_dir(out[i], dirs[q]));
    }
    assert forall|q: int| 0 <= q < dirs.len() implies #[trigger] dir_listed(out, dirs[q]) by {
        lemma_dir_listed(dirs, out, q);
    }
}

/// The installed models of LM Studio, sorted by name.
pub fn scan_lmstudio_models(dirs: Vec<ModelDir>) -> (models: Vec<ModelInfo>)
    ensures
        stably_sorted(SortOrder::ByName, models_view(models@), model_dir_rows(dirs@)),
{
    let ghost all = dirs@;
    let mut dirs = dirs;
    let mut rows: Vec<ModelInfo> = Vec::new();
    let mut i: usize = 0;
    let n = dirs.len();
    while i < n
        invariant
            n == all.len(),
            i <= n,
            dirs@ == all.skip(i as int),
            models_view(rows@) == model_dir_rows(all.take(i as int)),
        decreases n - i,
    {
        let d = dirs.remove(0);
        assert(d == all[i as int]);
        assert(dirs@ =~= all.skip(i + 1));
        let mut name = string_from(d.org.as_str());
        push_char(&mut name, '/');
        append_str(&mut name, d.model.as_str());
        assert(name@ =~= d.org@ + seq!['/'] + d.model@);
        let m = ModelInfo {
            provider: string_from("lmstudio"),
            name,
            status: ModelStatus::Installed,
            size_bytes: Some(d.size_bytes),
            size_text: None,
            pid: None,
            cpu_text: None,
            memory_bytes: None,
            path: Some(d.path),
        };
        assert(m@ == model_dir_row(all[i as int]));
        let ghost old_rows = models_view(rows@);
        rows.push(m);
        assert(models_view(rows@) =~= old_rows.push(m@));
        assert(model_dir_rows(all.take(i + 1)) =~= model_dir_rows(all.take(i as int)).push(
            model_dir_row(all[i as int]),
        ));
        i = i + 1;
    }
    assert(all.take(n as int) =~= all);
    sort_models(rows, SortOrder::ByName)
}

} // verus!
