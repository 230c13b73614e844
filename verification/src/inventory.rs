use vstd::prelude::*;

use crate::model::{
    dash, memory_label_text, models_view, size_label_text, status_text,
    ModelInfo, ModelStatus, ModelView,
};
use crate::numbers::{decimal, push_decimal};
use crate::text::{append_chars, append_str, chars_of, has_suffix, push_char, string_from, text_eq};

verus! {

// ---------------------------------------------------------------------------
// Removal commands
// ---------------------------------------------------------------------------

/// The shell command that removes `model` of `provider`, or the error for a
/// provider that is not known.
pub open spec fn remove_text(provider: Seq<char>, model: Seq<char>) -> Result<
    Seq<char>,
    Seq<char>,
> {
    if provider == "ollama"@ {
        Ok("ollama rm "@ + model)
    } else if provider == "lmstudio"@ {
        Ok("lms unload "@ + model + " && rm -rf ~/.lmstudio/models/"@ + model)
    } else if provider == "llama.cpp"@ || provider == "llamacpp"@ {
        Ok("rm "@ + model)
    } else {
        Err("unknown provider: "@ + provider)
    }
}

/// A result of strings taken as characters.
pub open spec fn result_text(r: Result<String, String>) -> Result<Seq<char>, Seq<char>> {
    match r {
        Ok(s) => Ok(s@),
        Err(e) => Err(e@),
    }
}

/// The shell command that would remove `model` of `provider`; nothing is
/// removed here.
pub fn remove_command(provider: &str, model: &str) -> (r: Result<String, String>)
    ensures
        result_text(r) == remove_text(provider@, model@),
{
    if text_eq(provider, "ollama") {
        let mut s = string_from("ollama rm ");
        append_str(&mut s, model);
        Ok(s)
    } else if text_eq(provider, "lmstudio") {
        let mut s = string_from("lms unload ");
        append_str(&mut s, model);
        append_str(&mut s, " && rm -rf ~/.lmstudio/models/");
        append_str(&mut s, model);
        Ok(s)
    } else if text_eq(provider, "llama.cpp") || text_eq(provider, "llamacpp") {
        let mut s = string_from("rm ");
        append_str(&mut s, model);
        Ok(s)
    } else {
        let mut s = string_from("unknown provider: ");
        append_str(&mut s, provider);
        Err(s)
    }
}

/// Removal only prints: the four known provider names, and only they, get a
/// command, and that command ends with the model it removes; any other
/// provider gets an error that names it.
pub proof fn lemma_remove_known_providers(provider: Seq<char>, model: Seq<char>)
    ensures
        (remove_text(provider, model) is Ok) <==> (provider == "ollama"@ || provider
            == "lmstudio"@ || provider == "llama.cpp"@ || provider == "llamacpp"@),
        remove_text(provider, model) matches Ok(cmd) ==> has_suffix(cmd, model),
        remove_text(provider, model) matches Err(e) ==> e == "unknown provider: "@ + provider,
{
    let a = "ollama rm "@ + model;
    let b = "lms unload "@ + model + " && rm -rf ~/.lmstudio/models/"@ + model;
    let c = "rm "@ + model;
    assert(a.skip(a.len() - model.len()) =~= model);
    assert(b.skip(b.len() - model.len()) =~= model);
    assert(c.skip(c.len() - model.len()) =~= model);
}

/// What a request to remove a model answers: the error for a missing
/// provider or model, else what `remove_command` gives.
pub open spec fn remove_request_text(provider: Option<Seq<char>>, model: Option<Seq<char>>) -> Result<
    Seq<char>,
    Seq<char>,
> {
    match (provider, model) {
        (None, _) => Err("missing provider"@),
        (Some(_), None) => Err("missing model"@),
        (Some(p), Some(m)) => remove_text(p, m),
    }
}

/// The answer to a request to remove a model, given as the words that
/// follow `remove` on the command line.
pub fn remove_request(provider: Option<String>, model: Option<String>) -> (r: Result<
    String,
    String,
>)
    ensures
        result_text(r) == remove_request_text(
            crate::model::opt_text(provider),
            crate::model::opt_text(model),
        ),
{
    match provider {
        None => Err(string_from("missing provider")),
        Some(p) => match model {
            None => Err(string_from("missing model")),
            Some(m) => remove_command(p.as_str(), m.as_str()),
        },
    }
}

// ---------------------------------------------------------------------------
// Installed models with running ones
// ---------------------------------------------------------------------------

/// The index of the first model of `models` with this provider and name.
pub open spec fn find_model(models: Seq<ModelView>, provider: Seq<char>, name: Seq<char>) -> Option<
    int,
>
    decreases models.len(),
{
    if models.len() == 0 {
        None
    } else if models[0].provider == provider && models[0].name == name {
        Some(0)
    } else {
        match find_model(models.drop_first(), provider, name) {
            Some(i) => Some(i + 1),
            None => None,
        }
    }
}

pub proof fn lemma_find_model_found(
    models: Seq<ModelView>,
    provider: Seq<char>,
    name: Seq<char>,
    i: int,
)
    requires
        0 <= i < models.len(),
        models[i].provider == provider && models[i].name == name,
        forall|k: int|
            0 <= k < i ==> !(#[trigger] models[k].provider == provider && models[k].name == name),
    ensures
        find_model(models, provider, name) == Some(i),
    decreases models.len(),
{
    if i > 0 {
        assert(!(models[0].provider == provider && models[0].name == name));
        lemma_find_model_found(models.drop_first(), provider, name, i - 1);
    }
}

pub proof fn lemma_find_model_absent(models: Seq<ModelView>, provider: Seq<char>, name: Seq<char>)
    requires
        forall|k: int|
            0 <= k < models.len() ==> !(#[trigger] models[k].provider == provider && models[k].name
                == name),
    ensures
        find_model(models, provider, name) is None,
    decreases models.len(),
{
    if models.len() > 0 {
        assert(!(models[0].provider == provider && models[0].name == name));
        lemma_find_model_absent(models.drop_first(), provider, name);
    }
}

/// A model marked as loaded by a running one: it takes the running model's
/// process id, CPU share and memory.
pub open spec fn marked_loaded(m: ModelView, loaded: ModelView) -> ModelView {
    ModelView {
        status: ModelStatus::Loaded,
        pid: loaded.pid,
        cpu_text: loaded.cpu_text,
        memory_bytes: loaded.memory_bytes,
        ..m
    }
}

/// `models` with one running model taken in: the first model of the same
/// provider and name is marked as loaded, or, when there is none, the running
/// model is added at the end.
pub open spec fn merge_one(models: Seq<ModelView>, loaded: ModelView) -> Seq<ModelView> {
    match find_model(models, loaded.provider, loaded.name) {
        Some(j) => models.update(j, marked_loaded(models[j], loaded)),
        None => models.push(loaded),
    }
}

/// `models` with each of `running` taken in, in order.
pub open spec fn merge_all(models: Seq<ModelView>, running: Seq<ModelView>) -> Seq<ModelView>
    decreases running.len(),
{
    if running.len() == 0 {
        models
    } else {
        merge_all(merge_one(models, running[0]), running.drop_first())
    }
}

/// `b` is the model `a`, its status and figures of a running process aside.
pub open spec fn same_entry(a: ModelView, b: ModelView) -> bool {
    &&& a.provider == b.provider
    &&& a.name == b.name
    &&& a.size_bytes == b.size_bytes
    &&& a.size_text == b.size_text
    &&& a.path == b.path
}

pub proof fn lemma_merge_one_keeps(models: Seq<ModelView>, loaded: ModelView)
    ensures
        merge_one(models, loaded).len() >= models.len(),
        forall|i: int|
            0 <= i < models.len() ==> same_entry(
                #[trigger] merge_one(models, loaded)[i],
                models[i],
            ),
        exists|j: int|
            0 <= j < merge_one(models, loaded).len() && (#[trigger] merge_one(
                models,
                loaded,
            )[j]).provider == loaded.provider && merge_one(models, loaded)[j].name == loaded.name,
{
    let r = merge_one(models, loaded);
    match find_model(models, loaded.provider, loaded.name) {
        Some(j) => {
            lemma_find_model_bounds(models, loaded.provider, loaded.name);
            assert(r[j].provider == loaded.provider && r[j].name == loaded.name);
        },
        None => {
            assert(r[models.len() as int] == loaded);
        },
    }
}

pub proof fn lemma_find_model_bounds(models: Seq<ModelView>, provider: Seq<char>, name: Seq<char>)
    ensures
        find_model(models, provider, name) matches Some(j) ==> 0 <= j < models.len()
            && models[j].provider == provider && models[j].name == name && forall|k: int|
            0 <= k < j ==> !(#[trigger] models[k].provider == provider && models[k].name == name),
    decreases models.len(),
{
    if models.len() > 0 {
        lemma_find_model_bounds(models.drop_first(), provider, name);
        if let Some(j) = find_model(models, provider, name) {
            assert forall|k: int| 0 <= k < j implies !(#[trigger] models[k].provider == provider
                && models[k].name == name) by {
                if k > 0 {
                    assert(models[k] == models.drop_first()[k - 1]);
                }
            }
        }
    }
}

/// Taking in running models loses no installed one, nor any running one:
/// each installed model keeps its place, name, size and path, and each
/// running model's provider and name are in the result.
pub proof fn lemma_merge_keeps_every_model(models: Seq<ModelView>, running: Seq<ModelView>)
    ensures
        merge_all(models, running).len() >= models.len(),
        forall|i: int|
            0 <= i < models.len() ==> same_entry(#[trigger] merge_all(models, running)[i], models[i]),
        forall|k: int|
            0 <= k < running.len() ==> exists|j: int|
                0 <= j < merge_all(models, running).len() && (#[trigger] merge_all(
                    models,
                    running,
                )[j]).provider == (#[trigger] running[k]).provider && merge_all(models, running)[j].name
                    == running[k].name,
    decreases running.len(),
{
    if running.len() > 0 {
        let m1 = merge_one(models, running[0]);
        let rest = running.drop_first();
        lemma_merge_one_keeps(models, running[0]);
        lemma_merge_keeps_every_model(m1, rest);
        let r = merge_all(models, running);
        assert(r == merge_all(m1, rest));
        assert forall|k: int| 0 <= k < running.len() implies exists|j: int|
            0 <= j < r.len() && (#[trigger] r[j]).provider == (#[trigger] running[k]).provider
                && r[j].name == running[k].name by {
            if k == 0 {
                let j = choose|j: int|
                    0 <= j < m1.len() && (#[trigger] m1[j]).provider == running[0].provider
                        && m1[j].name == running[0].name;
                assert(same_entry(r[j], m1[j]));
            } else {
                assert(running[k] == rest[k - 1]);
            }
        }
    }
}

/// `a` and `b` are the same model of the same provider.
pub open spec fn same_name(a: ModelView, b: ModelView) -> bool {
    a.provider == b.provider && a.name == b.name
}

/// No model before `models[j]` has its provider and name.
pub open spec fn first_of_name(models: Seq<ModelView>, j: int) -> bool {
    forall|i: int| 0 <= i < j ==> !same_name(#[trigger] models[i], models[j])
}

pub proof fn lemma_merge_one_at(models: Seq<ModelView>, r: ModelView, j: int)
    requires
        0 <= j < models.len(),
    ensures
        merge_one(models, r).len() >= models.len(),
        same_name(r, models[j]) && first_of_name(models, j) ==> merge_one(models, r)[j] == (
        ModelView {
            status: ModelStatus::Loaded,
            pid: r.pid,
            cpu_text: r.cpu_text,
            memory_bytes: r.memory_bytes,
            ..models[j]
        }),
        !(same_name(r, models[j]) && first_of_name(models, j)) ==> merge_one(models, r)[j]
            == models[j],
        forall|i: int| 0 <= i < models.len() ==> same_name(#[trigger] merge_one(models, r)[i], models[i]),
{
    lemma_find_model_bounds(models, r.provider, r.name);
    lemma_merge_one_keeps(models, r);
    if same_name(r, models[j]) && first_of_name(models, j) {
        assert forall|k: int| 0 <= k < j implies !(#[trigger] models[k].provider == r.provider
            && models[k].name == r.name) by {
            assert(!same_name(models[k], models[j]));
        }
        lemma_find_model_found(models, r.provider, r.name, j);
    } else {
        match find_model(models, r.provider, r.name) {
            Some(i) => {
                if i == j {
                    assert(same_name(r, models[j]));
                    assert forall|k: int| 0 <= k < j implies !same_name(
                        #[trigger] models[k],
                        models[j],
                    ) by {
                        assert(!(models[k].provider == r.provider && models[k].name == r.name));
                    }
                }
            },
            None => {},
        }
    }
    assert forall|i: int| 0 <= i < models.len() implies same_name(
        #[trigger] merge_one(models, r)[i],
        models[i],
    ) by {
        assert(same_entry(merge_one(models, r)[i], models[i]));
    }
}

pub proof fn lemma_first_of_name_kept(models: Seq<ModelView>, r: ModelView, j: int)
    requires
        0 <= j < models.len(),
        first_of_name(models, j),
    ensures
        first_of_name(merge_one(models, r), j),
        same_name(merge_one(models, r)[j], models[j]),
{
    lemma_merge_one_at(models, r, j);
    let m1 = merge_one(models, r);
    assert forall|i: int| 0 <= i < j implies !same_name(#[trigger] m1[i], m1[j]) by {
        assert(same_name(m1[i], models[i]));
        assert(!same_name(models[i], models[j]));
    }
}

/// A model that no running model names is left as it is by the merge.
pub proof fn lemma_merge_leaves_unnamed_model(
    models: Seq<ModelView>,
    running: Seq<ModelView>,
    j: int,
)
    requires
        0 <= j < models.len(),
        forall|k: int| 0 <= k < running.len() ==> !same_name(#[trigger] running[k], models[j]),
    ensures
        merge_all(models, running)[j] == models[j],
    decreases running.len(),
{
    if running.len() > 0 {
        lemma_merge_one_at(models, running[0], j);
        let rest = running.drop_first();
        assert forall|k: int| 0 <= k < rest.len() implies !same_name(
            #[trigger] rest[k],
            merge_one(models, running[0])[j],
        ) by {
            assert(rest[k] == running[k + 1]);
        }
        lemma_merge_leaves_unnamed_model(merge_one(models, running[0]), rest, j);
    }
}

/// Once marked as loaded, a model stays loaded through the merge.
pub proof fn lemma_merge_keeps_loaded(models: Seq<ModelView>, running: Seq<ModelView>, j: int)
    requires
        0 <= j < models.len(),
        models[j].status == ModelStatus::Loaded,
        first_of_name(models, j),
    ensures
        merge_all(models, running)[j].status == ModelStatus::Loaded,
    decreases running.len(),
{
    if running.len() > 0 {
        lemma_merge_one_at(models, running[0], j);
        lemma_first_of_name_kept(models, running[0], j);
        lemma_merge_keeps_loaded(merge_one(models, running[0]), running.drop_first(), j);
    }
}

/// A running model marks the installed model of the same provider and name
/// as loaded, whether or not it carries a process id: `llmctl list` shows
/// every installed model that runs as loaded. (Where the same name is
/// installed twice, the first one is marked.)
pub proof fn lemma_running_model_marks_installed_loaded(
    installed: Seq<ModelView>,
    running: Seq<ModelView>,
    j: int,
    k: int,
)
    requires
        0 <= j < installed.len(),
        0 <= k < running.len(),
        same_name(running[k], installed[j]),
        first_of_name(installed, j),
    ensures
        merge_all(installed, running)[j].status == ModelStatus::Loaded,
        merge_all(installed, running)[j].provider == installed[j].provider,
        merge_all(installed, running)[j].name == installed[j].name,
    decreases k,
{
    lemma_merge_keeps_every_model(installed, running);
    lemma_merge_one_at(installed, running[0], j);
    lemma_first_of_name_kept(installed, running[0], j);
    let m1 = merge_one(installed, running[0]);
    let rest = running.drop_first();
    if k == 0 {
        lemma_merge_keeps_loaded(m1, rest, j);
    } else {
        assert(rest[k - 1] == running[k]);
        lemma_running_model_marks_installed_loaded(m1, rest, j, k - 1);
    }
    assert(same_entry(merge_all(installed, running)[j], installed[j]));
}

/// A marked model shows the process figures of the last running model of
/// its provider and name: its process id, CPU share and memory, each as that
/// running model has it (none where it has none).
pub proof fn lemma_running_model_figures_shown(
    installed: Seq<ModelView>,
    running: Seq<ModelView>,
    j: int,
    k: int,
)
    requires
        0 <= j < installed.len(),
        0 <= k < running.len(),
        same_name(running[k], installed[j]),
        first_of_name(installed, j),
        forall|l: int| k < l < running.len() ==> !same_name(#[trigger] running[l], installed[j]),
    ensures
        merge_all(installed, running)[j].status == ModelStatus::Loaded,
        merge_all(installed, running)[j].pid == running[k].pid,
        merge_all(installed, running)[j].cpu_text == running[k].cpu_text,
        merge_all(installed, running)[j].memory_bytes == running[k].memory_bytes,
        same_entry(merge_all(installed, running)[j], installed[j]),
    decreases k,
{
    lemma_merge_keeps_every_model(installed, running);
    lemma_merge_one_at(installed, running[0], j);
    lemma_first_of_name_kept(installed, running[0], j);
    let m1 = merge_one(installed, running[0]);
    let rest = running.drop_first();
    if k == 0 {
        assert forall|l: int| 0 <= l < rest.len() implies !same_name(#[trigger] rest[l], m1[j]) by {
            assert(rest[l] == running[l + 1]);
        }
        lemma_merge_leaves_unnamed_model(m1, rest, j);
    } else {
        assert(rest[k - 1] == running[k]);
        assert forall|l: int| k - 1 < l < rest.len() implies !same_name(#[trigger] rest[l], m1[j]) by {
            assert(rest[l] == running[l + 1]);
        }
        lemma_running_model_figures_shown(m1, rest, j, k - 1);
    }
}

/// Whether two models have the same provider and name.
fn same_model(a: &ModelInfo, b: &ModelInfo) -> (r: bool)
    ensures
        r == (a@.provider == b@.provider && a@.name == b@.name),
{
    text_eq(a.provider.as_str(), b.provider.as_str()) && text_eq(a.name.as_str(), b.name.as_str())
}

/// The installed models with the running ones taken in: an installed model
/// that runs is marked as loaded, a running model that is not installed is
/// added.
pub fn merge_running(installed: Vec<ModelInfo>, running: Vec<ModelInfo>) -> (models: Vec<
    ModelInfo,
>)
    ensures
        models_view(models@) == merge_all(models_view(installed@), models_view(running@)),
{
    let ghost all = models_view(running@);
    let mut models = installed;
    let mut running = running;
    let n = running.len();
    let mut i: usize = 0;
    assert(all.skip(0) =~= all);
    while i < n
        invariant
            n == all.len(),
            i <= n,
            models_view(running@) == all.skip(i as int),
            merge_all(models_view(installed@), all) == merge_all(
                models_view(models@),
                all.skip(i as int),
            ),
        decreases n - i,
    {
        let ghost rest = running@;
        assert(rest.len() == models_view(rest).len());
        let loaded = running.remove(0);
        assert(loaded@ == all[i as int]) by {
            assert(all.skip(i as int)[0] == all[i as int]);
            assert(models_view(rest)[0] == rest[0]@);
        }
        assert forall|j: int| 0 <= j < running@.len() implies #[trigger] models_view(running@)[j]
            == all.skip(i + 1)[j] by {
            assert(running@[j] == rest[j + 1]);
            assert(models_view(rest)[j + 1] == rest[j + 1]@);
            assert(all.skip(i as int)[j + 1] == all.skip(i + 1)[j]);
        }
        assert(models_view(running@) =~= all.skip(i + 1));
        assert(all.skip(i as int).drop_first() =~= all.skip(i + 1));
        let ghost before = models_view(models@);
        let mut j: usize = 0;
        while j < models.len() && !same_model(&models[j], &loaded)
            invariant
                j <= models@.len(),
                before == models_view(models@),
                forall|k: int|
                    0 <= k < j ==> !(#[trigger] before[k].provider == loaded@.provider
                        && before[k].name == loaded@.name),
            decreases models.len() - j,
        {
            j = j + 1;
        }
        if j < models.len() {
            proof {
                lemma_find_model_found(before, loaded@.provider, loaded@.name, j as int);
            }
            let old = models.remove(j);
            assert(old@ == before[j as int]);
            let updated = ModelInfo {
                status: ModelStatus::Loaded,
                pid: loaded.pid,
                cpu_text: loaded.cpu_text,
                memory_bytes: loaded.memory_bytes,
                ..old
            };
            models.insert(j, updated);
            assert(models_view(models@) =~= before.update(
                j as int,
                marked_loaded(before[j as int], loaded@),
            ));
        } else {
            proof {
                lemma_find_model_absent(before, loaded@.provider, loaded@.name);
            }
            models.push(loaded);
            assert(models_view(models@) =~= before.push(all[i as int]));
        }
        i = i + 1;
    }
    assert(all.skip(n as int) =~= Seq::<ModelView>::empty());
    models
}

// ---------------------------------------------------------------------------
// Storage
// ---------------------------------------------------------------------------

/// The total of the sizes that `models` know.
pub open spec fn total_size(models: Seq<ModelView>) -> nat
    decreases models.len(),
{
    if models.len() == 0 {
        0
    } else {
        total_size(models.drop_last()) + match models.last().size_bytes {
            Some(b) => b as nat,
            None => 0,
        }
    }
}

/// The total of the sizes that `models` know, or `None` where it does not
/// fit in a `u64`.
pub fn total_storage(models: &Vec<ModelInfo>) -> (total: Option<u64>)
    ensures
        match total {
            Some(t) => t == total_size(models_view(models@)),
            None => total_size(models_view(models@)) > u64::MAX,
        },
{
    let ghost all = models_view(models@);
    let mut t: u64 = 0;
    let mut i: usize = 0;
    while i < models.len()
        invariant
            i <= models@.len(),
            all == models_view(models@),
            t == total_size(all.take(i as int)),
        decreases models.len() - i,
    {
        assert(all.take(i + 1).drop_last() =~= all.take(i as int));
        assert(all[i as int] == models@[i as int]@);
        let add: u64 = match models[i].size_bytes {
            Some(b) => b,
            None => 0,
        };
        if t > u64::MAX - add {
            proof {
                lemma_total_size_monotone(all, i + 1);
            }
            return None;
        }
        t = t + add;
        i = i + 1;
    }
    assert(all.take(models@.len() as int) =~= all);
    Some(t)
}

pub proof fn lemma_total_size_monotone(s: Seq<ModelView>, i: int)
    requires
        0 <= i <= s.len(),
    ensures
        total_size(s.take(i)) <= total_size(s),
    decreases s.len() - i,
{
    if i < s.len() {
        lemma_total_size_monotone(s, i + 1);
        assert(s.take(i + 1).drop_last() =~= s.take(i));
    } else {
        assert(s.take(i) =~= s);
    }
}

/// The total of `sizes`, or `None` where it does not fit in a `u64`.
pub fn sum_sizes(sizes: &Vec<u64>) -> (total: Option<u64>)
    ensures
        match total {
            Some(t) => t == sizes_total(sizes@),
            None => sizes_total(sizes@) > u64::MAX,
        },
{
    let mut t: u64 = 0;
    let mut i: usize = 0;
    while i < sizes.len()
        invariant
            i <= sizes@.len(),
            t == sizes_total(sizes@.take(i as int)),
        decreases sizes.len() - i,
    {
        assert(sizes@.take(i + 1).drop_last() =~= sizes@.take(i as int));
        if t > u64::MAX - sizes[i] {
            proof {
                lemma_sizes_total_monotone(sizes@, i + 1);
            }
            return None;
        }
        t = t + sizes[i];
        i = i + 1;
    }
    assert(sizes@.take(sizes@.len() as int) =~= sizes@);
    Some(t)
}

/// The sum of `sizes`.
pub open spec fn sizes_total(sizes: Seq<u64>) -> nat
    decreases sizes.len(),
{
    if sizes.len() == 0 {
        0
    } else {
        sizes_total(sizes.drop_last()) + sizes.last() as nat
    }
}

pub proof fn lemma_sizes_total_monotone(s: Seq<u64>, i: int)
    requires
        0 <= i <= s.len(),
    ensures
        sizes_total(s.take(i)) <= sizes_total(s),
    decreases s.len() - i,
{
    if i < s.len() {
        lemma_sizes_total_monotone(s, i + 1);
        assert(s.take(i + 1).drop_last() =~= s.take(i));
    } else {
        assert(s.take(i) =~= s);
    }
}

// ---------------------------------------------------------------------------
// The table
// ---------------------------------------------------------------------------

/// `s` shortened to `width` characters, its end marked by `...`, when it is
/// longer than that.
pub open spec fn truncated(s: Seq<char>, width: nat) -> Seq<char> {
    if s.len() <= width {
        s
    } else {
        s.take(if width >= 3 {
            width - 3
        } else {
            0
        }) + "..."@
    }
}

/// A name is cut only when it is longer than the width; a cut name ends
/// with `...` after the start of the name, and is as long as the width (or
/// three characters, for a width below three).
pub proof fn lemma_truncated_shape(s: Seq<char>, width: nat)
    ensures
        s.len() <= width ==> truncated(s, width) == s,
        s.len() > width ==> {
            let t = truncated(s, width);
            let keep = if width >= 3 {
                width - 3
            } else {
                0
            };
            &&& t.len() == keep + 3
            &&& t.take(keep as int) == s.take(keep as int)
            &&& has_suffix(t, "..."@)
        },
{
    reveal_strlit("...");
    if s.len() > width {
        let keep: int = if width >= 3 {
            width - 3
        } else {
            0
        };
        let t = truncated(s, width);
        assert(t.take(keep) =~= s.take(keep));
        assert(t.skip(t.len() - 3) =~= "..."@);
    }
}

/// `value` shortened to `width` characters, its end marked by `...`, when
/// it is longer than that.
pub fn truncate(value: &str, width: usize) -> (s: String)
    ensures
        s@ == truncated(value@, width as nat),
{
    let c = chars_of(value);
    if c.len() <= width {
        return string_from(value);
    }
    let keep = if width >= 3 {
        width - 3
    } else {
        0
    };
    let mut s = String::new();
    append_chars(&mut s, &c, 0, keep);
    append_str(&mut s, "...");
    assert(s@ =~= truncated(value@, width as nat));
    s
}

/// `n` spaces.
pub open spec fn spaces(n: nat) -> Seq<char> {
    Seq::new(n, |i: int| ' ')
}

/// `s` followed by spaces up to `width` characters, as `{:<width}` writes a
/// string.
pub open spec fn pad_right(s: Seq<char>, width: nat) -> Seq<char> {
    if s.len() >= width {
        s
    } else {
        s + spaces((width - s.len()) as nat)
    }
}

/// `s` after spaces up to `width` characters, as `{:>width}` writes a string.
pub open spec fn pad_left(s: Seq<char>, width: nat) -> Seq<char> {
    if s.len() >= width {
        s
    } else {
        spaces((width - s.len()) as nat) + s
    }
}

fn push_spaces(out: &mut String, n: usize)
    ensures
        final(out)@ == old(out)@ + spaces(n as nat),
{
    let mut i: usize = 0;
    while i < n
        invariant
            i <= n,
            out@ == old(out)@ + spaces(i as nat),
        decreases n - i,
    {
        push_char(out, ' ');
        i = i + 1;
        assert(out@ =~= old(out)@ + spaces(i as nat));
    }
}

/// Appends `s` padded on the right to `width` characters.
fn push_left_aligned(out: &mut String, s: &str, width: usize)
    ensures
        final(out)@ == old(out)@ + pad_right(s@, width as nat),
{
    let c = chars_of(s);
    append_chars(out, &c, 0, c.len());
    assert(c@.subrange(0, c@.len() as int) =~= c@);
    if c.len() < width {
        push_spaces(out, width - c.len());
    }
    assert(out@ =~= old(out)@ + pad_right(s@, width as nat));
}

/// Appends `s` padded on the left to `width` characters.
fn push_right_aligned(out: &mut String, s: &str, width: usize)
    ensures
        final(out)@ == old(out)@ + pad_left(s@, width as nat),
{
    let c = chars_of(s);
    if c.len() < width {
        push_spaces(out, width - c.len());
    }
    append_chars(out, &c, 0, c.len());
    assert(c@.subrange(0, c@.len() as int) =~= c@);
    assert(out@ =~= old(out)@ + pad_left(s@, width as nat));
}

/// The heading of the table.
pub open spec fn header_text() -> Seq<char> {
    pad_right("Provider"@, 12) + seq![' '] + pad_right("Model"@, 60) + seq![' '] + pad_right(
        "Status"@,
        10,
    ) + seq![' '] + pad_left("Size"@, 10) + seq![' '] + pad_left("CPU"@, 8) + seq![' ']
        + pad_left("Memory"@, 10) + seq![' '] + pad_left("PID"@, 8)
}

/// The PID column: the process id, else a dash.
pub open spec fn pid_text(pid: Option<u32>) -> Seq<char> {
    match pid {
        Some(p) => decimal(p as nat),
        None => dash(),
    }
}

/// The line of the table that shows `m`, with `cpu` in the CPU column. The
/// status is written as it is: unlike the other columns it is not padded.
pub open spec fn row_text(m: ModelView, cpu: Seq<char>) -> Seq<char> {
    pad_right(m.provider, 12) + seq![' '] + pad_right(truncated(m.name, 60), 60) + seq![' ']
        + status_text(m.status) + seq![' '] + pad_left(size_label_text(m), 10) + seq![' ']
        + pad_left(cpu, 8) + seq![' '] + pad_left(memory_label_text(m), 10) + seq![
        ' ',
    ] + pad_left(pid_text(m.pid), 8)
}

/// The heading of the table.
pub fn table_header() -> (s: String)
    ensures
        s@ == header_text(),
{
    let mut s = String::new();
    push_left_aligned(&mut s, "Provider", 12);
    push_char(&mut s, ' ');
    push_left_aligned(&mut s, "Model", 60);
    push_char(&mut s, ' ');
    push_left_aligned(&mut s, "Status", 10);
    push_char(&mut s, ' ');
    push_right_aligned(&mut s, "Size", 10);
    push_char(&mut s, ' ');
    push_right_aligned(&mut s, "CPU", 8);
    push_char(&mut s, ' ');
    push_right_aligned(&mut s, "Memory", 10);
    push_char(&mut s, ' ');
    push_right_aligned(&mut s, "PID", 8);
    assert(s@ =~= header_text());
    s
}

fn pid_string(pid: Option<u32>) -> (s: String)
    ensures
        s@ == pid_text(pid),
{
    let mut s = String::new();
    match pid {
        Some(p) => push_decimal(&mut s, p as u64),
        None => push_char(&mut s, '-'),
    }
    assert(s@ =~= pid_text(pid));
    s
}

/// The line of the table that shows `m`, with `cpu` in the CPU column.
pub fn table_row(m: &ModelInfo, cpu: &str) -> (s: String)
    ensures
        s@ == row_text(m@, cpu@),
{
    let mut s = String::new();
    push_left_aligned(&mut s, m.provider.as_str(), 12);
    push_char(&mut s, ' ');
    let name = truncate(m.name.as_str(), 60);
    push_left_aligned(&mut s, name.as_str(), 60);
    push_char(&mut s, ' ');
    let status = m.status.label();
    append_str(&mut s, status.as_str());
    push_char(&mut s, ' ');
    let size = m.size_label();
    push_right_aligned(&mut s, size.as_str(), 10);
    push_char(&mut s, ' ');
    push_right_aligned(&mut s, cpu, 8);
    push_char(&mut s, ' ');
    let memory = m.memory_label();
    push_right_aligned(&mut s, memory.as_str(), 10);
    push_char(&mut s, ' ');
    let pid = pid_string(m.pid);
    push_right_aligned(&mut s, pid.as_str(), 8);
    assert(s@ =~= row_text(m@, cpu@));
    s
}

} // verus!
