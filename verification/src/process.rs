use vstd::prelude::*;

use crate::llamacpp::{is_llamacpp_command, is_llamacpp_process, llamacpp_text};
use crate::lmstudio::lmstudio_text;
use crate::model::{
    models_view, processes_view, ModelInfo, ModelStatus, ModelView, ProcessInfo, ProcessView,
};
use crate::numbers::{parse_unsigned, parse_unsigned_chars};
use crate::ollama::{bare_row, ollama_text};
use crate::text::{
    append_chars, chars_of, contains_str, join, lines_of, lowercase, push_char, split_lines,
    split_words, string_from, string_of, to_lower, has_sub, words_of,
};

verus! {

// ---------------------------------------------------------------------------
// `ps -axo pid=,pcpu=,rss=,command=`
// ---------------------------------------------------------------------------

/// The resident memory, in kilobytes, that a line of `ps` gives.
pub open spec fn ps_rss_kb(w: Seq<Seq<char>>) -> Option<nat> {
    parse_unsigned(w[2], u64::MAX as nat)
}

/// A line of `ps` names a process: it has a process id, a CPU share, a
/// resident size and a command of at least one word, and the id is a `u32`.
pub open spec fn ps_line_kept(line: Seq<char>) -> bool {
    let w = words_of(line);
    w.len() >= 4 && parse_unsigned(w[0], u32::MAX as nat) is Some
}

/// The memory of every process that a line of `ps` names fits in a `u64`
/// once counted in bytes.
pub open spec fn ps_line_fits(line: Seq<char>) -> bool {
    ps_line_kept(line) ==> match ps_rss_kb(words_of(line)) {
        Some(kb) => kb * 1024 <= u64::MAX,
        None => true,
    }
}

/// The process that a line of `ps` names: its id, its CPU share as written,
/// its resident memory in bytes (when it reads as a
/// number of kilobytes), and the rest of its words joined by single spaces as
/// the command.
pub open spec fn ps_row(line: Seq<char>) -> Option<ProcessView> {
    let w = words_of(line);
    if ps_line_kept(line) {
        Some(
            ProcessView {
                pid: parse_unsigned(w[0], u32::MAX as nat).unwrap() as u32,
                cpu_text: Some(w[1]),
                memory_bytes: match ps_rss_kb(w) {
                    Some(kb) => Some((kb * 1024) as u64),
                    None => None,
                },
                command: join(w.skip(3), ' '),
            },
        )
    } else {
        None
    }
}

/// The processes that `lines` name, in order.
pub open spec fn ps_rows(lines: Seq<Seq<char>>) -> Seq<ProcessView>
    decreases lines.len(),
{
    if lines.len() == 0 {
        seq![]
    } else {
        match ps_row(lines[0]) {
            Some(p) => seq![p] + ps_rows(lines.drop_first()),
            None => ps_rows(lines.drop_first()),
        }
    }
}

/// Every process that `ps` printed has a memory size that fits in a `u64`.
pub open spec fn ps_output_fits(text: Seq<char>) -> bool {
    forall|i: int| 0 <= i < lines_of(text).len() ==> ps_line_fits(#[trigger] lines_of(text)[i])
}

/// `words[from..]` joined by single spaces.
fn join_words(words: &Vec<Vec<char>>, from: usize) -> (s: String)
    requires
        from <= words@.len(),
    ensures
        s@ == join(words@.map_values(|v: Vec<char>| v@).skip(from as int), ' '),
{
    let ghost w = words@.map_values(|v: Vec<char>| v@);
    let mut s = String::new();
    let mut i = from;
    assert(w.skip(from as int).take(0) =~= Seq::<Seq<char>>::empty());
    while i < words.len()
        invariant
            from <= i <= words@.len(),
            w == words@.map_values(|v: Vec<char>| v@),
            s@ == join(w.skip(from as int).take(i - from), ' '),
        decreases words.len() - i,
    {
        let ghost parts = w.skip(from as int).take(i - from);
        if i > from {
            push_char(&mut s, ' ');
        }
        append_chars(&mut s, &words[i], 0, words[i].len());
        assert(words[i as int]@.subrange(0, words[i as int]@.len() as int) =~= words[i as int]@);
        assert(w[i as int] == words@[i as int]@);
        assert(w.skip(from as int).take(i + 1 - from).drop_last() =~= parts);
        assert(w.skip(from as int).take(i + 1 - from).last() == w[i as int]);
        assert(s@ =~= join(w.skip(from as int).take(i + 1 - from), ' '));
        i = i + 1;
    }
    assert(w.skip(from as int).take(words@.len() - from) =~= w.skip(from as int));
    s
}

/// Whether a line of `ps` names a process whose memory in bytes does not
/// fit in a `u64`.
fn line_overflows(words: &Vec<Vec<char>>) -> (r: bool)
    ensures
        r == !ps_line_fits_words(words@.map_values(|v: Vec<char>| v@)),
{
    let ghost w = words@.map_values(|v: Vec<char>| v@);
    if words.len() < 4 {
        return false;
    }
    assert(w[0] == words@[0]@ && w[2] == words@[2]@);
    if parse_unsigned_chars(&words[0], 0xffff_ffff).is_none() {
        return false;
    }
    match parse_unsigned_chars(&words[2], u64::MAX) {
        Some(kb) => kb > u64::MAX / 1024,
        None => false,
    }
}

/// `ps_line_fits`, for the words of a line.
pub open spec fn ps_line_fits_words(w: Seq<Seq<char>>) -> bool {
    (w.len() >= 4 && parse_unsigned(w[0], u32::MAX as nat) is Some) ==> match ps_rss_kb(w) {
        Some(kb) => kb * 1024 <= u64::MAX,
        None => true,
    }
}

/// The process that a line of `ps` names, if any.
fn parse_ps_line(words: &Vec<Vec<char>>) -> (p: Option<ProcessInfo>)
    requires
        ps_line_fits_words(words@.map_values(|v: Vec<char>| v@)),
    ensures
        ({
            let w = words@.map_values(|v: Vec<char>| v@);
            match p {
                Some(p) => w.len() >= 4 && parse_unsigned(w[0], u32::MAX as nat) is Some && p@
                    == ProcessView {
                    pid: parse_unsigned(w[0], u32::MAX as nat).unwrap() as u32,
                    cpu_text: Some(w[1]),
                    memory_bytes: match ps_rss_kb(w) {
                        Some(kb) => Some((kb * 1024) as u64),
                        None => None,
                    },
                    command: join(w.skip(3), ' '),
                },
                None => !(w.len() >= 4 && parse_unsigned(w[0], u32::MAX as nat) is Some),
            }
        }),
{
    let ghost w = words@.map_values(|v: Vec<char>| v@);
    if words.len() < 4 {
        return None;
    }
    assert(w[0] == words@[0]@ && w[1] == words@[1]@ && w[2] == words@[2]@);
    let pid = match parse_unsigned_chars(&words[0], 0xffff_ffff) {
        Some(pid) => pid as u32,
        None => {
            return None;
        },
    };
    let cpu_text = Some(string_of(&words[1]));
    let memory_bytes = match parse_unsigned_chars(&words[2], u64::MAX) {
        Some(kb) => Some(kb * 1024),
        None => None,
    };
    let command = join_words(words, 3);
    Some(ProcessInfo { pid, cpu_text, memory_bytes, command })
}

/// The processes that `ps -axo pid=,pcpu=,rss=,command=` printed.
pub fn parse_ps_output(output: &str) -> (processes: Vec<ProcessInfo>)
    requires
        ps_output_fits(output@),
    ensures
        processes_view(processes@) == ps_rows(lines_of(output@)),
{
    let text = chars_of(output);
    let lines = split_lines(&text);
    let ghost ls = lines@.map_values(|l: Vec<char>| l@);
    let mut out: Vec<ProcessInfo> = Vec::new();
    let mut i: usize = 0;
    assert(ls.skip(0) =~= ls);
    assert(processes_view(out@) + ps_rows(ls) =~= ps_rows(ls));
    while i < lines.len()
        invariant
            i <= lines@.len(),
            ls == lines@.map_values(|l: Vec<char>| l@),
            ls == lines_of(output@),
            ps_output_fits(output@),
            ps_rows(ls) == processes_view(out@) + ps_rows(ls.skip(i as int)),
        decreases lines.len() - i,
    {
        let words = split_words(&lines[i]);
        assert(ls[i as int] == lines@[i as int]@);
        assert(ps_line_fits(ls[i as int]));
        assert(ls.skip(i as int)[0] == ls[i as int]);
        assert(ls.skip(i as int).drop_first() =~= ls.skip(i + 1));
        let ghost old_out = processes_view(out@);
        match parse_ps_line(&words) {
            Some(p) => {
                out.push(p);
                assert(processes_view(out@) =~= old_out + seq![p@]);
            },
            None => {
                assert(processes_view(out@) =~= old_out);
            },
        }
        i = i + 1;
    }
    assert(ls.skip(i as int) =~= Seq::<Seq<char>>::empty());
    assert(processes_view(out@) + Seq::<ProcessView>::empty() =~= processes_view(out@));
    out
}

/// The processes that `ps` printed, or `None` where the memory of one of
/// them, in bytes, does not fit in a `u64`.
pub fn try_parse_ps_output(output: &str) -> (processes: Option<Vec<ProcessInfo>>)
    ensures
        match processes {
            Some(ps) => ps_output_fits(output@) && processes_view(ps@) == ps_rows(
                lines_of(output@),
            ),
            None => !ps_output_fits(output@),
        },
{
    let text = chars_of(output);
    let lines = split_lines(&text);
    let ghost ls = lines@.map_values(|l: Vec<char>| l@);
    let mut i: usize = 0;
    while i < lines.len()
        invariant
            i <= lines@.len(),
            ls == lines@.map_values(|l: Vec<char>| l@),
            ls == lines_of(output@),
            forall|j: int| 0 <= j < i ==> ps_line_fits(#[trigger] ls[j]),
        decreases lines.len() - i,
    {
        let words = split_words(&lines[i]);
        assert(ls[i as int] == lines@[i as int]@);
        if line_overflows(&words) {
            return None;
        }
        i = i + 1;
    }
    Some(parse_ps_output(output))
}

// ---------------------------------------------------------------------------
// Which processes matter
// ---------------------------------------------------------------------------

/// A lower-cased command line that belongs to a local model runner: it
/// mentions `ollama`, `lm studio`, `lmstudio` or `lms`, or it runs llama.cpp
/// once lower-cased again.
pub open spec fn is_relevant_lowered(lower: Seq<char>) -> bool {
    ||| has_sub(lower, "ollama"@)
    ||| has_sub(lower, "lm studio"@)
    ||| has_sub(lower, "lmstudio"@)
    ||| has_sub(lower, "lms"@)
    ||| is_llamacpp_command(lowercase(lower))
}

/// A command line that belongs to a local model runner, whatever its case.
pub open spec fn is_relevant(command: Seq<char>) -> bool {
    is_relevant_lowered(lowercase(command))
}

/// Whether a lower-cased command line belongs to a local model runner.
pub fn relevant_lowered(lower: &str) -> (b: bool)
    ensures
        b == is_relevant_lowered(lower@),
{
    let c = chars_of(lower);
    contains_str(&c, "ollama") || contains_str(&c, "lm studio") || contains_str(&c, "lmstudio")
        || contains_str(&c, "lms") || is_llamacpp_process(lower)
}

/// The processes among `processes` that belong to a local model runner, in
/// their order.
pub fn relevant_processes(processes: Vec<ProcessInfo>) -> (kept: Vec<ProcessInfo>)
    ensures
        processes_view(kept@) == processes_view(processes@).filter(
            |p: ProcessView| is_relevant(p.command),
        ),
{
    let ghost all = processes_view(processes@);
    let ghost pred = |p: ProcessView| is_relevant(p.command);
    let mut processes = processes;
    let n = processes.len();
    let mut kept: Vec<ProcessInfo> = Vec::new();
    let mut i: usize = 0;
    proof {
        assert(all.take(0) =~= Seq::<ProcessView>::empty());
        reveal(Seq::filter);
        assert(all.take(0).filter(pred) =~= Seq::<ProcessView>::empty());
        assert(processes_view(kept@) =~= Seq::<ProcessView>::empty());
    }
    while i < n
        invariant
            n == all.len(),
            i <= n,
            processes_view(processes@) == all.skip(i as int),
            processes_view(kept@) == all.take(i as int).filter(pred),
            pred == |p: ProcessView| is_relevant(p.command),
        decreases n - i,
    {
        let ghost rest = processes@;
        assert(rest.len() == processes_view(rest).len());
        let p = processes.remove(0);
        assert(p@ == all[i as int]) by {
            assert(all.skip(i as int)[0] == all[i as int]);
            assert(processes_view(rest)[0] == rest[0]@);
        }
        assert forall|j: int| 0 <= j < processes@.len() implies #[trigger] processes_view(
            processes@,
        )[j] == all.skip(i + 1)[j] by {
            assert(processes@[j] == rest[j + 1]);
            assert(processes_view(rest)[j + 1] == rest[j + 1]@);
            assert(all.skip(i as int)[j + 1] == all.skip(i + 1)[j]);
        }
        assert(processes_view(processes@) =~= all.skip(i + 1));
        proof {
            assert(all.take(i + 1) =~= all.take(i as int).push(p@));
            all.take(i as int).lemma_filter_push(p@, pred);
        }
        let ghost old_kept = processes_view(kept@);
        let lower = to_lower(p.command.as_str());
        if relevant_lowered(lower.as_str()) {
            kept.push(p);
            assert(processes_view(kept@) =~= old_kept.push(p@));
        } else {
            assert(processes_view(kept@) =~= old_kept);
        }
        i = i + 1;
    }
    assert(all.take(n as int) =~= all);
    kept
}

/// `ps` gives at most one process for each line it printed.
pub proof fn lemma_at_most_one_process_per_line(lines: Seq<Seq<char>>)
    ensures
        ps_rows(lines).len() <= lines.len(),
    decreases lines.len(),
{
    if lines.len() > 0 {
        lemma_at_most_one_process_per_line(lines.drop_first());
    }
}

/// Only processes of local model runners are kept, none is added, and
/// their order is kept: the result is the input with the others left out.
pub proof fn lemma_relevant_processes_are_relevant(processes: Seq<ProcessView>)
    ensures
        ({
            let kept = processes.filter(|p: ProcessView| is_relevant(p.command));
            &&& kept.len() <= processes.len()
            &&& forall|i: int| 0 <= i < kept.len() ==> is_relevant((#[trigger] kept[i]).command)
            &&& forall|i: int| 0 <= i < kept.len() ==> processes.contains(#[trigger] kept[i])
        }),
{
    let pred = |p: ProcessView| is_relevant(p.command);
    let kept = processes.filter(pred);
    processes.lemma_filter_len(pred);
    assert forall|i: int| 0 <= i < kept.len() implies is_relevant((#[trigger] kept[i]).command)
        && processes.contains(kept[i]) by {
        processes.lemma_filter_pred(pred, i);
        assert(kept.contains(kept[i]));
        processes.lemma_filter_contains_rev(pred, kept[i]);
    }
}

/// Whatever `is_llamacpp_process` recognises in a lower-cased command line,
/// relevance keeps: every llama.cpp runner is a model runner.
pub proof fn lemma_llamacpp_runners_are_relevant(lower: Seq<char>)
    ensures
        is_llamacpp_command(lowercase(lower)) ==> is_relevant_lowered(lower),
{
}

/// A process is kept when its lower-cased command line mentions `ollama`,
/// `lm studio`, `lmstudio` or `lms`, or when `is_llamacpp_process` recognises
/// that lower-cased line (as `llama-cli`, `llama-server`, `llama.cpp` or a
/// `/main` binary).
pub proof fn lemma_model_runners_are_kept(processes: Seq<ProcessView>, q: int)
    requires
        0 <= q < processes.len(),
    ensures
        ({
            let p = processes[q];
            let lower = lowercase(p.command);
            let kept = processes.filter(|p: ProcessView| is_relevant(p.command));
            &&& has_sub(lower, "ollama"@) ==> kept.contains(p)
            &&& has_sub(lower, "lm studio"@) ==> kept.contains(p)
            &&& has_sub(lower, "lmstudio"@) ==> kept.contains(p)
            &&& has_sub(lower, "lms"@) ==> kept.contains(p)
            &&& is_llamacpp_command(lowercase(lower)) ==> kept.contains(p)
        }),
{
    let pred = |p: ProcessView| is_relevant(p.command);
    if pred(processes[q]) {
        processes.lemma_filter_contains(pred, q);
    }
}

// ---------------------------------------------------------------------------
// Processes as rows
// ---------------------------------------------------------------------------

/// The provider that a command line belongs to: Ollama when it mentions
/// `ollama`, LM Studio when it mentions `lm studio`, `lmstudio` or `lms`,
/// llama.cpp otherwise (all once lower-cased).
pub open spec fn provider_of_lowered(lower: Seq<char>) -> Seq<char> {
    if has_sub(lower, "ollama"@) {
        ollama_text()
    } else if has_sub(lower, "lm studio"@) || has_sub(lower, "lmstudio"@) || has_sub(
        lower,
        "lms"@,
    ) {
        lmstudio_text()
    } else {
        llamacpp_text()
    }
}

/// The provider that a lower-cased command line belongs to.
pub fn provider_lowered(lower: &str) -> (s: &'static str)
    ensures
        s@ == provider_of_lowered(lower@),
{
    let c = chars_of(lower);
    if contains_str(&c, "ollama") {
        "ollama"
    } else if contains_str(&c, "lm studio") || contains_str(&c, "lmstudio") || contains_str(
        &c,
        "lms",
    ) {
        "lmstudio"
    } else {
        "llama.cpp"
    }
}

/// The provider that a command line belongs to, whatever its case.
pub fn process_provider(command: &str) -> (s: &'static str)
    ensures
        s@ == provider_of_lowered(lowercase(command@)),
{
    let lower = to_lower(command);
    provider_lowered(lower.as_str())
}

/// The row that shows a process.
pub open spec fn process_row(p: ProcessView) -> ModelView {
    ModelView {
        pid: Some(p.pid),
        cpu_text: p.cpu_text,
        memory_bytes: p.memory_bytes,
        ..bare_row(provider_of_lowered(lowercase(p.command)), p.command, ModelStatus::Process)
    }
}

/// Each process is shown as one row, in order: a process row named by its
/// command line, with the provider that `process_provider` gives it, its id,
/// CPU share and resident memory, and no size.
pub proof fn lemma_process_rows_show_processes(processes: Seq<ProcessView>)
    ensures
        ({
            let rows = processes.map_values(|p: ProcessView| process_row(p));
            &&& rows.len() == processes.len()
            &&& forall|i: int|
                #![trigger rows[i]]
                0 <= i < rows.len() ==> {
                    &&& rows[i].status == ModelStatus::Process
                    &&& rows[i].name == processes[i].command
                    &&& rows[i].provider == provider_of_lowered(lowercase(processes[i].command))
                    &&& rows[i].pid == Some(processes[i].pid)
                    &&& rows[i].cpu_text == processes[i].cpu_text
                    &&& rows[i].memory_bytes == processes[i].memory_bytes
                    &&& rows[i].size_bytes is None
                    &&& rows[i].size_text is None
                    &&& rows[i].path is None
                }
        }),
{
}

/// Each process that `ps` gives comes from one of its lines, and shows what
/// that line says: the id is the line's first word read as a `u32`, the CPU
/// share its second word, the memory its third word read as kilobytes (in
/// bytes), and the command its remaining words, of which there is at least
/// one.
pub proof fn lemma_processes_come_from_lines(lines: Seq<Seq<char>>)
    ensures
        forall|i: int|
            #![trigger ps_rows(lines)[i]]
            0 <= i < ps_rows(lines).len() ==> exists|q: int|
                0 <= q < lines.len() && reads_line(ps_rows(lines)[i], #[trigger] lines[q]),
    decreases lines.len(),
{
    if lines.len() > 0 {
        let rest = lines.drop_first();
        lemma_processes_come_from_lines(rest);
        let rows = ps_rows(lines);
        let rest_rows = ps_rows(rest);
        assert forall|i: int| #![trigger rows[i]] 0 <= i < rows.len() implies exists|q: int|
            0 <= q < lines.len() && reads_line(rows[i], #[trigger] lines[q]) by {
            let r = if ps_row(lines[0]) is Some {
                i - 1
            } else {
                i
            };
            if ps_row(lines[0]) is Some && i == 0 {
                assert(reads_line(rows[0], lines[0]));
            } else {
                assert(rows[i] == rest_rows[r]);
                let q = choose|q: int| 0 <= q < rest.len() && reads_line(rest_rows[r], #[trigger] rest[q]);
                assert(lines[q + 1] == rest[q]);
            }
        }
    }
}

/// `p` is what the line `line` of `ps` says.
pub open spec fn reads_line(p: ProcessView, line: Seq<char>) -> bool {
    let w = words_of(line);
    &&& w.len() >= 4
    &&& parse_unsigned(w[0], u32::MAX as nat) == Some(p.pid as nat)
    &&& p.cpu_text == Some(w[1])
    &&& p.memory_bytes == match parse_unsigned(w[2], u64::MAX as nat) {
        Some(kb) => Some((kb * 1024) as u64),
        None => None,
    }
    &&& p.command == join(w.skip(3), ' ')
}

/// The rows that show `processes`, in their order.
pub fn processes_to_rows(processes: Vec<ProcessInfo>) -> (rows: Vec<ModelInfo>)
    ensures
        models_view(rows@) == processes_view(processes@).map_values(
            |p: ProcessView| process_row(p),
        ),
{
    let ghost all = processes_view(processes@);
    let mut processes = processes;
    let n = processes.len();
    let mut rows: Vec<ModelInfo> = Vec::new();
    let mut i: usize = 0;
    while i < n
        invariant
            n == all.len(),
            i <= n,
            processes_view(processes@) == all.skip(i as int),
            models_view(rows@) == all.take(i as int).map_values(|p: ProcessView| process_row(p)),
        decreases n - i,
    {
        let ghost rest = processes@;
        assert(rest.len() == processes_view(rest).len());
        let p = processes.remove(0);
        assert(p@ == all[i as int]) by {
            assert(all.skip(i as int)[0] == all[i as int]);
            assert(processes_view(rest)[0] == rest[0]@);
        }
        assert forall|j: int| 0 <= j < processes@.len() implies #[trigger] processes_view(
            processes@,
        )[j] == all.skip(i + 1)[j] by {
            assert(processes@[j] == rest[j + 1]);
            assert(processes_view(rest)[j + 1] == rest[j + 1]@);
            assert(all.skip(i as int)[j + 1] == all.skip(i + 1)[j]);
        }
        assert(processes_view(processes@) =~= all.skip(i + 1));
        let provider = process_provider(p.command.as_str());
        let m = ModelInfo {
            provider: string_from(provider),
            name: p.command,
            status: ModelStatus::Process,
            size_bytes: None,
            size_text: None,
            pid: Some(p.pid),
            cpu_text: p.cpu_text,
            memory_bytes: p.memory_bytes,
            path: None,
        };
        let ghost old_rows = models_view(rows@);
        rows.push(m);
        assert(models_view(rows@) =~= old_rows.push(m@));
        assert(all.take(i + 1).map_values(|p: ProcessView| process_row(p)) =~= all.take(
            i as int,
        ).map_values(|p: ProcessView| process_row(p)).push(process_row(all[i as int])));
        i = i + 1;
    }
    assert(all.take(n as int) =~= all);
    rows
}

} // verus!
